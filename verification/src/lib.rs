//! Finding, listing and stripping the metadata that plotting scripts embed in
//! figures: PNG text chunks, SVG `<metadata>` blocks and PDF Info
//! dictionaries.
pub mod model;
pub mod paths;
pub mod png;
pub mod sanitize;
pub mod svg;
pub mod text;
pub mod walker;
