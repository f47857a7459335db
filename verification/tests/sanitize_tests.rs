use pnggrep::png::{extract_png_metadata, PNG_MAGIC};
use pnggrep::sanitize::{
    compute_sanitized_path, crc32, is_sanitized_file, sanitize_content, sanitize_pdf,
    sanitize_png, sanitize_svg, target_action, TargetAction,
};
use pnggrep::model::MetadataEntry;

#[test]
fn test_crc32_accuracy() {
    let input = b"123456789";
    assert_eq!(crc32(input), 0xCBF4_3926);
}

#[test]
fn test_sanitize_png() {
    let mut raw_png = PNG_MAGIC.to_vec();
    let chunk_data = b"SourceCode\0print('secret code')";
    raw_png.extend_from_slice(&(chunk_data.len() as u32).to_be_bytes());
    raw_png.extend_from_slice(b"tEXt");
    raw_png.extend_from_slice(chunk_data);
    raw_png.extend_from_slice(&[0, 0, 0, 0]);

    raw_png.extend_from_slice(&0u32.to_be_bytes());
    raw_png.extend_from_slice(b"IEND");
    raw_png.extend_from_slice(&[0xAE, 0x42, 0x60, 0x82]);

    let sanitized = sanitize_png(&raw_png).unwrap();
    assert!(!sanitized.windows(10).any(|w| w == b"SourceCode"));
    assert!(sanitized.windows(11).any(|w| w == b"SanitizedBy"));
}

#[test]
fn test_sanitize_svg() {
    let raw_svg = r#"<svg><metadata><rdf:RDF xmlns:dc="http://purl.org/dc/elements/1.1/"><dc:description>{"secret": 123}</dc:description></rdf:RDF></metadata><circle/></svg>"#;
    let sanitized = sanitize_svg(raw_svg).unwrap();
    assert!(!sanitized.contains("secret"));
    assert!(sanitized.contains("sanitized_by"));
}

#[test]
fn test_refuse_overwrite_non_sanitized() {
    let mut dummy = PNG_MAGIC.to_vec();
    dummy.extend_from_slice(&0u32.to_be_bytes());
    dummy.extend_from_slice(b"IEND");
    dummy.extend_from_slice(&[0xAE, 0x42, 0x60, 0x82]);

    let entries = extract_png_metadata(&dummy).unwrap();
    assert!(!is_sanitized_file(&entries));
}

#[test]
fn crc32_of_empty_input() {
    assert_eq!(crc32(b""), 0);
    assert_eq!(crc32(b"IEND"), 0xAE42_6082);
}

#[test]
fn sanitized_png_reads_back_as_stamped() {
    let mut raw_png = PNG_MAGIC.to_vec();
    raw_png.extend_from_slice(&13u32.to_be_bytes());
    raw_png.extend_from_slice(b"IHDR");
    raw_png.extend_from_slice(&[1; 13]);
    raw_png.extend_from_slice(&[9, 9, 9, 9]);
    let text = b"Secret\0value";
    raw_png.extend_from_slice(&(text.len() as u32).to_be_bytes());
    raw_png.extend_from_slice(b"zTXt");
    raw_png.extend_from_slice(text);
    raw_png.extend_from_slice(&[0, 0, 0, 0]);
    raw_png.extend_from_slice(&0u32.to_be_bytes());
    raw_png.extend_from_slice(b"IEND");
    raw_png.extend_from_slice(&[0xAE, 0x42, 0x60, 0x82]);
    raw_png.extend_from_slice(b"trailing");

    let out = sanitize_png(&raw_png).unwrap();
    let mut expected = PNG_MAGIC.to_vec();
    expected.extend_from_slice(&raw_png[8..33]);
    expected.extend_from_slice(&19u32.to_be_bytes());
    expected.extend_from_slice(b"tEXtSanitizedBy\0pnggrep");
    expected.extend_from_slice(&crc32(b"tEXtSanitizedBy\0pnggrep").to_be_bytes());
    expected.extend_from_slice(&[0, 0, 0, 0]);
    expected.extend_from_slice(b"IEND");
    expected.extend_from_slice(&[0xAE, 0x42, 0x60, 0x82]);
    assert_eq!(out, expected);

    let entries = extract_png_metadata(&out).unwrap();
    assert_eq!(entries.len(), 1);
    assert_eq!(entries[0].key, "SanitizedBy");
    assert_eq!(entries[0].value, "pnggrep");
    assert!(is_sanitized_file(&entries));
}

#[test]
fn sanitize_png_errors() {
    assert_eq!(sanitize_png(b"GIF89a..").unwrap_err(), "Not a valid PNG file");
    assert_eq!(sanitize_png(b"\x89PNG").unwrap_err(), "Not a valid PNG file");
    let mut bad = PNG_MAGIC.to_vec();
    bad.extend_from_slice(&50u32.to_be_bytes());
    bad.extend_from_slice(b"IDAT");
    bad.extend_from_slice(&[0; 10]);
    assert_eq!(sanitize_png(&bad).unwrap_err(), "Corrupt PNG chunk structure");
}

#[test]
fn sanitize_svg_without_metadata_block() {
    let out = sanitize_svg("<svg><rect/></svg>").unwrap();
    assert_eq!(
        out,
        "<svg><rect/><metadata>\n    <rdf:RDF xmlns:dc=\"http://purl.org/dc/elements/1.1/\">\n      <dc:description>{\"sanitized_by\": \"pnggrep\"}</dc:description>\n    </rdf:RDF>\n  </metadata>\n</svg>"
    );
    assert_eq!(sanitize_svg("plain text").unwrap(), "plain text");
}

#[test]
fn sanitized_file_detection() {
    let stamp = |k: &str, v: &str| MetadataEntry { key: k.to_string(), value: v.to_string() };
    assert!(is_sanitized_file(&[stamp("SanitizedBy", "PNGGREP")]));
    assert!(is_sanitized_file(&[stamp("Description/sanitized_by", "pnggrep")]));
    assert!(is_sanitized_file(&[stamp("Other", "x"), stamp("Meta/sanitized_by", "pnggrep")]));
    assert!(!is_sanitized_file(&[stamp("SanitizedBy", "someone")]));
    assert!(!is_sanitized_file(&[stamp("Meta/Sanitized_By", "pnggrep")]));
}

#[test]
fn sanitized_path_names() {
    assert_eq!(compute_sanitized_path("plot.png"), Some("plot_sanitized.png".to_string()));
    assert_eq!(
        compute_sanitized_path("figures/plot.png"),
        Some("figures/plot_sanitized.png".to_string())
    );
    assert_eq!(
        compute_sanitized_path("/data/run.v2.svg"),
        Some("/data/run.v2_sanitized.svg".to_string())
    );
    assert_eq!(compute_sanitized_path("plot_sanitized.png"), None);
    assert_eq!(compute_sanitized_path("figures/plot_sanitized.png"), None);
    assert_eq!(compute_sanitized_path("README"), None);
    assert_eq!(compute_sanitized_path(".bashrc"), None);
    assert_eq!(compute_sanitized_path("figures/.."), None);
}

#[test]
fn sanitize_pdf_cases() {
    let content = b"%PDF-1.4\n<< /Producer (x) /Title (secret title padded out a bit more so it is long enough) >>\n%%EOF".to_vec();
    let start = 9;
    let len = content.len() - 9 - 6;
    let out = sanitize_pdf(&content, true, Some((start, len))).unwrap();
    assert_eq!(out.len(), content.len());
    assert_eq!(&out[..start], &content[..start]);
    assert_eq!(&out[start + len..], &content[start + len..]);
    let dict = &out[start..start + len];
    assert!(dict.starts_with(b"<< /Producer (matplotlib) /Keywords ({\"sanitized_by\": \"pnggrep\"})"));
    assert!(dict.ends_with(b" >>"));
    assert_eq!(
        sanitize_pdf(&content, false, Some((start, len))).unwrap_err(),
        "File is not a recognized Matplotlib or smart_savefig PDF"
    );
    assert_eq!(sanitize_pdf(&content, true, None).unwrap_err(), "Could not locate PDF Info dictionary");
    assert_eq!(
        sanitize_pdf(&content, true, Some((start, 10))).unwrap_err(),
        "PDF Info dictionary is too small to safely overwrite in-place"
    );
}

#[test]
fn sanitized_svg_reads_back_as_stamped() {
    let raw = "<svg><metadata><dc:title>secret</dc:title></metadata><g/></svg>";
    let out = sanitize_svg(raw).unwrap();
    let entries = pnggrep::svg::extract_svg_metadata(&out, out.len() as u64);
    assert_eq!(entries.len(), 1);
    assert_eq!(entries[0].key, "Description/sanitized_by");
    assert_eq!(entries[0].value, "pnggrep");
    assert!(is_sanitized_file(&entries));
    assert_eq!(sanitize_svg(&out).unwrap(), out);
}

fn tiny_png() -> Vec<u8> {
    let mut png = PNG_MAGIC.to_vec();
    png.extend_from_slice(&0u32.to_be_bytes());
    png.extend_from_slice(b"IEND");
    png.extend_from_slice(&[0xAE, 0x42, 0x60, 0x82]);
    png
}

#[test]
fn content_is_sanitized_by_extension_ignoring_case() {
    let png = tiny_png();
    assert_eq!(sanitize_content("PNG", png.clone(), false, None), sanitize_png(&png));
    let svg = "<svg><metadata>x</metadata></svg>";
    let out = sanitize_content("Svg", svg.as_bytes().to_vec(), false, None).unwrap();
    assert_eq!(String::from_utf8(out).unwrap(), sanitize_svg(svg).unwrap());
    assert_eq!(
        sanitize_content("pdf", b"%PDF-1.4".to_vec(), false, None),
        Err("File is not a recognized Matplotlib or smart_savefig PDF".to_string())
    );
}

#[test]
fn content_of_unknown_format_or_bad_text_is_refused() {
    assert_eq!(
        sanitize_content("JPG", vec![1, 2, 3], false, None),
        Err("Unsupported format: jpg".to_string())
    );
    assert_eq!(
        sanitize_content("svg", vec![0x3c, 0xff, 0x3e], false, None),
        Err("stream did not contain valid UTF-8".to_string())
    );
}

#[test]
fn target_is_overwritten_only_when_stamped() {
    let stamped = vec![MetadataEntry { key: "SanitizedBy".to_string(), value: "pnggrep".to_string() }];
    let other = vec![MetadataEntry { key: "SourceCode".to_string(), value: "x".to_string() }];
    assert_eq!(target_action(false, None), TargetAction::Create);
    assert_eq!(target_action(true, Some(&stamped)), TargetAction::Overwrite);
    assert_eq!(target_action(true, Some(&other)), TargetAction::Refuse);
    assert_eq!(target_action(true, Some(&[])), TargetAction::Refuse);
    assert_eq!(target_action(true, None), TargetAction::Refuse);
}

#[test]
fn sanitizing_svg_twice_changes_nothing() {
    for raw in [
        "<svg><metadata><dc:title>t</dc:title></metadata><g/></svg>",
        "<svg><g/></svg>",
        "plain text",
    ] {
        let once = sanitize_svg(raw).unwrap();
        assert_eq!(sanitize_svg(&once).unwrap(), once);
    }
}

#[test]
fn sanitized_png_keeps_other_chunks_in_order() {
    let chunk = |kind: &[u8; 4], data: &[u8]| {
        let mut c = (data.len() as u32).to_be_bytes().to_vec();
        c.extend_from_slice(kind);
        c.extend_from_slice(data);
        c.extend_from_slice(&[1, 2, 3, 4]);
        c
    };
    let ihdr = chunk(b"IHDR", &[0; 13]);
    let text = chunk(b"tEXt", b"Key\0secret");
    let idat = chunk(b"IDAT", &[9, 9, 9]);
    let iend = chunk(b"IEND", &[]);
    let mut input = PNG_MAGIC.to_vec();
    for c in [&ihdr, &text, &idat, &iend] {
        input.extend_from_slice(c);
    }
    input.extend_from_slice(b"trailing");
    let mut marker = 19u32.to_be_bytes().to_vec();
    marker.extend_from_slice(b"tEXt");
    marker.extend_from_slice(b"SanitizedBy\0pnggrep");
    marker.extend_from_slice(&crc32(b"tEXtSanitizedBy\0pnggrep").to_be_bytes());
    let mut expected = PNG_MAGIC.to_vec();
    for c in [&ihdr, &idat, &marker, &iend] {
        expected.extend_from_slice(c);
    }
    assert_eq!(sanitize_png(&input).unwrap(), expected);
}
