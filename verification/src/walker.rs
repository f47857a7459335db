//! Traversal rules and terminal reports: which directories are skipped and
//! why, terminal-safe text, and the lines that searching and listing a
//! figure's metadata print.
use vstd::prelude::*;
use crate::model::{
    ambiguous_message, entries_view, keys_at, keys_of, missing_message, resolution, resolve_key,
    MetadataEntry, Resolution,
};
use crate::paths::{components_of, path_components, texts};
use crate::text::{
    append_chars, chars_of, contains, contains_chars, decimal, decimal_chars,
    eq_ignore_ascii_case, eq_ignore_case, is_ascii_alpha, is_control, is_control_char,
    lines, lower_text, pad_left, pad_left_chars, split_lines, str_to_lowercase, string_of,
    trim_end, trim_end_char, trim_end_chars, trim_end_matches_char, digit_char, matches_at,
    spaces,
};

verus! {

/// What a traversal does with each supported figure it meets.
#[derive(Clone, Debug)]
pub enum RunMode {
    /// Print the entries and lines that contain a (lower-case) pattern.
    Search { pattern: String, key_filter: Option<String> },
    /// Print every entry, at most `max_lines` lines each (0: all).
    List { max_lines: usize, key_filter: Option<String> },
}

// ---------------------------------------------------------------------------
// Terminal safety
// ---------------------------------------------------------------------------

/// The text of `s[i..]` made safe for a terminal: ANSI escape sequences (from
/// ESC through the next ASCII letter) and control characters other than tab,
/// line feed and carriage return are removed.
pub open spec fn terminal_clean_from(s: Seq<char>, i: int, in_escape: bool) -> Seq<char>
    decreases s.len() - i,
{
    if i < 0 || i >= s.len() {
        Seq::empty()
    } else {
        let c = s[i];
        if c == '\x1b' {
            terminal_clean_from(s, i + 1, true)
        } else if in_escape {
            terminal_clean_from(s, i + 1, !is_ascii_alpha(c))
        } else if c == '\t' || c == '\n' || c == '\r' || !is_control_char(c) {
            seq![c] + terminal_clean_from(s, i + 1, false)
        } else {
            terminal_clean_from(s, i + 1, false)
        }
    }
}

/// A text made safe for a terminal.
pub open spec fn terminal_clean(s: Seq<char>) -> Seq<char> {
    terminal_clean_from(s, 0, false)
}

fn terminal_clean_chars(s: &[char]) -> (r: Vec<char>)
    ensures
        r@ == terminal_clean(s@),
{
    let n = s.len();
    let mut out: Vec<char> = Vec::new();
    let mut in_escape = false;
    let mut i: usize = 0;
    while i < n
        invariant
            i <= n == s@.len(),
            out@ + terminal_clean_from(s@, i as int, in_escape) == terminal_clean(s@),
        decreases n - i,
    {
        let c = s[i];
        let ghost before = out@;
        if c == '\x1b' {
            in_escape = true;
        } else if in_escape {
            if ('a' <= c && c <= 'z') || ('A' <= c && c <= 'Z') {
                in_escape = false;
            }
        } else if c == '\t' || c == '\n' || c == '\r' || !is_control(c) {
            out.push(c);
            assert(before + terminal_clean_from(s@, i as int, false) =~= out@
                + terminal_clean_from(s@, i + 1, false));
        }
        i += 1;
    }
    assert(out@ + Seq::<char>::empty() =~= out@);
    out
}


/// Whether a character may reach the terminal: no control character other
/// than tab, line feed and carriage return (so no escape character).
pub open spec fn terminal_safe(c: char) -> bool {
    !is_control_char(c) || c == '\t' || c == '\n' || c == '\r'
}

/// Text made safe for a terminal holds no escape character and no control
/// character other than tab, line feed and carriage return.
pub proof fn lemma_terminal_clean_is_safe(s: Seq<char>, i: int, in_escape: bool)
    ensures
        forall|k: int|
            0 <= k < terminal_clean_from(s, i, in_escape).len() ==> terminal_safe(
                #[trigger] terminal_clean_from(s, i, in_escape)[k],
            ) && terminal_clean_from(s, i, in_escape)[k] != '\x1b',
    decreases s.len() - i,
{
    if 0 <= i < s.len() {
        let c = s[i];
        if c == '\x1b' {
            lemma_terminal_clean_is_safe(s, i + 1, true);
            assert(terminal_clean_from(s, i, in_escape) == terminal_clean_from(s, i + 1, true));
        } else if in_escape {
            lemma_terminal_clean_is_safe(s, i + 1, !is_ascii_alpha(c));
            assert(terminal_clean_from(s, i, in_escape) == terminal_clean_from(
                s,
                i + 1,
                !is_ascii_alpha(c),
            ));
        } else {
            lemma_terminal_clean_is_safe(s, i + 1, false);
            let rest = terminal_clean_from(s, i + 1, false);
            if c == '\t' || c == '\n' || c == '\r' || !is_control_char(c) {
                assert forall|k: int|
                    0 <= k < terminal_clean_from(s, i, in_escape).len() implies terminal_safe(
                    #[trigger] terminal_clean_from(s, i, in_escape)[k],
                ) && terminal_clean_from(s, i, in_escape)[k] != '\x1b' by {
                    if k > 0 {
                        assert(terminal_clean_from(s, i, in_escape)[k] == rest[k - 1]);
                    }
                }
            } else {
                assert(terminal_clean_from(s, i, in_escape) == rest);
            }
        }
    }
}

/// Text that is already terminal-safe passes through cleaning unchanged.
proof fn lemma_terminal_clean_keeps_safe(s: Seq<char>, i: int)
    requires
        0 <= i <= s.len(),
        forall|k: int| 0 <= k < s.len() ==> terminal_safe(#[trigger] s[k]) && s[k] != '\x1b',
    ensures
        terminal_clean_from(s, i, false) == s.skip(i),
    decreases s.len() - i,
{
    if i < s.len() {
        lemma_terminal_clean_keeps_safe(s, i + 1);
        assert(terminal_safe(s[i]));
        assert(seq![s[i]] + s.skip(i + 1) =~= s.skip(i));
    } else {
        assert(s.skip(i) =~= Seq::<char>::empty());
    }
}

/// Cleaning text for the terminal a second time changes nothing.
pub proof fn lemma_terminal_clean_idempotent(s: Seq<char>)
    ensures
        terminal_clean(terminal_clean(s)) == terminal_clean(s),
{
    let t = terminal_clean(s);
    lemma_terminal_clean_is_safe(s, 0, false);
    assert forall|k: int| 0 <= k < t.len() implies terminal_safe(#[trigger] t[k]) && t[k] != '\x1b' by {
    }
    lemma_terminal_clean_keeps_safe(t, 0);
    assert(t.skip(0) =~= t);
}

/// Strips ANSI escape sequences and control characters (other than tab,
/// line feed and carriage return) so that untrusted text cannot drive the
/// terminal.
pub fn sanitize_for_terminal(input: &str) -> (r: String)
    ensures
        r@ == terminal_clean(input@),
{
    let s = chars_of(input);
    let c = terminal_clean_chars(&s);
    string_of(&c)
}

// ---------------------------------------------------------------------------
// Directories
// ---------------------------------------------------------------------------

/// Directories that traversal skips without notice.
pub open spec fn silent_ignored_dirs() -> Seq<Seq<char>> {
    seq![".git"@, "__pycache__"@, ".hg"@, ".svn"@]
}

/// Directories that traversal skips by default.
pub open spec fn default_ignored_dirs() -> Seq<Seq<char>> {
    seq![
        "venv"@,
        ".venv"@,
        "env"@,
        ".env"@,
        "__pycache__"@,
        ".git"@,
        ".hg"@,
        ".svn"@,
        "target"@,
        "build"@,
        "dist"@,
        "node_modules"@,
        ".tox"@,
        ".pytest_cache"@,
        ".mypy_cache"@,
        ".cache"@,
    ]
}

/// Whether a directory name, without trailing `/`, is one of the names,
/// ignoring ASCII case.
pub open spec fn name_listed(dir_name: Seq<char>, names: Seq<Seq<char>>) -> bool {
    exists|i: int| 0 <= i < names.len() && eq_ignore_case(#[trigger] names[i], trim_end_char(dir_name, '/'))
}

fn listed(clean: &[char], names: &[&str]) -> (r: bool)
    ensures
        r == exists|i: int| 0 <= i < names@.len() && eq_ignore_case(#[trigger] names@[i]@, clean@),
{
    let mut i: usize = 0;
    while i < names.len()
        invariant
            i <= names@.len(),
            forall|j: int| 0 <= j < i ==> !eq_ignore_case(#[trigger] names@[j]@, clean@),
        decreases names.len() - i,
    {
        let nm = chars_of(names[i]);
        if eq_ignore_ascii_case(&nm, clean) {
            return true;
        }
        i += 1;
    }
    false
}

/// Whether traversal skips a directory of this name without notice
/// (version-control and bytecode caches).
pub fn is_silent_ignored_dir(dir_name: &str) -> (r: bool)
    ensures
        r == name_listed(dir_name@, silent_ignored_dirs()),
{
    let d = chars_of(dir_name);
    let clean = trim_end_matches_char(&d, '/');
    let names: [&str; 4] = [".git", "__pycache__", ".hg", ".svn"];
    assert(names@.map_values(|s: &str| s@) =~= silent_ignored_dirs());
    let r = listed(&clean, &names);
    proof {
        if r {
            let i = choose|i: int| 0 <= i < names@.len() && eq_ignore_case(#[trigger] names@[i]@, clean@);
            assert(names@.map_values(|s: &str| s@)[i] == names@[i]@);
        } else {
            assert forall|i: int| 0 <= i < silent_ignored_dirs().len() implies !eq_ignore_case(
                #[trigger] silent_ignored_dirs()[i],
                clean@,
            ) by {
                assert(names@.map_values(|s: &str| s@)[i] == names@[i]@);
            }
        }
    }
    r
}

/// Whether traversal skips a directory of this name by default (virtual
/// environments, caches, build output, version control).
pub fn is_ignored_dir(dir_name: &str) -> (r: bool)
    ensures
        r == name_listed(dir_name@, default_ignored_dirs()),
{
    let d = chars_of(dir_name);
    let clean = trim_end_matches_char(&d, '/');
    let names: [&str; 16] = [
        "venv",
        ".venv",
        "env",
        ".env",
        "__pycache__",
        ".git",
        ".hg",
        ".svn",
        "target",
        "build",
        "dist",
        "node_modules",
        ".tox",
        ".pytest_cache",
        ".mypy_cache",
        ".cache",
    ];
    assert(names@.map_values(|s: &str| s@) =~= default_ignored_dirs());
    let r = listed(&clean, &names);
    proof {
        if r {
            let i = choose|i: int| 0 <= i < names@.len() && eq_ignore_case(#[trigger] names@[i]@, clean@);
            assert(names@.map_values(|s: &str| s@)[i] == names@[i]@);
        } else {
            assert forall|i: int| 0 <= i < default_ignored_dirs().len() implies !eq_ignore_case(
                #[trigger] default_ignored_dirs()[i],
                clean@,
            ) by {
                assert(names@.map_values(|s: &str| s@)[i] == names@[i]@);
            }
        }
    }
    r
}

/// Whether `suffix` is a trailing part of `whole`.
pub open spec fn is_suffix<T>(suffix: Seq<T>, whole: Seq<T>) -> bool {
    suffix.len() <= whole.len() && whole.skip(whole.len() - suffix.len()) == suffix
}

/// Whether one exclusion names a directory, given the components of the
/// directory's path and of the exclusion (trailing `/` dropped): by its
/// name, ignoring ASCII case, or as a path that the directory's path equals
/// or ends with, component by component.
pub open spec fn exclusion_hits_parts(
    path_parts: Seq<Seq<char>>,
    dir_name: Seq<char>,
    exc: Seq<char>,
    exc_parts: Seq<Seq<char>>,
) -> bool {
    ||| eq_ignore_case(dir_name, trim_end_char(exc, '/'))
    ||| path_parts == exc_parts
    ||| is_suffix(exc_parts, path_parts)
}

/// Whether one exclusion names a directory (see `exclusion_hits_parts`), the
/// components being those of `std::path::Path`.
pub open spec fn exclusion_hits(path: Seq<char>, dir_name: Seq<char>, exc: Seq<char>) -> bool {
    exclusion_hits_parts(
        path_components(path),
        dir_name,
        exc,
        path_components(trim_end_char(exc, '/')),
    )
}


/// Decides whether one exclusion names a directory, from the components of
/// the directory's path and of the exclusion without its trailing `/`.
pub fn exclusion_matches(
    path_parts: &Vec<String>,
    dir_name: &str,
    exclusion: &str,
    exclusion_parts: &Vec<String>,
) -> (r: bool)
    ensures
        r == exclusion_hits_parts(texts(path_parts@), dir_name@, exclusion@, texts(exclusion_parts@)),
{
    let name = chars_of(dir_name);
    let exc = chars_of(exclusion);
    let clean = trim_end_matches_char(&exc, '/');
    if eq_ignore_ascii_case(&name, &clean) {
        return true;
    }
    strings_equal(path_parts, exclusion_parts) || suffix_of(exclusion_parts, path_parts)
}

fn strings_equal(a: &Vec<String>, b: &Vec<String>) -> (r: bool)
    ensures
        r == (a@.map_values(|s: String| s@) == b@.map_values(|s: String| s@)),
{
    let ghost va = a@.map_values(|s: String| s@);
    let ghost vb = b@.map_values(|s: String| s@);
    if a.len() != b.len() {
        assert(va.len() != vb.len());
        return false;
    }
    let mut i: usize = 0;
    while i < a.len()
        invariant
            i <= a@.len() == b@.len(),
            va == a@.map_values(|s: String| s@),
            vb == b@.map_values(|s: String| s@),
            forall|k: int| 0 <= k < i ==> va[k] == vb[k],
        decreases a.len() - i,
    {
        let x = chars_of(a[i].as_str());
        let y = chars_of(b[i].as_str());
        if !crate::text::chars_equal(&x, &y) {
            assert(va[i as int] != vb[i as int]);
            return false;
        }
        i += 1;
    }
    assert(va =~= vb);
    true
}

fn suffix_of(suffix: &Vec<String>, whole: &Vec<String>) -> (r: bool)
    ensures
        r == is_suffix(suffix@.map_values(|s: String| s@), whole@.map_values(|s: String| s@)),
{
    let ghost vs = suffix@.map_values(|s: String| s@);
    let ghost vw = whole@.map_values(|s: String| s@);
    if suffix.len() > whole.len() {
        return false;
    }
    let n = whole.len();
    let off = n - suffix.len();
    let mut i: usize = 0;
    while i < suffix.len()
        invariant
            i <= suffix@.len(),
            off + suffix@.len() == whole@.len() == n,
            vs == suffix@.map_values(|s: String| s@),
            vw == whole@.map_values(|s: String| s@),
            forall|k: int| 0 <= k < i ==> vw[off + k] == vs[k],
        decreases suffix.len() - i,
    {
        let x = chars_of(suffix[i].as_str());
        let y = chars_of(whole[off + i].as_str());
        if !crate::text::chars_equal(&x, &y) {
            assert(vw.skip(off as int)[i as int] != vs[i as int]);
            return false;
        }
        i += 1;
    }
    assert(vw.skip(off as int) =~= vs);
    true
}

/// Whether the user excluded a directory: an exclusion (trailing `/`
/// ignored) equal to its name up to ASCII case, or a path that the
/// directory's path equals or ends with, component by component.
pub fn is_user_excluded(path: &str, dir_name: &str, custom_excludes: &[String]) -> (r: bool)
    ensures
        r == exists|i: int|
            0 <= i < custom_excludes@.len() && exclusion_hits(
                path@,
                dir_name@,
                #[trigger] custom_excludes@[i]@,
            ),
{
    let path_parts = components_of(path);
    let mut i: usize = 0;
    while i < custom_excludes.len()
        invariant
            i <= custom_excludes@.len(),
            texts(path_parts@) == path_components(path@),
            forall|j: int|
                0 <= j < i ==> !exclusion_hits(path@, dir_name@, #[trigger] custom_excludes@[j]@),
        decreases custom_excludes.len() - i,
    {
        let exc = chars_of(custom_excludes[i].as_str());
        let clean = trim_end_matches_char(&exc, '/');
        let clean_text = string_of(&clean);
        let exc_parts = components_of(clean_text.as_str());
        if exclusion_matches(&path_parts, dir_name, custom_excludes[i].as_str(), &exc_parts) {
            return true;
        }
        i += 1;
    }
    false
}

/// What a directory holds that marks it as a Python virtual environment.
#[derive(Clone, Copy, Debug)]
pub struct VenvMarkers {
    /// `pyvenv.cfg` is a file.
    pub has_pyvenv_cfg: bool,
    /// `conda-meta` is a directory.
    pub has_conda_meta: bool,
    /// `bin/activate` is a file.
    pub has_bin_activate: bool,
    /// `bin/python` is a file.
    pub has_bin_python: bool,
    /// `Scripts/activate.bat` is a file.
    pub has_scripts_activate_bat: bool,
}

/// Whether a directory is a Python virtual environment: it has a
/// `pyvenv.cfg`, a `conda-meta` directory, both `bin/activate` and
/// `bin/python`, or a `Scripts/activate.bat`.
pub fn is_python_venv(m: &VenvMarkers) -> (r: bool)
    ensures
        r == (m.has_pyvenv_cfg || m.has_conda_meta || (m.has_bin_activate && m.has_bin_python)
            || m.has_scripts_activate_bat),
{
    if m.has_pyvenv_cfg {
        return true;
    }
    if m.has_conda_meta {
        return true;
    }
    if (m.has_bin_activate && m.has_bin_python) || m.has_scripts_activate_bat {
        return true;
    }
    false
}

/// Whether a file extension names a supported figure format (PNG, SVG or
/// PDF), ignoring ASCII case.
pub fn is_supported_ext(ext: &str) -> (r: bool)
    ensures
        r == (eq_ignore_case(ext@, "png"@) || eq_ignore_case(ext@, "svg"@) || eq_ignore_case(
            ext@,
            "pdf"@,
        )),
{
    let e = chars_of(ext);
    let png = chars_of("png");
    let svg = chars_of("svg");
    let pdf = chars_of("pdf");
    eq_ignore_ascii_case(&e, &png) || eq_ignore_ascii_case(&e, &svg) || eq_ignore_ascii_case(
        &e,
        &pdf,
    )
}

/// What traversal does with a subdirectory.
#[derive(Clone, Copy, Debug, PartialEq, Eq)]
pub enum DirDecision {
    /// Skip it, noting that the user excluded it.
    SkipExcluded,
    /// Skip it without notice.
    SkipSilently,
    /// Skip it, noting that it is ignored by default.
    SkipIgnored,
    /// Skip it, noting that it is a virtual environment.
    SkipVenv,
    /// Descend into it.
    Descend,
}

/// The decision for a subdirectory, in the order traversal checks.
pub open spec fn dir_decision(
    path: Seq<char>,
    dir_name: Option<Seq<char>>,
    excludes: Seq<Seq<char>>,
    venv: bool,
) -> DirDecision {
    let by_name = match dir_name {
        Some(d) => if exists|i: int| 0 <= i < excludes.len() && exclusion_hits(path, d, #[trigger] excludes[i]) {
            Some(DirDecision::SkipExcluded)
        } else if name_listed(d, silent_ignored_dirs()) {
            Some(DirDecision::SkipSilently)
        } else if name_listed(d, default_ignored_dirs()) {
            Some(DirDecision::SkipIgnored)
        } else {
            None
        },
        None => None,
    };
    match by_name {
        Some(dec) => dec,
        None => if venv {
            DirDecision::SkipVenv
        } else {
            DirDecision::Descend
        },
    }
}

/// Decides what traversal does with a subdirectory: user exclusions first,
/// then the silently skipped names, the names ignored by default, and
/// virtual environments. The name checks apply only to a directory whose
/// name is text.
pub fn classify_dir(path: &str, dir_name: Option<&str>, custom_excludes: &[String], venv: &VenvMarkers) -> (r: DirDecision)
    ensures
        r == dir_decision(
            path@,
            match dir_name {
                Some(d) => Some(d@),
                None => None,
            },
            custom_excludes@.map_values(|s: String| s@),
            venv.has_pyvenv_cfg || venv.has_conda_meta || (venv.has_bin_activate
                && venv.has_bin_python) || venv.has_scripts_activate_bat,
        ),
{
    let ghost ex = custom_excludes@.map_values(|s: String| s@);
    if let Some(d) = dir_name {
        if is_user_excluded(path, d, custom_excludes) {
            proof {
                let i = choose|i: int|
                    0 <= i < custom_excludes@.len() && exclusion_hits(
                        path@,
                        d@,
                        #[trigger] custom_excludes@[i]@,
                    );
                assert(ex[i] == custom_excludes@[i]@);
            }
            return DirDecision::SkipExcluded;
        }
        proof {
            assert forall|i: int| 0 <= i < ex.len() implies !exclusion_hits(path@, d@, #[trigger] ex[i]) by {
                assert(ex[i] == custom_excludes@[i]@);
            }
        }
        if is_silent_ignored_dir(d) {
            return DirDecision::SkipSilently;
        }
        if is_ignored_dir(d) {
            return DirDecision::SkipIgnored;
        }
    }
    if is_python_venv(venv) {
        return DirDecision::SkipVenv;
    }
    DirDecision::Descend
}

// ---------------------------------------------------------------------------
// Reports
// ---------------------------------------------------------------------------

/// The text of a list of strings.
pub open spec fn strings_view(v: Seq<String>) -> Seq<Seq<char>> {
    v.map_values(|s: String| s@)
}

/// The text of an optional string.
pub open spec fn opt_view(o: Option<&str>) -> Option<Seq<char>> {
    match o {
        Some(s) => Some(s@),
        None => None,
    }
}

/// Whether a key passes the (lower-case) key filter: its lower-cased text
/// contains the filter.
pub open spec fn key_selected(key: Seq<char>, key_filter: Option<Seq<char>>) -> bool {
    match key_filter {
        Some(f) => contains(lower_text(key), f),
        None => true,
    }
}

/// The heading line of a search hit: the file and the key, both made safe
/// for the terminal.
pub open spec fn search_header(display: Seq<char>, key: Seq<char>) -> Seq<char> {
    "\x1b[35m"@ + terminal_clean(display) + "\x1b[0m [\x1b[36m"@ + terminal_clean(key) + "\x1b[0m]"@
}

/// The line printed for a matching value line: its 1-based number in four
/// columns, and the line without trailing whitespace.
pub open spec fn hit_line(idx: nat, line: Seq<char>) -> Seq<char> {
    "  \x1b[32m"@ + pad_left(decimal(idx + 1), 4) + ":\x1b[0m "@ + terminal_clean(trim_end(line))
}

/// The hit lines among the first `n` lines.
pub open spec fn line_hits(ls: Seq<Seq<char>>, pattern: Seq<char>, n: int) -> Seq<Seq<char>>
    decreases n,
{
    if n <= 0 {
        Seq::empty()
    } else {
        line_hits(ls, pattern, n - 1) + if contains(lower_text(ls[n - 1]), pattern) {
            seq![hit_line((n - 1) as nat, ls[n - 1])]
        } else {
            Seq::empty()
        }
    }
}

/// What searching prints for one entry: nothing unless its key passes the
/// filter and its value or key contains the pattern (after lower-casing);
/// then a heading and each value line that contains the pattern.
pub open spec fn search_entry_lines(
    display: Seq<char>,
    key: Seq<char>,
    value: Seq<char>,
    pattern: Seq<char>,
    key_filter: Option<Seq<char>>,
) -> Seq<Seq<char>> {
    if !key_selected(key, key_filter) {
        Seq::empty()
    } else if contains(lower_text(value), pattern) || contains(lower_text(key), pattern) {
        seq![search_header(display, key)] + line_hits(lines(value), pattern, lines(value).len() as int)
    } else {
        Seq::empty()
    }
}

/// What searching prints for the first `n` entries.
pub open spec fn search_lines(
    display: Seq<char>,
    entries: Seq<(Seq<char>, Seq<char>)>,
    pattern: Seq<char>,
    key_filter: Option<Seq<char>>,
    n: int,
) -> Seq<Seq<char>>
    decreases n,
{
    if n <= 0 {
        Seq::empty()
    } else {
        search_lines(display, entries, pattern, key_filter, n - 1) + search_entry_lines(
            display,
            entries[n - 1].0,
            entries[n - 1].1,
            pattern,
            key_filter,
        )
    }
}

fn push_text(out: &mut Vec<String>, line: &[char])
    ensures
        strings_view(final(out)@) == strings_view(old(out)@).push(line@),
{
    let s = string_of(line);
    let ghost before = strings_view(out@);
    out.push(s);
    assert(strings_view(out@) =~= before.push(line@));
}

fn lowered(s: &[char]) -> (r: Vec<char>)
    ensures
        r@ == lower_text(s@),
{
    let t = string_of(s);
    let l = str_to_lowercase(t.as_str());
    chars_of(l.as_str())
}

fn key_selected_exec(key: &[char], key_filter: Option<&str>) -> (r: bool)
    ensures
        r == key_selected(key@, opt_view(key_filter)),
{
    match key_filter {
        Some(f) => {
            let fc = chars_of(f);
            let lk = lowered(key);
            contains_chars(&lk, &fc)
        },
        None => true,
    }
}

fn hit_line_exec(idx: usize, line: &[char]) -> (r: Vec<char>)
    requires
        idx < usize::MAX,
    ensures
        r@ == hit_line(idx as nat, line@),
{
    let mut out = chars_of("  \x1b[32m");
    let num = decimal_chars(idx + 1);
    let padded = pad_left_chars(&num, 4);
    append_chars(&mut out, &padded);
    let mid = chars_of(":\x1b[0m ");
    append_chars(&mut out, &mid);
    let trimmed = trim_end_chars(line);
    let clean = terminal_clean_chars(&trimmed);
    append_chars(&mut out, &clean);
    out
}

fn search_entry(out: &mut Vec<String>, display: &[char], key: &[char], value: &[char], pattern: &[char], key_filter: Option<&str>)
    ensures
        strings_view(final(out)@) == strings_view(old(out)@) + search_entry_lines(
            display@,
            key@,
            value@,
            pattern@,
            opt_view(key_filter),
        ),
{
    if !key_selected_exec(key, key_filter) {
        assert(strings_view(out@) =~= strings_view(out@) + Seq::<Seq<char>>::empty());
        return;
    }
    let lv = lowered(value);
    let lk = lowered(key);
    if !(contains_chars(&lv, pattern) || contains_chars(&lk, pattern)) {
        assert(strings_view(out@) =~= strings_view(out@) + Seq::<Seq<char>>::empty());
        return;
    }
    let ghost start = strings_view(out@);
    let mut header = chars_of("\x1b[35m");
    let cd = terminal_clean_chars(display);
    append_chars(&mut header, &cd);
    let m1 = chars_of("\x1b[0m [\x1b[36m");
    append_chars(&mut header, &m1);
    let ck = terminal_clean_chars(key);
    append_chars(&mut header, &ck);
    let m2 = chars_of("\x1b[0m]");
    append_chars(&mut header, &m2);
    push_text(out, &header);
    let ls = split_lines(value);
    let ghost lv_ = lines(value@);
    let mut k: usize = 0;
    while k < ls.len()
        invariant
            k <= ls@.len() == lv_.len(),
            lv_ == lines(value@),
            forall|j: int| 0 <= j < ls@.len() ==> (#[trigger] ls@[j])@ == lv_[j],
            strings_view(out@) == start + seq![search_header(display@, key@)] + line_hits(
                lv_,
                pattern@,
                k as int,
            ),
        decreases ls.len() - k,
    {
        let ll = lowered(&ls[k]);
        let ghost before = strings_view(out@);
        if contains_chars(&ll, pattern) {
            let h = hit_line_exec(k, &ls[k]);
            push_text(out, &h);
        }
        assert(strings_view(out@) =~= start + seq![search_header(display@, key@)] + line_hits(
            lv_,
            pattern@,
            k + 1,
        ));
        k += 1;
    }
    assert(strings_view(out@) =~= start + (seq![search_header(display@, key@)] + line_hits(
        lv_,
        pattern@,
        lv_.len() as int,
    )));
}

/// The lines that searching a figure's metadata prints (the file shown as
/// `display`): for each entry whose key passes the lower-case `key_filter`
/// and whose value or key contains the lower-case `pattern_lower` once
/// lower-cased, a heading with the file and key, then each value line that
/// contains the pattern, numbered from 1. Key and lines are made safe for a
/// terminal.
pub fn search_file(display: &str, entries: &[MetadataEntry], pattern_lower: &str, key_filter: Option<&str>) -> (r: Vec<String>)
    ensures
        strings_view(r@) == search_lines(
            display@,
            entries_view(entries@),
            pattern_lower@,
            opt_view(key_filter),
            entries@.len() as int,
        ),
{
    let d = chars_of(display);
    let p = chars_of(pattern_lower);
    let ghost ev = entries_view(entries@);
    let mut out: Vec<String> = Vec::new();
    assert(strings_view(out@) =~= Seq::<Seq<char>>::empty());
    let mut i: usize = 0;
    while i < entries.len()
        invariant
            i <= entries@.len(),
            d@ == display@,
            p@ == pattern_lower@,
            ev == entries_view(entries@),
            strings_view(out@) == search_lines(display@, ev, pattern_lower@, opt_view(key_filter), i as int),
        decreases entries.len() - i,
    {
        let k = chars_of(entries[i].key.as_str());
        let v = chars_of(entries[i].value.as_str());
        assert(ev[i as int] == (k@, v@));
        search_entry(&mut out, &d, &k, &v, &p, key_filter);
        i += 1;
    }
    out
}

/// The line that heads an entry in a listing.
pub open spec fn list_key_prefix(key: Seq<char>) -> Seq<char> {
    "  \x1b[36m"@ + terminal_clean(key) + "\x1b[0m:"@
}

/// How many value lines a listing shows (`max_lines` 0: all).
pub open spec fn shown_lines(max_lines: nat, count: nat) -> nat {
    if max_lines == 0 || count < max_lines {
        count
    } else {
        max_lines
    }
}

/// What a listing prints for one entry: `(empty)` for a value without
/// lines; a single line inline; otherwise the key, up to `max_lines` lines
/// (0: all) each prefixed by a bar, and a count of the lines omitted.
pub open spec fn list_entry_lines(key: Seq<char>, value: Seq<char>, max_lines: nat) -> Seq<Seq<char>> {
    let ls = lines(value);
    if ls.len() == 0 {
        seq![list_key_prefix(key) + " (empty)"@]
    } else if ls.len() == 1 {
        seq![list_key_prefix(key) + " "@ + terminal_clean(ls[0])]
    } else {
        let limit = shown_lines(max_lines, ls.len());
        seq![list_key_prefix(key)] + Seq::new(
            limit,
            |k: int| "    \x1b[90m|\x1b[0m "@ + terminal_clean(trim_end(ls[k])),
        ) + if ls.len() > limit {
            seq!["    \x1b[33m... ["@ + decimal((ls.len() - limit) as nat) + " more lines omitted]\x1b[0m"@]
        } else {
            Seq::empty()
        }
    }
}

/// A multi-line value is listed as its key line, its first `k` lines, where
/// `k` is `max_lines` (all of them for 0) but no more than it has, and, when
/// lines are left out, one line that counts them.
pub proof fn lemma_listing_shows_lines(key: Seq<char>, value: Seq<char>, max_lines: nat)
    requires
        lines(value).len() > 1,
    ensures
        ({
            let total = lines(value).len();
            let k = if max_lines == 0 || total < max_lines {
                total
            } else {
                max_lines
            };
            let out = list_entry_lines(key, value, max_lines);
            &&& out.len() == 1 + k + if total > k {
                1int
            } else {
                0int
            }
            &&& out[0] == list_key_prefix(key)
            &&& forall|j: int|
                0 <= j < k ==> #[trigger] out[1 + j] == "    \x1b[90m|\x1b[0m "@ + terminal_clean(
                    trim_end(lines(value)[j]),
                )
            &&& total > k ==> out.last() == "    \x1b[33m... ["@ + decimal((total - k) as nat)
                + " more lines omitted]\x1b[0m"@
        }),
{
}

/// A listing prints nothing exactly when no key passes the filter.
pub proof fn lemma_listing_empty_iff_nothing_selected(
    display: Seq<char>,
    entries: Seq<(Seq<char>, Seq<char>)>,
    max_lines: nat,
    key_filter: Option<Seq<char>>,
)
    ensures
        list_lines(display, entries, max_lines, key_filter).len() == 0 <==> !exists|i: int|
            0 <= i < entries.len() && key_selected(#[trigger] entries[i].0, key_filter),
{
}

/// The listing lines of the selected entries among the first `n`.
pub open spec fn list_body(
    entries: Seq<(Seq<char>, Seq<char>)>,
    max_lines: nat,
    key_filter: Option<Seq<char>>,
    n: int,
) -> Seq<Seq<char>>
    decreases n,
{
    if n <= 0 {
        Seq::empty()
    } else {
        list_body(entries, max_lines, key_filter, n - 1) + if key_selected(
            entries[n - 1].0,
            key_filter,
        ) {
            list_entry_lines(entries[n - 1].0, entries[n - 1].1, max_lines)
        } else {
            Seq::empty()
        }
    }
}

/// What listing a figure's metadata prints: nothing when no key passes the
/// filter; else the file (made safe for the terminal), each selected entry,
/// and an empty line.
pub open spec fn list_lines(
    display: Seq<char>,
    entries: Seq<(Seq<char>, Seq<char>)>,
    max_lines: nat,
    key_filter: Option<Seq<char>>,
) -> Seq<Seq<char>> {
    if exists|i: int| 0 <= i < entries.len() && key_selected(#[trigger] entries[i].0, key_filter) {
        seq!["\x1b[1;35m"@ + terminal_clean(display) + "\x1b[0m"@] + list_body(
            entries,
            max_lines,
            key_filter,
            entries.len() as int,
        ) + seq![Seq::<char>::empty()]
    } else {
        Seq::empty()
    }
}

fn list_entry(out: &mut Vec<String>, key: &[char], value: &[char], max_lines: usize)
    ensures
        strings_view(final(out)@) == strings_view(old(out)@) + list_entry_lines(
            key@,
            value@,
            max_lines as nat,
        ),
{
    let ghost start = strings_view(out@);
    let mut prefix = chars_of("  \x1b[36m");
    let ck = terminal_clean_chars(key);
    append_chars(&mut prefix, &ck);
    let m = chars_of("\x1b[0m:");
    append_chars(&mut prefix, &m);
    assert(prefix@ =~= list_key_prefix(key@));
    let ls = split_lines(value);
    let ghost lv = lines(value@);
    if ls.len() == 0 {
        let mut line = prefix;
        let e = chars_of(" (empty)");
        append_chars(&mut line, &e);
        push_text(out, &line);
        assert(strings_view(out@) =~= start + list_entry_lines(key@, value@, max_lines as nat));
        return;
    }
    if ls.len() == 1 {
        let mut line = prefix;
        let sp = chars_of(" ");
        append_chars(&mut line, &sp);
        let c = terminal_clean_chars(&ls[0]);
        append_chars(&mut line, &c);
        push_text(out, &line);
        assert(strings_view(out@) =~= start + list_entry_lines(key@, value@, max_lines as nat));
        return;
    }
    push_text(out, &prefix);
    let limit = if max_lines == 0 || ls.len() < max_lines {
        ls.len()
    } else {
        max_lines
    };
    let ghost shown = Seq::new(
        limit as nat,
        |k: int| "    \x1b[90m|\x1b[0m "@ + terminal_clean(trim_end(lv[k])),
    );
    let mut k: usize = 0;
    while k < limit
        invariant
            k <= limit <= ls@.len() == lv.len(),
            lv == lines(value@),
            forall|j: int| 0 <= j < ls@.len() ==> (#[trigger] ls@[j])@ == lv[j],
            shown == Seq::new(
                limit as nat,
                |k: int| "    \x1b[90m|\x1b[0m "@ + terminal_clean(trim_end(lv[k])),
            ),
            strings_view(out@) == start + seq![prefix@] + shown.take(k as int),
        decreases limit - k,
    {
        let mut line = chars_of("    \x1b[90m|\x1b[0m ");
        let t = trim_end_chars(&ls[k]);
        let c = terminal_clean_chars(&t);
        append_chars(&mut line, &c);
        push_text(out, &line);
        assert(strings_view(out@) =~= start + seq![prefix@] + shown.take(k + 1));
        k += 1;
    }
    assert(shown.take(k as int) =~= shown);
    if ls.len() > limit {
        let mut line = chars_of("    \x1b[33m... [");
        let num = decimal_chars(ls.len() - limit);
        append_chars(&mut line, &num);
        let tail = chars_of(" more lines omitted]\x1b[0m");
        append_chars(&mut line, &tail);
        push_text(out, &line);
    }
    assert(strings_view(out@) =~= start + list_entry_lines(key@, value@, max_lines as nat));
}

/// The lines that listing a figure's metadata prints (the file shown as
/// `display`): nothing when no key passes the lower-case `key_filter`;
/// otherwise the file, then for each selected entry its key and value (a
/// single line inline, `(empty)` for none, else up to `max_lines` lines, 0
/// meaning all, and a count of those omitted), then an empty line. Keys and
/// lines are made safe for a terminal.
pub fn list_file(display: &str, entries: &[MetadataEntry], max_lines: usize, key_filter: Option<&str>) -> (r: Vec<String>)
    ensures
        strings_view(r@) == list_lines(
            display@,
            entries_view(entries@),
            max_lines as nat,
            opt_view(key_filter),
        ),
{
    let ghost ev = entries_view(entries@);
    let mut body: Vec<String> = Vec::new();
    assert(strings_view(body@) =~= Seq::<Seq<char>>::empty());
    let mut any = false;
    let mut i: usize = 0;
    while i < entries.len()
        invariant
            i <= entries@.len(),
            ev == entries_view(entries@),
            strings_view(body@) == list_body(ev, max_lines as nat, opt_view(key_filter), i as int),
            any == exists|j: int| 0 <= j < i && key_selected(#[trigger] ev[j].0, opt_view(key_filter)),
        decreases entries.len() - i,
    {
        let k = chars_of(entries[i].key.as_str());
        assert(ev[i as int].0 == k@);
        let ghost before = strings_view(body@);
        if key_selected_exec(&k, key_filter) {
            let v = chars_of(entries[i].value.as_str());
            assert(ev[i as int].1 == v@);
            list_entry(&mut body, &k, &v, max_lines);
            any = true;
        } else {
            assert(strings_view(body@) =~= before + Seq::<Seq<char>>::empty());
        }
        i += 1;
    }
    let mut out: Vec<String> = Vec::new();
    if !any {
        assert(strings_view(out@) =~= Seq::<Seq<char>>::empty());
        return out;
    }
    let mut head = chars_of("\x1b[1;35m");
    let d = terminal_clean_chars(&chars_of(display));
    append_chars(&mut head, &d);
    let e = chars_of("\x1b[0m");
    append_chars(&mut head, &e);
    assert(strings_view(out@) =~= Seq::<Seq<char>>::empty());
    push_text(&mut out, &head);
    let mut t: usize = 0;
    while t < body.len()
        invariant
            t <= body@.len(),
            strings_view(out@) == seq![head@] + strings_view(body@).take(t as int),
        decreases body.len() - t,
    {
        let line = chars_of(body[t].as_str());
        push_text(&mut out, &line);
        assert(strings_view(out@) =~= seq![head@] + strings_view(body@).take(t + 1));
        t += 1;
    }
    assert(strings_view(body@).take(t as int) =~= strings_view(body@));
    let empty: Vec<char> = Vec::new();
    push_text(&mut out, &empty);
    assert(strings_view(out@) =~= list_lines(display@, ev, max_lines as nat, opt_view(key_filter)));
    out
}

// ---------------------------------------------------------------------------
// Printing one value
// ---------------------------------------------------------------------------

/// A value as `--cat` prints it: unchanged, with a line feed added when it
/// does not end in one.
pub open spec fn cat_text(value: Seq<char>) -> Seq<char> {
    if value.len() > 0 && value.last() == '\n' {
        value
    } else {
        value.push('\n')
    }
}

/// What `--cat` prints for the figure shown as `display`: the exact value of
/// the entry that `target_key` resolves to (see `resolve_key`), ending in a
/// line feed; or the error to report, when the figure has no metadata or the
/// key does not resolve.
pub fn cat_metadata(display: &str, entries: &[MetadataEntry], target_key: &str) -> (r: Result<String, String>)
    ensures
        entries@.len() == 0 ==> (r matches Err(m) && m@ == "No metadata found in "@ + display@),
        entries@.len() > 0 ==> match resolution(keys_of(entries@), target_key@) {
            Resolution::Found(j) => r matches Ok(s) && s@ == cat_text(entries@[j].value@),
            Resolution::Ambiguous(ix) => r matches Err(m) && m@ == "Error in "@ + display@ + ": "@
                + ambiguous_message(target_key@, keys_at(keys_of(entries@), ix)),
            Resolution::Missing => r matches Err(m) && m@ == "Error in "@ + display@ + ": "@
                + missing_message(target_key@, keys_of(entries@)),
        },
{
    let d = chars_of(display);
    if entries.len() == 0 {
        let mut m = chars_of("No metadata found in ");
        append_chars(&mut m, &d);
        return Err(string_of(&m));
    }
    match resolve_key(entries, target_key) {
        Ok(entry) => {
            let mut v = chars_of(entry.value.as_str());
            if !(v.len() > 0 && v[v.len() - 1] == '\n') {
                v.push('\n');
            }
            Ok(string_of(&v))
        },
        Err(msg) => {
            let mut m = chars_of("Error in ");
            append_chars(&mut m, &d);
            let sep = chars_of(": ");
            append_chars(&mut m, &sep);
            let body = chars_of(msg.as_str());
            append_chars(&mut m, &body);
            Err(string_of(&m))
        },
    }
}

// ---------------------------------------------------------------------------
// What reaches the terminal
// ---------------------------------------------------------------------------

/// The colour codes that searching and listing print of their own.
pub open spec fn colour_codes() -> Seq<Seq<char>> {
    seq![
        seq!['\x1b', '[', '0', 'm'],
        seq!['\x1b', '[', '1', ';', '3', '5', 'm'],
        seq!['\x1b', '[', '3', '2', 'm'],
        seq!['\x1b', '[', '3', '3', 'm'],
        seq!['\x1b', '[', '3', '5', 'm'],
        seq!['\x1b', '[', '3', '6', 'm'],
        seq!['\x1b', '[', '9', '0', 'm'],
    ]
}

/// Whether one of the tool's colour codes starts at `k`.
pub open spec fn colour_code_at(s: Seq<char>, k: int) -> bool {
    exists|j: int| 0 <= j < colour_codes().len() && #[trigger] matches_at(s, colour_codes()[j], k)
}

/// Whether a printed line is safe for the terminal apart from the tool's own
/// colour codes: every character is terminal-safe or an escape character,
/// and every escape character starts one of those codes.
pub open spec fn escapes_only_in_colour_codes(s: Seq<char>) -> bool {
    &&& forall|k: int| 0 <= k < s.len() ==> terminal_safe(#[trigger] s[k]) || s[k] == '\x1b'
    &&& forall|k: int| 0 <= k < s.len() && #[trigger] s[k] == '\x1b' ==> colour_code_at(s, k)
}

/// Text with no escape and no control character other than tab, line feed
/// and carriage return.
pub open spec fn plain_text(s: Seq<char>) -> bool {
    forall|k: int| 0 <= k < s.len() ==> terminal_safe(#[trigger] s[k]) && s[k] != '\x1b'
}

proof fn lemma_plain_ok(s: Seq<char>)
    requires
        plain_text(s),
    ensures
        escapes_only_in_colour_codes(s),
{
    assert forall|k: int| 0 <= k < s.len() && #[trigger] s[k] == '\x1b' implies colour_code_at(s, k) by {
        assert(terminal_safe(s[k]) && s[k] != '\x1b');
    }
}

proof fn lemma_code_ok(j: int)
    requires
        0 <= j < colour_codes().len(),
    ensures
        escapes_only_in_colour_codes(colour_codes()[j]),
{
    let c = colour_codes()[j];
    assert(c.subrange(0, c.len() as int) =~= c);
    assert(matches_at(c, colour_codes()[j], 0));
    assert forall|k: int| 0 <= k < c.len() implies terminal_safe(#[trigger] c[k]) || c[k] == '\x1b' by {
        if j == 0 {} else if j == 1 {} else if j == 2 {} else if j == 3 {} else if j == 4 {} else if j == 5 {} else {}
    }
    assert forall|k: int| 0 <= k < c.len() && #[trigger] c[k] == '\x1b' implies colour_code_at(c, k) by {
        if j == 0 {} else if j == 1 {} else if j == 2 {} else if j == 3 {} else if j == 4 {} else if j == 5 {} else {}
        assert(k == 0);
    }
}

proof fn lemma_ok_concat(a: Seq<char>, b: Seq<char>)
    requires
        escapes_only_in_colour_codes(a),
        escapes_only_in_colour_codes(b),
    ensures
        escapes_only_in_colour_codes(a + b),
{
    let ab = a + b;
    let n = a.len() as int;
    assert forall|k: int| 0 <= k < ab.len() implies terminal_safe(#[trigger] ab[k]) || ab[k] == '\x1b' by {
        if k < n {
            assert(ab[k] == a[k]);
        } else {
            assert(ab[k] == b[k - n]);
        }
    }
    assert forall|k: int| 0 <= k < ab.len() && #[trigger] ab[k] == '\x1b' implies colour_code_at(ab, k) by {
        if k < n {
            assert(a[k] == '\x1b');
            let j = choose|j: int| 0 <= j < colour_codes().len() && #[trigger] matches_at(a, colour_codes()[j], k);
            let c = colour_codes()[j];
            assert(ab.subrange(k, k + c.len()) =~= a.subrange(k, k + c.len()));
            assert(matches_at(ab, c, k));
        } else {
            assert(b[k - n] == '\x1b');
            let j = choose|j: int| 0 <= j < colour_codes().len() && #[trigger] matches_at(b, colour_codes()[j], k - n);
            let c = colour_codes()[j];
            assert(ab.subrange(k, k + c.len()) =~= b.subrange(k - n, k - n + c.len()));
            assert(matches_at(ab, c, k));
        }
    }
}

proof fn lemma_clean_ok(x: Seq<char>)
    ensures
        escapes_only_in_colour_codes(terminal_clean(x)),
{
    lemma_terminal_clean_is_safe(x, 0, false);
    lemma_plain_ok(terminal_clean(x));
}

proof fn lemma_decimal_plain(n: nat)
    ensures
        plain_text(decimal(n)),
    decreases n,
{
    if n >= 10 {
        lemma_decimal_plain(n / 10);
        assert(decimal(n) == decimal(n / 10).push(digit_char(n % 10)));
    }
}

proof fn lemma_number_ok(n: nat, width: nat)
    ensures
        escapes_only_in_colour_codes(pad_left(decimal(n), width)),
{
    lemma_decimal_plain(n);
    let d = decimal(n);
    if d.len() < width {
        let sp = spaces((width - d.len()) as nat);
        assert(plain_text(sp));
        assert(plain_text(sp + d)) by {
            assert forall|k: int| 0 <= k < (sp + d).len() implies terminal_safe(#[trigger] (sp + d)[k])
                && (sp + d)[k] != '\x1b' by {
                if k >= sp.len() {
                    assert((sp + d)[k] == d[k - sp.len()]);
                }
            }
        }
    }
    lemma_plain_ok(pad_left(d, width));
}

/// Every colour code is a line that passes.
proof fn lemma_codes_ok()
    ensures
        forall|j: int| 0 <= j < colour_codes().len() ==> escapes_only_in_colour_codes(#[trigger] colour_codes()[j]),
{
    assert forall|j: int| 0 <= j < colour_codes().len() implies escapes_only_in_colour_codes(#[trigger] colour_codes()[j]) by {
        lemma_code_ok(j);
    }
}

/// The fixed pieces of the printed lines pass.
proof fn lemma_literals_ok()
    ensures
        escapes_only_in_colour_codes("\x1b[35m"@),
        escapes_only_in_colour_codes("\x1b[0m [\x1b[36m"@),
        escapes_only_in_colour_codes("\x1b[0m]"@),
        escapes_only_in_colour_codes("  \x1b[32m"@),
        escapes_only_in_colour_codes(":\x1b[0m "@),
        escapes_only_in_colour_codes("\x1b[1;35m"@),
        escapes_only_in_colour_codes("\x1b[0m"@),
        escapes_only_in_colour_codes("  \x1b[36m"@),
        escapes_only_in_colour_codes("\x1b[0m:"@),
        escapes_only_in_colour_codes(" (empty)"@),
        escapes_only_in_colour_codes(" "@),
        escapes_only_in_colour_codes("    \x1b[90m|\x1b[0m "@),
        escapes_only_in_colour_codes("    \x1b[33m... ["@),
        escapes_only_in_colour_codes(" more lines omitted]\x1b[0m"@),
        escapes_only_in_colour_codes(Seq::<char>::empty()),
{
    lemma_codes_ok();
    let c = colour_codes();
    reveal_strlit("\x1b[35m");
    reveal_strlit("\x1b[0m [\x1b[36m");
    reveal_strlit("\x1b[0m]");
    reveal_strlit("  \x1b[32m");
    reveal_strlit(":\x1b[0m ");
    reveal_strlit("\x1b[1;35m");
    reveal_strlit("\x1b[0m");
    reveal_strlit("  \x1b[36m");
    reveal_strlit("\x1b[0m:");
    reveal_strlit(" (empty)");
    reveal_strlit(" ");
    reveal_strlit("    \x1b[90m|\x1b[0m ");
    reveal_strlit("    \x1b[33m... [");
    reveal_strlit(" more lines omitted]\x1b[0m");
    let sp1 = seq![' '];
    let sp2 = seq![' ', ' '];
    let sp4 = seq![' ', ' ', ' ', ' '];
    lemma_plain_ok(sp1);
    lemma_plain_ok(sp2);
    lemma_plain_ok(sp4);
    lemma_plain_ok(seq![' ', '[']);
    lemma_plain_ok(seq![']']);
    lemma_plain_ok(seq![':']);
    lemma_plain_ok(seq![':', ' ']);
    lemma_plain_ok(seq!['|']);
    lemma_plain_ok(" (empty)"@);
    lemma_plain_ok(seq!['.', '.', '.', ' ', '[']);
    lemma_plain_ok(seq![' ', 'm', 'o', 'r', 'e', ' ', 'l', 'i', 'n', 'e', 's', ' ', 'o', 'm', 'i', 't', 't', 'e', 'd', ']']);
    lemma_plain_ok(Seq::<char>::empty());
    assert("\x1b[35m"@ =~= c[4]);
    assert("\x1b[0m [\x1b[36m"@ =~= c[0] + seq![' ', '['] + c[5]);
    lemma_ok_concat(c[0], seq![' ', '[']);
    lemma_ok_concat(c[0] + seq![' ', '['], c[5]);
    assert("\x1b[0m]"@ =~= c[0] + seq![']']);
    lemma_ok_concat(c[0], seq![']']);
    assert("  \x1b[32m"@ =~= sp2 + c[2]);
    lemma_ok_concat(sp2, c[2]);
    assert(":\x1b[0m "@ =~= seq![':'] + c[0] + sp1);
    lemma_ok_concat(seq![':'], c[0]);
    lemma_ok_concat(seq![':'] + c[0], sp1);
    assert("\x1b[1;35m"@ =~= c[1]);
    assert("\x1b[0m"@ =~= c[0]);
    assert("  \x1b[36m"@ =~= sp2 + c[5]);
    lemma_ok_concat(sp2, c[5]);
    assert("\x1b[0m:"@ =~= c[0] + seq![':']);
    lemma_ok_concat(c[0], seq![':']);
    assert(" "@ =~= sp1);
    assert("    \x1b[90m|\x1b[0m "@ =~= sp4 + c[6] + seq!['|'] + c[0] + sp1);
    lemma_ok_concat(sp4, c[6]);
    lemma_ok_concat(sp4 + c[6], seq!['|']);
    lemma_ok_concat(sp4 + c[6] + seq!['|'], c[0]);
    lemma_ok_concat(sp4 + c[6] + seq!['|'] + c[0], sp1);
    assert("    \x1b[33m... ["@ =~= sp4 + c[3] + seq!['.', '.', '.', ' ', '[']);
    lemma_ok_concat(sp4, c[3]);
    lemma_ok_concat(sp4 + c[3], seq!['.', '.', '.', ' ', '[']);
    let tail = seq![' ', 'm', 'o', 'r', 'e', ' ', 'l', 'i', 'n', 'e', 's', ' ', 'o', 'm', 'i', 't', 't', 'e', 'd', ']'];
    assert(" more lines omitted]\x1b[0m"@ =~= tail + c[0]);
    lemma_ok_concat(tail, c[0]);
}

proof fn lemma_line_hits_ok(ls: Seq<Seq<char>>, pattern: Seq<char>, n: int)
    ensures
        forall|i: int| 0 <= i < line_hits(ls, pattern, n).len() ==> escapes_only_in_colour_codes(
            #[trigger] line_hits(ls, pattern, n)[i],
        ),
    decreases n,
{
    if n > 0 {
        lemma_line_hits_ok(ls, pattern, n - 1);
        let prev = line_hits(ls, pattern, n - 1);
        let idx = (n - 1) as nat;
        let line = ls[n - 1];
        lemma_literals_ok();
        lemma_number_ok(idx + 1, 4);
        lemma_clean_ok(trim_end(line));
        let h = hit_line(idx, line);
        lemma_ok_concat("  \x1b[32m"@, pad_left(decimal(idx + 1), 4));
        lemma_ok_concat("  \x1b[32m"@ + pad_left(decimal(idx + 1), 4), ":\x1b[0m "@);
        lemma_ok_concat("  \x1b[32m"@ + pad_left(decimal(idx + 1), 4) + ":\x1b[0m "@, terminal_clean(trim_end(line)));
        assert forall|i: int| 0 <= i < line_hits(ls, pattern, n).len() implies escapes_only_in_colour_codes(
            #[trigger] line_hits(ls, pattern, n)[i],
        ) by {
            if i < prev.len() {
                assert(line_hits(ls, pattern, n)[i] == prev[i]);
            } else {
                assert(line_hits(ls, pattern, n)[i] == h);
            }
        }
    }
}

proof fn lemma_search_lines_ok(
    display: Seq<char>,
    entries: Seq<(Seq<char>, Seq<char>)>,
    pattern: Seq<char>,
    key_filter: Option<Seq<char>>,
    n: int,
)
    ensures
        forall|i: int| 0 <= i < search_lines(display, entries, pattern, key_filter, n).len()
            ==> escapes_only_in_colour_codes(
            #[trigger] search_lines(display, entries, pattern, key_filter, n)[i],
        ),
    decreases n,
{
    if n > 0 {
        lemma_search_lines_ok(display, entries, pattern, key_filter, n - 1);
        let prev = search_lines(display, entries, pattern, key_filter, n - 1);
        let (key, value) = (entries[n - 1].0, entries[n - 1].1);
        let add = search_entry_lines(display, key, value, pattern, key_filter);
        lemma_literals_ok();
        lemma_clean_ok(display);
        lemma_clean_ok(key);
        lemma_ok_concat("\x1b[35m"@, terminal_clean(display));
        lemma_ok_concat("\x1b[35m"@ + terminal_clean(display), "\x1b[0m [\x1b[36m"@);
        lemma_ok_concat("\x1b[35m"@ + terminal_clean(display) + "\x1b[0m [\x1b[36m"@, terminal_clean(key));
        lemma_ok_concat(
            "\x1b[35m"@ + terminal_clean(display) + "\x1b[0m [\x1b[36m"@ + terminal_clean(key),
            "\x1b[0m]"@,
        );
        let hits = line_hits(lines(value), pattern, lines(value).len() as int);
        lemma_line_hits_ok(lines(value), pattern, lines(value).len() as int);
        assert forall|i: int| 0 <= i < add.len() implies escapes_only_in_colour_codes(#[trigger] add[i]) by {
            if i > 0 {
                assert(add[i] == hits[i - 1]);
            }
        }
        assert forall|i: int| 0 <= i < search_lines(display, entries, pattern, key_filter, n).len()
            implies escapes_only_in_colour_codes(
            #[trigger] search_lines(display, entries, pattern, key_filter, n)[i],
        ) by {
            if i < prev.len() {
                assert(search_lines(display, entries, pattern, key_filter, n)[i] == prev[i]);
            } else {
                assert(search_lines(display, entries, pattern, key_filter, n)[i] == add[i - prev.len()]);
            }
        }
    }
}

proof fn lemma_list_entry_ok(key: Seq<char>, value: Seq<char>, max_lines: nat)
    ensures
        forall|i: int| 0 <= i < list_entry_lines(key, value, max_lines).len() ==> escapes_only_in_colour_codes(
            #[trigger] list_entry_lines(key, value, max_lines)[i],
        ),
{
    let ls = lines(value);
    let out = list_entry_lines(key, value, max_lines);
    lemma_literals_ok();
    lemma_clean_ok(key);
    lemma_ok_concat("  \x1b[36m"@, terminal_clean(key));
    lemma_ok_concat("  \x1b[36m"@ + terminal_clean(key), "\x1b[0m:"@);
    let pre = list_key_prefix(key);
    if ls.len() == 0 {
        lemma_ok_concat(pre, " (empty)"@);
    } else if ls.len() == 1 {
        lemma_clean_ok(ls[0]);
        lemma_ok_concat(pre, " "@);
        lemma_ok_concat(pre + " "@, terminal_clean(ls[0]));
    } else {
        let limit = shown_lines(max_lines, ls.len());
        let bar = "    \x1b[90m|\x1b[0m "@;
        let mid = Seq::new(limit, |k: int| bar + terminal_clean(trim_end(ls[k])));
        assert forall|k: int| 0 <= k < mid.len() implies escapes_only_in_colour_codes(#[trigger] mid[k]) by {
            lemma_clean_ok(trim_end(ls[k]));
            lemma_ok_concat(bar, terminal_clean(trim_end(ls[k])));
        }
        let left = (ls.len() - limit) as nat;
        lemma_number_ok(left, 0);
        assert(pad_left(decimal(left), 0) == decimal(left));
        lemma_ok_concat("    \x1b[33m... ["@, decimal(left));
        lemma_ok_concat("    \x1b[33m... ["@ + decimal(left), " more lines omitted]\x1b[0m"@);
        assert forall|i: int| 0 <= i < out.len() implies escapes_only_in_colour_codes(#[trigger] out[i]) by {
            if i > 0 && i <= mid.len() {
                assert(out[i] == mid[i - 1]);
            }
        }
    }
}

proof fn lemma_list_body_ok(
    entries: Seq<(Seq<char>, Seq<char>)>,
    max_lines: nat,
    key_filter: Option<Seq<char>>,
    n: int,
)
    ensures
        forall|i: int| 0 <= i < list_body(entries, max_lines, key_filter, n).len()
            ==> escapes_only_in_colour_codes(#[trigger] list_body(entries, max_lines, key_filter, n)[i]),
    decreases n,
{
    if n > 0 {
        lemma_list_body_ok(entries, max_lines, key_filter, n - 1);
        let prev = list_body(entries, max_lines, key_filter, n - 1);
        let add = list_entry_lines(entries[n - 1].0, entries[n - 1].1, max_lines);
        lemma_list_entry_ok(entries[n - 1].0, entries[n - 1].1, max_lines);
        assert forall|i: int| 0 <= i < list_body(entries, max_lines, key_filter, n).len()
            implies escapes_only_in_colour_codes(#[trigger] list_body(entries, max_lines, key_filter, n)[i]) by {
            if i < prev.len() {
                assert(list_body(entries, max_lines, key_filter, n)[i] == prev[i]);
            } else {
                assert(list_body(entries, max_lines, key_filter, n)[i] == add[i - prev.len()]);
            }
        }
    }
}

/// What searching prints reaches the terminal free of escapes other than the
/// tool's own colour codes: paths, keys and value lines, whatever they hold,
/// add no escape character and no control character other than tab, line
/// feed and carriage return.
pub proof fn lemma_search_output_is_safe(
    display: Seq<char>,
    entries: Seq<(Seq<char>, Seq<char>)>,
    pattern: Seq<char>,
    key_filter: Option<Seq<char>>,
)
    ensures
        forall|i: int| 0 <= i < search_lines(display, entries, pattern, key_filter, entries.len() as int).len()
            ==> escapes_only_in_colour_codes(
            #[trigger] search_lines(display, entries, pattern, key_filter, entries.len() as int)[i],
        ),
{
    lemma_search_lines_ok(display, entries, pattern, key_filter, entries.len() as int);
}

/// What listing prints reaches the terminal free of escapes other than the
/// tool's own colour codes, whatever the path, keys and values hold.
pub proof fn lemma_list_output_is_safe(
    display: Seq<char>,
    entries: Seq<(Seq<char>, Seq<char>)>,
    max_lines: nat,
    key_filter: Option<Seq<char>>,
)
    ensures
        forall|i: int| 0 <= i < list_lines(display, entries, max_lines, key_filter).len()
            ==> escapes_only_in_colour_codes(#[trigger] list_lines(display, entries, max_lines, key_filter)[i]),
{
    let out = list_lines(display, entries, max_lines, key_filter);
    let body = list_body(entries, max_lines, key_filter, entries.len() as int);
    lemma_list_body_ok(entries, max_lines, key_filter, entries.len() as int);
    lemma_literals_ok();
    lemma_clean_ok(display);
    lemma_ok_concat("\x1b[1;35m"@, terminal_clean(display));
    lemma_ok_concat("\x1b[1;35m"@ + terminal_clean(display), "\x1b[0m"@);
    assert forall|i: int| 0 <= i < out.len() implies escapes_only_in_colour_codes(#[trigger] out[i]) by {
        if 0 < i <= body.len() {
            assert(out[i] == body[i - 1]);
        }
    }
}

// ---------------------------------------------------------------------------
// Which lines and entries are reported
// ---------------------------------------------------------------------------

/// Whether `x` is the report of a value line among the first `n` whose
/// lower-cased text contains the pattern.
pub open spec fn is_hit_among(ls: Seq<Seq<char>>, pattern: Seq<char>, n: int, x: Seq<char>) -> bool {
    exists|j: int|
        0 <= j < n && contains(lower_text(ls[j]), pattern) && x == #[trigger] hit_line(j as nat, ls[j])
}

proof fn lemma_line_hits_members(ls: Seq<Seq<char>>, pattern: Seq<char>, n: int)
    requires
        0 <= n <= ls.len(),
    ensures
        forall|j: int|
            0 <= j < n && contains(lower_text(ls[j]), pattern) ==> line_hits(ls, pattern, n).contains(
                #[trigger] hit_line(j as nat, ls[j]),
            ),
        forall|i: int|
            0 <= i < line_hits(ls, pattern, n).len() ==> is_hit_among(
                ls,
                pattern,
                n,
                #[trigger] line_hits(ls, pattern, n)[i],
            ),
    decreases n,
{
    if n > 0 {
        lemma_line_hits_members(ls, pattern, n - 1);
        let prev = line_hits(ls, pattern, n - 1);
        let cur = line_hits(ls, pattern, n);
        let last = if contains(lower_text(ls[n - 1]), pattern) {
            seq![hit_line((n - 1) as nat, ls[n - 1])]
        } else {
            Seq::empty()
        };
        assert(cur == prev + last);
        assert forall|j: int|
            0 <= j < n && contains(lower_text(ls[j]), pattern) implies cur.contains(
                #[trigger] hit_line(j as nat, ls[j]),
            ) by {
            if j < n - 1 {
                assert(prev.contains(hit_line(j as nat, ls[j])));
                let k = choose|k: int| 0 <= k < prev.len() && prev[k] == hit_line(j as nat, ls[j]);
                assert(cur[k] == prev[k]);
            } else {
                assert(cur[prev.len() as int] == hit_line(j as nat, ls[j]));
            }
        }
        assert forall|i: int| 0 <= i < cur.len() implies is_hit_among(ls, pattern, n, #[trigger] cur[i]) by {
            if i < prev.len() {
                assert(cur[i] == prev[i]);
                assert(is_hit_among(ls, pattern, n - 1, prev[i]));
                let j = choose|j: int|
                    0 <= j < n - 1 && contains(lower_text(ls[j]), pattern) && prev[i] == #[trigger] hit_line(j as nat, ls[j]);
                assert(0 <= j < n && contains(lower_text(ls[j]), pattern) && cur[i] == hit_line(j as nat, ls[j]));
            } else {
                assert(cur[i] == hit_line((n - 1) as nat, ls[n - 1]));
                assert(contains(lower_text(ls[n - 1]), pattern));
            }
        }
    }
}

/// Search reports an entry exactly when its key passes the key filter (its
/// lower-cased text contains the filter) and its lower-cased value or key
/// contains the pattern. A reported entry gets its heading, then, for each
/// value line whose lower-cased text contains the pattern, that line under
/// its 1-based number, and no other line: matching is case-insensitive line
/// by line.
pub proof fn lemma_search_reports_matching_lines(
    display: Seq<char>,
    key: Seq<char>,
    value: Seq<char>,
    pattern: Seq<char>,
    key_filter: Option<Seq<char>>,
)
    ensures
        search_entry_lines(display, key, value, pattern, key_filter).len() > 0 <==> (match key_filter {
            Some(f) => contains(lower_text(key), f),
            None => true,
        }) && (contains(lower_text(value), pattern) || contains(lower_text(key), pattern)),
        search_entry_lines(display, key, value, pattern, key_filter).len() > 0 ==> search_entry_lines(
            display,
            key,
            value,
            pattern,
            key_filter,
        )[0] == search_header(display, key),
        search_entry_lines(display, key, value, pattern, key_filter).len() > 0 ==> forall|j: int|
            0 <= j < lines(value).len() && contains(lower_text(lines(value)[j]), pattern)
                ==> search_entry_lines(display, key, value, pattern, key_filter).contains(
                #[trigger] hit_line(j as nat, lines(value)[j]),
            ),
        forall|i: int|
            1 <= i < search_entry_lines(display, key, value, pattern, key_filter).len() ==> is_hit_among(
                lines(value),
                pattern,
                lines(value).len() as int,
                #[trigger] search_entry_lines(display, key, value, pattern, key_filter)[i],
            ),
{
    let out = search_entry_lines(display, key, value, pattern, key_filter);
    let ls = lines(value);
    let hits = line_hits(ls, pattern, ls.len() as int);
    lemma_line_hits_members(ls, pattern, ls.len() as int);
    let sel = match key_filter {
        Some(f) => contains(lower_text(key), f),
        None => true,
    };
    assert(key_selected(key, key_filter) == sel);
    if out.len() > 0 {
        assert(out == seq![search_header(display, key)] + hits);
        assert forall|j: int|
            0 <= j < ls.len() && contains(lower_text(ls[j]), pattern) implies out.contains(
                #[trigger] hit_line(j as nat, ls[j]),
            ) by {
            assert(hits.contains(hit_line(j as nat, ls[j])));
            let k = choose|k: int| 0 <= k < hits.len() && hits[k] == hit_line(j as nat, ls[j]);
            assert(out[k + 1] == hits[k]);
        }
        assert forall|i: int| 1 <= i < out.len() implies is_hit_among(ls, pattern, ls.len() as int, #[trigger] out[i]) by {
            assert(out[i] == hits[i - 1]);
            assert(is_hit_among(ls, pattern, ls.len() as int, hits[i - 1]));
        }
    }
}

proof fn lemma_body_has_entry(
    entries: Seq<(Seq<char>, Seq<char>)>,
    max_lines: nat,
    key_filter: Option<Seq<char>>,
    n: int,
    i: int,
)
    requires
        0 <= i < n <= entries.len(),
        key_selected(entries[i].0, key_filter),
    ensures
        list_body(entries, max_lines, key_filter, n).contains(
            list_entry_lines(entries[i].0, entries[i].1, max_lines)[0],
        ),
    decreases n,
{
    let prev = list_body(entries, max_lines, key_filter, n - 1);
    let cur = list_body(entries, max_lines, key_filter, n);
    let x = list_entry_lines(entries[i].0, entries[i].1, max_lines)[0];
    if i == n - 1 {
        assert(cur[prev.len() as int] == x);
    } else {
        lemma_body_has_entry(entries, max_lines, key_filter, n - 1, i);
        let k = choose|k: int| 0 <= k < prev.len() && prev[k] == x;
        assert(cur[k] == prev[k]);
    }
}

/// The key filter is a substring test on the lower-cased key: a listing with
/// filter `f` prints something exactly when some entry's lower-cased key
/// contains `f`, and every such entry is listed (its key line is printed).
pub proof fn lemma_list_key_filter_is_substring(
    display: Seq<char>,
    entries: Seq<(Seq<char>, Seq<char>)>,
    max_lines: nat,
    f: Seq<char>,
)
    ensures
        forall|k: Seq<char>| key_selected(k, Some(f)) <==> #[trigger] contains(lower_text(k), f),
        list_lines(display, entries, max_lines, Some(f)).len() > 0 <==> exists|i: int|
            0 <= i < entries.len() && #[trigger] contains(lower_text(entries[i].0), f),
        forall|i: int|
            0 <= i < entries.len() && #[trigger] contains(lower_text(entries[i].0), f)
                ==> list_lines(display, entries, max_lines, Some(f)).contains(
                list_entry_lines(entries[i].0, entries[i].1, max_lines)[0],
            ),
{
    let out = list_lines(display, entries, max_lines, Some(f));
    let body = list_body(entries, max_lines, Some(f), entries.len() as int);
    if exists|i: int| 0 <= i < entries.len() && #[trigger] contains(lower_text(entries[i].0), f) {
        let i = choose|i: int| 0 <= i < entries.len() && #[trigger] contains(lower_text(entries[i].0), f);
        assert(key_selected(entries[i].0, Some(f)));
    } else {
        assert forall|i: int| 0 <= i < entries.len() implies !key_selected(#[trigger] entries[i].0, Some(f)) by {
            assert(!contains(lower_text(entries[i].0), f));
        }
    }
    assert forall|i: int|
        0 <= i < entries.len() && #[trigger] contains(lower_text(entries[i].0), f) implies out.contains(
            list_entry_lines(entries[i].0, entries[i].1, max_lines)[0],
        ) by {
        lemma_body_has_entry(entries, max_lines, Some(f), entries.len() as int, i);
        let x = list_entry_lines(entries[i].0, entries[i].1, max_lines)[0];
        let k = choose|k: int| 0 <= k < body.len() && body[k] == x;
        assert(out[k + 1] == body[k]);
    }
}

} // verus!
