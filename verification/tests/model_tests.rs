use pnggrep::model::{normalize_key, resolve_key, MetadataEntry};

fn entry(k: &str, v: &str) -> MetadataEntry {
    MetadataEntry { key: k.to_string(), value: v.to_string() }
}

#[test]
fn test_resolve_key_exact_and_leaf() {
    let entries = vec![entry("Description/source_code", "x = 42"), entry("GitCommit", "1a2b3c")];

    assert_eq!(resolve_key(&entries, "Description/source_code").unwrap().value, "x = 42");
    assert_eq!(resolve_key(&entries, "source_code").unwrap().value, "x = 42");
    assert_eq!(resolve_key(&entries, "source-code").unwrap().value, "x = 42");
    assert_eq!(resolve_key(&entries, "SourceCode").unwrap().value, "x = 42");
}

#[test]
fn test_resolve_key_ambiguity() {
    let entries = vec![entry("SectionA/Status", "OK"), entry("SectionB/Status", "ERROR")];

    let res = resolve_key(&entries, "Status");
    assert!(res.is_err());
    assert!(res.unwrap_err().contains("Ambiguous key"));

    assert_eq!(resolve_key(&entries, "SectionA/Status").unwrap().value, "OK");
}

#[test]
fn test_resolve_key_not_found() {
    let entries = vec![entry("Author", "User")];

    let res = resolve_key(&entries, "NonExistentKey");
    assert!(res.is_err());
    assert!(res.unwrap_err().contains("Available keys"));
}

#[test]
fn resolve_key_exact_messages() {
    let entries = vec![entry("SectionA/Status", "OK"), entry("SectionB/Status", "ERROR")];
    assert_eq!(
        resolve_key(&entries, "status").unwrap_err(),
        "Ambiguous key 'status'. Matches multiple entries:\n  - SectionA/Status\n  - SectionB/Status"
    );
    assert_eq!(
        resolve_key(&entries, "Nope").unwrap_err(),
        "Key 'Nope' not found. Available keys:\n  - SectionA/Status\n  - SectionB/Status"
    );
    let none: Vec<MetadataEntry> = Vec::new();
    assert_eq!(resolve_key(&none, "x").unwrap_err(), "Key 'x' not found. Available keys:\n");
}

#[test]
fn resolve_key_prefers_whole_key_match() {
    // The whole-key match wins even though the leaf "b" occurs twice.
    let entries = vec![entry("a/b", "1"), entry("B", "2"), entry("c/b", "3")];
    assert_eq!(resolve_key(&entries, "b").unwrap().value, "2");
    // Case is ignored for the whole key; the first match wins.
    let entries = vec![entry("Key", "1"), entry("KEY", "2")];
    assert_eq!(resolve_key(&entries, "key").unwrap().value, "1");
}

#[test]
fn resolve_key_loose_match_on_whole_key() {
    let entries = vec![entry("Git/Commit-Hash", "abc")];
    assert_eq!(resolve_key(&entries, "gitcommithash").unwrap().value, "abc");
    let entries = vec![entry("a/x_y", "1"), entry("b/X-Y", "2")];
    assert!(resolve_key(&entries, "xy").unwrap_err().starts_with("Ambiguous key 'xy'"));
}

#[test]
fn normalize_key_drops_separators_and_lowercases() {
    assert_eq!(normalize_key("Description/Source_Code-X"), "descriptionsourcecodex");
    assert_eq!(normalize_key(""), "");
    assert_eq!(normalize_key("ÄB"), "äb");
}

#[test]
fn lookup_ignores_the_ascii_case_of_the_query() {
    let entries = vec![
        MetadataEntry { key: "Description/source_code".to_string(), value: "x = 42".to_string() },
        MetadataEntry { key: "SectionA/Status".to_string(), value: "OK".to_string() },
        MetadataEntry { key: "SectionB/Status".to_string(), value: "ERROR".to_string() },
    ];
    for (a, b) in [("SOURCE_CODE", "source_code"), ("sourcecode", "SourceCode"), ("description/SOURCE_code", "Description/source_code")] {
        assert_eq!(resolve_key(&entries, a).unwrap().value, resolve_key(&entries, b).unwrap().value);
    }
    assert!(resolve_key(&entries, "STATUS").unwrap_err().contains("SectionA/Status\n  - SectionB/Status"));
    assert!(resolve_key(&entries, "status").unwrap_err().contains("SectionA/Status\n  - SectionB/Status"));
}
