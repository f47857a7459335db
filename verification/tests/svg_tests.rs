use pnggrep::model::resolve_key;
use pnggrep::svg::{
    extract_svg_metadata, parse_json_object, scan_svg_metadata, xml_unescape, MAX_SVG_READ_SIZE,
};

#[test]
fn test_svg_metadata_with_json_in_description() {
    let svg_data = r#"<?xml version="1.0" encoding="utf-8" standalone="no"?>
<svg xmlns="http://www.w3.org/2000/svg" width="100" height="100">
  <metadata>
    <rdf:RDF xmlns:dc="http://purl.org/dc/elements/1.1/">
      <dc:title>equilibrium.svg</dc:title>
      <dc:date>2026-09-10T10:00:00</dc:date>
      <dc:description>{
        &quot;directory&quot;: &quot;/home/researcher/sim&quot;,
        &quot;filename&quot;: &quot;run.py&quot;,
        &quot;source_code&quot;: &quot;import numpy as np\ndef solve(): pass\n&quot;,
        &quot;git_commit&quot;: &quot;abcdef1&quot;
      }</dc:description>
    </rdf:RDF>
  </metadata>
  <rect width="100" height="100" />
</svg>"#;

    let entries = extract_svg_metadata(svg_data, svg_data.len() as u64);

    assert_eq!(resolve_key(&entries, "Title").unwrap().value, "equilibrium.svg");
    assert_eq!(resolve_key(&entries, "Description/filename").unwrap().value, "run.py");
    assert_eq!(
        resolve_key(&entries, "source_code").unwrap().value,
        "import numpy as np\ndef solve(): pass\n"
    );
    assert_eq!(
        resolve_key(&entries, "SourceCode").unwrap().value,
        "import numpy as np\ndef solve(): pass\n"
    );
}

#[test]
fn test_svg_without_metadata() {
    let svg_simple = r#"<svg width="50" height="50"><circle cx="25" cy="25" r="20"/></svg>"#;
    let entries = extract_svg_metadata(svg_simple, svg_simple.len() as u64);
    assert!(entries.is_empty());
}

#[test]
fn test_xml_entity_unescaping() {
    let raw = "&quot;Hello &amp; &lt;World&gt;&apos; &#38; &#x41;";
    let decoded = xml_unescape(raw);
    assert_eq!(decoded, "\"Hello & <World>' & A");
}

#[test]
fn test_json_recursion_depth_limit() {
    let deep_json = "{\"a\":{\"b\":{\"c\":{\"d\":{\"e\":{\"f\":{\"g\":{\"h\":{\"i\":{\"j\":\"deep\"}}}}}}}}}}";
    let parsed = parse_json_object(deep_json, 0);
    assert!(parsed.is_none());
}

#[test]
fn json_nesting_within_limit_is_flattened() {
    let json = "{\"a\":{\"b\":{\"c\":{\"d\":{\"e\":{\"f\":{\"g\":{\"h\":{\"i\":\"ok\"}}}}}}}}}";
    let parsed = parse_json_object(json, 0).unwrap();
    assert_eq!(parsed, vec![("a/b/c/d/e/f/g/h/i".to_string(), "ok".to_string())]);
    assert_eq!(parse_json_object("{\"k\": 1}", 9), None);
}

#[test]
fn json_values_and_escapes() {
    let parsed = parse_json_object(
        "  { \"s\": \"a\\\"b\\u0041\\n\", \"n\": 42 , \"t\":true,\"o\":{\"x\":\"y\"} }  ",
        0,
    )
    .unwrap();
    assert_eq!(
        parsed,
        vec![
            ("s".to_string(), "a\"bA\n".to_string()),
            ("n".to_string(), "42".to_string()),
            ("t".to_string(), "true".to_string()),
            ("o/x".to_string(), "y".to_string()),
        ]
    );
    assert_eq!(parse_json_object("{}", 0), Some(vec![]));
    assert_eq!(parse_json_object("[1]", 0), None);
    assert_eq!(parse_json_object("{k: 1}", 0), None);
    assert_eq!(parse_json_object("{\"k\" 1}", 0), None);
}

#[test]
fn xml_unescape_edge_cases() {
    assert_eq!(xml_unescape("&unknown; &amp"), "&unknown; &amp");
    assert_eq!(xml_unescape("&#xD800;x"), "x");
    assert_eq!(xml_unescape("&#65;&#X42;"), "AB");
    assert_eq!(xml_unescape("&abcdefghijkl;"), "&abcdefghijkl;");
}

#[test]
fn svg_scan_refuses_cut_inside_a_character() {
    assert!(scan_svg_metadata("<té>x</té>", 9).is_none());
    let text = "<a:note>  Hi &amp; bye </a:note><b></b><c/>";
    let entries = scan_svg_metadata(text, text.len() as u64).unwrap();
    assert_eq!(entries.len(), 1);
    assert_eq!(entries[0].key, "Note");
    assert_eq!(entries[0].value, "Hi & bye");
}

#[test]
fn oversized_svg_is_skipped() {
    let text = "<svg><metadata><dc:title>t</dc:title></metadata></svg>";
    assert_eq!(scan_svg_metadata(text, MAX_SVG_READ_SIZE).unwrap().len(), 1);
    assert!(scan_svg_metadata(text, MAX_SVG_READ_SIZE + 1).unwrap().is_empty());
    assert!(extract_svg_metadata("<té>x</té>", MAX_SVG_READ_SIZE + 1).is_empty());
}

#[test]
fn unescaping_inverts_escaping() {
    let original = "if a < b && c > d { say(\"it's\") }";
    let escaped = original
        .replace('&', "&amp;")
        .replace('<', "&lt;")
        .replace('>', "&gt;")
        .replace('"', "&quot;")
        .replace('\'', "&apos;");
    assert_eq!(xml_unescape(&escaped), original);
}
