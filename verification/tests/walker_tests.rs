use pnggrep::model::MetadataEntry;
use pnggrep::walker::{
    cat_metadata, classify_dir, is_ignored_dir, is_python_venv, is_silent_ignored_dir, is_supported_ext,
    is_user_excluded, list_file, sanitize_for_terminal, search_file, DirDecision, VenvMarkers,
};

#[test]
fn test_sanitize_terminal_escapes() {
    let malicious_str = "\x1b[31mMalicious\x1b[0m\x07Text\nLine 2\tTabbed";
    let sanitized = sanitize_for_terminal(malicious_str);

    assert!(!sanitized.contains('\x1b'));
    assert!(!sanitized.contains('\x07'));
    assert_eq!(sanitized, "MaliciousText\nLine 2\tTabbed");
}

#[test]
fn test_silent_ignored_directories() {
    assert!(is_silent_ignored_dir(".git"));
    assert!(is_silent_ignored_dir(".git/"));
    assert!(is_silent_ignored_dir("__pycache__"));
    assert!(is_silent_ignored_dir(".hg"));
    assert!(is_silent_ignored_dir(".svn"));

    assert!(!is_silent_ignored_dir("venv"));
    assert!(!is_silent_ignored_dir("target"));
    assert!(!is_silent_ignored_dir("build"));
}

#[test]
fn test_ignored_directories() {
    assert!(is_ignored_dir("venv"));
    assert!(is_ignored_dir("venv/"));
    assert!(is_ignored_dir(".venv"));
    assert!(is_ignored_dir("VENV"));
    assert!(is_ignored_dir("__pycache__"));
    assert!(is_ignored_dir(".git"));
    assert!(is_ignored_dir("target"));

    assert!(!is_ignored_dir("figures"));
    assert!(!is_ignored_dir("my_venv"));
    assert!(!is_ignored_dir("venv_output"));
}

#[test]
fn test_user_excluded_directory() {
    let excludes = vec!["scratch_dir".to_string(), "archive/old_runs".to_string()];
    assert!(is_user_excluded("runs/scratch_dir", "scratch_dir", &excludes));
    assert!(is_user_excluded("archive/old_runs", "old_runs", &excludes));
    assert!(!is_user_excluded("runs/active_run", "active_run", &excludes));
}

#[test]
fn test_dynamic_venv_detection() {
    let none = VenvMarkers {
        has_pyvenv_cfg: false,
        has_conda_meta: false,
        has_bin_activate: false,
        has_bin_python: false,
        has_scripts_activate_bat: false,
    };
    let custom_venv = VenvMarkers { has_pyvenv_cfg: true, ..none };
    assert!(is_python_venv(&custom_venv));
    let conda_env = VenvMarkers { has_conda_meta: true, ..none };
    assert!(is_python_venv(&conda_env));
    let normal_dir = none;
    assert!(!is_python_venv(&normal_dir));
}

#[test]
fn venv_needs_both_bin_files() {
    let none = VenvMarkers {
        has_pyvenv_cfg: false,
        has_conda_meta: false,
        has_bin_activate: true,
        has_bin_python: false,
        has_scripts_activate_bat: false,
    };
    assert!(!is_python_venv(&none));
    assert!(is_python_venv(&VenvMarkers { has_bin_python: true, ..none }));
    assert!(is_python_venv(&VenvMarkers { has_bin_activate: false, has_scripts_activate_bat: true, ..none }));
}

#[test]
fn exclusion_by_path_components() {
    let excludes = vec!["archive/old_runs/".to_string()];
    assert!(is_user_excluded("data/archive/old_runs", "old_runs", &excludes));
    assert!(!is_user_excluded("data/xarchive/old_runs", "old_runs", &excludes));
    let excludes = vec!["SCRATCH".to_string()];
    assert!(is_user_excluded("a/scratch", "scratch", &excludes));
}

#[test]
fn supported_extensions() {
    assert!(is_supported_ext("PNG"));
    assert!(is_supported_ext("svg"));
    assert!(is_supported_ext("Pdf"));
    assert!(!is_supported_ext("jpg"));
}

#[test]
fn directory_decisions_follow_check_order() {
    let none = VenvMarkers {
        has_pyvenv_cfg: false,
        has_conda_meta: false,
        has_bin_activate: false,
        has_bin_python: false,
        has_scripts_activate_bat: false,
    };
    let venv = VenvMarkers { has_pyvenv_cfg: true, ..none };
    let ex = vec![".git".to_string()];
    assert_eq!(classify_dir("x/.git", Some(".git"), &ex, &none), DirDecision::SkipExcluded);
    assert_eq!(classify_dir("x/.git", Some(".git"), &[], &none), DirDecision::SkipSilently);
    assert_eq!(classify_dir("x/venv", Some("venv"), &[], &venv), DirDecision::SkipIgnored);
    assert_eq!(classify_dir("x/py311", Some("py311"), &[], &venv), DirDecision::SkipVenv);
    assert_eq!(classify_dir("x/figs", Some("figs"), &[], &none), DirDecision::Descend);
    assert_eq!(classify_dir("x/odd", None, &ex, &none), DirDecision::Descend);
}

fn entry(k: &str, v: &str) -> MetadataEntry {
    MetadataEntry { key: k.to_string(), value: v.to_string() }
}

#[test]
fn search_report_lines() {
    let entries = vec![
        entry("SourceCode", "import numpy as np\nx = np.sin(y)\r\nprint(x)  \n"),
        entry("GitCommit", "abc"),
    ];
    let out = search_file("fig.png", &entries, "np.sin", None);
    assert_eq!(
        out,
        vec![
            "\x1b[35mfig.png\x1b[0m [\x1b[36mSourceCode\x1b[0m]".to_string(),
            "  \x1b[32m   2:\x1b[0m x = np.sin(y)".to_string(),
        ]
    );
    let out = search_file("fig.png", &entries, "git", None);
    assert_eq!(out, vec!["\x1b[35mfig.png\x1b[0m [\x1b[36mGitCommit\x1b[0m]".to_string()]);
    assert!(search_file("fig.png", &entries, "np", Some("git")).is_empty());
}

#[test]
fn list_report_lines() {
    let entries = vec![
        entry("Empty", ""),
        entry("One", "single\x07"),
        entry("Many", "a\nb  \nc\nd"),
    ];
    let out = list_file("f.svg", &entries, 2, None);
    assert_eq!(
        out,
        vec![
            "\x1b[1;35mf.svg\x1b[0m".to_string(),
            "  \x1b[36mEmpty\x1b[0m: (empty)".to_string(),
            "  \x1b[36mOne\x1b[0m: single".to_string(),
            "  \x1b[36mMany\x1b[0m:".to_string(),
            "    \x1b[90m|\x1b[0m a".to_string(),
            "    \x1b[90m|\x1b[0m b".to_string(),
            "    \x1b[33m... [2 more lines omitted]\x1b[0m".to_string(),
            String::new(),
        ]
    );
    assert_eq!(list_file("f.svg", &entries, 0, Some("many")).len(), 7);
    assert!(list_file("f.svg", &entries, 3, Some("zzz")).is_empty());
}

#[test]
fn cat_prints_exact_value() {
    let entries = vec![entry("Description/source_code", "print(1)\n"), entry("GitCommit", "abc")];
    assert_eq!(cat_metadata("f.svg", &entries, "SourceCode"), Ok("print(1)\n".to_string()));
    assert_eq!(cat_metadata("f.svg", &entries, "gitcommit"), Ok("abc\n".to_string()));
    assert_eq!(
        cat_metadata("f.svg", &entries, "Nope"),
        Err("Error in f.svg: Key 'Nope' not found. Available keys:\n  - Description/source_code\n  - GitCommit".to_string())
    );
    assert_eq!(cat_metadata("f.png", &[], "x"), Err("No metadata found in f.png".to_string()));
}

#[test]
fn terminal_cleaning_twice_changes_nothing() {
    let raw = "ok\x1b[31mred\x1b[0m\x07bell\ttab\nline\r\u{9b}end";
    let once = sanitize_for_terminal(raw);
    assert_eq!(once, "okredbell\ttab\nline\rend");
    assert_eq!(sanitize_for_terminal(&once), once);
}

#[test]
fn printed_lines_hold_only_the_tools_colour_codes() {
    let codes = ["\x1b[0m", "\x1b[1;35m", "\x1b[32m", "\x1b[33m", "\x1b[35m", "\x1b[36m", "\x1b[90m"];
    let only_codes = |line: &str| {
        let mut rest = line.to_string();
        for c in codes {
            rest = rest.replace(c, "");
        }
        !rest.contains('\x1b') && !rest.chars().any(|c| c.is_control() && c != '\t')
    };
    let entries = vec![MetadataEntry {
        key: "Bad\x1b]0;title\x07Key".to_string(),
        value: "one \x1b[2Jfind\nsecond find\x1b[31m\nthird\nfourth".to_string(),
    }];
    let display = "dir\x1b[31m/evil.png";
    let found = search_file(display, &entries, "find", None);
    assert!(!found.is_empty());
    let listed = list_file(display, &entries, 2, None);
    assert!(!listed.is_empty());
    for line in found.iter().chain(listed.iter()) {
        assert!(only_codes(line), "{:?}", line);
    }
}
