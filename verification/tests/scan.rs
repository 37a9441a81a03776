use sugg::scan::{entry_color, http_method, join_args, scan_entry, scan_path_entries, split_scan_input, HttpMethod};

fn split(s: &str) -> (String, String) {
    split_scan_input(s)
}

#[test]
fn scan_input_splits_into_directory_and_prefix() {
    assert_eq!(split(""), (".".to_string(), "".to_string()));
    assert_eq!(split("bi"), (".".to_string(), "".to_string()));
    assert_eq!(split("sub/"), ("sub/".to_string(), "sub/".to_string()));
    assert_eq!(split("src/comp"), ("src".to_string(), "src/".to_string()));
    assert_eq!(split("a/b/c"), ("a/b".to_string(), "a/b/".to_string()));
    assert_eq!(split("/usr"), ("/".to_string(), "/".to_string()));
    assert_eq!(split("C:\\x"), ("C:\\".to_string(), "C:\\".to_string()));
    assert_eq!(split("a\\b"), ("a".to_string(), "a\\".to_string()));
}

#[test]
fn scan_entries_for_files_and_directories() {
    let d = scan_entry("sub/", "foo", true);
    assert_eq!((d.display.as_str(), d.value.as_str(), d.is_dir), ("sub/foo/", "sub/foo/", true));
    let f = scan_entry("", "eslint", false);
    assert_eq!((f.display.as_str(), f.value.as_str(), f.is_dir), ("eslint", "eslint ", false));
}

#[test]
fn scan_listing_puts_directories_first_then_sorts_by_name() {
    let found = vec![
        ("main.ts".to_string(), false),
        ("utils".to_string(), true),
        ("components".to_string(), true),
        ("a.ts".to_string(), false),
    ];
    let entries = scan_path_entries("src/", &found);
    let shown: Vec<&str> = entries.iter().map(|e| e.display.as_str()).collect();
    assert_eq!(shown, vec!["src/components/", "src/utils/", "src/a.ts", "src/main.ts"]);
    assert_eq!(entries[2].value, "src/a.ts ");
}

#[test]
fn request_methods_ignore_case() {
    assert_eq!(http_method("post"), HttpMethod::Post);
    assert_eq!(http_method("Put"), HttpMethod::Put);
    assert_eq!(http_method("DELETE"), HttpMethod::Delete);
    assert_eq!(http_method("patch"), HttpMethod::Patch);
    assert_eq!(http_method("head"), HttpMethod::Get);
    assert_eq!(http_method(""), HttpMethod::Get);
}

#[test]
fn log_arguments_are_joined_by_spaces() {
    assert_eq!(join_args(&vec![]), "");
    assert_eq!(join_args(&vec!["a".to_string()]), "a");
    assert_eq!(join_args(&vec!["a".to_string(), "{\"x\":1}".to_string(), "".to_string()]), "a {\"x\":1} ");
}

#[test]
fn directories_are_shown_in_blue() {
    assert_eq!(entry_color(&scan_entry("src/", "lib", true)), Some("blue".to_string()));
    assert_eq!(entry_color(&scan_entry("src/", "main.ts", false)), None);
}

#[test]
fn listing_puts_directories_first_in_name_order() {
    let found = vec![
        ("zeta.ts".to_string(), false),
        ("beta".to_string(), true),
        ("alpha.ts".to_string(), false),
        ("alpha".to_string(), true),
    ];
    let shown: Vec<String> = scan_path_entries("", &found).into_iter().map(|e| e.display).collect();
    assert_eq!(shown, vec!["alpha/", "beta/", "alpha.ts", "zeta.ts"]);
}
