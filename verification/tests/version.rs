use sugg::upgrade::{content_length, latest_tag_from_path, needs_upgrade, release_asset, Platform, asset_url, binary_names};
use sugg::version::{is_newer_version, parse_version};

#[test]
fn newer_versions_compare_by_component() {
    assert!(is_newer_version("1.2.0", "1.1.9"));
    assert!(is_newer_version("1.10.0", "1.9.0"));
    assert!(is_newer_version("2.0", "1.99.99"));
    assert!(!is_newer_version("1.1.9", "1.2.0"));
    assert!(!is_newer_version("1.2.3", "1.2.3"));
}

#[test]
fn missing_components_count_as_zero() {
    assert!(!is_newer_version("1.2", "1.2.0"));
    assert!(!is_newer_version("1.2.0", "1.2"));
    assert!(is_newer_version("1.2.1", "1.2"));
}

#[test]
fn non_numeric_components_are_left_out() {
    assert_eq!(parse_version("1.x.3"), vec![1, 3]);
    assert_eq!(parse_version("+7.08"), vec![7, 8]);
    assert_eq!(parse_version(""), Vec::<u64>::new());
    assert_eq!(parse_version("18446744073709551616.1"), vec![1]);
    assert!(is_newer_version("1.x.3", "1.2"));
}

#[test]
fn version_order_is_asymmetric_and_transitive_on_samples() {
    let vs = ["0.9", "1.0", "1.0.1", "1.1", "2"];
    for a in vs {
        assert!(!is_newer_version(a, a));
        for b in vs {
            assert!(!(is_newer_version(a, b) && is_newer_version(b, a)));
            for c in vs {
                if is_newer_version(a, b) && is_newer_version(b, c) {
                    assert!(is_newer_version(a, c));
                }
            }
        }
    }
}

#[test]
fn latest_tag_is_last_segment_without_v() {
    assert_eq!(latest_tag_from_path("/getsugg/sugg/releases/tag/v0.4.2"), Some("0.4.2".to_string()));
    assert_eq!(latest_tag_from_path("/getsugg/sugg/releases/latest"), None);
    assert_eq!(latest_tag_from_path("/x/"), None);
    assert_eq!(latest_tag_from_path("v1"), Some("1".to_string()));
}

#[test]
fn upgrade_needed_only_for_newer_release() {
    assert!(needs_upgrade("0.5.0", "0.4.9"));
    assert!(!needs_upgrade("0.4.9", "0.4.9"));
}

#[test]
fn release_assets_per_platform() {
    assert_eq!(release_asset(Platform::Windows), ("sugg-x86_64-pc-windows-msvc.zip", true));
    assert_eq!(release_asset(Platform::MacArm), ("sugg-aarch64-apple-darwin.tar.gz", false));
    assert_eq!(release_asset(Platform::MacIntel), ("sugg-x86_64-apple-darwin.tar.gz", false));
    assert_eq!(release_asset(Platform::Linux), ("sugg-x86_64-unknown-linux-musl.tar.gz", false));
    assert_eq!(
        asset_url(Platform::Linux),
        "https://github.com/getsugg/sugg/releases/latest/download/sugg-x86_64-unknown-linux-musl.tar.gz"
    );
    assert_eq!(binary_names(true), ("sugg.exe", "sugg-engine.exe"));
    assert_eq!(binary_names(false), ("sugg", "sugg-engine"));
}

#[test]
fn content_length_defaults_to_zero() {
    assert_eq!(content_length(Some("1234")), 1234);
    assert_eq!(content_length(Some("12a")), 0);
    assert_eq!(content_length(None), 0);
}
