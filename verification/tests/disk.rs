use std::hash::{Hash, Hasher};
use sugg::disk::{dec_string, entry_for, hex_string, value_of_entry, DiskCache};

#[test]
fn numbers_in_hex_and_decimal() {
    assert_eq!(hex_string(0), "0");
    assert_eq!(hex_string(255), "ff");
    assert_eq!(hex_string(u64::MAX), "ffffffffffffffff");
    assert_eq!(hex_string(0x1a2b), "1a2b");
    assert_eq!(dec_string(0), "0");
    assert_eq!(dec_string(1700000060), "1700000060");
    assert_eq!(dec_string(u64::MAX), "18446744073709551615");
}

#[test]
fn entries_read_back_until_they_expire() {
    let text = entry_for("hello", 60, 1_700_000_000);
    assert_eq!(text, "1700000060\nhello");
    assert_eq!(value_of_entry(&text, 1_700_000_000), Some("hello".to_string()));
    assert_eq!(value_of_entry(&text, 1_700_000_059), Some("hello".to_string()));
    assert_eq!(value_of_entry(&text, 1_700_000_060), None);
    assert_eq!(value_of_entry(&text, 1_800_000_000), None);
}

#[test]
fn entries_keep_line_feeds_of_the_value() {
    let text = entry_for("a\nb", 10, 5);
    assert_eq!(value_of_entry(&text, 6), Some("a\nb".to_string()));
}

#[test]
fn malformed_entries_read_as_nothing() {
    assert_eq!(value_of_entry("no line feed", 0), None);
    assert_eq!(value_of_entry("soon\nvalue", 0), None);
    assert_eq!(value_of_entry(" 100 \nvalue", 99), Some("value".to_string()));
    assert_eq!(value_of_entry("\nvalue", 0), None);
}

#[test]
fn cache_files_are_named_by_key_hash() {
    let c = DiskCache::new("/tmp/cmd_cache".to_string());
    let p = c.cache_path("key");
    assert!(p.starts_with("/tmp/cmd_cache/"));
    assert!(p.ends_with(".cache"));
    let stem = &p["/tmp/cmd_cache/".len()..p.len() - ".cache".len()];
    assert!(!stem.is_empty() && stem.chars().all(|c| c.is_ascii_hexdigit() && !c.is_ascii_uppercase()));
    assert_eq!(p, c.cache_path("key"));
    assert_ne!(p, c.cache_path("other key"));
    let mut h = std::collections::hash_map::DefaultHasher::new();
    "key".hash(&mut h);
    assert_eq!(p, format!("/tmp/cmd_cache/{:x}.cache", h.finish()));
}
