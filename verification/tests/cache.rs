use prose::cache::{is_entry_file, Cache, CacheFile, CacheKey, CleanReport, CACHE_FORMAT_VERSION, PROSE_VERSION};

const CONFIG_A: &str = "code-line-length = 88\n";
const CONFIG_B: &str = "code-line-length = 100\n";

fn file(name: &str, bytes: u64, mtime: Option<u128>) -> CacheFile {
    CacheFile { name: name.to_string(), bytes, mtime }
}

#[test]
fn cache_cache_key_differs_when_cache_format_version_changes() {
    let a = CacheKey::compute_with_versions(b"x = 1\n", CONFIG_A, "0.1.0", "1");
    let b = CacheKey::compute_with_versions(b"x = 1\n", CONFIG_A, "0.1.0", "2");
    assert_ne!(a, b);
}

#[test]
fn cache_cache_key_differs_when_config_changes() {
    let a = CacheKey::compute(b"x = 1\n", CONFIG_A);
    let b = CacheKey::compute(b"x = 1\n", CONFIG_B);
    assert_ne!(a, b);
    assert_eq!(b, CacheKey::compute(b"x = 1\n", CONFIG_B));
}

#[test]
fn cache_cache_key_differs_when_source_changes() {
    assert_ne!(CacheKey::compute(b"x = 1\n", CONFIG_A), CacheKey::compute(b"x = 2\n", CONFIG_A));
}

#[test]
fn cache_key_digests_the_concatenated_parts() {
    let key = CacheKey::compute_with_versions(b"ab", "c", "d", CACHE_FORMAT_VERSION);
    assert_eq!(key.0, *blake3::hash(b"abcd1").as_bytes());
}

#[test]
fn cache_cache_key_hex_renders_64_lowercase_chars() {
    let key = CacheKey::compute(b"x = 1\n", CONFIG_A);
    let hex = key.to_hex();
    assert_eq!(hex.len(), 64);
    assert!(hex.chars().all(|c| c.is_ascii_hexdigit() && !c.is_ascii_uppercase()));
    assert_eq!(hex, blake3::Hash::from(key.0).to_hex().as_str());
    assert_eq!(CacheKey([0xab; 32]).to_hex(), "ab".repeat(32));
}

#[test]
fn entry_files_carry_no_extension() {
    assert!(is_entry_file("0123abcd"));
    assert!(is_entry_file(".hidden"));
    assert!(!is_entry_file("orphan.123.tmp"));
    assert!(!is_entry_file("x."));
}

#[test]
fn with_max_size_mib_sets_the_cap() {
    let cache = Cache::with_root("/tmp/cache".to_string());
    assert_eq!(cache.max_size_bytes, u64::MAX);
    let cache = cache.with_max_size_mib(2);
    assert_eq!(cache.max_size_bytes, 2 * 1024 * 1024);
    assert_eq!(cache.root, "/tmp/cache");
}

#[test]
fn info_counts_entries_and_skips_sidecars() {
    let cache = Cache::with_root("/c".to_string());
    let files = [file("aa", 10, Some(5)), file("orphan.123.tmp", 99, Some(1)), file("bb", 7, Some(9)), file("cc", 1, None)];
    let info = cache.info(&files);
    assert_eq!(info.entries, 3);
    assert_eq!(info.bytes, 18);
    assert_eq!(info.oldest_mtime, Some(5));
    assert_eq!(info.newest_mtime, Some(9));
    assert_eq!(info.path, "/c");
    let empty = cache.info(&[]);
    assert_eq!((empty.entries, empty.bytes, empty.oldest_mtime, empty.newest_mtime), (0, 0, None, None));
}

#[test]
fn compact_evicts_oldest_until_under_cap() {
    let cache = Cache::with_root("/c".to_string());
    let cache = Cache { max_size_bytes: 10, ..cache };
    let files = [file("new", 8, Some(30)), file("old", 8, Some(10)), file("mid", 8, Some(20)), file("x.tmp", 100, Some(0))];
    let mut plan = cache.compact_plan(&files);
    assert_eq!(plan.order, vec![1, 2, 0]);
    assert_eq!(plan.total, 24);
    assert_eq!(plan.next(), Some(1));
    plan.removed();
    assert_eq!(plan.next(), Some(2));
    plan.removed();
    assert_eq!(plan.next(), None);
    assert_eq!(plan.report, CleanReport { bytes: 16, entries: 2 });
}

#[test]
fn cache_compact_returns_zeros_when_under_cap() {
    let cache = Cache::with_root("/c".to_string()).with_max_size_mib(100);
    let mut plan = cache.compact_plan(&[file("a", 10, Some(1))]);
    assert_eq!(plan.next(), None);
    assert_eq!(plan.report, CleanReport::default());
}

#[test]
fn compact_skips_a_failed_removal() {
    let cache = Cache { max_size_bytes: 0, ..Cache::with_root("/c".to_string()) };
    let mut plan = cache.compact_plan(&[file("a", 5, Some(1)), file("b", 5, Some(2))]);
    assert_eq!(plan.next(), Some(0));
    assert_eq!(plan.next(), Some(1));
    plan.removed();
    assert_eq!(plan.report, CleanReport { bytes: 5, entries: 1 });
    assert_eq!(plan.total, 5);
    assert_eq!(plan.next(), None);
}

#[test]
fn cache_cache_key_differs_when_prose_version_changes() {
    let a = CacheKey::compute_with_versions(b"x = 1\n", CONFIG_A, "0.2.3", CACHE_FORMAT_VERSION);
    let b = CacheKey::compute_with_versions(b"x = 1\n", CONFIG_A, "0.3.0", CACHE_FORMAT_VERSION);
    assert_ne!(a, b);
}

#[test]
fn cache_cache_key_is_stable_across_runs() {
    assert_eq!(CacheKey::compute(b"x = 1\n", CONFIG_A), CacheKey::compute(b"x = 1\n", CONFIG_A));
}

#[test]
fn mod_cache_key_differs_when_cache_format_version_changes() {
    let a = CacheKey::compute_with_versions(b"x = 1\n", CONFIG_A, PROSE_VERSION, "1");
    let b = CacheKey::compute_with_versions(b"x = 1\n", CONFIG_A, PROSE_VERSION, "2");
    assert_ne!(a, b);
}

#[test]
fn mod_cache_key_differs_when_config_changes() {
    let a = CacheKey::compute(b"x = 1\n", CONFIG_A);
    let b = CacheKey::compute(b"x = 1\n", CONFIG_B);
    assert_ne!(a, b);
    assert_eq!(b, CacheKey::compute(b"x = 1\n", CONFIG_B));
}

#[test]
fn mod_cache_key_differs_when_prose_version_changes() {
    let a = CacheKey::compute_with_versions(b"x = 1\n", CONFIG_A, "0.2.3", CACHE_FORMAT_VERSION);
    let b = CacheKey::compute_with_versions(b"x = 1\n", CONFIG_A, "0.3.0", CACHE_FORMAT_VERSION);
    assert_ne!(a, b);
}

#[test]
fn mod_cache_key_differs_when_source_changes() {
    assert_ne!(CacheKey::compute(b"x = 1\n", CONFIG_A), CacheKey::compute(b"x = 2\n", CONFIG_A));
}

#[test]
fn mod_cache_key_hex_renders_64_lowercase_chars() {
    let hex = CacheKey::compute(b"x = 1\n", CONFIG_A).to_hex();
    assert_eq!(hex.len(), 64);
    assert!(hex.chars().all(|c| c.is_ascii_hexdigit() && !c.is_ascii_uppercase()));
}

#[test]
fn mod_cache_key_is_stable_across_runs() {
    assert_eq!(CacheKey::compute(b"x = 1\n", CONFIG_A), CacheKey::compute(b"x = 1\n", CONFIG_A));
}

#[test]
fn mod_compact_returns_zeros_when_under_cap() {
    let cache = Cache::with_root("/c".to_string()).with_max_size_mib(100);
    let mut plan = cache.compact_plan(&[file("a", 120, Some(1))]);
    assert_eq!(plan.next(), None);
    assert_eq!(plan.report, CleanReport::default());
}

#[test]
fn cache_info_reports_zeros_on_empty_cache() {
    let info = Cache::with_root("/c".to_string()).info(&[]);
    assert_eq!((info.entries, info.bytes, info.oldest_mtime, info.newest_mtime), (0, 0, None, None));
}

#[test]
fn mod_info_reports_zeros_on_empty_cache() {
    let info = Cache::with_root("/c".to_string()).info(&[]);
    assert_eq!((info.entries, info.bytes, info.oldest_mtime, info.newest_mtime), (0, 0, None, None));
}

#[test]
fn cache_info_skips_tmp_sidecars() {
    let info = Cache::with_root("/c".to_string()).info(&[file("orphan.123.tmp", 9, Some(1))]);
    assert_eq!((info.entries, info.bytes), (0, 0));
}

#[test]
fn mod_info_skips_tmp_sidecars() {
    let info = Cache::with_root("/c".to_string()).info(&[file("orphan.123.tmp", 9, Some(1))]);
    assert_eq!((info.entries, info.bytes), (0, 0));
}

#[test]
fn cache_info_counts_entries_and_byte_total() {
    let info = Cache::with_root("/c".to_string()).info(&[file("k1", 40, Some(3)), file("k2", 41, Some(4))]);
    assert_eq!(info.entries, 2);
    assert!(info.bytes > 0);
    assert!(info.oldest_mtime.is_some());
    assert!(info.newest_mtime.is_some());
}

#[test]
fn mod_info_counts_entries_and_byte_total() {
    let info = Cache::with_root("/c".to_string()).info(&[file("k1", 40, Some(3)), file("k2", 41, Some(4))]);
    assert_eq!(info.entries, 2);
    assert_eq!(info.bytes, 81);
    assert_eq!((info.oldest_mtime, info.newest_mtime), (Some(3), Some(4)));
}

#[test]
fn mod_clean_clears_every_entry_and_returns_report() {
    let mut report = CleanReport::default();
    for f in [file("k1", 40, Some(3)), file("k2", 2, Some(4))] {
        report.add(f.bytes);
    }
    assert_eq!(report, CleanReport { bytes: 42, entries: 2 });
}
