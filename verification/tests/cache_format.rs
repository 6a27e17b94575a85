use buildsmith::cache::{
    entry_prefix, find_task_hash, parse_manifest, prune_tally, record_task_hash, render_manifest, stale_files, FileHash,
};

fn store_task_hash(table: &str, task: &str, hash: &str) -> String {
    record_task_hash(table, task, hash)
}

#[test]
fn test_cache_manifest_roundtrip() {
    let files = vec![
        FileHash { path: "src/main.rs".to_string(), hash: "aaa".to_string() },
        FileHash { path: "src/lib.rs".to_string(), hash: "bbb".to_string() },
    ];
    let content = render_manifest(&files);
    let retrieved = parse_manifest(&content);
    assert_eq!(retrieved.len(), 2);
    assert_eq!(retrieved[0].path, "src/main.rs");
    assert_eq!(retrieved[0].hash, "aaa");
    assert_eq!(retrieved[1].path, "src/lib.rs");
    assert_eq!(retrieved[1].hash, "bbb");
}

#[test]
fn manifest_text_is_one_tab_separated_line_per_file() {
    let files = vec![
        FileHash { path: "src/main.rs".to_string(), hash: "aaa".to_string() },
        FileHash { path: "src/lib.rs".to_string(), hash: "bbb".to_string() },
    ];
    assert_eq!(render_manifest(&files), "src/main.rs\taaa\nsrc/lib.rs\tbbb\n");
    assert_eq!(render_manifest(&[]), "");
}

#[test]
fn manifest_lines_without_tab_are_dropped() {
    let files = parse_manifest("a\th1\nnotab\nb\th\t2\r\n");
    assert_eq!(files.len(), 2);
    assert_eq!(files[0].path, "a");
    assert_eq!(files[0].hash, "h1");
    assert_eq!(files[1].path, "b");
    assert_eq!(files[1].hash, "h\t2");
}

#[test]
fn test_cache_task_hash_roundtrip() {
    let table = store_task_hash("", "build", "hash123");
    let table = store_task_hash(&table, "test", "hash456");
    assert_eq!(find_task_hash(&table, "build").unwrap(), "hash123");
    assert_eq!(find_task_hash(&table, "test").unwrap(), "hash456");
}

#[test]
fn test_cache_task_hash_overwrite() {
    let table = store_task_hash("", "build", "old_hash");
    let table = store_task_hash(&table, "build", "new_hash");
    assert_eq!(find_task_hash(&table, "build").unwrap(), "new_hash");
}

#[test]
fn test_cache_task_hash_missing() {
    assert!(find_task_hash("", "nonexistent").is_none());
    let table = store_task_hash("", "build", "h");
    assert!(find_task_hash(&table, "nonexistent").is_none());
}

#[test]
fn task_hash_table_text() {
    let table = store_task_hash("", "build", "h1");
    assert_eq!(table, "build\th1\n");
    let table = store_task_hash(&table, "test", "h2");
    assert_eq!(table, "build\th1\ntest\th2\n");
    let table = store_task_hash(&table, "build", "h3");
    assert_eq!(table, "test\th2\nbuild\th3\n");
}

#[test]
fn task_hash_lookup_takes_the_first_line() {
    assert_eq!(find_task_hash("a\t1\na\t2\n", "a").unwrap(), "1");
}

#[test]
fn entry_prefix_is_first_two_bytes() {
    assert_eq!(entry_prefix("abcdef1234567890"), "ab");
    assert_eq!(entry_prefix("no"), "no");
    assert_eq!(entry_prefix("ébc"), "é");
}

#[test]
fn pruning_keeps_the_files_of_kept_entries() {
    let files: Vec<String> = [
        "ab/abcdef1234567890",
        "ab/abcdef1234567890.manifest",
        "ab/abcdef1234567890.outputs/dist/app",
        "fe/fedcba0987654321",
        "fe/fedcba0987654321.manifest",
        "task_hashes",
        "ab/abcdef1234567890.outputsx",
    ]
    .iter()
    .map(|s| s.to_string())
    .collect();
    let keep = vec!["abcdef1234567890".to_string()];
    let removed = stale_files(&files, &keep);
    assert_eq!(removed, vec![false, false, false, true, true, false, true]);
    assert_eq!(prune_tally(&[1, 2, 3, 4, 5, 6, 7], &removed), (3, 16));
}

#[test]
fn storing_keeps_crlf_tables_and_is_idempotent() {
    let table = "m\th1\r\nn\tx\r\n";
    let once = record_task_hash(table, "n", "y");
    assert_eq!(once, "m\th1\nn\ty\n");
    assert_eq!(find_task_hash(&once, "m").unwrap(), "h1");
    assert_eq!(record_task_hash(&once, "n", "y"), once);
}

#[test]
fn pruned_and_left_make_up_the_cache() {
    let sizes = [3u64, 5, 7, 11];
    let removed = [true, false, true, false];
    let left: Vec<bool> = removed.iter().map(|b| !b).collect();
    let (r, f) = prune_tally(&sizes, &removed);
    let (l, g) = prune_tally(&sizes, &left);
    assert_eq!((r, f), (2, 10));
    assert_eq!((l, g), (2, 16));
    assert_eq!(r + l, sizes.len());
    assert_eq!(f + g, sizes.iter().sum::<u64>());
}

#[test]
fn recording_for_one_task_keeps_an_unterminated_line_of_another() {
    let content = "a\thash_a\r\nb\thash_b";
    let updated = record_task_hash(content, "c", "hash_c");
    assert_eq!(find_task_hash(&updated, "a").as_deref(), Some("hash_a"));
    assert_eq!(find_task_hash(&updated, "b").as_deref(), Some("hash_b"));
    assert_eq!(find_task_hash(&updated, "c").as_deref(), Some("hash_c"));
}
