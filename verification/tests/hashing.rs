use buildsmith::engine::hashing::{hash_command, hash_content, hash_file_list, hash_task};
use buildsmith::engine::runner::palette_index;

#[test]
fn content_hash_is_sha256_hex() {
    assert_eq!(
        hash_content(b"hello"),
        "2cf24dba5fb0a30e26e83b2ac5b9e29e1b161e5c1fa7425e73043362938b9824"
    );
    assert_eq!(
        hash_content(b""),
        "e3b0c44298fc1c149afbf4c8996fb92427ae41e4649b934ca495991b7852b855"
    );
}

#[test]
fn command_hash() {
    assert_eq!(
        hash_command("echo build"),
        "886dd02bd7404385dbe698309a8c641f58a046049b82ada2e07230c346ee3111"
    );
}

#[test]
fn file_list_hash_marks_missing_files() {
    let entries = vec![
        ("a.txt".to_string(), Some("h1".to_string())),
        ("b.txt".to_string(), None),
    ];
    assert_eq!(
        hash_file_list(&entries),
        "5846af76218aba63aa1a03e12a925243cc8977d2f423b5fd20ea5cc7956439df"
    );
    assert_eq!(
        hash_file_list(&[]),
        "e3b0c44298fc1c149afbf4c8996fb92427ae41e4649b934ca495991b7852b855"
    );
}

#[test]
fn task_hash_sorts_dependencies() {
    let deps = vec![
        ("build".to_string(), "h1".to_string()),
        ("a".to_string(), "h2".to_string()),
    ];
    let expected = "d8da17db91eec4dee7f3d8e877d86a5f3a16f5f5b3492df58173c611bb9f127f";
    assert_eq!(hash_task("echo test", "inputhash", &deps), expected);
    let reversed: Vec<(String, String)> = deps.iter().rev().cloned().collect();
    assert_eq!(hash_task("echo test", "inputhash", &reversed), expected);
}

#[test]
fn task_hash_without_dependencies() {
    assert_eq!(
        hash_task("echo build", "ih", &[]),
        "33912a5414c20a82b01c2865fc12bf148ed19882faa1d5ff093e614268773389"
    );
}

#[test]
fn task_hash_depends_on_each_part() {
    let base = hash_task("echo build", "ih", &[]);
    assert_ne!(hash_task("echo build2", "ih", &[]), base);
    assert_ne!(hash_task("echo build", "ih2", &[]), base);
    assert_ne!(hash_task("echo build", "ih", &[("d".to_string(), "x".to_string())]), base);
}

#[test]
fn palette_index_of_names() {
    assert_eq!(palette_index("build"), 6);
    assert_eq!(palette_index("test"), 10);
    assert_eq!(palette_index("a"), 1);
    assert_eq!(palette_index(""), 0);
    assert_eq!(palette_index("check"), 0);
    assert_eq!(palette_index("ci"), 6);
}

#[test]
fn hashes_are_64_lower_hex_digits() {
    for h in [hash_content(b"x"), hash_command("c"), hash_file_list(&[]), hash_task("c", "i", &[])] {
        assert_eq!(h.len(), 64);
        assert!(h.chars().all(|c| c.is_ascii_digit() || ('a'..='f').contains(&c)));
    }
}
