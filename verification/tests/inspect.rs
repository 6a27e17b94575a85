use buildsmith::cache::FileHash;
use buildsmith::config::{BuildConfig, TaskConfig, TaskMap};
use buildsmith::engine::inspect::{chain_hashes, diff_manifest, hash_for, task_statuses, why_report};

fn config_of(tasks: &[(&str, &[&str])]) -> BuildConfig {
    let mut task_map = TaskMap::new();
    for (name, deps) in tasks {
        task_map.insert(
            name.to_string(),
            TaskConfig {
                command: format!("echo {}", name),
                inputs: vec![],
                outputs: vec![],
                deps: deps.iter().map(|d| d.to_string()).collect(),
                description: None,
            },
        );
    }
    BuildConfig { project: "p".to_string(), cache_dir: ".buildsmith/cache".to_string(), tasks: task_map }
}

fn strings(v: &[&str]) -> Vec<String> {
    v.iter().map(|s| s.to_string()).collect()
}

const HB: &str = "ce12eab66f4fcc815b6c1217d9d50667ea4c6dd10015f95bf7a21f90005dcc0c";
const HT: &str = "07b602952a827e06f33d7fff3264a1b39b8b1f5c3e8e7fdae99a03fa7e945f5f";

#[test]
fn hashes_chain_through_dependencies() {
    let config = config_of(&[("build", &[]), ("test", &["build"])]);
    let order = strings(&["build", "test"]);
    let hashes = chain_hashes(&config, &order, &strings(&["ib", "it"]));
    assert_eq!(hashes, strings(&[HB, HT]));
    assert_eq!(hash_for(&order, &hashes, "test"), Some(HT.to_string()));
    assert_eq!(hash_for(&order, &hashes, "other"), None);
}

#[test]
fn dependency_outside_the_order_is_left_out() {
    let config = config_of(&[("build", &[]), ("test", &["build"])]);
    let hashes = chain_hashes(&config, &strings(&["test"]), &strings(&["it"]));
    let alone = buildsmith::engine::hashing::hash_task("echo test", "it", &[]);
    assert_eq!(hashes, vec![alone]);
}

#[test]
fn statuses_follow_the_order() {
    let config = config_of(&[("build", &[]), ("test", &["build"])]);
    let order = strings(&["build", "test"]);
    let statuses = task_statuses(&config, &order, &strings(&[HB, HT]), &[true, false], &[3, 0]);
    assert_eq!(statuses.len(), 2);
    assert_eq!(statuses[0].name, "build");
    assert!(statuses[0].cached);
    assert_eq!(statuses[0].hash, HB);
    assert_eq!(statuses[0].input_count, 3);
    assert!(statuses[0].deps.is_empty());
    assert_eq!(statuses[1].name, "test");
    assert!(!statuses[1].cached);
    assert_eq!(statuses[1].deps, strings(&["build"]));
}

fn fh(path: &str, hash: &str) -> FileHash {
    FileHash { path: path.to_string(), hash: hash.to_string() }
}

#[test]
fn manifest_diff() {
    let manifest = vec![fh("a", "1"), fh("b", "2"), fh("c", "3"), fh("b", "9")];
    let current = vec![
        ("a".to_string(), "1".to_string()),
        ("b".to_string(), "2".to_string()),
        ("d".to_string(), "4".to_string()),
    ];
    let (changed, removed) = diff_manifest(&manifest, &current);
    assert_eq!(changed, strings(&["b", "d"]));
    assert_eq!(removed, strings(&["c"]));
}

#[test]
fn why_of_a_stale_task() {
    let task = TaskConfig {
        command: "echo build".to_string(),
        inputs: vec![],
        outputs: vec![],
        deps: strings(&["check", "fmt"]),
        description: None,
    };
    let manifest = Some(vec![fh("src/a.rs", "1"), fh("src/old.rs", "2")]);
    let current = vec![("src/a.rs".to_string(), "5".to_string())];
    let w = why_report("build", &task, "h", false, &manifest, &current, &[false, true]);
    assert_eq!(w.task, "build");
    assert!(!w.cached);
    assert_eq!(w.hash, "h");
    assert_eq!(w.changed_files, strings(&["src/a.rs"]));
    assert_eq!(w.removed_files, strings(&["src/old.rs"]));
    assert_eq!(w.deps, strings(&["check", "fmt"]));
    assert_eq!(w.dep_stale, strings(&["check"]));
}

#[test]
fn why_of_a_cached_task_lists_no_files() {
    let task = TaskConfig {
        command: "x".to_string(),
        inputs: vec![],
        outputs: vec![],
        deps: vec![],
        description: None,
    };
    let manifest = Some(vec![fh("gone", "1")]);
    let w = why_report("t", &task, "h", true, &manifest, &[], &[]);
    assert!(w.cached);
    assert!(w.changed_files.is_empty());
    assert!(w.removed_files.is_empty());
    let w = why_report("t", &task, "h", false, &None, &[("new".to_string(), "1".to_string())], &[]);
    assert!(w.changed_files.is_empty());
    assert!(w.removed_files.is_empty());
}
