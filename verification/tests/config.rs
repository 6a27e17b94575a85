use buildsmith::config::{default_cache_dir, validate_config, BuildConfig, ConfigError, TaskConfig, TaskMap};

fn task(command: &str, deps: &[&str]) -> TaskConfig {
    TaskConfig {
        command: command.to_string(),
        inputs: vec![],
        outputs: vec![],
        deps: deps.iter().map(|d| d.to_string()).collect(),
        description: None,
    }
}

fn config(tasks: Vec<(&str, TaskConfig)>) -> BuildConfig {
    let mut map = TaskMap::new();
    for (name, t) in tasks {
        map.insert(name.to_string(), t);
    }
    BuildConfig { project: "testproj".to_string(), cache_dir: default_cache_dir(), tasks: map }
}

#[test]
fn valid_config_passes() {
    let c = config(vec![("build", task("echo build", &[])), ("test", task("echo test", &["build"]))]);
    assert!(validate_config(&c).is_ok());
    assert_eq!(c.tasks.len(), 2);
    assert!(c.tasks.contains_key("build"));
    assert!(c.tasks.contains_key("test"));
}

#[test]
fn unknown_dependency_is_named() {
    let c = config(vec![("test", task("echo test", &["nonexistent"]))]);
    let err = validate_config(&c).unwrap_err();
    match &err {
        ConfigError::UnknownDependency { task, dep } => {
            assert_eq!(task, "test");
            assert_eq!(dep, "nonexistent");
        }
    }
    let msg = err.message();
    assert!(msg.contains("nonexistent"));
    assert_eq!(msg, "Task 'test' depends on unknown task 'nonexistent'");
}

#[test]
fn first_unknown_dependency_in_map_order() {
    let c = config(vec![
        ("a", task("x", &["b", "zz"])),
        ("b", task("y", &["yy"])),
    ]);
    match validate_config(&c).unwrap_err() {
        ConfigError::UnknownDependency { task, dep } => {
            assert_eq!(task, "a");
            assert_eq!(dep, "zz");
        }
    }
}

#[test]
fn empty_config_is_valid() {
    let c = BuildConfig { project: String::new(), cache_dir: default_cache_dir(), tasks: TaskMap::new() };
    assert!(validate_config(&c).is_ok());
    assert_eq!(c.project, "");
    assert!(c.tasks.is_empty());
}

#[test]
fn default_cache_dir_value() {
    assert_eq!(default_cache_dir(), ".buildsmith/cache");
}

#[test]
fn task_map_insert_replaces_in_place() {
    let mut m = TaskMap::new();
    assert!(m.insert("a".to_string(), task("1", &[])).is_none());
    assert!(m.insert("b".to_string(), task("2", &[])).is_none());
    let old = m.insert("a".to_string(), task("3", &[])).unwrap();
    assert_eq!(old.command, "1");
    assert_eq!(m.len(), 2);
    assert_eq!(m.name_at(0), "a");
    assert_eq!(m.get("a").unwrap().command, "3");
    assert_eq!(m.position("b"), Some(1));
    assert!(m.get("c").is_none());
    let copy = m.clone();
    assert_eq!(copy.len(), 2);
    assert_eq!(copy.name_at(1), "b");
}

#[test]
fn task_map_clone_keeps_every_task() {
    let mut m = TaskMap::new();
    let mut a = task("make a", &["b"]);
    a.inputs = vec!["src".to_string(), "Cargo.toml".to_string()];
    a.outputs = vec!["out/a".to_string()];
    a.description = Some("builds a".to_string());
    m.insert("a".to_string(), a);
    m.insert("b".to_string(), task("make b", &[]));
    let copy = m.clone();
    assert_eq!(copy.len(), 2);
    let ca = copy.get("a").unwrap();
    assert_eq!(ca.command, "make a");
    assert_eq!(ca.inputs, vec!["src".to_string(), "Cargo.toml".to_string()]);
    assert_eq!(ca.outputs, vec!["out/a".to_string()]);
    assert_eq!(ca.deps, vec!["b".to_string()]);
    assert_eq!(ca.description.as_deref(), Some("builds a"));
    let cb = copy.get("b").unwrap();
    assert_eq!(cb.command, "make b");
    assert!(cb.deps.is_empty());
    assert!(cb.description.is_none());
}
