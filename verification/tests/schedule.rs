use buildsmith::config::{BuildConfig, TaskConfig, TaskMap};
use buildsmith::dag::{BuildGraph, Schedule};

fn config_of(tasks: &[(&str, &[&str])]) -> BuildConfig {
    let mut task_map = TaskMap::new();
    for (name, deps) in tasks {
        task_map.insert(
            name.to_string(),
            TaskConfig {
                command: format!("echo {}", name),
                inputs: vec![],
                outputs: vec![],
                deps: deps.iter().map(|d| d.to_string()).collect(),
                description: None,
            },
        );
    }
    BuildConfig { project: "p".to_string(), cache_dir: ".buildsmith/cache".to_string(), tasks: task_map }
}

fn ci_graph() -> BuildGraph {
    let config = config_of(&[
        ("ci", &["fmt", "clippy", "build", "test"]),
        ("test", &["build"]),
        ("build", &["check"]),
        ("check", &[]),
        ("clippy", &[]),
        ("fmt", &[]),
    ]);
    BuildGraph::from_config(&config).unwrap()
}

#[test]
fn full_schedule_levels() {
    let schedule = Schedule::from_graph(&ci_graph());
    assert_eq!(
        schedule.levels,
        vec![
            vec!["check".to_string(), "clippy".to_string(), "fmt".to_string()],
            vec!["build".to_string()],
            vec!["test".to_string()],
            vec!["ci".to_string()],
        ]
    );
    assert_eq!(schedule.total_tasks(), 6);
}

#[test]
fn task_schedule_holds_the_task_and_its_dependencies() {
    let graph = ci_graph();
    let schedule = Schedule::for_task(&graph, "test");
    assert_eq!(
        schedule.levels,
        vec![vec!["check".to_string()], vec!["build".to_string()], vec!["test".to_string()]]
    );
    assert_eq!(schedule.total_tasks(), 3);
    let full = Schedule::from_graph(&graph);
    for (k, level) in schedule.levels.iter().enumerate() {
        for name in level {
            assert!(full.levels[k].contains(name));
        }
    }
}

#[test]
fn schedule_of_unknown_task_is_empty() {
    let schedule = Schedule::for_task(&ci_graph(), "nope");
    assert!(schedule.levels.is_empty());
    assert_eq!(schedule.total_tasks(), 0);
}

#[test]
fn task_without_dependencies_is_alone() {
    let schedule = Schedule::for_task(&ci_graph(), "fmt");
    assert_eq!(schedule.levels, vec![vec!["fmt".to_string()]]);
}

#[test]
fn empty_graph_has_no_level() {
    let graph = BuildGraph::from_config(&config_of(&[])).unwrap();
    let schedule = Schedule::from_graph(&graph);
    assert!(schedule.levels.is_empty());
}

#[test]
fn level_is_one_more_than_deepest_dependency() {
    let config = config_of(&[("d", &["a", "c"]), ("c", &["b"]), ("b", &["a"]), ("a", &[])]);
    let graph = BuildGraph::from_config(&config).unwrap();
    let schedule = Schedule::from_graph(&graph);
    assert_eq!(
        schedule.levels,
        vec![vec!["a".to_string()], vec!["b".to_string()], vec!["c".to_string()], vec!["d".to_string()]]
    );
}

#[test]
fn task_schedule_ends_with_the_task_alone() {
    let graph = ci_graph();
    for t in ["ci", "test", "build", "check"] {
        let schedule = Schedule::for_task(&graph, t);
        assert_eq!(schedule.levels.last().unwrap(), &vec![t.to_string()]);
        assert!(schedule.levels.iter().all(|l| !l.is_empty()));
    }
    let full = Schedule::from_graph(&graph);
    assert_eq!(full.total_tasks(), graph.task_count());
}
