use buildsmith::config::{BuildConfig, TaskConfig, TaskMap};
use buildsmith::dag::{BuildGraph, GraphError};

fn make_config(tasks: &[(&str, &[&str])]) -> BuildConfig {
    let mut task_map = TaskMap::new();
    for (name, deps) in tasks {
        task_map.insert(
            name.to_string(),
            TaskConfig {
                command: format!("echo {}", name),
                inputs: vec![],
                outputs: vec![],
                deps: deps.iter().map(|d| d.to_string()).collect(),
                description: None,
            },
        );
    }
    BuildConfig {
        project: "test".to_string(),
        cache_dir: ".buildsmith/cache".to_string(),
        tasks: task_map,
    }
}

#[test]
fn test_graph_no_deps() {
    let config = make_config(&[("a", &[]), ("b", &[]), ("c", &[])]);
    let graph = BuildGraph::from_config(&config).unwrap();
    assert_eq!(graph.all_tasks().len(), 3);
    assert!(graph.dependencies("a").is_empty());
}

#[test]
fn test_graph_with_deps() {
    let config = make_config(&[("build", &[]), ("test", &["build"])]);
    let graph = BuildGraph::from_config(&config).unwrap();
    let deps = graph.dependencies("test");
    assert_eq!(deps, vec!["build"]);
}

#[test]
fn test_graph_cycle_detection() {
    let config = make_config(&[("a", &["b"]), ("b", &["a"])]);
    let result = BuildGraph::from_config(&config);
    assert!(result.is_err());
    let msg = result.unwrap_err().message();
    assert!(msg.contains("Circular dependency"));
}

#[test]
fn test_graph_topological_order() {
    let config = make_config(&[("build", &[]), ("test", &["build"]), ("deploy", &["test"])]);
    let graph = BuildGraph::from_config(&config).unwrap();
    let order = graph.topological_order();
    let build_idx = order.iter().position(|t| t == "build").unwrap();
    let test_idx = order.iter().position(|t| t == "test").unwrap();
    let deploy_idx = order.iter().position(|t| t == "deploy").unwrap();
    assert!(build_idx < test_idx);
    assert!(test_idx < deploy_idx);
}

#[test]
fn test_graph_unknown_task_deps() {
    let deps = graph_dependencies_unknown();
    assert!(deps.is_empty());
}

fn graph_dependencies_unknown() -> Vec<String> {
    let config = make_config(&[("a", &[])]);
    let graph = BuildGraph::from_config(&config).unwrap();
    graph.dependencies("nonexistent")
}

#[test]
fn cycle_names_a_task_on_the_cycle() {
    let config = make_config(&[("ok", &[]), ("x", &["y"]), ("y", &["z"]), ("z", &["x"])]);
    match BuildGraph::from_config(&config) {
        Err(GraphError::Cycle { task }) => {
            assert!(task == "x" || task == "y" || task == "z");
            assert_eq!(
                GraphError::Cycle { task: task.clone() }.message(),
                format!("Circular dependency detected involving task '{}'", task)
            );
        }
        Ok(_) => panic!("a cycle must be refused"),
    }
}

#[test]
fn self_dependency_is_a_cycle() {
    let config = make_config(&[("a", &["a"])]);
    assert!(BuildGraph::from_config(&config).is_err());
}

#[test]
fn dependencies_come_last_listed_first() {
    let config = make_config(&[("a", &[]), ("b", &[]), ("c", &["a", "b"])]);
    let graph = BuildGraph::from_config(&config).unwrap();
    assert_eq!(graph.dependencies("c"), vec!["b", "a"]);
    assert_eq!(graph.dependents("a"), vec!["c"]);
    assert!(graph.dependents("c").is_empty());
    assert_eq!(graph.task_count(), 3);
    assert_eq!(graph.all_tasks(), vec!["a", "b", "c"]);
}

#[test]
fn topological_order_puts_each_dependency_first() {
    let config = make_config(&[
        ("ci", &["fmt", "build", "test"]),
        ("test", &["build"]),
        ("build", &["check"]),
        ("check", &[]),
        ("fmt", &[]),
    ]);
    let graph = BuildGraph::from_config(&config).unwrap();
    let order = graph.topological_order();
    assert_eq!(order.len(), 5);
    let pos = |n: &str| order.iter().position(|t| t == n).unwrap();
    assert!(pos("check") < pos("build"));
    assert!(pos("build") < pos("test"));
    assert!(pos("test") < pos("ci"));
    assert!(pos("fmt") < pos("ci"));
}
