use buildsmith::config::{BuildConfig, TaskConfig, TaskMap};
use buildsmith::dag::BuildGraph;
use buildsmith::engine::runner::{plan_task, restores_outputs, stores_entry, TaskPlan, TaskResult, TaskStatus, WhyResult};
use buildsmith::report::{
    description_note, graph_dot_lines, graph_text_lines, list_deps_note, list_order, project_kind,
    result_label, status_counts, status_deps_note, summarize, why_state, ProjectKind, ResultLabel,
    WhyState,
};

fn result(name: &str, success: bool, cached: bool, dry_run: bool) -> TaskResult {
    TaskResult {
        name: name.to_string(),
        success,
        cached,
        dry_run,
        hash: String::new(),
        stdout: String::new(),
        stderr: String::new(),
        duration_ms: 0,
        start_ms: 0,
        end_ms: 0,
    }
}

fn config_of(tasks: &[(&str, &[&str])]) -> BuildConfig {
    let mut task_map = TaskMap::new();
    for (name, deps) in tasks {
        task_map.insert(
            name.to_string(),
            TaskConfig {
                command: format!("echo {}", name),
                inputs: vec![],
                outputs: vec![],
                deps: deps.iter().map(|d| d.to_string()).collect(),
                description: None,
            },
        );
    }
    BuildConfig { project: "p".to_string(), cache_dir: ".buildsmith/cache".to_string(), tasks: task_map }
}

#[test]
fn labels_prefer_dry_then_cache_then_success() {
    assert_eq!(result_label(&result("a", true, true, true)), ResultLabel::Dry);
    assert_eq!(result_label(&result("a", false, true, false)), ResultLabel::Cached);
    assert_eq!(result_label(&result("a", true, false, false)), ResultLabel::Built);
    assert_eq!(result_label(&result("a", false, false, false)), ResultLabel::Failed);
}

#[test]
fn summary_counts() {
    let results = vec![
        result("a", true, false, false),
        result("b", true, true, false),
        result("c", true, false, true),
        result("d", false, false, false),
        result("e", true, false, false),
    ];
    let s = summarize(&results);
    assert_eq!((s.built, s.cached, s.dry, s.failed), (2, 1, 1, 1));
    assert!(!s.all_success);
    let s = summarize(&results[..3]);
    assert!(s.all_success);
}

#[test]
fn plans() {
    assert_eq!(plan_task(false, false, true), TaskPlan::UseCache);
    assert_eq!(plan_task(false, true, true), TaskPlan::UseCache);
    assert_eq!(plan_task(true, false, true), TaskPlan::Execute);
    assert_eq!(plan_task(true, true, true), TaskPlan::DryRun);
    assert_eq!(plan_task(false, true, false), TaskPlan::DryRun);
    assert_eq!(plan_task(false, false, false), TaskPlan::Execute);
    assert!(restores_outputs(TaskPlan::UseCache, false));
    assert!(!restores_outputs(TaskPlan::UseCache, true));
    assert!(!restores_outputs(TaskPlan::Execute, false));
}

#[test]
fn cache_entry_stored_only_after_a_successful_run() {
    assert!(stores_entry(TaskPlan::Execute, true));
    assert!(!stores_entry(TaskPlan::Execute, false));
    assert!(!stores_entry(TaskPlan::UseCache, true));
    assert!(!stores_entry(TaskPlan::DryRun, true));
}

#[test]
fn status_counting() {
    let st = |cached: bool| TaskStatus {
        name: "t".to_string(),
        cached,
        hash: String::new(),
        input_count: 0,
        deps: vec![],
    };
    assert_eq!(status_counts(&[st(true), st(false), st(false)]), (1, 2));
    assert_eq!(status_counts(&[]), (0, 0));
}

#[test]
fn why_states() {
    let w = |cached: bool, changed: usize| WhyResult {
        task: "t".to_string(),
        cached,
        hash: String::new(),
        changed_files: vec!["f".to_string(); changed],
        removed_files: vec![],
        deps: vec![],
        dep_stale: vec![],
    };
    assert_eq!(why_state(&w(true, 0)), WhyState::UpToDate);
    assert_eq!(why_state(&w(true, 1)), WhyState::Stale);
    assert_eq!(why_state(&w(false, 0)), WhyState::NotCached);
}

#[test]
fn notes() {
    assert_eq!(description_note(&Some("Build it".to_string())), " - Build it");
    assert_eq!(description_note(&Some(String::new())), "");
    assert_eq!(description_note(&None), "");
    assert_eq!(list_deps_note(&[]), "");
    assert_eq!(list_deps_note(&["a".to_string(), "b".to_string()]), " (deps: a, b)");
    assert_eq!(status_deps_note(&["a".to_string()]), " <- a");
    assert_eq!(status_deps_note(&[]), "");
}

#[test]
fn graph_as_text() {
    let config = config_of(&[("build", &[]), ("test", &["build"]), ("ci", &["build", "test"])]);
    let graph = BuildGraph::from_config(&config).unwrap();
    let order = vec!["build".to_string(), "test".to_string(), "ci".to_string()];
    assert_eq!(
        graph_text_lines(&graph, &order),
        vec!["1. build <- [(no deps)]", "2. test <- [build]", "3. ci <- [test, build]"]
    );
}

#[test]
fn graph_as_dot() {
    let config = config_of(&[("build", &[]), ("test", &["build"])]);
    let graph = BuildGraph::from_config(&config).unwrap();
    assert_eq!(
        graph_dot_lines(&graph),
        vec!["digraph build {", "  \"build\" -> \"test\";", "}"]
    );
}

#[test]
fn numbering_past_nine() {
    let names: Vec<String> = (0..12).map(|i| format!("t{:02}", i)).collect();
    let pairs: Vec<(&str, &[&str])> = names.iter().map(|n| (n.as_str(), &[][..])).collect();
    let config = config_of(&pairs);
    let graph = BuildGraph::from_config(&config).unwrap();
    let lines = graph_text_lines(&graph, &names);
    assert_eq!(lines[9], "10. t09 <- [(no deps)]");
    assert_eq!(lines[11], "12. t11 <- [(no deps)]");
}

#[test]
fn listing_is_by_lower_case_name() {
    let config = config_of(&[("beta", &[]), ("Alpha", &[]), ("gamma", &[]), ("alpha", &[])]);
    let order = list_order(&config.tasks);
    let names: Vec<&str> = order.iter().map(|&i| config.tasks.name_at(i).as_str()).collect();
    assert_eq!(names, vec!["Alpha", "alpha", "beta", "gamma"]);
}

#[test]
fn project_kinds() {
    assert_eq!(project_kind(true, true), ProjectKind::Cargo);
    assert_eq!(project_kind(false, true), ProjectKind::Node);
    assert_eq!(project_kind(false, false), ProjectKind::Generic);
}

#[test]
fn listing_ignores_case() {
    let config = config_of(&[("Zeta", &[]), ("alpha", &[]), ("Beta", &[])]);
    let order = list_order(&config.tasks);
    let names: Vec<&str> = order.iter().map(|&i| config.tasks.name_at(i).as_str()).collect();
    assert_eq!(names, vec!["alpha", "Beta", "Zeta"]);
}
