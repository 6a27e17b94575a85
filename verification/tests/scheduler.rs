use buildsmith::config::{BuildConfig, TaskConfig, TaskMap};
use buildsmith::dag::{BuildGraph, Schedule};
use buildsmith::engine::runner::{skipped_result, TaskResult};
use buildsmith::engine::scheduler::{Action, Scheduler};

fn config_of(tasks: &[(&str, &[&str])]) -> BuildConfig {
    let mut task_map = TaskMap::new();
    for (name, deps) in tasks {
        task_map.insert(
            name.to_string(),
            TaskConfig {
                command: format!("echo {}", name),
                inputs: vec![],
                outputs: vec![],
                deps: deps.iter().map(|d| d.to_string()).collect(),
                description: None,
            },
        );
    }
    BuildConfig { project: "p".to_string(), cache_dir: ".buildsmith/cache".to_string(), tasks: task_map }
}

fn result(name: &str, success: bool, cached: bool, dry_run: bool) -> TaskResult {
    TaskResult {
        name: name.to_string(),
        success,
        cached,
        dry_run,
        hash: format!("hash-{}", name),
        stdout: String::new(),
        stderr: String::new(),
        duration_ms: 1,
        start_ms: 0,
        end_ms: 1,
    }
}

/// Runs the schedule to the end, finishing tasks in the order they were
/// started; `outcome` gives each task's result. Returns the results and the
/// order in which tasks were started, with the dependency hashes each saw.
fn run(
    config: &BuildConfig,
    schedule: &Schedule,
    keep_going: bool,
    outcome: &dyn Fn(&str) -> TaskResult,
) -> (Vec<TaskResult>, Vec<(String, Vec<(String, String)>)>) {
    let mut s = Scheduler::new(schedule, config, keep_going);
    let mut queue: Vec<usize> = Vec::new();
    let mut started = Vec::new();
    loop {
        match s.step() {
            Action::Finish => break,
            Action::Start(list) => {
                for i in list {
                    started.push((s.task_name(i).clone(), s.dep_hashes(i)));
                    queue.push(i);
                }
            }
        }
        let i = queue.remove(0);
        assert!(s.is_running(i));
        let name = s.task_name(i).clone();
        s.complete(i, outcome(&name));
    }
    (s.collect_results(), started)
}

fn chain() -> (BuildConfig, Schedule) {
    let config = config_of(&[("build", &[]), ("test", &["build"]), ("deploy", &["test"])]);
    let graph = BuildGraph::from_config(&config).unwrap();
    let schedule = Schedule::from_graph(&graph);
    (config, schedule)
}

#[test]
fn chain_runs_in_order() {
    let (config, schedule) = chain();
    let (results, started) = run(&config, &schedule, false, &|n| result(n, true, false, false));
    let names: Vec<&str> = results.iter().map(|r| r.name.as_str()).collect();
    assert_eq!(names, vec!["build", "test", "deploy"]);
    assert_eq!(started[0], ("build".to_string(), vec![]));
    assert_eq!(started[1], ("test".to_string(), vec![("build".to_string(), "hash-build".to_string())]));
    assert_eq!(started[2], ("deploy".to_string(), vec![("test".to_string(), "hash-test".to_string())]));
}

#[test]
fn failure_stops_the_run() {
    let (config, schedule) = chain();
    let (results, started) =
        run(&config, &schedule, false, &|n| result(n, n != "build", false, false));
    assert_eq!(started.len(), 1);
    assert_eq!(results.len(), 2);
    assert_eq!(results[0].name, "build");
    assert!(!results[0].success);
    assert_eq!(results[1].name, "test");
    assert!(!results[1].success);
    assert_eq!(results[1].stderr, "Skipped due to failed dependency: build");
    assert_eq!(results[1].hash, "");
}

#[test]
fn keep_going_runs_independent_tasks() {
    let config = config_of(&[("a", &[]), ("b", &[]), ("c", &["a"]), ("d", &["b"])]);
    let graph = BuildGraph::from_config(&config).unwrap();
    let schedule = Schedule::from_graph(&graph);
    let (results, started) = run(&config, &schedule, true, &|n| result(n, n != "a", false, false));
    let names: Vec<&str> = results.iter().map(|r| r.name.as_str()).collect();
    assert_eq!(names, vec!["a", "b", "c", "d"]);
    assert!(!results[0].success);
    assert!(results[1].success);
    assert_eq!(results[2].stderr, "Skipped due to failed dependency: a");
    assert!(results[3].success);
    let started_names: Vec<&str> = started.iter().map(|s| s.0.as_str()).collect();
    assert_eq!(started_names, vec!["a", "b", "d"]);
}

#[test]
fn without_keep_going_independent_tasks_already_started_finish() {
    let config = config_of(&[("a", &[]), ("b", &[]), ("c", &["b"])]);
    let graph = BuildGraph::from_config(&config).unwrap();
    let schedule = Schedule::from_graph(&graph);
    let (results, started) = run(&config, &schedule, false, &|n| result(n, n != "a", false, false));
    let started_names: Vec<&str> = started.iter().map(|s| s.0.as_str()).collect();
    assert_eq!(started_names, vec!["a", "b"]);
    let names: Vec<&str> = results.iter().map(|r| r.name.as_str()).collect();
    assert_eq!(names, vec!["a", "b"]);
}

#[test]
fn cached_and_dry_results_do_not_fail() {
    let (config, schedule) = chain();
    let (results, _) = run(&config, &schedule, false, &|n| result(n, false, n == "build", n != "build"));
    assert_eq!(results.len(), 3);
}

#[test]
fn task_schedule_runs_only_the_closure() {
    let (config, _) = chain();
    let graph = BuildGraph::from_config(&config).unwrap();
    let schedule = Schedule::for_task(&graph, "test");
    let (results, _) = run(&config, &schedule, false, &|n| result(n, true, false, false));
    let names: Vec<&str> = results.iter().map(|r| r.name.as_str()).collect();
    assert_eq!(names, vec!["build", "test"]);
}

#[test]
fn empty_schedule_finishes_at_once() {
    let config = config_of(&[]);
    let schedule = Schedule { levels: vec![] };
    let mut s = Scheduler::new(&schedule, &config, false);
    assert!(matches!(s.step(), Action::Finish));
    assert!(s.collect_results().is_empty());
}

#[test]
fn repeated_entry_runs_once_and_reports_twice() {
    let config = config_of(&[("a", &[])]);
    let schedule = Schedule { levels: vec![vec!["a".to_string()], vec!["a".to_string()]] };
    let mut s = Scheduler::new(&schedule, &config, false);
    assert_eq!(s.task_count(), 1);
    match s.step() {
        Action::Start(v) => assert_eq!(v, vec![0]),
        Action::Finish => panic!("a must start"),
    }
    s.complete(0, result("a", true, false, false));
    assert!(matches!(s.step(), Action::Finish));
    assert_eq!(s.collect_results().len(), 2);
}

#[test]
fn skipped_result_lists_all_dependencies() {
    let r = skipped_result("deploy", &["build".to_string(), "test".to_string()]);
    assert_eq!(r.name, "deploy");
    assert_eq!(r.stderr, "Skipped due to failed dependency: build, test");
    assert!(!r.success && !r.cached && !r.dry_run);
    assert_eq!(r.duration_ms, 0);
}
