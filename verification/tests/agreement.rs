use buildsmith::config::{BuildConfig, TaskConfig, TaskMap};
use buildsmith::dag::{BuildGraph, Schedule};
use buildsmith::engine::hashing::hash_task;
use buildsmith::engine::inspect::chain_hashes;
use buildsmith::engine::runner::TaskResult;
use buildsmith::engine::scheduler::{Action, Scheduler};

fn config_of(tasks: &[(&str, &[&str])]) -> BuildConfig {
    let mut task_map = TaskMap::new();
    for (name, deps) in tasks {
        task_map.insert(
            name.to_string(),
            TaskConfig {
                command: format!("echo {}", name),
                inputs: vec![],
                outputs: vec![],
                deps: deps.iter().map(|d| d.to_string()).collect(),
                description: None,
            },
        );
    }
    BuildConfig { project: "p".to_string(), cache_dir: ".buildsmith/cache".to_string(), tasks: task_map }
}

fn input_of(name: &str) -> String {
    format!("inputs of {}", name)
}

#[test]
fn build_hashes_are_status_hashes() {
    let config = config_of(&[
        ("ci", &["fmt", "build", "test"]),
        ("test", &["build"]),
        ("build", &["check"]),
        ("check", &[]),
        ("fmt", &[]),
    ]);
    let graph = BuildGraph::from_config(&config).unwrap();
    let schedule = Schedule::from_graph(&graph);
    let order: Vec<String> = schedule.levels.iter().flatten().cloned().collect();
    let inputs: Vec<String> = order.iter().map(|n| input_of(n)).collect();
    let expected = chain_hashes(&config, &order, &inputs);

    let mut s = Scheduler::new(&schedule, &config, false);
    let mut queue = Vec::new();
    loop {
        match s.step() {
            Action::Finish => break,
            Action::Start(list) => {
                for i in list {
                    let name = s.task_name(i).clone();
                    let task = config.tasks.get(&name).unwrap();
                    let hash = hash_task(&task.command, &input_of(&name), &s.dep_hashes(i));
                    queue.push((i, name, hash));
                }
            }
        }
        let (i, name, hash) = queue.remove(0);
        s.complete(
            i,
            TaskResult {
                name,
                success: true,
                cached: false,
                dry_run: false,
                hash,
                stdout: String::new(),
                stderr: String::new(),
                duration_ms: 0,
                start_ms: 0,
                end_ms: 0,
            },
        );
    }
    let results = s.collect_results();
    let got: Vec<String> = results.iter().map(|r| r.hash.clone()).collect();
    assert_eq!(got, expected);
    assert_eq!(results.len(), 5);
}
