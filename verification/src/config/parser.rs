//! Checks on a parsed configuration.
use crate::config::task::{BuildConfig, TaskMap};
use vstd::prelude::*;

verus! {

/// A configuration that cannot be built.
#[derive(Debug, Clone)]
pub enum ConfigError {
    /// `task` lists `dep` among its dependencies, and no task has that name.
    UnknownDependency { task: String, dep: String },
}

impl ConfigError {
    /// The error as the user reads it.
    pub fn message(&self) -> (m: String)
        ensures
            match self {
                ConfigError::UnknownDependency { task, dep } => m@ == "Task '"@ + task@
                    + "' depends on unknown task '"@ + dep@ + "'"@,
            },
    {
        match self {
            ConfigError::UnknownDependency { task, dep } => {
                let mut m = String::from_str("Task '");
                m.append(task.as_str());
                m.append("' depends on unknown task '");
                m.append(dep.as_str());
                m.append("'");
                m
            },
        }
    }
}

/// The `j`-th dependency of the `i`-th task names a task of the map.
pub open spec fn dep_known(tasks: &TaskMap, i: int, j: int) -> bool {
    tasks.names().contains(tasks.tasks()[i].dep_names()[j])
}

/// `(i, j)` is the position of a dependency: task `i`, entry `j` of its list.
pub open spec fn is_dep_position(tasks: &TaskMap, i: int, j: int) -> bool {
    0 <= i < tasks.tasks().len() && 0 <= j < tasks.tasks()[i].dep_names().len()
}

/// Every dependency of every task names a task of the map.
pub open spec fn deps_known(tasks: &TaskMap) -> bool {
    forall|i: int, j: int| is_dep_position(tasks, i, j) ==> #[trigger] dep_known(tasks, i, j)
}

/// Every dependency before position `(i, j)`, in task order and then in
/// list order, names a task of the map.
pub open spec fn deps_known_before(tasks: &TaskMap, i: int, j: int) -> bool {
    forall|a: int, b: int|
        is_dep_position(tasks, a, b) && (a < i || (a == i && b < j)) ==> #[trigger] dep_known(
            tasks,
            a,
            b,
        )
}

/// Checks that every dependency names a task. The error names the first
/// unknown dependency, taking tasks in map order and each task's
/// dependencies in list order.
pub fn validate_config(config: &BuildConfig) -> (r: Result<(), ConfigError>)
    ensures
        r is Ok <==> deps_known(&config.tasks),
        r matches Err(ConfigError::UnknownDependency { task, dep }) ==> exists|i: int, j: int|
            #[trigger] is_dep_position(&config.tasks, i, j) && !dep_known(&config.tasks, i, j)
                && deps_known_before(&config.tasks, i, j) && task@ == config.tasks.names()[i]
                && dep@ == config.tasks.tasks()[i].dep_names()[j],
{
    let tasks = &config.tasks;
    let n = tasks.len();
    let mut i: usize = 0;
    while i < n
        invariant
            *tasks == config.tasks,
            n == tasks.tasks().len(),
            n == tasks.names().len(),
            0 <= i <= n,
            deps_known_before(tasks, i as int, 0),
        decreases n - i,
    {
        let task = tasks.task_at(i);
        let m = task.deps.len();
        let mut j: usize = 0;
        while j < m
            invariant
                *tasks == config.tasks,
                n == tasks.tasks().len(),
                n == tasks.names().len(),
                0 <= i < n,
                *task == tasks.tasks()[i as int],
                m == task.deps@.len(),
                0 <= j <= m,
                deps_known_before(tasks, i as int, j as int),
            decreases m - j,
        {
            let dep = &task.deps[j];
            assert(dep@ == tasks.tasks()[i as int].dep_names()[j as int]);
            if !tasks.contains_key(dep.as_str()) {
                assert(is_dep_position(tasks, i as int, j as int));
                assert(!dep_known(tasks, i as int, j as int));
                return Err(
                    ConfigError::UnknownDependency { task: tasks.name_at(i).clone(), dep: dep.clone() },
                );
            }
            assert(dep_known(tasks, i as int, j as int));
            j = j + 1;
        }
        assert(deps_known_before(tasks, i + 1, 0)) by {
            assert forall|a: int, b: int|
                is_dep_position(tasks, a, b) && (a < i + 1 || (a == i + 1 && b < 0)) implies
                #[trigger] dep_known(tasks, a, b) by {
                if a == i {
                    assert(b < m);
                }
            }
        }
        i = i + 1;
    }
    Ok(())
}

} // verus!
