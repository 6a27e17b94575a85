//! The build configuration: a project name, a cache directory and the tasks,
//! each under a name that no other task has.
use crate::text::str_equal;
use vstd::prelude::*;

verus! {

/// One task: the shell command, the input and output paths, the names of
/// the tasks it depends on and an optional description.
#[derive(Debug)]
pub struct TaskConfig {
    pub command: String,
    pub inputs: Vec<String>,
    pub outputs: Vec<String>,
    pub deps: Vec<String>,
    pub description: Option<String>,
}

impl View for TaskConfig {
    /// The command, the inputs, the outputs, the dependencies and the
    /// description, each list by its elements.
    type V = (String, Seq<String>, Seq<String>, Seq<String>, Option<String>);

    open spec fn view(&self) -> Self::V {
        (self.command, self.inputs@, self.outputs@, self.deps@, self.description)
    }
}

impl Clone for TaskConfig {
    /// A task with the same command, inputs, outputs, dependencies and
    /// description.
    fn clone(&self) -> (t: TaskConfig)
        ensures
            t@ == self@,
    {
        let description = match &self.description {
            Some(d) => Some(d.clone()),
            None => None,
        };
        let inputs = self.inputs.clone();
        let outputs = self.outputs.clone();
        let deps = self.deps.clone();
        assert(inputs@ =~= self.inputs@);
        assert(outputs@ =~= self.outputs@);
        assert(deps@ =~= self.deps@);
        TaskConfig { command: self.command.clone(), inputs, outputs, deps, description }
    }
}

impl TaskConfig {
    /// The names of the dependencies, in declaration order.
    pub open spec fn dep_names(&self) -> Seq<Seq<char>> {
        self.deps@.map_values(|d: String| d@)
    }
}

/// Tasks by name. A name occurs at most once; entries keep the order in
/// which their names were first inserted.
#[derive(Debug)]
pub struct TaskMap {
    entries: Vec<(String, TaskConfig)>,
}

/// No element occurs twice.
pub open spec fn distinct_names(names: Seq<Seq<char>>) -> bool {
    forall|i: int, j: int|
        0 <= i < names.len() && 0 <= j < names.len() && i != j ==> #[trigger] names[i]
            != #[trigger] names[j]
}

impl TaskMap {
    /// The task names, in entry order.
    pub closed spec fn names(&self) -> Seq<Seq<char>> {
        self.entries@.map_values(|e: (String, TaskConfig)| e.0@)
    }

    /// The tasks, in entry order (aligned with `names`).
    pub closed spec fn tasks(&self) -> Seq<TaskConfig> {
        self.entries@.map_values(|e: (String, TaskConfig)| e.1)
    }

    #[verifier::type_invariant]
    closed spec fn names_are_distinct(&self) -> bool {
        distinct_names(self.names())
    }

    /// There is one task for each name.
    pub proof fn lemma_lengths(&self)
        ensures
            self.names().len() == self.tasks().len(),
    {
    }

    /// An empty map.
    pub fn new() -> (m: TaskMap)
        ensures
            m.names() == Seq::<Seq<char>>::empty(),
            m.tasks() == Seq::<TaskConfig>::empty(),
    {
        let m = TaskMap { entries: Vec::new() };
        assert(m.names() =~= Seq::<Seq<char>>::empty());
        assert(m.tasks() =~= Seq::<TaskConfig>::empty());
        m
    }

    /// The number of tasks.
    pub fn len(&self) -> (n: usize)
        ensures
            n == self.names().len(),
            n == self.tasks().len(),
    {
        self.entries.len()
    }

    /// Whether there are no tasks.
    pub fn is_empty(&self) -> (b: bool)
        ensures
            b == (self.names().len() == 0),
    {
        self.entries.len() == 0
    }

    /// The name of the `i`-th task.
    pub fn name_at(&self, i: usize) -> (s: &String)
        requires
            i < self.names().len(),
        ensures
            s@ == self.names()[i as int],
    {
        &self.entries[i].0
    }

    /// The `i`-th task.
    pub fn task_at(&self, i: usize) -> (t: &TaskConfig)
        requires
            i < self.tasks().len(),
        ensures
            *t == self.tasks()[i as int],
    {
        &self.entries[i].1
    }

    /// The names are pairwise distinct.
    pub fn names_distinct(&self)
        ensures
            distinct_names(self.names()),
    {
        proof {
            use_type_invariant(self);
        }
    }

    /// The position of the task called `name`, if there is one.
    pub fn position(&self, name: &str) -> (r: Option<usize>)
        ensures
            match r {
                Some(i) => i < self.names().len() && self.names()[i as int] == name@,
                None => !self.names().contains(name@),
            },
    {
        let mut i: usize = 0;
        while i < self.entries.len()
            invariant
                0 <= i <= self.entries@.len(),
                forall|j: int| 0 <= j < i ==> self.names()[j] != name@,
            decreases self.entries.len() - i,
        {
            if str_equal(self.entries[i].0.as_str(), name) {
                return Some(i);
            }
            i = i + 1;
        }
        proof {
            if self.names().contains(name@) {
                let j = choose|j: int| 0 <= j < self.names().len() && self.names()[j] == name@;
            }
        }
        None
    }

    fn position_in(&self, entries: &Vec<(String, TaskConfig)>, name: &str) -> (r: Option<usize>)
        ensures
            match r {
                Some(i) => i < entries@.len() && entries@[i as int].0@ == name@,
                None => forall|j: int| 0 <= j < entries@.len() ==> entries@[j].0@ != name@,
            },
    {
        let mut i: usize = 0;
        while i < entries.len()
            invariant
                0 <= i <= entries@.len(),
                forall|j: int| 0 <= j < i ==> entries@[j].0@ != name@,
            decreases entries.len() - i,
        {
            if str_equal(entries[i].0.as_str(), name) {
                return Some(i);
            }
            i = i + 1;
        }
        None
    }

    /// Whether a task is called `name`.
    pub fn contains_key(&self, name: &str) -> (b: bool)
        ensures
            b == self.names().contains(name@),
    {
        self.position(name).is_some()
    }

    /// The task called `name`, if there is one.
    pub fn get(&self, name: &str) -> (r: Option<&TaskConfig>)
        ensures
            match r {
                Some(t) => exists|i: int|
                    0 <= i < self.names().len() && self.names()[i] == name@ && *t
                        == self.tasks()[i],
                None => !self.names().contains(name@),
            },
    {
        match self.position(name) {
            Some(i) => Some(&self.entries[i].1),
            None => None,
        }
    }

    /// Sets the task called `name`: replaces it in place when the name is
    /// taken, and returns the task it replaced; appends it otherwise.
    pub fn insert(&mut self, name: String, task: TaskConfig) -> (r: Option<TaskConfig>)
        ensures
            match r {
                Some(prev) => exists|i: int|
                    0 <= i < old(self).names().len() && old(self).names()[i] == name@ && prev
                        == old(self).tasks()[i] && final(self).names() == old(self).names()
                        && final(self).tasks() == old(self).tasks().update(i, task),
                None => !old(self).names().contains(name@) && final(self).names() == old(
                    self,
                ).names().push(name@) && final(self).tasks() == old(self).tasks().push(task),
            },
    {
        proof {
            use_type_invariant(&*self);
        }
        let mut entries: Vec<(String, TaskConfig)> = Vec::new();
        std::mem::swap(&mut entries, &mut self.entries);
        let ghost names0 = entries@.map_values(|e: (String, TaskConfig)| e.0@);
        let ghost tasks0 = entries@.map_values(|e: (String, TaskConfig)| e.1);
        assert(names0 == old(self).names());
        assert(tasks0 == old(self).tasks());
        let found = self.position_in(&entries, name.as_str());
        match found {
            Some(i) => {
                let (_, prev) = entries.remove(i);
                entries.insert(i, (name, task));
                assert(entries@.map_values(|e: (String, TaskConfig)| e.0@) =~= names0);
                assert(entries@.map_values(|e: (String, TaskConfig)| e.1) =~= tasks0.update(
                    i as int,
                    task,
                ));
                self.entries = entries;
                assert(old(self).names()[i as int] == name@ && prev == old(self).tasks()[i as int]);
                Some(prev)
            },
            None => {
                proof {
                    assert forall|a: int, b: int|
                        0 <= a < names0.len() + 1 && 0 <= b < names0.len() + 1 && a != b implies
                        #[trigger] names0.push(name@)[a] != #[trigger] names0.push(name@)[b] by {
                        if a == names0.len() {
                            assert(names0[b] != name@);
                        } else if b == names0.len() {
                            assert(names0[a] != name@);
                        }
                    }
                }
                entries.push((name, task));
                assert(entries@.map_values(|e: (String, TaskConfig)| e.0@) =~= names0.push(name@));
                assert(entries@.map_values(|e: (String, TaskConfig)| e.1) =~= tasks0.push(task));
                self.entries = entries;
                None
            },
        }
    }
}

impl Clone for TaskMap {
    /// A map with the same names in the same order, each with a clone of
    /// its task.
    fn clone(&self) -> (m: TaskMap)
        ensures
            m.names() == self.names(),
            m.tasks().len() == self.tasks().len(),
            forall|i: int| 0 <= i < self.tasks().len() ==> (#[trigger] m.tasks()[i])@ == self.tasks()[i]@,
    {
        let mut m = TaskMap::new();
        let n = self.len();
        let mut i: usize = 0;
        self.names_distinct();
        while i < n
            invariant
                n == self.names().len(),
                0 <= i <= n,
                distinct_names(self.names()),
                m.names() == self.names().take(i as int),
                m.tasks().len() == i,
                forall|k: int| 0 <= k < i ==> (#[trigger] m.tasks()[k])@ == self.tasks()[k]@,
            decreases n - i,
        {
            let name = self.name_at(i).clone();
            let task = self.task_at(i).clone();
            proof {
                if m.names().contains(name@) {
                    let k = choose|k: int| 0 <= k < m.names().len() && m.names()[k] == name@;
                    assert(self.names()[k] == self.names()[i as int]);
                }
            }
            m.insert(name, task);
            assert(m.names() =~= self.names().take(i + 1));
            assert(m.tasks()[i as int]@ == self.tasks()[i as int]@);
            i = i + 1;
        }
        assert(self.names().take(n as int) =~= self.names());
        m
    }
}

/// The build configuration.
#[derive(Debug, Clone)]
pub struct BuildConfig {
    pub project: String,
    pub cache_dir: String,
    pub tasks: TaskMap,
}

/// The cache directory used when the configuration names none.
pub fn default_cache_dir() -> (dir: String)
    ensures
        dir@ == ".buildsmith/cache"@,
{
    String::from_str(".buildsmith/cache")
}

} // verus!
