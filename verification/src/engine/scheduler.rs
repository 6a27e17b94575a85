//! The decisions of a build run: which tasks to start, which to skip
//! because a dependency failed, when nothing more will start, and the
//! results in schedule order. The caller starts the tasks it is told to,
//! waits for one running task to finish and reports its result.
use crate::config::task::{distinct_names, BuildConfig};
use crate::dag::graph::name_index;
use crate::dag::schedule::{level_views, Schedule};
use crate::engine::hashing::pair_views;
use crate::engine::runner::{counts_as_failure, is_skipped_result, skipped_result, TaskResult};
use crate::text::{ints, str_equal, views};
use vstd::prelude::*;

verus! {

/// Where a task of a run stands.
#[derive(Debug, Clone, Copy, PartialEq, Eq, Structural)]
pub enum Phase {
    /// Neither started nor skipped.
    Waiting,
    /// Started, and not finished.
    Running,
    /// Finished without counting as a failure: built, restored from the
    /// cache, or planned in a dry run.
    Done,
    /// Finished and failed, or skipped because a dependency failed.
    Failed,
}

/// What the caller does next.
#[derive(Debug)]
pub enum Action {
    /// Start these tasks (by index), then wait until one running task
    /// finishes and report it.
    Start(Vec<usize>),
    /// Nothing runs and nothing more will start: collect the results.
    Finish,
}

/// The names of a schedule, level after level.
pub open spec fn flatten(levels: Seq<Seq<Seq<char>>>) -> Seq<Seq<char>>
    decreases levels.len(),
{
    if levels.len() == 0 {
        Seq::empty()
    } else {
        flatten(levels.drop_last()) + levels.last()
    }
}

/// The elements of `s`, each once, in the order of their first occurrence.
pub open spec fn first_occurrences(s: Seq<Seq<char>>) -> Seq<Seq<char>>
    decreases s.len(),
{
    if s.len() == 0 {
        Seq::empty()
    } else {
        let d = first_occurrences(s.drop_last());
        if d.contains(s.last()) {
            d
        } else {
            d.push(s.last())
        }
    }
}

/// The position of `x` among the (distinct) `names`; -1 when it is not
/// one of them.
pub open spec fn slot(names: Seq<Seq<char>>, x: Seq<char>) -> int {
    if names.contains(x) {
        choose|p: int| 0 <= p < names.len() && names[p] == x
    } else {
        -1
    }
}

/// A task that has a result: it finished or was skipped.
pub open spec fn is_completed(p: Phase) -> bool {
    p == Phase::Done || p == Phase::Failed
}

/// Some dependency in `deps` is a task of `names` that has failed in `ph`.
pub open spec fn has_failed_dep(names: Seq<Seq<char>>, deps: Seq<Seq<char>>, ph: Seq<Phase>) -> bool {
    exists|j: int|
        #![trigger deps[j]]
        0 <= j < deps.len() && names.contains(deps[j]) && ph[slot(names, deps[j])] == Phase::Failed
}

/// Every dependency in `deps` is a task of `names` that has completed in
/// `ph`.
pub open spec fn deps_completed(names: Seq<Seq<char>>, deps: Seq<Seq<char>>, ph: Seq<Phase>) -> bool {
    forall|j: int|
        #![trigger deps[j]]
        0 <= j < deps.len() ==> names.contains(deps[j]) && is_completed(ph[slot(names, deps[j])])
}

/// Every dependency in `deps` is a task of `names` that is `Done` in `ph`.
pub open spec fn deps_succeeded(names: Seq<Seq<char>>, deps: Seq<Seq<char>>, ph: Seq<Phase>) -> bool {
    forall|j: int|
        #![trigger deps[j]]
        0 <= j < deps.len() ==> names.contains(deps[j]) && ph[slot(names, deps[j])] == Phase::Done
}

/// Task `i`, with dependencies `deps`, can start: it waits, all its
/// dependencies have completed and none of them failed.
pub open spec fn is_ready(names: Seq<Seq<char>>, deps: Seq<Seq<char>>, ph: Seq<Phase>, i: int) -> bool {
    &&& ph[i] == Phase::Waiting
    &&& deps_completed(names, deps, ph)
    &&& !has_failed_dep(names, deps, ph)
}

/// The phases after skipping every waiting task with a failed dependency
/// (as the phases `ph` show them before any of these skips).
pub open spec fn skip_pass(names: Seq<Seq<char>>, deps: Seq<Seq<Seq<char>>>, ph: Seq<Phase>) -> Seq<
    Phase,
> {
    Seq::new(
        ph.len(),
        |i: int|
            if ph[i] == Phase::Waiting && has_failed_dep(names, deps[i], ph) {
                Phase::Failed
            } else {
                ph[i]
            },
    )
}

/// The phases after starting every ready task, when `go` holds.
pub open spec fn start_pass(
    names: Seq<Seq<char>>,
    deps: Seq<Seq<Seq<char>>>,
    ph: Seq<Phase>,
    go: bool,
) -> Seq<Phase> {
    Seq::new(
        ph.len(),
        |i: int|
            if go && is_ready(names, deps[i], ph, i) {
                Phase::Running
            } else {
                ph[i]
            },
    )
}

/// The hash recorded for the task called `d`: that of its result, once a
/// started task called `d` has finished.
pub open spec fn known_hash(
    names: Seq<Seq<char>>,
    started: Seq<bool>,
    results: Seq<Option<TaskResult>>,
    d: Seq<char>,
) -> Option<Seq<char>> {
    if names.contains(d) && started[slot(names, d)] && results[slot(names, d)] is Some {
        Some(results[slot(names, d)]->0.hash@)
    } else {
        None
    }
}

/// `(name, hash)` for each dependency in `deps` whose hash is recorded, in
/// list order.
pub open spec fn known_dep_hashes(
    names: Seq<Seq<char>>,
    started: Seq<bool>,
    results: Seq<Option<TaskResult>>,
    deps: Seq<Seq<char>>,
) -> Seq<(Seq<char>, Seq<char>)>
    decreases deps.len(),
{
    if deps.len() == 0 {
        Seq::empty()
    } else {
        let rest = known_dep_hashes(names, started, results, deps.drop_last());
        match known_hash(names, started, results, deps.last()) {
            Some(h) => rest.push((deps.last(), h)),
            None => rest,
        }
    }
}

/// The results of the entries of a schedule, in order, leaving out the
/// entries of tasks without a result.
pub open spec fn collected(entries: Seq<int>, results: Seq<Option<TaskResult>>) -> Seq<TaskResult>
    decreases entries.len(),
{
    if entries.len() == 0 {
        Seq::empty()
    } else {
        let rest = collected(entries.drop_last(), results);
        match results[entries.last()] {
            Some(r) => rest.push(r),
            None => rest,
        }
    }
}

/// What is left to do for a task: two for a waiting task (start it, then
/// finish it), one for a running task, none for a completed one.
pub open spec fn cost(p: Phase) -> nat {
    match p {
        Phase::Waiting => 2,
        Phase::Running => 1,
        _ => 0,
    }
}

/// What is left to do for all tasks.
pub open spec fn work_left(ph: Seq<Phase>) -> nat
    decreases ph.len(),
{
    if ph.len() == 0 {
        0
    } else {
        work_left(ph.drop_last()) + cost(ph.last())
    }
}

/// Lowering no task's cost does not raise the work left.
proof fn lemma_work_pointwise(a: Seq<Phase>, b: Seq<Phase>)
    requires
        a.len() == b.len(),
        forall|k: int| 0 <= k < a.len() ==> cost(#[trigger] b[k]) <= cost(a[k]),
    ensures
        work_left(b) <= work_left(a),
    decreases a.len(),
{
    if a.len() > 0 {
        let n = a.len() - 1;
        assert forall|k: int| 0 <= k < n implies cost(#[trigger] b.drop_last()[k]) <= cost(
            a.drop_last()[k],
        ) by {
            assert(b.drop_last()[k] == b[k]);
            assert(a.drop_last()[k] == a[k]);
        }
        lemma_work_pointwise(a.drop_last(), b.drop_last());
        assert(cost(b[n]) <= cost(a[n]));
    }
}

/// Changing one task's phase changes the work left by the change of its
/// cost.
proof fn lemma_work_update(ph: Seq<Phase>, i: int, p: Phase)
    requires
        0 <= i < ph.len(),
    ensures
        work_left(ph.update(i, p)) + cost(ph[i]) == work_left(ph) + cost(p),
    decreases ph.len(),
{
    let u = ph.update(i, p);
    if i < ph.len() - 1 {
        assert(u.drop_last() =~= ph.drop_last().update(i, p));
        lemma_work_update(ph.drop_last(), i, p);
        assert(u.last() == ph.last());
    } else {
        assert(u.drop_last() =~= ph.drop_last());
    }
}

/// The work left is at most two for each task.
proof fn lemma_work_bound(ph: Seq<Phase>)
    ensures
        work_left(ph) <= 2 * ph.len(),
    decreases ph.len(),
{
    if ph.len() > 0 {
        lemma_work_bound(ph.drop_last());
    }
}

/// The state of a build run.
#[derive(Debug)]
pub struct Scheduler {
    names: Vec<String>,
    entries: Vec<usize>,
    deps: Vec<Vec<String>>,
    dep_slots: Vec<Vec<usize>>,
    phases: Vec<Phase>,
    started: Vec<bool>,
    results: Vec<Option<TaskResult>>,
    keep_going: bool,
    abort: bool,
}

impl Scheduler {
    /// The tasks of the run, each once.
    pub closed spec fn task_names(&self) -> Seq<Seq<char>> {
        views(self.names@)
    }

    /// For each entry of the schedule, the index of its task.
    pub closed spec fn entry_slots(&self) -> Seq<int> {
        ints(self.entries@)
    }

    /// The dependencies of each task, as the configuration lists them.
    pub closed spec fn task_deps(&self) -> Seq<Seq<Seq<char>>> {
        self.deps@.map_values(|d: Vec<String>| views(d@))
    }

    /// Where each task stands.
    pub closed spec fn phases(&self) -> Seq<Phase> {
        self.phases@
    }

    /// Which tasks have been started.
    pub closed spec fn started(&self) -> Seq<bool> {
        self.started@
    }

    /// The result of each task, once it has one.
    pub closed spec fn results(&self) -> Seq<Option<TaskResult>> {
        self.results@
    }

    /// Whether the run goes on past a failure.
    pub closed spec fn keeps_going(&self) -> bool {
        self.keep_going
    }

    /// Whether a failure has stopped the run from starting tasks.
    pub closed spec fn aborted(&self) -> bool {
        self.abort
    }

    /// The number of tasks.
    pub open spec fn size(&self) -> int {
        self.task_names().len() as int
    }

    /// The slot of each dependency: the index of its task, or the number
    /// of tasks for a dependency that is not part of the run.
    closed spec fn slots_ok(&self) -> bool {
        let n = self.names@.len();
        &&& self.dep_slots@.len() == n
        &&& forall|i: int|
            #![trigger self.dep_slots@[i]]
            0 <= i < n ==> self.dep_slots@[i]@.len() == self.deps@[i]@.len()
        &&& forall|i: int, j: int|
            #![trigger self.dep_slots@[i]@[j]]
            0 <= i < n && 0 <= j < self.deps@[i]@.len() ==> self.dep_slots@[i]@[j] as int == (
            if self.task_names().contains(self.deps@[i]@[j]@) {
                slot(self.task_names(), self.deps@[i]@[j]@)
            } else {
                n as int
            })
    }

    /// The fixed part of the state: distinct names, entries that point at
    /// tasks, and one dependency list, slot list, phase, start flag and
    /// result place per task.
    pub closed spec fn shape_ok(&self) -> bool {
        let n = self.names@.len();
        &&& distinct_names(self.task_names())
        &&& forall|k: int| 0 <= k < self.entries@.len() ==> self.entries@[k] < n
        &&& self.deps@.len() == n
        &&& self.phases@.len() == n
        &&& self.started@.len() == n
        &&& self.results@.len() == n
        &&& self.slots_ok()
    }

    /// What holds of task `i` in each phase. A waiting task has neither
    /// started nor a result. A task that started has seen all its
    /// dependencies succeed. A failed task that never started was skipped
    /// because a dependency failed.
    pub open spec fn task_ok(&self, i: int) -> bool {
        let names = self.task_names();
        let deps = self.task_deps()[i];
        let ph = self.phases();
        let r = self.results()[i];
        match ph[i] {
            Phase::Waiting => !self.started()[i] && r is None,
            Phase::Running => self.started()[i] && r is None && deps_succeeded(names, deps, ph),
            Phase::Done => self.started()[i] && r is Some && !counts_as_failure(r->0)
                && deps_succeeded(names, deps, ph),
            Phase::Failed => r is Some && if self.started()[i] {
                counts_as_failure(r->0) && deps_succeeded(names, deps, ph)
            } else {
                is_skipped_result(r->0, names[i], deps) && has_failed_dep(names, deps, ph)
            },
        }
    }

    /// A failure of a started task stops the run, unless it keeps going.
    pub open spec fn abort_ok(&self) -> bool {
        self.aborted() == (!self.keeps_going() && exists|i: int|
            0 <= i < self.size() && #[trigger] self.started()[i] && self.results()[i] is Some
                && counts_as_failure(self.results()[i]->0))
    }

    /// The state is consistent.
    pub open spec fn wf(&self) -> bool {
        &&& self.shape_ok()
        &&& forall|i: int| 0 <= i < self.size() ==> #[trigger] self.task_ok(i)
        &&& self.abort_ok()
    }

    /// Consequences of `wf` on the sizes of the parts of the state.
    pub proof fn lemma_shape(&self)
        requires
            self.wf(),
        ensures
            self.phases().len() == self.size(),
            self.started().len() == self.size(),
            self.results().len() == self.size(),
            self.task_deps().len() == self.size(),
            distinct_names(self.task_names()),
            forall|k: int|
                0 <= k < self.entry_slots().len() ==> 0 <= #[trigger] self.entry_slots()[k]
                    < self.size(),
    {
    }

    /// A run of the tasks of `schedule`, each with the dependencies that
    /// `config` lists for it, and nothing started yet. A task that occurs
    /// more than once in the schedule runs once.
    pub fn new(schedule: &Schedule, config: &BuildConfig, keep_going: bool) -> (s: Scheduler)
        requires
            forall|k: int|
                0 <= k < flatten(level_views(schedule.levels@)).len() ==> config.tasks.names().contains(
                    #[trigger] flatten(level_views(schedule.levels@))[k],
                ),
        ensures
            s.wf(),
            s.task_names() == first_occurrences(flatten(level_views(schedule.levels@))),
            s.entry_slots().len() == flatten(level_views(schedule.levels@)).len(),
            forall|k: int|
                0 <= k < s.entry_slots().len() ==> s.task_names()[#[trigger] s.entry_slots()[k]]
                    == flatten(level_views(schedule.levels@))[k],
            forall|i: int|
                0 <= i < s.size() ==> #[trigger] s.task_deps()[i] == config.tasks.tasks()[name_index(
                    config.tasks.names(),
                    s.task_names()[i],
                )].dep_names(),
            forall|i: int| 0 <= i < s.size() ==> #[trigger] s.phases()[i] == Phase::Waiting,
            s.keeps_going() == keep_going,
            !s.aborted(),
    {
        let ghost lv = level_views(schedule.levels@);
        let mut names: Vec<String> = Vec::new();
        let mut entries: Vec<usize> = Vec::new();
        let mut k: usize = 0;
        while k < schedule.levels.len()
            invariant
                lv == level_views(schedule.levels@),
                0 <= k <= lv.len(),
                views(names@) == first_occurrences(flatten(lv.take(k as int))),
                distinct_names(views(names@)),
                entries@.len() == flatten(lv.take(k as int)).len(),
                forall|e: int|
                    0 <= e < entries@.len() ==> #[trigger] entries@[e] < names@.len() && views(names@)[entries@[e] as int]
                        == flatten(lv.take(k as int))[e],
            decreases schedule.levels.len() - k,
        {
            let level = &schedule.levels[k];
            let ghost before = flatten(lv.take(k as int));
            assert(lv[k as int] == views(level@));
            assert(before + views(level@).take(0) =~= before);
            let mut j: usize = 0;
            while j < level.len()
                invariant
                    lv == level_views(schedule.levels@),
                    0 <= k < lv.len(),
                    lv[k as int] == views(level@),
                    0 <= j <= level@.len(),
                    views(names@) == first_occurrences(before + views(level@).take(j as int)),
                    distinct_names(views(names@)),
                    entries@.len() == (before + views(level@).take(j as int)).len(),
                    forall|e: int|
                        0 <= e < entries@.len() ==> #[trigger] entries@[e] < names@.len() && views(names@)[entries@[e] as int]
                            == (before + views(level@).take(j as int))[e],
                decreases level.len() - j,
            {
                let ghost prefix = before + views(level@).take(j as int);
                let ghost x = level@[j as int]@;
                assert(before + views(level@).take(j + 1) =~= prefix.push(x));
                assert(prefix.push(x).drop_last() =~= prefix);
                match find_name(&names, level[j].as_str()) {
                    Some(p) => {
                        entries.push(p);
                        proof {
                            assert(views(names@)[p as int] == x);
                            assert(views(names@).contains(x));
                        }
                    },
                    None => {
                        let ghost old_names = views(names@);
                        entries.push(names.len());
                        names.push(level[j].clone());
                        proof {
                            assert(views(names@) =~= old_names.push(x));
                            assert forall|a: int, b: int|
                                0 <= a < views(names@).len() && 0 <= b < views(names@).len() && a
                                    != b implies #[trigger] views(names@)[a] != #[trigger] views(
                                names@,
                            )[b] by {
                                if a == old_names.len() {
                                    assert(old_names[b] != x);
                                } else if b == old_names.len() {
                                    assert(old_names[a] != x);
                                }
                            }
                        }
                    },
                }
                proof {
                    let now = before + views(level@).take(j + 1);
                    assert(now == prefix.push(x));
                    assert(now[prefix.len() as int] == x);
                    assert(entries@.len() == now.len());
                    assert forall|e: int| 0 <= e < entries@.len() implies #[trigger] entries@[e] < names@.len()
                        && views(names@)[entries@[e] as int] == now[e] by {
                        if e < prefix.len() {
                            assert(now[e] == prefix[e]);
                        } else {
                            assert(e == prefix.len());
                        }
                    }
                }
                j = j + 1;
            }
            proof {
                assert(views(level@).take(j as int) =~= views(level@));
                assert(lv.take(k + 1).drop_last() =~= lv.take(k as int));
                assert(flatten(lv.take(k + 1)) == before + views(level@));
            }
            k = k + 1;
        }
        assert(lv.take(k as int) =~= lv);
        let ghost flat = flatten(lv);
        let n = names.len();
        config.tasks.names_distinct();
        let _ = config.tasks.len();
        let mut deps: Vec<Vec<String>> = Vec::new();
        let mut i: usize = 0;
        while i < n
            invariant
                n == names@.len(),
                0 <= i <= n,
                views(names@) == first_occurrences(flat),
                distinct_names(config.tasks.names()),
                config.tasks.names().len() == config.tasks.tasks().len(),
                forall|a: int| 0 <= a < flat.len() ==> config.tasks.names().contains(#[trigger] flat[a]),
                deps@.len() == i,
                forall|a: int|
                    0 <= a < i ==> views(#[trigger] deps@[a]@) == config.tasks.tasks()[name_index(
                        config.tasks.names(),
                        names@[a]@,
                    )].dep_names(),
            decreases n - i,
        {
            proof {
                lemma_first_occurrences_from(flat, i as int);
            }
            let pos = config.tasks.position(names[i].as_str());
            match pos {
                Some(p) => {
                    let task = config.tasks.task_at(p);
                    let copied = copy_strings(&task.deps);
                    proof {
                        let cn = config.tasks.names();
                        let q = name_index(cn, names@[i as int]@);
                        assert(cn[p as int] == names@[i as int]@);
                        assert(0 <= q < cn.len() && cn[q] == names@[i as int]@);
                        assert(q == p);
                        assert(views(task.deps@) =~= task.dep_names());
                    }
                    deps.push(copied);
                },
                None => {
                    proof {
                        assert(false);
                    }
                },
            }
            i = i + 1;
        }
        let mut dep_slots: Vec<Vec<usize>> = Vec::new();
        let mut phases: Vec<Phase> = Vec::new();
        let mut started: Vec<bool> = Vec::new();
        let mut results: Vec<Option<TaskResult>> = Vec::new();
        let mut i: usize = 0;
        while i < n
            invariant
                n == names@.len(),
                n == deps@.len(),
                0 <= i <= n,
                distinct_names(views(names@)),
                dep_slots@.len() == i,
                phases@.len() == i,
                started@.len() == i,
                results@.len() == i,
                forall|a: int| 0 <= a < i ==> #[trigger] phases@[a] == Phase::Waiting,
                forall|a: int| 0 <= a < i ==> !#[trigger] started@[a],
                forall|a: int| 0 <= a < i ==> #[trigger] results@[a] is None,
                forall|a: int| #![trigger dep_slots@[a]] 0 <= a < i ==> dep_slots@[a]@.len() == deps@[a]@.len(),
                forall|a: int, b: int|
                    #![trigger dep_slots@[a]@[b]]
                    0 <= a < i && 0 <= b < deps@[a]@.len() ==> dep_slots@[a]@[b] as int == (
                    if views(names@).contains(deps@[a]@[b]@) {
                        slot(views(names@), deps@[a]@[b]@)
                    } else {
                        n as int
                    }),
            decreases n - i,
        {
            let row = slots_of(&names, &deps[i]);
            dep_slots.push(row);
            phases.push(Phase::Waiting);
            started.push(false);
            results.push(None);
            i = i + 1;
        }
        let s = Scheduler {
            names,
            entries,
            deps,
            dep_slots,
            phases,
            started,
            results,
            keep_going,
            abort: false,
        };
        proof {
            assert(s.slots_ok());
            assert(s.shape_ok());
            assert(s.abort_ok());
            assert forall|a: int| 0 <= a < s.size() implies #[trigger] s.task_ok(a) by {
                assert(s.phases()[a] == Phase::Waiting);
            }
            assert forall|a: int| 0 <= a < s.size() implies #[trigger] s.task_deps()[a]
                == config.tasks.tasks()[name_index(config.tasks.names(), s.task_names()[a])].dep_names() by {
                assert(s.task_deps()[a] == views(s.deps@[a]@));
            }
        }
        s
    }
}

/// Done stays done and failed stays failed from `a` to `b`: then so do
/// "all dependencies succeeded" and "some dependency failed".
proof fn lemma_monotone(names: Seq<Seq<char>>, deps: Seq<Seq<char>>, a: Seq<Phase>, b: Seq<Phase>)
    requires
        a.len() == names.len(),
        b.len() == names.len(),
        forall|k: int|
            0 <= k < a.len() ==> (#[trigger] a[k] == Phase::Done ==> b[k] == Phase::Done) && (a[k]
                == Phase::Failed ==> b[k] == Phase::Failed),
    ensures
        deps_succeeded(names, deps, a) ==> deps_succeeded(names, deps, b),
        has_failed_dep(names, deps, a) ==> has_failed_dep(names, deps, b),
{
    if deps_succeeded(names, deps, a) {
        assert forall|j: int| 0 <= j < deps.len() implies names.contains(#[trigger] deps[j])
            && b[slot(names, deps[j])] == Phase::Done by {
            let p = slot(names, deps[j]);
            assert(0 <= p < names.len());
            assert(a[p] == Phase::Done);
        }
    }
    if has_failed_dep(names, deps, a) {
        let j = choose|j: int|
            #![trigger deps[j]]
            0 <= j < deps.len() && names.contains(deps[j]) && a[slot(names, deps[j])] == Phase::Failed;
        let p = slot(names, deps[j]);
        assert(0 <= p < names.len());
        assert(a[p] == Phase::Failed);
        assert(b[p] == Phase::Failed);
    }
}

impl Scheduler {
    /// Task `i` is skipped by the next step: it waits and a dependency
    /// failed.
    pub open spec fn skips(&self, i: int) -> bool {
        self.phases()[i] == Phase::Waiting && has_failed_dep(
            self.task_names(),
            self.task_deps()[i],
            self.phases(),
        )
    }

    /// The phases once the next step has skipped what it skips.
    pub open spec fn after_skips(&self) -> Seq<Phase> {
        skip_pass(self.task_names(), self.task_deps(), self.phases())
    }

    /// Task `i` is started by the next step: the run is not stopped and,
    /// after the skips, the task is ready.
    pub open spec fn starts(&self, i: int) -> bool {
        !self.aborted() && is_ready(self.task_names(), self.task_deps()[i], self.after_skips(), i)
    }

    /// Whether a dependency of task `i` has failed.
    fn dep_failed(&self, i: usize) -> (b: bool)
        requires
            self.shape_ok(),
            i < self.size(),
        ensures
            b == has_failed_dep(self.task_names(), self.task_deps()[i as int], self.phases()),
    {
        let n = self.names.len();
        let row = &self.dep_slots[i];
        let ghost names = self.task_names();
        let ghost deps = self.task_deps()[i as int];
        assert(deps == views(self.deps@[i as int]@));
        let mut j: usize = 0;
        while j < row.len()
            invariant
                self.shape_ok(),
                n == self.size(),
                i < n,
                names == self.task_names(),
                deps == views(self.deps@[i as int]@),
                row == self.dep_slots@[i as int],
                row@.len() == deps.len(),
                0 <= j <= row@.len(),
                forall|c: int|
                    #![trigger deps[c]]
                    0 <= c < j ==> !(names.contains(deps[c]) && self.phases()[slot(names, deps[c])]
                        == Phase::Failed),
            decreases row.len() - j,
        {
            let p = row[j];
            proof {
                assert(self.dep_slots@[i as int]@[j as int] == p);
                assert(deps[j as int] == self.deps@[i as int]@[j as int]@);
            }
            if p < n && self.phases[p] == Phase::Failed {
                return true;
            }
            j = j + 1;
        }
        false
    }

    /// Whether every dependency of task `i` has completed.
    fn deps_done(&self, i: usize) -> (b: bool)
        requires
            self.shape_ok(),
            i < self.size(),
        ensures
            b == deps_completed(self.task_names(), self.task_deps()[i as int], self.phases()),
    {
        let n = self.names.len();
        let row = &self.dep_slots[i];
        let ghost names = self.task_names();
        let ghost deps = self.task_deps()[i as int];
        assert(deps == views(self.deps@[i as int]@));
        let mut j: usize = 0;
        while j < row.len()
            invariant
                self.shape_ok(),
                n == self.size(),
                i < n,
                names == self.task_names(),
                deps == views(self.deps@[i as int]@),
                row == self.dep_slots@[i as int],
                row@.len() == deps.len(),
                0 <= j <= row@.len(),
                forall|c: int|
                    #![trigger deps[c]]
                    0 <= c < j ==> names.contains(deps[c]) && is_completed(
                        self.phases()[slot(names, deps[c])],
                    ),
            decreases row.len() - j,
        {
            let p = row[j];
            proof {
                assert(self.dep_slots@[i as int]@[j as int] == p);
                assert(deps[j as int] == self.deps@[i as int]@[j as int]@);
            }
            if p >= n {
                return false;
            }
            if self.phases[p] != Phase::Done && self.phases[p] != Phase::Failed {
                return false;
            }
            j = j + 1;
        }
        true
    }

    /// Whether some task is running.
    fn any_running(&self) -> (b: bool)
        requires
            self.shape_ok(),
        ensures
            b == exists|i: int| 0 <= i < self.size() && #[trigger] self.phases()[i] == Phase::Running,
    {
        let mut i: usize = 0;
        while i < self.phases.len()
            invariant
                self.shape_ok(),
                0 <= i <= self.size(),
                forall|k: int| 0 <= k < i ==> #[trigger] self.phases()[k] != Phase::Running,
            decreases self.phases.len() - i,
        {
            if self.phases[i] == Phase::Running {
                return true;
            }
            i = i + 1;
        }
        false
    }

    /// One round of the run. First every waiting task with a failed
    /// dependency is skipped (with the failures known at the start of the
    /// round). Then, unless a failure has stopped the run, every waiting
    /// task whose dependencies have all completed and none failed is
    /// started. The run finishes when no task is running.
    pub fn step(&mut self) -> (a: Action)
        requires
            old(self).wf(),
        ensures
            final(self).wf(),
            final(self).task_names() == old(self).task_names(),
            final(self).entry_slots() == old(self).entry_slots(),
            final(self).task_deps() == old(self).task_deps(),
            final(self).keeps_going() == old(self).keeps_going(),
            final(self).aborted() == old(self).aborted(),
            work_left(final(self).phases()) <= work_left(old(self).phases()),
            final(self).phases() == start_pass(
                old(self).task_names(),
                old(self).task_deps(),
                old(self).after_skips(),
                !old(self).aborted(),
            ),
            forall|i: int|
                0 <= i < old(self).size() ==> #[trigger] final(self).started()[i] == (old(
                    self,
                ).started()[i] || old(self).starts(i)),
            forall|i: int|
                #![trigger final(self).results()[i]]
                0 <= i < old(self).size() ==> if old(self).skips(i) {
                    final(self).results()[i] is Some && is_skipped_result(
                        final(self).results()[i]->0,
                        old(self).task_names()[i],
                        old(self).task_deps()[i],
                    )
                } else {
                    final(self).results()[i] == old(self).results()[i]
                },
            match a {
                Action::Finish => (forall|i: int|
                    0 <= i < old(self).size() ==> #[trigger] final(self).phases()[i]
                        != Phase::Running) && (!old(self).aborted() ==> forall|i: int|
                    0 <= i < old(self).size() ==> !is_ready(
                        old(self).task_names(),
                        old(self).task_deps()[i],
                        #[trigger] final(self).phases(),
                        i,
                    )),
                Action::Start(v) => (exists|i: int|
                    0 <= i < old(self).size() && #[trigger] final(self).phases()[i]
                        == Phase::Running) && (forall|x: int, y: int|
                    0 <= x < y < v@.len() ==> v@[x] < v@[y]) && (forall|i: int|
                    0 <= i < old(self).size() ==> (v@.contains(i as usize) <==> old(self).starts(
                        i,
                    ))),
            },
    {
        proof {
            old(self).lemma_shape();
        }
        let n = self.names.len();
        let ghost names = self.task_names();
        let ghost deps = self.task_deps();
        let ghost ph0 = self.phases@;
        let ghost st0 = self.started@;
        let ghost rs0 = self.results@;
        let mut skip: Vec<bool> = Vec::new();
        let mut i: usize = 0;
        while i < n
            invariant
                self.shape_ok(),
                n == self.size(),
                names == self.task_names(),
                deps == self.task_deps(),
                self.phases@ == ph0,
                0 <= i <= n,
                skip@.len() == i,
                forall|k: int|
                    0 <= k < i ==> #[trigger] skip@[k] == (ph0[k] == Phase::Waiting
                        && has_failed_dep(names, deps[k], ph0)),
            decreases n - i,
        {
            let f = self.phases[i] == Phase::Waiting && self.dep_failed(i);
            skip.push(f);
            i = i + 1;
        }
        let mut i: usize = 0;
        while i < n
            invariant
                self.shape_ok(),
                n == self.size(),
                names == self.task_names(),
                deps == self.task_deps(),
                self.entries@ == old(self).entries@,
                self.started@ == st0,
                self.keep_going == old(self).keep_going,
                self.abort == old(self).abort,
                skip@.len() == n,
                0 <= i <= n,
                forall|k: int|
                    0 <= k < n ==> #[trigger] skip@[k] == (ph0[k] == Phase::Waiting
                        && has_failed_dep(names, deps[k], ph0)),
                forall|k: int|
                    0 <= k < n ==> #[trigger] self.phases@[k] == (if k < i && skip@[k] {
                        Phase::Failed
                    } else {
                        ph0[k]
                    }),
                forall|k: int|
                    #![trigger self.results@[k]]
                    0 <= k < n ==> if k < i && skip@[k] {
                        self.results@[k] is Some && is_skipped_result(
                            self.results@[k]->0,
                            names[k],
                            deps[k],
                        )
                    } else {
                        self.results@[k] == rs0[k]
                    },
            decreases n - i,
        {
            let ghost rs_before = self.results@;
            let ghost ph_before = self.phases@;
            if skip[i] {
                let r = skipped_result(self.names[i].as_str(), self.deps[i].as_slice());
                proof {
                    assert(names[i as int] == self.names@[i as int]@);
                    assert(deps[i as int] == views(self.deps@[i as int]@));
                }
                self.phases.set(i, Phase::Failed);
                self.results.set(i, Some(r));
            }
            proof {
                assert forall|k: int|
                    #![trigger self.results@[k]]
                    0 <= k < n implies if k < i + 1 && skip@[k] {
                    self.results@[k] is Some && is_skipped_result(
                        self.results@[k]->0,
                        names[k],
                        deps[k],
                    )
                } else {
                    self.results@[k] == rs0[k]
                } by {
                    if k != i || !skip@[i as int] {
                        assert(self.results@[k] == rs_before[k]);
                    }
                }
                assert forall|k: int|
                    0 <= k < n implies #[trigger] self.phases@[k] == (if k < i + 1 && skip@[k] {
                        Phase::Failed
                    } else {
                        ph0[k]
                    }) by {
                    if k != i || !skip@[i as int] {
                        assert(self.phases@[k] == ph_before[k]);
                    }
                }
            }
            i = i + 1;
        }
        let ghost ph1 = self.phases@;
        let ghost rs1 = self.results@;
        assert(ph1 =~= skip_pass(names, deps, ph0));
        let mut ready: Vec<usize> = Vec::new();
        if !self.abort {
            let mut flags: Vec<bool> = Vec::new();
            let mut i: usize = 0;
            while i < n
                invariant
                    self.shape_ok(),
                    n == self.size(),
                    names == self.task_names(),
                    deps == self.task_deps(),
                    self.phases@ == ph1,
                    0 <= i <= n,
                    flags@.len() == i,
                    forall|k: int|
                        0 <= k < i ==> #[trigger] flags@[k] == is_ready(names, deps[k], ph1, k),
                decreases n - i,
            {
                let f = self.phases[i] == Phase::Waiting && self.deps_done(i) && !self.dep_failed(
                    i,
                );
                flags.push(f);
                i = i + 1;
            }
            let mut i: usize = 0;
            while i < n
                invariant
                    self.shape_ok(),
                    n == self.size(),
                    names == self.task_names(),
                    deps == self.task_deps(),
                    self.entries@ == old(self).entries@,
                    self.results@ == rs1,
                    self.keep_going == old(self).keep_going,
                    self.abort == old(self).abort,
                    flags@.len() == n,
                    0 <= i <= n,
                    forall|k: int|
                        0 <= k < n ==> #[trigger] flags@[k] == is_ready(names, deps[k], ph1, k),
                    forall|k: int|
                        0 <= k < n ==> #[trigger] self.phases@[k] == (if k < i && flags@[k] {
                            Phase::Running
                        } else {
                            ph1[k]
                        }),
                    forall|k: int|
                        0 <= k < n ==> #[trigger] self.started@[k] == (if k < i && flags@[k] {
                            true
                        } else {
                            st0[k]
                        }),
                    forall|x: int, y: int| 0 <= x < y < ready@.len() ==> ready@[x] < ready@[y],
                    forall|x: int| 0 <= x < ready@.len() ==> ready@[x] < i,
                    forall|k: int|
                        0 <= k < n ==> (ready@.contains(k as usize) <==> (k < i && flags@[k])),
                decreases n - i,
            {
                if flags[i] {
                    self.phases.set(i, Phase::Running);
                    self.started.set(i, true);
                    let ghost before = ready@;
                    ready.push(i);
                    proof {
                        assert forall|k: int| 0 <= k < n implies (ready@.contains(k as usize) <==> (
                        k < i + 1 && flags@[k])) by {
                            if k == i {
                                assert(ready@[before.len() as int] == i);
                            }
                            if ready@.contains(k as usize) && k != i {
                                let x = choose|x: int|
                                    0 <= x < ready@.len() && ready@[x] == k as usize;
                                assert(x < before.len());
                                assert(before[x] == k as usize);
                            }
                            if k < i && flags@[k] {
                                assert(before.contains(k as usize));
                                let x = choose|x: int|
                                    0 <= x < before.len() && before[x] == k as usize;
                                assert(ready@[x] == k as usize);
                            }
                        }
                    }
                } else {
                    proof {
                        assert forall|k: int| 0 <= k < n implies (ready@.contains(k as usize) <==> (
                        k < i + 1 && flags@[k])) by {
                            if k == i && ready@.contains(k as usize) {
                                let x = choose|x: int|
                                    0 <= x < ready@.len() && ready@[x] == k as usize;
                            }
                        }
                    }
                }
                i = i + 1;
            }
        }
        let running = self.any_running();
        proof {
            let ph2 = self.phases@;
            let st2 = self.started@;
            let rs2 = self.results@;
            let go = !old(self).abort;
            assert(ph2 =~= start_pass(names, deps, ph1, go));
            assert forall|k: int| 0 <= k < n implies (#[trigger] ph0[k] == Phase::Done ==> ph2[k]
                == Phase::Done) && (ph0[k] == Phase::Failed ==> ph2[k] == Phase::Failed) by {}
            assert forall|k: int| 0 <= k < n implies (#[trigger] ph1[k] == Phase::Done ==> ph2[k]
                == Phase::Done) && (ph1[k] == Phase::Failed ==> ph2[k] == Phase::Failed) by {}
            assert forall|k: int| 0 <= k < n implies #[trigger] self.task_ok(k) by {
                assert(old(self).task_ok(k));
                lemma_monotone(names, deps[k], ph0, ph2);
                if go && is_ready(names, deps[k], ph1, k) {
                    assert forall|j: int| 0 <= j < deps[k].len() implies names.contains(
                        #[trigger] deps[k][j],
                    ) && ph2[slot(names, deps[k][j])] == Phase::Done by {
                        assert(names.contains(deps[k][j]));
                        assert(is_completed(ph1[slot(names, deps[k][j])]));
                        if ph1[slot(names, deps[k][j])] == Phase::Failed {
                            assert(has_failed_dep(names, deps[k], ph1));
                        }
                    }
                }
            }
            assert forall|k: int| 0 <= k < n implies (#[trigger] st2[k] && rs2[k] is Some
                && counts_as_failure(rs2[k]->0)) == (st0[k] && rs0[k] is Some && counts_as_failure(
                rs0[k]->0)) by {
                assert(old(self).task_ok(k));
            }
            assert(old(self).abort_ok());
            assert(old(self).started() == st0);
            assert(old(self).results() == rs0);
            let ex_old = exists|k: int|
                0 <= k < n && #[trigger] st0[k] && rs0[k] is Some && counts_as_failure(rs0[k]->0);
            let ex_new = exists|k: int|
                0 <= k < n && #[trigger] st2[k] && rs2[k] is Some && counts_as_failure(rs2[k]->0);
            assert(old(self).abort == (!old(self).keep_going && ex_old));
            if ex_old {
                let k = choose|k: int|
                    0 <= k < n && #[trigger] st0[k] && rs0[k] is Some && counts_as_failure(
                        rs0[k]->0,
                    );
                assert(st2[k] && rs2[k] is Some && counts_as_failure(rs2[k]->0));
            }
            if ex_new {
                let k = choose|k: int|
                    0 <= k < n && #[trigger] st2[k] && rs2[k] is Some && counts_as_failure(
                        rs2[k]->0,
                    );
                assert(st0[k] && rs0[k] is Some && counts_as_failure(rs0[k]->0));
            }
            assert(ex_old == ex_new);
            assert(self.started() == st2);
            assert(self.results() == rs2);
            assert(self.abort_ok());
            assert forall|k: int| 0 <= k < n implies cost(#[trigger] ph2[k]) <= cost(ph0[k]) by {}
            lemma_work_pointwise(ph0, ph2);
        }
        if running {
            Action::Start(ready)
        } else {
            proof {
                if !old(self).abort {
                    let ph2 = self.phases@;
                    assert forall|k: int| 0 <= k < n implies ph2[k] == ph1[k] by {
                        if is_ready(names, deps[k], ph1, k) {
                            assert(ph2[k] == Phase::Running);
                        }
                    }
                    assert(ph2 =~= ph1);
                    assert forall|k: int| 0 <= k < n implies !is_ready(names, deps[k], ph2, k) by {
                        if is_ready(names, deps[k], ph1, k) {
                            assert(ph2[k] == Phase::Running);
                        }
                    }
                }
            }
            Action::Finish
        }
    }

    /// Records the result of the running task `i`. A result that counts as
    /// a failure marks the task failed, and stops the run unless it keeps
    /// going; any other result marks it done.
    pub fn complete(&mut self, i: usize, result: TaskResult)
        requires
            old(self).wf(),
            i < old(self).size(),
            old(self).phases()[i as int] == Phase::Running,
        ensures
            final(self).wf(),
            final(self).task_names() == old(self).task_names(),
            final(self).entry_slots() == old(self).entry_slots(),
            final(self).task_deps() == old(self).task_deps(),
            final(self).keeps_going() == old(self).keeps_going(),
            final(self).started() == old(self).started(),
            final(self).phases() == old(self).phases().update(
                i as int,
                if counts_as_failure(result) {
                    Phase::Failed
                } else {
                    Phase::Done
                },
            ),
            final(self).results() == old(self).results().update(i as int, Some(result)),
            work_left(final(self).phases()) < work_left(old(self).phases()),
            final(self).aborted() == (old(self).aborted() || (counts_as_failure(result) && !old(
                self,
            ).keeps_going())),
    {
        proof {
            old(self).lemma_shape();
        }
        let ghost names = self.task_names();
        let ghost deps = self.task_deps();
        let ghost ph0 = self.phases@;
        let ghost st0 = self.started@;
        let ghost rs0 = self.results@;
        let ghost rv = result;
        let n = self.names.len();
        let fails = !result.success && !result.cached && !result.dry_run;
        if fails {
            self.phases.set(i, Phase::Failed);
        } else {
            self.phases.set(i, Phase::Done);
        }
        self.results.set(i, Some(result));
        if fails && !self.keep_going {
            self.abort = true;
        }
        proof {
            let ph1 = self.phases@;
            let rs1 = self.results@;
            assert(old(self).task_ok(i as int));
            assert forall|k: int| 0 <= k < n implies (#[trigger] ph0[k] == Phase::Done ==> ph1[k]
                == Phase::Done) && (ph0[k] == Phase::Failed ==> ph1[k] == Phase::Failed) by {}
            assert forall|k: int| 0 <= k < n implies #[trigger] self.task_ok(k) by {
                assert(old(self).task_ok(k));
                lemma_monotone(names, deps[k], ph0, ph1);
            }
            assert(old(self).abort_ok());
            assert(old(self).started() == st0);
            assert(old(self).results() == rs0);
            let ex_old = exists|k: int|
                0 <= k < n && #[trigger] st0[k] && rs0[k] is Some && counts_as_failure(rs0[k]->0);
            let ex_new = exists|k: int|
                0 <= k < n && #[trigger] st0[k] && rs1[k] is Some && counts_as_failure(rs1[k]->0);
            assert(old(self).abort == (!old(self).keep_going && ex_old));
            if ex_old {
                let k = choose|k: int|
                    0 <= k < n && #[trigger] st0[k] && rs0[k] is Some && counts_as_failure(
                        rs0[k]->0,
                    );
                assert(k != i);
                assert(st0[k] && rs1[k] is Some && counts_as_failure(rs1[k]->0));
            }
            if fails {
                assert(st0[i as int] && rs1[i as int] is Some && counts_as_failure(
                    rs1[i as int]->0,
                ));
            }
            if ex_new {
                let k = choose|k: int|
                    0 <= k < n && #[trigger] st0[k] && rs1[k] is Some && counts_as_failure(
                        rs1[k]->0,
                    );
                if k != i {
                    assert(st0[k] && rs0[k] is Some && counts_as_failure(rs0[k]->0));
                }
            }
            assert(ex_new == (ex_old || fails));
            assert(self.started() == st0);
            assert(self.results() == rs1);
            assert(self.abort_ok());
            lemma_work_update(ph0, i as int, ph1[i as int]);
            assert(ph1 =~= ph0.update(i as int, ph1[i as int]));
        }
    }

    /// `(name, hash)` for each dependency of task `i` whose task has
    /// finished, in the order the configuration lists them: what the task's
    /// own hash is made from.
    pub fn dep_hashes(&self, i: usize) -> (r: Vec<(String, String)>)
        requires
            self.wf(),
            i < self.size(),
        ensures
            pair_views(r@) == known_dep_hashes(
                self.task_names(),
                self.started(),
                self.results(),
                self.task_deps()[i as int],
            ),
    {
        proof {
            self.lemma_shape();
        }
        let n = self.names.len();
        let row = &self.dep_slots[i];
        let list = &self.deps[i];
        let ghost names = self.task_names();
        let ghost deps = self.task_deps()[i as int];
        assert(deps == views(list@));
        let mut r: Vec<(String, String)> = Vec::new();
        let mut j: usize = 0;
        while j < row.len()
            invariant
                self.wf(),
                n == self.size(),
                i < n,
                names == self.task_names(),
                deps == views(list@),
                list == self.deps@[i as int],
                row == self.dep_slots@[i as int],
                row@.len() == deps.len(),
                0 <= j <= row@.len(),
                pair_views(r@) == known_dep_hashes(
                    names,
                    self.started(),
                    self.results(),
                    deps.take(j as int),
                ),
            decreases row.len() - j,
        {
            let p = row[j];
            let ghost d = deps[j as int];
            proof {
                assert(self.dep_slots@[i as int]@[j as int] == p);
                assert(deps.take(j + 1).drop_last() =~= deps.take(j as int));
                assert(deps.take(j + 1).last() == d);
            }
            if p < n && self.started[p] {
                match &self.results[p] {
                    Some(res) => {
                        let ghost before = r@;
                        r.push((list[j].clone(), res.hash.clone()));
                        proof {
                            assert(pair_views(r@) =~= pair_views(before).push((d, res.hash@)));
                        }
                    },
                    None => {},
                }
            }
            j = j + 1;
        }
        assert(deps.take(j as int) =~= deps);
        r
    }

    /// The results, one for each entry of the schedule whose task has one,
    /// in schedule order.
    pub fn collect_results(&self) -> (r: Vec<TaskResult>)
        requires
            self.wf(),
        ensures
            r@ == collected(self.entry_slots(), self.results()),
    {
        proof {
            self.lemma_shape();
        }
        let ghost es = self.entry_slots();
        let mut r: Vec<TaskResult> = Vec::new();
        let mut k: usize = 0;
        while k < self.entries.len()
            invariant
                self.wf(),
                es == self.entry_slots(),
                es.len() == self.entries@.len(),
                forall|e: int| 0 <= e < es.len() ==> 0 <= #[trigger] es[e] < self.size(),
                0 <= k <= es.len(),
                r@ == collected(es.take(k as int), self.results()),
            decreases self.entries.len() - k,
        {
            let p = self.entries[k];
            proof {
                assert(es[k as int] == p as int);
                assert(es.take(k + 1).drop_last() =~= es.take(k as int));
                assert(es.take(k + 1).last() == p as int);
            }
            match &self.results[p] {
                Some(res) => {
                    r.push(res.clone());
                },
                None => {},
            }
            k = k + 1;
        }
        assert(es.take(k as int) =~= es);
        r
    }

    /// The number of tasks.
    pub fn task_count(&self) -> (n: usize)
        requires
            self.wf(),
        ensures
            n == self.size(),
    {
        self.names.len()
    }

    /// The name of task `i`.
    pub fn task_name(&self, i: usize) -> (s: &String)
        requires
            self.wf(),
            i < self.size(),
        ensures
            s@ == self.task_names()[i as int],
    {
        &self.names[i]
    }

    /// Whether `i` is a task that is running.
    pub fn is_running(&self, i: usize) -> (b: bool)
        requires
            self.wf(),
        ensures
            b == (i < self.size() && self.phases()[i as int] == Phase::Running),
    {
        proof {
            self.lemma_shape();
        }
        i < self.phases.len() && self.phases[i] == Phase::Running
    }
}

/// A task starts only once each of its dependencies is a task of the run
/// that has succeeded; a task without a result was never reported; a task
/// that failed without being started was skipped because one of its
/// dependencies failed, and its result says so.
pub proof fn lemma_run_order(s: &Scheduler, i: int)
    requires
        s.wf(),
        0 <= i < s.size(),
    ensures
        s.started()[i] ==> deps_succeeded(s.task_names(), s.task_deps()[i], s.phases()),
        s.results()[i] is Some <==> is_completed(s.phases()[i]),
        !s.started()[i] && s.results()[i] is Some ==> s.phases()[i] == Phase::Failed
            && has_failed_dep(s.task_names(), s.task_deps()[i], s.phases()) && is_skipped_result(
            s.results()[i]->0,
            s.task_names()[i],
            s.task_deps()[i],
        ),
{
    assert(s.task_ok(i));
}

/// Unless the run keeps going, the first failure of a started task stops
/// it: from then on no step starts a task.
pub proof fn lemma_failure_stops(s: &Scheduler, i: int)
    requires
        s.wf(),
        0 <= i < s.size(),
        !s.keeps_going(),
        s.started()[i],
        s.results()[i] is Some,
        counts_as_failure(s.results()[i]->0),
    ensures
        s.aborted(),
        forall|k: int| 0 <= k < s.size() ==> !#[trigger] s.starts(k),
{
}

/// A run ends: no step raises the work left and each reported result
/// lowers it, and it starts at no more than two for each task. So a caller
/// that reports one running task after each step that starts tasks is done
/// after at most twice as many rounds as there are tasks.
pub proof fn lemma_work_bounded(s: &Scheduler)
    requires
        s.wf(),
    ensures
        work_left(s.phases()) <= 2 * s.size(),
{
    s.lemma_shape();
    lemma_work_bound(s.phases());
}

/// Task `k` waits on a failure: some dependency of it that comes before it
/// failed, or waits on a failure itself.
pub open spec fn waits_on_failure(
    names: Seq<Seq<char>>,
    deps: Seq<Seq<Seq<char>>>,
    ph: Seq<Phase>,
    k: int,
) -> bool
    decreases k,
{
    if k <= 0 {
        false
    } else {
        exists|j: int|
            #![trigger deps[k][j]]
            0 <= j < deps[k].len() && names.contains(deps[k][j]) && 0 <= slot(names, deps[k][j]) < k
                && (ph[slot(names, deps[k][j])] == Phase::Failed || waits_on_failure(
                names,
                deps,
                ph,
                slot(names, deps[k][j]),
            ))
    }
}

/// When a run that keeps going finishes, a task that never got a result
/// depends, directly or through other such tasks, on a task that failed or
/// was skipped: every task with no failure among its dependencies has run
/// and has its result. This holds when every dependency is a task of the
/// run and comes before the tasks that depend on it.
pub proof fn lemma_finished_run_complete(s: &Scheduler, k: int)
    requires
        s.wf(),
        s.keeps_going(),
        forall|i: int| 0 <= i < s.size() ==> #[trigger] s.phases()[i] != Phase::Running,
        forall|i: int|
            0 <= i < s.size() ==> !is_ready(s.task_names(), s.task_deps()[i], s.phases(), i),
        forall|i: int, j: int|
            #![trigger s.task_deps()[i][j]]
            0 <= i < s.size() && 0 <= j < s.task_deps()[i].len() ==> s.task_names().contains(
                s.task_deps()[i][j],
            ) && slot(s.task_names(), s.task_deps()[i][j]) < i,
        0 <= k < s.size(),
        s.phases()[k] == Phase::Waiting,
    ensures
        waits_on_failure(s.task_names(), s.task_deps(), s.phases(), k),
    decreases k,
{
    s.lemma_shape();
    let names = s.task_names();
    let deps = s.task_deps();
    let ph = s.phases();
    assert(!is_ready(names, deps[k], ph, k));
    if has_failed_dep(names, deps[k], ph) {
        let j = choose|j: int|
            #![trigger deps[k][j]]
            0 <= j < deps[k].len() && names.contains(deps[k][j]) && ph[slot(names, deps[k][j])]
                == Phase::Failed;
        let p = slot(names, deps[k][j]);
        assert(0 <= p < names.len());
        assert(p < k);
        assert(k > 0);
    } else {
        let j = choose|j: int|
            #![trigger deps[k][j]]
            0 <= j < deps[k].len() && !(names.contains(deps[k][j]) && is_completed(
                ph[slot(names, deps[k][j])],
            ));
        assert(names.contains(deps[k][j]));
        let p = slot(names, deps[k][j]);
        assert(0 <= p < names.len());
        assert(p < k);
        assert(ph[p] != Phase::Running);
        assert(ph[p] == Phase::Waiting);
        lemma_finished_run_complete(s, p);
        assert(k > 0);
    }
}

/// A run that keeps going is never stopped.
pub proof fn lemma_keep_going_never_stops(s: &Scheduler)
    requires
        s.wf(),
        s.keeps_going(),
    ensures
        !s.aborted(),
{
}

/// After a step that did not stop, no waiting task is left ready to start:
/// tasks start as soon as their dependencies have completed.
pub proof fn lemma_started_when_ready(before: &Scheduler, after: &Scheduler)
    requires
        before.wf(),
        !before.aborted(),
        after.task_names() == before.task_names(),
        after.task_deps() == before.task_deps(),
        after.phases() == start_pass(
            before.task_names(),
            before.task_deps(),
            before.after_skips(),
            true,
        ),
    ensures
        forall|k: int|
            0 <= k < before.size() ==> !is_ready(
                after.task_names(),
                after.task_deps()[k],
                before.after_skips(),
                k,
            ) || #[trigger] after.phases()[k] == Phase::Running,
{
    before.lemma_shape();
}

/// Each element of `first_occurrences(s)` occurs in `s`.
proof fn lemma_first_occurrences_from(s: Seq<Seq<char>>, i: int)
    requires
        0 <= i < first_occurrences(s).len(),
    ensures
        s.contains(first_occurrences(s)[i]),
    decreases s.len(),
{
    let d = first_occurrences(s.drop_last());
    if d.contains(s.last()) {
        lemma_first_occurrences_from(s.drop_last(), i);
        let k = choose|k: int| 0 <= k < s.drop_last().len() && s.drop_last()[k] == d[i];
        assert(s[k] == d[i]);
    } else if i < d.len() {
        lemma_first_occurrences_from(s.drop_last(), i);
        let k = choose|k: int| 0 <= k < s.drop_last().len() && s.drop_last()[k] == d[i];
        assert(s[k] == d[i]);
    } else {
        assert(s[s.len() - 1] == s.last());
    }
}

/// The position of `x` in `names`, if it is there.
fn find_name(names: &Vec<String>, x: &str) -> (r: Option<usize>)
    ensures
        match r {
            Some(p) => p < names@.len() && names@[p as int]@ == x@,
            None => !views(names@).contains(x@),
        },
{
    let mut i: usize = 0;
    while i < names.len()
        invariant
            0 <= i <= names@.len(),
            forall|j: int| 0 <= j < i ==> names@[j]@ != x@,
        decreases names.len() - i,
    {
        if str_equal(names[i].as_str(), x) {
            return Some(i);
        }
        i = i + 1;
    }
    proof {
        if views(names@).contains(x@) {
            let j = choose|j: int| 0 <= j < views(names@).len() && views(names@)[j] == x@;
            assert(names@[j]@ == x@);
        }
    }
    None
}

/// A copy of a list of strings.
fn copy_strings(v: &Vec<String>) -> (r: Vec<String>)
    ensures
        views(r@) == views(v@),
{
    let mut r: Vec<String> = Vec::new();
    let mut i: usize = 0;
    while i < v.len()
        invariant
            0 <= i <= v@.len(),
            r@.len() == i,
            forall|j: int| 0 <= j < i ==> #[trigger] r@[j]@ == v@[j]@,
        decreases v.len() - i,
    {
        r.push(v[i].clone());
        i = i + 1;
    }
    assert(views(r@) =~= views(v@));
    r
}

/// The slot of each dependency among the distinct `names`; the number of
/// names for one that is not among them.
fn slots_of(names: &Vec<String>, deps: &Vec<String>) -> (r: Vec<usize>)
    requires
        distinct_names(views(names@)),
    ensures
        r@.len() == deps@.len(),
        forall|b: int|
            #![trigger r@[b]]
            0 <= b < deps@.len() ==> r@[b] as int == (if views(names@).contains(deps@[b]@) {
                slot(views(names@), deps@[b]@)
            } else {
                names@.len() as int
            }),
{
    let mut r: Vec<usize> = Vec::new();
    let mut b: usize = 0;
    while b < deps.len()
        invariant
            distinct_names(views(names@)),
            0 <= b <= deps@.len(),
            r@.len() == b,
            forall|c: int|
                #![trigger r@[c]]
                0 <= c < b ==> r@[c] as int == (if views(names@).contains(deps@[c]@) {
                    slot(views(names@), deps@[c]@)
                } else {
                    names@.len() as int
                }),
        decreases deps.len() - b,
    {
        match find_name(names, deps[b].as_str()) {
            Some(p) => {
                proof {
                    let nv = views(names@);
                    assert(nv[p as int] == deps@[b as int]@);
                    assert(nv.contains(deps@[b as int]@));
                    let q = slot(nv, deps@[b as int]@);
                    assert(0 <= q < nv.len() && nv[q] == nv[p as int]);
                }
                r.push(p);
            },
            None => {
                r.push(names.len());
            },
        }
        b = b + 1;
    }
    r
}

/// The known dependency hashes of two lists one after the other are those
/// of the first list followed by those of the second: every dependency
/// contributes on its own, wherever it stands in the list.
pub proof fn lemma_known_dep_hashes_split(
    names: Seq<Seq<char>>,
    started: Seq<bool>,
    results: Seq<Option<TaskResult>>,
    a: Seq<Seq<char>>,
    b: Seq<Seq<char>>,
)
    ensures
        known_dep_hashes(names, started, results, a + b) == known_dep_hashes(
            names,
            started,
            results,
            a,
        ) + known_dep_hashes(names, started, results, b),
    decreases b.len(),
{
    if b.len() == 0 {
        assert(a + b =~= a);
        assert(known_dep_hashes(names, started, results, a) + known_dep_hashes(
            names,
            started,
            results,
            b,
        ) =~= known_dep_hashes(names, started, results, a));
    } else {
        let bd = b.drop_last();
        lemma_known_dep_hashes_split(names, started, results, a, bd);
        assert((a + b).drop_last() =~= a + bd);
        assert((a + b).last() == b.last());
        let ra = known_dep_hashes(names, started, results, a);
        let rb = known_dep_hashes(names, started, results, bd);
        match known_hash(names, started, results, b.last()) {
            Some(h) => {
                assert((ra + rb).push((b.last(), h)) =~= ra + rb.push((b.last(), h)));
            },
            None => {},
        }
    }
}

/// A single dependency gives its `(name, hash)` pair when its hash is
/// recorded, and nothing otherwise.
pub proof fn lemma_known_dep_hashes_one(
    names: Seq<Seq<char>>,
    started: Seq<bool>,
    results: Seq<Option<TaskResult>>,
    d: Seq<char>,
)
    ensures
        known_dep_hashes(names, started, results, seq![d]) == (match known_hash(
            names,
            started,
            results,
            d,
        ) {
            Some(h) => seq![(d, h)],
            None => Seq::empty(),
        }),
{
    assert(seq![d].drop_last() =~= Seq::<Seq<char>>::empty());
    assert(seq![d].last() == d);
    assert(known_dep_hashes(names, started, results, Seq::<Seq<char>>::empty())
        == Seq::<(Seq<char>, Seq<char>)>::empty());
    match known_hash(names, started, results, d) {
        Some(h) => {
            assert(Seq::<(Seq<char>, Seq<char>)>::empty().push((d, h)) =~= seq![(d, h)]);
        },
        None => {},
    }
}

/// Every listed dependency whose hash is recorded contributes its
/// `(name, hash)` pair to the hashes a task is built with, and there is
/// at most one pair per dependency.
pub proof fn lemma_known_dep_hashes_complete(
    names: Seq<Seq<char>>,
    started: Seq<bool>,
    results: Seq<Option<TaskResult>>,
    deps: Seq<Seq<char>>,
)
    ensures
        forall|j: int|
            0 <= j < deps.len() && known_hash(names, started, results, #[trigger] deps[j]) is Some
                ==> known_dep_hashes(names, started, results, deps).contains(
                (deps[j], known_hash(names, started, results, deps[j])->0),
            ),
        known_dep_hashes(names, started, results, deps).len() <= deps.len(),
    decreases deps.len(),
{
    if deps.len() > 0 {
        lemma_known_dep_hashes_complete(names, started, results, deps.drop_last());
    }
    assert forall|j: int|
        0 <= j < deps.len() && known_hash(names, started, results, #[trigger] deps[j])
            is Some implies known_dep_hashes(names, started, results, deps).contains(
        (deps[j], known_hash(names, started, results, deps[j])->0),
    ) by {
        let h = known_hash(names, started, results, deps[j])->0;
        let head = deps.take(j);
        let tail = deps.skip(j + 1);
        lemma_known_dep_hashes_split(names, started, results, head, seq![deps[j]]);
        lemma_known_dep_hashes_split(names, started, results, head + seq![deps[j]], tail);
        lemma_known_dep_hashes_one(names, started, results, deps[j]);
        assert(head + seq![deps[j]] + tail =~= deps);
        let x = known_dep_hashes(names, started, results, head);
        let y = known_dep_hashes(names, started, results, tail);
        assert((x + seq![(deps[j], h)] + y)[x.len() as int] == (deps[j], h));
    }
}

} // verus!
