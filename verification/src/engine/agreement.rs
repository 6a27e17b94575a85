//! The hashes that `status`, `why` and `prune` compute without running
//! anything are the hashes a build gives its tasks.
use crate::config::parser::{dep_known, deps_known, is_dep_position};
use crate::config::task::{distinct_names, BuildConfig, TaskMap};
use crate::dag::graph::{config_edges, graph_valid, lemma_declared_edge, name_index, BuildGraph};
use crate::dag::schedule::{
    closed_under_deps, closure_of, lemma_dependency_earlier, lemma_one_level,
    lemma_task_alone_last, levels_match, strictly_sorted,
};
use crate::engine::hashing::{digest_of, task_text};
use crate::engine::inspect::{chained_hashes, dep_pairs, lookup_hash, task_named};
use crate::engine::runner::TaskResult;
use crate::engine::scheduler::{
    first_occurrences, flatten, is_ready, known_dep_hashes, known_hash, lemma_finished_run_complete,
    slot, waits_on_failure, Phase, Scheduler,
};
use crate::text::{lemma_str_lt_order, str_lt};
use vstd::prelude::*;

verus! {

/// Every dependency that is a task of the run comes before the task that
/// depends on it.
pub open spec fn deps_first(names: Seq<Seq<char>>, deps: Seq<Seq<Seq<char>>>) -> bool {
    forall|k: int, j: int|
        #![trigger deps[k][j]]
        0 <= k < names.len() && 0 <= j < deps[k].len() && names.contains(deps[k][j]) ==> slot(
            names,
            deps[k][j],
        ) < k
}

/// A finished run in which every task succeeded, each with the
/// dependencies that `tasks` lists for it, and each result carries the hash
/// made from the task's command, its input hash (`inputs[k]` for task `k`)
/// and the recorded hashes of its dependencies, as a build computes it.
pub open spec fn run_hashed(s: &Scheduler, tasks: &TaskMap, inputs: Seq<Seq<char>>) -> bool {
    &&& inputs.len() == s.size()
    &&& forall|k: int| 0 <= k < s.size() ==> #[trigger] s.phases()[k] == Phase::Done
    &&& forall|k: int|
        0 <= k < s.size() ==> #[trigger] s.task_deps()[k] == task_named(
            tasks,
            s.task_names()[k],
        ).dep_names()
    &&& forall|k: int|
        0 <= k < s.size() ==> (#[trigger] s.results()[k])->0.hash@ == digest_of(
            task_text(
                task_named(tasks, s.task_names()[k]).command@,
                inputs[k],
                known_dep_hashes(s.task_names(), s.started(), s.results(), s.task_deps()[k]),
            ),
        )
}

/// A lookup among the first `k` tasks reads only the first `k` names and
/// hashes.
proof fn lemma_lookup_prefix2(
    a: Seq<Seq<char>>,
    ha: Seq<Seq<char>>,
    b: Seq<Seq<char>>,
    hb: Seq<Seq<char>>,
    d: Seq<char>,
    k: int,
)
    requires
        k <= a.len(),
        k <= b.len(),
        k <= ha.len(),
        k <= hb.len(),
        forall|i: int| 0 <= i < k ==> a[i] == b[i] && ha[i] == hb[i],
    ensures
        lookup_hash(a, ha, d, k) == lookup_hash(b, hb, d, k),
    decreases k,
{
    if k > 0 {
        lemma_lookup_prefix2(a, ha, b, hb, d, k - 1);
    }
}

proof fn lemma_pairs_prefix2(
    a: Seq<Seq<char>>,
    ha: Seq<Seq<char>>,
    b: Seq<Seq<char>>,
    hb: Seq<Seq<char>>,
    k: int,
    deps: Seq<Seq<char>>,
)
    requires
        k <= a.len(),
        k <= b.len(),
        k <= ha.len(),
        k <= hb.len(),
        forall|i: int| 0 <= i < k ==> a[i] == b[i] && ha[i] == hb[i],
    ensures
        dep_pairs(a, ha, k, deps) == dep_pairs(b, hb, k, deps),
    decreases deps.len(),
{
    if deps.len() > 0 {
        lemma_pairs_prefix2(a, ha, b, hb, k, deps.drop_last());
        lemma_lookup_prefix2(a, ha, b, hb, deps.last(), k);
    }
}

/// Among distinct names, a lookup finds the one task of that name, when it
/// is among the first `k`.
proof fn lemma_lookup_distinct(names: Seq<Seq<char>>, hs: Seq<Seq<char>>, d: Seq<char>, k: int)
    requires
        distinct_names(names),
        0 <= k <= names.len(),
    ensures
        lookup_hash(names, hs, d, k) == if names.contains(d) && slot(names, d) < k {
            Some(hs[slot(names, d)])
        } else {
            None
        },
    decreases k,
{
    if k > 0 {
        lemma_lookup_distinct(names, hs, d, k - 1);
        if names.contains(d) {
            let p = slot(names, d);
            assert(0 <= p < names.len() && names[p] == d);
            if names[k - 1] == d {
                assert(p == k - 1);
            } else {
                assert(p != k - 1);
            }
        }
    }
}

/// The pairs `chained_hashes` builds a task's hash from are the recorded
/// hashes of its dependencies, when every dependency that is a task comes
/// among the first `k`, has finished, and carries the hash `hs` gives it.
proof fn lemma_pairs_agree(
    names: Seq<Seq<char>>,
    hs: Seq<Seq<char>>,
    k: int,
    started: Seq<bool>,
    results: Seq<Option<TaskResult>>,
    deps: Seq<Seq<char>>,
)
    requires
        distinct_names(names),
        0 <= k <= names.len(),
        forall|j: int|
            #![trigger deps[j]]
            0 <= j < deps.len() && names.contains(deps[j]) ==> {
                let p = slot(names, deps[j]);
                &&& p < k
                &&& started[p]
                &&& results[p] is Some
                &&& results[p]->0.hash@ == hs[p]
            },
    ensures
        dep_pairs(names, hs, k, deps) == known_dep_hashes(names, started, results, deps),
    decreases deps.len(),
{
    if deps.len() > 0 {
        let rest = deps.drop_last();
        assert forall|j: int| 0 <= j < rest.len() && names.contains(#[trigger] rest[j]) implies {
            let p = slot(names, rest[j]);
            &&& p < k
            &&& started[p]
            &&& results[p] is Some
            &&& results[p]->0.hash@ == hs[p]
        } by {
            assert(rest[j] == deps[j]);
        }
        lemma_pairs_agree(names, hs, k, started, results, rest);
        let d = deps.last();
        assert(d == deps[deps.len() - 1]);
        lemma_lookup_distinct(names, hs, d, k);
        assert(lookup_hash(names, hs, d, k) == known_hash(names, started, results, d));
    }
}

/// `chained_hashes` of a prefix is the prefix of `chained_hashes`.
proof fn lemma_chain_prefix(tasks: &TaskMap, order: Seq<Seq<char>>, inputs: Seq<Seq<char>>, m: int)
    requires
        0 <= m <= order.len(),
        inputs.len() == order.len(),
    ensures
        chained_hashes(tasks, order, inputs).len() == order.len(),
        chained_hashes(tasks, order.take(m), inputs.take(m)) == chained_hashes(
            tasks,
            order,
            inputs,
        ).take(m),
    decreases order.len(),
{
    if order.len() > 0 {
        let n = order.len() as int;
        lemma_chain_prefix(tasks, order.drop_last(), inputs.drop_last(), if m < n {
            m
        } else {
            n - 1
        });
        if m < n {
            assert(order.drop_last().take(m) =~= order.take(m));
            assert(inputs.drop_last().take(m) =~= inputs.take(m));
        } else {
            assert(order.take(m) =~= order);
            assert(inputs.take(m) =~= inputs);
        }
        assert(chained_hashes(tasks, order, inputs).take(m) =~= if m < n {
            chained_hashes(tasks, order.drop_last(), inputs.drop_last()).take(m)
        } else {
            chained_hashes(tasks, order, inputs)
        });
    } else {
        assert(order.take(m) =~= order);
        assert(inputs.take(m) =~= inputs);
    }
}

/// The `k`-th hash of `chained_hashes`, from the hashes before it.
proof fn lemma_chain_at(tasks: &TaskMap, order: Seq<Seq<char>>, inputs: Seq<Seq<char>>, k: int)
    requires
        0 <= k < order.len(),
        inputs.len() == order.len(),
    ensures
        chained_hashes(tasks, order, inputs)[k] == digest_of(
            task_text(
                task_named(tasks, order[k]).command@,
                inputs[k],
                dep_pairs(
                    order,
                    chained_hashes(tasks, order, inputs),
                    k,
                    task_named(tasks, order[k]).dep_names(),
                ),
            ),
        ),
{
    let full = chained_hashes(tasks, order, inputs);
    lemma_chain_prefix(tasks, order, inputs, k + 1);
    lemma_chain_prefix(tasks, order, inputs, k);
    let o1 = order.take(k + 1);
    let i1 = inputs.take(k + 1);
    assert(o1.drop_last() =~= order.take(k));
    assert(i1.drop_last() =~= inputs.take(k));
    let prev = chained_hashes(tasks, order.take(k), inputs.take(k));
    assert(prev == full.take(k));
    assert(chained_hashes(tasks, o1, i1)[k] == full[k]);
    let deps = task_named(tasks, order[k]).dep_names();
    lemma_pairs_prefix2(o1, prev, order, full, k, deps);
}

/// The hashes of the first `k` tasks of a run as `run_hashed` describes
/// it are those `chained_hashes` computes.
proof fn lemma_agree_upto(s: &Scheduler, tasks: &TaskMap, inputs: Seq<Seq<char>>, k: int)
    requires
        s.wf(),
        run_hashed(s, tasks, inputs),
        deps_first(s.task_names(), s.task_deps()),
        0 <= k <= s.size(),
    ensures
        forall|j: int|
            0 <= j < k ==> (#[trigger] s.results()[j])->0.hash@ == chained_hashes(
                tasks,
                s.task_names(),
                inputs,
            )[j],
    decreases k,
{
    if k > 0 {
        lemma_agree_upto(s, tasks, inputs, k - 1);
        s.lemma_shape();
        let names = s.task_names();
        let full = chained_hashes(tasks, names, inputs);
        let i = k - 1;
        let deps = s.task_deps()[i];
        lemma_chain_prefix(tasks, names, inputs, 0);
        lemma_chain_at(tasks, names, inputs, i);
        assert(deps == task_named(tasks, names[i]).dep_names());
        assert forall|j: int|
            #![trigger deps[j]]
            0 <= j < deps.len() && names.contains(deps[j]) implies {
            let p = slot(names, deps[j]);
            &&& p < i
            &&& s.started()[p]
            &&& s.results()[p] is Some
            &&& s.results()[p]->0.hash@ == full[p]
        } by {
            let p = slot(names, deps[j]);
            assert(s.task_deps()[i][j] == deps[j]);
            assert(p < i);
            assert(0 <= p);
            assert(s.phases()[p] == Phase::Done);
            assert(s.task_ok(p));
            assert(s.results()[p]->0.hash@ == full[p]);
        }
        lemma_pairs_agree(names, full, i, s.started(), s.results(), deps);
        assert(s.results()[i]->0.hash@ == full[i]);
    }
}

/// In a finished run where every task succeeded and every dependency
/// comes before its dependents, each task's result carries the hash
/// `chained_hashes` computes for it without running anything: the hashes
/// that `status`, `why` and `prune` use are those the build gives.
pub proof fn lemma_status_matches_run(s: &Scheduler, tasks: &TaskMap, inputs: Seq<Seq<char>>)
    requires
        s.wf(),
        run_hashed(s, tasks, inputs),
        deps_first(s.task_names(), s.task_deps()),
    ensures
        forall|k: int|
            0 <= k < s.size() ==> (#[trigger] s.results()[k])->0.hash@ == chained_hashes(
                tasks,
                s.task_names(),
                inputs,
            )[k],
{
    lemma_agree_upto(s, tasks, inputs, s.size());
}

/// Where level `a` starts among the names of all levels, one level after
/// the other.
pub open spec fn level_start(levels: Seq<Seq<Seq<char>>>, a: int) -> int {
    flatten(levels.take(a)).len() as int
}

/// The level that position `p` of `flatten(levels)` falls in.
pub open spec fn level_at(levels: Seq<Seq<Seq<char>>>, p: int) -> int
    decreases levels.len(),
{
    if levels.len() == 0 {
        -1
    } else if p < flatten(levels.drop_last()).len() {
        level_at(levels.drop_last(), p)
    } else {
        levels.len() - 1
    }
}

proof fn lemma_start_step(levels: Seq<Seq<Seq<char>>>, a: int)
    requires
        0 <= a < levels.len(),
    ensures
        level_start(levels, a + 1) == level_start(levels, a) + levels[a].len(),
{
    assert(levels.take(a + 1).drop_last() =~= levels.take(a));
    assert(levels.take(a + 1).last() == levels[a]);
}

/// A later level starts after an earlier one ends.
proof fn lemma_start_order(levels: Seq<Seq<Seq<char>>>, a: int, b: int)
    requires
        0 <= a < b <= levels.len(),
    ensures
        level_start(levels, a) + levels[a].len() <= level_start(levels, b),
    decreases b - a,
{
    lemma_start_step(levels, a);
    if a + 1 < b {
        lemma_start_order(levels, a + 1, b);
    }
}

/// Position `p` of `flatten(levels)` holds an element of the level it
/// falls in, at its offset from where that level starts.
proof fn lemma_level_at(levels: Seq<Seq<Seq<char>>>, p: int)
    requires
        0 <= p < flatten(levels).len(),
    ensures
        0 <= level_at(levels, p) < levels.len(),
        level_start(levels, level_at(levels, p)) <= p < level_start(levels, level_at(levels, p))
            + levels[level_at(levels, p)].len(),
        flatten(levels)[p] == levels[level_at(levels, p)][p - level_start(
            levels,
            level_at(levels, p),
        )],
    decreases levels.len(),
{
    let dl = levels.drop_last();
    let n = levels.len() as int;
    if p < flatten(dl).len() {
        lemma_level_at(dl, p);
        let a = level_at(dl, p);
        assert(levels.take(a) =~= dl.take(a));
        assert(levels[a] == dl[a]);
    } else {
        assert(levels.take(n - 1) =~= dl);
    }
}

/// An earlier position does not fall in a later level.
proof fn lemma_level_at_mono(levels: Seq<Seq<Seq<char>>>, p: int, q: int)
    requires
        0 <= p <= q < flatten(levels).len(),
    ensures
        level_at(levels, p) <= level_at(levels, q),
{
    lemma_level_at(levels, p);
    lemma_level_at(levels, q);
    if level_at(levels, q) < level_at(levels, p) {
        lemma_start_order(levels, level_at(levels, q), level_at(levels, p));
    }
}

/// The names of the levels of a schedule occur once each.
proof fn lemma_flatten_distinct(
    names: Seq<Seq<char>>,
    edges: Seq<(int, int)>,
    nodes: Set<int>,
    levels: Seq<Seq<Seq<char>>>,
)
    requires
        distinct_names(names),
        levels_match(names, edges, nodes, levels),
    ensures
        distinct_names(flatten(levels)),
{
    let flat = flatten(levels);
    assert forall|p: int, q: int|
        0 <= p < flat.len() && 0 <= q < flat.len() && p != q implies #[trigger] flat[p]
        != #[trigger] flat[q] by {
        let (x, y) = if p < q {
            (p, q)
        } else {
            (q, p)
        };
        lemma_level_at(levels, x);
        lemma_level_at(levels, y);
        lemma_level_at_mono(levels, x, y);
        let a = level_at(levels, x);
        let b = level_at(levels, y);
        if a == b {
            let s = levels[a];
            assert(strictly_sorted(s));
            let i = x - level_start(levels, a);
            let j = y - level_start(levels, a);
            assert(0 <= i < j < s.len());
            assert(str_lt(s[i], s[j]));
            lemma_str_lt_order(s[i], s[i], s[i]);
        } else {
            if flat[x] == flat[y] {
                assert(levels[a].contains(flat[x]));
                assert(levels[b].contains(flat[x]));
                lemma_one_level(names, edges, nodes, levels, a, b, flat[x]);
            }
        }
    }
}

/// A sequence whose elements occur once each is its own list of first
/// occurrences.
proof fn lemma_first_occurrences_distinct(s: Seq<Seq<char>>)
    requires
        distinct_names(s),
    ensures
        first_occurrences(s) == s,
    decreases s.len(),
{
    if s.len() > 0 {
        let dl = s.drop_last();
        assert forall|i: int, j: int|
            0 <= i < dl.len() && 0 <= j < dl.len() && i != j implies #[trigger] dl[i]
            != #[trigger] dl[j] by {
            assert(dl[i] == s[i] && dl[j] == s[j]);
        }
        lemma_first_occurrences_distinct(dl);
        if dl.contains(s.last()) {
            let i = choose|i: int| 0 <= i < dl.len() && dl[i] == s.last();
            assert(s[i] == s[s.len() - 1]);
        }
        assert(dl.push(s.last()) =~= s);
    } else {
        assert(first_occurrences(s) =~= s);
    }
}

/// A run of the tasks of a schedule of a configuration's graph (whether of
/// all tasks or of one task and what it depends on) lists every dependency
/// that is part of the run before the tasks that depend on it.
pub proof fn lemma_schedule_puts_deps_first(
    config: &BuildConfig,
    g: &BuildGraph,
    nodes: Set<int>,
    levels: Seq<Seq<Seq<char>>>,
    s: &Scheduler,
)
    requires
        deps_known(&config.tasks),
        graph_valid(g.node_names(), g.edges()),
        g.node_names() == config.tasks.names(),
        g.edges() == config_edges(&config.tasks),
        levels_match(g.node_names(), g.edges(), nodes, levels),
        s.task_names() == first_occurrences(flatten(levels)),
        forall|i: int|
            0 <= i < s.size() ==> #[trigger] s.task_deps()[i] == task_named(
                &config.tasks,
                s.task_names()[i],
            ).dep_names(),
    ensures
        deps_first(s.task_names(), s.task_deps()),
{
    let names = g.node_names();
    let edges = g.edges();
    let flat = flatten(levels);
    lemma_flatten_distinct(names, edges, nodes, levels);
    lemma_first_occurrences_distinct(flat);
    assert(s.task_names() == flat);
    config.tasks.lemma_lengths();
    let rn = s.task_names();
    let rd = s.task_deps();
    assert forall|k: int, j: int|
        #![trigger rd[k][j]]
        0 <= k < rn.len() && 0 <= j < rd[k].len() && rn.contains(rd[k][j]) implies slot(
        rn,
        rd[k][j],
    ) < k by {
        let deps = rd[k];
        let d = deps[j];
        let t = flat[k];
        let p = slot(flat, d);
        assert(0 <= p < flat.len() && flat[p] == d);
        lemma_level_at(levels, k);
        lemma_level_at(levels, p);
        let b = level_at(levels, k);
        let a = level_at(levels, p);
        assert(levels[b][k - level_start(levels, b)] == t);
        assert(levels[b].contains(t));
        let v = choose|w: int|
            nodes.contains(w) && names[w] == t && #[trigger] crate::dag::paths::node_level(
                names.len() as int,
                edges,
                w,
            ) == b + 1;
        assert(0 <= v < names.len());
        assert(names.contains(t));
        let q = name_index(names, t);
        assert(0 <= q < names.len() && names[q] == t);
        assert(q == v);
        assert(deps == config.tasks.tasks()[v].dep_names());
        assert(is_dep_position(&config.tasks, v, j));
        assert(dep_known(&config.tasks, v, j));
        assert(names.contains(d));
        let u = name_index(names, d);
        assert(0 <= u < names.len() && names[u] == d);
        lemma_declared_edge(&config.tasks, v, j);
        assert(levels[a][p - level_start(levels, a)] == d);
        assert(levels[a].contains(names[u]));
        assert(levels[b].contains(names[v]));
        lemma_dependency_earlier(names, edges, nodes, levels, u, v, a, b);
        if p >= k {
            lemma_level_at_mono(levels, k, p);
        }
    }
}

/// For a run of a schedule of a configuration's graph, made as
/// `Scheduler::new` makes it: when every task succeeded and each result
/// carries the hash a build computes for it, these are the hashes that
/// `chain_hashes` computes over the schedule's order without running
/// anything, the hashes `status`, `why` and `prune` go by.
pub proof fn lemma_build_matches_status(
    config: &BuildConfig,
    g: &BuildGraph,
    nodes: Set<int>,
    levels: Seq<Seq<Seq<char>>>,
    s: &Scheduler,
    inputs: Seq<Seq<char>>,
)
    requires
        deps_known(&config.tasks),
        graph_valid(g.node_names(), g.edges()),
        g.node_names() == config.tasks.names(),
        g.edges() == config_edges(&config.tasks),
        levels_match(g.node_names(), g.edges(), nodes, levels),
        s.wf(),
        s.task_names() == first_occurrences(flatten(levels)),
        run_hashed(s, &config.tasks, inputs),
    ensures
        s.task_names() == flatten(levels),
        forall|k: int|
            0 <= k < s.size() ==> (#[trigger] s.results()[k])->0.hash@ == chained_hashes(
                &config.tasks,
                flatten(levels),
                inputs,
            )[k],
{
    lemma_flatten_distinct(g.node_names(), g.edges(), nodes, levels);
    lemma_first_occurrences_distinct(flatten(levels));
    lemma_schedule_puts_deps_first(config, g, nodes, levels, s);
    lemma_status_matches_run(s, &config.tasks, inputs);
}

/// Each element of a level is at some position of `flatten(levels)`.
proof fn lemma_in_flatten(levels: Seq<Seq<Seq<char>>>, a: int, j: int)
    requires
        0 <= a < levels.len(),
        0 <= j < levels[a].len(),
    ensures
        level_start(levels, a) + j < flatten(levels).len(),
        flatten(levels)[level_start(levels, a) + j] == levels[a][j],
    decreases levels.len(),
{
    let dl = levels.drop_last();
    let n = levels.len() as int;
    if a < n - 1 {
        lemma_in_flatten(dl, a, j);
        assert(levels.take(a) =~= dl.take(a));
        assert(levels[a] == dl[a]);
    } else {
        assert(levels.take(n - 1) =~= dl);
    }
}

/// All nodes of a graph are closed under its edges.
pub proof fn lemma_all_nodes_closed(n: int, edges: Seq<(int, int)>)
    requires
        crate::dag::paths::edges_in_range(n, edges),
    ensures
        closed_under_deps(edges, crate::dag::schedule::all_nodes(n)),
{
    assert forall|k: int|
        0 <= k < edges.len() && crate::dag::schedule::all_nodes(n).contains(
            #[trigger] edges[k].1,
        ) implies crate::dag::schedule::all_nodes(n).contains(edges[k].0) by {
        assert(crate::dag::paths::edges_in_range(n, edges));
    }
}

/// A task and what it depends on are closed under the edges.
pub proof fn lemma_closure_closed(n: int, edges: Seq<(int, int)>, t: int)
    requires
        crate::dag::paths::edges_in_range(n, edges),
    ensures
        closed_under_deps(edges, crate::dag::schedule::closure_of(n, edges, t)),
{
    let c = crate::dag::schedule::closure_of(n, edges, t);
    assert forall|k: int| 0 <= k < edges.len() && c.contains(#[trigger] edges[k].1) implies c.contains(
        edges[k].0,
    ) by {
        let f = choose|f: nat| #[trigger] crate::dag::paths::reaches_within(edges, t, edges[k].1, f);
        crate::dag::paths::lemma_reaches_extend(edges, t, edges[k].1, f, k);
        assert(crate::dag::paths::reaches_within(edges, t, edges[k].0, f + 1));
        assert(crate::dag::paths::edges_in_range(n, edges));
    }
}

/// In a run of a schedule of a configuration's graph whose nodes are closed
/// under the edges (as those of all tasks, or of one task and what it
/// depends on, are), every dependency of a task of the run is a task of
/// the run.
pub proof fn lemma_schedule_deps_inside(
    config: &BuildConfig,
    g: &BuildGraph,
    nodes: Set<int>,
    levels: Seq<Seq<Seq<char>>>,
    s: &Scheduler,
)
    requires
        deps_known(&config.tasks),
        graph_valid(g.node_names(), g.edges()),
        g.node_names() == config.tasks.names(),
        g.edges() == config_edges(&config.tasks),
        levels_match(g.node_names(), g.edges(), nodes, levels),
        closed_under_deps(g.edges(), nodes),
        s.task_names() == first_occurrences(flatten(levels)),
        forall|i: int|
            0 <= i < s.size() ==> #[trigger] s.task_deps()[i] == task_named(
                &config.tasks,
                s.task_names()[i],
            ).dep_names(),
    ensures
        forall|i: int, j: int|
            #![trigger s.task_deps()[i][j]]
            0 <= i < s.size() && 0 <= j < s.task_deps()[i].len() ==> s.task_names().contains(
                s.task_deps()[i][j],
            ),
{
    let names = g.node_names();
    let edges = g.edges();
    let flat = flatten(levels);
    lemma_flatten_distinct(names, edges, nodes, levels);
    lemma_first_occurrences_distinct(flat);
    config.tasks.lemma_lengths();
    let rd = s.task_deps();
    assert forall|i: int, j: int|
        #![trigger rd[i][j]]
        0 <= i < flat.len() && 0 <= j < rd[i].len() implies flat.contains(rd[i][j]) by {
        let t = flat[i];
        lemma_level_at(levels, i);
        let b = level_at(levels, i);
        assert(levels[b][i - level_start(levels, b)] == t);
        assert(levels[b].contains(t));
        let v = choose|w: int|
            nodes.contains(w) && names[w] == t && #[trigger] crate::dag::paths::node_level(
                names.len() as int,
                edges,
                w,
            ) == b + 1;
        assert(0 <= v < names.len());
        assert(names.contains(t));
        let q = name_index(names, t);
        assert(0 <= q < names.len() && names[q] == t);
        assert(q == v);
        let d = rd[i][j];
        assert(rd[i] == config.tasks.tasks()[v].dep_names());
        assert(is_dep_position(&config.tasks, v, j));
        assert(dep_known(&config.tasks, v, j));
        let u = name_index(names, d);
        assert(names.contains(d));
        assert(0 <= u < names.len() && names[u] == d);
        lemma_declared_edge(&config.tasks, v, j);
        let e = choose|e: int| 0 <= e < edges.len() && #[trigger] edges[e] == (u, v);
        assert(nodes.contains(edges[e].1));
        assert(nodes.contains(u));
        crate::dag::schedule::lemma_every_task_scheduled(names, edges, nodes, levels, u);
        let a = crate::dag::paths::node_level(names.len() as int, edges, u) - 1;
        let jj = choose|jj: int| 0 <= jj < levels[a].len() && levels[a][jj] == names[u];
        lemma_in_flatten(levels, a, jj);
        assert(flat[level_start(levels, a) + jj] == d);
    }
}

/// A run that keeps going over a schedule of a configuration's graph (of
/// all tasks, or of one task and what it depends on), once a step has said
/// `Finish`: every task that did not run depends, directly or through
/// other tasks that did not run, on a task that failed or was skipped.
pub proof fn lemma_keep_going_runs_all_it_can(
    config: &BuildConfig,
    g: &BuildGraph,
    nodes: Set<int>,
    levels: Seq<Seq<Seq<char>>>,
    s: &Scheduler,
    k: int,
)
    requires
        deps_known(&config.tasks),
        graph_valid(g.node_names(), g.edges()),
        g.node_names() == config.tasks.names(),
        g.edges() == config_edges(&config.tasks),
        levels_match(g.node_names(), g.edges(), nodes, levels),
        closed_under_deps(g.edges(), nodes),
        s.task_names() == first_occurrences(flatten(levels)),
        forall|i: int|
            0 <= i < s.size() ==> #[trigger] s.task_deps()[i] == task_named(
                &config.tasks,
                s.task_names()[i],
            ).dep_names(),
        s.wf(),
        s.keeps_going(),
        forall|i: int| 0 <= i < s.size() ==> #[trigger] s.phases()[i] != Phase::Running,
        forall|i: int|
            0 <= i < s.size() ==> !is_ready(s.task_names(), s.task_deps()[i], s.phases(), i),
        0 <= k < s.size(),
        s.phases()[k] == Phase::Waiting,
    ensures
        waits_on_failure(s.task_names(), s.task_deps(), s.phases(), k),
{
    lemma_schedule_deps_inside(config, g, nodes, levels, s);
    lemma_schedule_puts_deps_first(config, g, nodes, levels, s);
    let rn = s.task_names();
    let rd = s.task_deps();
    assert forall|i: int, j: int|
        #![trigger rd[i][j]]
        0 <= i < s.size() && 0 <= j < rd[i].len() implies rn.contains(rd[i][j]) && slot(rn, rd[i][j])
        < i by {
        assert(rn.contains(rd[i][j]));
    }
    lemma_finished_run_complete(s, k);
}

proof fn lemma_total_len_flatten(levels: Seq<Seq<Seq<char>>>)
    ensures
        crate::dag::schedule::total_len(levels) == flatten(levels).len(),
    decreases levels.len(),
{
    if levels.len() > 0 {
        lemma_total_len_flatten(levels.drop_last());
    }
}

/// The schedule of all tasks lists each task of the graph exactly once, so
/// it counts as many tasks as the graph has.
pub proof fn lemma_full_schedule_count(
    names: Seq<Seq<char>>,
    edges: Seq<(int, int)>,
    levels: Seq<Seq<Seq<char>>>,
)
    requires
        graph_valid(names, edges),
        levels_match(names, edges, crate::dag::schedule::all_nodes(names.len() as int), levels),
    ensures
        crate::dag::schedule::total_len(levels) == names.len(),
        distinct_names(flatten(levels)),
        flatten(levels).to_set() == names.to_set(),
{
    let nodes = crate::dag::schedule::all_nodes(names.len() as int);
    let flat = flatten(levels);
    lemma_flatten_distinct(names, edges, nodes, levels);
    assert forall|x: Seq<char>| flat.contains(x) <==> names.contains(x) by {
        if flat.contains(x) {
            let p = choose|p: int| 0 <= p < flat.len() && flat[p] == x;
            lemma_level_at(levels, p);
            let a = level_at(levels, p);
            assert(levels[a][p - level_start(levels, a)] == x);
            assert(levels[a].contains(x));
            let w = choose|w: int|
                nodes.contains(w) && names[w] == x && #[trigger] crate::dag::paths::node_level(
                    names.len() as int,
                    edges,
                    w,
                ) == a + 1;
            assert(0 <= w < names.len());
        }
        if names.contains(x) {
            let v = choose|v: int| 0 <= v < names.len() && names[v] == x;
            assert(nodes.contains(v));
            crate::dag::schedule::lemma_every_task_scheduled(names, edges, nodes, levels, v);
            let a = crate::dag::paths::node_level(names.len() as int, edges, v) - 1;
            let jj = choose|jj: int| 0 <= jj < levels[a].len() && levels[a][jj] == names[v];
            lemma_in_flatten(levels, a, jj);
            assert(flat[level_start(levels, a) + jj] == x);
        }
    }
    assert(flat.to_set() =~= names.to_set());
    flat.unique_seq_to_set();
    names.unique_seq_to_set();
    lemma_total_len_flatten(levels);
}

/// What `why` reports as a task's hash is what `status` reports for it:
/// in the schedule of one task, flattened level by level, the task comes
/// last, and the hash looked up for it among the hashes of the flattened
/// schedule is the last of them.
pub proof fn lemma_why_hash_is_status_hash(
    names: Seq<Seq<char>>,
    edges: Seq<(int, int)>,
    t: int,
    levels: Seq<Seq<Seq<char>>>,
    hashes: Seq<Seq<char>>,
)
    requires
        graph_valid(names, edges),
        0 <= t < names.len(),
        levels_match(names, edges, closure_of(names.len() as int, edges, t), levels),
        hashes.len() == flatten(levels).len(),
    ensures
        flatten(levels).len() > 0,
        flatten(levels).last() == names[t],
        lookup_hash(flatten(levels), hashes, names[t], hashes.len() as int) == Some(hashes.last()),
{
    lemma_task_alone_last(names, edges, t, levels);
    assert(levels.len() > 0);
    let rest = flatten(levels.drop_last());
    assert(flatten(levels) == rest + seq![names[t]]);
    assert((rest + seq![names[t]]).last() == names[t]);
}

} // verus!
