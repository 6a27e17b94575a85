//! Scheduling by levels: level 1 holds the tasks without dependencies,
//! level `k + 1` the tasks whose deepest dependency is on level `k`. The
//! tasks of one level do not depend on each other.
use crate::dag::graph::{graph_valid, BuildGraph};
use crate::config::task::distinct_names;
use crate::dag::paths::{
    depends_on, edges_in_range, has_edge, incoming_sources, is_acyclic, is_topological_order,
    lemma_closed_holds_reach, lemma_incoming_complete, lemma_incoming_sources, lemma_level_bounds,
    lemma_level_recurrence, lemma_position, lemma_reaches_extend, level_within, max_level_of, max_nat,
    node_level,
    position, reaches_within,
};
use crate::text::{ints, lemma_str_lt_order, str_less, str_lt, views};
use vstd::prelude::*;

verus! {

/// A task and its level.
#[derive(Debug, Clone)]
pub struct ScheduledTask {
    pub name: String,
    pub level: usize,
}

/// The tasks to run, level by level; `levels[k]` holds the tasks of level
/// `k + 1`, in ascending order of name.
#[derive(Debug, Clone)]
pub struct Schedule {
    pub levels: Vec<Vec<String>>,
}

/// Each element is smaller than every later one.
pub open spec fn strictly_sorted(s: Seq<Seq<char>>) -> bool {
    forall|i: int, j: int| 0 <= i < j < s.len() ==> str_lt(#[trigger] s[i], #[trigger] s[j])
}

/// The names in each level of a schedule.
pub open spec fn level_views(levels: Seq<Vec<String>>) -> Seq<Seq<Seq<char>>> {
    levels.map_values(|l: Vec<String>| views(l@))
}

/// `levels` lists the nodes of `nodes` by level: level `k + 1` in
/// `levels[k]`, sorted by name, and there are as many levels as the
/// highest level among the nodes.
pub open spec fn levels_match(
    names: Seq<Seq<char>>,
    edges: Seq<(int, int)>,
    nodes: Set<int>,
    levels: Seq<Seq<Seq<char>>>,
) -> bool {
    let n = names.len() as int;
    &&& forall|k: int| 0 <= k < levels.len() ==> strictly_sorted(#[trigger] levels[k])
    &&& forall|k: int, s: Seq<char>|
        0 <= k < levels.len() ==> (#[trigger] levels[k].contains(s) <==> exists|v: int|
            nodes.contains(v) && names[v] == s && #[trigger] node_level(n, edges, v) == k + 1)
    &&& forall|v: int| #[trigger] nodes.contains(v) ==> 0 <= v < n && node_level(n, edges, v) <= levels.len()
    &&& (levels.len() == 0 || exists|v: int|
        nodes.contains(v) && #[trigger] node_level(n, edges, v) == levels.len())
}

/// All nodes of a graph with `n` nodes.
pub open spec fn all_nodes(n: int) -> Set<int> {
    Set::new(|v: int| 0 <= v < n)
}

/// The nodes that `t` depends on, and `t` itself.
pub open spec fn closure_of(n: int, edges: Seq<(int, int)>, t: int) -> Set<int> {
    Set::new(|u: int| 0 <= u < n && depends_on(edges, t, u))
}

impl Schedule {
    /// All tasks of the graph, by level.
    pub fn from_graph(graph: &BuildGraph) -> (s: Schedule)
        ensures
            levels_match(
                graph.node_names(),
                graph.edges(),
                all_nodes(graph.node_names().len() as int),
                level_views(s.levels@),
            ),
    {
        graph.valid();
        let n = graph.task_count();
        let mut mask: Vec<bool> = Vec::new();
        let mut i: usize = 0;
        while i < n
            invariant
                0 <= i <= n,
                mask@.len() == i,
                forall|j: int| 0 <= j < i ==> mask@[j],
            decreases n - i,
        {
            mask.push(true);
            i = i + 1;
        }
        let levels = schedule_levels(graph, &mask);
        proof {
            assert(Set::new(|u: int| 0 <= u < n && mask@[u]) =~= all_nodes(n as int));
        }
        Schedule { levels }
    }

    /// The task `task_name` and all tasks it depends on, directly or not,
    /// by level; no level when no task has that name.
    pub fn for_task(graph: &BuildGraph, task_name: &str) -> (s: Schedule)
        ensures
            levels_match(
                graph.node_names(),
                graph.edges(),
                if graph.node_names().contains(task_name@) {
                    closure_of(
                        graph.node_names().len() as int,
                        graph.edges(),
                        crate::dag::graph::name_index(graph.node_names(), task_name@),
                    )
                } else {
                    Set::empty()
                },
                level_views(s.levels@),
            ),
    {
        graph.valid();
        let n = graph.task_count();
        let visited = collect_deps(graph, task_name);
        let levels = schedule_levels(graph, &visited);
        proof {
            let names = graph.node_names();
            if names.contains(task_name@) {
                assert(Set::new(|u: int| 0 <= u < n && visited@[u]) =~= closure_of(
                    n as int,
                    graph.edges(),
                    crate::dag::graph::name_index(names, task_name@),
                ));
            } else {
                assert(Set::new(|u: int| 0 <= u < n && visited@[u]) =~= Set::<int>::empty());
            }
        }
        Schedule { levels }
    }

    /// The number of scheduled tasks.
    pub fn total_tasks(&self) -> (n: usize)
        requires
            total_len(level_views(self.levels@)) <= usize::MAX,
        ensures
            n == total_len(level_views(self.levels@)),
    {
        let mut total: usize = 0;
        let mut k: usize = 0;
        while k < self.levels.len()
            invariant
                0 <= k <= self.levels@.len(),
                total == total_len(level_views(self.levels@).take(k as int)),
                total_len(level_views(self.levels@)) <= usize::MAX,
            decreases self.levels.len() - k,
        {
            proof {
                let lv = level_views(self.levels@);
                assert(lv.take(k + 1).drop_last() =~= lv.take(k as int));
                lemma_total_len_prefix(lv, k + 1);
            }
            total = total + self.levels[k].len();
            k = k + 1;
        }
        assert(level_views(self.levels@).take(k as int) =~= level_views(self.levels@));
        total
    }
}

/// The number of names over all levels.
pub open spec fn total_len(levels: Seq<Seq<Seq<char>>>) -> nat
    decreases levels.len(),
{
    if levels.len() == 0 {
        0
    } else {
        total_len(levels.drop_last()) + levels.last().len()
    }
}

proof fn lemma_total_len_prefix(levels: Seq<Seq<Seq<char>>>, k: int)
    requires
        0 <= k <= levels.len(),
    ensures
        total_len(levels.take(k)) <= total_len(levels),
    decreases levels.len() - k,
{
    if k < levels.len() {
        lemma_total_len_prefix(levels, k + 1);
        assert(levels.take(k + 1).drop_last() =~= levels.take(k));
    } else {
        assert(levels.take(k) =~= levels);
    }
}

/// The nodes that the task `name` depends on, and its own node: `true` at
/// each of them. All `false` when no task has that name.
fn collect_deps(graph: &BuildGraph, name: &str) -> (visited: Vec<bool>)
    requires
        graph_valid(graph.node_names(), graph.edges()),
    ensures
        visited@.len() == graph.node_names().len(),
        forall|u: int|
            0 <= u < visited@.len() ==> (visited@[u] <==> graph.node_names().contains(name@)
                && depends_on(
                graph.edges(),
                crate::dag::graph::name_index(graph.node_names(), name@),
                u,
            )),
        forall|k: int|
            0 <= k < graph.edges().len() && #[trigger] visited@[graph.edges()[k].1] ==> visited@[graph.edges()[k].0],
{
    let n = graph.task_count();
    let ghost edges = graph.edges();
    let mut visited: Vec<bool> = Vec::new();
    let mut i: usize = 0;
    while i < n
        invariant
            0 <= i <= n,
            visited@.len() == i,
            forall|j: int| 0 <= j < i ==> !visited@[j],
        decreases n - i,
    {
        visited.push(false);
        i = i + 1;
    }
    let start = match graph.node_index(name) {
        Some(t) => t,
        None => {
            proof {
                assert forall|k: int|
                    0 <= k < edges.len() && #[trigger] visited@[edges[k].1] implies visited@[edges[k].0] by {
                    assert(0 <= edges[k].0 < n && 0 <= edges[k].1 < n);
                }
            }
            return visited;
        },
    };
    let ghost t = start as int;
    assert(t == crate::dag::graph::name_index(graph.node_names(), name@));
    visited.set(start, true);
    assert(reaches_within(edges, t, t, 0));
    let ord = graph.topo_indices();
    let ghost o = ints(ord@);
    proof {
        assert forall|k: int| 0 <= k < edges.len() implies position(o, #[trigger] edges[k].1) < n by {
            assert(0 <= edges[k].0 < n && 0 <= edges[k].1 < n);
            lemma_position(n as int, edges, o, edges[k].1);
        }
    }
    // Walk the order backwards: a node is visited before any of its
    // dependencies is reached, so its dependencies are marked in time.
    let mut p: usize = n;
    while p > 0
        invariant
            n == graph.node_names().len(),
            edges == graph.edges(),
            graph_valid(graph.node_names(), edges),
            is_topological_order(n as int, edges, o),
            o == ints(ord@),
            0 <= t < n,
            0 <= p <= n,
            visited@.len() == n,
            visited@[t],
            forall|u: int| 0 <= u < n && #[trigger] visited@[u] ==> depends_on(edges, t, u),
            forall|k: int|
                0 <= k < edges.len() && #[trigger] visited@[edges[k].1] && position(o, edges[k].1)
                    >= p ==> visited@[edges[k].0],
        decreases p,
    {
        p = p - 1;
        let v = ord[p];
        proof {
            assert(o[p as int] == v as int);
            lemma_position(n as int, edges, o, v as int);
        }
        if visited[v] {
            let ds = graph.incoming(v);
            let ghost src = incoming_sources(edges, v as int);
            proof {
                lemma_incoming_sources(edges, v as int);
            }
            assert(ds@.len() == ints(ds@).len());
            proof {
                assert forall|i: int| 0 <= i < ds@.len() implies #[trigger] ds@[i] < n by {
                    assert(ints(ds@)[i] == ds@[i] as int);
                    let a = src.len() - 1 - i;
                    assert(src.reverse()[i] == src[a]);
                    assert(crate::dag::paths::has_edge(edges, src[a], v as int));
                    let k = choose|k: int| 0 <= k < edges.len() && #[trigger] edges[k] == (src[a], v as int);
                    assert(0 <= edges[k].0 < n && 0 <= edges[k].1 < n);
                }
            }
            let mut j: usize = 0;
            while j < ds.len()
                invariant
                    n == graph.node_names().len(),
                    edges == graph.edges(),
                    graph_valid(graph.node_names(), edges),
                    is_topological_order(n as int, edges, o),
                    0 <= t < n,
                    0 <= v < n,
                    o[p as int] == v,
                    visited@.len() == n,
                    visited@[t],
                    visited@[v as int],
                    ints(ds@) == src.reverse(),
                    ds@.len() == src.len(),
                    forall|i: int| 0 <= i < ds@.len() ==> #[trigger] ds@[i] < n,
                    src == incoming_sources(edges, v as int),
                    forall|i: int|
                        0 <= i < src.len() ==> crate::dag::paths::has_edge(
                            edges,
                            #[trigger] src[i],
                            v as int,
                        ),
                    0 <= j <= ds@.len(),
                    forall|i: int| 0 <= i < j ==> visited@[#[trigger] ds@[i] as int],
                    forall|u: int| 0 <= u < n && #[trigger] visited@[u] ==> depends_on(edges, t, u),
                    forall|k: int|
                        0 <= k < edges.len() && #[trigger] visited@[edges[k].1] && position(
                            o,
                            edges[k].1,
                        ) >= p + 1 ==> visited@[edges[k].0],
                decreases ds.len() - j,
            {
                let d = ds[j];
                proof {
                    assert(ints(ds@)[j as int] == d as int);
                    let i = src.len() - 1 - j;
                    assert(src.reverse()[j as int] == src[i]);
                    assert(crate::dag::paths::has_edge(edges, src[i], v as int));
                    let k = choose|k: int| 0 <= k < edges.len() && #[trigger] edges[k] == (d as int, v as int);
                    assert(0 <= edges[k].0 < n && 0 <= edges[k].1 < n);
                    crate::dag::paths::lemma_edge_increases(n as int, edges, o, d as int, v as int);
                    let f = choose|f: nat| #[trigger] reaches_within(edges, t, v as int, f);
                    lemma_reaches_extend(edges, t, v as int, f, k);
                    assert(reaches_within(edges, t, d as int, f + 1));
                }
                let ghost old_visited = visited@;
                visited.set(d, true);
                proof {
                    assert forall|i: int| 0 <= i < j + 1 implies visited@[#[trigger] ds@[i] as int] by {
                        if i < j {
                            assert(old_visited[ds@[i] as int]);
                        } else {
                            assert(ds@[j as int] == d);
                            assert(visited@[d as int]);
                        }
                    }
                }
                j = j + 1;
            }
            proof {
                assert forall|k: int|
                    0 <= k < edges.len() && #[trigger] visited@[edges[k].1] && position(
                        o,
                        edges[k].1,
                    ) >= p implies visited@[edges[k].0] by {
                    if position(o, edges[k].1) == p {
                        assert(0 <= edges[k].0 < n && 0 <= edges[k].1 < n);
                        lemma_position(n as int, edges, o, edges[k].1);
                        assert(edges[k].1 == v);
                        lemma_incoming_complete(edges, v as int, k);
                        let i = choose|i: int| 0 <= i < src.len() && src[i] == edges[k].0;
                        let jj = src.len() - 1 - i;
                        assert(src.reverse()[jj] == src[i]);
                        assert(ints(ds@)[jj] == ds@[jj] as int);
                    }
                }
            }
        } else {
            proof {
                assert forall|k: int|
                    0 <= k < edges.len() && #[trigger] visited@[edges[k].1] && position(
                        o,
                        edges[k].1,
                    ) >= p implies visited@[edges[k].0] by {
                    if position(o, edges[k].1) == p {
                        assert(0 <= edges[k].0 < n && 0 <= edges[k].1 < n);
                        lemma_position(n as int, edges, o, edges[k].1);
                    }
                }
            }
        }
    }
    proof {
        assert forall|k: int| 0 <= k < edges.len() && #[trigger] visited@[edges[k].1] implies visited@[edges[k].0] by {
            assert(0 <= edges[k].0 < n && 0 <= edges[k].1 < n);
            lemma_position(n as int, edges, o, edges[k].1);
        }
        assert forall|u: int| 0 <= u < n && depends_on(edges, t, u) implies visited@[u] by {
            let f = choose|f: nat| #[trigger] reaches_within(edges, t, u, f);
            lemma_closed_holds_reach(edges, visited@, t, u, f);
        }
    }
    visited
}

/// The levels of the nodes marked in `mask`, which holds the dependencies
/// of every node it holds.
fn schedule_levels(graph: &BuildGraph, mask: &Vec<bool>) -> (levels: Vec<Vec<String>>)
    requires
        graph_valid(graph.node_names(), graph.edges()),
        mask@.len() == graph.node_names().len(),
        forall|k: int|
            0 <= k < graph.edges().len() && #[trigger] mask@[graph.edges()[k].1] ==> mask@[graph.edges()[k].0],
    ensures
        levels_match(
            graph.node_names(),
            graph.edges(),
            Set::new(|u: int| 0 <= u < graph.node_names().len() && mask@[u]),
            level_views(levels@),
        ),
{
    let n = graph.task_count();
    let ghost names = graph.node_names();
    let ghost edges = graph.edges();
    let ghost nodes = Set::new(|u: int| 0 <= u < n && mask@[u]);
    let ord = graph.topo_indices();
    let ghost o = ints(ord@);
    let mut level: Vec<usize> = Vec::new();
    let mut i: usize = 0;
    while i < n
        invariant
            0 <= i <= n,
            level@.len() == i,
        decreases n - i,
    {
        level.push(0);
        i = i + 1;
    }
    let mut p: usize = 0;
    while p < n
        invariant
            n == names.len(),
            names == graph.node_names(),
            edges == graph.edges(),
            graph_valid(names, edges),
            is_topological_order(n as int, edges, o),
            o == ints(ord@),
            mask@.len() == n,
            forall|k: int| 0 <= k < edges.len() && #[trigger] mask@[edges[k].1] ==> mask@[edges[k].0],
            0 <= p <= n,
            level@.len() == n,
            forall|q: int|
                0 <= q < p && mask@[o[q]] ==> #[trigger] level@[o[q]] == node_level(
                    n as int,
                    edges,
                    o[q],
                ),
        decreases n - p,
    {
        let v = ord[p];
        proof {
            assert(o[p as int] == v as int);
            lemma_position(n as int, edges, o, v as int);
        }
        if mask[v] {
            let ds = graph.incoming(v);
            let ghost src = incoming_sources(edges, v as int);
            proof {
                lemma_incoming_sources(edges, v as int);
                lemma_level_bounds(n as int, edges, o, v as int);
                lemma_level_recurrence(n as int, edges, v as int);
            }
            assert(ds@.len() == ints(ds@).len());
            let mut acc: usize = 0;
            let mut j: usize = ds.len();
            while j > 0
                invariant
                    n == names.len(),
                    edges == graph.edges(),
                    graph_valid(names, edges),
                    is_topological_order(n as int, edges, o),
                    mask@.len() == n,
                    forall|k: int| 0 <= k < edges.len() && #[trigger] mask@[edges[k].1] ==> mask@[edges[k].0],
                    0 <= v < n,
                    mask@[v as int],
                    position(o, v as int) == p,
                    level@.len() == n,
                    o == ints(ord@),
                    o[p as int] == v,
                    forall|q: int|
                        0 <= q < p && mask@[o[q]] ==> #[trigger] level@[o[q]] == node_level(
                            n as int,
                            edges,
                            o[q],
                        ),
                    ints(ds@) == src.reverse(),
                    ds@.len() == src.len(),
                    src == incoming_sources(edges, v as int),
                    forall|i: int|
                        0 <= i < src.len() ==> crate::dag::paths::has_edge(
                            edges,
                            #[trigger] src[i],
                            v as int,
                        ),
                    0 <= j <= ds@.len(),
                    acc == max_level_of(edges, src.take(src.len() - j), n as nat),
                decreases j,
            {
                j = j - 1;
                let d = ds[j];
                let ghost i = src.len() - 1 - j;
                proof {
                    assert(ints(ds@)[j as int] == d as int);
                    assert(src.reverse()[j as int] == src[i]);
                    let k = choose|k: int| 0 <= k < edges.len() && #[trigger] edges[k] == (d as int, v as int);
                    assert(0 <= edges[k].0 < n && 0 <= edges[k].1 < n);
                    assert(mask@[edges[k].1]);
                    crate::dag::paths::lemma_edge_increases(n as int, edges, o, d as int, v as int);
                    lemma_level_bounds(n as int, edges, o, d as int);
                    lemma_position(n as int, edges, o, d as int);
                    let q = position(o, d as int);
                    assert(o[q] == d);
                    assert(level@[o[q]] == node_level(n as int, edges, o[q]));
                    assert(src.take(i + 1).drop_last() =~= src.take(i));
                }
                if mask[d] {
                    if level[d] > acc {
                        acc = level[d];
                    }
                }
            }
            proof {
                assert(src.take(src.len() as int) =~= src);
            }
            level.set(v, acc + 1);
            proof {
                assert forall|q: int|
                    0 <= q < p + 1 && mask@[o[q]] implies #[trigger] level@[o[q]] == node_level(
                    n as int,
                    edges,
                    o[q],
                ) by {
                    if q < p {
                        assert(o[q] != o[p as int]);
                    }
                }
            }
        } else {
            proof {
                assert forall|q: int|
                    0 <= q < p + 1 && mask@[o[q]] implies #[trigger] level@[o[q]] == node_level(
                    n as int,
                    edges,
                    o[q],
                ) by {
                    if q == p {
                        assert(!mask@[o[q]]);
                    }
                }
            }
        }
        p = p + 1;
    }
    proof {
        assert forall|u: int| 0 <= u < n && mask@[u] implies #[trigger] level@[u] == node_level(
            n as int,
            edges,
            u,
        ) by {
            lemma_position(n as int, edges, o, u);
            let q = position(o, u);
            assert(o[q] == u);
        }
        assert forall|u: int| 0 <= u < n && mask@[u] implies level@[u] <= n by {
            lemma_level_bounds(n as int, edges, o, u);
        }
    }
    // The highest level.
    let mut top: usize = 0;
    let mut u: usize = 0;
    let ghost lv = level@;
    while u < n
        invariant
            n == names.len(),
            level@.len() == n,
            mask@.len() == n,
            0 <= u <= n,
            top <= n,
            forall|w: int| 0 <= w < n && mask@[w] ==> level@[w] <= n,
            forall|w: int| 0 <= w < u && mask@[w] ==> level@[w] <= top,
            top == 0 || exists|w: int| 0 <= w < u && mask@[w] && level@[w] == top,
        decreases n - u,
    {
        if mask[u] && level[u] > top {
            top = level[u];
        }
        u = u + 1;
    }
    let mut levels: Vec<Vec<String>> = Vec::new();
    let mut k: usize = 0;
    while k < top
        invariant
            n == names.len(),
            names == graph.node_names(),
            graph_valid(names, edges),
            level@.len() == n,
            mask@.len() == n,
            0 <= k <= top,
            top <= n,
            nodes == Set::new(|u: int| 0 <= u < n && mask@[u]),
            edges == graph.edges(),
            levels@.len() == k,
            forall|u: int|
                0 <= u < n && mask@[u] ==> #[trigger] level@[u] == node_level(n as int, edges, u),
            forall|a: int| 0 <= a < k ==> strictly_sorted(#[trigger] level_views(levels@)[a]),
            forall|a: int, s: Seq<char>|
                0 <= a < k ==> (#[trigger] level_views(levels@)[a].contains(s) <==> exists|v: int|
                    nodes.contains(v) && names[v] == s && #[trigger] node_level(n as int, edges, v)
                        == a + 1),
        decreases top - k,
    {
        let mut members: Vec<String> = Vec::new();
        let ghost mut idx: Seq<int> = Seq::empty();
        let mut v: usize = 0;
        while v < n
            invariant
                n == names.len(),
                names == graph.node_names(),
                graph_valid(names, edges),
                level@.len() == n,
                mask@.len() == n,
                k < top,
                top <= n,
                0 <= v <= n,
                idx.len() == members@.len(),
                forall|a: int|
                    0 <= a < idx.len() ==> 0 <= #[trigger] idx[a] < v && views(members@)[a]
                        == names[idx[a]],
                forall|a: int, b: int| 0 <= a < b < idx.len() ==> idx[a] < idx[b],
                forall|s: Seq<char>|
                    #[trigger] views(members@).contains(s) <==> exists|w: int|
                        0 <= w < v && mask@[w] && names[w] == s && level@[w] == k + 1,
            decreases n - v,
        {
            if mask[v] && level[v] == k + 1 {
                let name = graph.name_of(v);
                let ghost before = views(members@);
                members.push(name);
                proof {
                    idx = idx.push(v as int);
                    assert(views(members@) =~= before.push(names[v as int]));
                    assert forall|s: Seq<char>| #[trigger] views(members@).contains(s) <==> exists|w: int|
                        0 <= w < v + 1 && mask@[w] && names[w] == s && level@[w] == k + 1 by {
                        if views(members@).contains(s) {
                            if s == names[v as int] {
                                assert(0 <= v < v + 1 && mask@[v as int] && names[v as int] == s
                                    && level@[v as int] == k + 1);
                            } else {
                                let i = choose|i: int| 0 <= i < views(members@).len() && views(members@)[i] == s;
                                assert(before[i] == s);
                                assert(before.contains(s));
                                let w = choose|w: int| 0 <= w < v && mask@[w] && names[w] == s && level@[w] == k + 1;
                                assert(0 <= w < v + 1);
                            }
                        }
                        if exists|w: int| 0 <= w < v + 1 && mask@[w] && names[w] == s && level@[w] == k + 1 {
                            let w = choose|w: int| 0 <= w < v + 1 && mask@[w] && names[w] == s && level@[w] == k + 1;
                            if w == v {
                                assert(views(members@)[before.len() as int] == s);
                            } else {
                                assert(before.contains(s));
                                let i = choose|i: int| 0 <= i < before.len() && before[i] == s;
                                assert(views(members@)[i] == s);
                            }
                        }
                    }
                    assert forall|a: int|
                        0 <= a < idx.len() implies 0 <= #[trigger] idx[a] < v + 1 && views(members@)[a]
                            == names[idx[a]] by {
                        if a < idx.len() - 1 {
                            assert(before[a] == views(members@)[a]);
                        }
                    }
                }
            } else {
                proof {
                    assert forall|s: Seq<char>| #[trigger] views(members@).contains(s) <==> exists|w: int|
                        0 <= w < v + 1 && mask@[w] && names[w] == s && level@[w] == k + 1 by {
                        if exists|w: int| 0 <= w < v + 1 && mask@[w] && names[w] == s && level@[w] == k + 1 {
                            let w = choose|w: int| 0 <= w < v + 1 && mask@[w] && names[w] == s && level@[w] == k + 1;
                            assert(w != v);
                        }
                        if views(members@).contains(s) {
                            let w = choose|w: int| 0 <= w < v && mask@[w] && names[w] == s && level@[w] == k + 1;
                            assert(0 <= w < v + 1);
                        }
                    }
                }
            }
            v = v + 1;
        }
        proof {
            assert forall|a: int, b: int| 0 <= a < b < members@.len() implies views(members@)[a]
                != views(members@)[b] by {
                assert(idx[a] < idx[b]);
                assert(0 <= idx[b] < n);
            }
        }
        let sorted = sort_names(members);
        let ghost before = level_views(levels@);
        levels.push(sorted);
        proof {
            assert(level_views(levels@) =~= before.push(views(sorted@)));
            assert forall|s: Seq<char>| views(sorted@).contains(s) <==> exists|w: int|
                nodes.contains(w) && names[w] == s && #[trigger] node_level(n as int, edges, w) == k + 1 by {
                if exists|w: int| nodes.contains(w) && names[w] == s && #[trigger] node_level(n as int, edges, w) == k + 1 {
                    let w = choose|w: int| nodes.contains(w) && names[w] == s && #[trigger] node_level(n as int, edges, w) == k + 1;
                    assert(level@[w] == node_level(n as int, edges, w));
                }
            }
            assert forall|a: int| 0 <= a < k + 1 implies strictly_sorted(#[trigger] level_views(levels@)[a]) by {
                if a < k {
                    assert(level_views(levels@)[a] == before[a]);
                }
            }
            assert forall|a: int, s: Seq<char>| 0 <= a < k + 1 implies (#[trigger] level_views(levels@)[a].contains(s) <==> exists|v: int|
                    nodes.contains(v) && names[v] == s && #[trigger] node_level(n as int, edges, v) == a + 1) by {
                if a < k {
                    assert(level_views(levels@)[a] == before[a]);
                }
            }
        }
        k = k + 1;
    }
    proof {
        assert forall|v: int| #[trigger] nodes.contains(v) implies 0 <= v < n && node_level(n as int, edges, v) <= top by {
            assert(level@[v] == node_level(n as int, edges, v));
        }
        if top != 0 {
            let w = choose|w: int| 0 <= w < n && mask@[w] && level@[w] == top;
            assert(level@[w] == node_level(n as int, edges, w));
            assert(nodes.contains(w));
        }
    }
    levels
}

/// The names in ascending order. The input names are distinct.
fn sort_names(items: Vec<String>) -> (r: Vec<String>)
    requires
        forall|a: int, b: int| 0 <= a < b < items@.len() ==> views(items@)[a] != views(items@)[b],
    ensures
        strictly_sorted(views(r@)),
        forall|s: Seq<char>| #[trigger] views(r@).contains(s) <==> views(items@).contains(s),
{
    let mut r: Vec<String> = Vec::new();
    let mut i: usize = 0;
    while i < items.len()
        invariant
            forall|a: int, b: int| 0 <= a < b < items@.len() ==> views(items@)[a] != views(items@)[b],
            0 <= i <= items@.len(),
            strictly_sorted(views(r@)),
            forall|s: Seq<char>| #[trigger] views(r@).contains(s) <==> views(items@).take(i as int).contains(s),
        decreases items.len() - i,
    {
        let x = items[i].clone();
        assert(x@ == views(items@)[i as int]);
        let mut pos: usize = 0;
        while pos < r.len() && !str_less(x.as_str(), r[pos].as_str())
            invariant
                forall|a: int, b: int| 0 <= a < b < items@.len() ==> views(items@)[a] != views(items@)[b],
                0 <= i < items@.len(),
                x@ == views(items@)[i as int],
                strictly_sorted(views(r@)),
                forall|s: Seq<char>| #[trigger] views(r@).contains(s) <==> views(items@).take(i as int).contains(s),
                0 <= pos <= r@.len(),
                forall|a: int| 0 <= a < pos ==> !str_lt(x@, #[trigger] views(r@)[a]),
            decreases r.len() - pos,
        {
            pos = pos + 1;
        }
        let ghost before = views(r@);
        proof {
            // `x` is new: the names are distinct.
            if before.contains(x@) {
                assert(views(items@).take(i as int).contains(x@));
                let a = choose|a: int| 0 <= a < i && views(items@).take(i as int)[a] == x@;
                assert(views(items@)[a] == views(items@)[i as int]);
            }
        }
        r.insert(pos, x);
        proof {
            let after = views(r@);
            assert(after =~= before.insert(pos as int, x@));
            assert forall|a: int, b: int| 0 <= a < b < after.len() implies str_lt(#[trigger] after[a], #[trigger] after[b]) by {
                if a < pos && b == pos {
                    lemma_str_lt_order(before[a], x@, x@);
                    assert(before[a] != x@);
                } else if a == pos && b > pos {
                    if pos < before.len() {
                        assert(str_lt(x@, before[pos as int]));
                        if b - 1 > pos {
                            lemma_str_lt_order(x@, before[pos as int], before[b - 1]);
                        }
                    }
                } else if a < pos && b > pos {
                    assert(before[a] == after[a] && before[b - 1] == after[b]);
                } else if b < pos {
                    assert(before[a] == after[a] && before[b] == after[b]);
                } else {
                    assert(before[a - 1] == after[a] && before[b - 1] == after[b]);
                }
            }
            assert(views(items@).take(i + 1) =~= views(items@).take(i as int).push(x@));
            let prefix = views(items@).take(i as int);
            assert forall|s: Seq<char>| #[trigger] after.contains(s) <==> views(items@).take(i + 1).contains(s) by {
                if after.contains(s) {
                    let a = choose|a: int| 0 <= a < after.len() && after[a] == s;
                    if a < pos {
                        assert(before[a] == s);
                        assert(before.contains(s));
                    } else if a > pos {
                        assert(before[a - 1] == s);
                        assert(before.contains(s));
                    }
                    if s == x@ {
                        assert(views(items@).take(i + 1)[i as int] == s);
                    } else {
                        assert(prefix.contains(s));
                        let b = choose|b: int| 0 <= b < prefix.len() && prefix[b] == s;
                        assert(views(items@).take(i + 1)[b] == s);
                    }
                }
                if views(items@).take(i + 1).contains(s) {
                    let full = views(items@).take(i + 1);
                    let b = choose|b: int| 0 <= b < full.len() && full[b] == s;
                    if b == i {
                        assert(after[pos as int] == s);
                    } else {
                        assert(prefix[b] == s);
                        assert(before.contains(s));
                        let a = choose|a: int| 0 <= a < before.len() && before[a] == s;
                        if a < pos {
                            assert(after[a] == s);
                        } else {
                            assert(after[a + 1] == s);
                        }
                    }
                }
            }
        }
        i = i + 1;
    }
    proof {
        assert(views(items@).take(items@.len() as int) =~= views(items@));
    }
    r
}

/// The node behind a name on a level is the node of that name, and the
/// level is its own.
proof fn lemma_on_level(
    names: Seq<Seq<char>>,
    edges: Seq<(int, int)>,
    nodes: Set<int>,
    levels: Seq<Seq<Seq<char>>>,
    k: int,
    v: int,
)
    requires
        distinct_names(names),
        levels_match(names, edges, nodes, levels),
        0 <= k < levels.len(),
        0 <= v < names.len(),
        levels[k].contains(names[v]),
    ensures
        nodes.contains(v),
        node_level(names.len() as int, edges, v) == k + 1,
{
    let w = choose|w: int|
        nodes.contains(w) && names[w] == names[v] && #[trigger] node_level(
            names.len() as int,
            edges,
            w,
        ) == k + 1;
    assert(0 <= w < names.len());
    assert(w == v);
}

/// A task is on one level of a schedule only.
pub proof fn lemma_one_level(
    names: Seq<Seq<char>>,
    edges: Seq<(int, int)>,
    nodes: Set<int>,
    levels: Seq<Seq<Seq<char>>>,
    k1: int,
    k2: int,
    s: Seq<char>,
)
    requires
        distinct_names(names),
        levels_match(names, edges, nodes, levels),
        0 <= k1 < levels.len(),
        0 <= k2 < levels.len(),
        levels[k1].contains(s),
        levels[k2].contains(s),
    ensures
        k1 == k2,
{
    let w1 = choose|w: int|
        nodes.contains(w) && names[w] == s && #[trigger] node_level(names.len() as int, edges, w)
            == k1 + 1;
    let w2 = choose|w: int|
        nodes.contains(w) && names[w] == s && #[trigger] node_level(names.len() as int, edges, w)
            == k2 + 1;
    assert(0 <= w1 < names.len() && 0 <= w2 < names.len());
    assert(w1 == w2);
}

/// Every task that a schedule is for is on a level: the level of its node.
pub proof fn lemma_every_task_scheduled(
    names: Seq<Seq<char>>,
    edges: Seq<(int, int)>,
    nodes: Set<int>,
    levels: Seq<Seq<Seq<char>>>,
    v: int,
)
    requires
        levels_match(names, edges, nodes, levels),
        nodes.contains(v),
    ensures
        1 <= node_level(names.len() as int, edges, v) <= levels.len(),
        levels[node_level(names.len() as int, edges, v) - 1].contains(names[v]),
{
    let n = names.len() as int;
    let k = node_level(n, edges, v) - 1;
    assert(0 <= v < n);
    assert(node_level(n, edges, v) >= 1);
    assert(exists|w: int| nodes.contains(w) && names[w] == names[v] && #[trigger] node_level(n, edges, w) == k + 1);
}

/// A dependency is on an earlier level than the task that depends on it.
pub proof fn lemma_dependency_earlier(
    names: Seq<Seq<char>>,
    edges: Seq<(int, int)>,
    nodes: Set<int>,
    levels: Seq<Seq<Seq<char>>>,
    u: int,
    v: int,
    k1: int,
    k2: int,
)
    requires
        graph_valid(names, edges),
        levels_match(names, edges, nodes, levels),
        has_edge(edges, u, v),
        0 <= k1 < levels.len(),
        0 <= k2 < levels.len(),
        levels[k1].contains(names[u]),
        levels[k2].contains(names[v]),
    ensures
        k1 < k2,
{
    let n = names.len() as int;
    let e = choose|e: int| 0 <= e < edges.len() && #[trigger] edges[e] == (u, v);
    assert(0 <= u < n && 0 <= v < n) by {
        assert(edges_in_range(n, edges));
    }
    lemma_on_level(names, edges, nodes, levels, k1, u);
    lemma_on_level(names, edges, nodes, levels, k2, v);
    lemma_incoming_complete(edges, v, e);
    lemma_level_recurrence(n, edges, v);
    let i = choose|i: int|
        0 <= i < incoming_sources(edges, v).len() && incoming_sources(edges, v)[i] == u;
    assert(node_level(n, edges, incoming_sources(edges, v)[i]) < node_level(n, edges, v));
}

/// The schedule of part of the graph puts each of its tasks on the level
/// the schedule of the whole graph puts it on.
pub proof fn lemma_part_within_whole(
    names: Seq<Seq<char>>,
    edges: Seq<(int, int)>,
    part: Set<int>,
    whole_levels: Seq<Seq<Seq<char>>>,
    part_levels: Seq<Seq<Seq<char>>>,
    k: int,
    s: Seq<char>,
)
    requires
        levels_match(names, edges, all_nodes(names.len() as int), whole_levels),
        levels_match(names, edges, part, part_levels),
        0 <= k < part_levels.len(),
        part_levels[k].contains(s),
    ensures
        k < whole_levels.len(),
        whole_levels[k].contains(s),
{
    let n = names.len() as int;
    let w = choose|w: int|
        part.contains(w) && names[w] == s && #[trigger] node_level(n, edges, w) == k + 1;
    assert(0 <= w < n);
    assert(all_nodes(n).contains(w));
    assert(node_level(n, edges, w) <= whole_levels.len());
}

/// The largest level among some nodes is the level of one of them.
proof fn lemma_max_attained(edges: Seq<(int, int)>, ds: Seq<int>, fuel: nat)
    requires
        ds.len() > 0,
    ensures
        exists|i: int|
            0 <= i < ds.len() && level_within(edges, #[trigger] ds[i], fuel) == max_level_of(
                edges,
                ds,
                fuel,
            ),
    decreases ds.len(),
{
    let d = ds.drop_last();
    if d.len() > 0 {
        lemma_max_attained(edges, d, fuel);
        let i = choose|i: int|
            0 <= i < d.len() && level_within(edges, #[trigger] d[i], fuel) == max_level_of(edges, d, fuel);
        assert(ds[i] == d[i]);
        if max_level_of(edges, ds, fuel) != max_level_of(edges, d, fuel) {
            assert(ds[ds.len() - 1] == ds.last());
        }
    } else {
        assert(max_level_of(edges, d, fuel) == 0);
        assert(ds[ds.len() - 1] == ds.last());
    }
}

/// A node above level 1 has a dependency one level below it.
pub proof fn lemma_level_below(n: int, edges: Seq<(int, int)>, v: int)
    requires
        is_acyclic(n, edges),
        edges_in_range(n, edges),
        0 <= v < n,
        node_level(n, edges, v) > 1,
    ensures
        exists|k: int|
            0 <= k < edges.len() && #[trigger] edges[k].1 == v && node_level(n, edges, edges[k].0)
                == node_level(n, edges, v) - 1,
{
    lemma_level_recurrence(n, edges, v);
    let ds = incoming_sources(edges, v);
    if ds.len() == 0 {
        assert(max_level_of(edges, ds, n as nat) == 0);
    } else {
        lemma_max_attained(edges, ds, n as nat);
        let i = choose|i: int|
            0 <= i < ds.len() && level_within(edges, #[trigger] ds[i], n as nat) == max_level_of(
                edges,
                ds,
                n as nat,
            );
        lemma_incoming_sources(edges, v);
        assert(crate::dag::paths::has_edge(edges, ds[i], v));
        let k = choose|k: int| 0 <= k < edges.len() && #[trigger] edges[k] == (ds[i], v);
        assert(edges[k].1 == v);
    }
}

/// Following dependencies does not climb: what a node depends on is on a
/// level no higher, and lower unless it is the node itself.
pub proof fn lemma_reach_level(n: int, edges: Seq<(int, int)>, v: int, u: int, f: nat)
    requires
        is_acyclic(n, edges),
        edges_in_range(n, edges),
        0 <= v < n,
        reaches_within(edges, v, u, f),
    ensures
        0 <= u < n,
        node_level(n, edges, u) <= node_level(n, edges, v),
        u != v ==> node_level(n, edges, u) < node_level(n, edges, v),
    decreases f,
{
    if u != v {
        let k = choose|k: int|
            0 <= k < edges.len() && #[trigger] edges[k].1 == v && reaches_within(
                edges,
                edges[k].0,
                u,
                (f - 1) as nat,
            );
        let w = edges[k].0;
        assert(0 <= w < n);
        lemma_reach_level(n, edges, w, u, (f - 1) as nat);
        lemma_incoming_complete(edges, v, k);
        lemma_level_recurrence(n, edges, v);
        let i = choose|i: int|
            0 <= i < incoming_sources(edges, v).len() && incoming_sources(edges, v)[i] == w;
        assert(node_level(n, edges, incoming_sources(edges, v)[i]) < node_level(n, edges, v));
    }
}

/// The schedule of one task ends with a level that holds that task alone,
/// and has as many levels as the task's level.
pub proof fn lemma_task_alone_last(
    names: Seq<Seq<char>>,
    edges: Seq<(int, int)>,
    t: int,
    levels: Seq<Seq<Seq<char>>>,
)
    requires
        graph_valid(names, edges),
        0 <= t < names.len(),
        levels_match(names, edges, closure_of(names.len() as int, edges, t), levels),
    ensures
        levels.len() == node_level(names.len() as int, edges, t),
        levels.last() == seq![names[t]],
{
    let n = names.len() as int;
    let c = closure_of(n, edges, t);
    assert(reaches_within(edges, t, t, 0));
    assert(c.contains(t));
    lemma_level_bounds_any(n, edges, t);
    let len = levels.len() as int;
    assert(len > 0);
    let w = choose|w: int| c.contains(w) && #[trigger] node_level(n, edges, w) == len;
    let fw = choose|f: nat| #[trigger] reaches_within(edges, t, w, f);
    lemma_reach_level(n, edges, t, w, fw);
    assert(len == node_level(n, edges, t));
    let last = levels[len - 1];
    assert(last.contains(names[t])) by {
        assert(c.contains(t) && names[t] == names[t] && node_level(n, edges, t) == (len - 1) + 1);
    }
    assert forall|x: int| 0 <= x < last.len() implies last[x] == names[t] by {
        assert(last.contains(last[x]));
        let u = choose|u: int|
            c.contains(u) && names[u] == last[x] && #[trigger] node_level(n, edges, u) == (len - 1)
                + 1;
        let fu = choose|f: nat| #[trigger] reaches_within(edges, t, u, f);
        lemma_reach_level(n, edges, t, u, fu);
    }
    assert(strictly_sorted(last));
    if last.len() > 1 {
        assert(str_lt(last[0], last[1]));
        lemma_str_lt_order(last[0], last[0], last[0]);
    }
    assert(levels.last() == last);
    assert(last =~= seq![names[t]]);
}

/// Every node of an acyclic graph is on level 1 or above.
proof fn lemma_level_bounds_any(n: int, edges: Seq<(int, int)>, v: int)
    requires
        is_acyclic(n, edges),
        edges_in_range(n, edges),
        0 <= v < n,
    ensures
        1 <= node_level(n, edges, v),
{
    let ord = choose|ord: Seq<int>| #[trigger] is_topological_order(n, edges, ord);
    lemma_level_bounds(n, edges, ord, v);
}

/// A set of nodes that holds, with each node, the sources of the edges
/// into it.
pub open spec fn closed_under_deps(edges: Seq<(int, int)>, nodes: Set<int>) -> bool {
    forall|k: int|
        0 <= k < edges.len() && nodes.contains(#[trigger] edges[k].1) ==> nodes.contains(
            edges[k].0,
        )
}

/// In a schedule of a set of nodes closed under the edges (all tasks, or a
/// task and what it depends on), no level is empty, and a task above the
/// first level depends on a task of the level just below: each task is on
/// the earliest level its dependencies allow.
pub proof fn lemma_levels_tight(
    names: Seq<Seq<char>>,
    edges: Seq<(int, int)>,
    nodes: Set<int>,
    levels: Seq<Seq<Seq<char>>>,
    v: int,
    a: int,
)
    requires
        graph_valid(names, edges),
        closed_under_deps(edges, nodes),
        levels_match(names, edges, nodes, levels),
        0 <= a < levels.len(),
        nodes.contains(v),
        node_level(names.len() as int, edges, v) > 1,
    ensures
        levels[a].len() > 0,
        exists|k: int|
            0 <= k < edges.len() && #[trigger] edges[k].1 == v && nodes.contains(edges[k].0)
                && node_level(names.len() as int, edges, edges[k].0) == node_level(
                names.len() as int,
                edges,
                v,
            ) - 1,
{
    let n = names.len() as int;
    assert(0 <= v < n);
    lemma_level_below(n, edges, v);
    let k = choose|k: int|
        0 <= k < edges.len() && #[trigger] edges[k].1 == v && node_level(n, edges, edges[k].0)
            == node_level(n, edges, v) - 1;
    assert(nodes.contains(edges[k].0));
    lemma_level_nonempty(names, edges, nodes, levels, a);
}

/// No level of such a schedule is empty.
proof fn lemma_level_nonempty(
    names: Seq<Seq<char>>,
    edges: Seq<(int, int)>,
    nodes: Set<int>,
    levels: Seq<Seq<Seq<char>>>,
    a: int,
)
    requires
        graph_valid(names, edges),
        closed_under_deps(edges, nodes),
        levels_match(names, edges, nodes, levels),
        0 <= a < levels.len(),
    ensures
        levels[a].len() > 0,
{
    let n = names.len() as int;
    let w = choose|w: int| nodes.contains(w) && #[trigger] node_level(n, edges, w) == levels.len();
    lemma_descend(names, edges, nodes, levels, w, a + 1);
    let u = choose|u: int| nodes.contains(u) && #[trigger] node_level(n, edges, u) == a + 1;
    assert(levels[a].contains(names[u]));
}

/// From a node of a closed set, the set has a node on each lower level.
proof fn lemma_descend(
    names: Seq<Seq<char>>,
    edges: Seq<(int, int)>,
    nodes: Set<int>,
    levels: Seq<Seq<Seq<char>>>,
    w: int,
    l: int,
)
    requires
        graph_valid(names, edges),
        closed_under_deps(edges, nodes),
        levels_match(names, edges, nodes, levels),
        nodes.contains(w),
        1 <= l <= node_level(names.len() as int, edges, w),
    ensures
        exists|u: int| nodes.contains(u) && #[trigger] node_level(names.len() as int, edges, u) == l,
    decreases node_level(names.len() as int, edges, w) - l,
{
    let n = names.len() as int;
    if node_level(n, edges, w) > l {
        assert(0 <= w < n);
        lemma_level_below(n, edges, w);
        let k = choose|k: int|
            0 <= k < edges.len() && #[trigger] edges[k].1 == w && node_level(n, edges, edges[k].0)
                == node_level(n, edges, w) - 1;
        assert(nodes.contains(edges[k].0));
        lemma_descend(names, edges, nodes, levels, edges[k].0, l);
    } else {
        assert(nodes.contains(w) && node_level(n, edges, w) == l);
    }
}

} // verus!
