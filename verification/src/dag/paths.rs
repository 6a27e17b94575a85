//! Directed graphs over the nodes `0..n` given by a list of edges
//! `(source, target)`: topological orders, cycles, reachability and the
//! level of a node (the number of nodes on the longest dependency chain
//! that ends in it).
use vstd::prelude::*;

verus! {

/// Every edge joins two of the nodes `0..n`.
pub open spec fn edges_in_range(n: int, edges: Seq<(int, int)>) -> bool {
    forall|k: int| 0 <= k < edges.len() ==> 0 <= #[trigger] edges[k].0 < n && 0 <= edges[k].1 < n
}

/// `ord` lists each node `0..n` exactly once, and the source of every edge
/// before its target.
pub open spec fn is_topological_order(n: int, edges: Seq<(int, int)>, ord: Seq<int>) -> bool {
    &&& ord.len() == n
    &&& forall|i: int| 0 <= i < n ==> 0 <= #[trigger] ord[i] < n
    &&& forall|i: int, j: int| 0 <= i < n && 0 <= j < n && i != j ==> #[trigger] ord[i] != #[trigger] ord[j]
    &&& forall|v: int| 0 <= v < n ==> #[trigger] ord.contains(v)
    &&& forall|k: int, i: int, j: int|
        #![trigger edges[k], ord[i], ord[j]]
        0 <= k < edges.len() && 0 <= i < n && 0 <= j < n && ord[i] == edges[k].0 && ord[j]
            == edges[k].1 ==> i < j
}

/// The graph has a topological order.
pub open spec fn is_acyclic(n: int, edges: Seq<(int, int)>) -> bool {
    exists|ord: Seq<int>| #[trigger] is_topological_order(n, edges, ord)
}

/// Some edge goes from `a` to `b`.
pub open spec fn has_edge(edges: Seq<(int, int)>, a: int, b: int) -> bool {
    exists|k: int| 0 <= k < edges.len() && #[trigger] edges[k] == (a, b)
}

/// Consecutive nodes of `w` are joined by edges.
pub open spec fn is_walk(edges: Seq<(int, int)>, w: Seq<int>) -> bool
    decreases w.len(),
{
    if w.len() <= 1 {
        true
    } else {
        has_edge(edges, w[0], w[1]) && is_walk(edges, w.drop_first())
    }
}

/// A walk of at least one edge leads from `v` back to `v`.
pub open spec fn on_cycle(edges: Seq<(int, int)>, v: int) -> bool {
    exists|w: Seq<int>| #[trigger] is_walk(edges, w) && w.len() >= 2 && w[0] == v && w.last() == v
}

/// The place of node `v` in the order `ord`.
pub open spec fn position(ord: Seq<int>, v: int) -> int {
    choose|i: int| 0 <= i < ord.len() && ord[i] == v
}

pub proof fn lemma_position(n: int, edges: Seq<(int, int)>, ord: Seq<int>, v: int)
    requires
        is_topological_order(n, edges, ord),
        0 <= v < n,
    ensures
        0 <= position(ord, v) < n,
        ord[position(ord, v)] == v,
        forall|i: int| 0 <= i < n && ord[i] == v ==> i == position(ord, v),
{
    assert(ord.contains(v));
}

/// Along an edge the position in a topological order grows.
pub proof fn lemma_edge_increases(n: int, edges: Seq<(int, int)>, ord: Seq<int>, a: int, b: int)
    requires
        is_topological_order(n, edges, ord),
        edges_in_range(n, edges),
        has_edge(edges, a, b),
    ensures
        0 <= a < n,
        0 <= b < n,
        position(ord, a) < position(ord, b),
{
    let k = choose|k: int| 0 <= k < edges.len() && #[trigger] edges[k] == (a, b);
    assert(edges[k].0 == a && edges[k].1 == b);
    lemma_position(n, edges, ord, a);
    lemma_position(n, edges, ord, b);
    let i = position(ord, a);
    let j = position(ord, b);
    assert(ord[i] == edges[k].0 && ord[j] == edges[k].1);
}

proof fn lemma_walk_increases(n: int, edges: Seq<(int, int)>, ord: Seq<int>, w: Seq<int>)
    requires
        is_topological_order(n, edges, ord),
        edges_in_range(n, edges),
        is_walk(edges, w),
        w.len() >= 2,
    ensures
        position(ord, w[0]) < position(ord, w.last()),
    decreases w.len(),
{
    lemma_edge_increases(n, edges, ord, w[0], w[1]);
    if w.len() > 2 {
        let r = w.drop_first();
        lemma_walk_increases(n, edges, ord, r);
        assert(r[0] == w[1] && r.last() == w.last());
    }
}

/// A graph with a topological order has no cycle.
pub proof fn lemma_cycle_not_acyclic(n: int, edges: Seq<(int, int)>, v: int)
    requires
        edges_in_range(n, edges),
        on_cycle(edges, v),
    ensures
        !is_acyclic(n, edges),
{
    if !is_acyclic(n, edges) {
        return;
    }
    let ord = choose|ord: Seq<int>| #[trigger] is_topological_order(n, edges, ord);
    let w = choose|w: Seq<int>| #[trigger] is_walk(edges, w) && w.len() >= 2 && w[0] == v && w.last() == v;
    lemma_walk_increases(n, edges, ord, w);
}

/// The sources of the edges into `v`, in edge order.
pub open spec fn incoming_sources(edges: Seq<(int, int)>, v: int) -> Seq<int>
    decreases edges.len(),
{
    if edges.len() == 0 {
        Seq::empty()
    } else {
        let rest = incoming_sources(edges.drop_last(), v);
        if edges.last().1 == v {
            rest.push(edges.last().0)
        } else {
            rest
        }
    }
}

/// The targets of the edges out of `v`, in edge order.
pub open spec fn outgoing_targets(edges: Seq<(int, int)>, v: int) -> Seq<int>
    decreases edges.len(),
{
    if edges.len() == 0 {
        Seq::empty()
    } else {
        let rest = outgoing_targets(edges.drop_last(), v);
        if edges.last().0 == v {
            rest.push(edges.last().1)
        } else {
            rest
        }
    }
}

/// Each source of an edge into `v` is joined to `v` by an edge.
pub proof fn lemma_incoming_sources(edges: Seq<(int, int)>, v: int)
    ensures
        forall|i: int|
            0 <= i < incoming_sources(edges, v).len() ==> has_edge(
                edges,
                #[trigger] incoming_sources(edges, v)[i],
                v,
            ),
    decreases edges.len(),
{
    if edges.len() > 0 {
        let e = edges.drop_last();
        lemma_incoming_sources(e, v);
        assert forall|i: int|
            0 <= i < incoming_sources(edges, v).len() implies has_edge(
            edges,
            #[trigger] incoming_sources(edges, v)[i],
            v,
        ) by {
            let s = incoming_sources(edges, v)[i];
            if i < incoming_sources(e, v).len() {
                assert(has_edge(e, incoming_sources(e, v)[i], v));
                let k = choose|k: int| 0 <= k < e.len() && #[trigger] e[k] == (s, v);
                assert(edges[k] == e[k]);
            } else {
                assert(edges[edges.len() - 1] == (s, v));
            }
        }
    }
}

/// Every edge into `v` contributes its source.
pub proof fn lemma_incoming_complete(edges: Seq<(int, int)>, v: int, k: int)
    requires
        0 <= k < edges.len(),
        edges[k].1 == v,
    ensures
        incoming_sources(edges, v).contains(edges[k].0),
    decreases edges.len(),
{
    let e = edges.drop_last();
    if k < edges.len() - 1 {
        assert(e[k] == edges[k]);
        lemma_incoming_complete(e, v, k);
        let i = choose|i: int|
            0 <= i < incoming_sources(e, v).len() && incoming_sources(e, v)[i] == edges[k].0;
        assert(incoming_sources(edges, v)[i] == edges[k].0);
    } else {
        assert(incoming_sources(edges, v).last() == edges[k].0);
    }
}

/// The larger of two levels.
pub open spec fn max_nat(a: nat, b: nat) -> nat {
    if a >= b {
        a
    } else {
        b
    }
}

/// The largest level among the nodes `ds`, each computed with `fuel`.
pub open spec fn max_level_of(edges: Seq<(int, int)>, ds: Seq<int>, fuel: nat) -> nat
    decreases fuel, ds.len(),
{
    if ds.len() == 0 {
        0
    } else {
        max_nat(max_level_of(edges, ds.drop_last(), fuel), level_within(edges, ds.last(), fuel))
    }
}

/// One more than the largest level of the dependencies of `v`, looking at
/// most `fuel` edges deep.
pub open spec fn level_within(edges: Seq<(int, int)>, v: int, fuel: nat) -> nat
    decreases fuel, 0nat,
{
    if fuel == 0 {
        0
    } else {
        1 + max_level_of(edges, incoming_sources(edges, v), (fuel - 1) as nat)
    }
}

/// The level of node `v` in a graph of `n` nodes: 1 for a node without
/// dependencies, otherwise one more than the highest level among them.
pub open spec fn node_level(n: int, edges: Seq<(int, int)>, v: int) -> nat {
    level_within(edges, v, n as nat)
}

proof fn lemma_level_stable(
    n: int,
    edges: Seq<(int, int)>,
    ord: Seq<int>,
    v: int,
    f1: nat,
    f2: nat,
)
    requires
        is_topological_order(n, edges, ord),
        edges_in_range(n, edges),
        0 <= v < n,
        f1 >= position(ord, v) + 1,
        f2 >= position(ord, v) + 1,
    ensures
        level_within(edges, v, f1) == level_within(edges, v, f2),
    decreases position(ord, v) + 1, 0nat,
{
    lemma_position(n, edges, ord, v);
    let ds = incoming_sources(edges, v);
    lemma_incoming_sources(edges, v);
    assert forall|i: int| 0 <= i < ds.len() implies 0 <= #[trigger] ds[i] < n && position(ord, ds[i])
        < position(ord, v) by {
        lemma_edge_increases(n, edges, ord, ds[i], v);
    }
    lemma_max_stable(n, edges, ord, ds, (f1 - 1) as nat, (f2 - 1) as nat, position(ord, v));
}

proof fn lemma_max_stable(
    n: int,
    edges: Seq<(int, int)>,
    ord: Seq<int>,
    ds: Seq<int>,
    f1: nat,
    f2: nat,
    p: int,
)
    requires
        is_topological_order(n, edges, ord),
        edges_in_range(n, edges),
        forall|i: int| 0 <= i < ds.len() ==> 0 <= #[trigger] ds[i] < n && position(ord, ds[i]) < p,
        f1 >= p,
        f2 >= p,
    ensures
        max_level_of(edges, ds, f1) == max_level_of(edges, ds, f2),
    decreases p, ds.len(),
{
    if ds.len() > 0 {
        let d = ds.last();
        assert(0 <= ds[ds.len() - 1] < n);
        lemma_position(n, edges, ord, d);
        lemma_max_stable(n, edges, ord, ds.drop_last(), f1, f2, p);
        lemma_level_stable(n, edges, ord, d, f1, f2);
    }
}

/// In an acyclic graph the level of a node is one more than the largest
/// level among the sources of its incoming edges (and 1 when there are none).
pub proof fn lemma_level_recurrence(n: int, edges: Seq<(int, int)>, v: int)
    requires
        is_acyclic(n, edges),
        edges_in_range(n, edges),
        0 <= v < n,
    ensures
        node_level(n, edges, v) == 1 + max_level_of(edges, incoming_sources(edges, v), n as nat),
        forall|i: int|
            0 <= i < incoming_sources(edges, v).len() ==> node_level(
                n,
                edges,
                #[trigger] incoming_sources(edges, v)[i],
            ) < node_level(n, edges, v),
{
    let ord = choose|ord: Seq<int>| #[trigger] is_topological_order(n, edges, ord);
    lemma_position(n, edges, ord, v);
    let ds = incoming_sources(edges, v);
    lemma_incoming_sources(edges, v);
    assert forall|i: int| 0 <= i < ds.len() implies 0 <= #[trigger] ds[i] < n && position(ord, ds[i])
        < position(ord, v) by {
        lemma_edge_increases(n, edges, ord, ds[i], v);
    }
    lemma_max_stable(n, edges, ord, ds, (n - 1) as nat, n as nat, position(ord, v));
    assert forall|i: int| 0 <= i < ds.len() implies node_level(n, edges, #[trigger] ds[i])
        < node_level(n, edges, v) by {
        lemma_max_ge(edges, ds, (n - 1) as nat, i);
        lemma_position(n, edges, ord, ds[i]);
        lemma_level_stable(n, edges, ord, ds[i], (n - 1) as nat, n as nat);
    }
}

/// The maximum is at least each of its terms.
pub proof fn lemma_max_ge(edges: Seq<(int, int)>, ds: Seq<int>, fuel: nat, i: int)
    requires
        0 <= i < ds.len(),
    ensures
        level_within(edges, ds[i], fuel) <= max_level_of(edges, ds, fuel),
    decreases ds.len(),
{
    if i < ds.len() - 1 {
        lemma_max_ge(edges, ds.drop_last(), fuel, i);
        assert(ds.drop_last()[i] == ds[i]);
    }
}

/// In an acyclic graph every level lies in `1..=n`.
pub proof fn lemma_level_bounds(n: int, edges: Seq<(int, int)>, ord: Seq<int>, v: int)
    requires
        is_topological_order(n, edges, ord),
        edges_in_range(n, edges),
        0 <= v < n,
    ensures
        1 <= node_level(n, edges, v) <= position(ord, v) + 1,
        position(ord, v) + 1 <= n,
        node_level(n, edges, v) == level_within(edges, v, (position(ord, v) + 1) as nat),
    decreases position(ord, v),
{
    lemma_position(n, edges, ord, v);
    let p = position(ord, v);
    lemma_level_stable(n, edges, ord, v, n as nat, (p + 1) as nat);
    let ds = incoming_sources(edges, v);
    lemma_incoming_sources(edges, v);
    assert forall|i: int| 0 <= i < ds.len() implies 0 <= #[trigger] ds[i] < n && position(ord, ds[i])
        < p by {
        lemma_edge_increases(n, edges, ord, ds[i], v);
    }
    lemma_max_le(n, edges, ord, ds, p as nat, p);
}

proof fn lemma_max_le(n: int, edges: Seq<(int, int)>, ord: Seq<int>, ds: Seq<int>, f: nat, p: int)
    requires
        is_topological_order(n, edges, ord),
        edges_in_range(n, edges),
        forall|i: int| 0 <= i < ds.len() ==> 0 <= #[trigger] ds[i] < n && position(ord, ds[i]) < p,
        f == p,
        p <= n,
    ensures
        max_level_of(edges, ds, f) <= p,
    decreases ds.len(),
{
    if ds.len() > 0 {
        let d = ds.last();
        assert(0 <= ds[ds.len() - 1] < n);
        lemma_max_le(n, edges, ord, ds.drop_last(), f, p);
        lemma_level_le_fuel(edges, d, f);
    }
}

/// A level never exceeds its fuel.
pub proof fn lemma_level_le_fuel(edges: Seq<(int, int)>, v: int, f: nat)
    ensures
        level_within(edges, v, f) <= f,
    decreases f, 0nat,
{
    if f > 0 {
        lemma_max_le_fuel(edges, incoming_sources(edges, v), (f - 1) as nat);
    }
}

proof fn lemma_max_le_fuel(edges: Seq<(int, int)>, ds: Seq<int>, f: nat)
    ensures
        max_level_of(edges, ds, f) <= f,
    decreases f, ds.len(),
{
    if ds.len() > 0 {
        lemma_max_le_fuel(edges, ds.drop_last(), f);
        lemma_level_le_fuel(edges, ds.last(), f);
    }
}

/// `u` is reached from `v` by following at most `fuel` edges backwards
/// (from a target to its source).
pub open spec fn reaches_within(edges: Seq<(int, int)>, v: int, u: int, fuel: nat) -> bool
    decreases fuel,
{
    v == u || (fuel > 0 && exists|k: int|
        0 <= k < edges.len() && #[trigger] edges[k].1 == v && reaches_within(
            edges,
            edges[k].0,
            u,
            (fuel - 1) as nat,
        ))
}

/// `v` depends on `u`, directly or through other nodes, or `u` is `v`.
pub open spec fn depends_on(edges: Seq<(int, int)>, v: int, u: int) -> bool {
    exists|f: nat| #[trigger] reaches_within(edges, v, u, f)
}

/// A chain of dependencies extends by one more edge at its end.
pub proof fn lemma_reaches_extend(edges: Seq<(int, int)>, v: int, w: int, f: nat, k: int)
    requires
        reaches_within(edges, v, w, f),
        0 <= k < edges.len(),
        edges[k].1 == w,
    ensures
        reaches_within(edges, v, edges[k].0, f + 1),
    decreases f,
{
    if v == w {
        assert(reaches_within(edges, edges[k].0, edges[k].0, f));
        assert(edges[k].1 == v);
    } else {
        let k2 = choose|k2: int|
            0 <= k2 < edges.len() && #[trigger] edges[k2].1 == v && reaches_within(
                edges,
                edges[k2].0,
                w,
                (f - 1) as nat,
            );
        lemma_reaches_extend(edges, edges[k2].0, w, (f - 1) as nat, k);
        assert(reaches_within(edges, edges[k2].0, edges[k].0, f));
        assert(edges[k2].1 == v);
    }
}

/// A set of nodes that holds `v` and every source of an edge into one of
/// its nodes holds everything that `v` depends on.
pub proof fn lemma_closed_holds_reach(
    edges: Seq<(int, int)>,
    set: Seq<bool>,
    v: int,
    u: int,
    f: nat,
)
    requires
        edges_in_range(set.len() as int, edges),
        0 <= v < set.len(),
        set[v],
        forall|k: int| 0 <= k < edges.len() && #[trigger] set[edges[k].1] ==> set[edges[k].0],
        reaches_within(edges, v, u, f),
    ensures
        0 <= u < set.len() && set[u],
    decreases f,
{
    if v != u {
        let k = choose|k: int|
            0 <= k < edges.len() && #[trigger] edges[k].1 == v && reaches_within(
                edges,
                edges[k].0,
                u,
                (f - 1) as nat,
            );
        assert(set[edges[k].1]);
        lemma_closed_holds_reach(edges, set, edges[k].0, u, (f - 1) as nat);
    }
}

} // verus!
