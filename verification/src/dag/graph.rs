//! The dependency graph of a configuration: one node per task, one edge
//! from each dependency to the task that lists it.
use crate::config::parser::deps_known;
use crate::config::task::{distinct_names, BuildConfig, TaskConfig, TaskMap};
use crate::dag::digraph::{
    graph_add_edge, graph_add_node, graph_edges, graph_incoming, graph_new, graph_node_count,
    graph_node_weight, graph_nodes, graph_outgoing, graph_toposort,
};
use crate::dag::paths::{
    edges_in_range, incoming_sources, is_acyclic, is_topological_order, lemma_cycle_not_acyclic,
    on_cycle, outgoing_targets,
};
use crate::text::{ints, str_equal, views};
use petgraph::graph::Graph;
use petgraph::Directed;
use vstd::prelude::*;

verus! {

/// The index of `x` in `names`.
pub open spec fn name_index(names: Seq<Seq<char>>, x: Seq<char>) -> int {
    choose|i: int| 0 <= i < names.len() && names[i] == x
}

/// The edges of one task: from each of its dependencies, in list order.
pub open spec fn dep_edges(names: Seq<Seq<char>>, deps: Seq<Seq<char>>, target: int) -> Seq<
    (int, int),
> {
    deps.map_values(|d: Seq<char>| (name_index(names, d), target))
}

/// The edges of the first `m` tasks, task after task.
pub open spec fn edges_upto(names: Seq<Seq<char>>, tasks: Seq<TaskConfig>, m: int) -> Seq<
    (int, int),
>
    decreases m,
{
    if m <= 0 {
        Seq::empty()
    } else {
        edges_upto(names, tasks, m - 1) + dep_edges(names, tasks[m - 1].dep_names(), m - 1)
    }
}

/// The dependency edges of a configuration.
pub open spec fn config_edges(tasks: &TaskMap) -> Seq<(int, int)> {
    edges_upto(tasks.names(), tasks.tasks(), tasks.tasks().len() as int)
}

/// What every task graph satisfies: distinct names, edges between existing
/// nodes, no cycle, and fewer nodes than `u32::MAX`.
pub open spec fn graph_valid(names: Seq<Seq<char>>, edges: Seq<(int, int)>) -> bool {
    &&& distinct_names(names)
    &&& names.len() < u32::MAX
    &&& edges.len() < u32::MAX
    &&& edges_in_range(names.len() as int, edges)
    &&& is_acyclic(names.len() as int, edges)
}

/// Names, in order, of the nodes in `idx`.
pub open spec fn names_of(names: Seq<Seq<char>>, idx: Seq<int>) -> Seq<Seq<char>> {
    idx.map_values(|i: int| names[i])
}

/// Why a configuration has no build graph.
#[derive(Debug, Clone)]
pub enum GraphError {
    /// The dependencies form a cycle through `task`.
    Cycle { task: String },
}

impl GraphError {
    /// The error as the user reads it.
    pub fn message(&self) -> (m: String)
        ensures
            match self {
                GraphError::Cycle { task } => m@ == "Circular dependency detected involving task '"@
                    + task@ + "'"@,
            },
    {
        match self {
            GraphError::Cycle { task } => {
                let mut m = String::from_str("Circular dependency detected involving task '");
                m.append(task.as_str());
                m.append("'");
                m
            },
        }
    }
}

/// The task graph. Node `i` is the task `names[i]`.
#[derive(Debug)]
pub struct BuildGraph {
    graph: Graph<String, (), Directed, u32>,
    names: Vec<String>,
}

impl BuildGraph {
    /// The task names, by node index.
    pub closed spec fn node_names(&self) -> Seq<Seq<char>> {
        graph_nodes(self.graph)
    }

    /// The edges, from a dependency to the task that lists it.
    pub closed spec fn edges(&self) -> Seq<(int, int)> {
        graph_edges(self.graph)
    }

    #[verifier::type_invariant]
    closed spec fn wf(&self) -> bool {
        &&& graph_valid(graph_nodes(self.graph), graph_edges(self.graph))
        &&& views(self.names@) == graph_nodes(self.graph)
    }

    /// Every graph is valid.
    pub fn valid(&self)
        ensures
            graph_valid(self.node_names(), self.edges()),
    {
        proof {
            use_type_invariant(self);
        }
    }

    /// Builds the graph of a configuration whose dependencies all name
    /// tasks. Fails, naming a task on a cycle, when the dependencies are
    /// circular.
    pub fn from_config(config: &BuildConfig) -> (r: Result<BuildGraph, GraphError>)
        requires
            deps_known(&config.tasks),
            config.tasks.names().len() < u32::MAX,
            config_edges(&config.tasks).len() < u32::MAX,
        ensures
            r is Ok <==> is_acyclic(config.tasks.names().len() as int, config_edges(&config.tasks)),
            r matches Ok(g) ==> g.node_names() == config.tasks.names() && g.edges() == config_edges(
                &config.tasks,
            ),
            r matches Err(GraphError::Cycle { task }) ==> exists|v: int|
                0 <= v < config.tasks.names().len() && task@ == config.tasks.names()[v]
                    && #[trigger] on_cycle(config_edges(&config.tasks), v),
    {
        let tasks = &config.tasks;
        tasks.names_distinct();
        let n = tasks.len();
        let ghost all_names = tasks.names();
        let ghost all_tasks = tasks.tasks();
        let mut graph = graph_new();
        let mut names: Vec<String> = Vec::new();
        let mut i: usize = 0;
        while i < n
            invariant
                *tasks == config.tasks,
                n == all_names.len(),
                all_names == tasks.names(),
                0 <= i <= n,
                n < u32::MAX,
                graph_nodes(graph) == all_names.take(i as int),
                views(names@) == all_names.take(i as int),
                graph_edges(graph) == Seq::<(int, int)>::empty(),
            decreases n - i,
        {
            let name = tasks.name_at(i).clone();
            graph_add_node(&mut graph, name.clone());
            names.push(name);
            assert(all_names.take(i + 1) =~= all_names.take(i as int).push(all_names[i as int]));
            assert(views(names@) =~= all_names.take(i + 1));
            i = i + 1;
        }
        assert(all_names.take(n as int) =~= all_names);
        let mut i: usize = 0;
        while i < n
            invariant
                *tasks == config.tasks,
                deps_known(tasks),
                n == all_names.len(),
                n == all_tasks.len(),
                all_names == tasks.names(),
                all_tasks == tasks.tasks(),
                distinct_names(all_names),
                0 <= i <= n,
                n < u32::MAX,
                config_edges(tasks).len() < u32::MAX,
                graph_nodes(graph) == all_names,
                graph_edges(graph) == edges_upto(all_names, all_tasks, i as int),
            decreases n - i,
        {
            let task = tasks.task_at(i);
            let m = task.deps.len();
            let mut j: usize = 0;
            proof {
                lemma_edges_upto_len(all_names, all_tasks, i as int + 1, n as int);
            }
            while j < m
                invariant
                    *tasks == config.tasks,
                    deps_known(tasks),
                    n == all_names.len(),
                    n == all_tasks.len(),
                    all_names == tasks.names(),
                    all_tasks == tasks.tasks(),
                    distinct_names(all_names),
                    0 <= i < n,
                    n < u32::MAX,
                    *task == all_tasks[i as int],
                    m == task.deps@.len(),
                    0 <= j <= m,
                    edges_upto(all_names, all_tasks, i + 1).len() < u32::MAX,
                    graph_nodes(graph) == all_names,
                    graph_edges(graph) == edges_upto(all_names, all_tasks, i as int) + dep_edges(
                        all_names,
                        task.dep_names().take(j as int),
                        i as int,
                    ),
                decreases m - j,
            {
                let dep = &task.deps[j];
                assert(crate::config::parser::is_dep_position(tasks, i as int, j as int));
                assert(crate::config::parser::dep_known(tasks, i as int, j as int));
                let src = tasks.position(dep.as_str());
                let src = match src {
                    Some(s) => s,
                    None => {
                        assert(all_names.contains(task.dep_names()[j as int]));
                        return Err(GraphError::Cycle { task: dep.clone() });
                    },
                };
                proof {
                    assert(all_names[src as int] == dep@);
                    assert(name_index(all_names, dep@) == src);
                    assert(task.dep_names().take(j + 1) =~= task.dep_names().take(j as int).push(
                        dep@,
                    ));
                    assert(dep_edges(all_names, task.dep_names().take(j + 1), i as int) =~= dep_edges(
                        all_names,
                        task.dep_names().take(j as int),
                        i as int,
                    ).push((src as int, i as int)));
                    assert(edges_upto(all_names, all_tasks, i + 1) == edges_upto(
                        all_names,
                        all_tasks,
                        i as int,
                    ) + dep_edges(all_names, task.dep_names(), i as int));
                    assert(graph_edges(graph).len() < edges_upto(all_names, all_tasks, i + 1).len());
                }
                graph_add_edge(&mut graph, src, i);
                proof {
                    assert(graph_edges(graph) =~= edges_upto(all_names, all_tasks, i as int)
                        + dep_edges(all_names, task.dep_names().take(j + 1), i as int));
                }
                j = j + 1;
            }
            proof {
                assert(task.dep_names().take(m as int) =~= task.dep_names());
            }
            i = i + 1;
        }
        proof {
            assert forall|a: int, b: int|
                0 <= a < all_tasks.len() && 0 <= b < all_tasks[a].dep_names().len() implies all_names.contains(
                #[trigger] all_tasks[a].dep_names()[b],
            ) by {
                assert(crate::config::parser::is_dep_position(tasks, a, b));
                assert(crate::config::parser::dep_known(tasks, a, b));
            }
            lemma_edges_in_range(all_names, all_tasks, n as int);
        }
        match graph_toposort(&graph) {
            Ok(ord) => {
                proof {
                    let o = ints(ord@);
                    assert(is_topological_order(n as int, graph_edges(graph), o));
                }
                Ok(BuildGraph { graph, names })
            },
            Err(v) => {
                proof {
                    lemma_cycle_not_acyclic(n as int, graph_edges(graph), v as int);
                }
                let task = graph_node_weight(&graph, v);
                Err(GraphError::Cycle { task })
            },
        }
    }

    /// The node of the task called `name`, if there is one.
    pub(crate) fn node_index(&self, name: &str) -> (r: Option<usize>)
        ensures
            match r {
                Some(i) => i < self.node_names().len() && self.node_names()[i as int] == name@,
                None => !self.node_names().contains(name@),
            },
    {
        proof {
            use_type_invariant(self);
        }
        let mut i: usize = 0;
        while i < self.names.len()
            invariant
                views(self.names@) == self.node_names(),
                0 <= i <= self.names@.len(),
                forall|j: int| 0 <= j < i ==> self.node_names()[j] != name@,
            decreases self.names.len() - i,
        {
            if str_equal(self.names[i].as_str(), name) {
                return Some(i);
            }
            i = i + 1;
        }
        None
    }

    /// The name of node `v`.
    pub(crate) fn name_of(&self, v: usize) -> (s: String)
        requires
            v < self.node_names().len(),
        ensures
            s@ == self.node_names()[v as int],
    {
        proof {
            use_type_invariant(self);
        }
        graph_node_weight(&self.graph, v)
    }

    /// The nodes with an edge into `v`, the most recently added first.
    pub(crate) fn incoming(&self, v: usize) -> (r: Vec<usize>)
        requires
            v < self.node_names().len(),
        ensures
            ints(r@) == incoming_sources(self.edges(), v as int).reverse(),
    {
        proof {
            use_type_invariant(self);
        }
        graph_incoming(&self.graph, v)
    }

    fn names_at(&self, idx: &Vec<usize>) -> (r: Vec<String>)
        requires
            forall|k: int| 0 <= k < idx@.len() ==> idx@[k] < self.node_names().len(),
        ensures
            views(r@) == names_of(
                self.node_names(),
                ints(idx@),
            ),
    {
        let mut r: Vec<String> = Vec::new();
        let mut k: usize = 0;
        while k < idx.len()
            invariant
                forall|k: int| 0 <= k < idx@.len() ==> idx@[k] < self.node_names().len(),
                0 <= k <= idx@.len(),
                r@.len() == k,
                forall|i: int| 0 <= i < k ==> #[trigger] r@[i]@ == self.node_names()[idx@[i] as int],
            decreases idx.len() - k,
        {
            let s = self.name_of(idx[k]);
            r.push(s);
            k = k + 1;
        }
        let ghost ix = ints(idx@);
        assert forall|i: int| 0 <= i < r@.len() implies #[trigger] views(r@)[i]
            == names_of(self.node_names(), ix)[i] by {
            assert(ix[i] == idx@[i] as int);
            assert(r@[i]@ == self.node_names()[idx@[i] as int]);
        }
        assert(views(r@) =~= names_of(self.node_names(), ix));
        r
    }

    /// The tasks that `name` depends on, the last listed first; none for
    /// an unknown name.
    pub open spec fn dependency_names(&self, name: Seq<char>) -> Seq<Seq<char>> {
        if self.node_names().contains(name) {
            names_of(
                self.node_names(),
                incoming_sources(self.edges(), name_index(self.node_names(), name)).reverse(),
            )
        } else {
            Seq::empty()
        }
    }

    /// In `order`, the `k`-th dependency of the task at position `i`
    /// comes before it.
    pub open spec fn dependency_before(&self, order: Seq<Seq<char>>, i: int, k: int) -> bool {
        exists|j: int| 0 <= j < i && order[j] == self.dependency_names(order[i])[k]
    }

    /// The tasks that `name` depends on, the last listed first; none for
    /// an unknown name.
    pub fn dependencies(&self, name: &str) -> (r: Vec<String>)
        ensures
            views(r@) == self.dependency_names(name@),
    {
        proof {
            use_type_invariant(self);
        }
        match self.node_index(name) {
            Some(v) => {
                let idx = graph_incoming(&self.graph, v);
                proof {
                    assert(name_index(self.node_names(), name@) == v);
                    self.lemma_incoming_in_range(v as int);
                    assert forall|k: int| 0 <= k < idx@.len() implies idx@[k]
                        < self.node_names().len() by {
                        assert(ints(idx@)[k] == idx@[k] as int);
                        assert(incoming_sources(self.edges(), v as int).reverse()[k] == idx@[k] as int);
                    }
                }
                self.names_at(&idx)
            },
            None => {
                let r: Vec<String> = Vec::new();
                assert(views(r@) =~= Seq::<Seq<char>>::empty());
                r
            },
        }
    }

    /// The tasks that list `name` as a dependency, the last added first;
    /// none for an unknown name.
    pub fn dependents(&self, name: &str) -> (r: Vec<String>)
        ensures
            views(r@) == (if self.node_names().contains(name@) {
                names_of(
                    self.node_names(),
                    outgoing_targets(self.edges(), name_index(self.node_names(), name@)).reverse(),
                )
            } else {
                Seq::empty()
            }),
    {
        proof {
            use_type_invariant(self);
        }
        match self.node_index(name) {
            Some(v) => {
                let idx = graph_outgoing(&self.graph, v);
                proof {
                    assert(name_index(self.node_names(), name@) == v);
                    self.lemma_outgoing_in_range(v as int);
                    assert forall|k: int| 0 <= k < idx@.len() implies idx@[k]
                        < self.node_names().len() by {
                        assert(ints(idx@)[k] == idx@[k] as int);
                        assert(outgoing_targets(self.edges(), v as int).reverse()[k] == idx@[k] as int);
                    }
                }
                self.names_at(&idx)
            },
            None => {
                let r: Vec<String> = Vec::new();
                assert(views(r@) =~= Seq::<Seq<char>>::empty());
                r
            },
        }
    }

    /// All task names, by node index.
    pub fn all_tasks(&self) -> (r: Vec<String>)
        ensures
            views(r@) == self.node_names(),
    {
        proof {
            use_type_invariant(self);
        }
        self.names.clone()
    }

    /// The nodes in an order that puts every dependency before the tasks
    /// that depend on it.
    pub(crate) fn topo_indices(&self) -> (r: Vec<usize>)
        ensures
            is_topological_order(
                self.node_names().len() as int,
                self.edges(),
                ints(r@),
            ),
    {
        proof {
            use_type_invariant(self);
        }
        match graph_toposort(&self.graph) {
            Ok(ord) => ord,
            Err(v) => {
                proof {
                    lemma_cycle_not_acyclic(
                        self.node_names().len() as int,
                        self.edges(),
                        v as int,
                    );
                }
                Vec::new()
            },
        }
    }

    /// Every task once, each after all the tasks it depends on.
    pub fn topological_order(&self) -> (r: Vec<String>)
        ensures
            exists|ord: Seq<int>|
                #[trigger] is_topological_order(self.node_names().len() as int, self.edges(), ord)
                    && views(r@) == names_of(self.node_names(), ord),
            r@.len() == self.node_names().len(),
            distinct_names(views(r@)),
            forall|v: int| 0 <= v < self.node_names().len() ==> views(r@).contains(
                #[trigger] self.node_names()[v],
            ),
            forall|i: int, k: int|
                0 <= i < r@.len() && 0 <= k < self.dependency_names(r@[i]@).len()
                    ==> #[trigger] self.dependency_before(views(r@), i, k),
    {
        proof {
            use_type_invariant(self);
        }
        let ord = self.topo_indices();
        proof {
            self.lemma_topological_names(ints(ord@));
        }
        let ghost o = ints(ord@);
        assert forall|k: int| 0 <= k < ord@.len() implies ord@[k] < self.node_names().len() by {
            assert(o[k] == ord@[k] as int);
        }
        let r = self.names_at(&ord);
        proof {
            let on = names_of(self.node_names(), ints(ord@));
            assert(views(r@) == on);
            assert forall|i: int, k: int|
                0 <= i < r@.len() && 0 <= k < self.dependency_names(r@[i]@).len()
                    implies #[trigger] self.dependency_before(views(r@), i, k) by {
                assert(views(r@)[i] == r@[i]@);
            }
        }
        r
    }

    /// The number of tasks.
    pub fn task_count(&self) -> (n: usize)
        ensures
            n == self.node_names().len(),
    {
        graph_node_count(&self.graph)
    }

    /// The names of a topological order: each task once, and the
    /// dependencies of each task before it.
    proof fn lemma_topological_names(&self, ord: Seq<int>)
        requires
            graph_valid(self.node_names(), self.edges()),
            is_topological_order(self.node_names().len() as int, self.edges(), ord),
        ensures
            names_of(self.node_names(), ord).len() == self.node_names().len(),
            distinct_names(names_of(self.node_names(), ord)),
            forall|v: int| 0 <= v < self.node_names().len() ==> names_of(self.node_names(), ord).contains(
                #[trigger] self.node_names()[v],
            ),
            forall|i: int, k: int|
                0 <= i < ord.len() && 0 <= k < self.dependency_names(
                    names_of(self.node_names(), ord)[i],
                ).len() ==> #[trigger] self.dependency_before(names_of(self.node_names(), ord), i, k),
    {
        let names = self.node_names();
        let edges = self.edges();
        let n = names.len() as int;
        let on = names_of(names, ord);
        assert forall|a: int, b: int| 0 <= a < on.len() && 0 <= b < on.len() && a != b implies #[trigger] on[a]
            != #[trigger] on[b] by {
            assert(ord[a] != ord[b]);
        }
        assert forall|v: int| 0 <= v < n implies on.contains(#[trigger] names[v]) by {
            assert(ord.contains(v));
            let j = choose|j: int| 0 <= j < ord.len() && ord[j] == v;
            assert(on[j] == names[v]);
        }
        assert forall|i: int, k: int|
            0 <= i < ord.len() && 0 <= k < self.dependency_names(on[i]).len()
                implies #[trigger] self.dependency_before(on, i, k) by {
            let v = ord[i];
            let t = on[i];
            assert(names.contains(t)) by {
                assert(names[v] == t);
            }
            let q = name_index(names, t);
            assert(0 <= q < n && names[q] == t);
            assert(q == v);
            let srcs = incoming_sources(edges, v);
            crate::dag::paths::lemma_incoming_sources(edges, v);
            let u = srcs.reverse()[k];
            assert(u == srcs[srcs.len() - 1 - k]);
            assert(crate::dag::paths::has_edge(edges, srcs[srcs.len() - 1 - k], v));
            let e = choose|e: int| 0 <= e < edges.len() && #[trigger] edges[e] == (u, v);
            assert(0 <= edges[e].0 < n);
            assert(ord.contains(u));
            let j = choose|j: int| 0 <= j < ord.len() && ord[j] == u;
            assert(ord[j] == edges[e].0 && ord[i] == edges[e].1);
            assert(j < i);
            assert(on[j] == names[u]);
            assert(self.dependency_names(t)[k] == names[u]);
            assert(on[j] == self.dependency_names(on[i])[k]);
        }
    }

    proof fn lemma_incoming_in_range(&self, v: int)
        requires
            graph_valid(self.node_names(), self.edges()),
        ensures
            forall|k: int|
                0 <= k < incoming_sources(self.edges(), v).reverse().len() ==> 0 <= #[trigger] incoming_sources(
                    self.edges(),
                    v,
                ).reverse()[k] < self.node_names().len(),
    {
        crate::dag::paths::lemma_incoming_sources(self.edges(), v);
        assert forall|k: int|
            0 <= k < incoming_sources(self.edges(), v).reverse().len() implies 0
            <= #[trigger] incoming_sources(self.edges(), v).reverse()[k]
            < self.node_names().len() by {
            let s = incoming_sources(self.edges(), v);
            assert(0 <= s.len() - 1 - k < s.len());
            let x = s[s.len() - 1 - k];
            assert(s.reverse()[k] == x);
            assert(crate::dag::paths::has_edge(self.edges(), x, v));
            let e = choose|e: int| 0 <= e < self.edges().len() && #[trigger] self.edges()[e] == (x, v);
            assert(0 <= self.edges()[e].0 < self.node_names().len());
        }
    }

    proof fn lemma_outgoing_in_range(&self, v: int)
        requires
            graph_valid(self.node_names(), self.edges()),
        ensures
            forall|k: int|
                0 <= k < outgoing_targets(self.edges(), v).reverse().len() ==> 0 <= #[trigger] outgoing_targets(
                    self.edges(),
                    v,
                ).reverse()[k] < self.node_names().len(),
    {
        lemma_outgoing_targets(self.edges(), v);
        assert forall|k: int|
            0 <= k < outgoing_targets(self.edges(), v).reverse().len() implies 0
            <= #[trigger] outgoing_targets(self.edges(), v).reverse()[k]
            < self.node_names().len() by {
            let s = outgoing_targets(self.edges(), v);
            assert(0 <= s.len() - 1 - k < s.len());
            let x = s[s.len() - 1 - k];
            assert(s.reverse()[k] == x);
            assert(crate::dag::paths::has_edge(self.edges(), v, x));
            let e = choose|e: int| 0 <= e < self.edges().len() && #[trigger] self.edges()[e] == (v, x);
            assert(0 <= self.edges()[e].0 < self.node_names().len() && 0 <= self.edges()[e].1
                < self.node_names().len());
        }
    }
}

/// Each target of an edge out of `v` is joined to it by an edge.
proof fn lemma_outgoing_targets(edges: Seq<(int, int)>, v: int)
    ensures
        forall|i: int|
            0 <= i < outgoing_targets(edges, v).len() ==> crate::dag::paths::has_edge(
                edges,
                v,
                #[trigger] outgoing_targets(edges, v)[i],
            ),
    decreases edges.len(),
{
    if edges.len() > 0 {
        let e = edges.drop_last();
        lemma_outgoing_targets(e, v);
        assert forall|i: int|
            0 <= i < outgoing_targets(edges, v).len() implies crate::dag::paths::has_edge(
            edges,
            v,
            #[trigger] outgoing_targets(edges, v)[i],
        ) by {
            let t = outgoing_targets(edges, v)[i];
            if i < outgoing_targets(e, v).len() {
                assert(crate::dag::paths::has_edge(e, v, outgoing_targets(e, v)[i]));
                let k = choose|k: int| 0 <= k < e.len() && #[trigger] e[k] == (v, t);
                assert(edges[k] == e[k]);
            } else {
                assert(edges[edges.len() - 1] == (v, t));
            }
        }
    }
}

proof fn lemma_edges_upto_len(names: Seq<Seq<char>>, tasks: Seq<TaskConfig>, m: int, n: int)
    requires
        0 <= m <= n,
    ensures
        edges_upto(names, tasks, m).len() <= edges_upto(names, tasks, n).len(),
    decreases n - m,
{
    if m < n {
        lemma_edges_upto_len(names, tasks, m, n - 1);
    }
}

proof fn lemma_edges_in_range(names: Seq<Seq<char>>, tasks: Seq<TaskConfig>, m: int)
    requires
        0 <= m <= tasks.len(),
        tasks.len() == names.len(),
        forall|i: int, j: int|
            0 <= i < tasks.len() && 0 <= j < tasks[i].dep_names().len() ==> names.contains(
                #[trigger] tasks[i].dep_names()[j],
            ),
    ensures
        edges_in_range(names.len() as int, edges_upto(names, tasks, m)),
    decreases m,
{
    if m > 0 {
        lemma_edges_in_range(names, tasks, m - 1);
        let prev = edges_upto(names, tasks, m - 1);
        let last = dep_edges(names, tasks[m - 1].dep_names(), m - 1);
        assert forall|k: int| 0 <= k < last.len() implies 0 <= #[trigger] last[k].0 < names.len()
            && 0 <= last[k].1 < names.len() by {
            assert(names.contains(tasks[m - 1].dep_names()[k]));
        }
        assert forall|k: int| 0 <= k < (prev + last).len() implies 0 <= #[trigger] (prev
            + last)[k].0 < names.len() && 0 <= (prev + last)[k].1 < names.len() by {
            if k < prev.len() {
                assert((prev + last)[k] == prev[k]);
            } else {
                assert((prev + last)[k] == last[k - prev.len()]);
            }
        }
    }
}

/// The sources of the edges into `v` of two edge lists one after the other.
proof fn lemma_incoming_concat(a: Seq<(int, int)>, b: Seq<(int, int)>, v: int)
    ensures
        incoming_sources(a + b, v) == incoming_sources(a, v) + incoming_sources(b, v),
    decreases b.len(),
{
    if b.len() == 0 {
        assert(a + b =~= a);
        assert(incoming_sources(a, v) + incoming_sources(b, v) =~= incoming_sources(a, v));
    } else {
        assert((a + b).drop_last() =~= a + b.drop_last());
        assert((a + b).last() == b.last());
        lemma_incoming_concat(a, b.drop_last(), v);
        if b.last().1 == v {
            assert(incoming_sources(a + b, v) =~= incoming_sources(a, v) + incoming_sources(b, v));
        } else {
            assert(incoming_sources(a + b, v) =~= incoming_sources(a, v) + incoming_sources(b, v));
        }
    }
}

/// The indices of the names `deps`.
pub open spec fn dep_indices(names: Seq<Seq<char>>, deps: Seq<Seq<char>>) -> Seq<int> {
    deps.map_values(|d: Seq<char>| name_index(names, d))
}

/// The edges of one task come into that task, from its dependencies in
/// list order.
proof fn lemma_incoming_dep_edges(names: Seq<Seq<char>>, deps: Seq<Seq<char>>, t: int, v: int)
    ensures
        incoming_sources(dep_edges(names, deps, t), v) == if v == t {
            dep_indices(names, deps)
        } else {
            Seq::empty()
        },
    decreases deps.len(),
{
    if deps.len() > 0 {
        lemma_incoming_dep_edges(names, deps.drop_last(), t, v);
        assert(dep_edges(names, deps, t).drop_last() =~= dep_edges(names, deps.drop_last(), t));
        assert(dep_indices(names, deps).drop_last() =~= dep_indices(names, deps.drop_last()));
        if v == t {
            assert(incoming_sources(dep_edges(names, deps, t), v) =~= dep_indices(names, deps));
        }
    } else {
        assert(dep_edges(names, deps, t) =~= Seq::<(int, int)>::empty());
        assert(dep_indices(names, deps) =~= Seq::<int>::empty());
    }
}

/// In the edges of the first `m` tasks, the edges into task `v` come from
/// its dependencies, in list order; a later task has none yet.
proof fn lemma_incoming_upto(names: Seq<Seq<char>>, tasks: Seq<TaskConfig>, m: int, v: int)
    requires
        0 <= v,
        m <= tasks.len(),
    ensures
        incoming_sources(edges_upto(names, tasks, m), v) == if v < m {
            dep_indices(names, tasks[v].dep_names())
        } else {
            Seq::empty()
        },
    decreases m,
{
    if m > 0 {
        lemma_incoming_upto(names, tasks, m - 1, v);
        lemma_incoming_concat(
            edges_upto(names, tasks, m - 1),
            dep_edges(names, tasks[m - 1].dep_names(), m - 1),
            v,
        );
        lemma_incoming_dep_edges(names, tasks[m - 1].dep_names(), m - 1, v);
        if v < m - 1 {
            assert(incoming_sources(edges_upto(names, tasks, m), v) =~= dep_indices(
                names,
                tasks[v].dep_names(),
            ));
        } else if v == m - 1 {
            assert(incoming_sources(edges_upto(names, tasks, m), v) =~= dep_indices(
                names,
                tasks[v].dep_names(),
            ));
        } else {
            assert(incoming_sources(edges_upto(names, tasks, m), v) =~= Seq::<int>::empty());
        }
    } else {
        assert(incoming_sources(edges_upto(names, tasks, m), v) =~= Seq::<int>::empty());
    }
}

/// The graph of a configuration gives each task the dependencies the
/// configuration lists for it, the last listed first.
pub proof fn lemma_declared_dependencies(config: &BuildConfig, g: &BuildGraph, i: int)
    requires
        deps_known(&config.tasks),
        graph_valid(g.node_names(), g.edges()),
        g.node_names() == config.tasks.names(),
        g.edges() == config_edges(&config.tasks),
        0 <= i < config.tasks.names().len(),
    ensures
        g.dependency_names(config.tasks.names()[i]) == config.tasks.tasks()[i].dep_names().reverse(),
{
    let names = config.tasks.names();
    let tasks = config.tasks.tasks();
    let deps = tasks[i].dep_names();
    config.tasks.lemma_lengths();
    assert(names.contains(names[i]));
    assert(name_index(names, names[i]) == i) by {
        let q = name_index(names, names[i]);
        assert(0 <= q < names.len() && names[q] == names[i]);
    }
    lemma_incoming_upto(names, tasks, tasks.len() as int, i);
    let idx = dep_indices(names, deps);
    assert forall|k: int| 0 <= k < deps.len() implies names[#[trigger] idx[k]] == deps[k] by {
        assert(crate::config::parser::is_dep_position(&config.tasks, i, k));
        assert(crate::config::parser::dep_known(&config.tasks, i, k));
        assert(names.contains(deps[k]));
    }
    assert(names_of(names, idx.reverse()) =~= deps.reverse());
}

/// Each dependency a task lists gives an edge from the dependency's node to
/// the task's node.
pub proof fn lemma_declared_edge(tasks: &TaskMap, i: int, j: int)
    requires
        0 <= i < tasks.names().len(),
        0 <= j < tasks.tasks()[i].dep_names().len(),
    ensures
        crate::dag::paths::has_edge(
            config_edges(tasks),
            name_index(tasks.names(), tasks.tasks()[i].dep_names()[j]),
            i,
        ),
{
    tasks.lemma_lengths();
    let names = tasks.names();
    let ts = tasks.tasks();
    lemma_incoming_upto(names, ts, ts.len() as int, i);
    let edges = config_edges(tasks);
    crate::dag::paths::lemma_incoming_sources(edges, i);
    let idx = dep_indices(names, ts[i].dep_names());
    assert(incoming_sources(edges, i)[j] == idx[j]);
}

} // verus!
