//! What the command line shows of a build: the label of each result, the
//! summary counts, the status counts, the verdict of `why`, the order in
//! which tasks are listed, and the lines of the graph as text and as DOT.
use crate::config::task::TaskMap;
use crate::dag::graph::BuildGraph;
use crate::engine::runner::{TaskResult, TaskStatus, WhyResult};
use crate::text::{
    decimal, decimal_text, join, join_with, lemma_str_lt_order, str_equal, str_less, str_lt, views,
};
use vstd::prelude::*;

verus! {

/// How a result is shown.
#[derive(Debug, Clone, Copy, PartialEq, Eq, Structural)]
pub enum ResultLabel {
    /// Planned in a dry run.
    Dry,
    /// Restored from the cache.
    Cached,
    /// Built.
    Built,
    /// Failed or skipped.
    Failed,
}

/// The label of a result: a dry run first, then the cache, then success.
pub open spec fn label_of(r: TaskResult) -> ResultLabel {
    if r.dry_run {
        ResultLabel::Dry
    } else if r.cached {
        ResultLabel::Cached
    } else if r.success {
        ResultLabel::Built
    } else {
        ResultLabel::Failed
    }
}

/// The label of a result.
pub fn result_label(r: &TaskResult) -> (l: ResultLabel)
    ensures
        l == label_of(*r),
{
    if r.dry_run {
        ResultLabel::Dry
    } else if r.cached {
        ResultLabel::Cached
    } else if r.success {
        ResultLabel::Built
    } else {
        ResultLabel::Failed
    }
}

/// The counts shown after a build.
#[derive(Debug, Clone, Copy)]
pub struct BuildSummary {
    pub built: usize,
    pub cached: usize,
    pub dry: usize,
    pub failed: usize,
    /// No result is labelled failed.
    pub all_success: bool,
}

/// The kinds of results that the summary counts.
#[derive(Debug, Clone, Copy, PartialEq, Eq, Structural)]
pub enum Tally {
    /// Neither restored from the cache nor planned, and successful.
    Built,
    /// Restored from the cache.
    Cached,
    /// Planned in a dry run.
    Dry,
    /// Not successful.
    Unsuccessful,
}

/// Whether a result counts towards `t`.
pub open spec fn counts_for(t: Tally, r: TaskResult) -> bool {
    match t {
        Tally::Built => !r.cached && !r.dry_run && r.success,
        Tally::Cached => r.cached,
        Tally::Dry => r.dry_run,
        Tally::Unsuccessful => !r.success,
    }
}

/// The number of results that count towards `t`.
pub open spec fn count_where(rs: Seq<TaskResult>, t: Tally) -> nat
    decreases rs.len(),
{
    if rs.len() == 0 {
        0
    } else {
        count_where(rs.drop_last(), t) + if counts_for(t, rs.last()) {
            1nat
        } else {
            0nat
        }
    }
}

proof fn lemma_count_bound(rs: Seq<TaskResult>, t: Tally)
    ensures
        count_where(rs, t) <= rs.len(),
    decreases rs.len(),
{
    if rs.len() > 0 {
        lemma_count_bound(rs.drop_last(), t);
    }
}

/// The summary of a build: how many results were built, restored from the
/// cache, planned in a dry run and unsuccessful, and whether none is
/// labelled failed.
pub fn summarize(results: &[TaskResult]) -> (s: BuildSummary)
    ensures
        s.built == count_where(results@, Tally::Built),
        s.cached == count_where(results@, Tally::Cached),
        s.dry == count_where(results@, Tally::Dry),
        s.failed == count_where(results@, Tally::Unsuccessful),
        s.all_success == forall|k: int|
            0 <= k < results@.len() ==> label_of(#[trigger] results@[k]) != ResultLabel::Failed,
{
    let ghost rs = results@;
    let mut s = BuildSummary { built: 0, cached: 0, dry: 0, failed: 0, all_success: true };
    let mut k: usize = 0;
    while k < results.len()
        invariant
            rs == results@,
            0 <= k <= rs.len(),
            s.built == count_where(rs.take(k as int), Tally::Built),
            s.cached == count_where(rs.take(k as int), Tally::Cached),
            s.dry == count_where(rs.take(k as int), Tally::Dry),
            s.failed == count_where(rs.take(k as int), Tally::Unsuccessful),
            s.all_success == forall|j: int|
                0 <= j < k ==> label_of(#[trigger] rs[j]) != ResultLabel::Failed,
        decreases results.len() - k,
    {
        let r = &results[k];
        proof {
            let t = rs.take(k + 1);
            assert(t.drop_last() =~= rs.take(k as int));
            assert(t.last() == rs[k as int]);
            lemma_count_bound(rs.take(k as int), Tally::Built);
            lemma_count_bound(rs.take(k as int), Tally::Cached);
            lemma_count_bound(rs.take(k as int), Tally::Dry);
            lemma_count_bound(rs.take(k as int), Tally::Unsuccessful);
        }
        if !r.cached && !r.dry_run && r.success {
            s.built = s.built + 1;
        }
        if r.cached {
            s.cached = s.cached + 1;
        }
        if r.dry_run {
            s.dry = s.dry + 1;
        }
        if !r.success {
            s.failed = s.failed + 1;
        }
        if result_label(r) == ResultLabel::Failed {
            s.all_success = false;
        }
        k = k + 1;
    }
    assert(rs.take(k as int) =~= rs);
    s
}

/// The number of statuses that are cached (when `cached` holds) or not.
pub open spec fn count_statuses(ss: Seq<TaskStatus>, cached: bool) -> nat
    decreases ss.len(),
{
    if ss.len() == 0 {
        0
    } else {
        count_statuses(ss.drop_last(), cached) + if ss.last().cached == cached {
            1nat
        } else {
            0nat
        }
    }
}

proof fn lemma_statuses_bound(ss: Seq<TaskStatus>, cached: bool)
    ensures
        count_statuses(ss, cached) <= ss.len(),
    decreases ss.len(),
{
    if ss.len() > 0 {
        lemma_statuses_bound(ss.drop_last(), cached);
    }
}

/// How many tasks are cached, and how many would rebuild.
pub fn status_counts(statuses: &[TaskStatus]) -> (c: (usize, usize))
    ensures
        c.0 == count_statuses(statuses@, true),
        c.1 == count_statuses(statuses@, false),
{
    let ghost ss = statuses@;
    let mut cached: usize = 0;
    let mut stale: usize = 0;
    let mut k: usize = 0;
    while k < statuses.len()
        invariant
            ss == statuses@,
            0 <= k <= ss.len(),
            cached == count_statuses(ss.take(k as int), true),
            stale == count_statuses(ss.take(k as int), false),
        decreases statuses.len() - k,
    {
        proof {
            assert(ss.take(k + 1).drop_last() =~= ss.take(k as int));
            lemma_statuses_bound(ss.take(k as int), true);
            lemma_statuses_bound(ss.take(k as int), false);
        }
        if statuses[k].cached {
            cached = cached + 1;
        } else {
            stale = stale + 1;
        }
        k = k + 1;
    }
    assert(ss.take(k as int) =~= ss);
    (cached, stale)
}

/// The verdict of `why`.
#[derive(Debug, Clone, Copy, PartialEq, Eq, Structural)]
pub enum WhyState {
    /// Cached, with no changed or removed file.
    UpToDate,
    /// Cached, with changed or removed files.
    Stale,
    /// Not cached.
    NotCached,
}

/// The verdict on a `why` result.
pub fn why_state(w: &WhyResult) -> (s: WhyState)
    ensures
        s == (if w.cached && w.changed_files@.len() == 0 && w.removed_files@.len() == 0 {
            WhyState::UpToDate
        } else if w.cached {
            WhyState::Stale
        } else {
            WhyState::NotCached
        }),
{
    if w.cached && w.changed_files.len() == 0 && w.removed_files.len() == 0 {
        WhyState::UpToDate
    } else if w.cached {
        WhyState::Stale
    } else {
        WhyState::NotCached
    }
}

/// A task's description as shown after its result: ` - ` and the
/// description, or nothing when it has none or an empty one.
pub fn description_note(description: &Option<String>) -> (s: String)
    ensures
        s@ == (match description {
            Some(d) if d@.len() > 0 => " - "@ + d@,
            _ => Seq::<char>::empty(),
        }),
{
    proof {
        reveal_strlit(" - ");
    }
    match description {
        Some(d) if !d.as_str().is_empty() => {
            let mut s = String::from_str(" - ");
            s.append(d.as_str());
            s
        },
        _ => String::new(),
    }
}

/// The dependencies of a listed task: ` (deps: ` and the names joined by
/// `, ` and `)`, or nothing without dependencies.
pub fn list_deps_note(deps: &[String]) -> (s: String)
    ensures
        s@ == (if deps@.len() == 0 {
            Seq::<char>::empty()
        } else {
            " (deps: "@ + join_with(views(deps@), ", "@) + ")"@
        }),
{
    proof {
        reveal_strlit(" (deps: ");
        reveal_strlit(", ");
        reveal_strlit(")");
    }
    if deps.len() == 0 {
        String::new()
    } else {
        let mut s = String::from_str(" (deps: ");
        let listed = join(deps, ", ");
        s.append(listed.as_str());
        s.append(")");
        s
    }
}

/// The dependencies of a task in the status list: ` <- ` and the names
/// joined by `, `, or nothing without dependencies.
pub fn status_deps_note(deps: &[String]) -> (s: String)
    ensures
        s@ == (if deps@.len() == 0 {
            Seq::<char>::empty()
        } else {
            " <- "@ + join_with(views(deps@), ", "@)
        }),
{
    proof {
        reveal_strlit(" <- ");
        reveal_strlit(", ");
    }
    if deps.len() == 0 {
        String::new()
    } else {
        let mut s = String::from_str(" <- ");
        let listed = join(deps, ", ");
        s.append(listed.as_str());
        s
    }
}

/// The text line of the `number`-th task of the graph: `number. task <-
/// [deps]`, with `(no deps)` for a task without dependencies.
pub open spec fn text_line(number: nat, task: Seq<char>, deps: Seq<Seq<char>>) -> Seq<char> {
    decimal_text(number) + ". "@ + task + " <- ["@ + (if deps.len() == 0 {
        "(no deps)"@
    } else {
        join_with(deps, ", "@)
    }) + "]"@
}

/// The graph as text: one line per task of `order`, numbered from 1, with
/// the task's dependencies.
pub fn graph_text_lines(graph: &BuildGraph, order: &[String]) -> (r: Vec<String>)
    requires
        order@.len() < usize::MAX,
    ensures
        r@.len() == order@.len(),
        forall|k: int|
            0 <= k < order@.len() ==> (#[trigger] r@[k])@ == text_line(
                (k + 1) as nat,
                order@[k]@,
                graph.dependency_names(order@[k]@),
            ),
{
    proof {
        reveal_strlit(". ");
        reveal_strlit(" <- [");
        reveal_strlit("(no deps)");
        reveal_strlit(", ");
        reveal_strlit("]");
    }
    let mut r: Vec<String> = Vec::new();
    let mut k: usize = 0;
    while k < order.len()
        invariant
            order@.len() < usize::MAX,
            0 <= k <= order@.len(),
            r@.len() == k,
            forall|j: int|
                0 <= j < k ==> (#[trigger] r@[j])@ == text_line(
                    (j + 1) as nat,
                    order@[j]@,
                    graph.dependency_names(order@[j]@),
                ),
        decreases order.len() - k,
    {
        proof {
            reveal_strlit(". ");
            reveal_strlit(" <- [");
            reveal_strlit("(no deps)");
            reveal_strlit(", ");
            reveal_strlit("]");
        }
        let deps = graph.dependencies(order[k].as_str());
        let mut line = decimal(k + 1);
        line.append(". ");
        line.append(order[k].as_str());
        line.append(" <- [");
        if deps.len() == 0 {
            line.append("(no deps)");
        } else {
            let listed = join(deps.as_slice(), ", ");
            line.append(listed.as_str());
        }
        line.append("]");
        proof {
            assert(line@ =~= text_line((k + 1) as nat, order@[k as int]@, views(deps@)));
        }
        r.push(line);
        k = k + 1;
    }
    r
}

/// The DOT line of the edge from `dep` to `task`.
pub open spec fn dot_edge(dep: Seq<char>, task: Seq<char>) -> Seq<char> {
    "  \""@ + dep + "\" -> \""@ + task + "\";"@
}

/// The DOT lines of the edges from each of `deps`, in order, to `task`.
pub open spec fn edge_lines(deps: Seq<Seq<char>>, task: Seq<char>) -> Seq<Seq<char>>
    decreases deps.len(),
{
    if deps.len() == 0 {
        Seq::empty()
    } else {
        edge_lines(deps.drop_last(), task).push(dot_edge(deps.last(), task))
    }
}

/// The DOT edge lines of `tasks`, task after task, each from its
/// dependencies in the order the graph gives them.
pub open spec fn dot_edges(graph: &BuildGraph, tasks: Seq<Seq<char>>) -> Seq<Seq<char>>
    decreases tasks.len(),
{
    if tasks.len() == 0 {
        Seq::empty()
    } else {
        dot_edges(graph, tasks.drop_last()) + edge_lines(
            graph.dependency_names(tasks.last()),
            tasks.last(),
        )
    }
}

/// The graph in DOT: `digraph build {`, an edge line from each dependency
/// to each task (tasks by node index), and `}`.
pub fn graph_dot_lines(graph: &BuildGraph) -> (r: Vec<String>)
    ensures
        views(r@) == seq!["digraph build {"@] + dot_edges(graph, graph.node_names()) + seq!["}"@],
{
    proof {
        reveal_strlit("  \"");
        reveal_strlit("\" -> \"");
        reveal_strlit("\";");
    }
    let tasks = graph.all_tasks();
    let ghost tv = views(tasks@);
    let mut r: Vec<String> = Vec::new();
    r.push(String::from_str("digraph build {"));
    let mut k: usize = 0;
    while k < tasks.len()
        invariant
            tv == views(tasks@),
            tv == graph.node_names(),
            0 <= k <= tasks@.len(),
            views(r@) == seq!["digraph build {"@] + dot_edges(graph, tv.take(k as int)),
        decreases tasks.len() - k,
    {
        let deps = graph.dependencies(tasks[k].as_str());
        let ghost before = views(r@);
        let ghost dv = views(deps@);
        let ghost t = tasks@[k as int]@;
        let mut j: usize = 0;
        while j < deps.len()
            invariant
                dv == views(deps@),
                k < tasks@.len(),
                t == tasks@[k as int]@,
                0 <= j <= deps@.len(),
                views(r@) == before + edge_lines(dv.take(j as int), t),
            decreases deps.len() - j,
        {
            proof {
                reveal_strlit("  \"");
                reveal_strlit("\" -> \"");
                reveal_strlit("\";");
            }
            let mut line = String::from_str("  \"");
            line.append(deps[j].as_str());
            line.append("\" -> \"");
            line.append(tasks[k].as_str());
            line.append("\";");
            proof {
                assert(line@ =~= dot_edge(dv[j as int], t));
                assert(dv.take(j + 1).drop_last() =~= dv.take(j as int));
                assert(dv.take(j + 1).last() == dv[j as int]);
                assert(edge_lines(dv.take(j + 1), t) == edge_lines(dv.take(j as int), t).push(
                    dot_edge(dv[j as int], t),
                ));
            }
            let ghost rbefore = views(r@);
            r.push(line);
            assert(views(r@) =~= rbefore.push(dot_edge(dv[j as int], t)));
            assert(views(r@) =~= before + edge_lines(dv.take(j + 1), t));
            j = j + 1;
        }
        proof {
            assert(dv.take(j as int) =~= dv);
            let tk = tv.take(k + 1);
            assert(tk.drop_last() =~= tv.take(k as int));
            assert(tk.last() == t);
            assert(views(r@) =~= seq!["digraph build {"@] + dot_edges(graph, tk));
        }
        k = k + 1;
    }
    assert(tv.take(k as int) =~= tv);
    r.push(String::from_str("}"));
    assert(views(r@) =~= seq!["digraph build {"@] + dot_edges(graph, graph.node_names()) + seq![
        "}"@,
    ]);
    r
}

/// The lower-case form of a string, by Unicode's rules, as
/// `str::to_lowercase` computes it.
pub uninterp spec fn lowercase(s: Seq<char>) -> Seq<char>;

/// Calls `str::to_lowercase`. The result depends on the string alone: it is
/// `lowercase` of it. Which characters it maps to which is not stated.
#[verifier::external_body]
fn to_lowercase(s: &str) -> (r: String)
    ensures
        r@ == lowercase(s@),
{
    s.to_lowercase()
}

/// The order of `(key, index)` pairs: by key as Rust orders strings, then
/// by index.
pub open spec fn keyed_lt(a: (Seq<char>, int), b: (Seq<char>, int)) -> bool {
    str_lt(a.0, b.0) || (a.0 == b.0 && a.1 < b.1)
}

proof fn lemma_keyed_order(a: (Seq<char>, int), b: (Seq<char>, int), c: (Seq<char>, int))
    ensures
        a == b || keyed_lt(a, b) || keyed_lt(b, a),
        !keyed_lt(a, a),
        keyed_lt(a, b) && keyed_lt(b, c) ==> keyed_lt(a, c),
{
    lemma_str_lt_order(a.0, b.0, c.0);
    lemma_str_lt_order(b.0, a.0, c.0);
    lemma_str_lt_order(a.0, a.0, a.0);
}

/// The listing key of task `i`: its lower-cased name and its index.
pub open spec fn list_key(tasks: &TaskMap, i: int) -> (Seq<char>, int) {
    (lowercase(tasks.names()[i]), i)
}

/// The order in which tasks are listed, as indices into the map: by
/// lower-cased name; tasks whose lower-cased names are equal stay in map
/// order.
pub fn list_order(tasks: &TaskMap) -> (r: Vec<usize>)
    ensures
        r@.len() == tasks.names().len(),
        forall|a: int| 0 <= a < r@.len() ==> #[trigger] r@[a] < tasks.names().len(),
        forall|a: int, b: int|
            0 <= a < b < r@.len() ==> keyed_lt(
                list_key(tasks, #[trigger] r@[a] as int),
                list_key(tasks, #[trigger] r@[b] as int),
            ),
{
    let n = tasks.len();
    let mut keys: Vec<String> = Vec::new();
    let mut i: usize = 0;
    while i < n
        invariant
            n == tasks.names().len(),
            0 <= i <= n,
            keys@.len() == i,
            forall|j: int| 0 <= j < i ==> #[trigger] keys@[j]@ == lowercase(tasks.names()[j]),
        decreases n - i,
    {
        let k = to_lowercase(tasks.name_at(i).as_str());
        keys.push(k);
        i = i + 1;
    }
    let mut r: Vec<usize> = Vec::new();
    let mut i: usize = 0;
    while i < n
        invariant
            n == tasks.names().len(),
            keys@.len() == n,
            forall|j: int| 0 <= j < n ==> #[trigger] keys@[j]@ == lowercase(tasks.names()[j]),
            0 <= i <= n,
            r@.len() == i,
            forall|a: int| 0 <= a < r@.len() ==> #[trigger] r@[a] < i,
            forall|a: int, b: int|
                0 <= a < b < r@.len() ==> keyed_lt(
                    list_key(tasks, #[trigger] r@[a] as int),
                    list_key(tasks, #[trigger] r@[b] as int),
                ),
        decreases n - i,
    {
        let ghost x = list_key(tasks, i as int);
        let mut pos: usize = 0;
        while pos < r.len() && !(str_less(keys[i].as_str(), keys[r[pos]].as_str()) || (str_equal(
            keys[i].as_str(),
            keys[r[pos]].as_str(),
        ) && i < r[pos]))
            invariant
                n == tasks.names().len(),
                keys@.len() == n,
                forall|j: int| 0 <= j < n ==> #[trigger] keys@[j]@ == lowercase(tasks.names()[j]),
                i < n,
                x == list_key(tasks, i as int),
                forall|a: int| 0 <= a < r@.len() ==> #[trigger] r@[a] < i,
                0 <= pos <= r@.len(),
                forall|a: int| 0 <= a < pos ==> !keyed_lt(x, list_key(tasks, #[trigger] r@[a] as int)),
            decreases r.len() - pos,
        {
            pos = pos + 1;
        }
        let ghost before = r@;
        r.insert(pos, i);
        proof {
            assert forall|a: int| 0 <= a < r@.len() implies #[trigger] r@[a] < i + 1 by {
                if a < pos {
                    assert(r@[a] == before[a]);
                } else if a > pos {
                    assert(r@[a] == before[a - 1]);
                }
            }
            assert forall|a: int, b: int| 0 <= a < b < r@.len() implies keyed_lt(
                list_key(tasks, #[trigger] r@[a] as int),
                list_key(tasks, #[trigger] r@[b] as int),
            ) by {
                let ka = list_key(tasks, r@[a] as int);
                let kb = list_key(tasks, r@[b] as int);
                if a < pos && b == pos {
                    assert(r@[a] == before[a]);
                    assert(before[a] < i);
                    lemma_keyed_order(ka, x, x);
                    assert(ka != x);
                } else if a == pos && b > pos {
                    assert(r@[b] == before[b - 1]);
                    assert(pos < before.len());
                    let kp = list_key(tasks, before[pos as int] as int);
                    assert(keyed_lt(x, kp));
                    if b - 1 > pos {
                        assert(keyed_lt(kp, kb));
                        lemma_keyed_order(x, kp, kb);
                    }
                } else if a < pos && b > pos {
                    assert(r@[a] == before[a] && r@[b] == before[b - 1]);
                } else if b < pos {
                    assert(r@[a] == before[a] && r@[b] == before[b]);
                } else {
                    assert(r@[a] == before[a - 1] && r@[b] == before[b - 1]);
                }
            }
        }
        i = i + 1;
    }
    r
}

/// The kind of project a new configuration is written for.
#[derive(Debug, Clone, Copy, PartialEq, Eq, Structural)]
pub enum ProjectKind {
    /// A Rust crate: the directory holds `Cargo.toml`.
    Cargo,
    /// A Node package: the directory holds `package.json` and no
    /// `Cargo.toml`.
    Node,
    /// Anything else.
    Generic,
}

/// The kind of project, from which of its marker files the directory
/// holds; `Cargo.toml` wins over `package.json`.
pub fn project_kind(has_cargo_toml: bool, has_package_json: bool) -> (k: ProjectKind)
    ensures
        k == (if has_cargo_toml {
            ProjectKind::Cargo
        } else if has_package_json {
            ProjectKind::Node
        } else {
            ProjectKind::Generic
        }),
{
    if has_cargo_toml {
        ProjectKind::Cargo
    } else if has_package_json {
        ProjectKind::Node
    } else {
        ProjectKind::Generic
    }
}

/// A result's label agrees with what the summary counts it as: a dry run
/// is labelled dry; a result restored from the cache, unless planned in a
/// dry run, is labelled cached whether or not it is marked successful;
/// a result is labelled built exactly when the summary counts it as built.
pub proof fn lemma_label_agrees_with_summary(r: TaskResult)
    ensures
        (label_of(r) == ResultLabel::Dry) == counts_for(Tally::Dry, r),
        !r.dry_run && r.cached ==> label_of(r) == ResultLabel::Cached,
        !r.dry_run ==> ((label_of(r) == ResultLabel::Cached) == counts_for(Tally::Cached, r)),
        (label_of(r) == ResultLabel::Built) == counts_for(Tally::Built, r),
        label_of(r) == ResultLabel::Failed ==> counts_for(Tally::Unsuccessful, r),
{
}

/// The DOT lines of a task's edges: one line per dependency, in order,
/// the `j`-th from the `j`-th dependency.
pub proof fn lemma_edge_lines_each(deps: Seq<Seq<char>>, task: Seq<char>)
    ensures
        edge_lines(deps, task).len() == deps.len(),
        forall|j: int| 0 <= j < deps.len() ==> #[trigger] edge_lines(deps, task)[j] == dot_edge(deps[j], task),
    decreases deps.len(),
{
    if deps.len() > 0 {
        let d = deps.drop_last();
        lemma_edge_lines_each(d, task);
        assert forall|j: int| 0 <= j < deps.len() implies #[trigger] edge_lines(deps, task)[j] == dot_edge(
            deps[j],
            task,
        ) by {
            if j < d.len() {
                assert(edge_lines(deps, task)[j] == edge_lines(d, task)[j]);
                assert(deps[j] == d[j]);
            }
        }
    }
}

/// The DOT edge lines of two lists of tasks one after the other are the
/// lines of the first followed by those of the second.
pub proof fn lemma_dot_edges_split(graph: &BuildGraph, a: Seq<Seq<char>>, b: Seq<Seq<char>>)
    ensures
        dot_edges(graph, a + b) == dot_edges(graph, a) + dot_edges(graph, b),
    decreases b.len(),
{
    if b.len() == 0 {
        assert(a + b =~= a);
        assert(dot_edges(graph, a) + dot_edges(graph, b) =~= dot_edges(graph, a));
    } else {
        let bd = b.drop_last();
        lemma_dot_edges_split(graph, a, bd);
        assert((a + b).drop_last() =~= a + bd);
        assert((a + b).last() == b.last());
        let e = edge_lines(graph.dependency_names(b.last()), b.last());
        assert(dot_edges(graph, a) + dot_edges(graph, bd) + e =~= dot_edges(graph, a) + (dot_edges(
            graph,
            bd,
        ) + e));
    }
}

/// The DOT edge lines of one task are its edge lines.
pub proof fn lemma_dot_edges_one(graph: &BuildGraph, t: Seq<char>)
    ensures
        dot_edges(graph, seq![t]) == edge_lines(graph.dependency_names(t), t),
{
    assert(seq![t].drop_last() =~= Seq::<Seq<char>>::empty());
    assert(seq![t].last() == t);
    assert(dot_edges(graph, Seq::<Seq<char>>::empty()) == Seq::<Seq<char>>::empty());
    assert(Seq::<Seq<char>>::empty() + edge_lines(graph.dependency_names(t), t) =~= edge_lines(
        graph.dependency_names(t),
        t,
    ));
}

/// Every edge of every listed task has its DOT line: for each task `t`
/// and each `d` among its dependencies, the line `  "d" -> "t";` is
/// there.
pub proof fn lemma_dot_edges_complete(graph: &BuildGraph, tasks: Seq<Seq<char>>)
    ensures
        forall|i: int, j: int|
            0 <= i < tasks.len() && 0 <= j < graph.dependency_names(tasks[i]).len()
                ==> dot_edges(graph, tasks).contains(
                dot_edge(#[trigger] graph.dependency_names(tasks[i])[j], tasks[i]),
            ),
{
    assert forall|i: int, j: int|
        0 <= i < tasks.len() && 0 <= j < graph.dependency_names(tasks[i]).len() implies dot_edges(
        graph,
        tasks,
    ).contains(dot_edge(#[trigger] graph.dependency_names(tasks[i])[j], tasks[i])) by {
        let t = tasks[i];
        let deps = graph.dependency_names(t);
        let head = tasks.take(i);
        let tail = tasks.skip(i + 1);
        lemma_dot_edges_split(graph, head, seq![t]);
        lemma_dot_edges_split(graph, head + seq![t], tail);
        lemma_dot_edges_one(graph, t);
        lemma_edge_lines_each(deps, t);
        assert(head + seq![t] + tail =~= tasks);
        let x = dot_edges(graph, head);
        let y = dot_edges(graph, tail);
        let m = edge_lines(deps, t);
        assert((x + m + y)[x.len() + j] == m[j]);
    }
}

} // verus!
