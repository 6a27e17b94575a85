//! Looking at a build without running it: the hash every task would have,
//! whether it would rebuild, and why a task is stale.
use crate::cache::FileHash;
use crate::config::task::{distinct_names, BuildConfig, TaskConfig, TaskMap};
use crate::dag::graph::name_index;
use crate::engine::digest::is_hex_hash;
use crate::engine::hashing::{digest_of, hash_task, pair_views, task_text};
use crate::engine::runner::{TaskStatus, WhyResult};
use crate::text::{str_equal, views};
use vstd::prelude::*;

verus! {

/// The hash of the latest of the first `k` tasks of `names` that is called
/// `d`.
pub open spec fn lookup_hash(names: Seq<Seq<char>>, hashes: Seq<Seq<char>>, d: Seq<char>, k: int) -> Option<
    Seq<char>,
>
    decreases k,
{
    if k <= 0 {
        None
    } else if names[k - 1] == d {
        Some(hashes[k - 1])
    } else {
        lookup_hash(names, hashes, d, k - 1)
    }
}

/// `(name, hash)` for each dependency in `deps` that is among the first
/// `k` tasks, in list order.
pub open spec fn dep_pairs(
    names: Seq<Seq<char>>,
    hashes: Seq<Seq<char>>,
    k: int,
    deps: Seq<Seq<char>>,
) -> Seq<(Seq<char>, Seq<char>)>
    decreases deps.len(),
{
    if deps.len() == 0 {
        Seq::empty()
    } else {
        let rest = dep_pairs(names, hashes, k, deps.drop_last());
        match lookup_hash(names, hashes, deps.last(), k) {
            Some(h) => rest.push((deps.last(), h)),
            None => rest,
        }
    }
}

/// The task called `name`.
pub open spec fn task_named(tasks: &TaskMap, name: Seq<char>) -> TaskConfig {
    tasks.tasks()[name_index(tasks.names(), name)]
}

/// The hash of each task of `order`, in order: the digest of its command,
/// its input hash and the hashes of those of its dependencies that come
/// before it in `order`.
pub open spec fn chained_hashes(tasks: &TaskMap, order: Seq<Seq<char>>, inputs: Seq<Seq<char>>) -> Seq<
    Seq<char>,
>
    decreases order.len(),
{
    if order.len() == 0 {
        Seq::empty()
    } else {
        let k = order.len() - 1;
        let prev = chained_hashes(tasks, order.drop_last(), inputs.drop_last());
        let t = task_named(tasks, order[k]);
        prev.push(
            digest_of(task_text(t.command@, inputs[k], dep_pairs(order, prev, k, t.dep_names()))),
        )
    }
}

/// Only the first `k` names matter to a lookup among the first `k` tasks.
proof fn lemma_lookup_prefix(
    a: Seq<Seq<char>>,
    b: Seq<Seq<char>>,
    hashes: Seq<Seq<char>>,
    d: Seq<char>,
    k: int,
)
    requires
        k <= a.len(),
        k <= b.len(),
        forall|i: int| 0 <= i < k ==> a[i] == b[i],
    ensures
        lookup_hash(a, hashes, d, k) == lookup_hash(b, hashes, d, k),
    decreases k,
{
    if k > 0 {
        lemma_lookup_prefix(a, b, hashes, d, k - 1);
    }
}

proof fn lemma_pairs_prefix(
    a: Seq<Seq<char>>,
    b: Seq<Seq<char>>,
    hashes: Seq<Seq<char>>,
    k: int,
    deps: Seq<Seq<char>>,
)
    requires
        k <= a.len(),
        k <= b.len(),
        forall|i: int| 0 <= i < k ==> a[i] == b[i],
    ensures
        dep_pairs(a, hashes, k, deps) == dep_pairs(b, hashes, k, deps),
    decreases deps.len(),
{
    if deps.len() > 0 {
        lemma_pairs_prefix(a, b, hashes, k, deps.drop_last());
        lemma_lookup_prefix(a, b, hashes, deps.last(), k);
    }
}

/// The hash of the latest of the first `hashes.len()` tasks of `order`
/// called `d`.
fn lookup(order: &[String], hashes: &Vec<String>, d: &str) -> (r: Option<String>)
    requires
        hashes@.len() <= order@.len(),
    ensures
        match r {
            Some(h) => lookup_hash(views(order@), views(hashes@), d@, hashes@.len() as int) == Some(
                h@,
            ),
            None => lookup_hash(views(order@), views(hashes@), d@, hashes@.len() as int) is None,
        },
{
    let mut k: usize = hashes.len();
    while k > 0
        invariant
            0 <= k <= hashes@.len(),
            hashes@.len() <= order@.len(),
            lookup_hash(views(order@), views(hashes@), d@, hashes@.len() as int) == lookup_hash(
                views(order@),
                views(hashes@),
                d@,
                k as int,
            ),
        decreases k,
    {
        if str_equal(order[k - 1].as_str(), d) {
            return Some(hashes[k - 1].clone());
        }
        k = k - 1;
    }
    None
}

/// The pairs of `dep_pairs` over the first `hashes.len()` tasks of `order`.
fn pairs_of(order: &[String], hashes: &Vec<String>, deps: &Vec<String>) -> (r: Vec<(String, String)>)
    requires
        hashes@.len() <= order@.len(),
    ensures
        pair_views(r@) == dep_pairs(
            views(order@),
            views(hashes@),
            hashes@.len() as int,
            views(deps@),
        ),
{
    let ghost ds = views(deps@);
    let mut r: Vec<(String, String)> = Vec::new();
    let mut j: usize = 0;
    while j < deps.len()
        invariant
            hashes@.len() <= order@.len(),
            ds == views(deps@),
            0 <= j <= deps@.len(),
            pair_views(r@) == dep_pairs(
                views(order@),
                views(hashes@),
                hashes@.len() as int,
                ds.take(j as int),
            ),
        decreases deps.len() - j,
    {
        proof {
            assert(ds.take(j + 1).drop_last() =~= ds.take(j as int));
            assert(ds.take(j + 1).last() == deps@[j as int]@);
        }
        match lookup(order, hashes, deps[j].as_str()) {
            Some(h) => {
                let ghost before = r@;
                r.push((deps[j].clone(), h));
                assert(pair_views(r@) =~= pair_views(before).push((deps@[j as int]@, h@)));
            },
            None => {},
        }
        j = j + 1;
    }
    assert(ds.take(j as int) =~= ds);
    r
}

/// The task called `name`, which the map holds.
fn task_called<'a>(tasks: &'a TaskMap, name: &str) -> (t: &'a TaskConfig)
    requires
        tasks.names().contains(name@),
    ensures
        *t == task_named(tasks, name@),
{
    tasks.names_distinct();
    let _ = tasks.len();
    match tasks.position(name) {
        Some(p) => {
            proof {
                let q = name_index(tasks.names(), name@);
                assert(0 <= q < tasks.names().len() && tasks.names()[q] == name@);
                assert(tasks.names()[p as int] == name@);
            }
            tasks.task_at(p)
        },
        None => {
            proof {
                assert(false);
            }
            tasks.task_at(0)
        },
    }
}

/// The hash of each task of `order`, taken in order: `input_hashes[k]` is
/// the hash of the inputs of `order[k]`, and a dependency counts with the
/// hash computed for it before.
pub fn chain_hashes(config: &BuildConfig, order: &[String], input_hashes: &[String]) -> (r: Vec<
    String,
>)
    requires
        input_hashes@.len() == order@.len(),
        forall|k: int| 0 <= k < order@.len() ==> config.tasks.names().contains(#[trigger] order@[k]@),
    ensures
        views(r@) == chained_hashes(&config.tasks, views(order@), views(input_hashes@)),
        forall|k: int| 0 <= k < r@.len() ==> is_hex_hash(#[trigger] r@[k]@),
{
    let ghost ov = views(order@);
    let ghost iv = views(input_hashes@);
    let mut r: Vec<String> = Vec::new();
    let mut k: usize = 0;
    while k < order.len()
        invariant
            ov == views(order@),
            iv == views(input_hashes@),
            input_hashes@.len() == order@.len(),
            forall|k: int| 0 <= k < order@.len() ==> config.tasks.names().contains(#[trigger] order@[k]@),
            0 <= k <= order@.len(),
            r@.len() == k,
            views(r@) == chained_hashes(&config.tasks, ov.take(k as int), iv.take(k as int)),
            forall|j: int| 0 <= j < r@.len() ==> is_hex_hash(#[trigger] r@[j]@),
        decreases order.len() - k,
    {
        let task = task_called(&config.tasks, order[k].as_str());
        let pairs = pairs_of(order, &r, &task.deps);
        let h = hash_task(task.command.as_str(), input_hashes[k].as_str(), pairs.as_slice());
        proof {
            let o1 = ov.take(k + 1);
            let i1 = iv.take(k + 1);
            assert(o1.drop_last() =~= ov.take(k as int));
            assert(i1.drop_last() =~= iv.take(k as int));
            assert(o1[k as int] == order@[k as int]@);
            assert(i1[k as int] == input_hashes@[k as int]@);
            assert(views(task.deps@) =~= task.dep_names());
            lemma_pairs_prefix(ov, o1, views(r@), k as int, task.dep_names());
        }
        r.push(h);
        proof {
            assert(views(r@) =~= chained_hashes(&config.tasks, ov.take(k + 1), iv.take(k + 1)));
        }
        k = k + 1;
    }
    assert(ov.take(k as int) =~= ov);
    assert(iv.take(k as int) =~= iv);
    r
}

/// The hash that `chain_hashes` gave the task called `name`: that of its
/// last occurrence in `order`.
pub fn hash_for(order: &[String], hashes: &Vec<String>, name: &str) -> (r: Option<String>)
    requires
        hashes@.len() == order@.len(),
    ensures
        match r {
            Some(h) => lookup_hash(views(order@), views(hashes@), name@, order@.len() as int) == Some(
                h@,
            ),
            None => lookup_hash(views(order@), views(hashes@), name@, order@.len() as int) is None,
        },
{
    lookup(order, hashes, name)
}

/// The status of each task of `order`: its name, whether the cache holds
/// its hash (`cached[k]`), its hash (`hashes[k]`), the number of its input
/// files (`input_counts[k]`) and its dependencies.
pub fn task_statuses(
    config: &BuildConfig,
    order: &[String],
    hashes: &[String],
    cached: &[bool],
    input_counts: &[usize],
) -> (r: Vec<TaskStatus>)
    requires
        hashes@.len() == order@.len(),
        cached@.len() == order@.len(),
        input_counts@.len() == order@.len(),
        forall|k: int| 0 <= k < order@.len() ==> config.tasks.names().contains(#[trigger] order@[k]@),
    ensures
        r@.len() == order@.len(),
        forall|k: int|
            #![trigger r@[k]]
            0 <= k < order@.len() ==> {
                &&& r@[k].name@ == order@[k]@
                &&& r@[k].cached == cached@[k]
                &&& r@[k].hash@ == hashes@[k]@
                &&& r@[k].input_count == input_counts@[k]
                &&& views(r@[k].deps@) == task_named(&config.tasks, order@[k]@).dep_names()
            },
{
    let mut r: Vec<TaskStatus> = Vec::new();
    let mut k: usize = 0;
    while k < order.len()
        invariant
            hashes@.len() == order@.len(),
            cached@.len() == order@.len(),
            input_counts@.len() == order@.len(),
            forall|k: int| 0 <= k < order@.len() ==> config.tasks.names().contains(#[trigger] order@[k]@),
            0 <= k <= order@.len(),
            r@.len() == k,
            forall|j: int|
                #![trigger r@[j]]
                0 <= j < k ==> {
                    &&& r@[j].name@ == order@[j]@
                    &&& r@[j].cached == cached@[j]
                    &&& r@[j].hash@ == hashes@[j]@
                    &&& r@[j].input_count == input_counts@[j]
                    &&& views(r@[j].deps@) == task_named(&config.tasks, order@[j]@).dep_names()
                },
        decreases order.len() - k,
    {
        let task = task_called(&config.tasks, order[k].as_str());
        let deps = copy_list(&task.deps);
        proof {
            assert(views(task.deps@) =~= task.dep_names());
        }
        r.push(
            TaskStatus {
                name: order[k].clone(),
                cached: cached[k],
                hash: hashes[k].clone(),
                input_count: input_counts[k],
                deps,
            },
        );
        k = k + 1;
    }
    r
}

/// A copy of a list of strings.
fn copy_list(v: &Vec<String>) -> (r: Vec<String>)
    ensures
        views(r@) == views(v@),
{
    let mut r: Vec<String> = Vec::new();
    let mut i: usize = 0;
    while i < v.len()
        invariant
            0 <= i <= v@.len(),
            r@.len() == i,
            forall|j: int| 0 <= j < i ==> #[trigger] r@[j]@ == v@[j]@,
        decreases v.len() - i,
    {
        r.push(v[i].clone());
        i = i + 1;
    }
    assert(views(r@) =~= views(v@));
    r
}

/// The hash that a manifest records for `path`; the last line for it
/// counts.
pub open spec fn manifest_hash(m: Seq<FileHash>, path: Seq<char>) -> Option<Seq<char>>
    decreases m.len(),
{
    if m.len() == 0 {
        None
    } else if m.last().path@ == path {
        Some(m.last().hash@)
    } else {
        manifest_hash(m.drop_last(), path)
    }
}

/// The current files, given as `(path, hash)` in order, whose hash is not
/// the one the manifest records for them (or that it does not list).
pub open spec fn changed_files(m: Seq<FileHash>, current: Seq<(Seq<char>, Seq<char>)>) -> Seq<
    Seq<char>,
>
    decreases current.len(),
{
    if current.len() == 0 {
        Seq::empty()
    } else {
        let rest = changed_files(m, current.drop_last());
        if manifest_hash(m, current.last().0) == Some(current.last().1) {
            rest
        } else {
            rest.push(current.last().0)
        }
    }
}

/// The files the manifest lists, in its order, that are not among the
/// current paths.
pub open spec fn removed_files(m: Seq<FileHash>, current_paths: Seq<Seq<char>>) -> Seq<Seq<char>>
    decreases m.len(),
{
    if m.len() == 0 {
        Seq::empty()
    } else {
        let rest = removed_files(m.drop_last(), current_paths);
        if current_paths.contains(m.last().path@) {
            rest
        } else {
            rest.push(m.last().path@)
        }
    }
}

/// The paths of `(path, hash)` pairs.
pub open spec fn paths_of(current: Seq<(Seq<char>, Seq<char>)>) -> Seq<Seq<char>> {
    current.map_values(|p: (Seq<char>, Seq<char>)| p.0)
}

/// The dependencies, in order, whose flag says the cache does not hold
/// their hash.
pub open spec fn stale_deps(deps: Seq<Seq<char>>, cached: Seq<bool>) -> Seq<Seq<char>>
    decreases deps.len(),
{
    if deps.len() == 0 {
        Seq::empty()
    } else {
        let rest = stale_deps(deps.drop_last(), cached);
        if cached[deps.len() - 1] {
            rest
        } else {
            rest.push(deps.last())
        }
    }
}

/// The hash the manifest records for `path`.
fn recorded_hash(manifest: &[FileHash], path: &str) -> (r: Option<String>)
    ensures
        match r {
            Some(h) => manifest_hash(manifest@, path@) == Some(h@),
            None => manifest_hash(manifest@, path@) is None,
        },
{
    let mut k: usize = manifest.len();
    assert(manifest@.take(k as int) =~= manifest@);
    while k > 0
        invariant
            0 <= k <= manifest@.len(),
            manifest_hash(manifest@, path@) == manifest_hash(manifest@.take(k as int), path@),
        decreases k,
    {
        proof {
            assert(manifest@.take(k as int).drop_last() =~= manifest@.take(k - 1));
        }
        if str_equal(manifest[k - 1].path.as_str(), path) {
            return Some(manifest[k - 1].hash.clone());
        }
        k = k - 1;
    }
    None
}

/// Whether `path` is one of the current paths.
fn among(current: &[(String, String)], path: &str) -> (b: bool)
    ensures
        b == paths_of(pair_views(current@)).contains(path@),
{
    let ghost ps = paths_of(pair_views(current@));
    let mut k: usize = 0;
    while k < current.len()
        invariant
            ps == paths_of(pair_views(current@)),
            ps.len() == current@.len(),
            0 <= k <= current@.len(),
            forall|j: int| 0 <= j < k ==> ps[j] != path@,
        decreases current.len() - k,
    {
        assert(ps[k as int] == current@[k as int].0@);
        if str_equal(current[k].0.as_str(), path) {
            return true;
        }
        k = k + 1;
    }
    false
}

/// The current files whose hash changed since the manifest was written,
/// and the files of the manifest that are gone. `current` holds the
/// current input files as `(path, hash)`, in order.
pub fn diff_manifest(manifest: &[FileHash], current: &[(String, String)]) -> (r: (
    Vec<String>,
    Vec<String>,
))
    ensures
        views(r.0@) == changed_files(manifest@, pair_views(current@)),
        views(r.1@) == removed_files(manifest@, paths_of(pair_views(current@))),
{
    let ghost cv = pair_views(current@);
    let mut changed: Vec<String> = Vec::new();
    let mut k: usize = 0;
    while k < current.len()
        invariant
            cv == pair_views(current@),
            0 <= k <= current@.len(),
            views(changed@) == changed_files(manifest@, cv.take(k as int)),
        decreases current.len() - k,
    {
        proof {
            assert(cv.take(k + 1).drop_last() =~= cv.take(k as int));
            assert(cv.take(k + 1).last() == (current@[k as int].0@, current@[k as int].1@));
        }
        let same = match recorded_hash(manifest, current[k].0.as_str()) {
            Some(h) => str_equal(h.as_str(), current[k].1.as_str()),
            None => false,
        };
        if !same {
            changed.push(current[k].0.clone());
            assert(views(changed@) =~= changed_files(manifest@, cv.take(k + 1)));
        }
        k = k + 1;
    }
    assert(cv.take(k as int) =~= cv);
    let ghost ps = paths_of(cv);
    let mut removed: Vec<String> = Vec::new();
    let mut k: usize = 0;
    while k < manifest.len()
        invariant
            cv == pair_views(current@),
            ps == paths_of(cv),
            0 <= k <= manifest@.len(),
            views(removed@) == removed_files(manifest@.take(k as int), ps),
        decreases manifest.len() - k,
    {
        proof {
            assert(manifest@.take(k + 1).drop_last() =~= manifest@.take(k as int));
        }
        if !among(current, manifest[k].path.as_str()) {
            removed.push(manifest[k].path.clone());
            assert(views(removed@) =~= removed_files(manifest@.take(k + 1), ps));
        }
        k = k + 1;
    }
    assert(manifest@.take(k as int) =~= manifest@);
    (changed, removed)
}

/// The dependencies whose flag says the cache does not hold their hash.
fn stale_of(deps: &Vec<String>, cached: &[bool]) -> (r: Vec<String>)
    requires
        cached@.len() == deps@.len(),
    ensures
        views(r@) == stale_deps(views(deps@), cached@),
{
    let ghost dv = views(deps@);
    let mut r: Vec<String> = Vec::new();
    let mut k: usize = 0;
    while k < deps.len()
        invariant
            dv == views(deps@),
            cached@.len() == deps@.len(),
            0 <= k <= deps@.len(),
            views(r@) == stale_deps(dv.take(k as int), cached@),
        decreases deps.len() - k,
    {
        proof {
            assert(dv.take(k + 1).drop_last() =~= dv.take(k as int));
        }
        if !cached[k] {
            r.push(deps[k].clone());
            assert(views(r@) =~= stale_deps(dv.take(k + 1), cached@));
        }
        k = k + 1;
    }
    assert(dv.take(k as int) =~= dv);
    r
}

/// Why `task`, called `task_name`, is stale. `cached` tells whether the
/// cache holds its current `hash`; `manifest` is the manifest of the
/// hash it was last built with, if one is recorded; `current` lists its
/// current input files as `(path, hash)`; `dep_cached[j]` tells whether
/// the cache holds the hash of its `j`-th dependency. A cached task has
/// no changed or removed files; neither has one without a manifest.
pub fn why_report(
    task_name: &str,
    task: &TaskConfig,
    hash: &str,
    cached: bool,
    manifest: &Option<Vec<FileHash>>,
    current: &[(String, String)],
    dep_cached: &[bool],
) -> (w: WhyResult)
    requires
        dep_cached@.len() == task.deps@.len(),
    ensures
        w.task@ == task_name@,
        w.cached == cached,
        w.hash@ == hash@,
        views(w.deps@) == task.dep_names(),
        views(w.dep_stale@) == stale_deps(task.dep_names(), dep_cached@),
        match manifest {
            Some(m) if !cached => views(w.changed_files@) == changed_files(
                m@,
                pair_views(current@),
            ) && views(w.removed_files@) == removed_files(m@, paths_of(pair_views(current@))),
            _ => w.changed_files@.len() == 0 && w.removed_files@.len() == 0,
        },
{
    let (changed, removed) = match manifest {
        Some(m) if !cached => diff_manifest(m.as_slice(), current),
        _ => (Vec::new(), Vec::new()),
    };
    let deps = copy_list(&task.deps);
    let dep_stale = stale_of(&task.deps, dep_cached);
    proof {
        assert(views(task.deps@) =~= task.dep_names());
    }
    WhyResult {
        task: task_name.to_string(),
        cached,
        hash: hash.to_string(),
        changed_files: changed,
        removed_files: removed,
        deps,
        dep_stale,
    }
}

/// The dependency pairs of two lists one after the other are the pairs of
/// the first list followed by the pairs of the second: every dependency
/// contributes on its own, wherever it stands in the list.
pub proof fn lemma_dep_pairs_split(
    names: Seq<Seq<char>>,
    hashes: Seq<Seq<char>>,
    k: int,
    a: Seq<Seq<char>>,
    b: Seq<Seq<char>>,
)
    ensures
        dep_pairs(names, hashes, k, a + b) == dep_pairs(names, hashes, k, a) + dep_pairs(
            names,
            hashes,
            k,
            b,
        ),
    decreases b.len(),
{
    if b.len() == 0 {
        assert(a + b =~= a);
        assert(dep_pairs(names, hashes, k, a) + dep_pairs(names, hashes, k, b) =~= dep_pairs(
            names,
            hashes,
            k,
            a,
        ));
    } else {
        let bd = b.drop_last();
        lemma_dep_pairs_split(names, hashes, k, a, bd);
        assert((a + b).drop_last() =~= a + bd);
        assert((a + b).last() == b.last());
        let ra = dep_pairs(names, hashes, k, a);
        let rb = dep_pairs(names, hashes, k, bd);
        match lookup_hash(names, hashes, b.last(), k) {
            Some(h) => {
                assert((ra + rb).push((b.last(), h)) =~= ra + rb.push((b.last(), h)));
            },
            None => {},
        }
    }
}

/// A single dependency gives its pair when its hash is known, and nothing
/// otherwise.
pub proof fn lemma_dep_pairs_one(names: Seq<Seq<char>>, hashes: Seq<Seq<char>>, k: int, d: Seq<char>)
    ensures
        dep_pairs(names, hashes, k, seq![d]) == (match lookup_hash(names, hashes, d, k) {
            Some(h) => seq![(d, h)],
            None => Seq::empty(),
        }),
{
    assert(seq![d].drop_last() =~= Seq::<Seq<char>>::empty());
    assert(seq![d].last() == d);
    assert(dep_pairs(names, hashes, k, Seq::<Seq<char>>::empty()) == Seq::<(Seq<char>, Seq<char>)>::empty());
    match lookup_hash(names, hashes, d, k) {
        Some(h) => {
            assert(Seq::<(Seq<char>, Seq<char>)>::empty().push((d, h)) =~= seq![(d, h)]);
        },
        None => {},
    }
}

/// Every listed dependency whose hash is known contributes its
/// `(name, hash)` pair, and there is at most one pair per dependency.
pub proof fn lemma_dep_pairs_complete(
    names: Seq<Seq<char>>,
    hashes: Seq<Seq<char>>,
    k: int,
    deps: Seq<Seq<char>>,
)
    ensures
        forall|j: int|
            0 <= j < deps.len() && lookup_hash(names, hashes, #[trigger] deps[j], k) is Some
                ==> dep_pairs(names, hashes, k, deps).contains(
                (deps[j], lookup_hash(names, hashes, deps[j], k)->0),
            ),
        dep_pairs(names, hashes, k, deps).len() <= deps.len(),
    decreases deps.len(),
{
    if deps.len() > 0 {
        lemma_dep_pairs_complete(names, hashes, k, deps.drop_last());
    }
    assert forall|j: int|
        0 <= j < deps.len() && lookup_hash(names, hashes, #[trigger] deps[j], k) is Some implies dep_pairs(
        names,
        hashes,
        k,
        deps,
    ).contains((deps[j], lookup_hash(names, hashes, deps[j], k)->0)) by {
        let h = lookup_hash(names, hashes, deps[j], k)->0;
        let head = deps.take(j);
        let tail = deps.skip(j + 1);
        lemma_dep_pairs_split(names, hashes, k, head, seq![deps[j]]);
        lemma_dep_pairs_split(names, hashes, k, head + seq![deps[j]], tail);
        lemma_dep_pairs_one(names, hashes, k, deps[j]);
        assert(head + seq![deps[j]] + tail =~= deps);
        let x = dep_pairs(names, hashes, k, head);
        let y = dep_pairs(names, hashes, k, tail);
        assert((x + seq![(deps[j], h)] + y)[x.len() as int] == (deps[j], h));
    }
}

/// The stale dependencies of two lists one after the other are those of
/// the first list followed by those of the second, each read against its
/// own flags: every dependency is judged on its own.
pub proof fn lemma_stale_deps_split(a: Seq<Seq<char>>, b: Seq<Seq<char>>, cached: Seq<bool>)
    requires
        a.len() + b.len() <= cached.len(),
    ensures
        stale_deps(a + b, cached) == stale_deps(a, cached) + stale_deps(
            b,
            cached.skip(a.len() as int),
        ),
    decreases b.len(),
{
    if b.len() == 0 {
        assert(a + b =~= a);
        assert(stale_deps(a, cached) + stale_deps(b, cached.skip(a.len() as int)) =~= stale_deps(
            a,
            cached,
        ));
    } else {
        let bd = b.drop_last();
        let rest = cached.skip(a.len() as int);
        lemma_stale_deps_split(a, bd, cached);
        assert((a + b).drop_last() =~= a + bd);
        assert((a + b).last() == b.last());
        assert(cached[(a + b).len() - 1] == rest[b.len() - 1]);
        let ra = stale_deps(a, cached);
        let rb = stale_deps(bd, rest);
        assert((ra + rb).push(b.last()) =~= ra + rb.push(b.last()));
    }
}

/// A single dependency is stale exactly when its flag says the cache does
/// not hold its hash.
pub proof fn lemma_stale_deps_one(d: Seq<char>, cached: Seq<bool>)
    requires
        cached.len() > 0,
    ensures
        stale_deps(seq![d], cached) == (if cached[0] {
            Seq::<Seq<char>>::empty()
        } else {
            seq![d]
        }),
{
    assert(seq![d].drop_last() =~= Seq::<Seq<char>>::empty());
    assert(seq![d].last() == d);
    assert(stale_deps(Seq::<Seq<char>>::empty(), cached) == Seq::<Seq<char>>::empty());
    assert(Seq::<Seq<char>>::empty().push(d) =~= seq![d]);
}

/// Every dependency whose flag is false is listed as stale, every listed
/// one is a dependency whose flag is false, and there are no more stale
/// dependencies than dependencies.
pub proof fn lemma_stale_deps_complete(deps: Seq<Seq<char>>, cached: Seq<bool>)
    requires
        cached.len() == deps.len(),
    ensures
        forall|j: int|
            0 <= j < deps.len() && !cached[j] ==> stale_deps(deps, cached).contains(
                #[trigger] deps[j],
            ),
        forall|i: int|
            0 <= i < stale_deps(deps, cached).len() ==> exists|j: int|
                0 <= j < deps.len() && !cached[j] && deps[j] == #[trigger] stale_deps(
                    deps,
                    cached,
                )[i],
        stale_deps(deps, cached).len() <= deps.len(),
    decreases deps.len(),
{
    if deps.len() > 0 {
        let d = deps.drop_last();
        let c = cached.drop_last();
        lemma_stale_deps_complete(d, c);
        lemma_stale_deps_prefix(d, cached);
        let r = stale_deps(deps, cached);
        assert forall|i: int| 0 <= i < r.len() implies exists|j: int|
            0 <= j < deps.len() && !cached[j] && deps[j] == #[trigger] r[i] by {
            if i < stale_deps(d, c).len() {
                assert(r[i] == stale_deps(d, c)[i]);
                let j = choose|j: int|
                    0 <= j < d.len() && !c[j] && d[j] == #[trigger] stale_deps(d, c)[i];
                assert(deps[j] == d[j] && cached[j] == c[j]);
            } else {
                assert(r[i] == deps.last());
                assert(deps[deps.len() - 1] == r[i]);
            }
        }
    }
    assert forall|j: int| 0 <= j < deps.len() && !cached[j] implies stale_deps(deps, cached).contains(
        #[trigger] deps[j],
    ) by {
        let head = deps.take(j);
        let tail = deps.skip(j + 1);
        lemma_stale_deps_split(head, seq![deps[j]], cached);
        lemma_stale_deps_split(head + seq![deps[j]], tail, cached);
        lemma_stale_deps_one(deps[j], cached.skip(j));
        assert(head + seq![deps[j]] + tail =~= deps);
        assert((head + seq![deps[j]]).len() == j + 1);
        let x = stale_deps(head, cached);
        let y = stale_deps(tail, cached.skip(j + 1));
        assert((x + seq![deps[j]] + y)[x.len() as int] == deps[j]);
    }
}

/// The stale dependencies read only the flags of the dependencies.
proof fn lemma_stale_deps_prefix(deps: Seq<Seq<char>>, cached: Seq<bool>)
    requires
        deps.len() <= cached.len(),
    ensures
        stale_deps(deps, cached) == stale_deps(deps, cached.take(deps.len() as int)),
    decreases deps.len(),
{
    if deps.len() > 0 {
        let d = deps.drop_last();
        lemma_stale_deps_prefix(d, cached);
        lemma_stale_deps_prefix(d, cached.take(deps.len() as int));
        assert(cached.take(deps.len() as int).take(d.len() as int) =~= cached.take(d.len() as int));
    }
}

} // verus!
