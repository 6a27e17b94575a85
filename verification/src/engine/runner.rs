//! What a build reports: the result of each task, the status of each task
//! before a build, and why a task is stale; and the decisions taken for a
//! single task (restore it from the cache, only plan it, or run it).
use crate::text::{join, join_with, views};
use vstd::prelude::*;
use vstd::utf8::encode_utf8;

verus! {

/// The outcome of one task in a build. Times are milliseconds; `start_ms`
/// and `end_ms` count from the start of the build.
#[derive(Debug)]
pub struct TaskResult {
    pub name: String,
    pub success: bool,
    pub cached: bool,
    pub dry_run: bool,
    pub hash: String,
    pub stdout: String,
    pub stderr: String,
    pub duration_ms: u128,
    pub start_ms: u128,
    pub end_ms: u128,
}

impl Clone for TaskResult {
    /// An equal result.
    fn clone(&self) -> (r: TaskResult)
        ensures
            r == *self,
    {
        TaskResult {
            name: self.name.clone(),
            success: self.success,
            cached: self.cached,
            dry_run: self.dry_run,
            hash: self.hash.clone(),
            stdout: self.stdout.clone(),
            stderr: self.stderr.clone(),
            duration_ms: self.duration_ms,
            start_ms: self.start_ms,
            end_ms: self.end_ms,
        }
    }
}

/// Whether a task would rebuild, before a build.
#[derive(Debug, Clone)]
pub struct TaskStatus {
    pub name: String,
    pub cached: bool,
    pub hash: String,
    pub input_count: usize,
    pub deps: Vec<String>,
}

/// Why a task is stale: the input files that changed or went away since
/// the task's last recorded run, and the dependencies that are stale too.
#[derive(Debug, Clone)]
pub struct WhyResult {
    pub task: String,
    pub cached: bool,
    pub hash: String,
    pub changed_files: Vec<String>,
    pub removed_files: Vec<String>,
    pub deps: Vec<String>,
    pub dep_stale: Vec<String>,
}

/// A result that makes the dependents of its task be skipped: it neither
/// succeeded, nor came from the cache, nor was only planned.
pub open spec fn counts_as_failure(r: TaskResult) -> bool {
    !r.success && !r.cached && !r.dry_run
}

/// The message of a task skipped because a dependency failed.
pub open spec fn skip_message(deps: Seq<Seq<char>>) -> Seq<char> {
    "Skipped due to failed dependency: "@ + join_with(deps, ", "@)
}

/// `r` is the result of the task `name`, with dependencies `deps`, skipped
/// because one of them failed.
pub open spec fn is_skipped_result(r: TaskResult, name: Seq<char>, deps: Seq<Seq<char>>) -> bool {
    &&& r.name@ == name
    &&& !r.success
    &&& !r.cached
    &&& !r.dry_run
    &&& r.hash@ == Seq::<char>::empty()
    &&& r.stdout@ == Seq::<char>::empty()
    &&& r.stderr@ == skip_message(deps)
    &&& r.duration_ms == 0
    &&& r.start_ms == 0
    &&& r.end_ms == 0
}

/// The result of a task skipped because one of its dependencies failed.
pub fn skipped_result(name: &str, deps: &[String]) -> (r: TaskResult)
    ensures
        is_skipped_result(r, name@, views(deps@)),
{
    let mut stderr = String::from_str("Skipped due to failed dependency: ");
    let listed = join(deps, ", ");
    stderr.append(listed.as_str());
    proof {
        reveal_strlit("Skipped due to failed dependency: ");
        reveal_strlit(", ");
    }
    TaskResult {
        name: name.to_string(),
        success: false,
        cached: false,
        dry_run: false,
        hash: String::new(),
        stdout: String::new(),
        stderr,
        duration_ms: 0,
        start_ms: 0,
        end_ms: 0,
    }
}

/// What to do with a task once its hash is known.
#[derive(Debug, Clone, Copy, PartialEq, Eq, Structural)]
pub enum TaskPlan {
    /// The cache holds the task's hash: report it cached, without running it.
    UseCache,
    /// A dry run: report what would run, without running it.
    DryRun,
    /// Run the command.
    Execute,
}

/// The plan for a task. `cache_hit` tells whether the cache holds the
/// task's hash; with `force` the cache is not consulted.
pub fn plan_task(force: bool, dry_run: bool, cache_hit: bool) -> (p: TaskPlan)
    ensures
        p == (if !force && cache_hit {
            TaskPlan::UseCache
        } else if dry_run {
            TaskPlan::DryRun
        } else {
            TaskPlan::Execute
        }),
{
    if !force && cache_hit {
        TaskPlan::UseCache
    } else if dry_run {
        TaskPlan::DryRun
    } else {
        TaskPlan::Execute
    }
}

/// Whether a task restored from the cache gets its outputs copied back:
/// yes, unless the build is a dry run.
pub fn restores_outputs(plan: TaskPlan, dry_run: bool) -> (b: bool)
    ensures
        b == (plan == TaskPlan::UseCache && !dry_run),
{
    plan == TaskPlan::UseCache && !dry_run
}

/// Whether a task's outputs, input manifest and hash are stored in the
/// cache after its plan was carried out: only when its command ran and
/// succeeded.
pub fn stores_entry(plan: TaskPlan, command_succeeded: bool) -> (b: bool)
    ensures
        b == (plan == TaskPlan::Execute && command_succeeded),
{
    plan == TaskPlan::Execute && command_succeeded
}

/// The number of colours that task names are shown in.
pub const PALETTE_SIZE: usize = 12;

/// The code of a task name: starting from 0, for each byte, times 31 plus
/// the byte, wrapping at 2^32.
pub open spec fn name_code(bytes: Seq<u8>) -> u32
    decreases bytes.len(),
{
    if bytes.len() == 0 {
        0
    } else {
        vstd::wrapping::u32_specs::wrapping_add(
            vstd::wrapping::u32_specs::wrapping_mul(name_code(bytes.drop_last()), 31),
            bytes.last() as u32,
        )
    }
}

/// The colour of a task's output lines, as an index into the palette:
/// the code of the name's UTF-8 bytes, modulo the palette size.
pub fn palette_index(name: &str) -> (i: usize)
    ensures
        i == name_code(encode_utf8(name@)) as usize % PALETTE_SIZE,
{
    let bytes = name.as_bytes();
    let mut code: u32 = 0;
    let mut k: usize = 0;
    while k < bytes.len()
        invariant
            bytes@ == encode_utf8(name@),
            0 <= k <= bytes@.len(),
            code == name_code(bytes@.take(k as int)),
        decreases bytes.len() - k,
    {
        proof {
            assert(bytes@.take(k + 1).drop_last() =~= bytes@.take(k as int));
        }
        code = code.wrapping_mul(31).wrapping_add(bytes[k] as u32);
        k = k + 1;
    }
    assert(bytes@.take(k as int) =~= bytes@);
    (code as usize) % PALETTE_SIZE
}

} // verus!
