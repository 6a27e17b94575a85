//! Watching for changes: which changes count, and when a burst of changes
//! has settled long enough to rebuild.
use crate::text::{has_substring, str_contains, views};
use vstd::prelude::*;
use vstd::utf8::encode_utf8;

verus! {

/// How long changes must settle before a rebuild, in milliseconds.
pub const DEBOUNCE_MS: u128 = 200;

/// A path that changes do not count for: one under the cache directory or
/// under a `target` directory.
pub open spec fn is_ignored(path: Seq<char>) -> bool {
    has_substring(encode_utf8(path), encode_utf8(".buildsmith/cache"@)) || has_substring(
        encode_utf8(path),
        encode_utf8("/target/"@),
    )
}

/// Whether changes to `path` are ignored.
pub fn ignored_path(path: &str) -> (b: bool)
    ensures
        b == is_ignored(path@),
{
    str_contains(path, ".buildsmith/cache") || str_contains(path, "/target/")
}

/// Some path of `paths` is ignored.
pub open spec fn any_ignored(paths: Seq<Seq<char>>) -> bool {
    exists|k: int| 0 <= k < paths.len() && is_ignored(#[trigger] paths[k])
}

/// What the watcher reports.
#[derive(Debug)]
pub enum WatchEvent {
    /// Files changed. `relevant` tells whether they were created, modified
    /// or removed (and not only accessed, say); `paths` names them.
    Change { relevant: bool, paths: Vec<String> },
    /// The watcher reported an error.
    Error,
    /// Nothing happened within the polling interval.
    Quiet,
    /// The watcher is gone.
    Closed,
}

/// What to do after an event.
#[derive(Debug, Clone, Copy, PartialEq, Eq, Structural)]
pub enum WatchAction {
    /// Keep waiting.
    Wait,
    /// Drop the events still queued and rebuild.
    Rebuild,
    /// Stop watching.
    Stop,
}

/// Changes that count, waiting to settle.
#[derive(Debug)]
pub struct Debouncer {
    last_change_ms: Option<u128>,
}

impl Debouncer {
    /// The time of the last change that counted and has not led to a
    /// rebuild yet.
    pub closed spec fn pending(&self) -> Option<u128> {
        self.last_change_ms
    }

    /// Nothing waits to settle.
    pub fn new() -> (d: Debouncer)
        ensures
            d.pending() is None,
    {
        Debouncer { last_change_ms: None }
    }

    /// Takes the event that the watcher reported at time `now_ms`. The
    /// watcher closing stops the watch. A change that is not a creation,
    /// modification or removal, or that touches an ignored path, is dropped
    /// without anything else. A change that counts is noted at `now_ms`.
    /// Otherwise, once the last change that counts is `DEBOUNCE_MS` old, it
    /// is time to rebuild.
    pub fn on_event(&mut self, event: &WatchEvent, now_ms: u128) -> (a: WatchAction)
        ensures
            match event {
                WatchEvent::Closed => a == WatchAction::Stop && final(self).pending() == old(
                    self,
                ).pending(),
                WatchEvent::Change { relevant, paths } => if !*relevant || any_ignored(
                    views(paths@),
                ) {
                    a == WatchAction::Wait && final(self).pending() == old(self).pending()
                } else {
                    a == WatchAction::Wait && final(self).pending() == Some(now_ms)
                },
                _ => match old(self).pending() {
                    Some(t) if now_ms - t >= DEBOUNCE_MS => a == WatchAction::Rebuild
                        && final(self).pending() is None,
                    _ => a == WatchAction::Wait && final(self).pending() == old(self).pending(),
                },
            },
    {
        match event {
            WatchEvent::Closed => {
                return WatchAction::Stop;
            },
            WatchEvent::Change { relevant, paths } => {
                if !*relevant || touches_ignored(paths) {
                    return WatchAction::Wait;
                }
                self.last_change_ms = Some(now_ms);
            },
            _ => {},
        }
        match self.last_change_ms {
            Some(t) => {
                if now_ms >= t && now_ms - t >= DEBOUNCE_MS {
                    self.last_change_ms = None;
                    WatchAction::Rebuild
                } else {
                    WatchAction::Wait
                }
            },
            None => WatchAction::Wait,
        }
    }
}

/// Whether some path of `paths` is ignored.
fn touches_ignored(paths: &Vec<String>) -> (b: bool)
    ensures
        b == any_ignored(views(paths@)),
{
    let ghost ps = views(paths@);
    let mut k: usize = 0;
    while k < paths.len()
        invariant
            ps == views(paths@),
            0 <= k <= paths@.len(),
            forall|j: int| 0 <= j < k ==> !is_ignored(#[trigger] ps[j]),
        decreases paths.len() - k,
    {
        assert(ps[k as int] == paths@[k as int]@);
        if ignored_path(paths[k].as_str()) {
            assert(is_ignored(ps[k as int]));
            return true;
        }
        k = k + 1;
    }
    false
}

} // verus!
