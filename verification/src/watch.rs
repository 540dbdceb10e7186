//! The file-watch bridge's suspend protocol.
//!
//! An external-change detector watches the open-tasks file and tells the
//! user when another program modified it.  The store's own writes must not
//! look like external changes, so the bridge is suspended immediately
//! before each of the store's writes and resumed immediately after it,
//! success or failure.  The decision of whether a filesystem event raises
//! a notification is verified here; the surrounding program wires it to
//! the actual filesystem watcher.

use vstd::prelude::*;

verus! {

#[derive(Clone, Copy, Debug, PartialEq, Eq, Structural)]
pub enum WatchState {
    /// Filesystem modifications are external changes.
    Watching,
    /// The store itself is writing; modifications are its own.
    Suspended,
}

#[derive(Clone, Copy, Debug, PartialEq, Eq, Structural)]
pub enum WatchEvent {
    /// The watched path was modified.
    Modified,
    /// The store is about to write the watched path.
    WriteBegin,
    /// The store's write finished, successfully or not.
    WriteEnd,
}

/// One step of the bridge: the next state, and whether an
/// external-change notification is emitted.
pub open spec fn watch_step_spec(s: WatchState, e: WatchEvent) -> (WatchState, bool) {
    match e {
        WatchEvent::WriteBegin => (WatchState::Suspended, false),
        WatchEvent::WriteEnd => (WatchState::Watching, false),
        WatchEvent::Modified => (s, s == WatchState::Watching),
    }
}

/// The bridge: the watched path and the current state.  It starts
/// watching; setup failures of the underlying detector are the caller's
/// to log and are never fatal.
#[derive(Clone, Debug)]
pub struct WatchBridge {
    pub state: WatchState,
    pub path: String,
}

impl WatchBridge {
    pub fn new(path: String) -> (r: WatchBridge)
        ensures
            r.state == WatchState::Watching,
            r.path == path,
    {
        WatchBridge { state: WatchState::Watching, path }
    }

    /// Feeds one event in; returns whether to notify the user of an
    /// external change.
    pub fn on_event(&mut self, e: WatchEvent) -> (notify: bool)
        ensures
            (final(self).state, notify) == watch_step_spec(old(self).state, e),
            final(self).path == old(self).path,
    {
        match e {
            WatchEvent::WriteBegin => {
                self.state = WatchState::Suspended;
                false
            },
            WatchEvent::WriteEnd => {
                self.state = WatchState::Watching;
                false
            },
            WatchEvent::Modified => {
                match self.state {
                    WatchState::Watching => true,
                    WatchState::Suspended => false,
                }
            },
        }
    }
}

/// The state after a run of events.
pub open spec fn watch_run(s0: WatchState, events: Seq<WatchEvent>) -> WatchState
    decreases events.len(),
{
    if events.len() == 0 {
        s0
    } else {
        watch_step_spec(watch_run(s0, events.drop_last()), events.last()).0
    }
}

/// Whether the `k`-th event of a run emits a notification.
pub open spec fn watch_emits(s0: WatchState, events: Seq<WatchEvent>, k: int) -> bool {
    watch_step_spec(watch_run(s0, events.take(k)), events[k]).1
}

/// WATCH SUSPENSION: a modification that happens after the store began a
/// write and before that write ended never raises an external-change
/// notification, whatever state the bridge started in.
pub proof fn lemma_write_in_progress_silent(
    s0: WatchState,
    events: Seq<WatchEvent>,
    b: int,
    k: int,
)
    requires
        0 <= b < k < events.len(),
        events[b] == WatchEvent::WriteBegin,
        forall|j: int| b < j <= k ==> events[j] != WatchEvent::WriteEnd,
        events[k] == WatchEvent::Modified,
    ensures
        !watch_emits(s0, events, k),
{
    lemma_suspended_between(s0, events, b, k);
}

/// Between a write's begin and its end the bridge stays suspended.
proof fn lemma_suspended_between(s0: WatchState, events: Seq<WatchEvent>, b: int, k: int)
    requires
        0 <= b < k <= events.len(),
        events[b] == WatchEvent::WriteBegin,
        forall|j: int| b < j < k ==> events[j] != WatchEvent::WriteEnd,
    ensures
        watch_run(s0, events.take(k)) == WatchState::Suspended,
    decreases k,
{
    assert(events.take(k).drop_last() =~= events.take(k - 1));
    assert(events.take(k).last() == events[k - 1]);
    if k == b + 1 {
        assert(events[k - 1] == WatchEvent::WriteBegin);
    } else {
        lemma_suspended_between(s0, events, b, k - 1);
        assert(events[k - 1] != WatchEvent::WriteEnd);
    }
}

} // verus!
