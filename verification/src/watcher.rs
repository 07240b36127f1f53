//! The change-watcher state machine: classifies filesystem events,
//! filters out the index's own artifacts, and debounces bursts so that
//! one burst causes one reconciliation and one outward notification.
//!
//! The surrounding process observes raw events, reduces each to plain
//! facts (its class, whether it touches an index artifact, whether it
//! concerns a note), and drives this machine; when the machine asks for
//! a rescan, the process scans the store, reconciles the engine, and
//! emits the returned signal.

use vstd::prelude::*;

verus! {

/// The coarse outward signal emitted after a reconciliation.
#[derive(Clone, Copy, Debug, PartialEq, Eq, Structural)]
pub enum WatcherEvent {
    /// Notes were modified (created, updated, or deleted).
    NotesChanged,
    /// Notes were renamed or moved.
    NotesRenamed,
}

/// The class of a raw filesystem event, as far as the machine cares.
#[derive(Clone, Copy, Debug, PartialEq, Eq, Structural)]
pub enum EventClass {
    /// A rename or move: path identity may have shifted anywhere below.
    RenameMove,
    /// A create, content change or removal.
    ContentChange,
    /// Anything else.
    Irrelevant,
}

/// How long after a reconciliation further events are coalesced, in
/// milliseconds.
pub const DEBOUNCE_MS: u64 = 500;

/// Milliseconds passed from `last` to `now` on a monotonic clock; an
/// earlier `now` counts as no time passed.
pub open spec fn elapsed(last: u64, now: u64) -> u64 {
    if now >= last {
        (now - last) as u64
    } else {
        0
    }
}

/// What one observed event does to the machine: the new debounce origin
/// and the signal to emit after a successful rescan, if one is due.
pub open spec fn step_spec(
    last: u64,
    class: EventClass,
    touches_index_file: bool,
    note_related: bool,
    now: u64,
) -> (u64, Option<WatcherEvent>) {
    if touches_index_file {
        (last, None)
    } else if class == EventClass::RenameMove {
        if elapsed(last, now) < DEBOUNCE_MS {
            (last, None)
        } else {
            (now, Some(WatcherEvent::NotesRenamed))
        }
    } else if class == EventClass::ContentChange && note_related {
        if elapsed(last, now) < DEBOUNCE_MS {
            (last, None)
        } else {
            (now, Some(WatcherEvent::NotesChanged))
        }
    } else {
        (last, None)
    }
}

/// The debounce state: when the last reconciliation was triggered.
pub struct NoteWatcher {
    last_rescan_ms: u64,
}

impl NoteWatcher {
    /// When the last reconciliation was triggered, in milliseconds.
    pub closed spec fn last(&self) -> u64 {
        self.last_rescan_ms
    }

    /// A fresh machine; events within the first debounce window after
    /// this moment are coalesced into the initial build of the index.
    pub fn new(now_ms: u64) -> (r: Self)
        ensures
            r.last() == now_ms,
    {
        NoteWatcher { last_rescan_ms: now_ms }
    }

    /// Feeds one observed event: returns the signal to emit after a
    /// successful rescan when one is due, and `None` when the event is
    /// filtered out or coalesced into the open debounce window.
    pub fn step(
        &mut self,
        class: EventClass,
        touches_index_file: bool,
        note_related: bool,
        now_ms: u64,
    ) -> (r: Option<WatcherEvent>)
        ensures
            (final(self).last(), r) == step_spec(
                old(self).last(),
                class,
                touches_index_file,
                note_related,
                now_ms,
            ),
    {
        if touches_index_file {
            return None;
        }
        let wanted: Option<WatcherEvent> = match class {
            EventClass::RenameMove => Some(WatcherEvent::NotesRenamed),
            EventClass::ContentChange => {
                if note_related {
                    Some(WatcherEvent::NotesChanged)
                } else {
                    None
                }
            },
            EventClass::Irrelevant => None,
        };
        match wanted {
            Some(ev) => {
                let el: u64 = if now_ms >= self.last_rescan_ms {
                    now_ms - self.last_rescan_ms
                } else {
                    0
                };
                if el < DEBOUNCE_MS {
                    None
                } else {
                    self.last_rescan_ms = now_ms;
                    Some(ev)
                }
            },
            None => None,
        }
    }
}

/// The fixed base name of the index's persisted artifacts.
pub open spec fn index_artifact_base() -> Seq<char> {
    seq!['.', 'n', 'o', 't', 'e', 's', '.', 'd', 'b']
}

/// Whether a file name belongs to the index's persisted artifacts: the
/// base name itself or any rotation or journal sibling extending it with
/// a dash.
pub open spec fn is_index_artifact(name: Seq<char>) -> bool {
    name == index_artifact_base() || (name.len() >= 10 && name.subrange(0, 9)
        == index_artifact_base() && name[9] == '-')
}

/// Whether a file name is one of the index's persisted artifacts; events
/// on these are discarded to avoid reconciliation feedback loops.
pub fn check_index_artifact(name: &str) -> (r: bool)
    ensures
        r == is_index_artifact(name@),
{
    let base = ".notes.db";
    proof {
        reveal_strlit(".notes.db");
        assert(base@ =~= index_artifact_base());
    }
    let l: usize = name.unicode_len();
    if l < 9 {
        proof {
            if name@ == index_artifact_base() {
                assert(name@.len() == 9);
            }
        }
        return false;
    }
    let mut i: usize = 0;
    while i < 9
        invariant
            l == name@.len(),
            l >= 9,
            i <= 9,
            base@ == index_artifact_base(),
            base@.len() == 9,
            forall|j: int| 0 <= j < i ==> name@[j] == index_artifact_base()[j],
        decreases 9 - i,
    {
        if name.get_char(i) != base.get_char(i) {
            proof {
                assert(name@.subrange(0, 9)[i as int] != index_artifact_base()[i as int]);
                if name@ == index_artifact_base() {
                    assert(name@[i as int] == index_artifact_base()[i as int]);
                }
            }
            return false;
        }
        i = i + 1;
    }
    proof {
        assert(name@.subrange(0, 9) =~= index_artifact_base());
    }
    if l == 9 {
        proof {
            assert(name@ =~= index_artifact_base());
        }
        true
    } else {
        name.get_char(9) == '-'
    }
}

/// Whether a file name is the fixed note content file name.
pub fn check_content_file_name(name: &str) -> (r: bool)
    ensures
        r == (name@ == crate::paths::content_file_name()),
{
    let pat = "_index.md";
    proof {
        reveal_strlit("_index.md");
        assert(pat@ =~= crate::paths::content_file_name());
    }
    crate::paths::str_eq(name, pat)
}

/// Two events for the same underlying change that arrive within one
/// debounce window cause exactly one reconciliation and one outward
/// notification: when the first triggered, the second is coalesced.
pub proof fn lemma_debounce_coalesces(
    last0: u64,
    c1: EventClass,
    d1: bool,
    n1: bool,
    t1: u64,
    c2: EventClass,
    d2: bool,
    n2: bool,
    t2: u64,
)
    requires
        step_spec(last0, c1, d1, n1, t1).1 is Some,
        t1 <= t2,
        t2 < t1 + DEBOUNCE_MS,
    ensures
        step_spec(step_spec(last0, c1, d1, n1, t1).0, c2, d2, n2, t2).1 is None,
        step_spec(step_spec(last0, c1, d1, n1, t1).0, c2, d2, n2, t2).0 == t1,
{
    let l1 = step_spec(last0, c1, d1, n1, t1).0;
    assert(l1 == t1);
    assert(elapsed(t1, t2) < DEBOUNCE_MS);
}

} // verus!
