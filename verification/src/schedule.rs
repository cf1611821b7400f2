//! The debounced persistence scheduler: mutations mark a kind of state
//! dirty, and a frame tick flushes every dirty kind at once, but no more
//! often than every 500 milliseconds. Time enters as a millisecond
//! timestamp taken by the caller each frame.

use vstd::prelude::*;

verus! {

/// Milliseconds that must pass after a flush before the next one.
pub const SAVE_DEBOUNCE_MS: u64 = 500;

/// The four kinds of state the tracker persists.
#[derive(Clone, Copy, PartialEq, Eq, Structural, Debug)]
pub enum StateKind {
    Consoles,
    Games,
    LegoDimensions,
    Skylanders,
}

/// A set of state kinds: which ones are dirty, or which ones a tick
/// flushed.
#[derive(Clone, Copy, PartialEq, Eq, Structural, Debug)]
pub struct KindSet {
    pub consoles: bool,
    pub games: bool,
    pub lego: bool,
    pub skylanders: bool,
}

/// The empty kind set.
pub open spec fn no_kinds() -> KindSet {
    KindSet { consoles: false, games: false, lego: false, skylanders: false }
}

/// Whether any kind is in the set.
pub open spec fn any_kind(s: KindSet) -> bool {
    s.consoles || s.games || s.lego || s.skylanders
}

/// The set with one more kind in it.
pub open spec fn with_kind(s: KindSet, k: StateKind) -> KindSet {
    match k {
        StateKind::Consoles => (KindSet { consoles: true, ..s }),
        StateKind::Games => (KindSet { games: true, ..s }),
        StateKind::LegoDimensions => (KindSet { lego: true, ..s }),
        StateKind::Skylanders => (KindSet { skylanders: true, ..s }),
    }
}

/// Whether a kind is in the set.
pub open spec fn kind_in(s: KindSet, k: StateKind) -> bool {
    match k {
        StateKind::Consoles => s.consoles,
        StateKind::Games => s.games,
        StateKind::LegoDimensions => s.lego,
        StateKind::Skylanders => s.skylanders,
    }
}

impl KindSet {
    /// The empty set.
    pub fn none() -> (r: Self)
        ensures
            r == no_kinds(),
    {
        KindSet { consoles: false, games: false, lego: false, skylanders: false }
    }

    /// Whether any kind is in the set.
    pub fn any(&self) -> (r: bool)
        ensures
            r == any_kind(*self),
    {
        self.consoles || self.games || self.lego || self.skylanders
    }
}

/// The scheduler: the set of dirty kinds, and when the last flush
/// happened (`None` before the first flush).
pub struct SaveScheduler {
    pub pending: KindSet,
    pub last_flush: Option<u64>,
}

/// Marking a kind dirty only adds it to the pending set.
pub open spec fn spec_mark(s: SaveScheduler, k: StateKind) -> SaveScheduler {
    SaveScheduler { pending: with_kind(s.pending, k), last_flush: s.last_flush }
}

/// A tick at `now` flushes exactly when something is pending and the
/// debounce window since the last flush has elapsed (the first flush is
/// never delayed).
pub open spec fn spec_due(s: SaveScheduler, now: u64) -> bool {
    any_kind(s.pending) && match s.last_flush {
        None => true,
        Some(t) => now - t >= SAVE_DEBOUNCE_MS,
    }
}

/// The scheduler after a tick at `now`.
pub open spec fn spec_tick(s: SaveScheduler, now: u64) -> SaveScheduler {
    if spec_due(s, now) {
        SaveScheduler { pending: no_kinds(), last_flush: Some(now) }
    } else {
        s
    }
}

impl SaveScheduler {
    /// Timestamps never run backwards past the last flush.
    pub open spec fn time_ok(&self, now: u64) -> bool {
        match self.last_flush {
            None => true,
            Some(t) => t <= now,
        }
    }

    /// A fresh scheduler: nothing pending, never flushed.
    pub fn new() -> (r: Self)
        ensures
            r.pending == no_kinds(),
            r.last_flush is None,
    {
        SaveScheduler { pending: KindSet::none(), last_flush: None }
    }

    /// Records that a kind of state changed and needs to be persisted.
    pub fn mark_dirty(&mut self, k: StateKind)
        ensures
            *final(self) == spec_mark(*old(self), k),
    {
        match k {
            StateKind::Consoles => {
                self.pending.consoles = true;
            },
            StateKind::Games => {
                self.pending.games = true;
            },
            StateKind::LegoDimensions => {
                self.pending.lego = true;
            },
            StateKind::Skylanders => {
                self.pending.skylanders = true;
            },
        }
    }

    /// One frame tick: returns the kinds to flush now. A non-empty result
    /// means the caller must write those kinds' state maps out; the
    /// pending set is cleared and the debounce window restarts.
    pub fn tick(&mut self, now: u64) -> (flushed: KindSet)
        requires
            old(self).time_ok(now),
        ensures
            *final(self) == spec_tick(*old(self), now),
            flushed == if spec_due(*old(self), now) {
                old(self).pending
            } else {
                no_kinds()
            },
    {
        let due: bool = match self.last_flush {
            None => true,
            Some(t) => now - t >= SAVE_DEBOUNCE_MS,
        };
        if due && self.pending.any() {
            let flushed = self.pending;
            self.pending = KindSet::none();
            self.last_flush = Some(now);
            flushed
        } else {
            KindSet::none()
        }
    }

    /// An immediate flush that bypasses the debounce window, for
    /// deliberate bulk operations such as import: every pending kind and
    /// every kind in `extra` is flushed now.
    pub fn flush_now(&mut self, now: u64, extra: KindSet) -> (flushed: KindSet)
        ensures
            final(self).pending == no_kinds(),
            final(self).last_flush == Some(now),
            flushed.consoles == (old(self).pending.consoles || extra.consoles),
            flushed.games == (old(self).pending.games || extra.games),
            flushed.lego == (old(self).pending.lego || extra.lego),
            flushed.skylanders == (old(self).pending.skylanders || extra.skylanders),
    {
        let flushed = KindSet {
            consoles: self.pending.consoles || extra.consoles,
            games: self.pending.games || extra.games,
            lego: self.pending.lego || extra.lego,
            skylanders: self.pending.skylanders || extra.skylanders,
        };
        self.pending = KindSet::none();
        self.last_flush = Some(now);
        flushed
    }
}

/// Inside the debounce window nothing is flushed: a tick within 500
/// milliseconds of the last flush leaves the scheduler unchanged, whatever
/// is pending.
pub proof fn lemma_debounce_window(s: SaveScheduler, now: u64)
    requires
        s.last_flush matches Some(t) && now - t < SAVE_DEBOUNCE_MS,
    ensures
        !spec_due(s, now),
        spec_tick(s, now) == s,
{
}

/// A due tick flushes every pending kind at once and clears them: two
/// mutations marked since the last flush come out in one flush call.
pub proof fn lemma_batched_flush(s: SaveScheduler, k1: StateKind, k2: StateKind, now: u64)
    requires
        spec_due(spec_mark(spec_mark(s, k1), k2), now),
    ensures
        ({
            let marked = spec_mark(spec_mark(s, k1), k2);
            &&& kind_in(marked.pending, k1)
            &&& kind_in(marked.pending, k2)
            &&& spec_tick(marked, now).pending == no_kinds()
            &&& spec_tick(marked, now).last_flush == Some(now)
        }),
{
}

/// After a flush at `now`, the next flush can only happen at or after
/// `now + 500`: consecutive flushes are at least the debounce window
/// apart.
pub proof fn lemma_flushes_spaced(s: SaveScheduler, now: u64, later: u64)
    requires
        spec_due(s, now),
        now <= later,
        later - now < SAVE_DEBOUNCE_MS,
    ensures
        forall|m: SaveScheduler|
            m.last_flush == spec_tick(s, now).last_flush ==> !spec_due(m, later),
{
    assert(spec_tick(s, now).last_flush == Some(now));
}

} // verus!
