//! The latch table: which latches are held, which requests can be granted, and
//! the version counters that optimistic readers validate against.
//!
//! The table decides; whoever owns it blocks a caller whose request is not
//! granted and asks again after the next release.
//!
//! Every page has a version that grows each time an exclusive latch on it is
//! released, that is after every possible mutation. A reader that sees the same
//! version before and after its read, with no writer in between, has read a
//! consistent page.

use std::collections::HashMap;
use vstd::multiset::Multiset;
use vstd::prelude::*;

use crate::storage::page::PageId;

verus! {

/// Mode of latch acquisition.
#[derive(Debug, Clone, Copy, PartialEq, Eq, Structural)]
pub enum LatchMode {
    /// Shared latch for read-only access.
    Shared,
    /// Exclusive latch for mutation.
    Exclusive,
    /// Intention exclusive: a child may split or merge.
    Intention,
}

/// The latches held on one page.
#[derive(Debug, Clone, Copy, PartialEq, Eq, Structural)]
pub struct LatchEntry {
    /// Number of shared holders.
    pub readers: u32,
    /// Is the exclusive latch held?
    pub writer: bool,
    /// Number of intention holders.
    pub intentions: u32,
    /// Number of exclusive releases so far, wrapping.
    pub version: u64,
}

impl LatchEntry {
    /// An entry that nobody holds and nobody has mutated.
    pub open spec fn spec_new() -> LatchEntry {
        LatchEntry { readers: 0, writer: false, intentions: 0, version: 0 }
    }

    /// A writer is alone.
    pub open spec fn wf(self) -> bool {
        self.writer ==> self.readers == 0 && self.intentions == 0
    }

    /// Nobody holds the entry.
    pub open spec fn free(self) -> bool {
        self.readers == 0 && !self.writer && self.intentions == 0
    }

    /// Can a latch in `mode` be granted?
    pub open spec fn grants(self, mode: LatchMode) -> bool {
        match mode {
            LatchMode::Shared => !self.writer && self.readers < u32::MAX,
            LatchMode::Exclusive => self.free(),
            LatchMode::Intention => !self.writer && self.intentions < u32::MAX,
        }
    }

    /// The entry after a latch in `mode` was granted.
    pub open spec fn granted(self, mode: LatchMode) -> LatchEntry {
        match mode {
            LatchMode::Shared => LatchEntry { readers: (self.readers + 1) as u32, ..self },
            LatchMode::Exclusive => LatchEntry { writer: true, ..self },
            LatchMode::Intention => LatchEntry { intentions: (self.intentions + 1) as u32, ..self },
        }
    }

    /// The entry after a latch in `mode` was released.
    pub open spec fn released(self, mode: LatchMode) -> LatchEntry {
        match mode {
            LatchMode::Shared => LatchEntry {
                readers: if self.readers > 0 {
                    (self.readers - 1) as u32
                } else {
                    0
                },
                ..self
            },
            LatchMode::Exclusive => LatchEntry {
                writer: false,
                version: next_version(self.version),
                ..self
            },
            LatchMode::Intention => LatchEntry {
                intentions: if self.intentions > 0 {
                    (self.intentions - 1) as u32
                } else {
                    0
                },
                ..self
            },
        }
    }

    /// An entry that nobody holds and nobody has mutated.
    pub fn new() -> (e: Self)
        ensures
            e == LatchEntry::spec_new(),
    {
        LatchEntry { readers: 0, writer: false, intentions: 0, version: 0 }
    }

    /// May the entry be forgotten? Only where nobody holds it and no version is
    /// lost with it.
    pub fn is_idle(&self) -> (b: bool)
        ensures
            b == (self.free() && self.version == 0),
            b == (*self == LatchEntry::spec_new()),
    {
        self.readers == 0 && !self.writer && self.intentions == 0 && self.version == 0
    }
}

/// The version after `v`.
pub open spec fn next_version(v: u64) -> u64 {
    if v == u64::MAX {
        0
    } else {
        (v + 1) as u64
    }
}

/// A granted latch.
#[derive(Debug, PartialEq, Eq)]
pub struct LatchGuard {
    pub page_id: PageId,
    pub mode: LatchMode,
}

/// The latch table.
#[derive(Debug)]
pub struct LatchCoupling {
    entries: HashMap<PageId, LatchEntry>,
}

impl LatchCoupling {
    /// The latches on `page_id`.
    pub closed spec fn entry(&self, page_id: PageId) -> LatchEntry {
        if self.entries@.contains_key(page_id) {
            self.entries@[page_id]
        } else {
            LatchEntry::spec_new()
        }
    }

    /// On every page a writer is alone.
    pub open spec fn wf(&self) -> bool {
        forall|id: PageId| (#[trigger] self.entry(id)).wf()
    }

    /// A table in which nothing is held.
    pub fn new() -> (t: Self)
        ensures
            t.wf(),
            forall|id: PageId| #[trigger] t.entry(id) == LatchEntry::spec_new(),
    {
        LatchCoupling { entries: HashMap::new() }
    }

    fn get(&self, page_id: PageId) -> (e: LatchEntry)
        ensures
            e == self.entry(page_id),
    {
        broadcast use vstd::std_specs::hash::group_hash_axioms;

        match self.entries.get(&page_id) {
            Some(e) => *e,
            None => LatchEntry::new(),
        }
    }

    fn set(&mut self, page_id: PageId, e: LatchEntry)
        ensures
            forall|id: PageId| #[trigger]
                final(self).entry(id) == (if id == page_id {
                    e
                } else {
                    old(self).entry(id)
                }),
    {
        broadcast use vstd::std_specs::hash::group_hash_axioms;

        if e.is_idle() {
            self.entries.remove(&page_id);
        } else {
            self.entries.insert(page_id, e);
        }
    }

    /// Asks for a latch on `page_id`. `None` means that the caller has to wait
    /// for a release and ask again.
    pub fn latch(&mut self, page_id: PageId, mode: LatchMode) -> (g: Option<LatchGuard>)
        requires
            old(self).wf(),
        ensures
            final(self).wf(),
            match g {
                Some(guard) => {
                    &&& old(self).entry(page_id).grants(mode)
                    &&& guard.page_id == page_id
                    &&& guard.mode == mode
                    &&& forall|id: PageId| #[trigger]
                        final(self).entry(id) == (if id == page_id {
                            old(self).entry(id).granted(mode)
                        } else {
                            old(self).entry(id)
                        })
                },
                None => {
                    &&& !old(self).entry(page_id).grants(mode)
                    &&& *final(self) == *old(self)
                },
            },
    {
        let mut e: LatchEntry = self.get(page_id);
        match mode {
            LatchMode::Shared => {
                if e.writer || e.readers == u32::MAX {
                    return None;
                }
                e.readers = e.readers + 1;
            },
            LatchMode::Exclusive => {
                if e.readers != 0 || e.writer || e.intentions != 0 {
                    return None;
                }
                e.writer = true;
            },
            LatchMode::Intention => {
                if e.writer || e.intentions == u32::MAX {
                    return None;
                }
                e.intentions = e.intentions + 1;
            },
        }
        self.set(page_id, e);
        Some(LatchGuard { page_id, mode })
    }

    /// The version of `page_id`; a page that was never mutated has version 0.
    pub fn version(&self, page_id: PageId) -> (v: u64)
        ensures
            v == self.entry(page_id).version,
    {
        self.get(page_id).version
    }

    /// Is `page_id` latched exclusively?
    pub fn is_write_latched(&self, page_id: PageId) -> (b: bool)
        ensures
            b == self.entry(page_id).writer,
    {
        self.get(page_id).writer
    }

    /// Gives a latch back.
    pub fn release(&mut self, guard: LatchGuard)
        requires
            old(self).wf(),
        ensures
            final(self).wf(),
            forall|id: PageId| #[trigger]
                final(self).entry(id) == (if id == guard.page_id {
                    old(self).entry(id).released(guard.mode)
                } else {
                    old(self).entry(id)
                }),
    {
        let mut e: LatchEntry = self.get(guard.page_id);
        match guard.mode {
            LatchMode::Shared => {
                if e.readers > 0 {
                    e.readers = e.readers - 1;
                }
            },
            LatchMode::Exclusive => {
                e.writer = false;
                e.version = if e.version == u64::MAX {
                    0
                } else {
                    e.version + 1
                };
            },
            LatchMode::Intention => {
                if e.intentions > 0 {
                    e.intentions = e.intentions - 1;
                }
            },
        }
        self.set(guard.page_id, e);
    }
}

impl Default for LatchCoupling {
    fn default() -> (t: Self)
        ensures
            t.wf(),
            forall|id: PageId| #[trigger] t.entry(id) == LatchEntry::spec_new(),
    {
        LatchCoupling::new()
    }
}

// ---------------------------------------------------------------------------
// Laws
// ---------------------------------------------------------------------------

/// While the exclusive latch is held, nothing else is granted.
pub proof fn law_exclusive_blocks_all(e: LatchEntry, mode: LatchMode)
    requires
        e.grants(LatchMode::Exclusive),
    ensures
        !e.granted(LatchMode::Exclusive).grants(mode),
{
}

/// While any latch is held, the exclusive latch is not granted.
pub proof fn law_any_blocks_exclusive(e: LatchEntry, mode: LatchMode)
    requires
        e.grants(mode),
    ensures
        !e.granted(mode).grants(LatchMode::Exclusive),
{
}

/// Shared and intention latches do not get in each other's way.
pub proof fn law_shared_and_intention_coexist(e: LatchEntry, a: LatchMode, b: LatchMode)
    requires
        a != LatchMode::Exclusive,
        b != LatchMode::Exclusive,
        e.grants(a),
        e.readers + 1 < u32::MAX,
        e.intentions + 1 < u32::MAX,
    ensures
        e.granted(a).grants(b),
{
}

/// A release undoes its grant; an exclusive one also counts the version up.
pub proof fn law_release_undoes_grant(e: LatchEntry, mode: LatchMode)
    requires
        e.grants(mode),
    ensures
        e.granted(mode).released(mode) == (LatchEntry {
            version: if mode == LatchMode::Exclusive {
                next_version(e.version)
            } else {
                e.version
            },
            ..e
        }),
{
}

/// Only an exclusive release changes the version, and it always does.
pub proof fn law_version_counts_exclusive_releases(e: LatchEntry, mode: LatchMode)
    ensures
        e.granted(mode).version == e.version,
        (e.released(mode).version != e.version) == (mode == LatchMode::Exclusive),
{
}

// ---------------------------------------------------------------------------
// Guards that are alive
// ---------------------------------------------------------------------------

/// Are the guards that are alive on a page those that its entry counts?
pub open spec fn counts_guards(e: LatchEntry, live: Multiset<LatchMode>) -> bool {
    &&& e.readers == live.count(LatchMode::Shared)
    &&& e.intentions == live.count(LatchMode::Intention)
    &&& live.count(LatchMode::Exclusive) == if e.writer {
        1nat
    } else {
        0nat
    }
}

/// On a page that was never latched no guard is alive, and every grant and every
/// release of a guard keeps the count.
pub proof fn law_entry_counts_guards(e: LatchEntry, live: Multiset<LatchMode>, mode: LatchMode)
    requires
        counts_guards(e, live),
    ensures
        counts_guards(LatchEntry::spec_new(), Multiset::empty()),
        e.grants(mode) ==> counts_guards(e.granted(mode), live.insert(mode)),
        live.contains(mode) ==> counts_guards(e.released(mode), live.remove(mode)),
{
    broadcast use vstd::multiset::group_multiset_axioms;

}

/// The exclusive latch is granted if and only if no guard of any mode is alive, and
/// a guard with it is the only one.
pub proof fn law_exclusive_guard_is_alone(
    e: LatchEntry,
    live: Multiset<LatchMode>,
)
    requires
        e.wf(),
        counts_guards(e, live),
    ensures
        e.grants(LatchMode::Exclusive) == (live == Multiset::<LatchMode>::empty()),
        live.contains(LatchMode::Exclusive) ==> live == Multiset::singleton(LatchMode::Exclusive),
{
    broadcast use vstd::multiset::group_multiset_axioms;

    if e.grants(LatchMode::Exclusive) {
        assert forall|m: LatchMode| #[trigger] live.count(m) == 0 by {
            match m {
                LatchMode::Shared => {},
                LatchMode::Exclusive => {},
                LatchMode::Intention => {},
            }
        }
        assert(live =~= Multiset::empty());
    }
    if live.contains(LatchMode::Exclusive) {
        assert(e.writer);
        assert forall|m: LatchMode| #[trigger]
            live.count(m) == Multiset::singleton(LatchMode::Exclusive).count(m) by {
            match m {
                LatchMode::Shared => {},
                LatchMode::Exclusive => {},
                LatchMode::Intention => {},
            }
        }
        assert(live =~= Multiset::singleton(LatchMode::Exclusive));
    }
}

// ---------------------------------------------------------------------------
// Optimistic reads
// ---------------------------------------------------------------------------

/// Is a latch in `mode` held?
pub open spec fn is_held(e: LatchEntry, mode: LatchMode) -> bool {
    match mode {
        LatchMode::Shared => e.readers > 0,
        LatchMode::Exclusive => e.writer,
        LatchMode::Intention => e.intentions > 0,
    }
}

/// Does a grant or a release in `mode` lead from `a` to `b`?
pub open spec fn steps_by(a: LatchEntry, b: LatchEntry, mode: LatchMode) -> bool {
    ||| a.grants(mode) && b == a.granted(mode)
    ||| is_held(a, mode) && b == a.released(mode)
}

/// Does a grant or a release lead from `a` to `b`?
pub open spec fn is_step(a: LatchEntry, b: LatchEntry) -> bool {
    ||| steps_by(a, b, LatchMode::Shared)
    ||| steps_by(a, b, LatchMode::Exclusive)
    ||| steps_by(a, b, LatchMode::Intention)
}

/// Are these the states of an entry one after the other?
pub open spec fn is_history(states: Seq<LatchEntry>) -> bool {
    forall|i: int| 0 <= i < states.len() - 1 ==> is_step(#[trigger] states[i], states[i + 1])
}

/// The number of exclusive releases on the way to state `n`.
pub open spec fn writes(states: Seq<LatchEntry>, n: int) -> int
    decreases n,
{
    if n <= 0 {
        0
    } else if states[n - 1].writer && !states[n].writer {
        writes(states, n - 1) + 1
    } else {
        writes(states, n - 1)
    }
}

proof fn lemma_version_is_count(states: Seq<LatchEntry>, n: int)
    requires
        is_history(states),
        0 <= n < states.len(),
    ensures
        0 <= writes(states, n) <= n,
        (states[n].version - states[0].version - writes(states, n)) % 0x1_0000_0000_0000_0000 == 0,
    decreases n,
{
    if n > 0 {
        lemma_version_is_count(states, n - 1);
        assert(is_step(states[n - 1], states[n - 1 + 1]));
    }
}

proof fn lemma_write_is_counted(states: Seq<LatchEntry>, i: int, n: int)
    requires
        is_history(states),
        0 <= i <= n < states.len(),
        states[i].writer,
        !states[n].writer,
    ensures
        writes(states, n) >= 1,
    decreases n,
{
    lemma_version_is_count(states, n - 1);
    if !states[n - 1].writer {
        lemma_write_is_counted(states, i, n - 1);
    }
}

/// A reader that finds no writer and the same version before and after it read has not
/// read while a writer held the page, unless the counter went round meanwhile.
pub proof fn law_same_version_means_no_write(states: Seq<LatchEntry>, i: int)
    requires
        is_history(states),
        0 < states.len() <= 0x1_0000_0000_0000_0000,
        !states.last().writer,
        states.first().version == states.last().version,
        0 <= i < states.len(),
    ensures
        !states[i].writer,
{
    let n = states.len() - 1;
    if states[i].writer {
        lemma_version_is_count(states, n);
        lemma_write_is_counted(states, i, n);
    }
}

// ---------------------------------------------------------------------------
// Order of acquisition
// ---------------------------------------------------------------------------

/// Does every thread wait for a page behind all that it holds?
pub open spec fn asks_upwards(held: Seq<Set<PageId>>, asked: Seq<PageId>) -> bool {
    forall|i: int, p: PageId|
        0 <= i < held.len() && (#[trigger] held[i].contains(p)) ==> p < asked[i]
}

/// Does every thread wait for a page that the next one holds, the last one for a page of
/// the first?
pub open spec fn is_wait_cycle(held: Seq<Set<PageId>>, asked: Seq<PageId>) -> bool {
    &&& held.len() > 0
    &&& held.len() == asked.len()
    &&& forall|i: int|
        0 <= i < held.len() - 1 ==> held[i + 1].contains(#[trigger] asked[i])
    &&& held[0].contains(asked.last())
}

proof fn lemma_asked_rise(held: Seq<Set<PageId>>, asked: Seq<PageId>, n: int)
    requires
        asks_upwards(held, asked),
        is_wait_cycle(held, asked),
        0 <= n < asked.len(),
    ensures
        asked[0] <= asked[n],
    decreases n,
{
    if n > 0 {
        lemma_asked_rise(held, asked, n - 1);
        assert(held[n - 1 + 1].contains(asked[n - 1]));
    }
}

/// Threads that take latches by rising page id do not wait for each other in a circle.
pub proof fn law_rising_order_has_no_deadlock(held: Seq<Set<PageId>>, asked: Seq<PageId>)
    requires
        asks_upwards(held, asked),
    ensures
        !is_wait_cycle(held, asked),
{
    if is_wait_cycle(held, asked) {
        lemma_asked_rise(held, asked, asked.len() - 1);
        assert(held[0].contains(asked.last()));
    }
}

} // verus!
