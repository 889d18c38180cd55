//! Logged batches: what a batch wrote, page by page, to redo or to undo it.

use std::collections::HashMap;

use vstd::prelude::*;

use crate::index::btree::insert::batch_result;
use crate::index::btree::insert::batch_stored;
use crate::index::btree::tracks;
use crate::index::btree::written_since;
use crate::index::btree::BPlusTree;
use crate::index::btree::BTreeError;
use crate::index::key::CompositeKey;
use crate::index::latch::next_version;
use crate::index::page::BTreePage;
use crate::index::shape::Pages;
use crate::storage::page::PageId;

verus! {

/// Kind of an index page log record.
#[derive(Debug, Clone, Copy, PartialEq, Eq, Structural)]
pub enum IndexRecordType {
    /// The page existed before; undo restores its before-image.
    IndexPageUpdate,
    /// The page is new.
    IndexPageInsert,
}

/// What has to be logged of one page that a batch wrote.
pub struct IndexPageRecord {
    pub record_type: IndexRecordType,
    pub txid: u64,
    pub page_id: PageId,
    pub after: BTreePage,
    pub before: Option<BTreePage>,
}

/// Which record of the log, if any, is about page `id`?
pub open spec fn log_has(log: Seq<IndexPageRecord>, id: PageId) -> bool {
    exists|i: int| 0 <= i < log.len() && (#[trigger] log[i]).page_id == id
}

/// The log describes the change from one page store to another: it has one
/// record for each page that was written, with the page before and after.
pub open spec fn log_describes(
    log: Seq<IndexPageRecord>,
    before: Pages,
    after: Pages,
    txid: u64,
) -> bool {
    &&& forall|i: int, j: int|
        0 <= i < j < log.len() ==> (#[trigger] log[i]).page_id != (#[trigger] log[j]).page_id
    &&& forall|i: int| 0 <= i < log.len() ==> log_record_ok(#[trigger] log[i], before, after, txid)
    &&& forall|id: PageId|
        !(#[trigger] log_has(log, id)) ==> (after.contains_key(id) == before.contains_key(id) && (
        before.contains_key(id) ==> after[id] == before[id]))
}

/// One record of a log.
pub open spec fn log_record_ok(r: IndexPageRecord, before: Pages, after: Pages, txid: u64) -> bool {
    &&& r.txid == txid
    &&& after.contains_key(r.page_id)
    &&& r.after@ == after[r.page_id]
    &&& match r.before {
        Some(p) => {
            &&& before.contains_key(r.page_id)
            &&& p@ == before[r.page_id]
            &&& r.record_type == IndexRecordType::IndexPageUpdate
        },
        None => {
            &&& !before.contains_key(r.page_id)
            &&& r.record_type == IndexRecordType::IndexPageInsert
        },
    }
}

/// A record of a log is of the given transaction and has the page as it is now. That of a
/// page that was there before is an update and has it as it was, that of another an insertion
/// and has nothing before. There is one record for a page at most, and one for each page that
/// changed.
pub proof fn law_log_records(
    log: Seq<IndexPageRecord>,
    before: Pages,
    after: Pages,
    txid: u64,
    i: int,
    id: PageId,
)
    requires
        log_describes(log, before, after, txid),
        0 <= i < log.len(),
    ensures
        log[i].txid == txid,
        after.contains_key(log[i].page_id) && log[i].after@ == after[log[i].page_id],
        log[i].record_type == IndexRecordType::IndexPageUpdate <==> before.contains_key(
            log[i].page_id,
        ),
        log[i].record_type == IndexRecordType::IndexPageInsert <==> !before.contains_key(
            log[i].page_id,
        ),
        log[i].before is Some <==> before.contains_key(log[i].page_id),
        log[i].before matches Some(p) ==> p@ == before[log[i].page_id],
        forall|j: int|
            0 <= j < log.len() && j != i ==> (#[trigger] log[j]).page_id != log[i].page_id,
        (forall|j: int| 0 <= j < log.len() ==> (#[trigger] log[j]).page_id != id) ==> (
        after.contains_key(id) == before.contains_key(id) && (before.contains_key(id) ==> after[id]
            == before[id])),
{
    assert(log_record_ok(log[i], before, after, txid));
    if forall|j: int| 0 <= j < log.len() ==> (#[trigger] log[j]).page_id != id {
        assert(!log_has(log, id));
    }
}

/// The page store after the first `n` records of a log were redone.
pub open spec fn redo(log: Seq<IndexPageRecord>, st: Pages, n: int) -> Pages
    decreases n,
{
    if n <= 0 {
        st
    } else {
        redo(log, st, n - 1).insert(log[n - 1].page_id, log[n - 1].after@)
    }
}

/// The page store after the first `n` records of a log were undone.
pub open spec fn undo(log: Seq<IndexPageRecord>, st: Pages, n: int) -> Pages
    decreases n,
{
    if n <= 0 {
        st
    } else {
        let s = undo(log, st, n - 1);
        match log[n - 1].before {
            Some(p) => s.insert(log[n - 1].page_id, p@),
            None => s.remove(log[n - 1].page_id),
        }
    }
}

proof fn lemma_redo(log: Seq<IndexPageRecord>, before: Pages, after: Pages, txid: u64, n: int, id: PageId)
    requires
        log_describes(log, before, after, txid),
        0 <= n <= log.len(),
    ensures
        ({
            let st = redo(log, before, n);
            let hit = exists|i: int| 0 <= i < n && (#[trigger] log[i]).page_id == id;
            &&& hit ==> st.contains_key(id) && st[id] == after[id] && after.contains_key(id)
            &&& !hit ==> st.contains_key(id) == before.contains_key(id) && (before.contains_key(id)
                ==> st[id] == before[id])
        }),
    decreases n,
{
    if n > 0 {
        lemma_redo(log, before, after, txid, n - 1, id);
        assert(log_record_ok(log[n - 1], before, after, txid));
        if exists|i: int| 0 <= i < n && (#[trigger] log[i]).page_id == id {
            let i = choose|i: int| 0 <= i < n && (#[trigger] log[i]).page_id == id;
            if i < n - 1 {
                assert(0 <= i < n - 1 && log[i].page_id == id);
            }
        }
    }
}

proof fn lemma_undo(log: Seq<IndexPageRecord>, before: Pages, after: Pages, txid: u64, n: int, id: PageId)
    requires
        log_describes(log, before, after, txid),
        0 <= n <= log.len(),
    ensures
        ({
            let st = undo(log, after, n);
            let hit = exists|i: int| 0 <= i < n && (#[trigger] log[i]).page_id == id;
            &&& hit ==> st.contains_key(id) == before.contains_key(id) && (before.contains_key(id)
                ==> st[id] == before[id])
            &&& !hit ==> st.contains_key(id) == after.contains_key(id) && (after.contains_key(id)
                ==> st[id] == after[id])
        }),
    decreases n,
{
    if n > 0 {
        lemma_undo(log, before, after, txid, n - 1, id);
        assert(log_record_ok(log[n - 1], before, after, txid));
        if exists|i: int| 0 <= i < n && (#[trigger] log[i]).page_id == id {
            let i = choose|i: int| 0 <= i < n && (#[trigger] log[i]).page_id == id;
            if i < n - 1 {
                assert(0 <= i < n - 1 && log[i].page_id == id);
            }
        }
    }
}

/// Redoing the log of a batch on the pages before it gives the pages after it.
pub proof fn law_redo_restores_batch(
    log: Seq<IndexPageRecord>,
    before: Pages,
    after: Pages,
    txid: u64,
)
    requires
        log_describes(log, before, after, txid),
    ensures
        redo(log, before, log.len() as int) == after,
{
    let st = redo(log, before, log.len() as int);
    assert forall|id: PageId| #[trigger] st.contains_key(id) == after.contains_key(id) by {
        lemma_redo(log, before, after, txid, log.len() as int, id);
        if !log_has(log, id) {
            assert(after.contains_key(id) == before.contains_key(id));
        }
    }
    assert forall|id: PageId| after.contains_key(id) implies #[trigger] st[id] == after[id] by {
        lemma_redo(log, before, after, txid, log.len() as int, id);
        if !log_has(log, id) {
            assert(after.contains_key(id) == before.contains_key(id));
        }
    }
    assert(st.dom() =~= after.dom());
    assert(st =~= after);
}

/// Undoing the log of a batch on the pages after it gives the pages before it.
pub proof fn law_undo_reverts_batch(
    log: Seq<IndexPageRecord>,
    before: Pages,
    after: Pages,
    txid: u64,
)
    requires
        log_describes(log, before, after, txid),
    ensures
        undo(log, after, log.len() as int) == before,
{
    let st = undo(log, after, log.len() as int);
    assert forall|id: PageId| #[trigger] st.contains_key(id) == before.contains_key(id) by {
        lemma_undo(log, before, after, txid, log.len() as int, id);
        if !log_has(log, id) {
            assert(after.contains_key(id) == before.contains_key(id));
        }
    }
    assert forall|id: PageId| before.contains_key(id) implies #[trigger] st[id] == before[id] by {
        lemma_undo(log, before, after, txid, log.len() as int, id);
        if !log_has(log, id) {
            assert(after.contains_key(id) == before.contains_key(id));
        }
    }
    assert(st.dom() =~= before.dom());
    assert(st =~= before);
}

impl BPlusTree {
    /// Copies of all pages.
    fn snapshot(&self) -> (r: HashMap<PageId, BTreePage>)
        requires
            self.wf(),
        ensures
            forall|id: PageId| #[trigger] r@.contains_key(id) == self.store().contains_key(id),
            forall|id: PageId| #[trigger]
                r@.contains_key(id) ==> r@[id].wf() && r@[id]@ == self.store()[id],
    {
        broadcast use vstd::std_specs::hash::group_hash_axioms;

        let ids = self.all_page_ids();
        let mut r: HashMap<PageId, BTreePage> = HashMap::new();
        let n: usize = ids.len();
        let mut i: usize = 0;
        while i < n
            invariant
                self.wf(),
                i <= n,
                n == ids@.len(),
                forall|id: PageId| #[trigger] ids@.contains(id) == self.store().contains_key(id),
                forall|id: PageId| #[trigger]
                    r@.contains_key(id) == (exists|x: int| 0 <= x < i && ids@[x] == id),
                forall|id: PageId| #[trigger]
                    r@.contains_key(id) ==> r@[id].wf() && r@[id]@ == self.store()[id],
            decreases n - i,
        {
            broadcast use vstd::std_specs::hash::group_hash_axioms;

            let id: PageId = ids[i];
            proof {
                assert(ids@.contains(id)) by {
                    assert(ids@[i as int] == id);
                }
            }
            let page = self.page_copy(id);
            let ghost before = r@;
            r.insert(id, page);
            proof {
                assert forall|x: PageId| #[trigger] r@.contains_key(x) == (exists|y: int|
                    0 <= y < i + 1 && ids@[y] == x) by {
                    if before.contains_key(x) {
                        let y = choose|y: int| 0 <= y < i && ids@[y] == x;
                        assert(0 <= y < i + 1 && ids@[y] == x);
                    }
                    if x == id {
                        assert(0 <= i < i + 1 && ids@[i as int] == x);
                    }
                    if exists|y: int| 0 <= y < i + 1 && ids@[y] == x {
                        let y = choose|y: int| 0 <= y < i + 1 && ids@[y] == x;
                        if y < i {
                            assert(before.contains_key(x));
                        }
                    }
                }
            }
            i += 1;
        }
        proof {
            assert forall|id: PageId| #[trigger] r@.contains_key(id) == self.store().contains_key(
                id,
            ) by {
                assert(ids@.contains(id) == self.store().contains_key(id));
            }
        }
        r
    }

    /// Stores a batch and returns what has to be logged of it: one record for
    /// each page that was written, and for no other, with its image before and after. Where an
    /// entry cannot be stored, the batch stops and nothing is to be logged.
    pub fn insert_batch_logged(
        &mut self,
        entries: &Vec<(CompositeKey, Vec<u8>)>,
        txid: u64,
    ) -> (r: Result<Vec<IndexPageRecord>, BTreeError>)
        requires
            old(self).wf(),
        ensures
            final(self).wf(),
            final(self).latch_entry().version == next_version(old(self).latch_entry().version),
            final(self).spec_config() == old(self).spec_config(),
            batch_result(
                old(self)@,
                final(self)@,
                entries@,
                final(self).ids_exhausted(),
                match r {
                    Ok(_) => Ok(()),
                    Err(e) => Err(e),
                },
            ),
            batch_stored(
                old(self).spec_config(),
                old(self).outline(),
                final(self).outline(),
                entries@,
                r is Ok,
            ),
            old(self).written() == final(self).written().take(old(self).written().len() as int),
            match r {
                Ok(log) => {
                    &&& log_describes(log@, old(self).store(), final(self).store(), txid)
                    &&& forall|id: PageId| #[trigger]
                        log_has(log@, id) == written_since(
                            final(self).written(),
                            old(self).written().len() as int,
                            id,
                        )
                },
                Err(_) => true,
            },
    {
        let ghost st0 = self.store();
        let ghost since = self.writes@.len() as int;
        let before = self.snapshot();
        self.dirty = Some(Vec::new());
        proof {
            assert(tracks(self.dirty, self.store(), st0, self.writes@, since));
        }
        let guard = self.begin_write();
        assert(self.outline() == old(self).outline());
        let result = self.insert_entries(entries);
        let ghost after = *self;
        self.end_write(guard);
        assert(self.outline() == after.outline());
        let mut d: Option<Vec<PageId>> = None;
        proof {
            assert(tracks(self.dirty, self.store(), st0, self.writes@, since));
        }
        let ghost recorded = self.dirty;
        std::mem::swap(&mut d, &mut self.dirty);
        let dirty: Vec<PageId> = match d {
            Some(list) => list,
            None => Vec::new(),
        };
        match result {
            Ok(_) => {},
            Err(e) => {
                return Err(e);
            },
        }
        let ghost st1 = self.store();
        proof {
            assert(recorded == Some(dirty));
        }
        let log = self.page_log(&before, &dirty, txid, Ghost(st0), Ghost(since));
        Ok(log)
    }

    fn page_log(
        &self,
        before: &HashMap<PageId, BTreePage>,
        dirty: &Vec<PageId>,
        txid: u64,
        Ghost(st0): Ghost<Pages>,
        Ghost(since): Ghost<int>,
    ) -> (log: Vec<IndexPageRecord>)
        requires
            self.pages_ok(),
            tracks(Some(*dirty), self.store(), st0, self.writes@, since),
            forall|id: PageId| #[trigger] before@.contains_key(id) == st0.contains_key(id),
            forall|id: PageId| #[trigger]
                before@.contains_key(id) ==> before@[id].wf() && before@[id]@ == st0[id],
        ensures
            log_describes(log@, st0, self.store(), txid),
            forall|id: PageId| #[trigger]
                log_has(log@, id) == written_since(self.writes@, since, id),
    {
        broadcast use vstd::std_specs::hash::group_hash_axioms;

        let ghost st1 = self.store();
        let mut log: Vec<IndexPageRecord> = Vec::new();
        let n: usize = dirty.len();
        let mut i: usize = 0;
        while i < n
            invariant
                self.pages_ok(),
                st1 == self.store(),
                i <= n,
                n == dirty@.len(),
                tracks(Some(*dirty), st1, st0, self.writes@, since),
                forall|id: PageId| #[trigger] before@.contains_key(id) == st0.contains_key(id),
                forall|id: PageId| #[trigger]
                    before@.contains_key(id) ==> before@[id].wf() && before@[id]@ == st0[id],
                log@.len() == i,
                forall|x: int| 0 <= x < i ==> (#[trigger] log@[x]).page_id == dirty@[x],
                forall|x: int|
                    0 <= x < i ==> log_record_ok(#[trigger] log@[x], st0, st1, txid),
            decreases n - i,
        {
            broadcast use vstd::std_specs::hash::group_hash_axioms;

            let page_id: PageId = dirty[i];
            proof {
                assert(dirty@.contains(page_id)) by {
                    assert(dirty@[i as int] == page_id);
                }
            }
            let after = self.page_copy(page_id);
            let rec = match before.get(&page_id) {
                Some(p) => IndexPageRecord {
                    record_type: IndexRecordType::IndexPageUpdate,
                    txid,
                    page_id,
                    after,
                    before: Some(p.clone()),
                },
                None => IndexPageRecord {
                    record_type: IndexRecordType::IndexPageInsert,
                    txid,
                    page_id,
                    after,
                    before: None,
                },
            };
            log.push(rec);
            i += 1;
        }
        proof {
            assert forall|id: PageId| !(#[trigger] log_has(log@, id)) implies (st1.contains_key(id)
                == st0.contains_key(id) && (st0.contains_key(id) ==> st1[id] == st0[id])) by {
                if dirty@.contains(id) {
                    let x = choose|x: int| 0 <= x < dirty@.len() && dirty@[x] == id;
                    assert(log@[x].page_id == id);
                }
            }
            assert forall|id: PageId| #[trigger]
                log_has(log@, id) == written_since(self.writes@, since, id) by {
                if log_has(log@, id) {
                    let x = choose|x: int| 0 <= x < log@.len() && (#[trigger] log@[x]).page_id == id;
                    assert(dirty@[x] == id);
                }
                if dirty@.contains(id) {
                    let x = choose|x: int| 0 <= x < dirty@.len() && dirty@[x] == id;
                    assert(log@[x].page_id == id);
                }
                assert(dirty@.contains(id) == written_since(self.writes@, since, id));
            }
            assert forall|x: int, y: int| 0 <= x < y < log@.len() implies (#[trigger] log@[x]).page_id
                != (#[trigger] log@[y]).page_id by {
                assert(dirty@[x] != dirty@[y]);
            }
        }
        log
    }
}

/// Is `id` on the list?
pub(super) fn contains_id(list: &Vec<PageId>, id: PageId) -> (b: bool)
    ensures
        b == list@.contains(id),
{
    let n: usize = list.len();
    let mut i: usize = 0;
    while i < n
        invariant
            i <= n,
            n == list@.len(),
            forall|j: int| 0 <= j < i ==> list@[j] != id,
        decreases n - i,
    {
        if list[i] == id {
            return true;
        }
        i += 1;
    }
    false
}

} // verus!
