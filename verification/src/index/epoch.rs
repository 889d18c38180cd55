//! A table of page snapshots.
//!
//! A reader takes the snapshot of a page and keeps it for as long as it needs,
//! whatever a writer puts in its place meanwhile.

use std::collections::HashMap;
use std::sync::Arc;

use vstd::prelude::*;

use crate::index::page::BTreePage;
use crate::storage::page::PageId;

verus! {

/// Pages by their ids.
#[derive(Debug)]
pub struct EpochPageTable {
    table: HashMap<PageId, Arc<BTreePage>>,
}

impl View for EpochPageTable {
    type V = Map<PageId, BTreePage>;

    closed spec fn view(&self) -> Map<PageId, BTreePage> {
        self.table@.map_values(|page: Arc<BTreePage>| *page)
    }
}

impl EpochPageTable {
    /// A table without pages.
    pub fn new() -> (r: Self)
        ensures
            r@ == Map::<PageId, BTreePage>::empty(),
    {
        let r = EpochPageTable { table: HashMap::new() };
        assert(r@ =~= Map::<PageId, BTreePage>::empty());
        r
    }

    /// Stores a page in place of the one with this id. Readers that hold that one keep
    /// it.
    pub fn insert(&mut self, page_id: PageId, page: BTreePage)
        ensures
            final(self)@ == old(self)@.insert(page_id, page),
    {
        broadcast use vstd::std_specs::hash::group_hash_axioms;

        self.table.insert(page_id, Arc::new(page));
        assert(self@ =~= old(self)@.insert(page_id, page));
    }

    /// The snapshot of a page.
    pub fn load(&self, page_id: PageId) -> (r: Option<Arc<BTreePage>>)
        ensures
            match r {
                Some(page) => self@.contains_key(page_id) && *page == self@[page_id],
                None => !self@.contains_key(page_id),
            },
    {
        broadcast use vstd::std_specs::hash::group_hash_axioms;

        match self.table.get(&page_id) {
            Some(page) => Some(page.clone()),
            None => None,
        }
    }
}

impl Default for EpochPageTable {
    fn default() -> (r: Self)
        ensures
            r@ == Map::<PageId, BTreePage>::empty(),
    {
        EpochPageTable::new()
    }
}

} // verus!
