//! The B+ tree: search, insertion with splits, deletion with borrows and
//! merges, range scans.
//!
//! A tree is a map from keys to values: every operation is specified over
//! [`BPlusTree`]'s view, a `Map` from key bytes to value bytes.

pub mod balance;
mod delete;
mod depth;
mod insert;
mod layout;
mod log;
mod pages;
mod scan;

pub use delete::lends;
pub use delete::longest;
pub use delete::payload;
pub use delete::underfull;
pub use delete::usable_area;
pub use depth::is_way_down;
pub use insert::batch_result;
pub use insert::batch_stored;
pub use insert::law_batch_last_wins;
pub use insert::with_entries;
pub use layout::bare;
pub use layout::deleted;
pub use layout::finds;
pub use layout::is_stored;
pub use layout::layout_of;
pub use layout::rebalanced;
pub use layout::Outline;
pub use log::IndexPageRecord;
pub use log::IndexRecordType;
pub use log::law_redo_restores_batch;
pub use log::law_undo_reverts_batch;
pub use log::log_describes;
pub use log::log_has;
pub use log::log_record_ok;
pub use log::redo;
pub use log::undo;
pub use pages::is_sparse;
pub use pages::law_defrag_counts;
pub use pages::law_defrag_pages;
pub use pages::law_sparse;
pub use pages::lsn_after;
pub use pages::rewritten_leaves;
pub use pages::same_page;
pub use pages::sparse_count;
pub use scan::is_first;
pub use scan::is_prefix_scan;
pub use scan::is_range;
pub use scan::key_views;
pub use scan::law_first_key;
pub use scan::law_prefix_scan;
pub use scan::law_range;
pub use scan::none_from;
pub use scan::pair_views;

use std::collections::HashMap;

use vstd::prelude::*;
use vstd::slice::slice_to_vec;

use crate::bytes::lex_le;
use crate::bytes::lex_lt;
use crate::index::btree::layout::leads_on;
use crate::index::btree::layout::leads_to;
use crate::index::btree::layout::lemma_bare;
use crate::index::btree::log::contains_id;
use crate::index::entry::decode_kv;
use crate::index::entry::kv_key;
use crate::index::entry::kv_record;
use crate::index::entry::kv_value;
use crate::index::entry::law_kv_record_of_parts;
use crate::index::entry::law_kv_roundtrip;
use crate::index::key::CompositeKey;
use crate::index::latch::LatchCoupling;
use crate::index::latch::LatchEntry;
use crate::index::latch::LatchGuard;
use crate::index::latch::LatchMode;
use crate::index::node::branch_slot;
use crate::index::node::is_child_slot;
use crate::index::node::is_lower_bound;
use crate::index::node::leaf_has_key;
use crate::index::node::leaf_lower_bound;
use crate::index::page::record_bytes;
use crate::index::page::BTreePage;
use crate::index::page::PAGE_CAPACITY;
use crate::index::page::PageState;
use crate::index::shape::below;
use crate::index::shape::chain_ok;
use crate::index::shape::child_ok;
use crate::index::shape::children;
use crate::index::shape::in_fence;
use crate::index::shape::leaf_records_ok;
use crate::index::shape::lemma_holds_in_leaf;
use crate::index::shape::lemma_map;
use crate::index::shape::node_ok;
use crate::index::shape::records_hold;
use crate::index::shape::sep_fits;
use crate::index::shape::seps;
use crate::index::shape::tree_holds;
use crate::index::shape::tree_map;
use crate::index::shape::tree_ok;
use crate::index::shape::Key;
use crate::index::shape::Node;
use crate::index::shape::Pages;
use crate::index::shape::Shape;
use crate::storage::page::PageId;
use crate::storage::page::SLOT_SIZE;

verus! {

/// Latch table key of the tree as a whole. Page 0 is the superblock and never a
/// page of a tree.
pub const STRUCTURE_LATCH_KEY: PageId = 0;

/// Configuration of a B+ tree. Ratios are in percent of a page's record area.
#[derive(Debug, Clone, Copy, PartialEq, Eq, Structural)]
pub struct BPlusTreeConfig {
    /// Page size in bytes.
    pub page_size: usize,
    /// Fill below which a page borrows or merges.
    pub min_fill_percent: u32,
    /// Fill above which an insertion splits a page.
    pub split_percent: u32,
    /// Retries of an optimistic read.
    pub optimistic_retry: u8,
}

impl Default for BPlusTreeConfig {
    fn default() -> (c: Self)
        ensures
            c == (BPlusTreeConfig {
                page_size: 8192,
                min_fill_percent: 30,
                split_percent: 85,
                optimistic_retry: 3,
            }),
    {
        BPlusTreeConfig {
            page_size: 8192,
            min_fill_percent: 30,
            split_percent: 85,
            optimistic_retry: 3,
        }
    }
}

/// Has a leaf with these records to be split? One with a single record has not.
pub open spec fn overfull(config: BPlusTreeConfig, recs: Seq<Seq<u8>>) -> bool {
    recs.len() > 1 && record_bytes(recs) * 100 > config.split_percent * PAGE_CAPACITY
}

/// Errors of B+ tree operations.
#[derive(Debug, Clone, Copy, PartialEq, Eq, Structural)]
pub enum BTreeError {
    MissingRoot,
    MissingLeaf,
    MissingParent,
    SplitFailed,
    MergeFailed,
}

impl BTreeError {
    /// The message of the error.
    pub open spec fn spec_message(self) -> Seq<char> {
        match self {
            BTreeError::MissingRoot => "B+ tree root page missing"@,
            BTreeError::MissingLeaf => "B+ tree leaf page missing"@,
            BTreeError::MissingParent => "B+ tree parent page missing"@,
            BTreeError::SplitFailed => "B+ tree split failed"@,
            BTreeError::MergeFailed => "B+ tree merge failed"@,
        }
    }

    /// The message of each error.
    pub proof fn law_messages(self)
        ensures
            self is MissingRoot ==> self.spec_message() == "B+ tree root page missing"@,
            self is MissingLeaf ==> self.spec_message() == "B+ tree leaf page missing"@,
            self is MissingParent ==> self.spec_message() == "B+ tree parent page missing"@,
            self is SplitFailed ==> self.spec_message() == "B+ tree split failed"@,
            self is MergeFailed ==> self.spec_message() == "B+ tree merge failed"@,
    {
    }

    /// The message of the error.
    pub fn message(&self) -> (r: &'static str)
        ensures
            r@ == self.spec_message(),
    {
        match self {
            BTreeError::MissingRoot => "B+ tree root page missing",
            BTreeError::MissingLeaf => "B+ tree leaf page missing",
            BTreeError::MissingParent => "B+ tree parent page missing",
            BTreeError::SplitFailed => "B+ tree split failed",
            BTreeError::MergeFailed => "B+ tree merge failed",
        }
    }
}

/// Can `key` with `value` be stored: as one record of a leaf, and the key as one
/// separator of a branch?
pub open spec fn entry_fits(key: Seq<u8>, value: Seq<u8>) -> bool {
    &&& 2 + key.len() + value.len() + SLOT_SIZE <= PAGE_CAPACITY
    &&& sep_fits(key)
}

/// A B+ tree over pages.
pub struct BPlusTree {
    config: BPlusTreeConfig,
    root_page_id: PageId,
    latch_mgr: LatchCoupling,
    pages: HashMap<PageId, BTreePage>,
    next_page_id: PageId,
    next_lsn: u64,
    /// Pages written since recording began, while it is on.
    dirty: Option<Vec<PageId>>,
    shape: Ghost<Shape>,
    /// The pages that were written, one after the other.
    writes: Ghost<Seq<PageId>>,
}

impl View for BPlusTree {
    type V = Map<Seq<u8>, Seq<u8>>;

    /// The keys of the tree with their values.
    closed spec fn view(&self) -> Map<Seq<u8>, Seq<u8>> {
        tree_map(self.store(), self.shape@.nodes)
    }
}

/// The smaller of two numbers.
pub open spec fn least(a: int, b: int) -> int {
    if a <= b {
        a
    } else {
        b
    }
}

impl BPlusTree {
    /// The pages of the tree.
    pub closed spec fn store(&self) -> Pages {
        self.pages@.map_values(|p: BTreePage| p@)
    }

    /// The root page.
    pub closed spec fn root(&self) -> PageId {
        self.root_page_id
    }

    /// The leaves in key order.
    pub closed spec fn leaf_ids(&self) -> Seq<PageId> {
        self.shape@.leaves
    }

    /// The pages that were written since the tree was made, one after the other.
    pub closed spec fn written(&self) -> Seq<PageId> {
        self.writes@
    }

    /// The log sequence number of the next write.
    pub closed spec fn lsn(&self) -> u64 {
        self.next_lsn
    }

    /// The id of the next page to be allocated.
    pub closed spec fn next_id(&self) -> PageId {
        self.next_page_id
    }

    /// Latches and version of the tree as a whole.
    pub closed spec fn latch_entry(&self) -> LatchEntry {
        self.latch_mgr.entry(STRUCTURE_LATCH_KEY)
    }

    pub closed spec fn spec_config(&self) -> BPlusTreeConfig {
        self.config
    }

    /// Everything but the shape: pages are well-formed and have allocated ids.
    pub closed spec fn pages_ok(&self) -> bool {
        &&& forall|id: PageId| #[trigger]
            self.pages@.contains_key(id) ==> self.pages@[id].wf() && self.pages@[id].in_step()
                && id < self.next_page_id
        &&& self.next_page_id > 0
        &&& self.latch_mgr.wf()
        &&& self.shape@.root == self.root_page_id
    }

    /// The pages form a tree and nobody holds its latch.
    pub closed spec fn wf(&self) -> bool {
        &&& self.pages_ok()
        &&& tree_ok(self.store(), self.shape@)
        &&& self.latch_entry().free()
        &&& self.dirty is None
    }

    /// Height of the tree above its leaves.
    pub closed spec fn height(&self) -> nat {
        self.shape@.nodes[self.shape@.root].height
    }

    /// Too few page ids are left for an insertion to split every page on its
    /// way.
    pub open spec fn ids_exhausted(&self) -> bool {
        self.next_id() as int + 2 * self.height() + 6 > u64::MAX
    }

    /// The number of insertions for which page ids are certainly left. An insertion
    /// takes at most two ids on each level and one for a new root, twice over.
    pub open spec fn room(&self) -> int {
        least(
            (u64::MAX - self.next_id()) / 0x2_0000_0000,
            (0x8000_0000 - self.height()) / 2,
        )
    }
}

impl BPlusTree {
    /// An empty tree: its root is an empty leaf.
    pub fn new(config: BPlusTreeConfig) -> (t: Self)
        ensures
            t.wf(),
            t@ == Map::<Seq<u8>, Seq<u8>>::empty(),
            t.spec_config() == config,
            t.root() == 1,
            t.next_id() == 2,
            t.height() == 0,
            t.room() == 0x4000_0000,
            t.written() == Seq::<PageId>::empty(),
    {
        broadcast use vstd::std_specs::hash::group_hash_axioms;

        let leaf = BTreePage::new_leaf(1);
        let ghost node = Node { lo: Seq::empty(), hi: None, parent: None, height: 0 };
        let ghost shape = Shape {
            nodes: Map::empty().insert(1u64, node),
            leaves: seq![1u64],
            bounds: seq![Seq::<u8>::empty()],
            root: 1,
        };
        let mut pages: HashMap<PageId, BTreePage> = HashMap::new();
        pages.insert(1, leaf);
        let t = BPlusTree {
            config,
            root_page_id: 1,
            latch_mgr: LatchCoupling::new(),
            pages,
            next_page_id: 2,
            next_lsn: 1,
            dirty: None,
            shape: Ghost(shape),
            writes: Ghost(Seq::empty()),
        };
        proof {
            let st = t.store();
            assert(st[1] == leaf@);
            assert(node_ok(st, shape.nodes, 1));
            assert(shape.leaves.contains(1)) by {
                assert(shape.leaves[0] == 1);
            }
            assert(chain_ok(st, shape, 0));
            assert(tree_ok(st, shape));
            lemma_map(st, shape);
            assert forall|k: Key| !(#[trigger] t@.contains_key(k)) by {
                if t@.contains_key(k) {
                    assert(tree_holds(st, shape.nodes, k, t@[k]));
                }
            }
            assert(t@ =~= Map::empty());
        }
        t
    }

    /// The configuration of the tree.
    pub fn config(&self) -> (c: BPlusTreeConfig)
        ensures
            c == self.spec_config(),
    {
        self.config
    }

    /// The id of the root page.
    pub fn root_page_id(&self) -> (id: PageId)
        ensures
            id == self.root(),
    {
        self.root_page_id
    }

    /// The id that the next new page gets.
    pub fn next_page_id(&self) -> (id: PageId)
        ensures
            id == self.next_id(),
    {
        self.next_page_id
    }

    /// Are enough page ids left for another insertion?
    pub fn has_room(&self) -> (r: bool)
        requires
            self.wf(),
        ensures
            r == !self.ids_exhausted(),
    {
        let least: Vec<u8> = Vec::new();
        let (_leaf, path) = self.descend(least.as_slice());
        self.next_page_id as u128 + 2 * (path.len() as u128) + 6 <= u64::MAX as u128
    }

    /// Are page ids certainly left for one more insertion after `n` others?
    pub fn has_room_after(&self, n: u64) -> (r: bool)
        requires
            self.wf(),
        ensures
            r == (self.room() > n),
    {
        let lowest: Vec<u8> = Vec::new();
        let (_leaf, path) = self.descend(lowest.as_slice());
        let height: u64 = path.len() as u64;
        height <= 0x8000_0000 && (u64::MAX - self.next_page_id) / 0x2_0000_0000 > n && (0x8000_0000
            - height) / 2 > n
    }

    /// Page ids start behind the superblock.
    pub proof fn lemma_next_id(&self)
        requires
            self.wf(),
        ensures
            self.next_id() > 0,
    {
    }

    /// A copy of page `page_id`.
    pub fn get_page(&self, page_id: PageId) -> (r: Option<BTreePage>)
        requires
            self.wf(),
        ensures
            match r {
                Some(p) => {
                    &&& self.store().contains_key(page_id)
                    &&& p.wf()
                    &&& p.in_step()
                    &&& p@ == self.store()[page_id]
                },
                None => !self.store().contains_key(page_id),
            },
    {
        match self.page_ref(page_id) {
            Some(p) => Some(p.clone()),
            None => None,
        }
    }

    fn page_ref(&self, page_id: PageId) -> (r: Option<&BTreePage>)
        requires
            self.pages_ok(),
        ensures
            match r {
                Some(p) => {
                    &&& self.store().contains_key(page_id)
                    &&& p.wf()
                    &&& p.in_step()
                    &&& p@ == self.store()[page_id]
                },
                None => !self.store().contains_key(page_id),
            },
    {
        broadcast use vstd::std_specs::hash::group_hash_axioms;

        self.pages.get(&page_id)
    }

    /// The leaf that is responsible for `key`.
    fn find_leaf(&self, key: &[u8]) -> (id: PageId)
        requires
            self.wf(),
        ensures
            self.shape@.nodes.contains_key(id),
            self.shape@.nodes[id].height == 0,
            in_fence(key@, self.shape@.nodes[id]),
    {
        let ghost st = self.store();
        let ghost nodes = self.shape@.nodes;
        let mut id: PageId = self.root_page_id;
        proof {
            assert(lex_le(Seq::<u8>::empty(), key@));
        }
        loop
            invariant
                self.wf(),
                st == self.store(),
                nodes == self.shape@.nodes,
                nodes.contains_key(id),
                in_fence(key@, nodes[id]),
            ensures
                nodes.contains_key(id),
                nodes[id].height == 0,
                in_fence(key@, nodes[id]),
            decreases nodes[id].height,
        {
            proof {
                assert(node_ok(st, nodes, id));
            }
            match self.page_ref(id) {
                Some(page) => {
                    if page.is_leaf() {
                        break;
                    }
                    let (child, idx) = branch_slot(page, key);
                    proof {
                        lemma_child_fence(st, nodes, id, key@, idx as int);
                    }
                    id = child;
                },
                None => {
                    break;
                },
            }
        }
        id
    }

    /// Finds `key`: the leaf page that holds it and its slot there.
    pub fn search(&self, key: &CompositeKey) -> (r: Option<(PageId, u16)>)
        requires
            self.wf(),
        ensures
            match r {
                Some((page_id, slot)) => {
                    &&& self@.contains_key(key@)
                    &&& self.leaf_ids().contains(page_id)
                    &&& self.store().contains_key(page_id)
                    &&& slot < self.store()[page_id].records.len()
                    &&& self.store()[page_id].records[slot as int] == kv_record(key@, self@[key@])
                },
                None => !self@.contains_key(key@),
            },
    {
        self.locate(key.as_slice())
    }

    fn locate(&self, key: &[u8]) -> (r: Option<(PageId, u16)>)
        requires
            self.wf(),
        ensures
            match r {
                Some((page_id, slot)) => {
                    &&& self@.contains_key(key@)
                    &&& self.leaf_ids().contains(page_id)
                    &&& self.store().contains_key(page_id)
                    &&& slot < self.store()[page_id].records.len()
                    &&& self.store()[page_id].records[slot as int] == kv_record(key@, self@[key@])
                },
                None => !self@.contains_key(key@),
            },
    {
        let leaf_id: PageId = self.find_leaf(key);
        let ghost st = self.store();
        let ghost sh = self.shape@;
        proof {
            assert(node_ok(st, sh.nodes, leaf_id));
            lemma_map(st, sh);
        }
        match self.page_ref(leaf_id) {
            Some(page) => {
                let slot: u16 = leaf_lower_bound(page, key);
                if leaf_has_key(page, slot, key) {
                    proof {
                        let rec = st[leaf_id].records[slot as int];
                        assert(records_hold(st[leaf_id].records, key@, kv_value(rec)));
                        lemma_holds_in_leaf(st, sh, leaf_id, key@, kv_value(rec));
                        assert(tree_holds(st, sh.nodes, key@, kv_value(rec)));
                        law_kv_record_of_parts(rec);
                    }
                    Some((leaf_id, slot))
                } else {
                    proof {
                        if self@.contains_key(key@) {
                            assert(tree_holds(st, sh.nodes, key@, self@[key@]));
                            lemma_holds_in_leaf(st, sh, leaf_id, key@, self@[key@]);
                            lemma_not_in_leaf(
                                st[leaf_id].records,
                                key@,
                                slot as int,
                                self@[key@],
                            );
                        }
                    }
                    None
                }
            },
            None => None,
        }
    }

    /// The value of `key`.
    pub fn get(&self, key: &CompositeKey) -> (r: Option<Vec<u8>>)
        requires
            self.wf(),
        ensures
            match r {
                Some(v) => self@.contains_key(key@) && v@ == self@[key@],
                None => !self@.contains_key(key@),
            },
    {
        match self.locate(key.as_slice()) {
            Some((page_id, slot)) => {
                proof {
                    self.lemma_key_len(key@);
                    law_kv_roundtrip(key@, self@[key@]);
                }
                match self.page_ref(page_id) {
                    Some(page) => match page.key(slot) {
                        Some(rec) => match decode_kv(rec) {
                            Some((_k, v)) => Some(slice_to_vec(v)),
                            None => None,
                        },
                        None => None,
                    },
                    None => None,
                }
            },
            None => None,
        }
    }

    /// Every key of a tree is short enough to be a separator.
    pub proof fn lemma_key_len(&self, k: Key)
        requires
            self.wf(),
            self@.contains_key(k),
        ensures
            sep_fits(k),
            k.len() <= u16::MAX,
    {
        let st = self.store();
        let nodes = self.shape@.nodes;
        lemma_map(st, self.shape@);
        assert(tree_holds(st, nodes, k, self@[k]));
        let o = choose|o: u64| #[trigger]
            nodes.contains_key(o) && nodes[o].height == 0 && records_hold(
                st[o].records,
                k,
                self@[k],
            );
        assert(node_ok(st, nodes, o));
    }

    /// Optimistic search: reads without a latch, and takes the result if no
    /// writer ran meanwhile; after the configured number of retries it searches
    /// under the latch.
    pub fn optimistic_search(&self, key: &CompositeKey) -> (r: Option<(PageId, u16)>)
        requires
            self.wf(),
        ensures
            match r {
                Some((page_id, slot)) => {
                    &&& self@.contains_key(key@)
                    &&& self.leaf_ids().contains(page_id)
                    &&& self.store().contains_key(page_id)
                    &&& slot < self.store()[page_id].records.len()
                    &&& self.store()[page_id].records[slot as int] == kv_record(key@, self@[key@])
                },
                None => !self@.contains_key(key@),
            },
    {
        let max_retry: u8 = self.config.optimistic_retry;
        let mut tries: u16 = 0;
        while tries <= max_retry as u16
            invariant
                self.wf(),
                tries <= max_retry + 1,
            decreases max_retry + 1 - tries,
        {
            tries += 1;
            if self.latch_mgr.is_write_latched(STRUCTURE_LATCH_KEY) {
                continue;
            }
            let before: u64 = self.latch_mgr.version(STRUCTURE_LATCH_KEY);
            let result = self.locate(key.as_slice());
            let after: u64 = self.latch_mgr.version(STRUCTURE_LATCH_KEY);
            if before == after && !self.latch_mgr.is_write_latched(STRUCTURE_LATCH_KEY) {
                return result;
            }
        }
        self.search(key)
    }

    /// The number of completed mutations, as optimistic readers see it.
    pub fn version(&self) -> (v: u64)
        ensures
            v == self.latch_entry().version,
    {
        self.latch_mgr.version(STRUCTURE_LATCH_KEY)
    }
}

// ---------------------------------------------------------------------------
// Paths
// ---------------------------------------------------------------------------

/// What step `t` of a path leads to.
pub open spec fn path_target(
    path: Seq<(PageId, usize)>,
    depth: int,
    target: u64,
    t: int,
) -> u64 {
    if t < depth {
        path[t].0
    } else {
        target
    }
}

/// Step `t` of a path from the root to `target`.
pub open spec fn path_step_ok(
    pages: Pages,
    sh: Shape,
    path: Seq<(PageId, usize)>,
    depth: int,
    target: u64,
    t: int,
) -> bool {
    let id = path[t].0;
    &&& sh.nodes.contains_key(id)
    &&& !pages[id].is_leaf()
    &&& path[t].1 < children(pages[id]).len()
    &&& children(pages[id])[path[t].1 as int] == path_target(path, depth, target, t + 1)
    &&& sh.nodes[id].height == sh.nodes[target].height + (depth - t)
}

/// The first `depth` steps of `path` lead from the root to `target`.
pub open spec fn path_ok(
    pages: Pages,
    sh: Shape,
    path: Seq<(PageId, usize)>,
    depth: int,
    target: u64,
) -> bool {
    &&& 0 <= depth <= path.len()
    &&& sh.nodes.contains_key(target)
    &&& path_target(path, depth, target, 0) == sh.root
    &&& forall|t: int| 0 <= t < depth ==> #[trigger] path_step_ok(pages, sh, path, depth, target, t)
}

/// Where the end of a path hangs.
pub open spec fn path_end(path: Seq<(PageId, usize)>, depth: int) -> Option<(u64, int)> {
    if depth == 0 {
        None
    } else {
        Some((path[depth - 1].0, path[depth - 1].1 as int))
    }
}

/// The leaves of one tree are leaves of the other, with the same pages and
/// fences.
pub open spec fn leaves_kept(
    pages: Pages,
    nodes: Map<u64, Node>,
    pages2: Pages,
    nodes2: Map<u64, Node>,
) -> bool {
    forall|x: u64| #[trigger]
        nodes.contains_key(x) && nodes[x].height == 0 ==> {
            &&& nodes2.contains_key(x)
            &&& nodes2[x].height == 0
            &&& nodes2[x].lo == nodes[x].lo
            &&& nodes2[x].hi == nodes[x].hi
            &&& pages2[x] == pages[x]
        }
}

/// Every key of the leaf responsible for `key` is below `key`.
pub open spec fn key_is_last(pages: Pages, nodes: Map<u64, Node>, key: Key) -> bool {
    forall|x: u64, i: int|
        nodes.contains_key(x) && nodes[x].height == 0 && in_fence(key, nodes[x]) && 0 <= i
            < pages[x].records.len() ==> lex_lt(kv_key(#[trigger] pages[x].records[i]), key)
}

// ---------------------------------------------------------------------------
// Steps of a mutation
// ---------------------------------------------------------------------------

/// Every page that differs from `base` is on the list of written pages, if one
/// is kept.
spec fn tracks(
    dirty: Option<Vec<PageId>>,
    store: Pages,
    base: Pages,
    writes: Seq<PageId>,
    since: int,
) -> bool {
    match dirty {
        None => true,
        Some(d) => {
            &&& d@.no_duplicates()
            &&& forall|x: u64| #[trigger] d@.contains(x) == written_since(writes, since, x)
            &&& forall|x: u64| #[trigger] d@.contains(x) ==> store.contains_key(x)
            &&& forall|x: u64|
                !(#[trigger] d@.contains(x)) ==> (store.contains_key(x) == base.contains_key(x) && (
                base.contains_key(x) ==> store[x] == base[x]))
        },
    }
}

/// The log sequence number after `lsn`; behind the last one it starts anew.
pub open spec fn next_lsn(lsn: u64) -> u64 {
    if lsn == u64::MAX {
        0
    } else {
        (lsn + 1) as u64
    }
}

/// Is page `id` among the writes from number `since` on?
pub open spec fn written_since(writes: Seq<PageId>, since: int, id: PageId) -> bool {
    exists|i: int| since <= i < writes.len() && #[trigger] writes[i] == id
}

proof fn lemma_written_push(writes: Seq<PageId>, since: int, id: PageId)
    requires
        0 <= since <= writes.len(),
    ensures
        forall|x: PageId| #[trigger]
            written_since(writes.push(id), since, x) == (written_since(writes, since, x) || x
                == id),
{
    assert forall|x: PageId| #[trigger] written_since(writes.push(id), since, x) == (written_since(
        writes,
        since,
        x,
    ) || x == id) by {
        let w = writes.push(id);
        if written_since(writes, since, x) {
            let i = choose|i: int| since <= i < writes.len() && #[trigger] writes[i] == x;
            assert(w[i] == x);
        }
        if x == id {
            assert(w[writes.len() as int] == x);
        }
        if written_since(w, since, x) {
            let i = choose|i: int| since <= i < w.len() && #[trigger] w[i] == x;
            if i < writes.len() {
                assert(writes[i] == x);
            }
        }
    }
}

impl BPlusTree {
    /// What an internal step leaves alone.
    spec fn steps_from(&self, o: &BPlusTree) -> bool {
        &&& self.config == o.config
        &&& self.latch_mgr == o.latch_mgr
        &&& self.dirty is Some == o.dirty is Some
        &&& o.writes@.len() <= self.writes@.len()
        &&& forall|i: int|
            0 <= i < o.writes@.len() ==> #[trigger] o.writes@[i] == self.writes@[i]
        &&& forall|base: Pages, since: int|
            0 <= since <= o.writes@.len() && tracks(o.dirty, o.store(), base, o.writes@, since)
                ==> #[trigger] tracks(self.dirty, self.store(), base, self.writes@, since)
    }

    fn bump_lsn(&mut self) -> (lsn: u64)
        ensures
            lsn == old(self).next_lsn,
            final(self).next_lsn == next_lsn(lsn),
            final(self).pages == old(self).pages,
            final(self).shape == old(self).shape,
            final(self).root_page_id == old(self).root_page_id,
            final(self).next_page_id == old(self).next_page_id,
            final(self).config == old(self).config,
            final(self).latch_mgr == old(self).latch_mgr,
            final(self).dirty == old(self).dirty,
            final(self).writes == old(self).writes,
    {
        let lsn: u64 = self.next_lsn;
        self.next_lsn = if lsn == u64::MAX {
            0
        } else {
            lsn + 1
        };
        lsn
    }

    fn alloc_page(&mut self) -> (id: PageId)
        requires
            old(self).next_page_id < u64::MAX,
        ensures
            id == old(self).next_page_id,
            final(self).next_page_id == id + 1,
            old(self).pages_ok() ==> final(self).pages_ok(),
            final(self).pages == old(self).pages,
            final(self).shape == old(self).shape,
            final(self).root_page_id == old(self).root_page_id,
            final(self).config == old(self).config,
            final(self).latch_mgr == old(self).latch_mgr,
            final(self).dirty == old(self).dirty,
            final(self).next_lsn == old(self).next_lsn,
            final(self).writes == old(self).writes,
            final(self).steps_from(old(self)),
    {
        let id: PageId = self.next_page_id;
        self.next_page_id = id + 1;
        id
    }

    /// Installs `page` at `page_id` under a fresh log sequence number.
    fn put_page_with_lsn(&mut self, page_id: PageId, page: BTreePage)
        requires
            old(self).pages_ok(),
            page.wf(),
            page.in_step(),
            page_id < old(self).next_page_id,
        ensures
            final(self).pages_ok(),
            final(self).store() == old(self).store().insert(
                page_id,
                PageState { lsn: old(self).next_lsn, ..page@ },
            ),
            final(self).shape == old(self).shape,
            final(self).root_page_id == old(self).root_page_id,
            final(self).next_page_id == old(self).next_page_id,
            final(self).next_lsn == next_lsn(old(self).next_lsn),
            final(self).writes@ == old(self).writes@.push(page_id),
            final(self).steps_from(old(self)),
    {
        broadcast use vstd::std_specs::hash::group_hash_axioms;

        let ghost before = *self;
        let mut page = page;
        let lsn: u64 = self.bump_lsn();
        page.set_page_lsn(lsn);
        let ghost p = page@;
        self.pages.insert(page_id, page);
        proof {
            assert(self.store() =~= before.store().insert(page_id, p));
        }
        self.writes = Ghost(before.writes@.push(page_id));
        let ghost mid = *self;
        let mut d: Option<Vec<PageId>> = None;
        std::mem::swap(&mut d, &mut self.dirty);
        match d {
            None => {},
            Some(mut list) => {
                let ghost list0 = list@;
                if !contains_id(&list, page_id) {
                    list.push(page_id);
                }
                proof {
                    assert forall|x: u64| #[trigger] list@.contains(x) == (list0.contains(x) || x
                        == page_id) by {
                        if list0.contains(x) {
                            let i = choose|i: int| 0 <= i < list0.len() && list0[i] == x;
                            assert(list@[i] == x);
                        }
                        if x == page_id && !list0.contains(x) {
                            assert(list@[list0.len() as int] == x);
                        }
                    }
                }
                let ghost listv = list;
                self.dirty = Some(list);
                proof {
                    assert forall|base: Pages, since: int|
                        0 <= since <= before.writes@.len() && tracks(
                            before.dirty,
                            before.store(),
                            base,
                            before.writes@,
                            since,
                        ) implies #[trigger] tracks(
                        self.dirty,
                        self.store(),
                        base,
                        self.writes@,
                        since,
                    ) by {
                        lemma_written_push(before.writes@, since, page_id);
                        assert(before.dirty == mid.dirty);
                        assert(self.store() == before.store().insert(page_id, p));
                        assert(self.dirty == Some(listv));
                    }
                }
            },
        }
    }

    /// Follows `key` from the root to the leaf responsible for it, recording the
    /// branches on the way with the slots taken.
    fn descend(&self, key: &[u8]) -> (r: (PageId, Vec<(PageId, usize)>))
        requires
            self.pages_ok(),
            tree_ok(self.store(), self.shape@),
        ensures
            self.shape@.nodes.contains_key(r.0),
            self.shape@.nodes[r.0].height == 0,
            in_fence(key@, self.shape@.nodes[r.0]),
            path_ok(self.store(), self.shape@, r.1@, r.1@.len() as int, r.0),
            r.1@.len() == self.height(),
            leads_to(self.layout(), self.root_page_id, key@, r.1@, r.0),
    {
        let ghost st = self.store();
        let ghost sh = self.shape@;
        let mut id: PageId = self.root_page_id;
        let mut path: Vec<(PageId, usize)> = Vec::new();
        proof {
            assert(lex_le(Seq::<u8>::empty(), key@));
        }
        loop
            invariant
                self.pages_ok(),
                tree_ok(st, sh),
                st == self.store(),
                sh == self.shape@,
                sh.nodes.contains_key(id),
                in_fence(key@, sh.nodes[id]),
                path_ok(st, sh, path@, path@.len() as int, id),
                path@.len() + sh.nodes[id].height == sh.nodes[sh.root].height,
                forall|t: int|
                    0 <= t < path@.len() ==> is_child_slot(
                        seps(st[(#[trigger] path@[t]).0]),
                        key@,
                        path@[t].1 as int,
                    ),
            ensures
                forall|t: int|
                    0 <= t < path@.len() ==> is_child_slot(
                        seps(st[(#[trigger] path@[t]).0]),
                        key@,
                        path@[t].1 as int,
                    ),
                sh.nodes.contains_key(id),
                sh.nodes[id].height == 0,
                in_fence(key@, sh.nodes[id]),
                path_ok(st, sh, path@, path@.len() as int, id),
                path@.len() == sh.nodes[sh.root].height,
            decreases sh.nodes[id].height,
        {
            proof {
                assert(node_ok(st, sh.nodes, id));
            }
            match self.page_ref(id) {
                Some(page) => {
                    if page.is_leaf() {
                        break;
                    }
                    let (child, idx) = branch_slot(page, key);
                    let ghost path0 = path@;
                    proof {
                        lemma_child_fence(st, sh.nodes, id, key@, idx as int);
                    }
                    path.push((id, idx));
                    proof {
                        let d = path@.len() as int;
                        assert forall|t: int| 0 <= t < d implies #[trigger] path_step_ok(
                            st,
                            sh,
                            path@,
                            d,
                            child,
                            t,
                        ) by {
                            if t < d - 1 {
                                assert(path_step_ok(st, sh, path0, d - 1, id, t));
                                assert(path@[t] == path0[t]);
                                if t + 1 < d - 1 {
                                    assert(path@[t + 1] == path0[t + 1]);
                                }
                            }
                        }
                        if d - 1 > 0 {
                            assert(path@[0] == path0[0]);
                        }
                    }
                    id = child;
                },
                None => {
                    break;
                },
            }
        }
        proof {
            let lay = self.layout();
            let d = path@.len() as int;
            assert forall|t: int| 0 <= t < d implies #[trigger] leads_on(
                lay,
                key@,
                path@,
                id,
                t,
            ) by {
                assert(path_step_ok(st, sh, path@, d, id, t));
                assert(node_ok(st, sh.nodes, path@[t].0));
                lemma_bare(st[path@[t].0]);
            }
            assert(node_ok(st, sh.nodes, id));
        }
        (id, path)
    }
}

impl BPlusTree {
    /// Opens a mutation: takes the tree's latch.
    fn begin_write(&mut self) -> (g: Option<LatchGuard>)
        requires
            old(self).pages_ok(),
            old(self).latch_entry().free(),
        ensures
            match g {
                Some(guard) => {
                    &&& guard.page_id == STRUCTURE_LATCH_KEY
                    &&& guard.mode == LatchMode::Exclusive
                },
                None => false,
            },
            final(self).pages_ok(),
            final(self).latch_entry() == old(self).latch_entry().granted(LatchMode::Exclusive),
            final(self).pages == old(self).pages,
            final(self).shape == old(self).shape,
            final(self).root_page_id == old(self).root_page_id,
            final(self).next_page_id == old(self).next_page_id,
            final(self).config == old(self).config,
            final(self).dirty == old(self).dirty,
            final(self).next_lsn == old(self).next_lsn,
            final(self).writes == old(self).writes,
    {
        self.latch_mgr.latch(STRUCTURE_LATCH_KEY, LatchMode::Exclusive)
    }

    /// Closes a mutation: gives the latch back, which counts the version up.
    fn end_write(&mut self, guard: Option<LatchGuard>)
        requires
            old(self).pages_ok(),
            guard matches Some(g) && g.page_id == STRUCTURE_LATCH_KEY && g.mode
                == LatchMode::Exclusive,
        ensures
            final(self).pages_ok(),
            final(self).latch_entry() == old(self).latch_entry().released(LatchMode::Exclusive),
            final(self).pages == old(self).pages,
            final(self).shape == old(self).shape,
            final(self).root_page_id == old(self).root_page_id,
            final(self).next_page_id == old(self).next_page_id,
            final(self).config == old(self).config,
            final(self).dirty == old(self).dirty,
            final(self).next_lsn == old(self).next_lsn,
            final(self).writes == old(self).writes,
    {
        match guard {
            Some(g) => {
                self.latch_mgr.release(g);
            },
            None => {},
        }
    }
}

/// A path without its last step leads to the branch of that step.
proof fn lemma_path_prefix(
    pages: Pages,
    sh: Shape,
    path: Seq<(PageId, usize)>,
    depth: int,
    target: u64,
)
    requires
        path_ok(pages, sh, path, depth, target),
        depth > 0,
    ensures
        path_ok(pages, sh, path, depth - 1, path[depth - 1].0),
{
    let p = path[depth - 1].0;
    assert(path_step_ok(pages, sh, path, depth, target, depth - 1));
    assert forall|t: int| 0 <= t < depth - 1 implies #[trigger] path_step_ok(
        pages,
        sh,
        path,
        depth - 1,
        p,
        t,
    ) by {
        assert(path_step_ok(pages, sh, path, depth, target, t));
    }
}

/// A path stays good when its end is split: the branches above are untouched.
proof fn lemma_path_kept(
    pages: Pages,
    sh: Shape,
    pages2: Pages,
    sh2: Shape,
    path: Seq<(PageId, usize)>,
    depth: int,
    target: u64,
)
    requires
        path_ok(pages, sh, path, depth, target),
        sh2.root == sh.root,
        forall|x: u64| #[trigger]
            sh.nodes.contains_key(x) ==> sh2.nodes.contains_key(x) && sh2.nodes[x].height
                == sh.nodes[x].height && (x != target ==> pages2[x] == pages[x]),
    ensures
        path_ok(pages2, sh2, path, depth, target),
{
    assert forall|t: int| 0 <= t < depth implies #[trigger] path_step_ok(
        pages2,
        sh2,
        path,
        depth,
        target,
        t,
    ) by {
        assert(path_step_ok(pages, sh, path, depth, target, t));
    }
}

/// A key in the fence of a branch is in the fence of the child it selects.
pub proof fn lemma_child_fence(
    pages: Pages,
    nodes: Map<u64, Node>,
    id: u64,
    key: Key,
    idx: int,
)
    requires
        nodes.contains_key(id),
        node_ok(pages, nodes, id),
        !pages[id].is_leaf(),
        in_fence(key, nodes[id]),
        is_child_slot(seps(pages[id]), key, idx),
    ensures
        ({
            let c = children(pages[id])[idx];
            &&& 0 <= idx < children(pages[id]).len()
            &&& nodes.contains_key(c)
            &&& nodes[c].height + 1 == nodes[id].height
            &&& nodes[c].parent == Some(id)
            &&& in_fence(key, nodes[c])
        }),
{
    let s = seps(pages[id]);
    let c = children(pages[id]);
    assert(child_ok(nodes, id, nodes[id], s, c, idx));
    if idx > 0 {
        assert(lex_le(s[idx - 1], key));
    }
    if idx < s.len() {
        assert(lex_lt(key, s[idx]));
    }
}

/// Where the lower bound of a key is not the key, the leaf does not hold it.
pub proof fn lemma_not_in_leaf(recs: Seq<Seq<u8>>, key: Key, slot: int, v: Seq<u8>)
    requires
        leaf_records_ok(recs),
        is_lower_bound(recs, key, slot),
        !(slot < recs.len() && kv_key(recs[slot]) == key),
    ensures
        !records_hold(recs, key, v),
{
    broadcast use crate::bytes::group_lex_order;

    if records_hold(recs, key, v) {
        let i = choose|i: int|
            0 <= i < recs.len() && kv_key(#[trigger] recs[i]) == key && kv_value(recs[i]) == v;
        if i < slot {
            assert(lex_lt(kv_key(recs[i]), key));
        } else if i > slot {
            assert(lex_lt(kv_key(recs[slot]), kv_key(recs[i])));
            assert(lex_le(key, kv_key(recs[slot])));
        }
    }
}

} // verus!
