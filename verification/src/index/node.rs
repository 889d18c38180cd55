//! Reading and building single B+ tree pages.

use vstd::prelude::*;
use vstd::slice::slice_to_vec;

use crate::bytes::bytes_eq;
use crate::bytes::bytes_le;
use crate::bytes::bytes_lt;
use crate::bytes::lex_le;
use crate::bytes::lex_lt;
use crate::index::entry::branch_record;
use crate::index::entry::decode_kv;
use crate::index::entry::encode_branch_entry;
use crate::index::entry::kv_key;
use crate::index::entry::kv_value;
use crate::index::entry::law_branch_roundtrip;
use crate::index::entry::valid_kv;
use crate::index::page::lemma_record_bytes_add;
use crate::index::page::lemma_record_bytes_push;
use crate::index::page::record_bytes;
use crate::index::page::records_fit;
use crate::index::page::BTreePage;
use crate::index::page::BTreePageType;
use crate::index::page::PageState;
use crate::index::shape::children;
use crate::index::shape::is_branch_page;
use crate::index::shape::leaf_records_ok;
use crate::index::shape::records_hold;
use crate::index::shape::sep_fits;
use crate::index::shape::seps;
use crate::index::shape::sorted;
use crate::index::shape::Key;
use crate::storage::page::PageId;

verus! {

// ---------------------------------------------------------------------------
// Lists of records
// ---------------------------------------------------------------------------

/// The views of a list of byte strings.
pub open spec fn views(v: Seq<Vec<u8>>) -> Seq<Seq<u8>> {
    v.map_values(|r: Vec<u8>| r@)
}

pub proof fn lemma_hold_add(a: Seq<Seq<u8>>, b: Seq<Seq<u8>>, k: Key, v: Seq<u8>)
    ensures
        records_hold(a + b, k, v) == (records_hold(a, k, v) || records_hold(b, k, v)),
{
    let c = a + b;
    if records_hold(a, k, v) {
        let i = choose|i: int|
            0 <= i < a.len() && kv_key(#[trigger] a[i]) == k && kv_value(a[i]) == v;
        assert(c[i] == a[i]);
    }
    if records_hold(b, k, v) {
        let i = choose|i: int|
            0 <= i < b.len() && kv_key(#[trigger] b[i]) == k && kv_value(b[i]) == v;
        assert(c[a.len() + i] == b[i]);
    }
    if records_hold(c, k, v) {
        let i = choose|i: int|
            0 <= i < c.len() && kv_key(#[trigger] c[i]) == k && kv_value(c[i]) == v;
        if i < a.len() {
            assert(c[i] == a[i]);
        } else {
            assert(c[i] == b[i - a.len()]);
        }
    }
}

pub proof fn lemma_hold_insert(r: Seq<Seq<u8>>, p: int, x: Seq<u8>, k: Key, v: Seq<u8>)
    requires
        0 <= p <= r.len(),
    ensures
        records_hold(r.insert(p, x), k, v) == (records_hold(r, k, v) || (kv_key(x) == k && kv_value(
            x,
        ) == v)),
{
    assert(r.insert(p, x) =~= r.take(p) + (seq![x] + r.skip(p)));
    lemma_hold_add(r.take(p), seq![x] + r.skip(p), k, v);
    lemma_hold_add(seq![x], r.skip(p), k, v);
    assert(r =~= r.take(p) + r.skip(p));
    lemma_hold_add(r.take(p), r.skip(p), k, v);
    assert(records_hold(seq![x], k, v) == (kv_key(x) == k && kv_value(x) == v)) by {
        assert(seq![x][0] == x);
    }
}

pub proof fn lemma_hold_remove(r: Seq<Seq<u8>>, i: int, k: Key, v: Seq<u8>)
    requires
        leaf_records_ok(r),
        0 <= i < r.len(),
    ensures
        records_hold(r.remove(i), k, v) == (records_hold(r, k, v) && k != kv_key(r[i])),
{
    broadcast use crate::bytes::group_lex_order;

    let q = r.remove(i);
    assert(q.insert(i, r[i]) =~= r);
    lemma_hold_insert(q, i, r[i], k, v);
    if records_hold(q, k, v) {
        let j = choose|j: int|
            0 <= j < q.len() && kv_key(#[trigger] q[j]) == k && kv_value(q[j]) == v;
        if j < i {
            assert(q[j] == r[j]);
            assert(lex_lt(kv_key(r[j]), kv_key(r[i])));
        } else {
            assert(q[j] == r[j + 1]);
            assert(lex_lt(kv_key(r[i]), kv_key(r[j + 1])));
        }
    }
}

/// A part of well-formed leaf records is well-formed.
pub proof fn lemma_records_part(r: Seq<Seq<u8>>, a: int, b: int)
    requires
        leaf_records_ok(r),
        0 <= a <= b <= r.len(),
    ensures
        leaf_records_ok(r.subrange(a, b)),
{
    let q = r.subrange(a, b);
    assert forall|i: int| 0 <= i < q.len() implies valid_kv(#[trigger] q[i]) && sep_fits(
        kv_key(q[i]),
    ) by {
        assert(q[i] == r[i + a]);
    }
    assert forall|i: int, j: int| 0 <= i < j < q.len() implies lex_lt(
        kv_key(#[trigger] q[i]),
        kv_key(#[trigger] q[j]),
    ) by {
        assert(q[i] == r[i + a] && q[j] == r[j + a]);
    }
}

/// Well-formed leaf records stay so when one leaves.
pub proof fn lemma_records_remove(r: Seq<Seq<u8>>, i: int)
    requires
        leaf_records_ok(r),
        0 <= i < r.len(),
    ensures
        leaf_records_ok(r.remove(i)),
{
    let q = r.remove(i);
    assert forall|x: int| 0 <= x < q.len() implies valid_kv(#[trigger] q[x]) && sep_fits(
        kv_key(q[x]),
    ) by {
        let x2 = if x < i { x } else { x + 1 };
        assert(q[x] == r[x2]);
    }
    assert forall|x: int, y: int| 0 <= x < y < q.len() implies lex_lt(
        kv_key(#[trigger] q[x]),
        kv_key(#[trigger] q[y]),
    ) by {
        let x2 = if x < i { x } else { x + 1 };
        let y2 = if y < i { y } else { y + 1 };
        assert(q[x] == r[x2] && q[y] == r[y2]);
    }
}

/// Well-formed leaf records stay so when one comes in at its place.
pub proof fn lemma_records_insert(r: Seq<Seq<u8>>, p: int, x: Seq<u8>)
    requires
        leaf_records_ok(r),
        0 <= p <= r.len(),
        valid_kv(x),
        sep_fits(kv_key(x)),
        forall|i: int| 0 <= i < p ==> lex_lt(kv_key(#[trigger] r[i]), kv_key(x)),
        forall|i: int| p <= i < r.len() ==> lex_lt(kv_key(x), kv_key(#[trigger] r[i])),
    ensures
        leaf_records_ok(r.insert(p, x)),
{
    let q = r.insert(p, x);
    assert forall|i: int| 0 <= i < q.len() implies valid_kv(#[trigger] q[i]) && sep_fits(
        kv_key(q[i]),
    ) by {
        if i < p {
            assert(q[i] == r[i]);
        } else if i > p {
            assert(q[i] == r[i - 1]);
        }
    }
    assert forall|i: int, j: int| 0 <= i < j < q.len() implies lex_lt(
        kv_key(#[trigger] q[i]),
        kv_key(#[trigger] q[j]),
    ) by {
        if i < p {
            assert(q[i] == r[i]);
        } else if i > p {
            assert(q[i] == r[i - 1]);
        }
        if j < p {
            assert(q[j] == r[j]);
        } else if j > p {
            assert(q[j] == r[j - 1]);
        }
    }
}

/// The space that records take depends on their lengths only.
pub proof fn lemma_record_bytes_lens(a: Seq<Seq<u8>>, b: Seq<Seq<u8>>)
    requires
        a.len() == b.len(),
        forall|i: int| 0 <= i < a.len() ==> (#[trigger] a[i]).len() == b[i].len(),
    ensures
        record_bytes(a) == record_bytes(b),
    decreases a.len(),
{
    if a.len() > 0 {
        lemma_record_bytes_lens(a.drop_last(), b.drop_last());
    }
}

/// A part of records that fit fits.
pub proof fn lemma_fit_part(r: Seq<Seq<u8>>, a: int, b: int)
    requires
        records_fit(r),
        0 <= a <= b <= r.len(),
    ensures
        records_fit(r.subrange(a, b)),
{
    assert(r =~= r.subrange(0, a) + (r.subrange(a, b) + r.subrange(b, r.len() as int)));
    lemma_record_bytes_add(
        r.subrange(0, a),
        r.subrange(a, b) + r.subrange(b, r.len() as int),
    );
    lemma_record_bytes_add(r.subrange(a, b), r.subrange(b, r.len() as int));
}

// ---------------------------------------------------------------------------
// Leaves
// ---------------------------------------------------------------------------

/// The first slot whose key is not below `key`.
pub open spec fn is_lower_bound(recs: Seq<Seq<u8>>, key: Key, slot: int) -> bool {
    &&& 0 <= slot <= recs.len()
    &&& forall|i: int| 0 <= i < slot ==> lex_lt(kv_key(#[trigger] recs[i]), key)
    &&& forall|i: int| slot <= i < recs.len() ==> lex_le(key, kv_key(#[trigger] recs[i]))
}

/// Does slot `i` hold a key below `key`? One that holds no key does not.
pub open spec fn holds_below(recs: Seq<Seq<u8>>, key: Key, i: int) -> bool {
    0 <= i < recs.len() && valid_kv(recs[i]) && lex_lt(kv_key(recs[i]), key)
}

/// Is `slot`, among the first `count`, a place where keys below `key` end: the slot
/// before it holds one, and it does not itself?
pub open spec fn is_turning(recs: Seq<Seq<u8>>, count: int, key: Key, slot: int) -> bool {
    &&& 0 <= slot <= count
    &&& slot > 0 ==> holds_below(recs, key, slot - 1)
    &&& slot < count ==> !holds_below(recs, key, slot)
}

/// Among records in key order there is one such place, the lower bound.
pub proof fn lemma_turning(page: BTreePage, key: Key, slot: int)
    requires
        leaf_records_ok(page@.records),
        is_turning(page@.records, page.spec_key_count() as int, key, slot),
    ensures
        is_lower_bound(page.counted(), key, slot),
{
    broadcast use crate::bytes::group_lex_order;

    let recs = page@.records;
    let counted = page.counted();
    assert forall|i: int| 0 <= i < slot implies lex_lt(kv_key(#[trigger] counted[i]), key) by {
        if i < slot - 1 {
            assert(lex_lt(kv_key(recs[i]), kv_key(recs[slot - 1])));
        }
    }
    assert forall|i: int| slot <= i < counted.len() implies lex_le(
        key,
        kv_key(#[trigger] counted[i]),
    ) by {
        assert(valid_kv(recs[slot]));
        if i > slot {
            assert(lex_lt(kv_key(recs[slot]), kv_key(recs[i])));
        }
    }
}

/// Finds the first slot of a leaf whose key is not below `key`, by bisection over the
/// slots that the header counts. Where the records are not in key order, it is one of
/// the places where keys below `key` end.
pub fn leaf_lower_bound(page: &BTreePage, key: &[u8]) -> (slot: u16)
    ensures
        is_turning(page@.records, page.spec_key_count() as int, key@, slot as int),
        leaf_records_ok(page@.records) ==> is_lower_bound(page.counted(), key@, slot as int),
{
    let ghost recs = page@.records;
    let mut lo: u16 = 0;
    let mut hi: u16 = page.key_count();
    while lo < hi
        invariant
            recs == page@.records,
            lo <= hi <= page.spec_key_count(),
            lo > 0 ==> holds_below(recs, key@, lo - 1),
            hi < page.spec_key_count() ==> !holds_below(recs, key@, hi as int),
        decreases hi - lo,
    {
        let mid: u16 = lo + (hi - lo) / 2;
        match page.key(mid) {
            Some(rec) => match decode_kv(rec) {
                Some((k, _v)) => {
                    if bytes_lt(k, key) {
                        lo = mid + 1;
                    } else {
                        hi = mid;
                    }
                },
                None => {
                    hi = mid;
                },
            },
            None => {
                hi = mid;
            },
        }
    }
    proof {
        if leaf_records_ok(recs) {
            lemma_turning(*page, key@, lo as int);
        }
    }
    lo
}

/// Does slot `slot` of a leaf hold exactly `key`?
pub fn leaf_has_key(page: &BTreePage, slot: u16, key: &[u8]) -> (b: bool)
    requires
        leaf_records_ok(page@.records),
    ensures
        b == (slot < page@.records.len() && kv_key(page@.records[slot as int]) == key@),
{
    match page.key(slot) {
        Some(rec) => match decode_kv(rec) {
            Some((k, _v)) => bytes_eq(k, key),
            None => false,
        },
        None => false,
    }
}

/// A leaf with these records.
pub open spec fn leaf_page(id: PageId, records: Seq<Seq<u8>>, prev: PageId, next: PageId) -> PageState {
    PageState { prev, next, records, ..PageState::empty(id, BTreePageType::Leaf, 0) }
}

/// Builds a leaf from records `from..to`; `None` where they do not fit.
pub fn build_leaf(
    page_id: PageId,
    recs: &Vec<Vec<u8>>,
    from: usize,
    to: usize,
    prev: PageId,
    next: PageId,
) -> (r: Option<BTreePage>)
    requires
        from <= to <= recs@.len(),
    ensures
        match r {
            Some(p) => {
                &&& p.wf()
                &&& p.in_step()
                &&& records_fit(views(recs@).subrange(from as int, to as int))
                &&& p@ == leaf_page(
                    page_id,
                    views(recs@).subrange(from as int, to as int),
                    prev,
                    next,
                )
            },
            None => !records_fit(views(recs@).subrange(from as int, to as int)),
        },
{
    let ghost all = views(recs@);
    let mut page = BTreePage::new_leaf(page_id);
    page.set_siblings(prev, next);
    let mut i: usize = from;
    assert(page@.records =~= all.subrange(from as int, from as int));
    while i < to
        invariant
            from <= i <= to <= recs@.len(),
            all == views(recs@),
            page.wf(),
            page.in_step(),
            page@ == (PageState {
                prev,
                next,
                records: all.subrange(from as int, i as int),
                ..PageState::empty(page_id, BTreePageType::Leaf, 0)
            }),
        decreases to - i,
    {
        let ghost before = page@.records;
        proof {
            page.lemma_wf();
            assert(all[i as int] == recs@[i as int]@);
            assert(all.subrange(from as int, i + 1) =~= before.push(all[i as int]));
        }
        match page.insert_raw(recs[i].as_slice()) {
            Some(_) => {},
            None => {
                proof {
                    let whole = all.subrange(from as int, to as int);
                    let part = all.subrange(from as int, i + 1);
                    lemma_record_bytes_push(before, all[i as int]);
                    assert(whole.subrange(0, i + 1 - from) =~= part);
                    if records_fit(whole) {
                        lemma_fit_part(whole, 0, i + 1 - from);
                    }
                }
                return None;
            },
        }
        i += 1;
    }
    proof {
        page.lemma_wf();
    }
    Some(page)
}

/// Copies of the records of a page.
pub fn copy_records(page: &BTreePage) -> (r: Vec<Vec<u8>>)
    requires
        page.wf(),
    ensures
        views(r@) == page@.records,
{
    proof {
        page.lemma_wf();
    }
    let n: u16 = page.slot_count();
    let mut out: Vec<Vec<u8>> = Vec::new();
    let mut i: u16 = 0;
    while i < n
        invariant
            i <= n,
            n as nat == page@.records.len(),
            out@.len() == i,
            forall|j: int| 0 <= j < i ==> (#[trigger] out@[j])@ == page@.records[j],
        decreases n - i,
    {
        match page.key(i) {
            Some(rec) => {
                out.push(slice_to_vec(rec));
            },
            None => {},
        }
        i += 1;
    }
    assert(views(out@) =~= page@.records);
    out
}

// ---------------------------------------------------------------------------
// Branches
// ---------------------------------------------------------------------------

/// Which child of a branch is responsible for `key`: the one before the first
/// separator above `key`.
pub open spec fn is_child_slot(s: Seq<Key>, key: Key, idx: int) -> bool {
    &&& 0 <= idx <= s.len()
    &&& forall|i: int| 0 <= i < idx ==> lex_le(#[trigger] s[i], key)
    &&& forall|i: int| idx <= i < s.len() ==> lex_lt(key, #[trigger] s[i])
}

/// Finds the child of a branch that is responsible for `key`: its page id and
/// its index, which is the number of separators for the rightmost child.
pub fn branch_slot(page: &BTreePage, key: &[u8]) -> (r: (PageId, usize))
    requires
        page.wf(),
        is_branch_page(page@, page@.page_id, seps(page@), children(page@)),
        sorted(seps(page@)),
    ensures
        is_child_slot(seps(page@), key@, r.1 as int),
        r.0 == children(page@)[r.1 as int],
{
    let ghost s = seps(page@);
    let count: u16 = page.slot_count();
    let mut lo: u16 = 0;
    let mut hi: u16 = count;
    while lo < hi
        invariant
            s == seps(page@),
            s.len() == page@.records.len(),
            count as nat == s.len(),
            sorted(s),
            lo <= hi <= count,
            forall|i: int| 0 <= i < lo ==> lex_le(#[trigger] s[i], key@),
            forall|i: int| hi <= i < s.len() ==> lex_lt(key@, #[trigger] s[i]),
        decreases hi - lo,
    {
        broadcast use crate::bytes::group_lex_order;

        let mid: u16 = lo + (hi - lo) / 2;
        match page.separator_key(mid) {
            Some(k) => {
                assert(k@ == s[mid as int]);
                if bytes_le(k, key) {
                    assert forall|i: int| 0 <= i < mid + 1 implies lex_le(#[trigger] s[i], key@) by {
                        if i < mid {
                            assert(lex_lt(s[i], s[mid as int]));
                        }
                    }
                    lo = mid + 1;
                } else {
                    assert forall|i: int| mid <= i < s.len() implies lex_lt(key@, #[trigger] s[i]) by {
                        if i > mid {
                            assert(lex_lt(s[mid as int], s[i]));
                        }
                    }
                    hi = mid;
                }
            },
            None => {
                hi = mid;
            },
        }
    }
    if lo < count {
        match page.child_pointer(lo) {
            Some(c) => (c, lo as usize),
            None => (0, lo as usize),
        }
    } else {
        (page.btree_header().rightmost_child, count as usize)
    }
}

/// The separators and children of a branch.
pub fn decode_branch(page: &BTreePage) -> (r: (Vec<Vec<u8>>, Vec<PageId>))
    requires
        page.wf(),
        is_branch_page(page@, page@.page_id, seps(page@), children(page@)),
    ensures
        views(r.0@) == seps(page@),
        r.1@ == children(page@),
{
    let count: u16 = page.slot_count();
    let mut s: Vec<Vec<u8>> = Vec::new();
    let mut c: Vec<PageId> = Vec::new();
    let mut i: u16 = 0;
    while i < count
        invariant
            i <= count,
            count as nat == page@.records.len(),
            is_branch_page(page@, page@.page_id, seps(page@), children(page@)),
            s@.len() == i,
            c@.len() == i,
            forall|j: int| 0 <= j < i ==> (#[trigger] s@[j])@ == seps(page@)[j],
            forall|j: int| 0 <= j < i ==> #[trigger] c@[j] == children(page@)[j],
        decreases count - i,
    {
        match page.separator_key(i) {
            Some(k) => {
                s.push(slice_to_vec(k));
            },
            None => {},
        }
        match page.child_pointer(i) {
            Some(id) => {
                c.push(id);
            },
            None => {},
        }
        i += 1;
    }
    c.push(page.btree_header().rightmost_child);
    assert(views(s@) =~= seps(page@));
    assert(c@ =~= children(page@));
    (s, c)
}

/// The records of a branch with separators `s` and children `c`.
pub open spec fn branch_records(s: Seq<Key>, c: Seq<u64>) -> Seq<Seq<u8>> {
    Seq::new(s.len(), |i: int| branch_record(s[i], c[i]))
}

/// Does a branch with these separators fit on a page?
pub open spec fn branch_fits(s: Seq<Key>, c: Seq<u64>) -> bool {
    records_fit(branch_records(s, c))
}

/// A branch with these separators and children.
pub open spec fn branch_page(id: PageId, level: u8, s: Seq<Key>, c: Seq<u64>) -> PageState {
    PageState {
        records: branch_records(s, c),
        rightmost: c.last(),
        ..PageState::empty(id, BTreePageType::Branch, level)
    }
}

/// Builds a branch from separators `from..to` and the children around them;
/// `None` where they do not fit.
pub fn build_branch(
    page_id: PageId,
    level: u8,
    s: &Vec<Vec<u8>>,
    c: &Vec<PageId>,
    from: usize,
    to: usize,
) -> (r: Option<BTreePage>)
    requires
        from <= to <= s@.len(),
        c@.len() == s@.len() + 1,
    ensures
        match r {
            Some(p) => {
                &&& p.wf()
                &&& p.in_step()
                &&& is_branch_page(
                    p@,
                    page_id,
                    views(s@).subrange(from as int, to as int),
                    c@.subrange(from as int, to + 1),
                )
                &&& branch_fits(
                    views(s@).subrange(from as int, to as int),
                    c@.subrange(from as int, to + 1),
                )
                &&& p@ == branch_page(
                    page_id,
                    level,
                    views(s@).subrange(from as int, to as int),
                    c@.subrange(from as int, to + 1),
                )
            },
            None => !branch_fits(
                views(s@).subrange(from as int, to as int),
                c@.subrange(from as int, to + 1),
            ),
        },
{
    let ghost ss = views(s@).subrange(from as int, to as int);
    let ghost cc = c@.subrange(from as int, to + 1);
    let ghost all = branch_records(ss, cc);
    let mut page = BTreePage::new_branch(page_id, level);
    let mut i: usize = from;
    assert(page@.records =~= all.take(0));
    while i < to
        invariant
            from <= i <= to <= s@.len(),
            c@.len() == s@.len() + 1,
            ss == views(s@).subrange(from as int, to as int),
            cc == c@.subrange(from as int, to + 1),
            all == branch_records(ss, cc),
            page.wf(),
            page.in_step(),
            page@ == (PageState {
                records: all.take(i - from),
                ..PageState::empty(page_id, BTreePageType::Branch, level)
            }),
        decreases to - i,
    {
        let rec = encode_branch_entry(s[i].as_slice(), c[i]);
        let ghost before = page@.records;
        proof {
            page.lemma_wf();
            assert(views(s@)[i as int] == s@[i as int]@);
            assert(all[i - from] == rec@);
            assert(all.take(i + 1 - from) =~= before.push(rec@));
        }
        match page.insert_raw(rec.as_slice()) {
            Some(_) => {},
            None => {
                proof {
                    lemma_record_bytes_push(before, rec@);
                    assert(all.subrange(0, i + 1 - from) =~= all.take(i + 1 - from));
                    if records_fit(all) {
                        lemma_fit_part(all, 0, i + 1 - from);
                    }
                }
                return None;
            },
        }
        i += 1;
    }
    page.set_rightmost_child(c[to]);
    proof {
        assert(all.take(to - from) =~= all);
        assert forall|j: int| 0 <= j < page@.records.len() implies (#[trigger] page@.records[j]).len()
            >= 8 by {
            law_branch_roundtrip(ss[j], cc[j]);
        }
        assert forall|j: int| 0 <= j < ss.len() implies #[trigger] seps(page@)[j] == ss[j] by {
            law_branch_roundtrip(ss[j], cc[j]);
        }
        assert(seps(page@) =~= ss);
        assert forall|j: int| 0 <= j < cc.len() implies #[trigger] children(page@)[j] == cc[j] by {
            if j < ss.len() {
                law_branch_roundtrip(ss[j], cc[j]);
            }
        }
        assert(children(page@) =~= cc);
        page.lemma_wf();
    }
    Some(page)
}

/// A single separator that fits makes a branch that fits.
pub proof fn lemma_single_branch_fits(sep: Key, c: Seq<u64>)
    requires
        sep_fits(sep),
        c.len() == 2,
    ensures
        branch_fits(seq![sep], c),
{
    let r = branch_records(seq![sep], c);
    law_branch_roundtrip(sep, c[0]);
    assert(r =~= Seq::<Seq<u8>>::empty().push(branch_record(sep, c[0])));
    lemma_record_bytes_push(Seq::empty(), branch_record(sep, c[0]));
}

/// The records of a branch page take the space of its separators.
pub proof fn lemma_branch_page_fits(p: PageState, a: int, b: int, c: Seq<u64>)
    requires
        records_fit(p.records),
        forall|i: int| 0 <= i < p.records.len() ==> (#[trigger] p.records[i]).len() >= 8,
        0 <= a <= b <= p.records.len(),
        c.len() == b - a + 1,
    ensures
        branch_fits(seps(p).subrange(a, b), c),
        forall|i: int| 0 <= i < p.records.len() ==> sep_fits(#[trigger] seps(p)[i]),
{
    let s = seps(p).subrange(a, b);
    let q = p.records.subrange(a, b);
    lemma_fit_part(p.records, a, b);
    assert forall|i: int| 0 <= i < s.len() implies (#[trigger] branch_records(s, c)[i]).len()
        == q[i].len() by {
        law_branch_roundtrip(s[i], c[i]);
        assert(q[i] == p.records[i + a]);
    }
    lemma_record_bytes_lens(branch_records(s, c), q);
    assert forall|i: int| 0 <= i < p.records.len() implies sep_fits(#[trigger] seps(p)[i]) by {
        lemma_fit_part(p.records, i, i + 1);
        let one = p.records.subrange(i, i + 1);
        assert(one.drop_last() =~= Seq::empty());
        assert(record_bytes(one.drop_last()) == 0);
    }
}

} // verus!
