//! Bottom-up bulk loading.
//!
//! The loader sorts its entries, packs them into leaves at the configured fill
//! and builds the branch levels above until one page is left, the root. It uses
//! the same page formats as online insertion.

use vstd::prelude::*;
use vstd::slice::slice_to_vec;

use crate::bytes::lex_le;
use crate::bytes::lex_lt;
use crate::index::btree::entry_fits;
use crate::index::btree::is_range;
use crate::index::btree::pair_views;
use crate::index::btree::with_entries;
use crate::index::btree::BPlusTree;
use crate::index::btree::BPlusTreeConfig;
use crate::index::btree::BTreeError;
use crate::index::entry::encode_branch_entry;
use crate::index::entry::encode_kv;
use crate::index::entry::kv_key;
use crate::index::entry::kv_record;
use crate::index::entry::kv_value;
use crate::index::entry::law_branch_roundtrip;
use crate::index::entry::law_kv_roundtrip;
use crate::index::entry::valid_kv;
use crate::index::key::CompositeKey;
use crate::index::node::branch_records;
use crate::index::node::build_leaf;
use crate::index::node::lemma_records_part;
use crate::index::node::views;
use crate::index::page::lemma_record_bytes_push;
use crate::index::page::record_bytes;
use crate::index::page::records_fit;
use crate::index::page::BTreePage;
use crate::index::page::BTreePageType;
use crate::index::page::PAGE_CAPACITY;
use crate::index::page::PageState;
use crate::index::shape::below;
use crate::index::shape::branch_ok;
use crate::index::shape::chain_ok;
use crate::index::shape::child_ok;
use crate::index::shape::children;
use crate::index::shape::in_fence;
use crate::index::shape::is_branch_page;
use crate::index::shape::leaf_in_fence;
use crate::index::shape::leaf_records_ok;
use crate::index::shape::leaves_ok;
use crate::index::shape::node_ok;
use crate::index::shape::nodes_ok;
use crate::index::shape::records_hold;
use crate::index::shape::sep_fits;
use crate::index::shape::seps;
use crate::index::shape::sorted;
use crate::index::shape::tree_holds;
use crate::index::shape::tree_map;
use crate::index::shape::tree_ok;
use crate::index::shape::Key;
use crate::index::shape::Node;
use crate::index::shape::Pages;
use crate::index::shape::Shape;
use crate::index::sort::lemma_pairs_map_dom;
use crate::index::sort::lemma_pairs_map_value;
use crate::index::sort::pairs_map;
use crate::index::sort::pairs_sorted;
use crate::index::sort::sort_pairs;
use crate::index::sort::Pairs;
use crate::index::split::lemma_same_leaves;
use crate::storage::page::PageId;
use crate::storage::page::SLOT_SIZE;

verus! {

// ---------------------------------------------------------------------------
// Levels
// ---------------------------------------------------------------------------

/// The upper fence of node `i` of a level.
pub open spec fn level_hi(los: Seq<Key>, i: int) -> Option<Key> {
    if i + 1 < los.len() {
        Some(los[i + 1])
    } else {
        None
    }
}

/// Node `i` of a level that has no parents yet.
pub open spec fn level_node_ok(
    nodes: Map<u64, Node>,
    ids: Seq<u64>,
    los: Seq<Key>,
    h: nat,
    i: int,
) -> bool {
    &&& nodes.contains_key(ids[i])
    &&& nodes[ids[i]] == (Node { lo: los[i], hi: level_hi(los, i), parent: None, height: h })
}

/// The nodes `ids` tile the key space, with the lower fences `los`.
pub open spec fn level_ok(
    nodes: Map<u64, Node>,
    ids: Seq<u64>,
    los: Seq<Key>,
    h: nat,
    from: int,
) -> bool {
    &&& ids.len() == los.len()
    &&& ids.len() > 0
    &&& los[0] == Seq::<u8>::empty()
    &&& sorted(los)
    &&& forall|i: int| 0 < i < los.len() ==> sep_fits(#[trigger] los[i])
    &&& forall|i: int| from <= i < ids.len() ==> #[trigger] level_node_ok(nodes, ids, los, h, i)
}

/// Every node is in order and the leaves tile the key space; there may be many
/// roots.
pub open spec fn forest_ok(st: Pages, sh: Shape) -> bool {
    nodes_ok(st, sh.nodes, None) && leaves_ok(st, sh)
}

/// The nodes after branch `b` was put above nodes `i..j` of a level.
pub open spec fn grouped_nodes(
    nodes: Map<u64, Node>,
    b: u64,
    ids: Seq<u64>,
    los: Seq<Key>,
    h: nat,
    i: int,
    j: int,
) -> Map<u64, Node> {
    Map::new(
        |x: u64| nodes.contains_key(x) || x == b,
        |x: u64|
            if x == b {
                Node { lo: los[i], hi: level_hi(los, j - 1), parent: None, height: h + 1 }
            } else if ids.subrange(i, j).contains(x) {
                Node { parent: Some(b), ..nodes[x] }
            } else {
                nodes[x]
            },
    )
}

/// Putting a branch above adjacent nodes of a level keeps the forest.
proof fn step_group(
    st: Pages,
    sh: Shape,
    ids: Seq<u64>,
    los: Seq<Key>,
    h: nat,
    i: int,
    j: int,
    b: u64,
    p: PageState,
)
    requires
        forest_ok(st, sh),
        level_ok(sh.nodes, ids, los, h, i),
        0 <= i < j <= ids.len(),
        !sh.nodes.contains_key(b),
        !st.contains_key(b),
        is_branch_page(p, b, los.subrange(i + 1, j), ids.subrange(i, j)),
    ensures
        forest_ok(
            st.insert(b, p),
            Shape { nodes: grouped_nodes(sh.nodes, b, ids, los, h, i, j), ..sh },
        ),
        level_ok(grouped_nodes(sh.nodes, b, ids, los, h, i, j), ids, los, h, j),
        forall|x: u64| #[trigger]
            sh.nodes.contains_key(x) && sh.nodes[x].height != h ==> grouped_nodes(
                sh.nodes,
                b,
                ids,
                los,
                h,
                i,
                j,
            )[x] == sh.nodes[x],
        forall|k: Key, v: Seq<u8>| #[trigger]
            tree_holds(
                st.insert(b, p),
                grouped_nodes(sh.nodes, b, ids, los, h, i, j),
                k,
                v,
            ) == tree_holds(st, sh.nodes, k, v),
{
    let nodes = sh.nodes;
    let nodes2 = grouped_nodes(nodes, b, ids, los, h, i, j);
    let st2 = st.insert(b, p);
    let sh2 = Shape { nodes: nodes2, ..sh };
    let c = ids.subrange(i, j);
    let s = los.subrange(i + 1, j);
    let n = nodes2[b];
    assert forall|x: u64| #[trigger] c.contains(x) implies nodes.contains_key(x)
        && nodes[x].parent == None::<u64> && nodes[x].height == h by {
        let t = choose|t: int| 0 <= t < c.len() && c[t] == x;
        assert(c[t] == ids[t + i]);
        assert(level_node_ok(nodes, ids, los, h, t + i));
    }
    assert(branch_ok(nodes2, b, n, s, c)) by {
        broadcast use crate::bytes::group_lex_order;

        assert forall|x: int, y: int| 0 <= x < y < s.len() implies lex_lt(
            #[trigger] s[x],
            #[trigger] s[y],
        ) by {
            assert(lex_lt(los[x + i + 1], los[y + i + 1]));
        }
        assert forall|x: int| 0 <= x < s.len() implies lex_lt(n.lo, #[trigger] s[x]) && below(
            s[x],
            n.hi,
        ) by {
            assert(s[x] == los[x + i + 1]);
            assert(lex_lt(los[i], los[x + i + 1]));
            if j < los.len() {
                assert(lex_lt(los[x + i + 1], los[j]));
            }
        }
        assert forall|t: int| 0 <= t < c.len() implies nodes2.contains_key(#[trigger] c[t])
            && child_ok(nodes2, b, n, s, c, t) by {
            assert(c[t] == ids[t + i]);
            assert(level_node_ok(nodes, ids, los, h, t + i));
            assert(c.contains(c[t]));
        }
    }
    assert(below(n.lo, n.hi)) by {
        if j < los.len() {
            assert(lex_lt(los[i], los[j]));
        }
    }
    assert forall|x: u64| #[trigger] nodes2.contains_key(x) implies node_ok(st2, nodes2, x) by {
        if x != b {
            assert(nodes.contains_key(x));
            assert(node_ok(st, nodes, x));
            let q = st[x];
            if !q.is_leaf() {
                assert forall|t: int| 0 <= t < children(q).len() implies nodes2.contains_key(
                    #[trigger] children(q)[t],
                ) && child_ok(nodes2, x, nodes2[x], seps(q), children(q), t) by {
                    assert(child_ok(nodes, x, nodes[x], seps(q), children(q), t));
                }
            }
        }
    }
    assert forall|t: int| 0 <= t < sh2.leaves.len() implies #[trigger] chain_ok(st2, sh2, t) by {
        assert(chain_ok(st, sh, t));
    }
    assert forall|x: u64| #[trigger]
        nodes2.contains_key(x) && nodes2[x].height == 0 implies sh2.leaves.contains(x) by {
        assert(nodes.contains_key(x));
    }
    assert forall|t: int| j <= t < ids.len() implies #[trigger] level_node_ok(
        nodes2,
        ids,
        los,
        h,
        t,
    ) by {
        assert(level_node_ok(nodes, ids, los, h, t));
        if c.contains(ids[t]) {
            let u = choose|u: int| 0 <= u < c.len() && c[u] == ids[t];
            assert(c[u] == ids[u + i]);
            assert(level_node_ok(nodes, ids, los, h, u + i));
            assert(lex_lt(los[u + i], los[t]));
            crate::bytes::lemma_lex_refl(los[t]);
        }
    }
    lemma_same_leaves(st, nodes, st2, nodes2);
}

/// Builds one branch above `ids[i..]`, as far as the separators fit into `target`
/// bytes. Returns the page and the index behind its last child.
fn build_group(
    page_id: PageId,
    level: u8,
    keys: &Vec<Vec<u8>>,
    ids: &Vec<PageId>,
    i: usize,
    target: usize,
) -> (r: (BTreePage, usize))
    requires
        keys@.len() == ids@.len(),
        i < ids@.len(),
        target <= PAGE_CAPACITY,
    ensures
        i < r.1 <= ids@.len(),
        r.0.wf(),
        r.0.in_step(),
        is_branch_page(
            r.0@,
            page_id,
            views(keys@).subrange(i + 1, r.1 as int),
            ids@.subrange(i as int, r.1 as int),
        ),
        i + 1 < ids@.len() && sep_fits(views(keys@)[i + 1]) ==> r.1 >= i + 2,
        keeps_to(r.0@.records, target as int),
{
    let ghost vk = views(keys@);
    let n: usize = ids.len();
    let mut page = BTreePage::new_branch(page_id, level);
    let mut j: usize = i + 1;
    let mut used: usize = 0;
    assert(page@.records =~= branch_records(
        vk.subrange(i + 1, j as int),
        ids@.subrange(i as int, j as int),
    ));
    while j < n
        invariant
            i < j <= n,
            n == ids@.len(),
            keys@.len() == n,
            vk == views(keys@),
            page.wf(),
            page.in_step(),
            page@ == (PageState {
                records: branch_records(
                    vk.subrange(i + 1, j as int),
                    ids@.subrange(i as int, j as int),
                ),
                ..PageState::empty(page_id, BTreePageType::Branch, level)
            }),
            i + 1 < n && sep_fits(vk[i + 1]) ==> j > i + 1 || page@.records.len() == 0,
            page@.records.len() == j - i - 1,
            used == record_bytes(page@.records),
            keeps_to(page@.records, target as int),
        ensures
            i < j <= n,
            page.wf(),
            page.in_step(),
            page@ == (PageState {
                records: branch_records(
                    vk.subrange(i + 1, j as int),
                    ids@.subrange(i as int, j as int),
                ),
                ..PageState::empty(page_id, BTreePageType::Branch, level)
            }),
            i + 1 < n && sep_fits(vk[i + 1]) ==> j >= i + 2,
            keeps_to(page@.records, target as int),
        decreases n - j,
    {
        let rec = encode_branch_entry(keys[j].as_slice(), ids[j - 1]);
        if j > i + 1 && (used > target || rec.len() > target - used || SLOT_SIZE > target - used
            - rec.len()) {
            break;
        }
        let ghost before = page@.records;
        proof {
            page.lemma_wf();
            assert(vk[j as int] == keys@[j as int]@);
            law_branch_roundtrip(vk[j as int], ids@[j - 1]);
            if before.len() == 0 {
                assert(record_bytes(before) == 0);
            }
        }
        match page.insert_raw(rec.as_slice()) {
            Some(_) => {
                proof {
                    let s2 = vk.subrange(i + 1, j + 1);
                    let c2 = ids@.subrange(i as int, j + 1);
                    assert(branch_records(s2, c2) =~= before.push(rec@));
                    lemma_record_bytes_push(before, rec@);
                }
                used = used + rec.len() + SLOT_SIZE;
            },
            None => {
                break;
            },
        }
        j += 1;
    }
    page.set_rightmost_child(ids[j - 1]);
    proof {
        let s = vk.subrange(i + 1, j as int);
        let c = ids@.subrange(i as int, j as int);
        assert forall|t: int| 0 <= t < page@.records.len() implies (#[trigger] page@.records[t]).len()
            >= 8 by {
            law_branch_roundtrip(s[t], c[t]);
        }
        assert forall|t: int| 0 <= t < s.len() implies #[trigger] seps(page@)[t] == s[t] by {
            law_branch_roundtrip(s[t], c[t]);
        }
        assert(seps(page@) =~= s);
        assert forall|t: int| 0 <= t < c.len() implies #[trigger] children(page@)[t] == c[t] by {
            if t < s.len() {
                law_branch_roundtrip(s[t], c[t]);
            }
        }
        assert(children(page@) =~= c);
    }
    (page, j)
}

// ---------------------------------------------------------------------------
// The page list under construction
// ---------------------------------------------------------------------------

/// The pages of a list, from page id `base` on.
pub open spec fn list_pages(base: u64, pages: Seq<BTreePage>) -> Pages {
    Map::new(
        |x: u64| base <= x < base + pages.len(),
        |x: u64| pages[x - base]@,
    )
}

/// Every page is well-formed and carries its own id.
pub open spec fn list_ok(base: u64, pages: Seq<BTreePage>) -> bool {
    &&& base > 0
    &&& base + pages.len() <= u64::MAX
    &&& forall|i: int|
        0 <= i < pages.len() ==> (#[trigger] pages[i]).wf() && pages[i].in_step()
            && pages[i]@.page_id == base + i
}

proof fn lemma_list_push(base: u64, pages: Seq<BTreePage>, p: BTreePage)
    requires
        base + pages.len() < u64::MAX,
    ensures
        list_pages(base, pages.push(p)) == list_pages(base, pages).insert(
            (base + pages.len()) as u64,
            p@,
        ),
{
    let a = list_pages(base, pages.push(p));
    let b = list_pages(base, pages).insert((base + pages.len()) as u64, p@);
    assert forall|x: u64| a.contains_key(x) == b.contains_key(x) by {}
    assert forall|x: u64| a.contains_key(x) implies a[x] == b[x] by {
        if x != base + pages.len() {
            assert(pages.push(p)[x - base] == pages[x - base]);
        }
    }
    assert(a =~= b);
}

/// Builds the level above `ids`: appends its pages to the list and returns their
/// ids and first keys.
fn build_level(
    base: PageId,
    pages: &mut Vec<BTreePage>,
    ids: &Vec<PageId>,
    keys: &Vec<Vec<u8>>,
    level: u8,
    target: usize,
    Ghost(sh): Ghost<Shape>,
    Ghost(los): Ghost<Seq<Key>>,
    Ghost(h): Ghost<nat>,
) -> (r: (Vec<PageId>, Vec<Vec<u8>>, Ghost<Shape>, Ghost<Seq<Key>>))
    requires
        list_ok(base, old(pages)@),
        base + old(pages)@.len() + ids@.len() < u64::MAX,
        target <= PAGE_CAPACITY,
        ids@.len() > 1,
        keys@.len() == ids@.len(),
        forest_ok(list_pages(base, old(pages)@), sh),
        level_ok(sh.nodes, ids@, los, h, 0),
        forall|x: u64| #[trigger] sh.nodes.contains_key(x) ==> sh.nodes[x].height <= h,
        forall|i: int| 0 < i < los.len() ==> #[trigger] views(keys@)[i] == los[i],
    ensures
        list_ok(base, final(pages)@),
        final(pages)@.len() == old(pages)@.len() + r.0@.len(),
        2 * r.0@.len() <= ids@.len() + 1,
        r.0@.len() > 0,
        r.0@.len() < ids@.len(),
        r.1@.len() == r.0@.len(),
        forest_ok(list_pages(base, final(pages)@), r.2@),
        level_ok(r.2@.nodes, r.0@, r.3@, h + 1, 0),
        forall|x: u64| #[trigger] r.2@.nodes.contains_key(x) ==> r.2@.nodes[x].height <= h + 1,
        forall|i: int| 0 < i < r.3@.len() ==> #[trigger] views(r.1@)[i] == r.3@[i],
        forall|k: Key, v: Seq<u8>| #[trigger]
            tree_holds(list_pages(base, final(pages)@), r.2@.nodes, k, v) == tree_holds(
                list_pages(base, old(pages)@),
                sh.nodes,
                k,
                v,
            ),
        r.2@.leaves == sh.leaves,
        final(pages)@.take(old(pages)@.len() as int) == old(pages)@,
        forall|x: int|
            old(pages)@.len() <= x < final(pages)@.len() ==> !(#[trigger] final(pages)@[x])@.is_leaf()
                && keeps_to(final(pages)@[x]@.records, target as int),
{
    let ghost st0 = list_pages(base, pages@);
    let ghost nodes0 = sh.nodes;
    let ghost len0 = pages@.len();
    let n: usize = ids.len();
    let mut parent_ids: Vec<PageId> = Vec::new();
    let mut parent_keys: Vec<Vec<u8>> = Vec::new();
    let ghost mut shape = sh;
    let ghost mut plos: Seq<Key> = Seq::empty();
    let mut i: usize = 0;
    while i < n
        invariant
            i <= n,
            n == ids@.len(),
            n > 1,
            keys@.len() == n,
            los.len() == n,
            len0 == old(pages)@.len(),
            st0 == list_pages(base, old(pages)@),
            nodes0 == sh.nodes,
            list_ok(base, pages@),
            pages@.len() == len0 + parent_ids@.len(),
            target <= PAGE_CAPACITY,
            shape.leaves == sh.leaves,
            pages@.take(len0 as int) == old(pages)@,
            forall|x: int|
                len0 <= x < pages@.len() ==> !(#[trigger] pages@[x])@.is_leaf() && keeps_to(
                    pages@[x]@.records,
                    target as int,
                ),
            base + len0 + n < u64::MAX,
            2 * parent_ids@.len() <= i + 1,
            i < n ==> 2 * parent_ids@.len() <= i,
            i > 0 ==> parent_ids@.len() > 0,
            parent_keys@.len() == parent_ids@.len(),
            plos.len() == parent_ids@.len(),
            forest_ok(list_pages(base, pages@), shape),
            level_ok(shape.nodes, ids@, los, h, i as int),
            forall|x: u64| #[trigger] shape.nodes.contains_key(x) ==> shape.nodes[x].height <= h + 1,
            forall|x: int| 0 < x < los.len() ==> #[trigger] views(keys@)[x] == los[x],
            forall|k: Key, v: Seq<u8>| #[trigger]
                tree_holds(list_pages(base, pages@), shape.nodes, k, v) == tree_holds(
                    st0,
                    nodes0,
                    k,
                    v,
                ),
            // The parents so far.
            plos.len() > 0 ==> plos[0] == Seq::<u8>::empty(),
            sorted(plos),
            forall|x: int| 0 <= x < plos.len() && i < n ==> lex_lt(#[trigger] plos[x], los[i as int]),
            forall|x: int| 0 < x < plos.len() ==> sep_fits(#[trigger] plos[x]),
            forall|x: int| 0 < x < plos.len() ==> #[trigger] views(parent_keys@)[x] == plos[x],
            forall|x: int|
                0 <= x < plos.len() ==> {
                    &&& shape.nodes.contains_key(#[trigger] parent_ids@[x])
                    &&& shape.nodes[parent_ids@[x]] == (Node {
                        lo: plos[x],
                        hi: if x + 1 < plos.len() {
                            Some(plos[x + 1])
                        } else if i < n {
                            Some(los[i as int])
                        } else {
                            None
                        },
                        parent: None,
                        height: h + 1,
                    })
                },
        decreases n - i,
    {
        let branch_id: PageId = base + pages.len() as u64;
        let (page, j) = build_group(branch_id, level, keys, ids, i, target);
        let ghost st = list_pages(base, pages@);
        let ghost old_shape = shape;
        let ghost old_plos = plos;
        let ghost old_ids = parent_ids@;
        let ghost old_keys = parent_keys@;
        let ghost p = page@;
        proof {
            assert(views(keys@).subrange(i + 1, j as int) =~= los.subrange(i + 1, j as int));
            if shape.nodes.contains_key(branch_id) {
                assert(node_ok(st, shape.nodes, branch_id));
            }
            if i + 1 < n {
                assert(views(keys@)[i + 1] == los[i + 1]);
            }
            step_group(st, shape, ids@, los, h, i as int, j as int, branch_id, p);
            lemma_list_push(base, pages@, page);
            shape = Shape {
                nodes: grouped_nodes(shape.nodes, branch_id, ids@, los, h, i as int, j as int),
                ..shape
            };
            plos = plos.push(los[i as int]);
        }
        let ghost old_pages = pages@;
        pages.push(page);
        assert(pages@.take(len0 as int) =~= old_pages.take(len0 as int));
        parent_ids.push(branch_id);
        parent_keys.push(slice_to_vec(keys[i].as_slice()));
        proof {
            broadcast use crate::bytes::group_lex_order;

            let m = old_plos.len() as int;
            assert forall|x: int| 0 < x < plos.len() implies #[trigger] views(parent_keys@)[x]
                == plos[x] by {
                if x < m {
                    assert(views(parent_keys@)[x] == views(old_keys)[x]);
                } else {
                    assert(parent_keys@[x]@ == keys@[i as int]@);
                    assert(views(keys@)[i as int] == los[i as int]);
                }
            }
            assert forall|x: int| 0 <= x < plos.len() && j < n implies lex_lt(
                #[trigger] plos[x],
                los[j as int],
            ) by {
                assert(lex_lt(los[i as int], los[j as int]));
                if x < m {
                    assert(plos[x] == old_plos[x]);
                    assert(lex_lt(old_plos[x], los[i as int]));
                }
            }
            assert forall|x: int, y: int| 0 <= x < y < plos.len() implies lex_lt(
                #[trigger] plos[x],
                #[trigger] plos[y],
            ) by {
                if y < m {
                    assert(plos[x] == old_plos[x] && plos[y] == old_plos[y]);
                } else {
                    assert(plos[x] == old_plos[x]);
                    assert(lex_lt(old_plos[x], los[i as int]));
                }
            }
            assert forall|x: int| 0 <= x < plos.len() implies {
                &&& shape.nodes.contains_key(#[trigger] parent_ids@[x])
                &&& shape.nodes[parent_ids@[x]] == (Node {
                    lo: plos[x],
                    hi: if x + 1 < plos.len() {
                        Some(plos[x + 1])
                    } else if j < n {
                        Some(los[j as int])
                    } else {
                        None
                    },
                    parent: None,
                    height: h + 1,
                })
            } by {
                if x < m {
                    assert(parent_ids@[x] == old_ids[x]);
                    assert(old_shape.nodes.contains_key(old_ids[x]));
                    if x + 1 < m {
                        assert(plos[x + 1] == old_plos[x + 1]);
                    }
                }
            }
            assert forall|k: Key, v: Seq<u8>| #[trigger]
                tree_holds(list_pages(base, pages@), shape.nodes, k, v) == tree_holds(
                    st0,
                    nodes0,
                    k,
                    v,
                ) by {
                assert(tree_holds(st, old_shape.nodes, k, v) == tree_holds(st0, nodes0, k, v));
            }
        }
        i = j;
    }
    proof {
        assert forall|x: int| 0 <= x < plos.len() implies #[trigger] level_node_ok(
            shape.nodes,
            parent_ids@,
            plos,
            h + 1,
            x,
        ) by {
            assert(shape.nodes.contains_key(parent_ids@[x]));
        }
    }
    (parent_ids, parent_keys, Ghost(shape), Ghost(plos))
}

// ---------------------------------------------------------------------------
// Leaves
// ---------------------------------------------------------------------------

/// `cuts` cuts the records into chunks that fit on a page each.
pub open spec fn cuts_ok(recs: Seq<Seq<u8>>, cuts: Seq<usize>, done: int) -> bool {
    &&& cuts.len() >= 1
    &&& cuts[0] == 0
    &&& cuts.last() == done
    &&& forall|i: int, j: int| 0 <= i < j < cuts.len() ==> #[trigger] cuts[i] < #[trigger] cuts[j]
    &&& forall|i: int|
        0 <= i < cuts.len() - 1 ==> records_fit(
            #[trigger] recs.subrange(cuts[i] as int, cuts[i + 1] as int),
        )
}

/// Do the records keep to `target` bytes? A single record may be longer.
pub open spec fn keeps_to(records: Seq<Seq<u8>>, target: int) -> bool {
    records.len() <= 1 || record_bytes(records) <= target
}

/// Does chunk `i` keep to `target` bytes, and would it not with the record behind
/// it?
pub open spec fn chunk_packed(recs: Seq<Seq<u8>>, cuts: Seq<usize>, i: int, target: int) -> bool {
    let part = recs.subrange(cuts[i] as int, cuts[i + 1] as int);
    &&& keeps_to(part, target)
    &&& cuts[i + 1] < recs.len() ==> record_bytes(part) + recs[cuts[i + 1] as int].len() + SLOT_SIZE
        > target
}

/// Is every chunk as full as `target` bytes allow?
pub open spec fn cuts_packed(recs: Seq<Seq<u8>>, cuts: Seq<usize>, target: int) -> bool {
    forall|i: int| 0 <= i < cuts.len() - 1 ==> #[trigger] chunk_packed(recs, cuts, i, target)
}

/// Packs records into pages from left to right, each as far as `target` bytes
/// allow, and with one record at least.
fn cut_points(recs: &Vec<Vec<u8>>, target: usize) -> (cuts: Vec<usize>)
    requires
        recs@.len() > 0,
        target <= PAGE_CAPACITY,
        forall|i: int| 0 <= i < recs@.len() ==> (#[trigger] views(recs@)[i]).len() + SLOT_SIZE
            <= PAGE_CAPACITY,
    ensures
        cuts_ok(views(recs@), cuts@, recs@.len() as int),
        1 < cuts@.len() <= recs@.len() + 1,
        cuts_packed(views(recs@), cuts@, target as int),
{
    let ghost all = views(recs@);
    let n: usize = recs.len();
    let mut cuts: Vec<usize> = Vec::new();
    cuts.push(0);
    let mut from: usize = 0;
    while from < n
        invariant
            from <= n,
            n == recs@.len(),
            n > 0,
            all == views(recs@),
            forall|i: int| 0 <= i < recs@.len() ==> (#[trigger] all[i]).len() + SLOT_SIZE
                <= PAGE_CAPACITY,
            target <= PAGE_CAPACITY,
            cuts_ok(all, cuts@, from as int),
            cuts_packed(all, cuts@, target as int),
            cuts@.len() <= from + 1,
            from > 0 ==> cuts@.len() > 1,
        decreases n - from,
    {
        let mut to: usize = from + 1;
        assert(all[from as int].len() + SLOT_SIZE <= PAGE_CAPACITY);
        let mut used: usize = recs[from].len() + SLOT_SIZE;
        proof {
            let one = all.subrange(from as int, from + 1);
            assert(one =~= Seq::<Seq<u8>>::empty().push(all[from as int]));
            lemma_record_bytes_push(Seq::empty(), all[from as int]);
        }
        while to < n && recs[to].len() <= PAGE_CAPACITY && used + recs[to].len() + SLOT_SIZE
            <= target
            invariant
                from < to <= n,
                n == recs@.len(),
                all == views(recs@),
                used == record_bytes(all.subrange(from as int, to as int)),
                used <= PAGE_CAPACITY,
                target <= PAGE_CAPACITY,
                to > from + 1 ==> used <= target,
            decreases n - to,
        {
            proof {
                let part = all.subrange(from as int, to as int);
                assert(all.subrange(from as int, to + 1) =~= part.push(all[to as int]));
                lemma_record_bytes_push(part, all[to as int]);
            }
            used = used + recs[to].len() + SLOT_SIZE;
            to += 1;
        }
        let ghost old_cuts = cuts@;
        cuts.push(to);
        proof {
            assert forall|i: int| 0 <= i < cuts@.len() - 1 implies records_fit(
                #[trigger] all.subrange(cuts@[i] as int, cuts@[i + 1] as int),
            ) by {
                if i < old_cuts.len() - 1 {
                    assert(cuts@[i] == old_cuts[i] && cuts@[i + 1] == old_cuts[i + 1]);
                    assert(records_fit(
                        all.subrange(old_cuts[i] as int, old_cuts[i + 1] as int),
                    ));
                }
            }
            assert forall|i: int| 0 <= i < cuts@.len() - 1 implies #[trigger] chunk_packed(
                all,
                cuts@,
                i,
                target as int,
            ) by {
                if i < old_cuts.len() - 1 {
                    assert(chunk_packed(all, old_cuts, i, target as int));
                }
            }
        }
        from = to;
    }
    cuts
}

/// The lower fences of the leaves that the cuts make.
pub open spec fn cut_bounds(recs: Seq<Seq<u8>>, cuts: Seq<usize>) -> Seq<Key> {
    Seq::new(
        (cuts.len() - 1) as nat,
        |i: int|
            if i == 0 {
                Seq::empty()
            } else {
                kv_key(recs[cuts[i] as int])
            },
    )
}

/// The ids of the leaves that the cuts make.
pub open spec fn cut_ids(base: u64, cuts: Seq<usize>) -> Seq<u64> {
    Seq::new((cuts.len() - 1) as nat, |i: int| (base + i) as u64)
}

/// The shape of a row of leaves.
pub open spec fn leaf_row_shape(base: u64, recs: Seq<Seq<u8>>, cuts: Seq<usize>) -> Shape {
    let los = cut_bounds(recs, cuts);
    Shape {
        nodes: Map::new(
            |x: u64| base <= x < base + cuts.len() - 1,
            |x: u64|
                Node { lo: los[x - base], hi: level_hi(los, x - base), parent: None, height: 0 },
        ),
        leaves: cut_ids(base, cuts),
        bounds: los,
        root: base,
    }
}

/// A row of leaves is a forest, and holds what the records hold.
proof fn lemma_leaf_row(base: u64, recs: Seq<Seq<u8>>, cuts: Seq<usize>, pages: Seq<BTreePage>)
    requires
        leaf_records_ok(recs),
        recs.len() > 0,
        cuts_ok(recs, cuts, recs.len() as int),
        cuts.len() > 1,
        list_ok(base, pages),
        pages.len() == cuts.len() - 1,
        forall|i: int|
            0 <= i < pages.len() ==> {
                &&& (#[trigger] pages[i])@.is_leaf()
                &&& pages[i]@.records == recs.subrange(cuts[i] as int, cuts[i + 1] as int)
                &&& pages[i]@.next == (if i + 1 < pages.len() {
                    (base + i + 1) as u64
                } else {
                    0
                })
            },
    ensures
        forest_ok(list_pages(base, pages), leaf_row_shape(base, recs, cuts)),
        level_ok(
            leaf_row_shape(base, recs, cuts).nodes,
            cut_ids(base, cuts),
            cut_bounds(recs, cuts),
            0,
            0,
        ),
        forall|k: Key, v: Seq<u8>| #[trigger]
            tree_holds(
                list_pages(base, pages),
                leaf_row_shape(base, recs, cuts).nodes,
                k,
                v,
            ) == records_hold(recs, k, v),
{
    let st = list_pages(base, pages);
    let sh = leaf_row_shape(base, recs, cuts);
    let nodes = sh.nodes;
    let los = sh.bounds;
    let ids = sh.leaves;
    let m = pages.len() as int;
    assert(sorted(los)) by {
        assert forall|i: int, j: int| 0 <= i < j < los.len() implies lex_lt(
            #[trigger] los[i],
            #[trigger] los[j],
        ) by {
            assert(cuts[0] < cuts[j]);
            if i == 0 {
                assert(lex_lt(kv_key(recs[0]), kv_key(recs[cuts[j] as int])));
                crate::bytes::lemma_lex_refl(los[j]);
                if los[j].len() == 0 {
                    assert(lex_le(los[j], kv_key(recs[0])));
                }
            } else {
                assert(cuts[i] < cuts[j]);
            }
        }
    }
    assert forall|i: int| 0 <= i < m implies in_bounds(recs, cuts, i) by {
        assert(cuts[i] < cuts[i + 1]);
        if i + 1 < cuts.len() - 1 {
            assert(cuts[i + 1] < cuts[cuts.len() - 1]);
        }
    }
    assert forall|x: u64| #[trigger] nodes.contains_key(x) implies node_ok(st, nodes, x) by {
        let i = x - base;
        assert(pages[i]@.is_leaf());
        assert(in_bounds(recs, cuts, i));
        lemma_records_part(recs, cuts[i] as int, cuts[i + 1] as int);
        lemma_chunk_fence(recs, cuts, i);
        if i + 1 < los.len() {
            assert(lex_lt(los[i], los[i + 1]));
        }
    }
    assert forall|i: int| 0 <= i < ids.len() implies #[trigger] chain_ok(st, sh, i) by {
        assert(pages[i]@.is_leaf());
        assert(nodes.contains_key(ids[i]));
        if i + 1 < m {
            assert(ids[i + 1] == base + i + 1);
        }
    }
    assert forall|x: u64| #[trigger]
        nodes.contains_key(x) && nodes[x].height == 0 implies ids.contains(x) by {
        assert(ids[x - base] == x);
    }
    assert forall|i: int| 0 < i < los.len() implies sep_fits(#[trigger] los[i]) by {
        assert(in_bounds(recs, cuts, i));
    }
    assert forall|i: int| 0 <= i < ids.len() implies #[trigger] level_node_ok(
        nodes,
        ids,
        los,
        0,
        i,
    ) by {
        assert(nodes.contains_key(ids[i]));
    }
    assert forall|k: Key, v: Seq<u8>| #[trigger] tree_holds(st, nodes, k, v) == records_hold(
        recs,
        k,
        v,
    ) by {
        if tree_holds(st, nodes, k, v) {
            let x = choose|x: u64| #[trigger]
                nodes.contains_key(x) && nodes[x].height == 0 && records_hold(st[x].records, k, v);
            let i = x - base;
            assert(pages[i]@.is_leaf());
            assert(in_bounds(recs, cuts, i));
            let part = recs.subrange(cuts[i] as int, cuts[i + 1] as int);
            let t = choose|t: int|
                0 <= t < part.len() && kv_key(#[trigger] part[t]) == k && kv_value(part[t]) == v;
            assert(recs[t + cuts[i]] == part[t]);
        }
        if records_hold(recs, k, v) {
            let t = choose|t: int|
                0 <= t < recs.len() && kv_key(#[trigger] recs[t]) == k && kv_value(recs[t]) == v;
            let i = lemma_find_chunk(recs, cuts, t, (cuts.len() - 1) as int);
            let part = recs.subrange(cuts[i] as int, cuts[i + 1] as int);
            assert(part[t - cuts[i]] == recs[t]);
            assert(records_hold(part, k, v));
            let x = (base + i) as u64;
            assert(pages[i]@.records == part);
            assert(nodes.contains_key(x));
        }
    }
}

spec fn in_bounds(recs: Seq<Seq<u8>>, cuts: Seq<usize>, i: int) -> bool {
    0 <= cuts[i] < cuts[i + 1] <= recs.len()
}

/// The chunk that a record is in.
proof fn lemma_find_chunk(recs: Seq<Seq<u8>>, cuts: Seq<usize>, t: int, m: int) -> (i: int)
    requires
        cuts_ok(recs, cuts, recs.len() as int),
        0 <= m < cuts.len(),
        0 <= t < cuts[m],
    ensures
        0 <= i < m,
        cuts[i] <= t < cuts[i + 1],
    decreases m,
{
    if m == 0 {
        0
    } else if t >= cuts[m - 1] {
        m - 1
    } else {
        lemma_find_chunk(recs, cuts, t, m - 1)
    }
}

/// The records of a chunk lie between its bounds.
proof fn lemma_chunk_fence(recs: Seq<Seq<u8>>, cuts: Seq<usize>, i: int)
    requires
        leaf_records_ok(recs),
        cuts_ok(recs, cuts, recs.len() as int),
        0 <= i < cuts.len() - 1,
        in_bounds(recs, cuts, i),
    ensures
        leaf_in_fence(
            recs.subrange(cuts[i] as int, cuts[i + 1] as int),
            Node {
                lo: cut_bounds(recs, cuts)[i],
                hi: level_hi(cut_bounds(recs, cuts), i),
                parent: None,
                height: 0,
            },
        ),
{
    broadcast use crate::bytes::group_lex_order;

    let los = cut_bounds(recs, cuts);
    let n = Node { lo: los[i], hi: level_hi(los, i), parent: None, height: 0 };
    let part = recs.subrange(cuts[i] as int, cuts[i + 1] as int);
    assert forall|t: int| 0 <= t < part.len() implies in_fence(kv_key(#[trigger] part[t]), n) by {
        let r = t + cuts[i];
        assert(part[t] == recs[r]);
        if i > 0 && t > 0 {
            assert(lex_lt(kv_key(recs[cuts[i] as int]), kv_key(recs[r])));
        }
        if i + 1 < los.len() {
            assert(cuts[i + 1] < cuts[cuts.len() - 1]);
            assert(lex_lt(kv_key(recs[r]), kv_key(recs[cuts[i + 1] as int])));
        }
    }
}

/// Does a page keep to the bytes of its kind?
pub open spec fn page_keeps_to(page: PageState, leaf_target: int, branch_target: int) -> bool {
    keeps_to(
        page.records,
        if page.is_leaf() {
            leaf_target
        } else {
            branch_target
        },
    )
}

/// Is each leaf as full as `target` bytes allow, the last one possibly less?
pub open spec fn leaf_packed(st: Pages, leaves: Seq<u64>, i: int, target: int) -> bool {
    let records = st[leaves[i]].records;
    &&& keeps_to(records, target)
    &&& i + 1 < leaves.len() ==> record_bytes(records) + st[leaves[i + 1]].records[0].len()
        + SLOT_SIZE > target
}

/// Builds a tree over sorted records: the pages, from page id `base` on, and the
/// root.
fn build_pages(base: PageId, recs: &Vec<Vec<u8>>, leaf_target: usize, branch_target: usize) -> (r: (
    Vec<BTreePage>,
    PageId,
    Ghost<Shape>,
))
    requires
        base > 0,
        leaf_target <= PAGE_CAPACITY,
        branch_target <= PAGE_CAPACITY,
        recs@.len() > 0,
        leaf_records_ok(views(recs@)),
        forall|i: int| 0 <= i < recs@.len() ==> (#[trigger] views(recs@)[i]).len() + SLOT_SIZE
            <= PAGE_CAPACITY,
        base + 3 * recs@.len() + 2 < u64::MAX,
    ensures
        list_ok(base, r.0@),
        tree_ok(list_pages(base, r.0@), r.2@),
        r.2@.root == r.1,
        forall|k: Key, v: Seq<u8>| #[trigger]
            tree_holds(list_pages(base, r.0@), r.2@.nodes, k, v) == records_hold(
                views(recs@),
                k,
                v,
            ),
        forall|i: int|
            0 <= i < r.2@.leaves.len() ==> #[trigger] leaf_packed(
                list_pages(base, r.0@),
                r.2@.leaves,
                i,
                leaf_target as int,
            ),
        forall|x: int|
            0 <= x < r.0@.len() ==> page_keeps_to(
                (#[trigger] r.0@[x])@,
                leaf_target as int,
                branch_target as int,
            ),
{
    let ghost all = views(recs@);
    let cuts = cut_points(recs, leaf_target);
    let m: usize = cuts.len() - 1;
    let mut pages: Vec<BTreePage> = Vec::new();
    let mut ids: Vec<PageId> = Vec::new();
    let mut keys: Vec<Vec<u8>> = Vec::new();
    let mut i: usize = 0;
    while i < m
        invariant
            i <= m,
            m == cuts@.len() - 1,
            m <= recs@.len(),
            all == views(recs@),
            all.len() == recs@.len(),
            leaf_records_ok(all),
            cuts_ok(all, cuts@, recs@.len() as int),
            base > 0,
            base + 3 * recs@.len() + 2 < u64::MAX,
            pages@.len() == i,
            ids@.len() == i,
            keys@.len() == i,
            list_ok(base, pages@),
            forall|x: int| 0 <= x < i ==> #[trigger] ids@[x] == base + x,
            forall|x: int|
                0 <= x < i ==> (#[trigger] keys@[x])@ == kv_key(all[cuts@[x] as int]),
            forall|x: int|
                0 <= x < i ==> {
                    &&& (#[trigger] pages@[x])@.is_leaf()
                    &&& pages@[x]@.records == all.subrange(cuts@[x] as int, cuts@[x + 1] as int)
                    &&& pages@[x]@.next == (if x + 1 < m {
                        (base + x + 1) as u64
                    } else {
                        0
                    })
                },
        decreases m - i,
    {
        let id: PageId = base + i as u64;
        let prev: PageId = if i > 0 {
            id - 1
        } else {
            0
        };
        let next: PageId = if i + 1 < m {
            id + 1
        } else {
            0
        };
        proof {
            assert(cuts@[i as int] < cuts@[i + 1]);
            if i + 1 < cuts@.len() - 1 {
                assert(cuts@[i + 1] < cuts@[cuts@.len() - 1]);
            }
            assert(records_fit(all.subrange(cuts@[i as int] as int, cuts@[i + 1] as int)));
        }
        let built = build_leaf(id, recs, cuts[i], cuts[i + 1], prev, next);
        match built {
            Some(page) => {
                pages.push(page);
            },
            None => {
                assert(false);
                pages.push(BTreePage::new_leaf(id));
            },
        }
        ids.push(id);
        proof {
            assert(all[cuts@[i as int] as int] == recs@[cuts@[i as int] as int]@);
            assert(valid_kv(all[cuts@[i as int] as int]));
        }
        let key: Vec<u8> = slice_to_vec(
            crate::index::entry::leaf_record_key(recs[cuts[i]].as_slice()),
        );
        keys.push(key);
        i += 1;
    }
    let ghost mut shape = leaf_row_shape(base, all, cuts@);
    let ghost mut los = cut_bounds(all, cuts@);
    let ghost mut h: nat = 0;
    proof {
        lemma_leaf_row(base, all, cuts@, pages@);
        assert(ids@ =~= cut_ids(base, cuts@));
        assert forall|x: int| 0 < x < los.len() implies #[trigger] views(keys@)[x] == los[x] by {
            assert(keys@[x]@ == kv_key(all[cuts@[x] as int]));
        }
    }
    proof {
        let st = list_pages(base, pages@);
        let leaves = shape.leaves;
        assert forall|i: int| 0 <= i < leaves.len() implies #[trigger] leaf_packed(
            st,
            leaves,
            i,
            leaf_target as int,
        ) by {
            assert(chunk_packed(all, cuts@, i, leaf_target as int));
            assert(leaves[i] == base + i);
            assert(st[leaves[i]] == pages@[i]@);
            assert(cuts@[i] < cuts@[i + 1]);
            if i + 1 < leaves.len() {
                assert(leaves[i + 1] == base + i + 1);
                assert(st[leaves[i + 1]] == pages@[i + 1]@);
                assert(cuts@[i + 1] < cuts@[i + 2]);
                assert(i + 2 < cuts@.len() - 1 ==> cuts@[i + 2] < cuts@[cuts@.len() - 1]);
            }
        }
        assert forall|x: int| 0 <= x < pages@.len() implies page_keeps_to(
            (#[trigger] pages@[x])@,
            leaf_target as int,
            branch_target as int,
        ) by {
            assert(chunk_packed(all, cuts@, x, leaf_target as int));
        }
    }
    let ghost row = pages@;
    let mut level: u8 = 1;
    while ids.len() > 1
        invariant
            all == views(recs@),
            branch_target <= PAGE_CAPACITY,
            pages@.len() >= row.len(),
            pages@.take(row.len() as int) == row,
            list_ok(base, row),
            shape.leaves == cut_ids(base, cuts@),
            row.len() == cuts@.len() - 1,
            forall|x: int|
                0 <= x < pages@.len() ==> page_keeps_to(
                    (#[trigger] pages@[x])@,
                    leaf_target as int,
                    branch_target as int,
                ),
            list_ok(base, pages@),
            base + pages@.len() + 2 * ids@.len() < u64::MAX,
            ids@.len() > 0,
            keys@.len() == ids@.len(),
            forest_ok(list_pages(base, pages@), shape),
            level_ok(shape.nodes, ids@, los, h, 0),
            forall|x: u64| #[trigger] shape.nodes.contains_key(x) ==> shape.nodes[x].height <= h,
            forall|x: int| 0 < x < los.len() ==> #[trigger] views(keys@)[x] == los[x],
            forall|k: Key, v: Seq<u8>| #[trigger]
                tree_holds(list_pages(base, pages@), shape.nodes, k, v) == records_hold(all, k, v),
        decreases ids@.len(),
    {
        let ghost st = list_pages(base, pages@);
        let ghost nodes = shape.nodes;
        let ghost lower = pages@;
        let (parent_ids, parent_keys, Ghost(sh2), Ghost(los2)) = build_level(
            base,
            &mut pages,
            &ids,
            &keys,
            level,
            branch_target,
            Ghost(shape),
            Ghost(los),
            Ghost(h),
        );
        proof {
            assert forall|k: Key, v: Seq<u8>| #[trigger]
                tree_holds(list_pages(base, pages@), sh2.nodes, k, v) == records_hold(
                    all,
                    k,
                    v,
                ) by {
                assert(tree_holds(st, nodes, k, v) == records_hold(all, k, v));
            }
            assert(pages@.take(row.len() as int) =~= lower.take(row.len() as int));
            assert forall|x: int| 0 <= x < pages@.len() implies page_keeps_to(
                (#[trigger] pages@[x])@,
                leaf_target as int,
                branch_target as int,
            ) by {
                if x < lower.len() {
                    assert(pages@[x] == pages@.take(lower.len() as int)[x]);
                }
            }
            shape = sh2;
            los = los2;
            h = h + 1;
        }
        ids = parent_ids;
        keys = parent_keys;
        level = if level == u8::MAX {
            u8::MAX
        } else {
            level + 1
        };
    }
    let root: PageId = ids[0];
    proof {
        assert(level_node_ok(shape.nodes, ids@, los, h, 0));
        let rootless = shape;
        shape = Shape { root, ..shape };
        assert forall|j: int| 0 <= j < shape.leaves.len() implies #[trigger] chain_ok(
            list_pages(base, pages@),
            shape,
            j,
        ) by {
            assert(chain_ok(list_pages(base, pages@), rootless, j));
        }
        let st = list_pages(base, pages@);
        assert forall|i: int| 0 <= i < shape.leaves.len() implies #[trigger] leaf_packed(
            st,
            shape.leaves,
            i,
            leaf_target as int,
        ) by {
            assert(leaf_packed(list_pages(base, row), shape.leaves, i, leaf_target as int));
            assert(pages@[i] == row[i]);
            if i + 1 < shape.leaves.len() {
                assert(pages@[i + 1] == row[i + 1]);
            }
        }
    }
    (pages, root, Ghost(shape))
}

// ---------------------------------------------------------------------------
// The loader
// ---------------------------------------------------------------------------

/// Configuration of the bulk loader. Fill factors are in percent.
#[derive(Debug, Clone, Copy, PartialEq, Eq, Structural)]
pub struct BulkLoaderConfig {
    /// Target fill of leaves.
    pub leaf_fill_percent: u32,
    /// Target fill of branches.
    pub internal_fill_percent: u32,
    /// Number of entries per checkpoint.
    pub checkpoint_every: usize,
}

impl Default for BulkLoaderConfig {
    fn default() -> (c: Self)
        ensures
            c == (BulkLoaderConfig {
                leaf_fill_percent: 100,
                internal_fill_percent: 75,
                checkpoint_every: 1_000_000,
            }),
    {
        BulkLoaderConfig {
            leaf_fill_percent: 100,
            internal_fill_percent: 75,
            checkpoint_every: 1_000_000,
        }
    }
}

/// The bytes that a fill of `percent` allows on a page.
pub open spec fn fill_target(percent: u32) -> int {
    if percent >= 100 {
        PAGE_CAPACITY as int
    } else {
        PAGE_CAPACITY * percent / 100
    }
}

/// A fill of so many percent allows that part of the 8096 bytes of a page, rounded down.
pub proof fn law_fill_target(percent: u32)
    ensures
        percent >= 100 ==> fill_target(percent) == 8096,
        percent < 100 ==> 100 * fill_target(percent) <= 8096 * percent < 100 * (fill_target(percent)
            + 1),
{
}

/// The bytes that a fill of `percent` allows on a page.
fn target_bytes(percent: u32) -> (r: usize)
    ensures
        r == fill_target(percent),
        r <= PAGE_CAPACITY,
{
    if percent >= 100 {
        PAGE_CAPACITY
    } else {
        PAGE_CAPACITY * percent as usize / 100
    }
}

/// Are the pages from `from` on filled as the configuration says? No page exceeds
/// the target of its kind, but for one with a single record, and the leaves are
/// packed from left to right, each as far as the target allows.
pub open spec fn is_packed(tree: &BPlusTree, from: PageId, config: BulkLoaderConfig) -> bool {
    let leaf_target = fill_target(config.leaf_fill_percent);
    let branch_target = fill_target(config.internal_fill_percent);
    &&& forall|id: PageId|
        from <= id < tree.next_id() ==> page_keeps_to(
            #[trigger] tree.store()[id],
            leaf_target,
            branch_target,
        )
    &&& forall|i: int|
        0 <= i < tree.leaf_ids().len() ==> #[trigger] leaf_packed(
            tree.store(),
            tree.leaf_ids(),
            i,
            leaf_target,
        )
}

/// Collects entries in any order and builds a tree from them.
pub struct BulkLoader {
    config: BulkLoaderConfig,
    entries: Vec<(Vec<u8>, Vec<u8>)>,
}

impl View for BulkLoader {
    type V = Pairs;

    /// The entries in the order they were pushed.
    closed spec fn view(&self) -> Pairs {
        pair_views(self.entries@)
    }
}

/// In a packed tree no leaf takes more than its fill allows, unless it holds one record, and
/// the first record of the next leaf would not have fitted in; no branch takes more than its
/// own fill allows, unless it holds one record.
pub proof fn law_packed(
    tree: &BPlusTree,
    from: PageId,
    config: BulkLoaderConfig,
    id: PageId,
    i: int,
)
    requires
        is_packed(tree, from, config),
        from <= id < tree.next_id(),
        0 <= i < tree.leaf_ids().len(),
    ensures
        ({
            let page = tree.store()[id];
            page.records.len() <= 1 || record_bytes(page.records) <= (if page.is_leaf() {
                fill_target(config.leaf_fill_percent)
            } else {
                fill_target(config.internal_fill_percent)
            })
        }),
        i + 1 < tree.leaf_ids().len() ==> record_bytes(
            tree.store()[tree.leaf_ids()[i]].records,
        ) + tree.store()[tree.leaf_ids()[i + 1]].records[0].len() + 4 > fill_target(
            config.leaf_fill_percent,
        ),
{
    assert(page_keeps_to(
        tree.store()[id],
        fill_target(config.leaf_fill_percent),
        fill_target(config.internal_fill_percent),
    ));
    assert(leaf_packed(
        tree.store(),
        tree.leaf_ids(),
        i,
        fill_target(config.leaf_fill_percent),
    ));
}

/// Is pair `i` the last of the list with its key?
pub open spec fn is_last_push(e: Pairs, i: int) -> bool {
    &&& 0 <= i < e.len()
    &&& forall|j: int| i < j < e.len() ==> (#[trigger] e[j]).0 != e[i].0
}

/// Of the pairs with one key, one is the last.
proof fn lemma_last_push(e: Pairs, k: Seq<u8>, i: int) -> (last: int)
    requires
        0 <= i < e.len(),
        e[i].0 == k,
    ensures
        is_last_push(e, last),
        e[last].0 == k,
    decreases e.len() - i,
{
    if exists|j: int| i < j < e.len() && (#[trigger] e[j]).0 == k {
        let j = choose|j: int| i < j < e.len() && (#[trigger] e[j]).0 == k;
        lemma_last_push(e, k, j)
    } else {
        i
    }
}

/// A loaded tree holds exactly the keys that were pushed, each with the value of its
/// last push.
pub proof fn law_last_push_wins(e: Pairs, k: Seq<u8>)
    ensures
        pairs_map(e).contains_key(k) == exists|i: int|
            #[trigger] is_last_push(e, i) && e[i].0 == k,
        forall|i: int| #[trigger]
            is_last_push(e, i) && e[i].0 == k ==> pairs_map(e)[k] == e[i].1,
    decreases e.len(),
{
    lemma_pairs_map_dom(e, k);
    if pairs_map(e).contains_key(k) {
        let i = choose|i: int| 0 <= i < e.len() && (#[trigger] e[i]).0 == k;
        let last = lemma_last_push(e, k, i);
        assert(is_last_push(e, last));
    }
    assert forall|i: int| #[trigger] is_last_push(e, i) && e[i].0 == k implies pairs_map(e)[k]
        == e[i].1 by {
        let n = e.len() - 1;
        if i < n {
            assert(e[n].0 != k);
            assert(e.drop_last()[i] == e[i]);
            assert(is_last_push(e.drop_last(), i));
            law_last_push_wins(e.drop_last(), k);
        }
    }
}

/// A range listing of a loaded tree is in key order, each key once, and lists the
/// last pushes of the keys in the range, all of them and nothing else.
pub proof fn law_range_lists_last_pushes(e: Pairs, from: Seq<u8>, to: Option<Seq<u8>>, r: Pairs)
    requires
        is_range(pairs_map(e), from, to, r),
    ensures
        pairs_sorted(r),
        forall|p: (Seq<u8>, Seq<u8>)| #[trigger]
            r.contains(p) == (lex_le(from, p.0) && below(p.0, to) && exists|i: int|
                #[trigger] is_last_push(e, i) && e[i] == p),
{
    let m = pairs_map(e);
    assert forall|p: (Seq<u8>, Seq<u8>)| #[trigger]
        r.contains(p) == (lex_le(from, p.0) && below(p.0, to) && exists|i: int|
            #[trigger] is_last_push(e, i) && e[i] == p) by {
        law_last_push_wins(e, p.0);
        if r.contains(p) {
            let a = r.index_of(p);
            assert(m.contains_key(r[a].0));
            let i = choose|i: int| #[trigger] is_last_push(e, i) && e[i].0 == p.0;
            assert(is_last_push(e, i) && e[i] == p);
        }
    }
}

/// Can every pair be stored in a tree?
pub open spec fn pairs_fit(e: Pairs) -> bool {
    forall|i: int| 0 <= i < e.len() ==> entry_fits((#[trigger] e[i]).0, e[i].1)
}

/// Can every entry be stored?
pub open spec fn map_fits(m: Map<Seq<u8>, Seq<u8>>) -> bool {
    forall|k: Seq<u8>| #[trigger] m.contains_key(k) ==> entry_fits(k, m[k])
}

/// The entries whose keys come before `k`.
pub open spec fn entries_below(m: Map<Seq<u8>, Seq<u8>>, k: Seq<u8>) -> Map<Seq<u8>, Seq<u8>> {
    m.restrict(Set::new(|x: Seq<u8>| lex_lt(x, k)))
}

/// Did adding the entries `m` to `before` stop at `k`, all smaller keys stored?
pub open spec fn stopped_at(
    m: Map<Seq<u8>, Seq<u8>>,
    before: Map<Seq<u8>, Seq<u8>>,
    after: Map<Seq<u8>, Seq<u8>>,
    exhausted: bool,
    k: Seq<u8>,
) -> bool {
    &&& m.contains_key(k)
    &&& exhausted || !entry_fits(k, m[k])
    &&& map_fits(entries_below(m, k))
    &&& after == before.union_prefer_right(entries_below(m, k))
}

/// A batch that stopped at a key has stored the entries with smaller keys, and nothing else;
/// that key could not be stored, or page ids ran out.
pub proof fn law_stopped_at(
    m: Map<Seq<u8>, Seq<u8>>,
    before: Map<Seq<u8>, Seq<u8>>,
    after: Map<Seq<u8>, Seq<u8>>,
    exhausted: bool,
    k: Seq<u8>,
    x: Seq<u8>,
)
    requires
        stopped_at(m, before, after, exhausted, k),
    ensures
        m.contains_key(k),
        exhausted || !entry_fits(k, m[k]),
        m.contains_key(x) && lex_lt(x, k) ==> after.contains_key(x) && after[x] == m[x]
            && entry_fits(x, m[x]),
        !(m.contains_key(x) && lex_lt(x, k)) ==> after.contains_key(x) == before.contains_key(x) && (
        before.contains_key(x) ==> after[x] == before[x]),
{
    assert(entries_below(m, k).contains_key(x) == (m.contains_key(x) && lex_lt(x, k)));
}

impl BulkLoader {
    pub closed spec fn spec_config(&self) -> BulkLoaderConfig {
        self.config
    }

    /// A loader without entries.
    pub fn new(config: BulkLoaderConfig) -> (l: Self)
        ensures
            l@ == Seq::<(Seq<u8>, Seq<u8>)>::empty(),
            l.spec_config() == config,
    {
        let l = BulkLoader { config, entries: Vec::new() };
        assert(l@ =~= Seq::empty());
        l
    }

    /// Adds an entry. Entries need not come in order.
    pub fn push(&mut self, key: &CompositeKey, value: &[u8])
        ensures
            final(self)@ == old(self)@.push((key@, value@)),
            final(self).spec_config() == old(self).spec_config(),
    {
        let ghost before = self@;
        self.entries.push((slice_to_vec(key.as_slice()), slice_to_vec(value)));
        assert(self@ =~= before.push((key@, value@)));
    }

    /// The entries in key order, with the last value of each key.
    fn sorted_entries(&self) -> (r: Vec<(Vec<u8>, Vec<u8>)>)
        ensures
            pairs_sorted(pair_views(r@)),
            pairs_map(pair_views(r@)) == pairs_map(self@),
            map_fits(pairs_map(self@)) ==> pairs_fit(pair_views(r@)),
    {
        let n: usize = self.entries.len();
        let r = sort_pairs(&self.entries, 0, n);
        proof {
            assert(pair_views(self.entries@).subrange(0, n as int) =~= self@);
            let rv = pair_views(r@);
            if map_fits(pairs_map(self@)) {
                assert forall|i: int| 0 <= i < rv.len() implies entry_fits(
                    (#[trigger] rv[i]).0,
                    rv[i].1,
                ) by {
                    lemma_pairs_map_value(rv, i);
                }
            }
        }
        r
    }

    /// Builds the tree bottom-up and makes it the contents of `tree`. Returns
    /// the root page id.
    pub fn load_into(self, tree: &mut BPlusTree) -> (root: PageId)
        requires
            old(tree).wf(),
            map_fits(pairs_map(self@)),
            old(tree).next_id() + 3 * self@.len() + 4 < u64::MAX,
        ensures
            final(tree).wf(),
            final(tree)@ == pairs_map(self@),
            final(tree).root() == root,
            final(tree).spec_config() == old(tree).spec_config(),
            is_packed(final(tree), old(tree).next_id(), self.spec_config()),
    {
        let ghost pairs = self@;
        let leaf_target: usize = target_bytes(self.config.leaf_fill_percent);
        let branch_target: usize = target_bytes(self.config.internal_fill_percent);
        let entries = self.sorted_entries();
        let ghost ev = pair_views(entries@);
        let base: PageId = tree.next_page_id();
        let n: usize = entries.len();
        proof {
            lemma_sorted_len(ev, pairs);
            tree.lemma_next_id();
        }
        if n == 0 {
            let leaf = BTreePage::new_leaf(base);
            let mut pages: Vec<BTreePage> = Vec::new();
            let ghost node = Node { lo: Seq::empty(), hi: None, parent: None, height: 0 };
            let ghost sh = Shape {
                nodes: Map::empty().insert(base, node),
                leaves: seq![base],
                bounds: seq![Seq::<u8>::empty()],
                root: base,
            };
            pages.push(leaf);
            proof {
                let st = list_pages(base, pages@);
                assert(st[base] == leaf@);
                assert(node_ok(st, sh.nodes, base));
                assert(sh.leaves[0] == base);
                assert(sh.leaves.contains(base));
                assert(chain_ok(st, sh, 0));
                assert(tree_ok(st, sh));
                crate::index::shape::lemma_map(st, sh);
                let m = tree_map(st, sh.nodes);
                assert forall|k: Key| !(#[trigger] m.contains_key(k)) by {
                    if m.contains_key(k) {
                        assert(tree_holds(st, sh.nodes, k, m[k]));
                    }
                }
                assert(m =~= pairs_map(ev));
            }
            tree.install_pages(pages, base, Ghost(sh));
            return base;
        }
        let mut recs: Vec<Vec<u8>> = Vec::new();
        let mut i: usize = 0;
        while i < n
            invariant
                i <= n,
                n == entries@.len(),
                ev == pair_views(entries@),
                recs@.len() == i,
                forall|x: int| 0 <= x < i ==> (#[trigger] recs@[x])@ == kv_record(ev[x].0, ev[x].1),
            decreases n - i,
        {
            let e = &entries[i];
            recs.push(encode_kv(e.0.as_slice(), e.1.as_slice()));
            i += 1;
        }
        proof {
            lemma_pair_records(ev, views(recs@));
        }
        let (pages, root, Ghost(sh)) = build_pages(base, &recs, leaf_target, branch_target);
        proof {
            let st = list_pages(base, pages@);
            crate::index::shape::lemma_map(st, sh);
            let m = tree_map(st, sh.nodes);
            assert forall|k: Key| m.contains_key(k) == pairs_map(ev).contains_key(k) by {
                if m.contains_key(k) {
                    assert(tree_holds(st, sh.nodes, k, m[k]));
                    assert(records_hold(views(recs@), k, m[k]));
                }
                if pairs_map(ev).contains_key(k) {
                    assert(records_hold(views(recs@), k, pairs_map(ev)[k]));
                    assert(tree_holds(st, sh.nodes, k, pairs_map(ev)[k]));
                }
            }
            assert forall|k: Key| m.contains_key(k) implies m[k] == pairs_map(ev)[k] by {
                assert(tree_holds(st, sh.nodes, k, m[k]));
                assert(records_hold(views(recs@), k, m[k]));
            }
            assert(m =~= pairs_map(ev));
        }
        let ghost list = pages@;
        tree.install_pages(pages, root, Ghost(sh));
        proof {
            let st = list_pages(base, list);
            assert forall|id: PageId| base <= id < tree.next_id() implies page_keeps_to(
                #[trigger] tree.store()[id],
                leaf_target as int,
                branch_target as int,
            ) by {
                assert(page_keeps_to(
                    list[id - base]@,
                    leaf_target as int,
                    branch_target as int,
                ));
            }
            assert forall|i: int| 0 <= i < sh.leaves.len() implies #[trigger] leaf_packed(
                tree.store(),
                sh.leaves,
                i,
                leaf_target as int,
            ) by {
                assert(leaf_packed(st, sh.leaves, i, leaf_target as int));
                assert(chain_ok(st, sh, i));
                if i + 1 < sh.leaves.len() {
                    assert(chain_ok(st, sh, i + 1));
                }
            }
        }
        root
    }

    /// Builds a tree of its own from the entries.
    pub fn finish(self) -> (t: BPlusTree)
        requires
            map_fits(pairs_map(self@)),
            3 * self@.len() + 6 < u64::MAX,
        ensures
            t.wf(),
            t@ == pairs_map(self@),
            is_packed(&t, 2, self.spec_config()),
    {
        let mut tree = BPlusTree::new(BPlusTreeConfig::default());
        self.load_into(&mut tree);
        tree
    }

    /// Stores the entries in a tree that may already have others, as one batch.
    pub fn insert_all(self, tree: &mut BPlusTree) -> (r: Result<(), BTreeError>)
        requires
            old(tree).wf(),
        ensures
            final(tree).wf(),
            match r {
                Ok(_) => {
                    &&& map_fits(pairs_map(self@))
                    &&& final(tree)@ == old(tree)@.union_prefer_right(pairs_map(self@))
                },
                Err(e) => {
                    &&& e == BTreeError::SplitFailed
                    &&& exists|k: Seq<u8>|
                        stopped_at(
                            pairs_map(self@),
                            old(tree)@,
                            final(tree)@,
                            final(tree).ids_exhausted(),
                            k,
                        )
                },
            },
    {
        let entries = self.sorted_entries();
        let ghost ev = pair_views(entries@);
        let mut batch: Vec<(CompositeKey, Vec<u8>)> = Vec::new();
        let n: usize = entries.len();
        let mut i: usize = 0;
        while i < n
            invariant
                i <= n,
                n == entries@.len(),
                ev == pair_views(entries@),
                batch@.len() == i,
                forall|x: int|
                    0 <= x < i ==> (#[trigger] batch@[x]).0@ == ev[x].0 && batch@[x].1@ == ev[x].1,
            decreases n - i,
        {
            let e = &entries[i];
            batch.push((
                CompositeKey::from_slice(e.0.as_slice()),
                slice_to_vec(e.1.as_slice()),
            ));
            i += 1;
        }
        let r = tree.insert_batch(&batch);
        proof {
            lemma_batch_union(old(tree)@, batch@, ev, n as int);
            assert(ev.take(n as int) =~= ev);
            if r is Ok {
                assert forall|k: Seq<u8>| #[trigger]
                    pairs_map(ev).contains_key(k) implies entry_fits(k, pairs_map(ev)[k]) by {
                    lemma_pairs_map_origin(ev, k);
                    let x = choose|x: int|
                        0 <= x < ev.len() && (#[trigger] ev[x]).0 == k && ev[x].1
                            == pairs_map(ev)[k];
                    assert(entry_fits(batch@[x].0@, batch@[x].1@));
                }
            } else {
                let m = choose|m: int|
                    {
                        &&& 0 <= m < batch@.len()
                        &&& #[trigger] with_entries(old(tree)@, batch@, m) == tree@
                        &&& (tree.ids_exhausted() || !entry_fits(batch@[m].0@, batch@[m].1@))
                        &&& forall|i: int|
                            0 <= i < m ==> entry_fits((#[trigger] batch@[i]).0@, batch@[i].1@)
                    };
                lemma_batch_union(old(tree)@, batch@, ev, m);
                lemma_sorted_below(ev, m);
                lemma_pairs_map_value(ev, m);
                let k = ev[m].0;
                assert forall|x: Seq<u8>| #[trigger]
                    entries_below(pairs_map(ev), k).contains_key(x) implies entry_fits(
                    x,
                    entries_below(pairs_map(ev), k)[x],
                ) by {
                    assert(pairs_map(ev.take(m)).contains_key(x));
                    lemma_pairs_map_origin(ev.take(m), x);
                    let y = choose|y: int|
                        0 <= y < m && (#[trigger] ev.take(m)[y]).0 == x && ev.take(m)[y].1
                            == pairs_map(ev.take(m))[x];
                    assert(entry_fits(batch@[y].0@, batch@[y].1@));
                }
                assert(stopped_at(pairs_map(self@), old(tree)@, tree@, tree.ids_exhausted(), k));
            }
        }
        r
    }
}

/// Storing a list of pairs in order overlays the map with the map of the list.
proof fn lemma_batch_union(
    m: Map<Seq<u8>, Seq<u8>>,
    batch: Seq<(CompositeKey, Vec<u8>)>,
    ev: Pairs,
    n: int,
)
    requires
        0 <= n <= batch.len(),
        batch.len() == ev.len(),
        forall|x: int|
            0 <= x < batch.len() ==> (#[trigger] batch[x]).0@ == ev[x].0 && batch[x].1@ == ev[x].1,
    ensures
        with_entries(m, batch, n) == m.union_prefer_right(
            pairs_map(ev.take(n)),
        ),
    decreases n,
{
    if n == 0 {
        assert(ev.take(0) =~= Seq::empty());
        assert(m.union_prefer_right(pairs_map(ev.take(0))) =~= m);
    } else {
        lemma_batch_union(m, batch, ev, n - 1);
        assert(ev.take(n).drop_last() =~= ev.take(n - 1));
        assert(batch[n - 1].0@ == ev[n - 1].0);
        assert(m.union_prefer_right(pairs_map(ev.take(n))) =~= m.union_prefer_right(
            pairs_map(ev.take(n - 1)),
        ).insert(ev[n - 1].0, ev[n - 1].1));
    }
}

/// A pair of the map is a pair of the list.
proof fn lemma_pairs_map_origin(e: Pairs, k: Seq<u8>)
    requires
        pairs_map(e).contains_key(k),
    ensures
        exists|i: int|
            0 <= i < e.len() && (#[trigger] e[i]).0 == k && e[i].1 == pairs_map(e)[k],
    decreases e.len(),
{
    if e.len() > 0 {
        if e.last().0 == k {
            assert(e[e.len() - 1].0 == k);
        } else {
            lemma_pairs_map_origin(e.drop_last(), k);
            let i = choose|i: int|
                0 <= i < e.drop_last().len() && (#[trigger] e.drop_last()[i]).0 == k
                    && e.drop_last()[i].1 == pairs_map(e.drop_last())[k];
            assert(e[i].0 == k);
        }
    }
}

/// The entries before place `m` of a sorted sequence are those with smaller keys.
proof fn lemma_sorted_below(e: Pairs, m: int)
    requires
        pairs_sorted(e),
        0 <= m < e.len(),
    ensures
        pairs_map(e.take(m)) == entries_below(pairs_map(e), e[m].0),
{
    broadcast use crate::bytes::group_lex_order;

    let front = e.take(m);
    let below = entries_below(pairs_map(e), e[m].0);
    assert(pairs_sorted(front)) by {
        assert forall|a: int, b: int| 0 <= a < b < front.len() implies lex_lt(
            (#[trigger] front[a]).0,
            (#[trigger] front[b]).0,
        ) by {
            assert(lex_lt(e[a].0, e[b].0));
        }
    }
    assert forall|k: Seq<u8>|
        pairs_map(front).contains_key(k) == (#[trigger] below.contains_key(k)) && (
        below.contains_key(k) ==> pairs_map(front)[k] == below[k]) by {
        if pairs_map(front).contains_key(k) {
            lemma_pairs_map_origin(front, k);
            let a = choose|a: int|
                0 <= a < front.len() && (#[trigger] front[a]).0 == k && front[a].1
                    == pairs_map(front)[k];
            assert(lex_lt(e[a].0, e[m].0));
            lemma_pairs_map_value(e, a);
        }
        if below.contains_key(k) {
            lemma_pairs_map_origin(e, k);
            let a = choose|a: int|
                0 <= a < e.len() && (#[trigger] e[a]).0 == k && e[a].1 == pairs_map(e)[k];
            if a >= m {
                if a > m {
                    assert(lex_lt(e[m].0, e[a].0));
                }
            } else {
                assert(front[a] == e[a]);
                lemma_pairs_map_value(front, a);
            }
        }
    }
    assert(pairs_map(front) =~= below);
}

/// A sorted list is no longer than a list with the same map.
proof fn lemma_sorted_len(e: Pairs, f: Pairs)
    requires
        pairs_sorted(e),
        pairs_map(e) == pairs_map(f),
    ensures
        e.len() <= f.len(),
{
    let dom = pairs_map(e).dom();
    lemma_dom_len(f);
    lemma_sorted_dom_len(e);
}

proof fn lemma_dom_len(e: Pairs)
    ensures
        pairs_map(e).dom().finite(),
        pairs_map(e).dom().len() <= e.len(),
    decreases e.len(),
{
    if e.len() > 0 {
        lemma_dom_len(e.drop_last());
        assert(pairs_map(e).dom() =~= pairs_map(e.drop_last()).dom().insert(e.last().0));
    }
}

proof fn lemma_sorted_dom_len(e: Pairs)
    requires
        pairs_sorted(e),
    ensures
        pairs_map(e).dom().finite(),
        pairs_map(e).dom().len() == e.len(),
    decreases e.len(),
{
    broadcast use crate::bytes::group_lex_order;

    if e.len() > 0 {
        let d = e.drop_last();
        assert forall|a: int, b: int| 0 <= a < b < d.len() implies lex_lt(
            (#[trigger] d[a]).0,
            (#[trigger] d[b]).0,
        ) by {
            assert(lex_lt(e[a].0, e[b].0));
        }
        lemma_sorted_dom_len(d);
        assert(pairs_map(e).dom() =~= pairs_map(d).dom().insert(e.last().0));
        lemma_pairs_map_dom(d, e.last().0);
        if pairs_map(d).contains_key(e.last().0) {
            let i = choose|i: int| 0 <= i < d.len() && (#[trigger] d[i]).0 == e.last().0;
            assert(lex_lt(e[i].0, e[e.len() - 1].0));
        }
    }
}

/// The records of a sorted list are leaf records and hold what its map holds.
proof fn lemma_pair_records(e: Pairs, recs: Seq<Seq<u8>>)
    requires
        pairs_sorted(e),
        pairs_fit(e),
        recs.len() == e.len(),
        forall|x: int| 0 <= x < e.len() ==> #[trigger] recs[x] == kv_record(e[x].0, e[x].1),
    ensures
        leaf_records_ok(recs),
        forall|i: int| 0 <= i < recs.len() ==> (#[trigger] recs[i]).len() + SLOT_SIZE
            <= PAGE_CAPACITY,
        forall|k: Key, v: Seq<u8>| #[trigger]
            records_hold(recs, k, v) == (pairs_map(e).contains_key(k) && pairs_map(e)[k] == v),
{
    assert forall|i: int| 0 <= i < recs.len() implies {
        &&& valid_kv(#[trigger] recs[i])
        &&& kv_key(recs[i]) == e[i].0
        &&& kv_value(recs[i]) == e[i].1
        &&& sep_fits(kv_key(recs[i]))
        &&& recs[i].len() + SLOT_SIZE <= PAGE_CAPACITY
    } by {
        assert(entry_fits(e[i].0, e[i].1));
        law_kv_roundtrip(e[i].0, e[i].1);
    }
    assert forall|i: int, j: int| 0 <= i < j < recs.len() implies lex_lt(
        kv_key(#[trigger] recs[i]),
        kv_key(#[trigger] recs[j]),
    ) by {
        assert(lex_lt(e[i].0, e[j].0));
    }
    assert forall|k: Key, v: Seq<u8>| #[trigger]
        records_hold(recs, k, v) == (pairs_map(e).contains_key(k) && pairs_map(e)[k] == v) by {
        if records_hold(recs, k, v) {
            let i = choose|i: int|
                0 <= i < recs.len() && kv_key(#[trigger] recs[i]) == k && kv_value(recs[i]) == v;
            lemma_pairs_map_value(e, i);
        }
        if pairs_map(e).contains_key(k) && pairs_map(e)[k] == v {
            lemma_pairs_map_dom(e, k);
            let i = choose|i: int| 0 <= i < e.len() && (#[trigger] e[i]).0 == k;
            lemma_pairs_map_value(e, i);
            assert(kv_key(recs[i]) == k && kv_value(recs[i]) == v);
        }
    }
}

} // verus!
