//! Sorted lists of key/value pairs, one pair per key.

use vstd::prelude::*;
use vstd::slice::slice_to_vec;

use crate::bytes::bytes_eq;
use crate::bytes::bytes_lt;
use crate::bytes::lex_lt;
use crate::index::btree::pair_views;

verus! {

pub type Pairs = Seq<(Seq<u8>, Seq<u8>)>;

/// The map that results from storing the pairs in order: the last value of a key
/// wins.
pub open spec fn pairs_map(e: Pairs) -> Map<Seq<u8>, Seq<u8>>
    decreases e.len(),
{
    if e.len() == 0 {
        Map::empty()
    } else {
        pairs_map(e.drop_last()).insert(e.last().0, e.last().1)
    }
}

/// Strictly increasing keys.
pub open spec fn pairs_sorted(e: Pairs) -> bool {
    forall|i: int, j: int|
        0 <= i < j < e.len() ==> lex_lt((#[trigger] e[i]).0, (#[trigger] e[j]).0)
}

/// Every key of the map comes from the list.
pub proof fn lemma_pairs_map_dom(e: Pairs, k: Seq<u8>)
    ensures
        pairs_map(e).contains_key(k) == exists|i: int| 0 <= i < e.len() && (#[trigger] e[i]).0 == k,
    decreases e.len(),
{
    if e.len() > 0 {
        lemma_pairs_map_dom(e.drop_last(), k);
        if pairs_map(e.drop_last()).contains_key(k) {
            let i = choose|i: int|
                0 <= i < e.drop_last().len() && (#[trigger] e.drop_last()[i]).0 == k;
            assert(e[i].0 == k);
        }
        if e.last().0 == k {
            assert(e[e.len() - 1].0 == k);
        }
        if exists|i: int| 0 <= i < e.len() && (#[trigger] e[i]).0 == k {
            let i = choose|i: int| 0 <= i < e.len() && (#[trigger] e[i]).0 == k;
            if i < e.len() - 1 {
                assert(e.drop_last()[i].0 == k);
            }
        }
    }
}

/// In a sorted list every pair counts.
pub proof fn lemma_pairs_map_value(e: Pairs, i: int)
    requires
        pairs_sorted(e),
        0 <= i < e.len(),
    ensures
        pairs_map(e).contains_key(e[i].0),
        pairs_map(e)[e[i].0] == e[i].1,
    decreases e.len(),
{
    broadcast use crate::bytes::group_lex_order;

    let n = e.len() - 1;
    if i < n {
        assert forall|a: int, b: int| 0 <= a < b < e.drop_last().len() implies lex_lt(
            (#[trigger] e.drop_last()[a]).0,
            (#[trigger] e.drop_last()[b]).0,
        ) by {
            assert(lex_lt(e[a].0, e[b].0));
        }
        assert(e.drop_last()[i] == e[i]);
        lemma_pairs_map_value(e.drop_last(), i);
        assert(lex_lt(e[i].0, e[n].0));
    }
}

/// Storing one list after another: the second wins.
pub proof fn lemma_pairs_map_add(a: Pairs, b: Pairs)
    ensures
        pairs_map(a + b) == pairs_map(a).union_prefer_right(pairs_map(b)),
    decreases b.len(),
{
    if b.len() == 0 {
        assert(a + b =~= a);
        assert(pairs_map(a).union_prefer_right(pairs_map(b)) =~= pairs_map(a));
    } else {
        assert((a + b).drop_last() =~= a + b.drop_last());
        lemma_pairs_map_add(a, b.drop_last());
        assert(pairs_map(a + b) =~= pairs_map(a).union_prefer_right(pairs_map(b)));
    }
}

/// A key below all keys of a list from `i` on, and above those before, is not in
/// the first `i` pairs.
proof fn lemma_not_in_front(e: Pairs, i: int, k: Seq<u8>)
    requires
        0 <= i <= e.len(),
        forall|x: int| 0 <= x < i ==> lex_lt((#[trigger] e[x]).0, k),
    ensures
        !pairs_map(e.take(i)).contains_key(k),
{
    broadcast use crate::bytes::group_lex_order;

    lemma_pairs_map_dom(e.take(i), k);
    if pairs_map(e.take(i)).contains_key(k) {
        let x = choose|x: int| 0 <= x < e.take(i).len() && (#[trigger] e.take(i)[x]).0 == k;
        assert(e.take(i)[x] == e[x]);
        assert(lex_lt(e[x].0, k));
    }
}

fn copy_pair(e: &(Vec<u8>, Vec<u8>)) -> (r: (Vec<u8>, Vec<u8>))
    ensures
        r.0@ == e.0@,
        r.1@ == e.1@,
{
    (slice_to_vec(e.0.as_slice()), slice_to_vec(e.1.as_slice()))
}

/// The state of a merge: `out` is the merge of the first `i` and `j` pairs.
spec fn merging(a: Pairs, b: Pairs, i: int, j: int, out: Pairs) -> bool {
    &&& 0 <= i <= a.len()
    &&& 0 <= j <= b.len()
    &&& pairs_sorted(out)
    &&& pairs_map(out) == pairs_map(a.take(i)).union_prefer_right(pairs_map(b.take(j)))
    &&& forall|x: int, y: int|
        0 <= x < out.len() && i <= y < a.len() ==> lex_lt(
            (#[trigger] out[x]).0,
            (#[trigger] a[y]).0,
        )
    &&& forall|x: int, y: int|
        0 <= x < out.len() && j <= y < b.len() ==> lex_lt(
            (#[trigger] out[x]).0,
            (#[trigger] b[y]).0,
        )
}

/// Taking the next pair of the first list, whose key comes first.
proof fn lemma_take_left(a: Pairs, b: Pairs, i: int, j: int, out: Pairs)
    requires
        pairs_sorted(a),
        pairs_sorted(b),
        merging(a, b, i, j, out),
        i < a.len(),
        j < b.len() ==> lex_lt(a[i].0, b[j].0),
        forall|y: int| 0 <= y < j ==> lex_lt((#[trigger] b[y]).0, a[i].0),
    ensures
        merging(a, b, i + 1, j, out.push(a[i])),
{
    broadcast use crate::bytes::group_lex_order;

    let out2 = out.push(a[i]);
    assert(out2.drop_last() =~= out);
    assert(a.take(i + 1).drop_last() =~= a.take(i));
    lemma_not_in_front(b, j, a[i].0);
    assert(pairs_map(out2) =~= pairs_map(a.take(i + 1)).union_prefer_right(pairs_map(b.take(j))));
    assert forall|x: int, y: int| 0 <= x < out2.len() && i + 1 <= y < a.len() implies lex_lt(
        (#[trigger] out2[x]).0,
        (#[trigger] a[y]).0,
    ) by {
        if x < out.len() {
            assert(out2[x] == out[x]);
        } else {
            assert(lex_lt(a[i].0, a[y].0));
        }
    }
    assert forall|x: int, y: int| 0 <= x < out2.len() && j <= y < b.len() implies lex_lt(
        (#[trigger] out2[x]).0,
        (#[trigger] b[y]).0,
    ) by {
        if x < out.len() {
            assert(out2[x] == out[x]);
        } else if y > j {
            assert(lex_lt(b[j].0, b[y].0));
        }
    }
    assert forall|x: int, y: int| 0 <= x < y < out2.len() implies lex_lt(
        (#[trigger] out2[x]).0,
        (#[trigger] out2[y]).0,
    ) by {
        if y < out.len() {
            assert(out2[x] == out[x] && out2[y] == out[y]);
        } else {
            assert(out2[x] == out[x]);
            assert(lex_lt(out[x].0, a[i].0));
        }
    }
}

/// Taking the next pair of the second list, whose key comes first or replaces
/// the equal key of the first list.
proof fn lemma_take_right(a: Pairs, b: Pairs, i: int, j: int, out: Pairs, both: bool)
    requires
        pairs_sorted(a),
        pairs_sorted(b),
        merging(a, b, i, j, out),
        j < b.len(),
        both ==> i < a.len() && a[i].0 == b[j].0,
        !both && i < a.len() ==> lex_lt(b[j].0, a[i].0),
    ensures
        merging(
            a,
            b,
            if both {
                i + 1
            } else {
                i
            },
            j + 1,
            out.push(b[j]),
        ),
{
    broadcast use crate::bytes::group_lex_order;

    let i2 = if both { i + 1 } else { i };
    let out2 = out.push(b[j]);
    assert(out2.drop_last() =~= out);
    assert(b.take(j + 1).drop_last() =~= b.take(j));
    if both {
        assert(a.take(i + 1).drop_last() =~= a.take(i));
    }
    assert(pairs_map(out2) =~= pairs_map(a.take(i2)).union_prefer_right(
        pairs_map(b.take(j + 1)),
    ));
    assert forall|x: int, y: int| 0 <= x < out2.len() && i2 <= y < a.len() implies lex_lt(
        (#[trigger] out2[x]).0,
        (#[trigger] a[y]).0,
    ) by {
        if x < out.len() {
            assert(out2[x] == out[x]);
        } else if y > i {
            assert(lex_lt(a[i].0, a[y].0));
        }
    }
    assert forall|x: int, y: int| 0 <= x < out2.len() && j + 1 <= y < b.len() implies lex_lt(
        (#[trigger] out2[x]).0,
        (#[trigger] b[y]).0,
    ) by {
        if x < out.len() {
            assert(out2[x] == out[x]);
        } else {
            assert(lex_lt(b[j].0, b[y].0));
        }
    }
    assert forall|x: int, y: int| 0 <= x < y < out2.len() implies lex_lt(
        (#[trigger] out2[x]).0,
        (#[trigger] out2[y]).0,
    ) by {
        if y < out.len() {
            assert(out2[x] == out[x] && out2[y] == out[y]);
        } else {
            assert(out2[x] == out[x]);
            assert(lex_lt(out[x].0, b[j].0));
        }
    }
}

/// Merges two sorted lists; where both have a key, the second wins.
fn merge_pairs(a: &Vec<(Vec<u8>, Vec<u8>)>, b: &Vec<(Vec<u8>, Vec<u8>)>) -> (r: Vec<
    (Vec<u8>, Vec<u8>),
>)
    requires
        pairs_sorted(pair_views(a@)),
        pairs_sorted(pair_views(b@)),
    ensures
        pairs_sorted(pair_views(r@)),
        pairs_map(pair_views(r@)) == pairs_map(pair_views(a@)).union_prefer_right(
            pairs_map(pair_views(b@)),
        ),
{
    let ghost av = pair_views(a@);
    let ghost bv = pair_views(b@);
    let mut out: Vec<(Vec<u8>, Vec<u8>)> = Vec::new();
    let n: usize = a.len();
    let m: usize = b.len();
    let mut i: usize = 0;
    let mut j: usize = 0;
    proof {
        assert(pair_views(out@) =~= Seq::empty());
        assert(av.take(0) =~= Seq::empty());
        assert(bv.take(0) =~= Seq::empty());
        assert(pairs_map(Seq::empty()) =~= pairs_map(av.take(0)).union_prefer_right(
            pairs_map(bv.take(0)),
        ));
    }
    while i < n || j < m
        invariant
            n == a@.len(),
            m == b@.len(),
            av == pair_views(a@),
            bv == pair_views(b@),
            pairs_sorted(av),
            pairs_sorted(bv),
            merging(av, bv, i as int, j as int, pair_views(out@)),
            i < n ==> forall|y: int| 0 <= y < j ==> lex_lt((#[trigger] bv[y]).0, av[i as int].0),
        decreases (n - i) + (m - j),
    {
        let ghost before = pair_views(out@);
        let left: bool = if i == n {
            false
        } else if j == m {
            true
        } else {
            bytes_lt(a[i].0.as_slice(), b[j].0.as_slice())
        };
        if left {
            out.push(copy_pair(&a[i]));
            proof {
                assert(pair_views(out@) =~= before.push(av[i as int]));
                lemma_take_left(av, bv, i as int, j as int, before);
                if i + 1 < n {
                    broadcast use crate::bytes::group_lex_order;

                    assert(lex_lt(av[i as int].0, av[i + 1].0));
                }
            }
            i += 1;
        } else {
            let both: bool = i < n && bytes_eq(a[i].0.as_slice(), b[j].0.as_slice());
            out.push(copy_pair(&b[j]));
            proof {
                broadcast use crate::bytes::group_lex_order;

                assert(pair_views(out@) =~= before.push(bv[j as int]));
                lemma_take_right(av, bv, i as int, j as int, before, both);
                if both && i + 1 < n {
                    assert(lex_lt(av[i as int].0, av[i + 1].0));
                }
            }
            if both {
                i += 1;
            }
            j += 1;
        }
    }
    proof {
        assert(av.take(n as int) =~= av);
        assert(bv.take(m as int) =~= bv);
    }
    out
}

/// Sorts pairs `from..to` by key and keeps the last value of each key.
pub fn sort_pairs(e: &Vec<(Vec<u8>, Vec<u8>)>, from: usize, to: usize) -> (r: Vec<
    (Vec<u8>, Vec<u8>),
>)
    requires
        from <= to <= e@.len(),
    ensures
        pairs_sorted(pair_views(r@)),
        pairs_map(pair_views(r@)) == pairs_map(
            pair_views(e@).subrange(from as int, to as int),
        ),
    decreases to - from,
{
    let ghost ev = pair_views(e@);
    if to - from == 0 {
        let r: Vec<(Vec<u8>, Vec<u8>)> = Vec::new();
        assert(pair_views(r@) =~= ev.subrange(from as int, to as int));
        r
    } else if to - from == 1 {
        let mut r: Vec<(Vec<u8>, Vec<u8>)> = Vec::new();
        r.push(copy_pair(&e[from]));
        assert(pair_views(r@) =~= ev.subrange(from as int, to as int));
        r
    } else {
        let mid: usize = from + (to - from) / 2;
        let a = sort_pairs(e, from, mid);
        let b = sort_pairs(e, mid, to);
        proof {
            assert(ev.subrange(from as int, to as int) =~= ev.subrange(from as int, mid as int)
                + ev.subrange(mid as int, to as int));
            lemma_pairs_map_add(
                ev.subrange(from as int, mid as int),
                ev.subrange(mid as int, to as int),
            );
        }
        merge_pairs(&a, &b)
    }
}

} // verus!
