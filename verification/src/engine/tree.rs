//! What a tree of nodes is: its levels, its entries and when it is in order.
//!
//! A node store maps page numbers to nodes. A tree of height `h` is given by
//! its root page; the functions here take a list of pages of one height, so
//! that the children of a node are a list like any other.
use vstd::prelude::*;

use crate::engine::node::{node_fits, CellView, NodeView};
use crate::engine::order::{key_lt, key_lt_asymmetric, key_lt_irreflexive, key_lt_total, key_lt_transitive};
use crate::engine::value::{other_zero, DataView};

verus! {

/// Nodes by page number.
pub type Store = Map<u32, NodeView>;

/// The children of all nodes of a list, in order.
pub open spec fn flat_kids(s: Store, l: Seq<u32>) -> Seq<u32>
    decreases l.len(),
{
    if l.len() == 0 {
        seq![]
    } else {
        flat_kids(s, l.drop_last()) + s[l.last()].kids
    }
}

/// The cells of all nodes of a list, in order.
pub open spec fn flat_cells(s: Store, l: Seq<u32>) -> Seq<CellView>
    decreases l.len(),
{
    if l.len() == 0 {
        seq![]
    } else {
        flat_cells(s, l.drop_last()) + s[l.last()].cells
    }
}

/// The pages `d` levels below the pages of a list, from left to right.
#[verifier::opaque]
pub open spec fn level(s: Store, l: Seq<u32>, d: nat) -> Seq<u32>
    decreases d,
{
    if d == 0 {
        l
    } else {
        level(s, flat_kids(s, l), (d - 1) as nat)
    }
}

/// The entries of trees of height `h`, in order: the cells of their leaves.
#[verifier::opaque]
pub open spec fn entries(s: Store, l: Seq<u32>, h: nat) -> Seq<CellView> {
    flat_cells(s, level(s, l, h))
}

/// How often page `p` occurs in trees of height `h`.
#[verifier::opaque]
pub open spec fn occ(s: Store, l: Seq<u32>, h: nat, p: u32) -> nat
    decreases h, l.len(),
{
    if l.len() == 0 {
        0
    } else {
        occ(s, l.drop_last(), h, p) + (if l.last() == p {
            1nat
        } else {
            0
        }) + (if h > 0 {
            occ(s, s[l.last()].kids, (h - 1) as nat, p)
        } else {
            0
        })
    }
}

/// The largest key of a tree that has one.
pub open spec fn max_key(s: Store, p: u32, h: nat) -> DataView
    decreases h,
{
    if h == 0 {
        s[p].cells.last().0
    } else {
        max_key(s, s[p].kids.last(), (h - 1) as nat)
    }
}

/// Whether all records are empty, as they are in inner nodes.
pub open spec fn values_empty(cells: Seq<CellView>) -> bool {
    forall|i: int| 0 <= i < cells.len() ==> (#[trigger] cells[i]).1.len() == 0
}

/// How many more children than cells a node has.
pub open spec fn slack(n: NodeView) -> int {
    n.kids.len() - n.cells.len()
}

/// Whether all inner nodes of a tree have a cell for each child.
pub open spec fn full(s: Store, p: u32, h: nat) -> bool
    decreases h,
{
    h > 0 ==> slack(s[p]) == 0 && forall|i: int|
        0 <= i < s[p].kids.len() ==> full(s, #[trigger] s[p].kids[i], (h - 1) as nat)
}

/// Whether all inner nodes of all trees of a list but the last have a cell for
/// each child.
pub open spec fn even(s: Store, l: Seq<u32>, h: nat) -> bool {
    forall|i: int| 0 <= i < l.len() - 1 ==> full(s, #[trigger] l[i], h)
}

/// Whether a page is the root of a tree of height `h` in order: every node is
/// written in its page, has fewer than `2 * m` cells, and at least `m` unless it
/// is the root of the whole tree; leaves are at one depth; the keys of an inner
/// node are the largest keys of its children; and only nodes at the right edge may
/// go without a key for their last child.
pub open spec fn ok(s: Store, p: u32, h: nat, m: nat, top: bool) -> bool
    decreases h,
{
    let n = s[p];
    &&& s.dom().contains(p)
    &&& node_fits(n)
    &&& n.cells.len() < 2 * m
    &&& !top ==> n.cells.len() >= m
    &&& n.leaf <==> h == 0
    &&& h > 0 ==> {
        &&& n.kids.len() >= 2
        &&& values_empty(n.cells)
        &&& even(s, n.kids, (h - 1) as nat)
        &&& forall|i: int| 0 <= i < n.kids.len() ==> ok(s, #[trigger] n.kids[i], (h - 1) as nat, m, false)
        &&& forall|i: int|
            0 <= i < n.cells.len() ==> (#[trigger] n.cells[i]).0 == max_key(
                s,
                n.kids[i],
                (h - 1) as nat,
            )
    }
}

/// Whether every page of a list is the root of a tree in order.
pub open spec fn all_ok(s: Store, l: Seq<u32>, h: nat, m: nat) -> bool {
    forall|i: int| 0 <= i < l.len() ==> ok(s, #[trigger] l[i], h, m, false)
}

/// Whether no page occurs twice.
pub open spec fn unique(s: Store, l: Seq<u32>, h: nat) -> bool {
    forall|x: u32| #[trigger] occ(s, l, h, x) <= 1
}

/// Whether the pages of a list are leaves, linked to their neighbours in it.
pub open spec fn chain(s: Store, l: Seq<u32>) -> bool {
    forall|i: int|
        0 <= i < l.len() ==> {
            &&& s.dom().contains(#[trigger] l[i])
            &&& s[l[i]].leaf
            &&& node_fits(s[l[i]])
            &&& s[l[i]].left == (if i > 0 {
                l[i - 1]
            } else {
                0
            })
            &&& s[l[i]].right == (if i + 1 < l.len() {
                l[i + 1]
            } else {
                0
            })
        }
}

/// Whether the pages of a list are different and linked to their neighbours in
/// it.
#[verifier::opaque]
pub open spec fn linked(s: Store, l: Seq<u32>) -> bool {
    l.no_duplicates() && chain(s, l)
}

/// Whether keys rise strictly.
pub open spec fn sorted(e: Seq<CellView>) -> bool {
    forall|i: int, j: int| 0 <= i < j < e.len() ==> key_lt((#[trigger] e[i]).0, (#[trigger] e[j]).0)
}

/// Number of entries before `k`, where keys rise.
pub open spec fn lower_bound(e: Seq<CellView>, k: DataView) -> nat
    decreases e.len(),
{
    if e.len() == 0 {
        0
    } else if key_lt(e.last().0, k) {
        e.len()
    } else {
        lower_bound(e.drop_last(), k)
    }
}

/// Whether `k` is the key of an entry, where keys rise.
pub open spec fn has_key(e: Seq<CellView>, k: DataView) -> bool {
    exists|i: int| 0 <= i < e.len() && (#[trigger] e[i]).0 == k
}

/// The form in which entries hold a key. The zeros of both signs are one key, and an entry
/// has the one that it was made with.
pub open spec fn as_held(e: Seq<CellView>, k: DataView) -> DataView {
    if !has_key(e, k) && has_key(e, other_zero(k)) {
        other_zero(k)
    } else {
        k
    }
}

/// The entries with `c` put in its place.
pub open spec fn with_cell(e: Seq<CellView>, c: CellView) -> Seq<CellView> {
    e.insert(lower_bound(e, c.0) as int, c)
}

/// The entries without the one with key `k`.
pub open spec fn without_key(e: Seq<CellView>, k: DataView) -> Seq<CellView> {
    e.remove(lower_bound(e, k) as int)
}

/// Whether two nodes hold the same, apart from their neighbours.
pub open spec fn same_content(a: NodeView, b: NodeView) -> bool {
    &&& a.leaf == b.leaf
    &&& a.data == b.data
    &&& a.kids == b.kids
    &&& a.cells == b.cells
}

/// Whether page `x` holds the same in both stores, apart from its neighbours.
pub open spec fn agree(s: Store, t: Store, x: u32) -> bool {
    s.dom().contains(x) ==> t.dom().contains(x) && same_content(s[x], t[x])
}

// -- Lists of trees --------------------------------------------

pub proof fn flat_kids_concat(s: Store, a: Seq<u32>, b: Seq<u32>)
    ensures
        flat_kids(s, a + b) == flat_kids(s, a) + flat_kids(s, b),
    decreases b.len(),
{
    if b.len() == 0 {
        assert(a + b =~= a);
    } else {
        assert((a + b).drop_last() =~= a + b.drop_last());
        flat_kids_concat(s, a, b.drop_last());
    }
}

pub proof fn flat_cells_concat(s: Store, a: Seq<u32>, b: Seq<u32>)
    ensures
        flat_cells(s, a + b) == flat_cells(s, a) + flat_cells(s, b),
    decreases b.len(),
{
    if b.len() == 0 {
        assert(a + b =~= a);
    } else {
        assert((a + b).drop_last() =~= a + b.drop_last());
        flat_cells_concat(s, a, b.drop_last());
    }
}

pub proof fn level_concat(s: Store, a: Seq<u32>, b: Seq<u32>, d: nat)
    ensures
        level(s, a + b, d) == level(s, a, d) + level(s, b, d),
    decreases d,
{
    reveal(level);
    if d > 0 {
        flat_kids_concat(s, a, b);
        level_concat(s, flat_kids(s, a), flat_kids(s, b), (d - 1) as nat);
    }
}

/// The entries of two lists of trees are those of the first, then those of the
/// second.
pub proof fn entries_concat(s: Store, a: Seq<u32>, b: Seq<u32>, h: nat)
    ensures
        entries(s, a + b, h) == entries(s, a, h) + entries(s, b, h),
{
    reveal(entries);
    level_concat(s, a, b, h);
    flat_cells_concat(s, level(s, a, h), level(s, b, h));
}

pub proof fn occ_concat(s: Store, a: Seq<u32>, b: Seq<u32>, h: nat, p: u32)
    ensures
        occ(s, a + b, h, p) == occ(s, a, h, p) + occ(s, b, h, p),
    decreases b.len(),
{
    reveal(occ);
    if b.len() == 0 {
        assert(a + b =~= a);
    } else {
        assert((a + b).drop_last() =~= a + b.drop_last());
        occ_concat(s, a, b.drop_last(), h, p);
    }
}

/// A tree is its root over the trees of its children.
pub proof fn single(s: Store, p: u32, h: nat)
    ensures
        h > 0 ==> level(s, seq![p], h) == level(s, s[p].kids, (h - 1) as nat),
        h > 0 ==> entries(s, seq![p], h) == entries(s, s[p].kids, (h - 1) as nat),
        h == 0 ==> level(s, seq![p], h) == seq![p],
        h == 0 ==> entries(s, seq![p], h) == s[p].cells,
{
    reveal(entries);
    reveal_with_fuel(level, 2);
    reveal_with_fuel(flat_kids, 2);
    reveal_with_fuel(flat_cells, 2);
    assert(seq![p].drop_last() =~= seq![]);
    assert(flat_kids(s, seq![p]) =~= s[p].kids);
    assert(flat_cells(s, seq![p]) =~= s[p].cells);
}

pub proof fn occ_single(s: Store, p: u32, h: nat, x: u32)
    ensures
        occ(s, seq![p], h, x) == (if p == x {
            1nat
        } else {
            0
        }) + (if h > 0 {
            occ(s, s[p].kids, (h - 1) as nat, x)
        } else {
            0
        }),
{
    assert(seq![p].drop_last() =~= seq![]);
    reveal_with_fuel(occ, 2);
}

pub open spec fn count(l: Seq<u32>, p: u32) -> nat
    decreases l.len(),
{
    if l.len() == 0 {
        0
    } else {
        count(l.drop_last(), p) + (if l.last() == p {
            1nat
        } else {
            0
        })
    }
}

proof fn occ_by_levels(s: Store, l: Seq<u32>, h: nat, p: u32)
    ensures
        occ(s, l, h, p) == count(l, p) + (if h > 0 {
            occ(s, flat_kids(s, l), (h - 1) as nat, p)
        } else {
            0
        }),
    decreases l.len(),
{
    reveal(occ);
    if l.len() > 0 {
        occ_by_levels(s, l.drop_last(), h, p);
        if h > 0 {
            occ_concat(s, flat_kids(s, l.drop_last()), s[l.last()].kids, (h - 1) as nat, p);
        }
    }
}

proof fn count_index(l: Seq<u32>, i: int)
    requires
        0 <= i < l.len(),
    ensures
        count(l, l[i]) >= 1,
    decreases l.len(),
{
    if i < l.len() - 1 {
        count_index(l.drop_last(), i);
    }
}

proof fn count_twice(l: Seq<u32>, i: int, j: int)
    requires
        0 <= i < j < l.len(),
        l[i] == l[j],
    ensures
        count(l, l[i]) >= 2,
    decreases l.len(),
{
    if j < l.len() - 1 {
        count_twice(l.drop_last(), i, j);
    } else {
        count_index(l.drop_last(), i);
    }
}

proof fn occ_of_level(s: Store, l: Seq<u32>, h: nat, p: u32)
    ensures
        occ(s, l, h, p) >= count(level(s, l, h), p),
    decreases h,
{
    reveal(level);
    occ_by_levels(s, l, h, p);
    if h > 0 {
        occ_of_level(s, flat_kids(s, l), (h - 1) as nat, p);
    }
}

/// Every leaf of a tree occurs in it.
pub proof fn leaf_occurs(s: Store, l: Seq<u32>, h: nat, i: int)
    requires
        0 <= i < level(s, l, h).len(),
    ensures
        occ(s, l, h, level(s, l, h)[i]) >= 1,
{
    let v = level(s, l, h);
    count_index(v, i);
    occ_of_level(s, l, h, v[i]);
}

/// The pages of a list occur in its trees.
pub proof fn member_occurs(s: Store, l: Seq<u32>, h: nat, i: int)
    requires
        0 <= i < l.len(),
    ensures
        occ(s, l, h, l[i]) >= 1,
{
    occ_by_levels(s, l, h, l[i]);
    count_index(l, i);
}

/// A list of trees around one of them.
pub proof fn around(s: Store, l: Seq<u32>, i: int, h: nat)
    requires
        0 <= i < l.len(),
    ensures
        l == l.take(i) + seq![l[i]] + l.skip(i + 1),
        entries(s, l, h) == entries(s, l.take(i), h) + entries(s, seq![l[i]], h) + entries(
            s,
            l.skip(i + 1),
            h,
        ),
        level(s, l, h) == level(s, l.take(i), h) + level(s, seq![l[i]], h) + level(
            s,
            l.skip(i + 1),
            h,
        ),
        forall|x: u32| #[trigger]
            occ(s, l, h, x) == occ(s, l.take(i), h, x) + occ(s, seq![l[i]], h, x) + occ(
                s,
                l.skip(i + 1),
                h,
                x,
            ),
{
    let a = l.take(i);
    let b = seq![l[i]];
    let c = l.skip(i + 1);
    assert(l =~= a + b + c);
    three(s, a, b, c, h);
}

/// Three lists of trees, one after the other.
pub proof fn three(s: Store, a: Seq<u32>, b: Seq<u32>, c: Seq<u32>, h: nat)
    ensures
        entries(s, a + b + c, h) == entries(s, a, h) + entries(s, b, h) + entries(s, c, h),
        level(s, a + b + c, h) == level(s, a, h) + level(s, b, h) + level(s, c, h),
        forall|x: u32| #[trigger]
            occ(s, a + b + c, h, x) == occ(s, a, h, x) + occ(s, b, h, x) + occ(s, c, h, x),
{
    entries_concat(s, a + b, c, h);
    entries_concat(s, a, b, h);
    level_concat(s, a + b, c, h);
    level_concat(s, a, b, h);
    assert forall|x: u32| #[trigger]
        occ(s, a + b + c, h, x) == occ(s, a, h, x) + occ(s, b, h, x) + occ(s, c, h, x) by {
        occ_concat(s, a + b, c, h, x);
        occ_concat(s, a, b, h, x);
    }
}

// -- Frames ----------------------------------------------------

/// What the trees of a list are rests on the contents of their pages alone.
pub proof fn frame(s: Store, t: Store, l: Seq<u32>, h: nat)
    requires
        forall|x: u32| #[trigger] occ(s, l, h, x) > 0 ==> same_content(s[x], t[x]),
    ensures
        level(s, l, h) == level(t, l, h),
        entries(s, l, h) == entries(t, l, h),
        forall|x: u32| #[trigger] occ(t, l, h, x) == occ(s, l, h, x),
    decreases h, l.len(),
{
    reveal(occ);
    if l.len() == 0 {
        assert(l =~= seq![]);
        frame_empty(s, h);
        frame_empty(t, h);
    } else {
        let a = l.drop_last();
        let p = l.last();
        assert(l =~= a + seq![p]);
        assert forall|x: u32| #[trigger] occ(s, a, h, x) > 0 implies same_content(s[x], t[x]) by {
            occ_concat(s, a, seq![p], h, x);
            assert(occ(s, l, h, x) > 0);
        }
        frame(s, t, a, h);
        assert(same_content(s[p], t[p])) by {
            occ_concat(s, a, seq![p], h, p);
            occ_single(s, p, h, p);
            assert(occ(s, l, h, p) > 0);
        }
        single(s, p, h);
        single(t, p, h);
        if h > 0 {
            let k = s[p].kids;
            assert forall|x: u32| #[trigger] occ(s, k, (h - 1) as nat, x) > 0 implies same_content(
                s[x],
                t[x],
            ) by {
                occ_concat(s, a, seq![p], h, x);
                occ_single(s, p, h, x);
                assert(occ(s, l, h, x) > 0);
            }
            frame(s, t, k, (h - 1) as nat);
        }
        level_concat(s, a, seq![p], h);
        level_concat(t, a, seq![p], h);
        entries_concat(s, a, seq![p], h);
        entries_concat(t, a, seq![p], h);
        assert forall|x: u32| #[trigger] occ(t, l, h, x) == occ(s, l, h, x) by {
            occ_concat(s, a, seq![p], h, x);
            occ_concat(t, a, seq![p], h, x);
            occ_single(s, p, h, x);
            occ_single(t, p, h, x);
            assert(occ(t, a, h, x) == occ(s, a, h, x));
            if h > 0 {
                assert(occ(t, s[p].kids, (h - 1) as nat, x) == occ(s, s[p].kids, (h - 1) as nat, x));
            }
        }
    }
}

proof fn frame_empty(s: Store, h: nat)
    ensures
        level(s, seq![], h) == Seq::<u32>::empty(),
        entries(s, seq![], h) == Seq::<CellView>::empty(),
    decreases h,
{
    reveal(entries);
    reveal(level);
    if h > 0 {
        assert(flat_kids(s, seq![]) =~= seq![]);
        frame_empty(s, (h - 1) as nat);
    }
}

/// No trees have no entries.
pub proof fn no_trees(s: Store, h: nat)
    ensures
        level(s, seq![], h) == Seq::<u32>::empty(),
        entries(s, seq![], h) == Seq::<CellView>::empty(),
{
    frame_empty(s, h);
}

/// Whether all inner nodes have a cell for each child rests on the contents of
/// the pages alone.
pub proof fn full_frame(s: Store, t: Store, p: u32, h: nat, m: nat, top: bool)
    requires
        ok(s, p, h, m, top),
        full(s, p, h),
        forall|x: u32| #[trigger] occ(s, seq![p], h, x) > 0 ==> agree(s, t, x),
    ensures
        full(t, p, h),
    decreases h,
{
    occ_single(s, p, h, p);
    assert(occ(s, seq![p], h, p) > 0);
    if h > 0 {
        let k = s[p].kids;
        let g = (h - 1) as nat;
        assert forall|i: int| 0 <= i < k.len() implies full(t, #[trigger] k[i], g) by {
            assert(ok(s, k[i], g, m, false));
            assert(full(s, k[i], g));
            assert forall|x: u32| #[trigger] occ(s, seq![k[i]], g, x) > 0 implies agree(
                s,
                t,
                x,
            ) by {
                around(s, k, i, g);
                occ_single(s, p, h, x);
                assert(occ(s, seq![p], h, x) > 0);
            }
            full_frame(s, t, k[i], g, m, false);
        }
    }
}

/// Whether a tree is in order rests on the contents of its pages alone.
pub proof fn frame_ok(s: Store, t: Store, p: u32, h: nat, m: nat, top: bool)
    requires
        ok(s, p, h, m, top),
        forall|x: u32| #[trigger] occ(s, seq![p], h, x) > 0 ==> agree(s, t, x),
    ensures
        ok(t, p, h, m, top),
        max_key(t, p, h) == max_key(s, p, h),
    decreases h,
{
    occ_single(s, p, h, p);
    assert(occ(s, seq![p], h, p) > 0);
    let n = s[p];
    if h > 0 {
        let g = (h - 1) as nat;
        assert forall|i: int| 0 <= i < n.kids.len() implies ok(t, #[trigger] n.kids[i], g, m, false)
            && max_key(t, n.kids[i], g) == max_key(s, n.kids[i], g) by {
            assert forall|x: u32| #[trigger] occ(s, seq![n.kids[i]], g, x) > 0 implies agree(
                s,
                t,
                x,
            ) by {
                around(s, n.kids, i, g);
                occ_single(s, p, h, x);
                assert(occ(s, seq![p], h, x) > 0);
            }
            frame_ok(s, t, n.kids[i], g, m, false);
        }
        assert forall|i: int| 0 <= i < n.kids.len() - 1 implies full(
            t,
            #[trigger] n.kids[i],
            g,
        ) by {
            assert(full(s, n.kids[i], g));
            assert forall|x: u32| #[trigger] occ(s, seq![n.kids[i]], g, x) > 0 implies agree(
                s,
                t,
                x,
            ) by {
                around(s, n.kids, i, g);
                occ_single(s, p, h, x);
                assert(occ(s, seq![p], h, x) > 0);
            }
            assert(ok(s, n.kids[i], g, m, false));
            full_frame(s, t, n.kids[i], g, m, false);
        }
        assert(n.kids.last() == n.kids[n.kids.len() - 1]);
    }
}

// -- Keys ------------------------------------------------------

/// In rising entries `lower_bound` parts those before `k` from the others.
pub proof fn lower_bound_parts(e: Seq<CellView>, k: DataView)
    requires
        sorted(e),
    ensures
        lower_bound(e, k) <= e.len(),
        forall|i: int| 0 <= i < lower_bound(e, k) ==> key_lt((#[trigger] e[i]).0, k),
        forall|i: int| lower_bound(e, k) <= i < e.len() ==> !key_lt((#[trigger] e[i]).0, k),
    decreases e.len(),
{
    broadcast use {key_lt_transitive, key_lt_irreflexive};

    if e.len() > 0 {
        if key_lt(e.last().0, k) {
            assert forall|i: int| 0 <= i < e.len() implies key_lt((#[trigger] e[i]).0, k) by {
                if i < e.len() - 1 {
                    assert(key_lt(e[i].0, e[e.len() - 1].0));
                }
            }
        } else {
            let f = e.drop_last();
            lower_bound_parts(f, k);
            assert forall|i: int| 0 <= i < lower_bound(e, k) implies key_lt(
                (#[trigger] e[i]).0,
                k,
            ) by {
                assert(f[i] == e[i]);
            }
            assert forall|i: int| lower_bound(e, k) <= i < e.len() implies !key_lt(
                (#[trigger] e[i]).0,
                k,
            ) by {
                if i < e.len() - 1 {
                    assert(f[i] == e[i]);
                }
            }
        }
    }
}

/// There is one place where rising entries part.
pub proof fn lower_bound_is(e: Seq<CellView>, k: DataView, n: int)
    requires
        0 <= n <= e.len(),
        forall|i: int| 0 <= i < n ==> key_lt((#[trigger] e[i]).0, k),
        forall|i: int| n <= i < e.len() ==> !key_lt((#[trigger] e[i]).0, k),
    ensures
        lower_bound(e, k) == n,
    decreases e.len(),
{
    if e.len() > 0 {
        if key_lt(e.last().0, k) {
            assert(e[e.len() - 1] == e.last());
        } else {
            let f = e.drop_last();
            assert(n < e.len());
            assert forall|i: int| 0 <= i < n implies key_lt((#[trigger] f[i]).0, k) by {
                assert(f[i] == e[i]);
            }
            assert forall|i: int| n <= i < f.len() implies !key_lt((#[trigger] f[i]).0, k) by {
                assert(f[i] == e[i]);
            }
            lower_bound_is(f, k, n);
        }
    }
}

/// Where the parts before and after are on their side of `k`, only the middle
/// decides where `k` belongs.
pub proof fn lower_bound_middle(
    a: Seq<CellView>,
    b: Seq<CellView>,
    c: Seq<CellView>,
    k: DataView,
)
    requires
        sorted(b),
        forall|i: int| 0 <= i < a.len() ==> key_lt((#[trigger] a[i]).0, k),
        forall|i: int| 0 <= i < c.len() ==> key_lt(k, (#[trigger] c[i]).0),
    ensures
        lower_bound(a + b + c, k) == a.len() + lower_bound(b, k),
        lower_bound(b, k) <= b.len(),
        has_key(a + b + c, k) == has_key(b, k),
{
    broadcast use {key_lt_asymmetric, key_lt_irreflexive};

    let e = a + b + c;
    let n = (a.len() + lower_bound(b, k)) as int;
    lower_bound_parts(b, k);
    assert forall|i: int| 0 <= i < n implies key_lt((#[trigger] e[i]).0, k) by {
        if i < a.len() {
            assert(e[i] == a[i]);
        } else {
            assert(e[i] == b[i - a.len()]);
        }
    }
    assert forall|i: int| n <= i < e.len() implies !key_lt((#[trigger] e[i]).0, k) by {
        if i < a.len() + b.len() {
            assert(e[i] == b[i - a.len()]);
        } else {
            assert(e[i] == c[i - a.len() - b.len()]);
        }
    }
    lower_bound_is(e, k, n);
    if has_key(e, k) {
        let i = choose|i: int| 0 <= i < e.len() && (#[trigger] e[i]).0 == k;
        if i < a.len() {
            assert(e[i] == a[i]);
        } else if i < a.len() + b.len() {
            assert(b[i - a.len()].0 == k);
        } else {
            assert(e[i] == c[i - a.len() - b.len()]);
        }
    }
    if has_key(b, k) {
        let i = choose|i: int| 0 <= i < b.len() && (#[trigger] b[i]).0 == k;
        assert(e[a.len() + i].0 == k);
    }
}

/// Putting an entry in its place keeps the keys rising.
pub proof fn with_cell_sorted(e: Seq<CellView>, c: CellView)
    requires
        sorted(e),
        !has_key(e, c.0),
    ensures
        sorted(with_cell(e, c)),
{
    broadcast use {key_lt_transitive, key_lt_irreflexive};

    lower_bound_parts(e, c.0);
    let n = lower_bound(e, c.0) as int;
    let f = with_cell(e, c);
    assert forall|i: int| 0 <= i < e.len() implies (#[trigger] e[i]).0 != c.0 && (i >= n ==> key_lt(
        c.0,
        e[i].0,
    )) by {
        key_lt_total(e[i].0, c.0);
    }
    assert forall|i: int, j: int| 0 <= i < j < f.len() implies key_lt(
        (#[trigger] f[i]).0,
        (#[trigger] f[j]).0,
    ) by {
        let x = if i < n {
            i
        } else {
            i - 1
        };
        let y = if j < n {
            j
        } else {
            j - 1
        };
        if i != n && j != n {
            assert(f[i] == e[x] && f[j] == e[y]);
        } else if i == n {
            assert(f[j] == e[y]);
        } else {
            assert(f[i] == e[x]);
        }
    }
}

/// Taking an entry out keeps the keys rising.
pub proof fn without_key_sorted(e: Seq<CellView>, n: int)
    requires
        sorted(e),
        0 <= n < e.len(),
    ensures
        sorted(e.remove(n)),
{
    let f = e.remove(n);
    assert forall|i: int, j: int| 0 <= i < j < f.len() implies key_lt(
        (#[trigger] f[i]).0,
        (#[trigger] f[j]).0,
    ) by {
        let x = if i < n {
            i
        } else {
            i + 1
        };
        let y = if j < n {
            j
        } else {
            j + 1
        };
        assert(f[i] == e[x] && f[j] == e[y]);
    }
}

/// A key that occurs stands at its lower bound.
pub proof fn key_at_bound(e: Seq<CellView>, k: DataView)
    requires
        sorted(e),
    ensures
        has_key(e, k) <==> lower_bound(e, k) < e.len() && e[lower_bound(e, k) as int].0 == k,
{
    broadcast use {key_lt_transitive, key_lt_irreflexive};

    lower_bound_parts(e, k);
    let n = lower_bound(e, k) as int;
    if has_key(e, k) {
        let i = choose|i: int| 0 <= i < e.len() && (#[trigger] e[i]).0 == k;
        if i < n {
            assert(key_lt(e[i].0, k));
        }
        if i > n {
            assert(key_lt(e[n].0, e[i].0));
        }
    }
}

/// Parts of rising entries rise.
pub proof fn sorted_parts(a: Seq<CellView>, b: Seq<CellView>)
    requires
        sorted(a + b),
    ensures
        sorted(a),
        sorted(b),
        forall|i: int, j: int|
            0 <= i < a.len() && 0 <= j < b.len() ==> key_lt(
                (#[trigger] a[i]).0,
                (#[trigger] b[j]).0,
            ),
{
    let e = a + b;
    assert forall|i: int, j: int| 0 <= i < j < a.len() implies key_lt(
        (#[trigger] a[i]).0,
        (#[trigger] a[j]).0,
    ) by {
        assert(e[i] == a[i] && e[j] == a[j]);
    }
    assert forall|i: int, j: int| 0 <= i < j < b.len() implies key_lt(
        (#[trigger] b[i]).0,
        (#[trigger] b[j]).0,
    ) by {
        assert(e[a.len() + i] == b[i] && e[a.len() + j] == b[j]);
    }
    assert forall|i: int, j: int| 0 <= i < a.len() && 0 <= j < b.len() implies key_lt(
        (#[trigger] a[i]).0,
        (#[trigger] b[j]).0,
    ) by {
        assert(e[i] == a[i] && e[a.len() + j] == b[j]);
    }
}

/// The largest key of a tree is that of its last entry.
pub proof fn max_is_last(s: Store, p: u32, h: nat, m: nat, top: bool)
    requires
        ok(s, p, h, m, top),
        m >= 1,
        h > 0 || s[p].cells.len() > 0,
    ensures
        entries(s, seq![p], h).len() > 0,
        entries(s, seq![p], h).last().0 == max_key(s, p, h),
    decreases h,
{
    single(s, p, h);
    if h > 0 {
        let g = (h - 1) as nat;
        let k = s[p].kids;
        let q = k[k.len() - 1];
        assert(ok(s, k[k.len() - 1], g, m, false));
        assert(h > 1 || s[q].cells.len() > 0);
        max_is_last(s, q, g, m, false);
        around(s, k, k.len() - 1, g);
        assert(k.skip(k.len() as int) =~= seq![]);
        no_trees(s, g);
        assert(k.last() == q);
    }
}

} // verus!
