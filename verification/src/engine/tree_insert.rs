//! Why putting an entry into a tree keeps it in order.
use vstd::prelude::*;

use crate::engine::node::{node_fits, page_holds, CellView, NodeView};
use crate::engine::order::{key_lt, key_lt_irreflexive, key_lt_total, key_lt_transitive};
use crate::engine::tree::{
    agree, all_ok, around, chain, even, full, full_frame, linked, entries, entries_concat, frame,
    frame_ok, has_key, leaf_occurs, level, level_concat, lower_bound,
    lower_bound_middle, lower_bound_parts, max_is_last, max_key, member_occurs, no_trees, occ,
    occ_concat, occ_single, ok, same_content, single, sorted, sorted_parts, three, unique,
    values_empty, with_cell, Store,
};
use crate::engine::value::DataView;

verus! {

/// A tree of height `h` in order among the leaves of a larger tree: `pre` are
/// the leaves to its left and `suf` those to its right, and the pages in `f` are
/// free.
pub open spec fn placed(
    s: Store,
    f: Set<u32>,
    p: u32,
    h: nat,
    m: nat,
    top: bool,
    pre: Seq<u32>,
    suf: Seq<u32>,
) -> bool {
    &&& ok(s, p, h, m, top)
    &&& unique(s, seq![p], h)
    &&& sorted(entries(s, seq![p], h))
    &&& !f.contains(0)
    &&& forall|x: u32| #[trigger] occ(s, seq![p], h, x) > 0 ==> x != 0 && !f.contains(x)
    &&& forall|x: u32|
        pre.contains(x) || suf.contains(x) ==> #[trigger] occ(s, seq![p], h, x) == 0 && x != 0
            && !f.contains(x)
    &&& linked(s, pre + level(s, seq![p], h) + suf)
}

/// Whether only a tree, free pages and links have changed.
pub open spec fn kept(
    s: Store,
    f: Set<u32>,
    t: Store,
    p: u32,
    h: nat,
    pre: Seq<u32>,
    suf: Seq<u32>,
) -> bool {
    forall|x: u32| #![trigger t.dom().contains(x)] #![trigger s.dom().contains(x)]
        occ(s, seq![p], h, x) == 0 && !f.contains(x) && s.dom().contains(x) ==> {
            &&& t.dom().contains(x)
            &&& same_content(s[x], t[x])
            &&& s[x].leaf && !pre.contains(x) && !suf.contains(x) ==> t[x] == s[x]
        }
}

/// Number of times that `x` was taken from the free pages.
pub open spec fn taken(f: Set<u32>, g: Set<u32>, x: u32) -> nat {
    if f.contains(x) && !g.contains(x) {
        1
    } else {
        0
    }
}

/// What putting an entry into a tree comes to: the trees in `out` take its
/// place.
pub open spec fn inserted(
    s: Store,
    f: Set<u32>,
    t: Store,
    g: Set<u32>,
    p: u32,
    h: nat,
    pre: Seq<u32>,
    suf: Seq<u32>,
    out: Seq<u32>,
    c: CellView,
) -> bool {
    &&& kept(s, f, t, p, h, pre, suf)
    &&& g.subset_of(f)
    &&& !has_key(entries(s, seq![p], h), c.0)
    &&& entries(t, out, h) == with_cell(entries(s, seq![p], h), c)
    &&& forall|x: u32| #[trigger]
        occ(t, out, h, x) == occ(s, seq![p], h, x) + taken(f, g, x)
    &&& linked(t, pre + level(t, out, h) + suf)
}

// -- Keys of inner nodes ---------------------------------------

/// The keys of an inner node rise.
pub proof fn separators_sorted(s: Store, p: u32, h: nat, m: nat, top: bool)
    requires
        ok(s, p, h, m, top),
        h > 0,
        m >= 1,
        sorted(entries(s, seq![p], h)),
    ensures
        sorted(s[p].cells),
{
    let n = s[p];
    let k = n.kids;
    let d = (h - 1) as nat;
    single(s, p, h);
    assert forall|i: int, j: int| 0 <= i < j < n.cells.len() implies key_lt(
        (#[trigger] n.cells[i]).0,
        (#[trigger] n.cells[j]).0,
    ) by {
        assert(ok(s, k[i], d, m, false));
        assert(ok(s, k[j], d, m, false));
        max_is_last(s, k[i], d, m, false);
        max_is_last(s, k[j], d, m, false);
        around(s, k, i, d);
        let rest = k.skip(i + 1);
        around(s, rest, j - i - 1, d);
        assert(rest[j - i - 1] == k[j]);
        let a = entries(s, k.take(i), d) + entries(s, seq![k[i]], d);
        let b = entries(s, rest, d);
        let x = entries(s, seq![k[i]], d);
        let y = entries(s, seq![k[j]], d);
        let z = entries(s, rest.take(j - i - 1), d);
        sorted_parts(a, b);
        assert(a[a.len() - 1] == x.last());
        assert(b[z.len() + y.len() - 1] == y.last());
    }
}

/// The child that a key belongs to.
pub open spec fn child_index(n: NodeView, key: DataView) -> int {
    let b = lower_bound(n.cells, key) as int;
    if b < n.kids.len() {
        b
    } else {
        n.kids.len() - 1
    }
}

/// All entries left of the child that a key belongs to are before the key, and
/// all entries right of it are after it.
pub proof fn key_sides(s: Store, p: u32, h: nat, m: nat, top: bool, key: DataView)
    requires
        ok(s, p, h, m, top),
        h > 0,
        m >= 1,
        sorted(entries(s, seq![p], h)),
    ensures
        ({
            let k = s[p].kids;
            let i = child_index(s[p], key);
            let d = (h - 1) as nat;
            let a = entries(s, k.take(i), d);
            let b = entries(s, seq![k[i]], d);
            let c = entries(s, k.skip(i + 1), d);
            &&& 0 <= i < k.len()
            &&& entries(s, seq![p], h) == a + b + c
            &&& sorted(b)
            &&& b.len() > 0
            &&& b.last().0 == max_key(s, k[i], d)
            &&& forall|j: int| 0 <= j < a.len() ==> key_lt((#[trigger] a[j]).0, key)
            &&& forall|j: int| 0 <= j < c.len() ==> key_lt(key, (#[trigger] c[j]).0)
            &&& i < s[p].cells.len() && lower_bound(s[p].cells, key) < k.len() ==> !key_lt(
                b.last().0,
                key,
            )
            &&& lower_bound(s[p].cells, key) >= k.len() ==> key_lt(b.last().0, key) && i
                == s[p].cells.len() - 1
        }),
{
    broadcast use {key_lt_transitive, key_lt_irreflexive};

    let n = s[p];
    let k = n.kids;
    let i = child_index(n, key);
    let d = (h - 1) as nat;
    let a = entries(s, k.take(i), d);
    let b = entries(s, seq![k[i]], d);
    let c = entries(s, k.skip(i + 1), d);
    single(s, p, h);
    separators_sorted(s, p, h, m, top);
    lower_bound_parts(n.cells, key);
    around(s, k, i, d);
    assert(ok(s, k[i], d, m, false));
    max_is_last(s, k[i], d, m, false);
    sorted_parts(a + b, c);
    sorted_parts(a, b);
    if i > 0 {
        let q = k[i - 1];
        assert(ok(s, k[i - 1], d, m, false));
        max_is_last(s, q, d, m, false);
        around(s, k.take(i), i - 1, d);
        assert(k.take(i)[i - 1] == q);
        assert(k.take(i).skip(i) =~= seq![]);
        no_trees(s, d);
        assert(a.last() == entries(s, seq![q], d).last());
        assert(n.cells[i - 1].0 == max_key(s, q, d));
        assert forall|j: int| 0 <= j < a.len() implies key_lt((#[trigger] a[j]).0, key) by {
            if j < a.len() - 1 {
                assert(key_lt(a[j].0, a[a.len() - 1].0));
            }
        }
    } else {
        assert(k.take(0) =~= seq![]);
        no_trees(s, d);
    }
    if i < n.cells.len() {
        assert(n.cells[i].0 == max_key(s, k[i], d));
    }
    if i + 1 < k.len() {
        let e = a + b;
        assert(e.last() == b.last());
        assert forall|j: int| 0 <= j < c.len() implies key_lt(key, (#[trigger] c[j]).0) by {
            assert(key_lt(e[e.len() - 1].0, c[j].0));
            key_lt_total(key, b.last().0);
        }
    } else {
        assert(k.skip(i + 1) =~= seq![]);
        no_trees(s, d);
    }
}

/// The last key after an entry was put in.
pub proof fn last_with_cell(e: Seq<CellView>, c: CellView)
    requires
        sorted(e),
        e.len() > 0,
    ensures
        with_cell(e, c).len() == e.len() + 1,
        with_cell(e, c).last().0 == (if key_lt(e.last().0, c.0) {
            c.0
        } else {
            e.last().0
        }),
{
    lower_bound_parts(e, c.0);
    assert(e.last() == e[e.len() - 1]);
}

// -- Going up --------------------------------------------------

/// The leaves left of child `i`.
pub open spec fn pre_of(s: Store, p: u32, h: nat, i: int, pre: Seq<u32>) -> Seq<u32> {
    pre + level(s, s[p].kids.take(i), (h - 1) as nat)
}

/// The leaves right of child `i`.
pub open spec fn suf_of(s: Store, p: u32, h: nat, i: int, suf: Seq<u32>) -> Seq<u32> {
    level(s, s[p].kids.skip(i + 1), (h - 1) as nat) + suf
}

/// A child of a placed tree is a placed tree.
pub proof fn child_placed(
    s: Store,
    f: Set<u32>,
    p: u32,
    h: nat,
    m: nat,
    top: bool,
    pre: Seq<u32>,
    suf: Seq<u32>,
    i: int,
)
    requires
        placed(s, f, p, h, m, top, pre, suf),
        h > 0,
        0 <= i < s[p].kids.len(),
    ensures
        placed(
            s,
            f,
            s[p].kids[i],
            (h - 1) as nat,
            m,
            false,
            pre_of(s, p, h, i, pre),
            suf_of(s, p, h, i, suf),
        ),
        forall|x: u32| #[trigger]
            occ(s, seq![s[p].kids[i]], (h - 1) as nat, x) <= occ(s, seq![p], h, x),
        occ(s, seq![s[p].kids[i]], (h - 1) as nat, p) == 0,
{
    let k = s[p].kids;
    let d = (h - 1) as nat;
    let c = k[i];
    let a = level(s, k.take(i), d);
    let b = level(s, seq![c], d);
    let e = level(s, k.skip(i + 1), d);
    single(s, p, h);
    around(s, k, i, d);
    assert forall|x: u32| #[trigger] occ(s, seq![c], d, x) <= occ(s, seq![p], h, x) by {
        occ_single(s, p, h, x);
    }
    assert(occ(s, seq![c], d, p) == 0) by {
        occ_single(s, p, h, p);
        assert(occ(s, seq![p], h, p) <= 1);
    }
    let pre2 = pre + a;
    let suf2 = e + suf;
    assert(pre2 + b + suf2 =~= pre + (a + b + e) + suf);
    assert forall|x: u32| #[trigger] occ(s, seq![c], d, x) <= 1 by {
        assert(occ(s, seq![p], h, x) <= 1);
    }
    sorted_parts(
        entries(s, k.take(i), d) + entries(s, seq![c], d),
        entries(s, k.skip(i + 1), d),
    );
    sorted_parts(entries(s, k.take(i), d), entries(s, seq![c], d));
    assert forall|x: u32| #[trigger] occ(s, seq![c], d, x) > 0 implies x != 0 && !f.contains(x) by {
        assert(occ(s, seq![p], h, x) > 0);
    }
    assert forall|x: u32|
        pre2.contains(x) || suf2.contains(x) implies #[trigger] occ(s, seq![c], d, x) == 0 && x != 0
        && !f.contains(x) by {
        occ_single(s, p, h, x);
        if pre2.contains(x) {
            let j = choose|j: int| 0 <= j < pre2.len() && pre2[j] == x;
            if j < pre.len() {
                assert(pre[j] == x);
                assert(pre.contains(x));
                assert(occ(s, seq![p], h, x) == 0);
            } else {
                leaf_occurs(s, k.take(i), d, j - pre.len());
                assert(occ(s, seq![p], h, x) > 0);
            }
        } else {
            let j = choose|j: int| 0 <= j < suf2.len() && suf2[j] == x;
            if j < e.len() {
                leaf_occurs(s, k.skip(i + 1), d, j);
                assert(occ(s, seq![p], h, x) > 0);
            } else {
                assert(suf[j - e.len()] == x);
                assert(suf.contains(x));
                assert(occ(s, seq![p], h, x) == 0);
            }
        }
    }
}

/// Children around changed children: `out` takes the place of the children from
/// `lo` up to `hi`.
#[verifier::rlimit(30)]
pub proof fn children_replaced(
    s: Store,
    f: Set<u32>,
    t: Store,
    u: Store,
    p: u32,
    h: nat,
    m: nat,
    top: bool,
    lo: int,
    hi: int,
    out: Seq<u32>,
    kids: Seq<u32>,
)
    requires
        ok(s, p, h, m, top),
        unique(s, seq![p], h),
        h > 0,
        0 <= lo <= hi <= s[p].kids.len(),
        forall|x: u32| #[trigger] occ(s, seq![p], h, x) > 0 ==> !f.contains(x),
        forall|x: u32| #![trigger t.dom().contains(x)] #![trigger s.dom().contains(x)]
            occ(s, s[p].kids.subrange(lo, hi), (h - 1) as nat, x) == 0 && !f.contains(x)
                && s.dom().contains(x) ==> t.dom().contains(x) && same_content(s[x], t[x]),
        all_ok(t, out, (h - 1) as nat, m),
        forall|x: u32| #[trigger]
            occ(t, out, (h - 1) as nat, x) > 0 ==> occ(
                s,
                s[p].kids.subrange(lo, hi),
                (h - 1) as nat,
                x,
            ) > 0 || f.contains(x),
        kids == s[p].kids.take(lo) + out + s[p].kids.skip(hi),
        forall|x: u32|
            x != p && (occ(s, s[p].kids, (h - 1) as nat, x) > 0 || occ(t, out, (h - 1) as nat, x)
                > 0) && t.dom().contains(x) && !(occ(
                s,
                s[p].kids.subrange(lo, hi),
                (h - 1) as nat,
                x,
            ) > 0 && occ(t, out, (h - 1) as nat, x) == 0) ==> #[trigger] agree(t, u, x),
    ensures
        entries(u, kids, (h - 1) as nat) == entries(s, s[p].kids.take(lo), (h - 1) as nat)
            + entries(t, out, (h - 1) as nat) + entries(s, s[p].kids.skip(hi), (h - 1) as nat),
        level(u, kids, (h - 1) as nat) == level(s, s[p].kids.take(lo), (h - 1) as nat) + level(
            t,
            out,
            (h - 1) as nat,
        ) + level(s, s[p].kids.skip(hi), (h - 1) as nat),
        forall|x: u32| #[trigger]
            occ(u, kids, (h - 1) as nat, x) == occ(s, s[p].kids, (h - 1) as nat, x) - occ(
                s,
                s[p].kids.subrange(lo, hi),
                (h - 1) as nat,
                x,
            ) + occ(t, out, (h - 1) as nat, x),
        all_ok(u, kids, (h - 1) as nat, m),
        forall|j: int|
            0 <= j < s[p].kids.len() && !(lo <= j < hi) ==> max_key(
                u,
                #[trigger] s[p].kids[j],
                (h - 1) as nat,
            ) == max_key(s, s[p].kids[j], (h - 1) as nat) && (full(
                s,
                s[p].kids[j],
                (h - 1) as nat,
            ) ==> full(u, s[p].kids[j], (h - 1) as nat)),
        forall|j: int|
            0 <= j < out.len() ==> max_key(u, #[trigger] out[j], (h - 1) as nat) == max_key(
                t,
                out[j],
                (h - 1) as nat,
            ) && (full(t, out[j], (h - 1) as nat) ==> full(u, out[j], (h - 1) as nat)),
{
    let k = s[p].kids;
    let d = (h - 1) as nat;
    let ka = k.take(lo);
    let kb = k.subrange(lo, hi);
    let kc = k.skip(hi);
    assert(k =~= ka + kb + kc);
    three(s, ka, kb, kc, d);
    three(u, ka, out, kc, d);
    assert forall|x: u32| #[trigger] occ(s, k, d, x) > 0 implies x != p && !f.contains(x) by {
        occ_single(s, p, h, x);
        occ_single(s, p, h, p);
        assert(occ(s, seq![p], h, x) > 0);
        assert(occ(s, seq![p], h, p) <= 1);
    }
    // Siblings hold what they held.
    assert forall|x: u32| #[trigger]
        occ(s, k, d, x) > 0 && occ(s, kb, d, x) == 0 implies agree(s, u, x) by {
        assert(x != p && !f.contains(x));
        if s.dom().contains(x) {
            assert(t.dom().contains(x));
            assert(agree(t, u, x));
        }
    }
    assert forall|x: u32| #[trigger] occ(s, k, d, x) <= 1 by {
        occ_single(s, p, h, x);
        assert(occ(s, seq![p], h, x) <= 1);
    }
    assert forall|j: int| 0 <= j < k.len() && !(lo <= j < hi) implies ok(
        u,
        #[trigger] k[j],
        d,
        m,
        false,
    ) && max_key(u, k[j], d) == max_key(s, k[j], d) && (full(s, k[j], d) ==> full(u, k[j], d)) by {
        assert(ok(s, k[j], d, m, false));
        assert forall|x: u32| #[trigger] occ(s, seq![k[j]], d, x) > 0 implies agree(s, u, x) by {
            if j < lo {
                around(s, ka, j, d);
                assert(ka[j] == k[j]);
                assert(occ(s, k, d, x) > 0 && occ(s, kb, d, x) == 0);
            } else {
                around(s, kc, j - hi, d);
                assert(kc[j - hi] == k[j]);
                assert(occ(s, k, d, x) > 0 && occ(s, kb, d, x) == 0);
            }
        }
        frame_ok(s, u, k[j], d, m, false);
        if full(s, k[j], d) {
            full_frame(s, u, k[j], d, m, false);
        }
    }
    assert forall|j: int| 0 <= j < ka.len() implies ok(s, #[trigger] ka[j], d, m, false) by {
        assert(ka[j] == k[j]);
    }
    assert forall|j: int| 0 <= j < kc.len() implies ok(s, #[trigger] kc[j], d, m, false) by {
        assert(kc[j] == k[hi + j]);
    }
    all_in_store(s, ka, d, m);
    all_in_store(s, kc, d, m);
    all_in_store(t, out, d, m);
    assert forall|x: u32| #[trigger] occ(s, ka, d, x) > 0 implies same_content(s[x], u[x]) by {
        assert(s.dom().contains(x));
        assert(occ(s, k, d, x) > 0 && occ(s, kb, d, x) == 0);
    }
    assert forall|x: u32| #[trigger] occ(s, kc, d, x) > 0 implies same_content(s[x], u[x]) by {
        assert(s.dom().contains(x));
        assert(occ(s, k, d, x) > 0 && occ(s, kb, d, x) == 0);
    }
    frame(s, u, ka, d);
    frame(s, u, kc, d);
    // What took the place of the children holds what it holds.
    assert forall|x: u32| #[trigger] occ(t, out, d, x) > 0 implies agree(t, u, x) by {
        assert(t.dom().contains(x));
        if x == p {
            occ_single(s, p, h, p);
            assert(occ(s, seq![p], h, p) > 0);
            assert(occ(s, k, d, p) > 0);
        }
    }
    assert forall|x: u32| #[trigger] occ(t, out, d, x) > 0 implies same_content(t[x], u[x]) by {
        assert(t.dom().contains(x));
        assert(agree(t, u, x));
    }
    frame(t, u, out, d);
    assert forall|j: int| 0 <= j < out.len() implies ok(u, #[trigger] out[j], d, m, false)
        && max_key(u, out[j], d) == max_key(t, out[j], d) && (full(t, out[j], d) ==> full(
        u,
        out[j],
        d,
    )) by {
        assert(ok(t, out[j], d, m, false));
        assert forall|x: u32| #[trigger] occ(t, seq![out[j]], d, x) > 0 implies agree(t, u, x) by {
            around(t, out, j, d);
            assert(occ(t, out, d, x) > 0);
        }
        frame_ok(t, u, out[j], d, m, false);
        if full(t, out[j], d) {
            full_frame(t, u, out[j], d, m, false);
        }
    }
    assert forall|j: int| 0 <= j < kids.len() implies ok(u, #[trigger] kids[j], d, m, false) by {
        if j < lo {
            assert(kids[j] == k[j]);
        } else if j < lo + out.len() {
            assert(kids[j] == out[j - lo]);
        } else {
            assert(kids[j] == k[j - out.len() - lo + hi]);
        }
    }
    assert forall|x: u32| #[trigger]
        occ(u, kids, d, x) == occ(s, k, d, x) - occ(s, kb, d, x) + occ(t, out, d, x) by {
        assert(occ(u, ka, d, x) == occ(s, ka, d, x));
        assert(occ(u, kc, d, x) == occ(s, kc, d, x));
        assert(occ(u, out, d, x) == occ(t, out, d, x));
    }
}

/// All pages of trees in order are in the store.
pub proof fn all_in_store(s: Store, l: Seq<u32>, h: nat, m: nat)
    requires
        forall|i: int| 0 <= i < l.len() ==> ok(s, #[trigger] l[i], h, m, false),
    ensures
        forall|x: u32| #[trigger] occ(s, l, h, x) > 0 ==> s.dom().contains(x),
    decreases h, l.len(),
{
    reveal(occ);
    if l.len() > 0 {
        let a = l.drop_last();
        let p = l[l.len() - 1];
        assert(ok(s, l[l.len() - 1], h, m, false));
        assert forall|i: int| 0 <= i < a.len() implies ok(s, #[trigger] a[i], h, m, false) by {
            assert(a[i] == l[i]);
        }
        all_in_store(s, a, h, m);
        if h > 0 {
            all_in_store(s, s[p].kids, (h - 1) as nat, m);
        }
        assert forall|x: u32| #[trigger] occ(s, l, h, x) > 0 implies s.dom().contains(x) by {
            if occ(s, a, h, x) == 0 && x != p {
                assert(occ(s, s[p].kids, (h - 1) as nat, x) > 0);
            }
        }
    }
}

// -- Links -----------------------------------------------------

/// Links rest on the pages of the list alone.
pub proof fn linked_frame(s: Store, t: Store, l: Seq<u32>)
    requires
        linked(s, l),
        forall|i: int|
            0 <= i < l.len() ==> t.dom().contains(#[trigger] l[i]) && t[l[i]] == s[l[i]],
    ensures
        linked(t, l),
{
    reveal(linked);
    assert forall|i: int| 0 <= i < l.len() implies ({
        &&& t.dom().contains(#[trigger] l[i])
        &&& t[l[i]].leaf
        &&& node_fits(t[l[i]])
        &&& t[l[i]].left == (if i > 0 {
            l[i - 1]
        } else {
            0
        })
        &&& t[l[i]].right == (if i + 1 < l.len() {
            l[i + 1]
        } else {
            0
        })
    }) by {
        assert(s.dom().contains(l[i]));
    }
}

proof fn insert_distinct(l: Seq<u32>, n: int, y: u32)
    requires
        l.no_duplicates(),
        0 <= n <= l.len(),
        !l.contains(y),
    ensures
        l.insert(n, y).no_duplicates(),
{
    let k = l.insert(n, y);
    assert forall|i: int, j: int| 0 <= i < k.len() && 0 <= j < k.len() && i != j implies k[i]
        != k[j] by {
        let u = if i < n {
            i
        } else {
            i - 1
        };
        let v = if j < n {
            j
        } else {
            j - 1
        };
        if i != n {
            assert(k[i] == l[u]);
            assert(l.contains(l[u]));
        }
        if j != n {
            assert(k[j] == l[v]);
            assert(l.contains(l[v]));
        }
    }
}

/// A new page `y` behind the page at `n` of a list.
pub proof fn linked_after(s: Store, t: Store, l: Seq<u32>, n: int, y: u32)
    requires
        linked(s, l),
        0 <= n < l.len(),
        !l.contains(y),
        t.dom().contains(l[n]),
        t.dom().contains(y),
        t[l[n]].leaf,
        t[y].leaf,
        node_fits(t[l[n]]),
        node_fits(t[y]),
        t[l[n]].left == s[l[n]].left,
        t[l[n]].right == y,
        t[y].left == l[n],
        t[y].right == s[l[n]].right,
        forall|i: int|
            0 <= i < l.len() && i != n && i != n + 1 ==> t.dom().contains(#[trigger] l[i])
                && t[l[i]] == s[l[i]],
        n + 1 < l.len() ==> t.dom().contains(l[n + 1]) && t[l[n + 1]].leaf && node_fits(
            t[l[n + 1]],
        ) && t[l[n + 1]].left == y && t[l[n + 1]].right == s[l[n + 1]].right,
    ensures
        linked(t, l.insert(n + 1, y)),
{
    reveal(linked);
    let k = l.insert(n + 1, y);
    insert_distinct(l, n + 1, y);
    assert forall|i: int| 0 <= i < k.len() implies ({
        &&& t.dom().contains(#[trigger] k[i])
        &&& t[k[i]].leaf
        &&& node_fits(t[k[i]])
        &&& t[k[i]].left == (if i > 0 {
            k[i - 1]
        } else {
            0
        })
        &&& t[k[i]].right == (if i + 1 < k.len() {
            k[i + 1]
        } else {
            0
        })
    }) by {
        if i <= n {
            assert(k[i] == l[i]);
            assert(s.dom().contains(l[i]));
        } else if i == n + 1 {
            assert(s.dom().contains(l[n]));
        } else {
            assert(k[i] == l[i - 1]);
            assert(s.dom().contains(l[i - 1]));
        }
    }
}

// -- One level up ----------------------------------------------

/// What changes above a child: page `p`, free pages, and links of inner nodes.
pub open spec fn only_parent(t: Store, g: Set<u32>, u: Store, p: u32) -> bool {
    forall|x: u32| #![trigger u.dom().contains(x)] #![trigger t.dom().contains(x)]
        x != p && !g.contains(x) && t.dom().contains(x) ==> {
            &&& u.dom().contains(x)
            &&& same_content(t[x], u[x])
            &&& t[x].leaf ==> u[x] == t[x]
        }
}

/// The children of a node once the entry is in one of them.
#[verifier::rlimit(40)]
pub proof fn up(
    s: Store,
    f: Set<u32>,
    t: Store,
    g: Set<u32>,
    u: Store,
    p: u32,
    h: nat,
    m: nat,
    top: bool,
    pre: Seq<u32>,
    suf: Seq<u32>,
    c: CellView,
    out: Seq<u32>,
    kids: Seq<u32>,
)
    requires
        placed(s, f, p, h, m, top, pre, suf),
        h > 0,
        m >= 1,
        ({
            let i = child_index(s[p], c.0);
            &&& inserted(
                s,
                f,
                t,
                g,
                s[p].kids[i],
                (h - 1) as nat,
                pre_of(s, p, h, i, pre),
                suf_of(s, p, h, i, suf),
                out,
                c,
            )
            &&& kids == s[p].kids.take(i) + out + s[p].kids.skip(i + 1)
        }),
        all_ok(t, out, (h - 1) as nat, m),
        only_parent(t, g, u, p),
    ensures
        entries(u, kids, (h - 1) as nat) == with_cell(entries(s, seq![p], h), c),
        !has_key(entries(s, seq![p], h), c.0),
        forall|x: u32| #[trigger]
            occ(u, kids, (h - 1) as nat, x) == occ(s, s[p].kids, (h - 1) as nat, x) + taken(
                f,
                g,
                x,
            ),
        all_ok(u, kids, (h - 1) as nat, m),
        occ(u, kids, (h - 1) as nat, p) == 0,
        linked(u, pre + level(u, kids, (h - 1) as nat) + suf),
        kept(s, f, u, p, h, pre, suf),
        forall|j: int|
            0 <= j < s[p].kids.len() && j != child_index(s[p], c.0) ==> max_key(
                u,
                #[trigger] s[p].kids[j],
                (h - 1) as nat,
            ) == max_key(s, s[p].kids[j], (h - 1) as nat) && (full(
                s,
                s[p].kids[j],
                (h - 1) as nat,
            ) ==> full(u, s[p].kids[j], (h - 1) as nat)),
        forall|j: int|
            0 <= j < out.len() ==> max_key(u, #[trigger] out[j], (h - 1) as nat) == max_key(
                t,
                out[j],
                (h - 1) as nat,
            ) && (full(t, out[j], (h - 1) as nat) ==> full(u, out[j], (h - 1) as nat)),
{
    let k = s[p].kids;
    let d = (h - 1) as nat;
    let i = child_index(s[p], c.0);
    let ch = k[i];
    let pre2 = pre_of(s, p, h, i, pre);
    let suf2 = suf_of(s, p, h, i, suf);
    let ka = k.take(i);
    let kc = k.skip(i + 1);
    key_sides(s, p, h, m, top, c.0);
    child_placed(s, f, p, h, m, top, pre, suf, i);
    around(s, k, i, d);
    assert forall|x: u32| #[trigger] occ(t, out, d, x) > 0 implies occ(s, seq![ch], d, x) > 0
        || f.contains(x) by {}
    assert forall|x: u32|
        x != p && (occ(s, k, d, x) > 0 || occ(t, out, d, x) > 0) implies #[trigger] agree(
        t,
        u,
        x,
    ) by {
        occ_single(s, p, h, x);
        if occ(s, k, d, x) > 0 {
            assert(occ(s, seq![p], h, x) > 0);
            assert(!f.contains(x));
        } else {
            assert(occ(t, out, d, x) == occ(s, seq![ch], d, x) + taken(f, g, x));
            assert(occ(s, seq![ch], d, x) <= occ(s, k, d, x));
        }
        assert(!g.contains(x));
    }
    assert forall|x: u32| #[trigger] occ(s, seq![p], h, x) > 0 implies !f.contains(x) by {}
    assert(k.subrange(i, i + 1) =~= seq![ch]);
    children_replaced(s, f, t, u, p, h, m, top, i, i + 1, out, kids);
    // The entry belongs between the entries left and right of the child.
    let a = entries(s, ka, d);
    let b = entries(s, seq![ch], d);
    let e = entries(s, kc, d);
    lower_bound_middle(a, b, e, c.0);
    assert(with_cell(a + b + e, c) =~= a + with_cell(b, c) + e);
    assert(occ(u, kids, d, p) == 0) by {
        occ_single(s, p, h, p);
        assert(occ(s, seq![p], h, p) <= 1);
        assert(occ(s, seq![p], h, p) > 0);
        assert(!f.contains(p));
    }
    // Links.
    let la = level(s, ka, d);
    let lo = level(t, out, d);
    let le = level(s, kc, d);
    let whole = pre + level(u, kids, d) + suf;
    assert(whole =~= pre2 + lo + suf2);
    assert forall|j: int| 0 <= j < whole.len() implies u.dom().contains(#[trigger] whole[j])
        && u[whole[j]] == t[whole[j]] by {
        reveal(linked);
        let x = whole[j];
        assert(t.dom().contains((pre2 + lo + suf2)[j]));
        assert(t[x].leaf);
        if j < pre2.len() {
            assert(pre2[j] == x);
            assert(pre2.contains(x));
            assert(occ(s, seq![ch], d, x) == 0);
        } else if j < pre2.len() + lo.len() {
            leaf_occurs(t, out, d, j - pre2.len());
            assert(occ(t, out, d, x) == occ(s, seq![ch], d, x) + taken(f, g, x));
            if occ(s, seq![ch], d, x) > 0 {
                assert(!f.contains(x));
            }
        } else {
            assert(suf2[j - pre2.len() - lo.len()] == x);
            assert(suf2.contains(x));
            assert(occ(s, seq![ch], d, x) == 0);
        }
        assert(!g.contains(x));
        if x == p {
            // An inner node is no leaf of the list.
            parent_not_linked(s, f, t, g, p, h, m, top, pre, suf, i, out, c);
            assert(t.dom().contains(p) && !t[p].leaf);
        }
    }
    linked_frame(t, u, whole);
    // The rest is as it was.
    assert forall|x: u32| #![trigger u.dom().contains(x)] #![trigger s.dom().contains(x)]
        occ(s, seq![p], h, x) == 0 && !f.contains(x) && s.dom().contains(x) implies ({
        &&& u.dom().contains(x)
        &&& same_content(s[x], u[x])
        &&& s[x].leaf && !pre.contains(x) && !suf.contains(x) ==> u[x] == s[x]
    }) by {
        assert(occ(s, seq![ch], d, x) <= occ(s, seq![p], h, x));
        assert(t.dom().contains(x));
        occ_single(s, p, h, x);
        assert(x != p);
        assert(!g.contains(x));
        assert(u.dom().contains(x));
        if s[x].leaf && !pre.contains(x) && !suf.contains(x) {
            if pre2.contains(x) {
                let j = choose|j: int| 0 <= j < pre2.len() && pre2[j] == x;
                if j < pre.len() {
                    assert(pre[j] == x);
                } else {
                    leaf_occurs(s, ka, d, j - pre.len());
                }
            }
            if suf2.contains(x) {
                let j = choose|j: int| 0 <= j < suf2.len() && suf2[j] == x;
                if j < le.len() {
                    leaf_occurs(s, kc, d, j);
                } else {
                    assert(suf[j - le.len()] == x);
                }
            }
        }
    }
}

/// The page of an inner node stays one while a child changes.
proof fn parent_not_linked(
    s: Store,
    f: Set<u32>,
    t: Store,
    g: Set<u32>,
    p: u32,
    h: nat,
    m: nat,
    top: bool,
    pre: Seq<u32>,
    suf: Seq<u32>,
    i: int,
    out: Seq<u32>,
    c: CellView,
)
    requires
        placed(s, f, p, h, m, top, pre, suf),
        h > 0,
        0 <= i < s[p].kids.len(),
        inserted(
            s,
            f,
            t,
            g,
            s[p].kids[i],
            (h - 1) as nat,
            pre_of(s, p, h, i, pre),
            suf_of(s, p, h, i, suf),
            out,
            c,
        ),
    ensures
        t.dom().contains(p),
        same_content(s[p], t[p]),
        !t[p].leaf,
{
    child_placed(s, f, p, h, m, top, pre, suf, i);
    occ_single(s, p, h, p);
    assert(occ(s, seq![p], h, p) > 0);
    assert(s.dom().contains(p));
}

/// The keys of an inner node once `key` is below it: where it is larger than
/// all of them, it is the last one's new value.
pub open spec fn raised(n: NodeView, key: DataView) -> Seq<CellView> {
    if lower_bound(n.cells, key) >= n.kids.len() {
        n.cells.update(n.kids.len() - 1, (key, seq![]))
    } else {
        n.cells
    }
}

/// What comes of writing cells to a page: none where no page holds them. They are
/// halved where they are too many; the last key of the left half is given then.
pub open spec fn written_cells(cells: Seq<CellView>, m: nat) -> Option<Option<DataView>> {
    let half = (cells.len() / 2) as int;
    if cells.len() < 2 * m {
        if page_holds(cells) {
            Some(None)
        } else {
            None
        }
    } else if page_holds(cells.take(half)) && page_holds(cells.skip(half)) {
        Some(Some(cells[half - 1].0))
    } else {
        None
    }
}

/// Whether cells are halved into two parts.
#[verifier::opaque]
pub open spec fn are_halves(cells: Seq<CellView>, a: Seq<CellView>, b: Seq<CellView>) -> bool {
    let half = (cells.len() / 2) as int;
    a == cells.take(half) && b == cells.skip(half)
}

/// What comes of putting an entry below page `p`: none where a page that is written
/// does not hold its cells; the last key of the left half where `p` is halved.
pub open spec fn room(s: Store, p: u32, h: nat, c: CellView, m: nat) -> Option<Option<DataView>>
    decreases h,
{
    let n = s[p];
    if h == 0 {
        written_cells(with_cell(n.cells, c), m)
    } else {
        let i = child_index(n, c.0);
        match room(s, n.kids[i], (h - 1) as nat, c, m) {
            None => None,
            Some(None) => if page_holds(raised(n, c.0)) {
                Some(None)
            } else {
                None
            },
            Some(Some(k)) => written_cells(raised(n, c.0).insert(i, (k, seq![])), m),
        }
    }
}

/// The cells that page `p` is to hold once an entry is put below it.
#[verifier::opaque]
pub open spec fn filled(s: Store, p: u32, h: nat, c: CellView, m: nat) -> Seq<CellView> {
    let n = s[p];
    if h == 0 {
        with_cell(n.cells, c)
    } else {
        let i = child_index(n, c.0);
        match room(s, n.kids[i], (h - 1) as nat, c, m) {
            Some(Some(k)) => raised(n, c.0).insert(i, (k, seq![])),
            _ => raised(n, c.0),
        }
    }
}

/// Number of pages below `p`, with it, that are halved by putting an entry there.
pub open spec fn halved(s: Store, p: u32, h: nat, c: CellView, m: nat) -> nat
    decreases h,
{
    let here: nat = if room(s, p, h, c, m) matches Some(Some(_)) {
        1
    } else {
        0
    };
    if h == 0 {
        here
    } else {
        here + halved(s, s[p].kids[child_index(s[p], c.0)], (h - 1) as nat, c, m)
    }
}

/// What comes of putting an entry into a tree rests on its pages alone.
pub proof fn room_frame(s: Store, t: Store, p: u32, h: nat, c: CellView, m: nat, top: bool)
    requires
        ok(s, p, h, m, top),
        m >= 1,
        forall|x: u32| #[trigger] occ(s, seq![p], h, x) > 0 ==> agree(s, t, x),
    ensures
        room(t, p, h, c, m) == room(s, p, h, c, m),
        halved(t, p, h, c, m) == halved(s, p, h, c, m),
    decreases h,
{
    occ_single(s, p, h, p);
    assert(occ(s, seq![p], h, p) > 0);
    assert(agree(s, t, p));
    if h > 0 {
        let d = (h - 1) as nat;
        let k = s[p].kids;
        let i = child_index(s[p], c.0);
        assert(0 <= i < k.len());
        assert(ok(s, k[i], d, m, false));
        assert forall|x: u32| #[trigger] occ(s, seq![k[i]], d, x) > 0 implies agree(s, t, x) by {
            around(s, k, i, d);
            occ_single(s, p, h, x);
            assert(occ(s, seq![p], h, x) > 0);
        }
        room_frame(s, t, k[i], d, c, m, false);
    }
}

/// At most one page of each level is halved.
pub proof fn halved_bound(s: Store, p: u32, h: nat, c: CellView, m: nat)
    ensures
        halved(s, p, h, c, m) <= h + 1,
    decreases h,
{
    if h > 0 {
        halved_bound(s, s[p].kids[child_index(s[p], c.0)], (h - 1) as nat, c, m);
    }
}

/// Whether cells have the largest keys of the children at their places.
pub open spec fn exact(u: Store, cells: Seq<CellView>, kids: Seq<u32>, d: nat) -> bool {
    forall|j: int| 0 <= j < cells.len() ==> (#[trigger] cells[j]).0 == max_key(u, kids[j], d)
}

/// The last key below a child once the entry is in it.
proof fn raised_key(
    s: Store,
    f: Set<u32>,
    t: Store,
    g: Set<u32>,
    p: u32,
    h: nat,
    m: nat,
    top: bool,
    pre: Seq<u32>,
    suf: Seq<u32>,
    c: CellView,
    out: Seq<u32>,
)
    requires
        placed(s, f, p, h, m, top, pre, suf),
        h > 0,
        m >= 1,
        ({
            let i = child_index(s[p], c.0);
            inserted(
                s,
                f,
                t,
                g,
                s[p].kids[i],
                (h - 1) as nat,
                pre_of(s, p, h, i, pre),
                suf_of(s, p, h, i, suf),
                out,
                c,
            )
        }),
        out.len() > 0,
        all_ok(t, out, (h - 1) as nat, m),
    ensures
        ({
            let i = child_index(s[p], c.0);
            i < s[p].cells.len() ==> raised(s[p], c.0)[i].0 == max_key(
                t,
                out.last(),
                (h - 1) as nat,
            )
        }),
{
    let d = (h - 1) as nat;
    let i = child_index(s[p], c.0);
    let ch = s[p].kids[i];
    key_sides(s, p, h, m, top, c.0);
    let b = entries(s, seq![ch], d);
    last_with_cell(b, c);
    let q = out[out.len() - 1];
    assert(ok(t, out[out.len() - 1], d, m, false));
    max_is_last(t, q, d, m, false);
    around(t, out, out.len() - 1, d);
    assert(out.skip(out.len() as int) =~= seq![]);
    no_trees(t, d);
    assert(entries(t, out, d).last() == entries(t, seq![q], d).last());
    if i < s[p].cells.len() {
        assert(s[p].cells[i].0 == max_key(s, ch, d));
    }
}

/// An inner node of which one child took the entry and stayed one.
#[verifier::rlimit(40)]
pub proof fn up_done(
    s: Store,
    f: Set<u32>,
    t: Store,
    g: Set<u32>,
    u: Store,
    p: u32,
    h: nat,
    m: nat,
    top: bool,
    pre: Seq<u32>,
    suf: Seq<u32>,
    c: CellView,
)
    requires
        placed(s, f, p, h, m, top, pre, suf),
        h > 0,
        m >= 1,
        ({
            let i = child_index(s[p], c.0);
            let ch = s[p].kids[i];
            &&& inserted(
                s,
                f,
                t,
                g,
                ch,
                (h - 1) as nat,
                pre_of(s, p, h, i, pre),
                suf_of(s, p, h, i, suf),
                seq![ch],
                c,
            )
            &&& ok(t, ch, (h - 1) as nat, m, false)
            &&& full(s, ch, (h - 1) as nat) ==> full(t, ch, (h - 1) as nat)
        }),
        only_parent(t, g, u, p),
        u.dom().contains(p),
        !u[p].leaf,
        u[p].kids == s[p].kids,
        u[p].cells == raised(s[p], c.0),
        page_holds(u[p].cells),
    ensures
        inserted(s, f, u, g, p, h, pre, suf, seq![p], c),
        ok(u, p, h, m, top),
        full(s, p, h) ==> full(u, p, h),
{
    let k = s[p].kids;
    let d = (h - 1) as nat;
    let i = child_index(s[p], c.0);
    let ch = k[i];
    let out = seq![ch];
    assert(k =~= k.take(i) + out + k.skip(i + 1));
    assert(all_ok(t, out, d, m));
    key_sides(s, p, h, m, top, c.0);
    up(s, f, t, g, u, p, h, m, top, pre, suf, c, out, k);
    raised_key(s, f, t, g, p, h, m, top, pre, suf, c, out);
    single(u, p, h);
    assert forall|x: u32| #[trigger]
        occ(u, seq![p], h, x) == occ(s, seq![p], h, x) + taken(f, g, x) by {
        occ_single(s, p, h, x);
        occ_single(u, p, h, x);
    }
    let n = u[p];
    assert(out[0] == ch);
    assert forall|j: int| 0 <= j < n.cells.len() implies (#[trigger] n.cells[j]).0 == max_key(
        u,
        n.kids[j],
        d,
    ) && n.cells[j].1.len() == 0 by {
        assert(s[p].cells[j].0 == max_key(s, k[j], d));
        if j != i {
            assert(max_key(u, k[j], d) == max_key(s, k[j], d));
        }
    }
    assert forall|j: int| 0 <= j < k.len() && full(s, #[trigger] k[j], d) implies full(
        u,
        k[j],
        d,
    ) by {
        if j == i {
            assert(full(t, out[0], d) ==> full(u, out[0], d));
        }
    }
}

/// The cells of an inner node of which one child was split.
#[verifier::rlimit(40)]
pub proof fn up_cells(
    s: Store,
    f: Set<u32>,
    t: Store,
    g: Set<u32>,
    u: Store,
    p: u32,
    h: nat,
    m: nat,
    top: bool,
    pre: Seq<u32>,
    suf: Seq<u32>,
    c: CellView,
    q: u32,
    cells: Seq<CellView>,
    kids: Seq<u32>,
)
    requires
        placed(s, f, p, h, m, top, pre, suf),
        h > 0,
        m >= 1,
        ({
            let i = child_index(s[p], c.0);
            let ch = s[p].kids[i];
            &&& inserted(
                s,
                f,
                t,
                g,
                ch,
                (h - 1) as nat,
                pre_of(s, p, h, i, pre),
                suf_of(s, p, h, i, suf),
                seq![ch, q],
                c,
            )
            &&& ok(t, ch, (h - 1) as nat, m, false)
            &&& ok(t, q, (h - 1) as nat, m, false)
            &&& full(t, ch, (h - 1) as nat)
            &&& full(s, ch, (h - 1) as nat) ==> full(t, q, (h - 1) as nat)
            &&& kids == s[p].kids.insert(i + 1, q)
            &&& cells == raised(s[p], c.0).insert(i, (max_key(t, ch, (h - 1) as nat), seq![]))
        }),
        only_parent(t, g, u, p),
    ensures
        entries(u, kids, (h - 1) as nat) == with_cell(entries(s, seq![p], h), c),
        !has_key(entries(s, seq![p], h), c.0),
        forall|x: u32| #[trigger]
            occ(u, kids, (h - 1) as nat, x) == occ(s, s[p].kids, (h - 1) as nat, x) + taken(
                f,
                g,
                x,
            ),
        all_ok(u, kids, (h - 1) as nat, m),
        occ(u, kids, (h - 1) as nat, p) == 0,
        linked(u, pre + level(u, kids, (h - 1) as nat) + suf),
        kept(s, f, u, p, h, pre, suf),
        exact(u, cells, kids, (h - 1) as nat),
        even(u, kids, (h - 1) as nat),
        full(s, p, h) ==> forall|j: int|
            0 <= j < kids.len() ==> full(u, #[trigger] kids[j], (h - 1) as nat),
        values_empty(cells),
        cells.len() == s[p].cells.len() + 1,
        kids.len() == s[p].kids.len() + 1,
        kids.last() != 0,
{
    let k = s[p].kids;
    let d = (h - 1) as nat;
    let i = child_index(s[p], c.0);
    let ch = k[i];
    let out = seq![ch, q];
    key_sides(s, p, h, m, top, c.0);
    assert(kids =~= k.take(i) + out + k.skip(i + 1));
    assert forall|j: int| 0 <= j < out.len() implies ok(t, #[trigger] out[j], d, m, false) by {}
    up(s, f, t, g, u, p, h, m, top, pre, suf, c, out, kids);
    raised_key(s, f, t, g, p, h, m, top, pre, suf, c, out);
    assert(out[0] == ch && out[1] == q && out.last() == q);
    assert(h > 1 || t[ch].cells.len() > 0);
    let r = raised(s[p], c.0);
    assert forall|j: int| 0 <= j < cells.len() implies (#[trigger] cells[j]).0 == max_key(
        u,
        kids[j],
        d,
    ) && cells[j].1.len() == 0 by {
        if j < i {
            assert(cells[j] == r[j]);
            assert(s[p].cells[j].0 == max_key(s, k[j], d));
            assert(max_key(u, k[j], d) == max_key(s, k[j], d));
        } else if j == i {
        } else {
            assert(cells[j] == r[j - 1]);
            assert(s[p].cells[j - 1].0 == max_key(s, k[j - 1], d));
            if j - 1 != i {
                assert(max_key(u, k[j - 1], d) == max_key(s, k[j - 1], d));
                assert(kids[j] == k[j - 1]);
            } else {
                assert(kids[j] == q);
            }
        }
    }
    assert forall|j: int| 0 <= j < kids.len() && (j < kids.len() - 1 || full(s, p, h)) implies full(
        u,
        #[trigger] kids[j],
        d,
    ) by {
        if j < i {
            assert(kids[j] == k[j]);
            assert(full(s, k[j], d));
        } else if j == i {
            assert(full(t, out[0], d) ==> full(u, out[0], d));
        } else if j == i + 1 {
            assert(full(s, k[i], d));
            assert(full(t, out[1], d) ==> full(u, out[1], d));
        } else {
            assert(kids[j] == k[j - 1]);
            assert(full(s, k[j - 1], d));
        }
    }
    assert(kids.last() != 0) by {
        let z = kids[kids.len() - 1];
        member_occurs(u, kids, d, kids.len() - 1);
        assert(occ(u, kids, d, z) == occ(s, k, d, z) + taken(f, g, z));
        occ_single(s, p, h, z);
        if occ(s, k, d, z) > 0 {
            assert(occ(s, seq![p], h, z) > 0);
        }
    }
}

/// An inner node over trees in order, with their largest keys, is in order.
pub proof fn inner_ok(u: Store, p: u32, h: nat, m: nat, top: bool)
    requires
        h > 0,
        m >= 1,
        u.dom().contains(p),
        !u[p].leaf,
        all_ok(u, u[p].kids, (h - 1) as nat, m),
        exact(u, u[p].cells, u[p].kids, (h - 1) as nat),
        even(u, u[p].kids, (h - 1) as nat),
        values_empty(u[p].cells),
        u[p].cells.len() < 2 * m,
        !top ==> u[p].cells.len() >= m,
        u[p].kids.len() >= 2,
        u[p].kids.len() == u[p].cells.len() || (u[p].kids.len() == u[p].cells.len() + 1
            && u[p].kids.last() != 0),
        page_holds(u[p].cells),
    ensures
        ok(u, p, h, m, top),
{
}

/// An inner node of which one child was split, and which has room for it.
pub proof fn up_wider(
    s: Store,
    f: Set<u32>,
    t: Store,
    g: Set<u32>,
    u: Store,
    p: u32,
    h: nat,
    m: nat,
    top: bool,
    pre: Seq<u32>,
    suf: Seq<u32>,
    c: CellView,
    q: u32,
)
    requires
        placed(s, f, p, h, m, top, pre, suf),
        h > 0,
        m >= 1,
        ({
            let i = child_index(s[p], c.0);
            let ch = s[p].kids[i];
            &&& inserted(
                s,
                f,
                t,
                g,
                ch,
                (h - 1) as nat,
                pre_of(s, p, h, i, pre),
                suf_of(s, p, h, i, suf),
                seq![ch, q],
                c,
            )
            &&& ok(t, ch, (h - 1) as nat, m, false)
            &&& ok(t, q, (h - 1) as nat, m, false)
            &&& full(t, ch, (h - 1) as nat)
            &&& full(s, ch, (h - 1) as nat) ==> full(t, q, (h - 1) as nat)
            &&& u[p].kids == s[p].kids.insert(i + 1, q)
            &&& u[p].cells == raised(s[p], c.0).insert(
                i,
                (max_key(t, ch, (h - 1) as nat), seq![]),
            )
        }),
        only_parent(t, g, u, p),
        u.dom().contains(p),
        !u[p].leaf,
        u[p].cells.len() < 2 * m,
        page_holds(u[p].cells),
    ensures
        inserted(s, f, u, g, p, h, pre, suf, seq![p], c),
        ok(u, p, h, m, top),
        full(s, p, h) ==> full(u, p, h),
{
    up_cells(s, f, t, g, u, p, h, m, top, pre, suf, c, q, u[p].cells, u[p].kids);
    single(u, p, h);
    assert forall|x: u32| #[trigger]
        occ(u, seq![p], h, x) == occ(s, seq![p], h, x) + taken(f, g, x) by {
        occ_single(s, p, h, x);
        occ_single(u, p, h, x);
    }
    inner_ok(u, p, h, m, top);
}

/// An inner node of which one child was split, and which was split itself.
#[verifier::rlimit(40)]
pub proof fn up_split(
    s: Store,
    f: Set<u32>,
    t: Store,
    g: Set<u32>,
    u: Store,
    p: u32,
    h: nat,
    m: nat,
    top: bool,
    pre: Seq<u32>,
    suf: Seq<u32>,
    c: CellView,
    q: u32,
    y: u32,
    cells: Seq<CellView>,
    kids: Seq<u32>,
)
    requires
        placed(s, f, p, h, m, top, pre, suf),
        h > 0,
        m >= 2,
        ({
            let i = child_index(s[p], c.0);
            let ch = s[p].kids[i];
            &&& inserted(
                s,
                f,
                t,
                g,
                ch,
                (h - 1) as nat,
                pre_of(s, p, h, i, pre),
                suf_of(s, p, h, i, suf),
                seq![ch, q],
                c,
            )
            &&& ok(t, ch, (h - 1) as nat, m, false)
            &&& ok(t, q, (h - 1) as nat, m, false)
            &&& full(t, ch, (h - 1) as nat)
            &&& full(s, ch, (h - 1) as nat) ==> full(t, q, (h - 1) as nat)
            &&& kids == s[p].kids.insert(i + 1, q)
            &&& cells == raised(s[p], c.0).insert(i, (max_key(t, ch, (h - 1) as nat), seq![]))
        }),
        only_parent(t, g, u, p),
        cells.len() >= 2 * m,
        g.contains(y),
        u.dom().contains(p),
        u.dom().contains(y),
        !u[p].leaf,
        !u[y].leaf,
        u[p].cells == cells.take((cells.len() / 2) as int),
        u[p].kids == kids.take((cells.len() / 2) as int),
        u[y].cells == cells.skip((cells.len() / 2) as int),
        u[y].kids == kids.skip((cells.len() / 2) as int),
        page_holds(u[p].cells),
        page_holds(u[y].cells),
    ensures
        inserted(s, f, u, g.remove(y), p, h, pre, suf, seq![p, y], c),
        ok(u, p, h, m, false),
        ok(u, y, h, m, false),
        max_key(u, p, h) == cells[cells.len() / 2 - 1].0,
        full(u, p, h),
        full(s, p, h) ==> full(u, y, h),
{
    let d = (h - 1) as nat;
    let sp = (cells.len() / 2) as int;
    let k = s[p].kids;
    up_cells(s, f, t, g, u, p, h, m, top, pre, suf, c, q, cells, kids);
    assert(cells.len() == 2 * m);
    assert(kids =~= kids.take(sp) + kids.skip(sp));
    assert(seq![p, y] =~= seq![p] + seq![y]);
    single(u, p, h);
    single(u, y, h);
    entries_concat(u, seq![p], seq![y], h);
    entries_concat(u, kids.take(sp), kids.skip(sp), d);
    level_concat(u, seq![p], seq![y], h);
    level_concat(u, kids.take(sp), kids.skip(sp), d);
    let g2 = g.remove(y);
    let both = seq![p, y];
    assert forall|x: u32| #[trigger]
        occ(u, both, h, x) == occ(s, seq![p], h, x) + taken(f, g2, x) by {
        occ_concat(u, seq![p], seq![y], h, x);
        occ_single(u, p, h, x);
        occ_single(u, y, h, x);
        occ_concat(u, kids.take(sp), kids.skip(sp), d, x);
        occ_single(s, p, h, x);
    }
    assert forall|j: int| 0 <= j < u[p].kids.len() implies ok(u, #[trigger] u[p].kids[j], d, m, false) by {
        assert(u[p].kids[j] == kids[j]);
    }
    assert forall|j: int| 0 <= j < u[y].kids.len() implies ok(u, #[trigger] u[y].kids[j], d, m, false) by {
        assert(u[y].kids[j] == kids[sp + j]);
    }
    assert forall|j: int| 0 <= j < u[p].cells.len() implies (#[trigger] u[p].cells[j]).0 == max_key(
        u,
        u[p].kids[j],
        d,
    ) && u[p].cells[j].1.len() == 0 by {
        assert(u[p].cells[j] == cells[j]);
    }
    assert forall|j: int| 0 <= j < u[y].cells.len() implies (#[trigger] u[y].cells[j]).0 == max_key(
        u,
        u[y].kids[j],
        d,
    ) && u[y].cells[j].1.len() == 0 by {
        assert(u[y].cells[j] == cells[sp + j]);
    }
    assert(u[y].kids.last() == kids.last());
    assert forall|j: int| 0 <= j < u[p].kids.len() implies full(u, #[trigger] u[p].kids[j], d) by {
        assert(u[p].kids[j] == kids[j]);
    }
    assert forall|j: int|
        0 <= j < u[y].kids.len() && (j < u[y].kids.len() - 1 || full(s, p, h)) implies full(
        u,
        #[trigger] u[y].kids[j],
        d,
    ) by {
        assert(u[y].kids[j] == kids[sp + j]);
    }
    inner_ok(u, p, h, m, false);
    inner_ok(u, y, h, m, false);
    assert(u[p].kids.last() == kids[sp - 1]);
    assert(cells[sp - 1].0 == max_key(u, kids[sp - 1], d));
}

// -- Leaves ----------------------------------------------------

/// A leaf that has room for the entry.
pub proof fn leaf_done(
    s: Store,
    f: Set<u32>,
    u: Store,
    p: u32,
    m: nat,
    top: bool,
    pre: Seq<u32>,
    suf: Seq<u32>,
    c: CellView,
)
    requires
        placed(s, f, p, 0, m, top, pre, suf),
        !has_key(s[p].cells, c.0),
        u == s.insert(p, (NodeView { cells: with_cell(s[p].cells, c), ..s[p] })),
        node_fits(u[p]),
        s[p].cells.len() + 1 < 2 * m,
    ensures
        inserted(s, f, u, f, p, 0, pre, suf, seq![p], c),
        ok(u, p, 0, m, top),
{
    single(s, p, 0);
    single(u, p, 0);
    lower_bound_parts(s[p].cells, c.0);
    let n = u[p];
    assert forall|x: u32| #[trigger]
        occ(u, seq![p], 0, x) == occ(s, seq![p], 0, x) + taken(f, f, x) by {
        occ_single(s, p, 0, x);
        occ_single(u, p, 0, x);
    }
    let l = pre + seq![p] + suf;
    assert(linked(u, l)) by {
        reveal(linked);
        assert forall|i: int| 0 <= i < l.len() implies ({
            &&& u.dom().contains(#[trigger] l[i])
            &&& u[l[i]].leaf
            &&& node_fits(u[l[i]])
            &&& u[l[i]].left == (if i > 0 {
                l[i - 1]
            } else {
                0
            })
            &&& u[l[i]].right == (if i + 1 < l.len() {
                l[i + 1]
            } else {
                0
            })
        }) by {
            assert(s.dom().contains(l[i]));
        }
    }
    assert(kept(s, f, u, p, 0, pre, suf)) by {
        assert forall|x: u32|
            occ(s, seq![p], 0, x) == 0 implies x != p by {
            occ_single(s, p, 0, x);
        }
        occ_single(s, p, 0, p);
    }
}

/// A leaf that was split.
#[verifier::rlimit(40)]
pub proof fn leaf_split(
    s: Store,
    f: Set<u32>,
    u: Store,
    p: u32,
    m: nat,
    top: bool,
    pre: Seq<u32>,
    suf: Seq<u32>,
    c: CellView,
    y: u32,
)
    requires
        placed(s, f, p, 0, m, top, pre, suf),
        m >= 2,
        !has_key(s[p].cells, c.0),
        s[p].cells.len() + 1 >= 2 * m,
        f.contains(y),
        u.dom().contains(p),
        u.dom().contains(y),
        u[p].leaf,
        u[y].leaf,
        node_fits(u[p]),
        node_fits(u[y]),
        ({
            let e = with_cell(s[p].cells, c);
            &&& u[p].cells == e.take((e.len() / 2) as int)
            &&& u[y].cells == e.skip((e.len() / 2) as int)
        }),
        u[p].left == s[p].left,
        u[p].right == y,
        u[y].left == p,
        u[y].right == s[p].right,
        forall|x: u32| #![trigger u.dom().contains(x)] #![trigger s.dom().contains(x)]
            x != p && !f.contains(x) && s.dom().contains(x) ==> u.dom().contains(x) && u[x] == (if x
                == s[p].right && x != 0 {
                NodeView { left: y, ..s[x] }
            } else {
                s[x]
            }),
    ensures
        inserted(s, f, u, f.remove(y), p, 0, pre, suf, seq![p, y], c),
        ok(u, p, 0, m, false),
        ok(u, y, 0, m, false),
        max_key(u, p, 0) == u[p].cells.last().0,
{
    let e = with_cell(s[p].cells, c);
    let sp = (e.len() / 2) as int;
    let b = lower_bound(s[p].cells, c.0) as int;
    single(s, p, 0);
    single(u, p, 0);
    single(u, y, 0);
    lower_bound_parts(s[p].cells, c.0);
    assert(e.len() == s[p].cells.len() + 1);
    assert(s[p].cells.len() < 2 * m);
    assert(e.len() == 2 * m);
    assert(seq![p, y] =~= seq![p] + seq![y]);
    entries_concat(u, seq![p], seq![y], 0);
    level_concat(u, seq![p], seq![y], 0);
    assert(e =~= e.take(sp) + e.skip(sp));
    let g = f.remove(y);
    occ_single(s, p, 0, p);
    assert(p != y);
    let both = seq![p, y];
    assert forall|x: u32| #[trigger]
        occ(u, both, 0, x) == occ(s, seq![p], 0, x) + taken(f, g, x) by {
        occ_single(s, p, 0, x);
        occ_single(u, p, 0, x);
        occ_single(u, y, 0, x);
        occ_concat(u, seq![p], seq![y], 0, x);
    }
    let l = pre + seq![p] + suf;
    let n = pre.len() as int;
    assert(l[n] == p);
    leaf_neighbours(s, f, p, m, top, pre, suf);
    assert(!l.contains(y)) by {
        if l.contains(y) {
            let i = choose|i: int| 0 <= i < l.len() && l[i] == y;
            assert(i != n);
        }
    }
    assert forall|i: int| 0 <= i < l.len() && i != n && i != n + 1 implies u.dom().contains(
        #[trigger] l[i],
    ) && u[l[i]] == s[l[i]] by {
        assert(l[i] != p);
    }
    if n + 1 < l.len() {
        assert(l[n + 1] == suf[0]);
        assert(l[n + 1] != p && s.dom().contains(l[n + 1]));
    }
    linked_after(s, u, l, n, y);
    assert(l.insert(n + 1, y) =~= pre + seq![p, y] + suf);
    assert(kept(s, f, u, p, 0, pre, suf)) by {
        assert forall|x: u32| #![trigger u.dom().contains(x)] #![trigger s.dom().contains(x)]
            occ(s, seq![p], 0, x) == 0 && !f.contains(x) && s.dom().contains(x) implies ({
            &&& u.dom().contains(x)
            &&& same_content(s[x], u[x])
            &&& s[x].leaf && !pre.contains(x) && !suf.contains(x) ==> u[x] == s[x]
        }) by {
            occ_single(s, p, 0, x);
            if x == s[p].right && x != 0 {
                assert(n + 1 < l.len());
                assert(l[n + 1] == suf[0]);
            }
        }
    }
}

/// The neighbours of a placed leaf.
pub proof fn leaf_neighbours(
    s: Store,
    f: Set<u32>,
    p: u32,
    m: nat,
    top: bool,
    pre: Seq<u32>,
    suf: Seq<u32>,
)
    requires
        placed(s, f, p, 0, m, top, pre, suf),
    ensures
        linked(s, pre + seq![p] + suf),
        s[p].right == (if suf.len() > 0 {
            suf[0]
        } else {
            0
        }),
        suf.len() > 0 ==> s.dom().contains(suf[0]) && s[suf[0]].leaf && node_fits(s[suf[0]])
            && suf[0] != 0 && suf[0] != p && !f.contains(suf[0]),
        forall|i: int|
            0 <= i < (pre + seq![p] + suf).len() && i != pre.len() ==> {
                let x = #[trigger] (pre + seq![p] + suf)[i];
                &&& x != p
                &&& x != 0
                &&& !f.contains(x)
                &&& s.dom().contains(x)
                &&& i != pre.len() + 1 ==> x != s[p].right
            },
{
    single(s, p, 0);
    let l = pre + seq![p] + suf;
    let n = pre.len() as int;
    assert(l.no_duplicates() && chain(s, l)) by {
        reveal(linked);
    }
    assert(l[n] == p);
    assert(s.dom().contains(l[n]));
    if suf.len() > 0 {
        assert(l[n + 1] == suf[0]);
        assert(s.dom().contains(l[n + 1]));
    }
    assert forall|i: int| 0 <= i < l.len() && i != n implies ({
        let x = #[trigger] l[i];
        &&& x != p
        &&& x != 0
        &&& !f.contains(x)
        &&& s.dom().contains(x)
        &&& i != n + 1 ==> x != s[p].right
    }) by {
        let x = l[i];
        assert(l[i] != l[n]);
        assert(pre.contains(x) || suf.contains(x)) by {
            if i < n {
                assert(pre[i] == x);
            } else {
                assert(suf[i - n - 1] == x);
            }
        }
        assert(occ(s, seq![p], 0, x) == 0);
        if i != n + 1 && suf.len() > 0 {
            assert(l[i] != l[n + 1]);
        }
    }
}

} // verus!
