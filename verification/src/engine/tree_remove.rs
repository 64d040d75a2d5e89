//! Why taking an entry out of a tree keeps it in order.
use vstd::prelude::*;

use crate::engine::node::{cells_size, node_fits, page_holds, CellView, NodeView};
use crate::engine::tree::{
    agree, all_ok, around, entries, entries_concat, even, full, full_frame, frame, frame_ok,
    has_key, key_at_bound, leaf_occurs, level, level_concat, linked, lower_bound,
    lower_bound_middle, max_key, member_occurs, occ, occ_concat, occ_single, ok, same_content,
    single, slack, sorted, three, unique, values_empty, without_key, without_key_sorted, Store,
};
use crate::engine::tree_insert::{
    all_in_store, child_index, child_placed, children_replaced, exact, inner_ok,
    key_sides, kept, linked_frame, only_parent, placed, pre_of, suf_of, taken,
};
use crate::engine::value::DataView;

verus! {

/// Whether a page is the root of a tree in order, but for having too few cells
/// or a single child.
pub open spec fn relaxed(s: Store, p: u32, h: nat, m: nat) -> bool {
    let n = s[p];
    &&& s.dom().contains(p)
    &&& node_fits(n)
    &&& n.cells.len() < 2 * m
    &&& n.leaf <==> h == 0
    &&& h > 0 ==> {
        &&& n.kids.len() >= 1
        &&& values_empty(n.cells)
        &&& even(s, n.kids, (h - 1) as nat)
        &&& all_ok(s, n.kids, (h - 1) as nat, m)
        &&& exact(s, n.cells, n.kids, (h - 1) as nat)
    }
}

/// A tree in order is one with too few cells in no place.
pub proof fn ok_relaxed(s: Store, p: u32, h: nat, m: nat, top: bool)
    requires
        ok(s, p, h, m, top),
    ensures
        relaxed(s, p, h, m),
{
}

/// A tree with enough cells is in order.
pub proof fn relaxed_ok(s: Store, p: u32, h: nat, m: nat, top: bool)
    requires
        relaxed(s, p, h, m),
        !top ==> s[p].cells.len() >= m,
        h > 0 ==> s[p].kids.len() >= 2,
    ensures
        ok(s, p, h, m, top),
{
    if h > 0 {
        let n = s[p];
        assert forall|i: int| 0 <= i < n.cells.len() implies (#[trigger] n.cells[i]).0 == max_key(
            s,
            n.kids[i],
            (h - 1) as nat,
        ) by {}
    }
}

/// What taking an entry out of a tree comes to.
pub open spec fn removed(
    s: Store,
    f: Set<u32>,
    t: Store,
    g: Set<u32>,
    p: u32,
    h: nat,
    pre: Seq<u32>,
    suf: Seq<u32>,
    key: DataView,
) -> bool {
    &&& kept(s, f, t, p, h, pre, suf)
    &&& f.subset_of(g)
    &&& has_key(entries(s, seq![p], h), key)
    &&& entries(t, seq![p], h) == without_key(entries(s, seq![p], h), key)
    &&& forall|x: u32| #[trigger]
        occ(t, seq![p], h, x) + taken(g, f, x) == occ(s, seq![p], h, x)
    &&& linked(t, pre + level(t, seq![p], h) + suf)
}

/// Whether only the children from `lo` up to `hi`, free pages and links have
/// changed.
pub open spec fn kept_around(
    s: Store,
    f: Set<u32>,
    v: Store,
    l: Seq<u32>,
    d: nat,
    pre: Seq<u32>,
    suf: Seq<u32>,
) -> bool {
    forall|x: u32| #![trigger v.dom().contains(x)] #![trigger s.dom().contains(x)]
        occ(s, l, d, x) == 0 && !f.contains(x) && s.dom().contains(x) ==> {
            &&& v.dom().contains(x)
            &&& same_content(s[x], v[x])
            &&& s[x].leaf && !pre.contains(x) && !suf.contains(x) ==> v[x] == s[x]
        }
}

/// The children of a node once those from `lo` up to `hi` have given way to
/// `out`.
#[verifier::rlimit(60)]
pub proof fn range_up(
    s: Store,
    f: Set<u32>,
    v: Store,
    g: Set<u32>,
    u: Store,
    p: u32,
    h: nat,
    m: nat,
    top: bool,
    pre: Seq<u32>,
    suf: Seq<u32>,
    lo: int,
    hi: int,
    out: Seq<u32>,
    kids: Seq<u32>,
)
    requires
        placed(s, f, p, h, m, top, pre, suf),
        h > 0,
        m >= 1,
        0 <= lo <= hi <= s[p].kids.len(),
        kids == s[p].kids.take(lo) + out + s[p].kids.skip(hi),
        ({
            let d = (h - 1) as nat;
            let l = s[p].kids.subrange(lo, hi);
            let pre2 = pre + level(s, s[p].kids.take(lo), d);
            let suf2 = level(s, s[p].kids.skip(hi), d) + suf;
            &&& kept_around(s, f, v, l, d, pre2, suf2)
            &&& forall|x: u32| #[trigger] occ(v, out, d, x) + taken(g, f, x) == occ(s, l, d, x)
            &&& linked(v, pre2 + level(v, out, d) + suf2)
            &&& all_ok(v, out, d, m)
        }),
        f.subset_of(g),
        only_parent(v, g, u, p),
    ensures
        entries(u, kids, (h - 1) as nat) == entries(s, s[p].kids.take(lo), (h - 1) as nat)
            + entries(v, out, (h - 1) as nat) + entries(s, s[p].kids.skip(hi), (h - 1) as nat),
        forall|x: u32| #[trigger]
            occ(u, kids, (h - 1) as nat, x) + taken(g, f, x) == occ(
                s,
                s[p].kids,
                (h - 1) as nat,
                x,
            ),
        all_ok(u, kids, (h - 1) as nat, m),
        linked(u, pre + level(u, kids, (h - 1) as nat) + suf),
        kept(s, f, u, p, h, pre, suf),
        !g.contains(p),
        forall|j: int|
            0 <= j < s[p].kids.len() && !(lo <= j < hi) ==> max_key(
                u,
                #[trigger] s[p].kids[j],
                (h - 1) as nat,
            ) == max_key(s, s[p].kids[j], (h - 1) as nat) && (full(
                s,
                s[p].kids[j],
                (h - 1) as nat,
            ) ==> full(u, s[p].kids[j], (h - 1) as nat)),
        forall|j: int|
            0 <= j < out.len() ==> max_key(u, #[trigger] out[j], (h - 1) as nat) == max_key(
                v,
                out[j],
                (h - 1) as nat,
            ) && (full(v, out[j], (h - 1) as nat) ==> full(u, out[j], (h - 1) as nat)),
{
    let k = s[p].kids;
    let d = (h - 1) as nat;
    let ka = k.take(lo);
    let kb = k.subrange(lo, hi);
    let kc = k.skip(hi);
    let pre2 = pre + level(s, ka, d);
    let suf2 = level(s, kc, d) + suf;
    assert(k =~= ka + kb + kc);
    three(s, ka, kb, kc, d);
    occ_single(s, p, h, p);
    assert(occ(s, seq![p], h, p) > 0);
    assert(occ(s, seq![p], h, p) <= 1);
    assert(occ(s, k, d, p) == 0);
    assert(!g.contains(p)) by {
        assert(occ(v, out, d, p) + taken(g, f, p) == occ(s, kb, d, p));
    }
    assert forall|x: u32| #[trigger] occ(s, k, d, x) <= 1 && (occ(s, k, d, x) > 0 ==> !f.contains(
        x,
    ) && x != 0) by {
        occ_single(s, p, h, x);
        assert(occ(s, seq![p], h, x) <= 1);
        if occ(s, k, d, x) > 0 {
            assert(occ(s, seq![p], h, x) > 0);
        }
    }
    // Pages that stay are not free.
    assert forall|x: u32|
        (occ(s, k, d, x) > 0 && occ(s, kb, d, x) == 0) || #[trigger] occ(v, out, d, x)
            > 0 implies !g.contains(x) && x != p by {
        assert(occ(v, out, d, x) + taken(g, f, x) == occ(s, kb, d, x));
        assert(occ(s, k, d, x) <= 1);
    }
    assert forall|x: u32|
        x != p && (occ(s, k, d, x) > 0 || occ(v, out, d, x) > 0) && v.dom().contains(x) && !(occ(
            s,
            kb,
            d,
            x,
        ) > 0 && occ(v, out, d, x) == 0) implies #[trigger] agree(v, u, x) by {
        assert(!g.contains(x)) by {
            assert(occ(v, out, d, x) + taken(g, f, x) == occ(s, kb, d, x));
            assert(occ(s, k, d, x) <= 1);
        }
    }
    assert forall|x: u32| #[trigger] occ(v, out, d, x) > 0 implies occ(s, kb, d, x) > 0
        || f.contains(x) by {
        assert(occ(v, out, d, x) + taken(g, f, x) == occ(s, kb, d, x));
    }
    assert forall|x: u32| #[trigger] occ(s, seq![p], h, x) > 0 implies !f.contains(x) by {}
    children_replaced(s, f, v, u, p, h, m, top, lo, hi, out, kids);
    // Links.
    let lo_ = level(v, out, d);
    let whole = pre + level(u, kids, d) + suf;
    assert(whole =~= pre2 + lo_ + suf2);
    assert(!v[p].leaf && v.dom().contains(p)) by {
        assert(s.dom().contains(p));
    }
    assert forall|j: int| 0 <= j < whole.len() implies u.dom().contains(#[trigger] whole[j])
        && u[whole[j]] == v[whole[j]] by {
        let x = whole[j];
        assert(v.dom().contains(x) && v[x].leaf) by {
            reveal(linked);
            assert(v.dom().contains((pre2 + lo_ + suf2)[j]));
        }
        assert(!g.contains(x)) by {
            list_page_used(s, f, v, g, p, h, m, top, pre, suf, lo, hi, out, j);
        }
    }
    linked_frame(v, u, whole);
    // The rest is as it was.
    assert forall|x: u32| #![trigger u.dom().contains(x)] #![trigger s.dom().contains(x)]
        occ(s, seq![p], h, x) == 0 && !f.contains(x) && s.dom().contains(x) implies ({
        &&& u.dom().contains(x)
        &&& same_content(s[x], u[x])
        &&& s[x].leaf && !pre.contains(x) && !suf.contains(x) ==> u[x] == s[x]
    }) by {
        occ_single(s, p, h, x);
        assert(occ(s, k, d, x) == 0);
        assert(v.dom().contains(x));
        assert(!g.contains(x)) by {
            assert(occ(v, out, d, x) + taken(g, f, x) == occ(s, kb, d, x));
        }
        assert(u.dom().contains(x));
        if s[x].leaf && !pre.contains(x) && !suf.contains(x) {
            if pre2.contains(x) {
                let j = choose|j: int| 0 <= j < pre2.len() && pre2[j] == x;
                if j < pre.len() {
                    assert(pre[j] == x);
                } else {
                    leaf_occurs(s, ka, d, j - pre.len());
                }
            }
            if suf2.contains(x) {
                let j = choose|j: int| 0 <= j < suf2.len() && suf2[j] == x;
                let le = level(s, kc, d);
                if j < le.len() {
                    leaf_occurs(s, kc, d, j);
                } else {
                    assert(suf[j - le.len()] == x);
                }
            }
        }
    }
}

/// Pages in a list of leaves are in use.
pub proof fn list_page_used(
    s: Store,
    f: Set<u32>,
    v: Store,
    g: Set<u32>,
    p: u32,
    h: nat,
    m: nat,
    top: bool,
    pre: Seq<u32>,
    suf: Seq<u32>,
    lo: int,
    hi: int,
    out: Seq<u32>,
    j: int,
)
    requires
        placed(s, f, p, h, m, top, pre, suf),
        h > 0,
        0 <= lo <= hi <= s[p].kids.len(),
        forall|x: u32| #[trigger]
            occ(v, out, (h - 1) as nat, x) + taken(g, f, x) == occ(
                s,
                s[p].kids.subrange(lo, hi),
                (h - 1) as nat,
                x,
            ),
        0 <= j < (pre + level(s, s[p].kids.take(lo), (h - 1) as nat) + level(
            v,
            out,
            (h - 1) as nat,
        ) + (level(s, s[p].kids.skip(hi), (h - 1) as nat) + suf)).len(),
    ensures
        !g.contains(
            (pre + level(s, s[p].kids.take(lo), (h - 1) as nat) + level(v, out, (h - 1) as nat) + (
            level(s, s[p].kids.skip(hi), (h - 1) as nat) + suf))[j],
        ),
{
    let k = s[p].kids;
    let d = (h - 1) as nat;
    let ka = k.take(lo);
    let kb = k.subrange(lo, hi);
    let kc = k.skip(hi);
    let la = level(s, ka, d);
    let lo_ = level(v, out, d);
    let lc = level(s, kc, d);
    let whole = pre + la + lo_ + (lc + suf);
    let x = whole[j];
    assert(k =~= ka + kb + kc);
    three(s, ka, kb, kc, d);
    occ_single(s, p, h, x);
    assert(occ(s, seq![p], h, x) <= 1);
    assert(occ(v, out, d, x) + taken(g, f, x) == occ(s, kb, d, x));
    assert(occ(s, k, d, x) > 0 ==> occ(s, seq![p], h, x) > 0);
    if j < pre.len() {
        assert(pre[j] == x);
        assert(pre.contains(x));
        assert(occ(s, seq![p], h, x) == 0);
    } else if j < pre.len() + la.len() {
        leaf_occurs(s, ka, d, j - pre.len());
    } else if j < pre.len() + la.len() + lo_.len() {
        leaf_occurs(v, out, d, j - pre.len() - la.len());
    } else if j < pre.len() + la.len() + lo_.len() + lc.len() {
        leaf_occurs(s, kc, d, j - pre.len() - la.len() - lo_.len());
    } else {
        let i = j - pre.len() - la.len() - lo_.len() - lc.len();
        assert(suf[i] == x);
        assert(suf.contains(x));
        assert(occ(s, seq![p], h, x) == 0);
    }
}

// -- Pairs of neighbours ---------------------------------------

/// Children that two neighbours share stay as they are.
proof fn shared_children(
    t: Store,
    v: Store,
    l: Seq<u32>,
    d: nat,
    m: nat,
)
    requires
        all_ok(t, l, d, m),
        forall|x: u32| #[trigger] occ(t, l, d, x) > 0 ==> agree(t, v, x),
    ensures
        all_ok(v, l, d, m),
        entries(v, l, d) == entries(t, l, d),
        level(v, l, d) == level(t, l, d),
        forall|x: u32| #[trigger] occ(v, l, d, x) == occ(t, l, d, x),
        forall|i: int|
            0 <= i < l.len() ==> max_key(v, #[trigger] l[i], d) == max_key(t, l[i], d) && (full(
                t,
                l[i],
                d,
            ) ==> full(v, l[i], d)),
{
    all_in_store(t, l, d, m);
    assert forall|x: u32| #[trigger] occ(t, l, d, x) > 0 implies same_content(t[x], v[x]) by {
        assert(t.dom().contains(x));
        assert(agree(t, v, x));
    }
    frame(t, v, l, d);
    assert forall|i: int| 0 <= i < l.len() implies ok(v, #[trigger] l[i], d, m, false) && max_key(
        v,
        l[i],
        d,
    ) == max_key(t, l[i], d) && (full(t, l[i], d) ==> full(v, l[i], d)) by {
        assert(ok(t, l[i], d, m, false));
        assert forall|x: u32| #[trigger] occ(t, seq![l[i]], d, x) > 0 implies agree(t, v, x) by {
            around(t, l, i, d);
            assert(occ(t, l, d, x) > 0);
        }
        frame_ok(t, v, l[i], d, m, false);
        if full(t, l[i], d) {
            full_frame(t, v, l[i], d, m, false);
        }
    }
}

/// Whether the trees of a list are made of the same pages.
pub open spec fn same_pages(t: Store, v: Store, l: Seq<u32>, h: nat) -> bool {
    forall|x: u32| #[trigger] occ(v, l, h, x) == occ(t, l, h, x)
}

/// Two neighbours of which the left has a cell for each child.
pub open spec fn pair(t: Store, a: u32, b: u32, h: nat, m: nat) -> bool {
    &&& relaxed(t, a, h, m)
    &&& relaxed(t, b, h, m)
    &&& a != b
    &&& full(t, a, h)
    &&& unique(t, seq![a, b], h)
}

/// The cells of two neighbours divided anew: the first `n` for the left one.
#[verifier::rlimit(60)]
pub proof fn redistributed(t: Store, v: Store, a: u32, b: u32, h: nat, m: nat, n: int)
    requires
        pair(t, a, b, h, m),
        m >= 2,
        m <= n < 2 * m,
        m <= t[a].cells.len() + t[b].cells.len() - n < 2 * m,
        v.dom().contains(a),
        v.dom().contains(b),
        v[a].leaf == t[a].leaf,
        v[b].leaf == t[b].leaf,
        v[a].cells == (t[a].cells + t[b].cells).take(n),
        v[b].cells == (t[a].cells + t[b].cells).skip(n),
        h > 0 ==> v[a].kids == (t[a].kids + t[b].kids).take(n) && v[b].kids == (t[a].kids
            + t[b].kids).skip(n),
        h == 0 ==> node_fits(v[a]) && node_fits(v[b]),
        page_holds(v[a].cells),
        page_holds(v[b].cells),
        forall|x: u32| x != a && x != b ==> #[trigger] agree(t, v, x),
        h > 0 ==> t[b].kids.last() != 0,
    ensures
        all_ok(v, seq![a, b], h, m),
        entries(v, seq![a, b], h) == entries(t, seq![a, b], h),
        h > 0 ==> level(v, seq![a, b], h) == level(t, seq![a, b], h),
        same_pages(t, v, seq![a, b], h),
        max_key(v, b, h) == max_key(t, b, h),
        max_key(v, a, h) == (t[a].cells + t[b].cells)[n - 1].0,
        full(v, a, h),
        full(t, b, h) ==> full(v, b, h),
{
    let both = seq![a, b];
    let c = t[a].cells + t[b].cells;
    assert(both =~= seq![a] + seq![b]);
    entries_concat(t, seq![a], seq![b], h);
    entries_concat(v, seq![a], seq![b], h);
    level_concat(t, seq![a], seq![b], h);
    level_concat(v, seq![a], seq![b], h);
    single(t, a, h);
    single(t, b, h);
    single(v, a, h);
    single(v, b, h);
    assert(c =~= c.take(n) + c.skip(n));
    if h == 0 {
        assert forall|x: u32| #[trigger] occ(v, both, h, x) == occ(t, both, h, x) by {
            occ_concat(t, seq![a], seq![b], h, x);
            occ_concat(v, seq![a], seq![b], h, x);
            occ_single(t, a, h, x);
            occ_single(t, b, h, x);
            occ_single(v, a, h, x);
            occ_single(v, b, h, x);
        }
        assert(v[b].cells.last() == c.last());
        assert(t[b].cells.len() > 0);
        assert(v[a].cells.last() == c[n - 1]);
        assert(ok(v, a, h, m, false));
        assert(ok(v, b, h, m, false));
        assert forall|i: int| 0 <= i < both.len() implies ok(v, #[trigger] both[i], h, m, false) by {}
    } else {
        let d = (h - 1) as nat;
        let ka = t[a].kids;
        let kb = t[b].kids;
        let k = ka + kb;
        pair_children(t, a, b, h, m);
        assert forall|x: u32| #[trigger] occ(t, k, d, x) > 0 implies agree(t, v, x) by {}
        shared_children(t, v, k, d, m);
        entries_concat(t, ka, kb, d);
        level_concat(t, ka, kb, d);
        assert(k =~= k.take(n) + k.skip(n));
        entries_concat(v, k.take(n), k.skip(n), d);
        level_concat(v, k.take(n), k.skip(n), d);
        assert forall|x: u32| #[trigger] occ(v, both, h, x) == occ(t, both, h, x) by {
            occ_concat(t, seq![a], seq![b], h, x);
            occ_concat(v, seq![a], seq![b], h, x);
            occ_single(t, a, h, x);
            occ_single(t, b, h, x);
            occ_single(v, a, h, x);
            occ_single(v, b, h, x);
            occ_concat(t, ka, kb, d, x);
            occ_concat(v, k.take(n), k.skip(n), d, x);
            assert(occ(v, k, d, x) == occ(t, k, d, x));
        }
        assert forall|j: int| 0 <= j < c.len() implies (#[trigger] c[j]).0 == max_key(v, k[j], d)
            && c[j].1.len() == 0 by {
            if j < t[a].cells.len() {
                assert(c[j] == t[a].cells[j]);
                assert(k[j] == ka[j]);
            } else {
                assert(c[j] == t[b].cells[j - t[a].cells.len()]);
                assert(k[j] == kb[j - ka.len()]);
            }
            assert(max_key(v, k[j], d) == max_key(t, k[j], d));
        }
        assert forall|j: int| 0 <= j < v[a].kids.len() implies ok(
            v,
            #[trigger] v[a].kids[j],
            d,
            m,
            false,
        ) by {
            assert(v[a].kids[j] == k[j]);
        }
        assert forall|j: int| 0 <= j < v[b].kids.len() implies ok(
            v,
            #[trigger] v[b].kids[j],
            d,
            m,
            false,
        ) by {
            assert(v[b].kids[j] == k[n + j]);
        }
        assert forall|j: int| 0 <= j < v[a].cells.len() implies (#[trigger] v[a].cells[j]).0
            == max_key(v, v[a].kids[j], d) && v[a].cells[j].1.len() == 0 by {
            assert(v[a].cells[j] == c[j]);
        }
        assert forall|j: int| 0 <= j < v[b].cells.len() implies (#[trigger] v[b].cells[j]).0
            == max_key(v, v[b].kids[j], d) && v[b].cells[j].1.len() == 0 by {
            assert(v[b].cells[j] == c[n + j]);
        }
        assert forall|j: int| 0 <= j < v[a].kids.len() implies full(v, #[trigger] v[a].kids[j], d) by {
            assert(v[a].kids[j] == k[j]);
            assert(full(t, k[j], d));
        }
        assert forall|j: int|
            0 <= j < v[b].kids.len() && (j < v[b].kids.len() - 1 || full(t, b, h)) implies full(
            v,
            #[trigger] v[b].kids[j],
            d,
        ) by {
            assert(v[b].kids[j] == k[n + j]);
            if n + j == k.len() - 1 {
                assert(k[n + j] == kb[kb.len() - 1]);
            }
            assert(full(t, k[n + j], d));
        }
        assert(k.last() == kb.last());
        assert(v[b].kids.last() == k.last());
        assert(v[a].kids.last() == k[n - 1]);
        assert(c[n - 1].0 == max_key(v, k[n - 1], d));
        inner_ok(v, a, h, m, false);
        inner_ok(v, b, h, m, false);
        assert forall|i: int| 0 <= i < both.len() implies ok(v, #[trigger] both[i], h, m, false) by {}
        assert(max_key(v, k[k.len() - 1], d) == max_key(t, k[k.len() - 1], d));
    }
}

/// The children of two neighbours, together.
proof fn pair_children(t: Store, a: u32, b: u32, h: nat, m: nat)
    requires
        pair(t, a, b, h, m),
        h > 0,
        m >= 1,
    ensures
        all_ok(t, t[a].kids + t[b].kids, (h - 1) as nat, m),
        forall|x: u32| #[trigger]
            occ(t, t[a].kids + t[b].kids, (h - 1) as nat, x) > 0 ==> x != a && x != b,
        even(t, t[a].kids + t[b].kids, (h - 1) as nat),
{
    let d = (h - 1) as nat;
    let ka = t[a].kids;
    let kb = t[b].kids;
    let k = ka + kb;
    let both = seq![a, b];
    assert(both =~= seq![a] + seq![b]);
    assert forall|i: int| 0 <= i < k.len() implies ok(t, #[trigger] k[i], d, m, false) by {
        if i < ka.len() {
            assert(k[i] == ka[i]);
        } else {
            assert(k[i] == kb[i - ka.len()]);
        }
    }
    assert forall|x: u32| #[trigger] occ(t, k, d, x) > 0 implies x != a && x != b by {
        occ_concat(t, ka, kb, d, x);
        occ_concat(t, seq![a], seq![b], h, x);
        occ_single(t, a, h, x);
        occ_single(t, b, h, x);
        assert(occ(t, both, h, x) <= 1);
    }
    assert forall|i: int| 0 <= i < k.len() - 1 implies full(t, #[trigger] k[i], d) by {
        if i < ka.len() {
            assert(full(t, ka[i], d));
        } else {
            assert(full(t, kb[i - ka.len()], d));
        }
    }
}

// -- The parent ------------------------------------------------

/// What a node becomes when its children from `lo` up to `hi` give way to
/// `out`: the keys of other children stay, those of `out` are their largest
/// keys, and the last child goes without a key where it did before.
pub open spec fn rekeyed(
    old: NodeView,
    new: NodeView,
    v: Store,
    d: nat,
    lo: int,
    hi: int,
    out: Seq<u32>,
) -> bool {
    &&& page_holds(new.cells)
    &&& new.leaf == old.leaf
    &&& new.kids == old.kids.take(lo) + out + old.kids.skip(hi)
    &&& slack(new) == slack(old)
    &&& forall|j: int| 0 <= j < lo && j < new.cells.len() ==> #[trigger] new.cells[j] == old.cells[j]
    &&& forall|j: int|
        lo <= j < lo + out.len() && j < new.cells.len() ==> #[trigger] new.cells[j] == (
            max_key(v, out[j - lo], d),
            Seq::<DataView>::empty(),
        )
    &&& forall|j: int|
        lo + out.len() <= j < new.cells.len() ==> #[trigger] new.cells[j] == old.cells[j
            - out.len() + hi - lo]
}

/// A node whose children have changed, one of them for an entry that was taken
/// out.
#[verifier::rlimit(60)]
pub proof fn removed_up(
    s: Store,
    f: Set<u32>,
    v: Store,
    g: Set<u32>,
    u: Store,
    p: u32,
    h: nat,
    m: nat,
    top: bool,
    pre: Seq<u32>,
    suf: Seq<u32>,
    key: DataView,
    lo: int,
    hi: int,
    out: Seq<u32>,
)
    requires
        placed(s, f, p, h, m, top, pre, suf),
        h > 0,
        m >= 1,
        0 <= lo < hi <= s[p].kids.len(),
        1 <= out.len() <= hi - lo,
        ({
            let d = (h - 1) as nat;
            let k = s[p].kids;
            let l = k.subrange(lo, hi);
            let pre2 = pre + level(s, k.take(lo), d);
            let suf2 = level(s, k.skip(hi), d) + suf;
            &&& kept_around(s, f, v, l, d, pre2, suf2)
            &&& forall|x: u32| #[trigger] occ(v, out, d, x) + taken(g, f, x) == occ(s, l, d, x)
            &&& linked(v, pre2 + level(v, out, d) + suf2)
            &&& all_ok(v, out, d, m)
            &&& entries(s, k.take(lo), d) + entries(v, out, d) + entries(s, k.skip(hi), d)
                == without_key(entries(s, seq![p], h), key)
            &&& forall|j: int| 0 <= j < out.len() - 1 ==> full(v, #[trigger] out[j], d)
            &&& hi < k.len() || full(s, p, h) ==> full(v, out.last(), d)
            &&& rekeyed(s[p], u[p], v, d, lo, hi, out)
        }),
        has_key(entries(s, seq![p], h), key),
        f.subset_of(g),
        only_parent(v, g, u, p),
        u.dom().contains(p),
    ensures
        removed(s, f, u, g, p, h, pre, suf, key),
        relaxed(u, p, h, m),
        full(s, p, h) ==> full(u, p, h),
        node_fits(u[p]),
        !g.contains(p),
{
    let d = (h - 1) as nat;
    let k = s[p].kids;
    let n = u[p];
    let kids = n.kids;
    range_up(s, f, v, g, u, p, h, m, top, pre, suf, lo, hi, out, kids);
    single(u, p, h);
    single(s, p, h);
    assert(slack(s[p]) == 0 || slack(s[p]) == 1) by {
        assert(node_fits(s[p]));
    }
    // Keys.
    assert forall|j: int| 0 <= j < n.cells.len() implies (#[trigger] n.cells[j]).0 == max_key(
        u,
        kids[j],
        d,
    ) && n.cells[j].1.len() == 0 by {
        if j < lo {
            assert(kids[j] == k[j]);
            assert(n.cells[j] == s[p].cells[j]);
        } else if j < lo + out.len() {
            let y = out[j - lo];
            assert(kids[j] == out[j - lo]);
            assert(ok(v, out[j - lo], d, m, false));
            assert(max_key(u, out[j - lo], d) == max_key(v, out[j - lo], d));
        } else {
            let i = j - out.len() + hi - lo;
            assert(kids[j] == k[i]);
            assert(n.cells[j] == s[p].cells[i]);
        }
    }
    // Full children.
    assert forall|j: int| 0 <= j < kids.len() && (j < kids.len() - 1 || full(s, p, h)) implies full(
        u,
        #[trigger] kids[j],
        d,
    ) by {
        if j < lo {
            assert(kids[j] == k[j]);
            assert(full(s, k[j], d));
        } else if j < lo + out.len() {
            assert(kids[j] == out[j - lo]);
            if j < lo + out.len() - 1 {
                assert(full(v, out[j - lo], d));
            } else {
                assert(out[j - lo] == out.last());
            }
            assert(full(v, out[j - lo], d) ==> full(u, out[j - lo], d));
        } else {
            let i = j - out.len() + hi - lo;
            assert(kids[j] == k[i]);
            assert(full(s, k[i], d));
        }
    }
    assert(kids.len() >= 1);
    assert(kids.last() != 0) by {
        let z = kids[kids.len() - 1];
        member_occurs(u, kids, d, kids.len() - 1);
        assert(occ(u, kids, d, z) + taken(g, f, z) == occ(s, k, d, z));
        occ_single(s, p, h, z);
        assert(occ(s, seq![p], h, z) > 0);
    }
    assert forall|x: u32| #[trigger] occ(u, seq![p], h, x) + taken(g, f, x) == occ(
        s,
        seq![p],
        h,
        x,
    ) by {
        occ_single(u, p, h, x);
        occ_single(s, p, h, x);
        assert(occ(u, kids, d, x) + taken(g, f, x) == occ(s, k, d, x));
    }
}

/// Taking an entry out of the child that its key belongs to takes it out of the
/// whole tree.
pub proof fn without_middle(s: Store, p: u32, h: nat, m: nat, top: bool, key: DataView)
    requires
        ok(s, p, h, m, top),
        h > 0,
        m >= 1,
        sorted(entries(s, seq![p], h)),
    ensures
        ({
            let i = child_index(s[p], key);
            let k = s[p].kids;
            let d = (h - 1) as nat;
            let b = entries(s, seq![k[i]], d);
            &&& 0 <= i < k.len()
            &&& has_key(entries(s, seq![p], h), key) == has_key(b, key)
            &&& has_key(b, key) ==> without_key(entries(s, seq![p], h), key) == entries(
                s,
                k.take(i),
                d,
            ) + without_key(b, key) + entries(s, k.skip(i + 1), d)
        }),
{
    key_sides(s, p, h, m, top, key);
    let i = child_index(s[p], key);
    let k = s[p].kids;
    let d = (h - 1) as nat;
    let a = entries(s, k.take(i), d);
    let b = entries(s, seq![k[i]], d);
    let c = entries(s, k.skip(i + 1), d);
    lower_bound_middle(a, b, c, key);
    if has_key(b, key) {
        key_at_bound(b, key);
        assert(without_key(a + b + c, key) =~= a + without_key(b, key) + c);
    }
}

/// A node whose child has given up an entry and still has enough.
pub proof fn removed_plain(
    s: Store,
    f: Set<u32>,
    t: Store,
    g: Set<u32>,
    u: Store,
    p: u32,
    h: nat,
    m: nat,
    top: bool,
    pre: Seq<u32>,
    suf: Seq<u32>,
    key: DataView,
)
    requires
        placed(s, f, p, h, m, top, pre, suf),
        h > 0,
        m >= 1,
        ({
            let i = child_index(s[p], key);
            let c = s[p].kids[i];
            let d = (h - 1) as nat;
            &&& removed(
                s,
                f,
                t,
                g,
                c,
                d,
                pre_of(s, p, h, i, pre),
                suf_of(s, p, h, i, suf),
                key,
            )
            &&& ok(t, c, d, m, false)
            &&& full(s, c, d) ==> full(t, c, d)
            &&& rekeyed(s[p], u[p], t, d, i, i + 1, seq![c])
        }),
        only_parent(t, g, u, p),
        u.dom().contains(p),
    ensures
        removed(s, f, u, g, p, h, pre, suf, key),
        relaxed(u, p, h, m),
        full(s, p, h) ==> full(u, p, h),
        !g.contains(p),
{
    let i = child_index(s[p], key);
    let k = s[p].kids;
    let c = k[i];
    let d = (h - 1) as nat;
    without_middle(s, p, h, m, top, key);
    assert(k.subrange(i, i + 1) =~= seq![c]);
    let out = seq![c];
    assert(all_ok(t, out, d, m));
    assert(full(s, k[i], d) ==> full(t, c, d));
    removed_up(s, f, t, g, u, p, h, m, top, pre, suf, key, i, i + 1, out);
}

/// A child that has given up an entry, and a neighbour.
#[verifier::rlimit(60)]
pub proof fn beside(
    s: Store,
    f: Set<u32>,
    t: Store,
    g: Set<u32>,
    p: u32,
    h: nat,
    m: nat,
    top: bool,
    pre: Seq<u32>,
    suf: Seq<u32>,
    key: DataView,
    lo: int,
    both: Seq<u32>,
)
    requires
        placed(s, f, p, h, m, top, pre, suf),
        h > 0,
        m >= 1,
        0 <= lo < s[p].kids.len() - 1,
        lo == child_index(s[p], key) || lo + 1 == child_index(s[p], key),
        both == seq![s[p].kids[lo], s[p].kids[lo + 1]],
        ({
            let i = child_index(s[p], key);
            let c = s[p].kids[i];
            let d = (h - 1) as nat;
            &&& removed(
                s,
                f,
                t,
                g,
                c,
                d,
                pre_of(s, p, h, i, pre),
                suf_of(s, p, h, i, suf),
                key,
            )
            &&& relaxed(t, c, d, m)
            &&& full(s, c, d) ==> full(t, c, d)
        }),
    ensures
        ({
            let i = child_index(s[p], key);
            let k = s[p].kids;
            let d = (h - 1) as nat;
            let l = k.subrange(lo, lo + 2);
            let pre2 = pre + level(s, k.take(lo), d);
            let suf2 = level(s, k.skip(lo + 2), d) + suf;
            let e = if lo == i {
                k[lo + 1]
            } else {
                k[lo]
            };
            &&& pair(t, both[0], both[1], d, m)
            &&& entries(s, k.take(lo), d) + entries(t, both, d) + entries(s, k.skip(lo + 2), d)
                == without_key(entries(s, seq![p], h), key)
            &&& has_key(entries(s, seq![p], h), key)
            &&& linked(t, pre2 + level(t, both, d) + suf2)
            &&& forall|x: u32| #[trigger] occ(t, both, d, x) + taken(g, f, x) == occ(s, l, d, x)
            &&& kept_around(s, f, t, l, d, pre2, suf2)
            &&& ok(t, e, d, m, false)
            &&& max_key(t, e, d) == max_key(s, e, d)
            &&& same_content(s[e], t[e])
            &&& lo + 2 < k.len() || full(s, p, h) ==> full(t, both[1], d)
            &&& !g.contains(both[0])
            &&& !g.contains(both[1])
            &&& both[0] != 0
            &&& both[1] != 0
            &&& t.dom().contains(p)
            &&& same_content(s[p], t[p])
            &&& p != both[0]
            &&& p != both[1]
            &&& !g.contains(p)
            &&& entries(t, both, d) == entries(t, seq![both[0]], d) + entries(t, seq![both[1]], d)
            &&& d > 0 ==> t[both[1]].kids.last() != 0
        }),
{
    let i = child_index(s[p], key);
    let k = s[p].kids;
    let d = (h - 1) as nat;
    let l = k.subrange(lo, lo + 2);
    let a = k[lo];
    let b = k[lo + 1];
    let c = k[i];
    let e = if lo == i {
        b
    } else {
        a
    };
    let ei = if lo == i {
        lo + 1
    } else {
        lo
    };
    let pre2 = pre + level(s, k.take(lo), d);
    let suf2 = level(s, k.skip(lo + 2), d) + suf;
    let prec = pre_of(s, p, h, i, pre);
    let sufc = suf_of(s, p, h, i, suf);
    without_middle(s, p, h, m, top, key);
    child_placed(s, f, p, h, m, top, pre, suf, i);
    // The lists of children.
    assert(l =~= both);
    assert(both =~= seq![a] + seq![b]);
    assert(k =~= k.take(lo) + l + k.skip(lo + 2));
    three(s, k.take(lo), l, k.skip(lo + 2), d);
    around(s, k, i, d);
    entries_concat(s, seq![a], seq![b], d);
    level_concat(s, seq![a], seq![b], d);
    entries_concat(t, seq![a], seq![b], d);
    level_concat(t, seq![a], seq![b], d);
    if lo == i {
        assert(k.skip(i + 1) =~= seq![b] + k.skip(lo + 2));
        entries_concat(s, seq![b], k.skip(lo + 2), d);
        level_concat(s, seq![b], k.skip(lo + 2), d);
    } else {
        assert(k.take(i) =~= k.take(lo) + seq![a]);
        entries_concat(s, k.take(lo), seq![a], d);
        level_concat(s, k.take(lo), seq![a], d);
    }
    occ_single(s, p, h, p);
    assert(occ(s, seq![p], h, p) > 0);
    // The neighbour is as it was.
    assert(ok(s, k[ei], d, m, false));
    assert forall|x: u32| #[trigger] occ(s, seq![e], d, x) > 0 implies occ(s, seq![c], d, x) == 0
        && !f.contains(x) by {
        occ_concat(s, seq![a], seq![b], d, x);
        assert(occ(s, k, d, x) == occ(s, k.take(lo), d, x) + occ(s, l, d, x) + occ(
            s,
            k.skip(lo + 2),
            d,
            x,
        ));
        occ_single(s, p, h, x);
        assert(occ(s, seq![p], h, x) <= 1);
        assert(occ(s, seq![p], h, x) > 0);
    }
    crate::engine::whole::root_in_store(s, e, d, m, false);
    assert forall|x: u32| #[trigger] occ(s, seq![e], d, x) > 0 implies agree(s, t, x) && same_content(
        s[x],
        t[x],
    ) by {
        assert(s.dom().contains(x));
        assert(t.dom().contains(x));
    }
    occ_single(s, e, d, e);
    assert(occ(s, seq![e], d, e) > 0);
    frame_ok(s, t, e, d, m, false);
    frame(s, t, seq![e], d);
    if full(s, e, d) {
        full_frame(s, t, e, d, m, false);
    }
    ok_relaxed(t, e, d, m, false);
    // Pages.
    assert forall|x: u32| #[trigger] occ(t, both, d, x) + taken(g, f, x) == occ(s, l, d, x) by {
        occ_concat(s, seq![a], seq![b], d, x);
        occ_concat(t, seq![a], seq![b], d, x);
        assert(occ(t, seq![c], d, x) + taken(g, f, x) == occ(s, seq![c], d, x));
        assert(occ(t, seq![e], d, x) == occ(s, seq![e], d, x));
    }
    assert forall|x: u32| #[trigger] occ(s, l, d, x) <= 1 && (occ(s, l, d, x) > 0 ==> x != 0
        && !f.contains(x) && x != p) by {
        assert(occ(s, k, d, x) == occ(s, k.take(lo), d, x) + occ(s, l, d, x) + occ(
            s,
            k.skip(lo + 2),
            d,
            x,
        ));
        occ_single(s, p, h, x);
        assert(occ(s, seq![p], h, x) <= 1);
        if occ(s, l, d, x) > 0 {
            assert(occ(s, seq![p], h, x) > 0);
        }
    }
    assert forall|x: u32| #[trigger] occ(t, both, d, x) <= 1 by {
        assert(occ(t, both, d, x) + taken(g, f, x) == occ(s, l, d, x));
    }
    member_occurs(t, both, d, 0);
    member_occurs(t, both, d, 1);
    assert(occ(t, both, d, a) + taken(g, f, a) == occ(s, l, d, a));
    assert(occ(t, both, d, b) + taken(g, f, b) == occ(s, l, d, b));
    assert(a != b) by {
        if a == b {
            occ_concat(t, seq![a], seq![b], d, a);
            occ_single(t, a, d, a);
            assert(occ(t, both, d, a) <= 1);
        }
    }
    if d > 0 {
        let kb = t[b].kids;
        let z = kb[kb.len() - 1];
        member_occurs(t, kb, (d - 1) as nat, kb.len() - 1);
        occ_single(t, b, d, z);
        occ_concat(t, seq![a], seq![b], d, z);
        assert(occ(t, both, d, z) + taken(g, f, z) == occ(s, l, d, z));
    }
    assert(occ(s, l, d, p) == 0);
    assert(occ(t, seq![c], d, p) + taken(g, f, p) == occ(s, seq![c], d, p));
    assert(!g.contains(p));
    assert(s.dom().contains(p));
    // Full nodes.
    assert(full(s, k[lo], d));
    if lo + 2 < k.len() {
        assert(full(s, k[lo + 1], d));
    }
    if full(s, p, h) {
        assert(full(s, k[lo + 1], d));
    }
    // Links.
    assert(pre2 + level(t, both, d) + suf2 =~= prec + level(t, seq![c], d) + sufc);
    // The rest is as it was.
    assert forall|x: u32| #![trigger t.dom().contains(x)] #![trigger s.dom().contains(x)]
        occ(s, l, d, x) == 0 && !f.contains(x) && s.dom().contains(x) implies ({
        &&& t.dom().contains(x)
        &&& same_content(s[x], t[x])
        &&& s[x].leaf && !pre2.contains(x) && !suf2.contains(x) ==> t[x] == s[x]
    }) by {
        occ_concat(s, seq![a], seq![b], d, x);
        assert(occ(s, seq![c], d, x) == 0);
        assert(occ(s, seq![e], d, x) == 0);
        if s[x].leaf && !pre2.contains(x) && !suf2.contains(x) {
            if prec.contains(x) {
                let j = choose|j: int| 0 <= j < prec.len() && prec[j] == x;
                if j < pre2.len() {
                    assert(pre2[j] == x);
                } else {
                    leaf_occurs(s, seq![a], d, j - pre2.len());
                }
            }
            if sufc.contains(x) {
                let j = choose|j: int| 0 <= j < sufc.len() && sufc[j] == x;
                if lo == i {
                    let w = level(s, seq![b], d).len();
                    if j < w {
                        leaf_occurs(s, seq![b], d, j);
                    } else {
                        assert(suf2[j - w] == x);
                    }
                } else {
                    assert(suf2[j] == x);
                }
            }
        }
    }
    // Entries.
    assert(entries(s, k.take(lo), d) + entries(t, both, d) + entries(s, k.skip(lo + 2), d)
        =~= entries(s, k.take(i), d) + without_key(entries(s, seq![c], d), key) + entries(
        s,
        k.skip(i + 1),
        d,
    ));
}

/// Two neighbours put together in the page of the left one.
#[verifier::rlimit(60)]
pub proof fn merged(t: Store, v: Store, a: u32, b: u32, h: nat, m: nat, both: Seq<u32>)
    requires
        pair(t, a, b, h, m),
        both == seq![a, b],
        m >= 2,
        m <= t[a].cells.len() + t[b].cells.len() < 2 * m,
        t[b].cells.len() > 0,
        v.dom().contains(a),
        v[a].leaf == t[a].leaf,
        v[a].cells == t[a].cells + t[b].cells,
        h > 0 ==> v[a].kids == t[a].kids + t[b].kids,
        h == 0 ==> node_fits(v[a]),
        page_holds(v[a].cells),
        forall|x: u32| x != a && x != b ==> #[trigger] agree(t, v, x),
        h > 0 ==> t[b].kids.last() != 0,
    ensures
        ok(v, a, h, m, false),
        entries(v, seq![a], h) == entries(t, both, h),
        h > 0 ==> level(v, seq![a], h) == level(t, both, h),
        forall|x: u32| #[trigger]
            occ(v, seq![a], h, x) + (if x == b {
                1nat
            } else {
                0
            }) == occ(t, both, h, x),
        max_key(v, a, h) == max_key(t, b, h),
        full(t, b, h) ==> full(v, a, h),
{
    let c = t[a].cells + t[b].cells;
    assert(both =~= seq![a] + seq![b]);
    entries_concat(t, seq![a], seq![b], h);
    level_concat(t, seq![a], seq![b], h);
    single(t, a, h);
    single(t, b, h);
    single(v, a, h);
    if h == 0 {
        assert forall|x: u32| #[trigger]
            occ(v, seq![a], h, x) + (if x == b {
                1nat
            } else {
                0
            }) == occ(t, both, h, x) by {
            occ_concat(t, seq![a], seq![b], h, x);
            occ_single(t, a, h, x);
            occ_single(t, b, h, x);
            occ_single(v, a, h, x);
        }
        assert(v[a].cells.last() == t[b].cells.last());
    } else {
        let d = (h - 1) as nat;
        let ka = t[a].kids;
        let kb = t[b].kids;
        let k = ka + kb;
        pair_children(t, a, b, h, m);
        assert forall|x: u32| #[trigger] occ(t, k, d, x) > 0 implies agree(t, v, x) by {}
        shared_children(t, v, k, d, m);
        entries_concat(t, ka, kb, d);
        level_concat(t, ka, kb, d);
        assert forall|x: u32| #[trigger]
            occ(v, seq![a], h, x) + (if x == b {
                1nat
            } else {
                0
            }) == occ(t, both, h, x) by {
            occ_concat(t, seq![a], seq![b], h, x);
            occ_single(t, a, h, x);
            occ_single(t, b, h, x);
            occ_single(v, a, h, x);
            occ_concat(t, ka, kb, d, x);
            assert(occ(v, k, d, x) == occ(t, k, d, x));
        }
        assert forall|j: int| 0 <= j < c.len() implies (#[trigger] c[j]).0 == max_key(v, k[j], d)
            && c[j].1.len() == 0 by {
            if j < t[a].cells.len() {
                assert(c[j] == t[a].cells[j]);
                assert(k[j] == ka[j]);
            } else {
                assert(c[j] == t[b].cells[j - t[a].cells.len()]);
                assert(k[j] == kb[j - ka.len()]);
            }
            assert(max_key(v, k[j], d) == max_key(t, k[j], d));
        }
        assert forall|j: int| 0 <= j < k.len() && (j < k.len() - 1 || full(t, b, h)) implies full(
            v,
            #[trigger] k[j],
            d,
        ) by {
            if j == k.len() - 1 {
                assert(k[j] == kb[kb.len() - 1]);
            }
            assert(full(t, k[j], d));
        }
        assert(k.last() == kb.last());
        inner_ok(v, a, h, m, false);
        assert(max_key(v, k[k.len() - 1], d) == max_key(t, k[k.len() - 1], d));
    }
}

/// Leaves that keep their neighbours stay linked.
proof fn linked_same(t: Store, v: Store, l: Seq<u32>)
    requires
        linked(t, l),
        forall|i: int|
            0 <= i < l.len() ==> v.dom().contains(#[trigger] l[i]) && v[l[i]].leaf && node_fits(
                v[l[i]],
            ) && v[l[i]].left == t[l[i]].left && v[l[i]].right == t[l[i]].right,
    ensures
        linked(v, l),
{
    reveal(linked);
    assert forall|i: int| 0 <= i < l.len() implies v.dom().contains(#[trigger] l[i]) && v[l[i]].leaf
        && node_fits(v[l[i]]) && v[l[i]].left == (if i > 0 {
        l[i - 1]
    } else {
        0
    }) && v[l[i]].right == (if i + 1 < l.len() {
        l[i + 1]
    } else {
        0
    }) by {
        assert(t.dom().contains(l[i]));
    }
}

/// Leaves without the one after place `n`.
#[verifier::spinoff_prover]
#[verifier::rlimit(60)]
proof fn linked_without(t: Store, v: Store, l: Seq<u32>, n: int)
    requires
        linked(t, l),
        0 <= n < l.len() - 1,
        v.dom().contains(l[n]),
        v[l[n]].leaf,
        node_fits(v[l[n]]),
        v[l[n]].left == t[l[n]].left,
        v[l[n]].right == t[l[n + 1]].right,
        forall|i: int|
            0 <= i < l.len() && i != n && i != n + 1 ==> v.dom().contains(#[trigger] l[i])
                && v[l[i]] == (if i == n + 2 {
                NodeView { left: l[n], ..t[l[i]] }
            } else {
                t[l[i]]
            }),
    ensures
        linked(v, l.remove(n + 1)),
{
    reveal(linked);
    let k = l.remove(n + 1);
    assert forall|i: int, j: int| 0 <= i < k.len() && 0 <= j < k.len() && i != j implies k[i]
        != k[j] by {
        let x = if i <= n {
            i
        } else {
            i + 1
        };
        let y = if j <= n {
            j
        } else {
            j + 1
        };
        assert(k[i] == l[x] && k[j] == l[y]);
    }
    assert forall|i: int| 0 <= i < k.len() implies v.dom().contains(#[trigger] k[i]) && v[k[i]].leaf
        && node_fits(v[k[i]]) && v[k[i]].left == (if i > 0 {
        k[i - 1]
    } else {
        0
    }) && v[k[i]].right == (if i + 1 < k.len() {
        k[i + 1]
    } else {
        0
    }) by {
        let x = if i <= n {
            i
        } else {
            i + 1
        };
        assert(k[i] == l[x]);
        assert(t.dom().contains(l[x]));
        if x > 0 {
            assert(t.dom().contains(l[x - 1]));
        }
        assert(t.dom().contains(l[n + 1]));
        if x == n + 2 {
            assert(node_fits(t[l[x]]));
            same_size(t[l[x]], v[l[x]]);
        }
    }
}

/// The room that a node takes does not rest on its neighbours.
proof fn same_size(a: NodeView, b: NodeView)
    requires
        node_fits(a),
        same_content(a, b),
    ensures
        node_fits(b),
{
}

/// A node whose child has given up an entry and has taken one from a neighbour.
#[verifier::rlimit(60)]
pub proof fn removed_borrow(
    s: Store,
    f: Set<u32>,
    t: Store,
    g: Set<u32>,
    v: Store,
    u: Store,
    p: u32,
    h: nat,
    m: nat,
    top: bool,
    pre: Seq<u32>,
    suf: Seq<u32>,
    key: DataView,
    lo: int,
    n: int,
    both: Seq<u32>,
)
    requires
        placed(s, f, p, h, m, top, pre, suf),
        h > 0,
        m >= 2,
        0 <= lo < s[p].kids.len() - 1,
        lo == child_index(s[p], key) || lo + 1 == child_index(s[p], key),
        both == seq![s[p].kids[lo], s[p].kids[lo + 1]],
        ({
            let i = child_index(s[p], key);
            let c = s[p].kids[i];
            let d = (h - 1) as nat;
            let cells = t[both[0]].cells + t[both[1]].cells;
            let kids = t[both[0]].kids + t[both[1]].kids;
            let na = v[both[0]];
            let nb = v[both[1]];
            &&& removed(
                s,
                f,
                t,
                g,
                c,
                d,
                pre_of(s, p, h, i, pre),
                suf_of(s, p, h, i, suf),
                key,
            )
            &&& relaxed(t, c, d, m)
            &&& full(s, c, d) ==> full(t, c, d)
            &&& m <= n < 2 * m
            &&& m <= cells.len() - n < 2 * m
            &&& v == t.insert(both[0], na).insert(both[1], nb)
            &&& na == (NodeView {
                cells: cells.take(n),
                kids: if d > 0 {
                    kids.take(n)
                } else {
                    t[both[0]].kids
                },
                ..t[both[0]]
            })
            &&& nb == (NodeView {
                cells: cells.skip(n),
                kids: if d > 0 {
                    kids.skip(n)
                } else {
                    t[both[1]].kids
                },
                ..t[both[1]]
            })
            &&& d == 0 ==> node_fits(na) && node_fits(nb)
            &&& page_holds(na.cells)
            &&& page_holds(nb.cells)
            &&& rekeyed(s[p], u[p], v, d, lo, lo + 2, both)
        }),
        only_parent(v, g, u, p),
        u.dom().contains(p),
    ensures
        removed(s, f, u, g, p, h, pre, suf, key),
        relaxed(u, p, h, m),
        full(s, p, h) ==> full(u, p, h),
        !g.contains(p),
{
    let d = (h - 1) as nat;
    let k = s[p].kids;
    let a = both[0];
    let b = both[1];
    let l = k.subrange(lo, lo + 2);
    let pre2 = pre + level(s, k.take(lo), d);
    let suf2 = level(s, k.skip(lo + 2), d) + suf;
    beside(s, f, t, g, p, h, m, top, pre, suf, key, lo, both);
    assert(both =~= seq![a, b]);
    assert(l =~= both);
    redistributed(t, v, a, b, d, m, n);
    assert forall|x: u32| #[trigger] occ(v, both, d, x) + taken(g, f, x) == occ(s, l, d, x) by {
        assert(occ(v, both, d, x) == occ(t, both, d, x));
        assert(occ(t, both, d, x) + taken(g, f, x) == occ(s, l, d, x));
    }
    // The rest is as it was.
    member_occurs(s, l, d, 0);
    member_occurs(s, l, d, 1);
    assert forall|x: u32| #![trigger v.dom().contains(x)] #![trigger s.dom().contains(x)]
        occ(s, l, d, x) == 0 && !f.contains(x) && s.dom().contains(x) implies ({
        &&& v.dom().contains(x)
        &&& same_content(s[x], v[x])
        &&& s[x].leaf && !pre2.contains(x) && !suf2.contains(x) ==> v[x] == s[x]
    }) by {
        assert(x != a && x != b) by {
            assert(l[0] == a && l[1] == b);
        }
        assert(t.dom().contains(x));
    }
    // Links.
    let whole = pre2 + level(t, both, d) + suf2;
    assert forall|j: int| 0 <= j < whole.len() implies v.dom().contains(#[trigger] whole[j])
        && v[whole[j]].leaf && node_fits(v[whole[j]]) && v[whole[j]].left == t[whole[j]].left
        && v[whole[j]].right == t[whole[j]].right by {
        reveal(linked);
        assert(t.dom().contains(whole[j]));
        if d > 0 {
            assert(!t[a].leaf && !t[b].leaf);
            assert(t[whole[j]].leaf);
        }
    }
    linked_same(t, v, whole);
    assert(level(v, both, d) == level(t, both, d)) by {
        if d == 0 {
            reveal(level);
        }
    }
    removed_up(s, f, v, g, u, p, h, m, top, pre, suf, key, lo, lo + 2, both);
}

/// A node whose child has given up an entry and was put together with a
/// neighbour.
#[verifier::rlimit(60)]
pub proof fn removed_merge(
    s: Store,
    f: Set<u32>,
    t: Store,
    g: Set<u32>,
    v: Store,
    u: Store,
    p: u32,
    h: nat,
    m: nat,
    top: bool,
    pre: Seq<u32>,
    suf: Seq<u32>,
    key: DataView,
    lo: int,
    both: Seq<u32>,
)
    requires
        placed(s, f, p, h, m, top, pre, suf),
        h > 0,
        m >= 2,
        0 <= lo < s[p].kids.len() - 1,
        lo == child_index(s[p], key) || lo + 1 == child_index(s[p], key),
        both == seq![s[p].kids[lo], s[p].kids[lo + 1]],
        ({
            let i = child_index(s[p], key);
            let c = s[p].kids[i];
            let d = (h - 1) as nat;
            let na = t[both[0]];
            let nb = t[both[1]];
            &&& removed(
                s,
                f,
                t,
                g,
                c,
                d,
                pre_of(s, p, h, i, pre),
                suf_of(s, p, h, i, suf),
                key,
            )
            &&& relaxed(t, c, d, m)
            &&& full(s, c, d) ==> full(t, c, d)
            &&& m <= na.cells.len() + nb.cells.len() < 2 * m
            &&& nb.cells.len() > 0
            &&& v.dom().contains(both[0])
            &&& v[both[0]] == (NodeView {
                cells: na.cells + nb.cells,
                kids: na.kids + nb.kids,
                right: nb.right,
                ..na
            })
            &&& d == 0 ==> node_fits(v[both[0]])
            &&& page_holds(v[both[0]].cells)
            &&& forall|x: u32| #![trigger v.dom().contains(x)] #![trigger t.dom().contains(x)]
                x != both[0] && x != both[1] && t.dom().contains(x) ==> v.dom().contains(x) && v[x]
                    == (if x == nb.right && x != 0 && t[x].leaf == na.leaf && node_fits(t[x]) {
                    NodeView { left: both[0], ..t[x] }
                } else {
                    t[x]
                })
            &&& rekeyed(s[p], u[p], v, d, lo, lo + 2, seq![both[0]])
        }),
        only_parent(v, g.insert(both[1]), u, p),
        u.dom().contains(p),
    ensures
        removed(s, f, u, g.insert(both[1]), p, h, pre, suf, key),
        relaxed(u, p, h, m),
        full(s, p, h) ==> full(u, p, h),
        !g.contains(p),
        p != both[1],
        !g.contains(both[1]),
{
    let d = (h - 1) as nat;
    let k = s[p].kids;
    let a = both[0];
    let b = both[1];
    let g2 = g.insert(b);
    let l = k.subrange(lo, lo + 2);
    let pre2 = pre + level(s, k.take(lo), d);
    let suf2 = level(s, k.skip(lo + 2), d) + suf;
    let out = seq![a];
    beside(s, f, t, g, p, h, m, top, pre, suf, key, lo, both);
    assert(both =~= seq![a, b]);
    assert(l =~= both);
    assert forall|x: u32| x != a && x != b implies #[trigger] agree(t, v, x) by {
        if t.dom().contains(x) {
            assert(v.dom().contains(x));
        }
    }
    merged(t, v, a, b, d, m, both);
    member_occurs(s, l, d, 0);
    member_occurs(s, l, d, 1);
    assert(l[0] == a && l[1] == b);
    assert(!f.contains(b)) by {
        assert(!g.contains(b));
        assert(f.subset_of(g));
    }
    assert forall|x: u32| #[trigger] occ(v, out, d, x) + taken(g2, f, x) == occ(s, l, d, x) by {
        assert(occ(t, both, d, x) + taken(g, f, x) == occ(s, l, d, x));
    }
    // Links.
    let whole = pre2 + level(t, both, d) + suf2;
    let now = pre2 + level(v, out, d) + suf2;
    if d == 0 {
        single(v, a, 0);
        assert(level(t, both, 0) == both) by {
            reveal(level);
        }
        let n = pre2.len() as int;
        assert(whole[n] == a);
        assert(whole[n + 1] == b);
        assert(now =~= whole.remove(n + 1));
        assert(linked(t, whole));
        assert(t[b].right == (if n + 2 < whole.len() {
            whole[n + 2]
        } else {
            0
        }) && whole.no_duplicates()) by {
            reveal(linked);
            assert(t.dom().contains(whole[n + 1]));
        }
        assert forall|i: int| 0 <= i < whole.len() && i != n && i != n + 1 implies v.dom().contains(
            #[trigger] whole[i],
        ) && v[whole[i]] == (if i == n + 2 {
            NodeView { left: whole[n], ..t[whole[i]] }
        } else {
            t[whole[i]]
        }) by {
            reveal(linked);
            assert(t.dom().contains(whole[i]));
            assert(whole[i] != whole[n] && whole[i] != whole[n + 1]);
            if n + 2 < whole.len() && i != n + 2 {
                assert(whole[i] != whole[n + 2]);
            }
            page_in_use(s, f, p, h, m, top, pre, suf, lo, i);
        }
        linked_without(t, v, whole, n);
    } else {
        assert(now == whole);
        assert(!t[a].leaf && !t[b].leaf);
        assert forall|j: int| 0 <= j < whole.len() implies v.dom().contains(#[trigger] whole[j])
            && v[whole[j]] == t[whole[j]] by {
            reveal(linked);
            assert(t.dom().contains(whole[j]));
            assert(t[whole[j]].leaf);
        }
        linked_frame(t, v, whole);
    }
    // The rest is as it was.
    let next = t[b].right;
    assert forall|x: u32| #![trigger v.dom().contains(x)] #![trigger s.dom().contains(x)]
        occ(s, l, d, x) == 0 && !f.contains(x) && s.dom().contains(x) implies ({
        &&& v.dom().contains(x)
        &&& same_content(s[x], v[x])
        &&& s[x].leaf && !pre2.contains(x) && !suf2.contains(x) ==> v[x] == s[x]
    }) by {
        assert(x != a && x != b);
        assert(t.dom().contains(x));
        assert(v.dom().contains(x));
        if s[x].leaf && !suf2.contains(x) && d == 0 && x != 0 {
            let n = pre2.len() as int;
            if x == next {
                assert(level(t, both, 0) == both) by {
                    reveal(level);
                }
                reveal(linked);
                assert(whole[n + 1] == b);
                assert(t.dom().contains(whole[n + 1]));
                assert(n + 2 < whole.len());
                assert(whole[n + 2] == suf2[0]);
            }
        }
    }
    assert(f.subset_of(g2));
    assert(all_ok(v, out, d, m));
    removed_up(s, f, v, g2, u, p, h, m, top, pre, suf, key, lo, lo + 2, out);
}

/// Pages beside two children that are leaves are not page zero.
proof fn page_in_use(
    s: Store,
    f: Set<u32>,
    p: u32,
    h: nat,
    m: nat,
    top: bool,
    pre: Seq<u32>,
    suf: Seq<u32>,
    lo: int,
    i: int,
)
    requires
        placed(s, f, p, h, m, top, pre, suf),
        h == 1,
        0 <= lo < s[p].kids.len() - 1,
        0 <= i < (pre + level(s, s[p].kids.take(lo), 0) + seq![
            s[p].kids[lo],
            s[p].kids[lo + 1],
        ] + (level(s, s[p].kids.skip(lo + 2), 0) + suf)).len(),
    ensures
        (pre + level(s, s[p].kids.take(lo), 0) + seq![s[p].kids[lo], s[p].kids[lo + 1]] + (level(
            s,
            s[p].kids.skip(lo + 2),
            0,
        ) + suf))[i] != 0,
{
    reveal(level);
    let k = s[p].kids;
    let both = seq![k[lo], k[lo + 1]];
    let whole = pre + k.take(lo) + both + (k.skip(lo + 2) + suf);
    assert(whole =~= pre + k + suf);
    if i < pre.len() {
        assert(pre.contains(pre[i]));
        assert(occ(s, seq![p], h, pre[i]) == 0);
    } else if i < pre.len() + k.len() {
        let j = i - pre.len();
        member_occurs(s, k, 0, j);
        occ_single(s, p, h, k[j]);
        assert(occ(s, seq![p], h, k[j]) > 0);
    } else {
        let j = i - pre.len() - k.len();
        assert(suf.contains(suf[j]));
        assert(occ(s, seq![p], h, suf[j]) == 0);
    }
}

// -- Leaves and roots ------------------------------------------

/// Cells without one of them take no more room.
proof fn cells_size_without(cells: Seq<CellView>, i: int)
    requires
        0 <= i < cells.len(),
    ensures
        cells_size(cells.remove(i)) <= cells_size(cells),
    decreases cells.len(),
{
    let r = cells.remove(i);
    if i == cells.len() - 1 {
        assert(r =~= cells.drop_last());
    } else {
        cells_size_without(cells.drop_last(), i);
        assert(r.drop_last() =~= cells.drop_last().remove(i));
        assert(r.last() == cells.last());
    }
}

/// A leaf without one of its cells.
pub proof fn leaf_removed(
    s: Store,
    f: Set<u32>,
    u: Store,
    p: u32,
    m: nat,
    top: bool,
    pre: Seq<u32>,
    suf: Seq<u32>,
    key: DataView,
)
    requires
        placed(s, f, p, 0, m, top, pre, suf),
        has_key(s[p].cells, key),
        u == s.insert(p, (NodeView { cells: without_key(s[p].cells, key), ..s[p] })),
    ensures
        removed(s, f, u, f, p, 0, pre, suf, key),
        relaxed(u, p, 0, m),
        u[p].cells.len() + 1 == s[p].cells.len(),
{
    single(s, p, 0);
    single(u, p, 0);
    key_at_bound(s[p].cells, key);
    let n = lower_bound(s[p].cells, key) as int;
    cells_size_without(s[p].cells, n);
    let c = u[p].cells;
    let whole = pre + seq![p] + suf;
    assert forall|i: int| 0 <= i < whole.len() implies u.dom().contains(#[trigger] whole[i])
        && u[whole[i]].leaf && node_fits(u[whole[i]]) && u[whole[i]].left == s[whole[i]].left
        && u[whole[i]].right == s[whole[i]].right by {
        reveal(linked);
        assert(s.dom().contains(whole[i]));
    }
    linked_same(s, u, whole);
    assert forall|x: u32| #[trigger] occ(u, seq![p], 0, x) + taken(f, f, x) == occ(
        s,
        seq![p],
        0,
        x,
    ) by {
        occ_single(s, p, 0, x);
        occ_single(u, p, 0, x);
    }
    assert forall|x: u32| #![trigger u.dom().contains(x)] #![trigger s.dom().contains(x)]
        occ(s, seq![p], 0, x) == 0 && !f.contains(x) && s.dom().contains(x) implies ({
        &&& u.dom().contains(x)
        &&& same_content(s[x], u[x])
        &&& s[x].leaf && !pre.contains(x) && !suf.contains(x) ==> u[x] == s[x]
    }) by {
        occ_single(s, p, 0, x);
    }
}

/// What is left of a whole tree without an entry.
pub proof fn removed_facts(
    s: Store,
    f: Set<u32>,
    t: Store,
    g: Set<u32>,
    p: u32,
    h: nat,
    m: nat,
    top: bool,
    pre: Seq<u32>,
    suf: Seq<u32>,
    key: DataView,
)
    requires
        placed(s, f, p, h, m, top, pre, suf),
        removed(s, f, t, g, p, h, pre, suf, key),
    ensures
        unique(t, seq![p], h),
        sorted(entries(t, seq![p], h)),
        !g.contains(0),
        forall|x: u32| #[trigger] occ(t, seq![p], h, x) > 0 ==> x != 0 && !g.contains(x),
        forall|x: u32| g.contains(x) && !f.contains(x) ==> #[trigger] occ(s, seq![p], h, x) > 0,
{
    key_at_bound(entries(s, seq![p], h), key);
    without_key_sorted(entries(s, seq![p], h), lower_bound(entries(s, seq![p], h), key) as int);
    assert forall|x: u32| #[trigger] occ(t, seq![p], h, x) <= 1 by {
        assert(occ(t, seq![p], h, x) + taken(g, f, x) == occ(s, seq![p], h, x));
    }
    assert forall|x: u32| #[trigger] occ(t, seq![p], h, x) > 0 implies x != 0 && !g.contains(x) by {
        assert(occ(t, seq![p], h, x) + taken(g, f, x) == occ(s, seq![p], h, x));
        assert(occ(s, seq![p], h, x) <= 1);
    }
    assert forall|x: u32| g.contains(x) && !f.contains(x) implies #[trigger] occ(s, seq![p], h, x)
        > 0 by {
        assert(occ(t, seq![p], h, x) + taken(g, f, x) == occ(s, seq![p], h, x));
    }
    if g.contains(0) {
        assert(occ(s, seq![p], h, 0) > 0);
    }
}

/// A root with a single child gives way to it: the child moves to the page of
/// the root.
#[verifier::rlimit(60)]
pub proof fn root_lowered(
    s: Store,
    f: Set<u32>,
    t: Store,
    g: Set<u32>,
    u: Store,
    p: u32,
    h: nat,
    m: nat,
    key: DataView,
    c: u32,
)
    requires
        placed(s, f, p, h, m, true, seq![], seq![]),
        removed(s, f, t, g, p, h, seq![], seq![], key),
        relaxed(t, p, h, m),
        m >= 1,
        h > 0,
        t[p].kids == seq![c],
        u.dom().contains(p),
        same_content(t[c], u[p]),
        u[p].left == 0,
        u[p].right == 0,
        forall|x: u32| #![trigger u.dom().contains(x)] #![trigger t.dom().contains(x)]
            x != p && x != c && t.dom().contains(x) ==> u.dom().contains(x) && u[x] == t[x],
    ensures
        placed(u, g.insert(c), p, (h - 1) as nat, m, true, seq![], seq![]),
        entries(u, seq![p], (h - 1) as nat) == without_key(entries(s, seq![p], h), key),
        kept(s, f, u, p, h, seq![], seq![]),
        f.subset_of(g.insert(c)),
        forall|x: u32| #[trigger]
            occ(u, seq![p], (h - 1) as nat, x) + taken(g.insert(c), f, x) == occ(
                s,
                seq![p],
                h,
                x,
            ),
        !g.contains(c),
        c != p,
        c != 0,
        !f.contains(c),
{
    let d = (h - 1) as nat;
    let none = Seq::<u32>::empty();
    let g2 = g.insert(c);
    removed_facts(s, f, t, g, p, h, m, true, none, none, key);
    single(t, p, h);
    assert(ok(t, t[p].kids[0], d, m, false));
    occ_single(t, p, h, c);
    occ_single(t, p, h, p);
    occ_single(t, c, d, c);
    assert(occ(t, seq![p], h, c) > 0);
    assert(occ(t, seq![p], h, p) <= 1);
    assert(c != p) by {
        if c == p {
            assert(occ(t, seq![p], h, p) >= 2);
        }
    }
    assert(occ(t, seq![p], h, c) <= 1);
    if d > 0 {
        assert forall|x: u32| #[trigger] occ(t, t[c].kids, (d - 1) as nat, x) > 0 implies agree(
            t,
            u,
            x,
        ) by {
            occ_single(t, p, h, x);
            occ_single(t, c, d, x);
            assert(occ(t, seq![p], h, x) <= 1);
        }
    }
    crate::engine::whole::moved(t, u, c, p, d, m);
    single(u, p, d);
    single(t, c, d);
    assert forall|x: u32| #[trigger] occ(u, seq![p], d, x) + taken(g2, f, x) == occ(
        s,
        seq![p],
        h,
        x,
    ) by {
        occ_single(u, p, d, x);
        occ_single(t, p, h, x);
        occ_single(t, c, d, x);
        assert(occ(t, seq![p], h, x) + taken(g, f, x) == occ(s, seq![p], h, x));
        if d > 0 {
            assert(occ(u, u[p].kids, (d - 1) as nat, x) == occ(t, t[c].kids, (d - 1) as nat, x));
        }
    }
    assert forall|x: u32| #[trigger] occ(u, seq![p], d, x) <= 1 by {
        assert(occ(s, seq![p], h, x) <= 1);
    }
    assert forall|x: u32| #[trigger] occ(u, seq![p], d, x) > 0 implies x != 0 && !g2.contains(x) by {
        assert(occ(u, seq![p], d, x) + taken(g2, f, x) == occ(s, seq![p], h, x));
        assert(occ(s, seq![p], h, x) <= 1);
        assert(occ(s, seq![p], h, x) > 0);
    }
    // Links.
    let l = none + level(t, seq![p], h) + none;
    let k = none + level(u, seq![p], d) + none;
    assert(l =~= level(t, seq![p], h));
    assert(k =~= level(u, seq![p], d));
    if d == 0 {
        assert(k =~= seq![p]);
        assert(linked(u, k)) by {
            reveal(linked);
        }
    } else {
        assert(k =~= l);
        assert forall|i: int| 0 <= i < l.len() implies u.dom().contains(#[trigger] l[i]) && u[l[i]]
            == t[l[i]] by {
            reveal(linked);
            assert(t.dom().contains(l[i]));
            assert(t[l[i]].leaf);
            assert(!t[p].leaf && !t[c].leaf);
        }
        linked_frame(t, u, l);
    }
    assert(occ(s, seq![p], h, c) > 0) by {
        assert(occ(t, seq![p], h, c) + taken(g, f, c) == occ(s, seq![p], h, c));
    }
    assert forall|x: u32| #![trigger u.dom().contains(x)] #![trigger s.dom().contains(x)]
        occ(s, seq![p], h, x) == 0 && !f.contains(x) && s.dom().contains(x) implies ({
        &&& u.dom().contains(x)
        &&& same_content(s[x], u[x])
        &&& s[x].leaf && !none.contains(x) && !none.contains(x) ==> u[x] == s[x]
    }) by {
        occ_single(s, p, h, p);
        assert(t.dom().contains(x));
        assert(x != p && x != c);
    }
}

} // verus!
