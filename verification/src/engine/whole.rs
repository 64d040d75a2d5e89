//! Whole trees: their height, growing at the root, and other trees.
use vstd::prelude::*;

use crate::engine::btree::BTree;
use crate::engine::insert::InsertResult;
use crate::engine::node::{cell_view, node_fits, page_holds, BTreeNode, CellView, NodeView};
use crate::engine::pages::distinct_below;
use crate::engine::record::BTreeValueType;
use crate::engine::tree::{
    agree, around, entries, entries_concat, frame, frame_ok, has_key, level,
    level_concat, linked, max_key, occ, occ_concat, occ_single, ok, same_content, single, full,
    full_frame, unique, with_cell, with_cell_sorted, Store,
};
use crate::engine::tree_insert::{
    all_in_store, are_halves, child_index, filled, halved, halved_bound, inner_ok, inserted, kept, linked_frame,
    placed, raised, room, taken, written_cells,
};
use crate::engine::value::{BTreeDataType, DataView};
use crate::engine::recovery::group_calls;

verus! {

broadcast use group_calls;

/// Whether a page is the root of a whole tree of height `h` in order.
pub open spec fn is_root(s: Store, f: Set<u32>, p: u32, h: nat, m: nat) -> bool {
    placed(s, f, p, h, m, true, seq![], seq![])
}

/// A tree has one height.
pub proof fn height_unique(s: Store, p: u32, h: nat, k: nat, m: nat, top: bool)
    requires
        ok(s, p, h, m, top),
        ok(s, p, k, m, top),
    ensures
        h == k,
    decreases h,
{
    if h > 0 && k > 0 {
        let q = s[p].kids[0];
        assert(ok(s, s[p].kids[0], (h - 1) as nat, m, false));
        assert(ok(s, s[p].kids[0], (k - 1) as nat, m, false));
        height_unique(s, q, (h - 1) as nat, (k - 1) as nat, m, false);
    }
}

/// The pages on the way to the leftmost leaf, from below.
spec fn left_path(s: Store, p: u32, h: nat) -> Seq<u32>
    decreases h,
{
    if h == 0 {
        seq![p]
    } else {
        left_path(s, s[p].kids[0], (h - 1) as nat).push(p)
    }
}

proof fn left_path_distinct(s: Store, p: u32, h: nat, m: nat, top: bool)
    requires
        ok(s, p, h, m, top),
        unique(s, seq![p], h),
    ensures
        left_path(s, p, h).len() == h + 1,
        left_path(s, p, h).no_duplicates(),
        forall|i: int|
            0 <= i < left_path(s, p, h).len() ==> occ(s, seq![p], h, #[trigger] left_path(s, p, h)[i])
                > 0 && s.dom().contains(left_path(s, p, h)[i]),
    decreases h,
{
    occ_single(s, p, h, p);
    if h > 0 {
        let d = (h - 1) as nat;
        let q = s[p].kids[0];
        assert(ok(s, s[p].kids[0], d, m, false));
        around(s, s[p].kids, 0, d);
        assert forall|x: u32| #[trigger] occ(s, seq![q], d, x) <= 1 by {
            occ_single(s, p, h, x);
            assert(occ(s, seq![p], h, x) <= 1);
        }
        left_path_distinct(s, q, d, m, false);
        let l = left_path(s, q, d);
        let k = left_path(s, p, h);
        assert(occ(s, seq![p], h, p) <= 1);
        assert forall|i: int| 0 <= i < k.len() implies occ(s, seq![p], h, #[trigger] k[i]) > 0
            && s.dom().contains(k[i]) by {
            if i < l.len() {
                assert(k[i] == l[i]);
                occ_single(s, p, h, l[i]);
            }
        }
        assert forall|i: int, j: int| 0 <= i < k.len() && 0 <= j < k.len() && i != j implies k[i]
            != k[j] by {
            if i < l.len() {
                assert(occ(s, seq![q], d, l[i]) > 0);
            }
            if j < l.len() {
                assert(occ(s, seq![q], d, l[j]) > 0);
            }
        }
    }
}

/// A tree is lower than its database has pages.
pub proof fn height_bound(s: Store, p: u32, h: nat, m: nat, top: bool, total: nat)
    requires
        ok(s, p, h, m, top),
        unique(s, seq![p], h),
        forall|x: u32| #[trigger] s.dom().contains(x) ==> x < total,
    ensures
        h < total,
{
    left_path_distinct(s, p, h, m, top);
    let l = left_path(s, p, h);
    assert forall|i: int| 0 <= i < l.len() implies (#[trigger] l[i]) < total by {
        assert(s.dom().contains(l[i]));
    }
    distinct_below(l, total);
}

/// A tree whose root was moved to another page.
pub proof fn moved(s: Store, t: Store, p: u32, y: u32, h: nat, m: nat)
    requires
        ok(s, p, h, m, false),
        m >= 1,
        t.dom().contains(y),
        same_content(s[p], t[y]),
        h > 0 ==> forall|x: u32| #[trigger]
            occ(s, s[p].kids, (h - 1) as nat, x) > 0 ==> agree(s, t, x),
    ensures
        ok(t, y, h, m, false),
        full(s, p, h) ==> full(t, y, h),
        max_key(t, y, h) == max_key(s, p, h),
        entries(t, seq![y], h) == entries(s, seq![p], h),
        h > 0 ==> level(t, seq![y], h) == level(s, seq![p], h),
        h > 0 ==> forall|x: u32| #[trigger]
            occ(t, t[y].kids, (h - 1) as nat, x) == occ(s, s[p].kids, (h - 1) as nat, x),
{
    single(s, p, h);
    single(t, y, h);
    if h > 0 {
        let d = (h - 1) as nat;
        let k = s[p].kids;
        all_in_store(s, k, d, m);
        assert forall|x: u32| #[trigger] occ(s, k, d, x) > 0 implies same_content(s[x], t[x]) by {
            assert(s.dom().contains(x));
            assert(agree(s, t, x));
        }
        frame(s, t, k, d);
        assert forall|i: int| 0 <= i < k.len() implies ok(t, #[trigger] k[i], d, m, false) && max_key(
            t,
            k[i],
            d,
        ) == max_key(s, k[i], d) by {
            assert(ok(s, k[i], d, m, false));
            assert forall|x: u32| #[trigger] occ(s, seq![k[i]], d, x) > 0 implies agree(s, t, x) by {
                around(s, k, i, d);
                assert(occ(s, k, d, x) > 0);
            }
            frame_ok(s, t, k[i], d, m, false);
        }
        assert forall|i: int| 0 <= i < k.len() && full(s, #[trigger] k[i], d) implies full(
            t,
            k[i],
            d,
        ) by {
            assert(ok(s, k[i], d, m, false));
            assert forall|x: u32| #[trigger] occ(s, seq![k[i]], d, x) > 0 implies agree(s, t, x) by {
                around(s, k, i, d);
                assert(occ(s, k, d, x) > 0);
            }
            full_frame(s, t, k[i], d, m, false);
        }
        assert(k.last() == k[k.len() - 1]);
    }
}

/// A root that was split is put above its halves: the left half moves to page
/// `y`.
#[verifier::rlimit(60)]
pub proof fn root_raised(
    s: Store,
    f: Set<u32>,
    t: Store,
    g: Set<u32>,
    u: Store,
    p: u32,
    h: nat,
    m: nat,
    q: u32,
    y: u32,
    c: CellView,
)
    requires
        is_root(s, f, p, h, m),
        m >= 2,
        inserted(s, f, t, g, p, h, seq![], seq![], seq![p, q], c),
        ok(t, p, h, m, false),
        ok(t, q, h, m, false),
        full(t, p, h),
        g.contains(y),
        y != 0,
        u.dom().contains(p),
        u.dom().contains(y),
        u.dom().contains(q),
        u[y] == t[p],
        u[q] == (NodeView { left: y, ..t[q] }),
        !u[p].leaf,
        u[p].left == 0,
        u[p].right == 0,
        u[p].kids == seq![y, q],
        u[p].cells == seq![(max_key(t, p, h), Seq::<DataView>::empty())],
        page_holds(u[p].cells),
        forall|x: u32| #![trigger u.dom().contains(x)] #![trigger t.dom().contains(x)]
            x != p && x != q && !g.contains(x) && t.dom().contains(x) ==> u.dom().contains(x)
                && u[x] == t[x],
    ensures
        is_root(u, g.remove(y), p, h + 1, m),
        entries(u, seq![p], h + 1) == with_cell(entries(s, seq![p], h), c),
        kept(s, f, u, p, h, seq![], seq![]),
        g.remove(y).subset_of(f),
        forall|x: u32| #[trigger]
            occ(u, seq![p], h + 1, x) == occ(s, seq![p], h, x) + taken(f, g.remove(y), x),
        !has_key(entries(s, seq![p], h), c.0),
{
    let both = seq![p, q];
    let kids = seq![y, q];
    let g2 = g.remove(y);
    assert(both =~= seq![p] + seq![q]);
    assert(kids =~= seq![y] + seq![q]);
    occ_single(s, p, h, p);
    assert(occ(s, seq![p], h, p) > 0);
    // Pages of the two halves are in use, and all different.
    assert forall|x: u32| #[trigger] occ(t, both, h, x) <= 1 by {
        assert(occ(s, seq![p], h, x) <= 1);
        if occ(s, seq![p], h, x) > 0 {
            assert(!f.contains(x));
        }
    }
    assert forall|x: u32| #[trigger] occ(t, both, h, x) > 0 implies !g.contains(x) && x != y && x
        != 0 by {
        if occ(s, seq![p], h, x) > 0 {
            assert(!f.contains(x));
        }
    }
    assert forall|x: u32| #[trigger]
        occ(t, both, h, x) == occ(t, seq![p], h, x) + occ(t, seq![q], h, x) by {
        occ_concat(t, seq![p], seq![q], h, x);
    }
    occ_single(t, p, h, p);
    occ_single(t, q, h, q);
    assert(occ(t, both, h, p) <= 1);
    assert(occ(t, both, h, q) <= 1);
    assert(occ(t, seq![q], h, p) == 0);
    assert(occ(t, seq![p], h, q) == 0);
    occ_single(t, q, h, p);
    occ_single(t, p, h, q);
    assert(p != q);
    assert(y != p && y != q) by {
        assert(occ(t, both, h, p) > 0);
        assert(occ(t, both, h, q) > 0);
    }
    assert(m >= 1);
    // The left half in its new page, and the right half.
    if h > 0 {
        let d = (h - 1) as nat;
        assert forall|x: u32| #[trigger] occ(t, t[p].kids, d, x) > 0 implies agree(t, u, x) by {
            occ_single(t, p, h, x);
            assert(occ(t, both, h, x) > 0);
            assert(x != p);
            assert(x != q);
        }
    }
    moved(t, u, p, y, h, m);
    assert forall|x: u32| #[trigger] occ(t, seq![q], h, x) > 0 implies agree(t, u, x) by {
        assert(occ(t, both, h, x) > 0);
        assert(x != p);
    }
    frame_ok(t, u, q, h, m, false);
    all_in_store(t, seq![q], h, m);
    assert forall|x: u32| #[trigger] occ(t, seq![q], h, x) > 0 implies same_content(t[x], u[x]) by {
        assert(t.dom().contains(x));
        assert(agree(t, u, x));
    }
    frame(t, u, seq![q], h);
    // The new root.
    let e = (h + 1) as nat;
    single(u, p, e);
    entries_concat(t, seq![p], seq![q], h);
    entries_concat(u, seq![y], seq![q], h);
    level_concat(t, seq![p], seq![q], h);
    level_concat(u, seq![y], seq![q], h);
    assert(h > 0 || t[p].cells.len() > 0);
    let n = u[p];
    assert forall|i: int| 0 <= i < n.kids.len() implies ok(u, #[trigger] n.kids[i], h, m, false) by {}
    assert(n.cells[0].0 == max_key(u, n.kids[0], h));
    assert(n.kids.last() == q);
    assert(q != 0) by {
        assert(occ(t, both, h, q) > 0);
    }
    inner_ok(u, p, e, m, true);
    assert forall|x: u32| #[trigger]
        occ(u, seq![p], e, x) == occ(s, seq![p], h, x) + taken(f, g2, x) by {
        occ_single(u, p, e, x);
        occ_concat(u, seq![y], seq![q], h, x);
        occ_single(u, y, h, x);
        occ_single(t, p, h, x);
        assert(occ(u, seq![q], h, x) == occ(t, seq![q], h, x));
        assert(occ(t, both, h, x) == occ(s, seq![p], h, x) + taken(f, g, x));
        if h > 0 {
            assert(occ(u, u[y].kids, (h - 1) as nat, x) == occ(t, t[p].kids, (h - 1) as nat, x));
        }
    }
    assert forall|x: u32| #[trigger] occ(u, seq![p], e, x) <= 1 by {
        if occ(s, seq![p], h, x) > 0 {
            assert(!f.contains(x));
        }
        assert(occ(s, seq![p], h, x) <= 1);
    }
    assert forall|x: u32| #[trigger] occ(u, seq![p], e, x) > 0 implies x != 0 && !g2.contains(x) by {
        if occ(s, seq![p], h, x) > 0 {
            assert(!f.contains(x));
        }
    }
    with_cell_sorted(entries(s, seq![p], h), c);
    // Links.
    let none = Seq::<u32>::empty();
    let l = none + level(t, both, h) + none;
    let k = none + level(u, seq![p], e) + none;
    assert(l =~= level(t, both, h));
    assert(k =~= level(u, kids, h));
    if h == 0 {
        single(t, p, 0);
        single(t, q, 0);
        single(u, y, 0);
        single(u, q, 0);
        assert(l =~= seq![p, q]);
        assert(k =~= seq![y, q]);
        assert(linked(u, k)) by {
            reveal(linked);
            assert(t.dom().contains(l[0]));
            assert(t.dom().contains(l[1]));
            assert(k[0] == y && k[1] == q);
        }
    } else {
        assert(k =~= l);
        assert forall|i: int| 0 <= i < l.len() implies u.dom().contains(#[trigger] l[i]) && u[l[i]]
            == t[l[i]] by {
            reveal(linked);
            crate::engine::tree::leaf_occurs(t, both, h, i);
            assert(occ(t, both, h, l[i]) > 0);
            assert(t.dom().contains(l[i]));
            assert(t[l[i]].leaf);
            assert(!t[p].leaf && !t[q].leaf);
        }
        linked_frame(t, u, l);
    }
    // The rest is as it was.
    assert forall|x: u32| #![trigger u.dom().contains(x)] #![trigger s.dom().contains(x)]
        occ(s, seq![p], h, x) == 0 && !f.contains(x) && s.dom().contains(x) implies ({
        &&& u.dom().contains(x)
        &&& same_content(s[x], u[x])
        &&& s[x].leaf && !none.contains(x) && !none.contains(x) ==> u[x] == s[x]
    }) by {
        assert(t.dom().contains(x));
        assert(x != p);
        assert(!g.contains(x));
        assert(x != q) by {
            assert(occ(t, both, h, q) == occ(s, seq![p], h, q) + taken(f, g, q));
        }
    }
}

/// A tree that shares no page with another, or with free pages, stays as it is
/// when the other changes.
pub proof fn other_tree_kept(
    s: Store,
    f: Set<u32>,
    t: Store,
    g: Set<u32>,
    p: u32,
    h: nat,
    q: u32,
    k: nat,
    m: nat,
)
    requires
        kept(s, f, t, p, h, seq![], seq![]),
        is_root(s, f, q, k, m),
        forall|x: u32| #[trigger] occ(s, seq![q], k, x) > 0 ==> occ(s, seq![p], h, x) == 0
            && !g.contains(x),
        !g.contains(0),
    ensures
        is_root(t, g, q, k, m),
        entries(t, seq![q], k) == entries(s, seq![q], k),
        forall|x: u32| #[trigger] occ(t, seq![q], k, x) == occ(s, seq![q], k, x),
{
    let none = Seq::<u32>::empty();
    root_in_store(s, q, k, m, true);
    assert forall|x: u32| #[trigger] occ(s, seq![q], k, x) > 0 implies agree(s, t, x)
        && same_content(s[x], t[x]) && (s[x].leaf ==> t[x] == s[x]) && t.dom().contains(x) by {
        assert(s.dom().contains(x));
        assert(!f.contains(x));
        assert(!none.contains(x));
    }
    frame(s, t, seq![q], k);
    frame_ok(s, t, q, k, m, true);
    let l = none + level(s, seq![q], k) + none;
    assert(l =~= level(s, seq![q], k));
    assert forall|i: int| 0 <= i < l.len() implies t.dom().contains(#[trigger] l[i]) && t[l[i]]
        == s[l[i]] by {
        reveal(linked);
        crate::engine::tree::leaf_occurs(s, seq![q], k, i);
        assert(s.dom().contains(l[i]));
        assert(s[l[i]].leaf);
    }
    linked_frame(s, t, l);
}

/// All pages of a tree in order are in the store.
pub proof fn root_in_store(s: Store, p: u32, h: nat, m: nat, top: bool)
    requires
        ok(s, p, h, m, top),
    ensures
        forall|x: u32| #[trigger] occ(s, seq![p], h, x) > 0 ==> s.dom().contains(x),
{
    if h > 0 {
        all_in_store(s, s[p].kids, (h - 1) as nat, m);
    }
    assert forall|x: u32| #[trigger] occ(s, seq![p], h, x) > 0 implies s.dom().contains(x) by {
        occ_single(s, p, h, x);
    }
}

impl BTree {
    /// Whether page `root` is the root of a tree of height `h` in order.
    pub open spec fn tree_at(&self, root: u32, h: nat) -> bool {
        self.free_ok() && is_root(self.store(), self.free(), root, h, self.m as nat)
    }

    /// Whether page `root` is the root of a tree in order.
    pub open spec fn is_tree(&self, root: u32) -> bool {
        exists|h: nat| self.tree_at(root, h)
    }

    /// The height of a tree.
    pub open spec fn height(&self, root: u32) -> nat {
        choose|h: nat| self.tree_at(root, h)
    }

    /// The entries of a tree, in order.
    pub open spec fn rows(&self, root: u32) -> Seq<CellView> {
        entries(self.store(), seq![root], self.height(root))
    }

    /// Whether page `x` belongs to the tree of page `root`.
    pub open spec fn owns(&self, root: u32, x: u32) -> bool {
        occ(self.store(), seq![root], self.height(root), x) > 0
    }

    /// A tree has one height.
    pub proof fn height_is(&self, root: u32, h: nat)
        requires
            self.tree_at(root, h),
        ensures
            self.is_tree(root),
            self.height(root) == h,
            self.rows(root) == entries(self.store(), seq![root], h),
    {
        let k = self.height(root);
        assert(self.tree_at(root, k));
        height_unique(self.store(), root, h, k, self.m as nat, true);
    }

    /// Databases with the same nodes and free pages have the same trees.
    pub proof fn same_trees(&self, o: &BTree, root: u32)
        requires
            o.is_tree(root),
            self.store() == o.store(),
            self.free() == o.free(),
            self.m == o.m,
            self.free_ok(),
        ensures
            self.is_tree(root),
            self.height(root) == o.height(root),
            self.rows(root) == o.rows(root),
    {
        let h = o.height(root);
        assert(o.tree_at(root, h));
        assert(self.tree_at(root, h));
        self.height_is(root, h);
    }

    /// Counts the levels below page `root`; `None` where the pages are no tree.
    pub fn depth(&mut self, root: u32) -> (r: Option<u32>)
        requires
            old(self).wf(),
        ensures
            final(self).wf(),
            final(self).same(old(self)),
            final(self).store() == old(self).store(),
            old(self).free_ok() ==> final(self).free_ok() && final(self).free() == old(self).free(),
            old(self).is_tree(root) ==> r == Some(old(self).height(root) as u32) && old(
                self).height(root) < old(self).total(),
    {
        let ghost before = *self;
        let ghost h = before.height(root);
        let ghost m = before.m as nat;
        let ghost s = before.store();
        let ghost good = before.is_tree(root);
        proof {
            if good {
                assert(before.tree_at(root, h));
                height_bound(s, root, h, m, true, before.total() as nat);
            }
            crate::engine::btree::same_facts(&before, self);
            if before.free_ok() {
                assert(self.free() =~= before.free());
            }
        }
        let total: u32 = self.pager.total_pages;
        let mut p: u32 = root;
        let mut d: u32 = 0;
        while d < total
            invariant
                before == *old(self),
                total == before.total(),
                before.wf(),
                self.wf(),
                self.same(&before),
                self.store() == s,
                s == before.store(),
                before.free_ok() ==> self.free_ok() && self.free() == before.free(),
                good == before.is_tree(root),
                h == before.height(root),
                good ==> d <= h < total && ok(s, p, (h - d) as nat, m, d == 0),
            decreases total - d,
        {
            let ghost mid = *self;
            let found = self.getnode(p);
            proof {
                crate::engine::btree::same_transitive(&before, &mid, self);
                if before.free_ok() {
                    assert(self.free() =~= before.free());
                }
            }
            let node = match found {
                Some(n) => n,
                None => return None,
            };
            if node.is_leaf {
                return Some(d);
            }
            if node.children_pgno.len() == 0 {
                return None;
            }
            proof {
                if good {
                    assert(ok(s, s[p].kids[0], (h - d - 1) as nat, m, false));
                }
            }
            p = node.children_pgno[0];
            d = d + 1;
        }
        None
    }

    /// Whether `n` more pages can be added.
    fn room_for(&self, n: u32) -> (r: bool)
        ensures
            r == self.can_grow(n as int),
    {
        let total: u32 = self.pager.total_pages;
        if n > u32::MAX - total {
            return false;
        }
        match ((total + n) as usize).checked_mul(crate::engine::journal::JOURNAL_PAGE) {
            Some(k) => k <= usize::MAX - crate::engine::journal::JOURNAL_HEADER,
            None => false,
        }
    }

    /// Puts a root that was split above its halves: its left half moves to a new
    /// page.
    #[verifier::rlimit(60)]
    fn keep_root(&mut self, root: u32, q: u32, upkey: BTreeDataType) -> (r: bool)
        requires
            old(self).wf(),
            old(self).is_write,
        ensures
            final(self).wf(),
            final(self).m == old(self).m,
            final(self).is_write,
            final(self).pager.same_transaction(&old(self).pager),
            old(self).total() <= final(self).total() <= old(self).total() + 1,
            ({
                let t = old(self).store();
                let g = old(self).free();
                let u = final(self).store();
                old(self).free_ok() && old(self).can_grow(1) && t.dom().contains(root)
                    && t.dom().contains(q) && root != q && !g.contains(root) && !g.contains(q)
                    && node_fits(t[root]) && node_fits(t[q]) && page_holds(seq![(upkey@, Seq::<DataView>::empty())]) && q != 0
                    ==> r && final(self).free_ok() && final(self).spends(old(self)) && exists|
                    y: u32,
                | {
                    &&& #[trigger] g.contains(y)
                    &&& y != 0
                    &&& final(self).free() == g.remove(y)
                    &&& u.dom().contains(root)
                    &&& u.dom().contains(y)
                    &&& u.dom().contains(q)
                    &&& u[y] == t[root]
                    &&& u[q] == (NodeView { left: y, ..t[q] })
                    &&& !u[root].leaf
                    &&& u[root].left == 0
                    &&& u[root].right == 0
                    &&& u[root].kids == seq![y, q]
                    &&& u[root].cells == seq![(upkey@, Seq::<DataView>::empty())]
                    &&& forall|x: u32|
                        #![trigger u.dom().contains(x)]
                        #![trigger t.dom().contains(x)]
                        x != root && x != q && !g.contains(x) && t.dom().contains(x)
                            ==> u.dom().contains(x) && u[x] == t[x]
                }
            }),
    {
        let ghost before = *self;
        let ghost t = self.store();
        let ghost g = self.free();
        let ghost good = before.free_ok() && before.can_grow(1) && t.dom().contains(root)
            && t.dom().contains(q) && root != q && !g.contains(root) && !g.contains(q) && node_fits(
            t[root],
        ) && node_fits(t[q]) && page_holds(seq![(upkey@, Seq::<DataView>::empty())]) && q != 0;
        let old_root = match self.getnode(root) {
            Some(n) => n,
            None => return false,
        };
        let right = match self.getnode(q) {
            Some(n) => n,
            None => return false,
        };
        let ghost one = *self;
        proof {
            if good {
                assert(one.free() =~= g);
                assert(before.can_grow(1) ==> one.can_grow(1));
            }
        }
        let y: u32 = match self.get_newpage() {
            Some(y) => y,
            None => return false,
        };
        let ghost two = *self;
        proof {
            if good {
                assert(two.free() =~= g.remove(y));
                assert(g.contains(y)) by {
                    assert(one.is_free(y));
                    assert(one.free().contains(y));
                }
                assert(two.is_free(y) == two.free().contains(y));
                assert(two.is_free(q) == two.free().contains(q));
                assert(two.is_free(root) == two.free().contains(root));
            }
        }
        let is_data_table = old_root.is_data_table;
        let mut left = old_root;
        left.pgno = y;
        let mut right = right;
        right.left = y;
        let mut cells: Vec<(BTreeDataType, BTreeValueType)> = Vec::new();
        let ghost up0 = upkey@;
        cells.push((upkey, BTreeValueType::null()));
        let mut children_pgno: Vec<u32> = Vec::new();
        children_pgno.push(y);
        children_pgno.push(q);
        let top = BTreeNode {
            pgno: root,
            is_leaf: false,
            is_data_table,
            left: 0,
            right: 0,
            children_pgno,
            cells,
        };
        proof {
            assert(top@.kids =~= seq![y, q]);
            assert(cell_view(top.cells@[0]) == (up0, Seq::<DataView>::empty()));
            assert(top@.cells =~= seq![(up0, Seq::<DataView>::empty())]);
            if good {
                small_root_fits(top@);
            }
        }
        let a = self.putnode(&left);
        let ghost three = *self;
        proof {
            if good {
                assert(three.free() =~= two.free());
            }
        }
        let b = self.putnode(&right);
        let ghost four = *self;
        proof {
            if good {
                assert(three.is_free(q) == three.free().contains(q));
                assert(four.free() =~= two.free());
                assert(four.is_free(root) == four.free().contains(root));
            }
        }
        let c = self.putnode(&top);
        proof {
            if good {
                let u = self.store();
                assert(self.free() =~= g.remove(y));
                assert(g.contains(y));
                assert(y != root && y != q);
                assert forall|x: u32| #![trigger u.dom().contains(x)] #![trigger t.dom().contains(x)]
                    x != root && x != q && !g.contains(x) && t.dom().contains(
                        x,
                    ) implies u.dom().contains(x) && u[x] == t[x] by {
                    assert(two.store().dom().contains(x) && two.store()[x] == t[x]);
                }
                assert(u[y] == t[root]);
            }
        }
        a && b && c
    }

    /// Puts an entry into the tree of page `root`; says whether it was put in.
    /// It is not where the key is there already, where a page that is written would
    /// not hold its cells, outside a write transaction, and where the database
    /// cannot grow. Then nothing changes.
    #[verifier::rlimit(100)]
    pub fn insert_entry(&mut self, root: u32, key: &BTreeDataType, value: &BTreeValueType) -> (r:
        bool)
        requires
            old(self).wf(),
        ensures
            final(self).wf(),
            final(self).m == old(self).m,
            final(self).is_write == old(self).is_write,
            final(self).pager.same_transaction(&old(self).pager),
            ({
                let c = (key@, value@);
                let e = old(self).rows(root);
                let h = old(self).height(root);
                let m = old(self).m as nat;
                old(self).is_tree(root) ==> {
                    &&& final(self).is_tree(root)
                    &&& r ==> final(self).rows(root) == with_cell(e, c)
                    &&& r ==> root_filled(old(self), final(self), root, c)
                    &&& r == (old(self).is_write && !has_key(e, key@)
                        && old(self).can_grow(h + 2int) && room(
                        old(self).store(),
                        root,
                        h,
                        c,
                        m,
                    ) is Some)
                    &&& old(self).total() <= final(self).total()
                    &&& final(self).spends(old(self))
                    &&& r ==> final(self).total() <= old(self).total() + new_pages(
                        old(self).store(),
                        root,
                        h,
                        c,
                        m,
                    )
                    &&& !r ==> final(self).total() == old(self).total()
                    &&& !r ==> final(self).store() == old(self).store() && final(self).free()
                        == old(self).free()
                    &&& kept(
                        old(self).store(),
                        old(self).free(),
                        final(self).store(),
                        root,
                        h,
                        seq![],
                        seq![],
                    )
                    &&& final(self).free().subset_of(old(self).free())
                    &&& forall|x: u32| #[trigger]
                        final(self).owns(root, x) <==> old(self).owns(root, x) || (
                        old(self).free().contains(x) && !final(self).free().contains(x))
                }
            }),
    {
        let ghost before = *self;
        let ghost good = before.is_tree(root);
        let ghost h = before.height(root);
        let ghost m = before.m as nat;
        let ghost s = before.store();
        let ghost f = before.free();
        let ghost c = (key@, value@);
        proof {
            if good {
                assert(before.tree_at(root, h));
                self.same_trees(&before, root);
                kept_self(s, f, root, h);
            }
        }
        if !self.is_write {
            return false;
        }
        let d: u32 = match self.depth(root) {
            Some(d) => d,
            None => return false,
        };
        let ghost one = *self;
        proof {
            if good {
                one.same_trees(&before, root);
                assert(one.tree_at(root, h));
                assert(one.can_grow(h + 2int) == before.can_grow(h + 2int));
            }
        }
        if d > u32::MAX - 2 || !self.room_for(d + 2) {
            return false;
        }
        if self.find_room(root, key, value, d + 1, Ghost(h), Ghost(true)).is_none() {
            proof {
                if good {
                    self.same_trees(&before, root);
                }
            }
            return false;
        }
        proof {
            if good {
                self.same_trees(&before, root);
                halved_bound(s, root, h, c, m);
            }
        }
        let r = self.insert_into(
            root,
            key,
            value,
            d + 1,
            Ghost(h),
            Ghost(true),
            Ghost(Seq::<u32>::empty()),
            Ghost(Seq::<u32>::empty()),
        );
        let ghost two = *self;
        let ghost t = self.store();
        let ghost g = self.free();
        match r {
            InsertResult::Broken => false,
            InsertResult::Error => {
                proof {
                    if good {
                        two.same_trees(&before, root);
                    }
                }
                false
            },
            InsertResult::Done => {
                proof {
                    if good {
                        inserted_root(s, f, t, g, root, h, m, c);
                        assert(two.tree_at(root, h));
                        two.height_is(root, h);
                    }
                }
                true
            },
            InsertResult::Needsplit { upkey, right: q } => {
                proof {
                    if good {
                        split_facts(s, f, t, g, root, h, m, q, c);
                        split_key_fits(s, root, h, c, m);
                        assert(one.can_grow(1int + h + 1));
                        assert(two.can_grow(1));
                    }
                }
                let ghost up0 = upkey@;
                let ok = self.keep_root(root, q, upkey);
                proof {
                    if good {
                        let u = self.store();
                        let y = choose|y: u32| {
                            &&& #[trigger] g.contains(y)
                            &&& y != 0
                            &&& self.free() == g.remove(y)
                            &&& u.dom().contains(root)
                            &&& u.dom().contains(y)
                            &&& u.dom().contains(q)
                            &&& u[y] == t[root]
                            &&& u[q] == (NodeView { left: y, ..t[q] })
                            &&& !u[root].leaf
                            &&& u[root].left == 0
                            &&& u[root].right == 0
                            &&& u[root].kids == seq![y, q]
                            &&& u[root].cells == seq![(up0, Seq::<DataView>::empty())]
                            &&& forall|x: u32|
                                #![trigger u.dom().contains(x)]
                                #![trigger t.dom().contains(x)]
                                x != root && x != q && !g.contains(x) && t.dom().contains(x)
                                    ==> u.dom().contains(x) && u[x] == t[x]
                        };
                        root_raised(s, f, t, g, u, root, h, m, q, y, c);
                        assert(self.tree_at(root, h + 1));
                        self.height_is(root, h + 1);
                    }
                }
                ok
            },
        }
    }
}

/// Nothing changes where nothing is done.
pub proof fn kept_self(s: Store, f: Set<u32>, p: u32, h: nat)
    ensures
        kept(s, f, s, p, h, seq![], seq![]),
{
}

proof fn small_root_fits(n: NodeView)
    requires
        !n.leaf,
        n.kids.len() == 2,
        n.kids.last() != 0,
        n.cells.len() == 1,
        n.cells[0].1.len() == 0,
        page_holds(n.cells),
    ensures
        node_fits(n),
{
}

/// A root that took the entry is a root.
proof fn inserted_root(
    s: Store,
    f: Set<u32>,
    t: Store,
    g: Set<u32>,
    p: u32,
    h: nat,
    m: nat,
    c: CellView,
)
    requires
        is_root(s, f, p, h, m),
        inserted(s, f, t, g, p, h, seq![], seq![], seq![p], c),
        ok(t, p, h, m, true),
    ensures
        is_root(t, g, p, h, m),
{
    with_cell_sorted(entries(s, seq![p], h), c);
    assert forall|x: u32| #[trigger] occ(t, seq![p], h, x) <= 1 by {
        if occ(s, seq![p], h, x) > 0 {
            assert(!f.contains(x));
        }
        assert(occ(s, seq![p], h, x) <= 1);
    }
    assert forall|x: u32| #[trigger] occ(t, seq![p], h, x) > 0 implies x != 0 && !g.contains(x) by {
        if occ(s, seq![p], h, x) > 0 {
            assert(!f.contains(x));
        }
    }
}

/// What becomes of the root page when an entry is put into a tree: it holds its new
/// cells, or else the last key of their left half, above pages with the two halves.
pub open spec fn root_filled(a: &BTree, b: &BTree, root: u32, c: CellView) -> bool {
    let h = a.height(root);
    let m = a.m as nat;
    let w = filled(a.store(), root, h, c, m);
    let u = b.store();
    match room(a.store(), root, h, c, m) {
        Some(Some(k)) => {
            &&& b.height(root) == h + 1
            &&& u[root].cells == seq![(k, Seq::<DataView>::empty())]
            &&& u[root].kids.len() == 2
            &&& are_halves(w, u[u[root].kids[0]].cells, u[u[root].kids[1]].cells)
        },
        _ => b.height(root) == h && u[root].cells == w,
    }
}

/// Number of pages that putting an entry into a tree takes: one for each page that is
/// halved, and one more for the root.
pub open spec fn new_pages(s: Store, p: u32, h: nat, c: CellView, m: nat) -> nat {
    halved(s, p, h, c, m) + if room(s, p, h, c, m) matches Some(Some(_)) {
        1nat
    } else {
        0
    }
}

/// A page holds the last key of a half alone.
proof fn split_key_fits(s: Store, p: u32, h: nat, c: CellView, m: nat)
    requires
        m >= 1,
        room(s, p, h, c, m) matches Some(Some(_)),
    ensures
        room(s, p, h, c, m) matches Some(Some(k)) && page_holds(
            seq![(k, Seq::<DataView>::empty())],
        ),
{
    let n = s[p];
    let cells = if h == 0 {
        with_cell(n.cells, c)
    } else {
        let i = child_index(n, c.0);
        let k = room(s, n.kids[i], (h - 1) as nat, c, m)->0->0;
        raised(n, c.0).insert(i, (k, seq![]))
    };
    assert(room(s, p, h, c, m) == written_cells(cells, m));
    let half = (cells.len() / 2) as int;
    let l = cells.take(half);
    let k = cells[half - 1].0;
    let one = seq![(k, Seq::<DataView>::empty())];
    assert(l.last() == cells[half - 1]);
    reveal_with_fuel(crate::engine::node::cells_size, 2);
    assert(one.drop_last() =~= seq![]);
    assert(one.last() == (k, Seq::<DataView>::empty()));
    assert(crate::engine::record::record_size(Seq::<DataView>::empty()) == 0);
}

/// The halves of a root that was split.
proof fn split_facts(
    s: Store,
    f: Set<u32>,
    t: Store,
    g: Set<u32>,
    p: u32,
    h: nat,
    m: nat,
    q: u32,
    c: CellView,
)
    requires
        is_root(s, f, p, h, m),
        m >= 2,
        inserted(s, f, t, g, p, h, seq![], seq![], seq![p, q], c),
        ok(t, p, h, m, false),
        ok(t, q, h, m, false),
    ensures
        p != q,
        q != 0,
        !g.contains(p),
        !g.contains(q),
{
    let both = seq![p, q];
    assert(both =~= seq![p] + seq![q]);
    occ_concat(t, seq![p], seq![q], h, p);
    occ_concat(t, seq![p], seq![q], h, q);
    occ_single(t, p, h, p);
    occ_single(t, q, h, p);
    occ_single(t, p, h, q);
    occ_single(t, q, h, q);
    occ_single(s, p, h, p);
    assert(occ(s, seq![p], h, p) > 0);
    assert(occ(s, seq![p], h, p) <= 1);
    assert(occ(s, seq![p], h, q) <= 1);
    assert(occ(t, both, h, p) == occ(s, seq![p], h, p) + taken(f, g, p));
    assert(occ(t, both, h, q) == occ(s, seq![p], h, q) + taken(f, g, q));
    if occ(s, seq![p], h, q) > 0 {
        assert(!f.contains(q));
    }
}

} // verus!
