//! Taking an entry out of a tree.
use vstd::prelude::*;

use crate::engine::btree::{place_of, BTree};
use crate::engine::insert::child_sorted;
use crate::engine::node::{
    cell_view, cell_views, cells_fit, node_fits, page_holds, BTreeNode, CellView, NodeView,
};
use crate::engine::record::BTreeValueType;
use crate::engine::tree::{
    around, entries, full, has_key, key_at_bound, level, linked, lower_bound, max_is_last, max_key,
    no_trees, occ, occ_single, ok, single, slack, sorted, without_key, Store,
};
use crate::engine::tree_insert::{
    child_index, child_placed, key_sides, kept, placed, pre_of, separators_sorted, suf_of, taken,
};
use crate::engine::tree_remove::{
    beside, leaf_removed, merged, ok_relaxed, redistributed, rekeyed, relaxed, relaxed_ok, removed,
    removed_borrow, removed_facts, removed_merge, removed_plain, root_lowered, without_middle,
};
use crate::engine::value::{BTreeDataType, DataView};
use crate::engine::recovery::group_calls;

verus! {

broadcast use group_calls;

/// What taking an entry out of a tree came to.
#[derive(Debug)]
pub enum RemoveResult {
    /// The pages are no tree in order.
    Broken,
    /// The key is not there.
    Error,
    /// The entry is out; the root of the tree may have too few cells.
    Done,
}

impl BTree {
    /// The largest key below page `pgno`; `fuel` bounds the height.
    fn subtree_max(&mut self, pgno: u32, fuel: u32, Ghost(h): Ghost<nat>) -> (r: Option<
        BTreeDataType,
    >)
        requires
            old(self).wf(),
        ensures
            final(self).wf(),
            final(self).same(old(self)),
            final(self).store() == old(self).store(),
            final(self).total() == old(self).total(),
            old(self).free_ok() ==> final(self).free_ok() && final(self).free() == old(self).free(),
            relaxed(old(self).store(), pgno, h, old(self).m as nat) && fuel > h && (h > 0 || old(
                self).store()[pgno].cells.len() > 0) ==> r is Some && r->0@ == max_key(
                old(self).store(),
                pgno,
                h,
            ),
    {
        let ghost before = *self;
        let ghost s = self.store();
        let ghost m = self.m as nat;
        let ghost good = relaxed(s, pgno, h, m) && fuel > h && (h > 0 || s[pgno].cells.len() > 0);
        proof {
            crate::engine::btree::same_facts(&before, self);
            if before.free_ok() {
                assert(self.free() =~= before.free());
            }
        }
        let mut p: u32 = pgno;
        let mut k: u32 = 0;
        while k < fuel
            invariant
                before == *old(self),
                before.wf(),
                self.wf(),
                self.same(&before),
                self.total() == before.total(),
                self.store() == s,
                s == before.store(),
                m == before.m,
                m >= 2,
                before.free_ok() ==> self.free_ok() && self.free() == before.free(),
                good == (relaxed(s, pgno, h, m) && fuel > h && (h > 0 || s[pgno].cells.len() > 0)),
                good ==> k <= h && relaxed(s, p, (h - k) as nat, m) && max_key(
                    s,
                    p,
                    (h - k) as nat,
                ) == max_key(s, pgno, h) && (h > k || s[p].cells.len() > 0),
            decreases fuel - k,
        {
            let ghost mid = *self;
            let found = self.getnode(p);
            proof {
                crate::engine::btree::same_transitive(&before, &mid, self);
                if before.free_ok() {
                    assert(self.free() =~= before.free());
                }
            }
            let node = match found {
                Some(n) => n,
                None => return None,
            };
            if node.is_leaf {
                let count: usize = node.cells.len();
                if count == 0 {
                    return None;
                }
                assert(cell_view(node.cells@[count - 1]) == node@.cells.last());
                return Some(node.cells[count - 1].0.clone());
            }
            if node.children_pgno.len() == 0 {
                return None;
            }
            proof {
                if good {
                    let d = (h - k - 1) as nat;
                    let kids = s[p].kids;
                    assert(ok(s, kids[kids.len() - 1], d, m, false));
                    ok_relaxed(s, kids[kids.len() - 1], d, m, false);
                }
            }
            p = node.get_rightmost_child();
            k = k + 1;
        }
        None
    }

    /// Puts the two neighbours and their parent back where cells moved from one
    /// of the neighbours to the other.
    #[verifier::rlimit(40)]
    fn put_three(&mut self, a: &BTreeNode, b: &BTreeNode, node: &BTreeNode) -> (r: bool)
        requires
            old(self).wf(),
            old(self).is_write,
        ensures
            final(self).wf(),
            final(self).m == old(self).m,
            final(self).is_write,
            final(self).total() == old(self).total(),
            final(self).pager.same_transaction(&old(self).pager),
            old(self).free_ok() && node_fits(a@) && node_fits(b@) && node_fits(node@)
                && a.pgno < old(self).total() && b.pgno < old(self).total() && node.pgno < old(
                self).total() && !old(self).free().contains(a.pgno) && !old(self).free().contains(
                b.pgno,
            ) && !old(self).free().contains(node.pgno) ==> r && final(self).free_ok() && final(
                self).free() == old(self).free() && final(self).store() == old(self).store().insert(
                a.pgno,
                a@,
            ).insert(b.pgno, b@).insert(node.pgno, node@),
    {
        let ghost before = *self;
        let x = self.putnode(a);
        let ghost one = *self;
        let y = self.putnode(b);
        let ghost two = *self;
        let z = self.putnode(node);
        proof {
            if before.free_ok() && node_fits(a@) && node_fits(b@) && node_fits(node@) && a.pgno
                < before.total() && b.pgno < before.total() && node.pgno < before.total()
                && !before.free().contains(a.pgno) && !before.free().contains(b.pgno)
                && !before.free().contains(node.pgno) {
                assert(!before.is_free(a.pgno));
                assert(one.free() =~= before.free());
                assert(one.is_free(b.pgno) == one.free().contains(b.pgno));
                assert(two.free() =~= before.free());
                assert(two.is_free(node.pgno) == two.free().contains(node.pgno));
                assert(self.free() =~= before.free());
            }
        }
        x && y && z
    }

    /// Writes two neighbours that were put together, the right one with nothing in it,
    /// and their parent, and frees the page of the right one.
    #[verifier::rlimit(60)]
    fn put_merged(&mut self, a: &BTreeNode, gone: &BTreeNode, node: &BTreeNode) -> (r: bool)
        requires
            old(self).wf(),
            old(self).is_write,
        ensures
            final(self).wf(),
            final(self).m == old(self).m,
            final(self).is_write,
            final(self).total() == old(self).total(),
            final(self).pager.same_transaction(&old(self).pager),
            old(self).free_ok() && node_fits(a@) && node_fits(node@) && a.pgno < old(self).total()
                && 0 < gone.pgno < old(self).total() && node.pgno < old(self).total() && !old(
                self).free().contains(a.pgno) && !old(self).free().contains(gone.pgno) && !old(
                self).free().contains(node.pgno) && a.pgno != gone.pgno && gone.pgno != node.pgno
                && a.pgno != node.pgno && (a@.leaf ==> !old(self).free().contains(a@.right))
                && gone@ == emptied(old(self).store()[gone.pgno]) ==> ({
                let t = old(self).store();
                let u = final(self).store();
                let b = gone.pgno;
                let v = merged_store(t, a.pgno, a@, b);
                &&& r
                &&& final(self).free_ok()
                &&& final(self).free() == old(self).free().insert(b)
                &&& u == v.insert(node.pgno, node@)
                &&& final(self).new_free_page@ == old(self).new_free_page@.insert(
                    place_of(old(self).new_free_page@, b),
                    b,
                )
                &&& final(self).freelist_first == old(self).freelist_first
                &&& final(self).freelist_len == old(self).freelist_len
            }),
    {
        let ghost before = *self;
        let ghost t = self.store();
        let b: u32 = gone.pgno;
        let ghost good = before.free_ok() && node_fits(a@) && node_fits(node@) && a.pgno
            < before.total() && 0 < b < before.total() && node.pgno < before.total()
            && !before.free().contains(a.pgno) && !before.free().contains(b)
            && !before.free().contains(node.pgno) && a.pgno != b && b != node.pgno && a.pgno
            != node.pgno && (a@.leaf ==> !before.free().contains(a@.right)) && gone@ == emptied(
            before.store()[b],
        );
        proof {
            assert(before.free().contains(a.pgno) == before.is_free(a.pgno));
            assert(before.free().contains(a@.right) == before.is_free(a@.right));
        }
        self.relink(a.right, a.pgno, a.is_leaf);
        let ghost one = *self;
        proof {
            if good {
                assert(one.free() == before.free());
                assert(one.is_free(a.pgno) == one.free().contains(a.pgno));
            }
        }
        let x = self.putnode(a);
        let ghost half = *self;
        proof {
            if good {
                assert(half.free() =~= before.free());
                assert(half.is_free(b) == half.free().contains(b));
                empty_fits(gone@);
            }
        }
        let z = self.putnode(gone);
        let ghost two = *self;
        proof {
            if good {
                assert(two.free() =~= before.free());
                assert(two.is_free(node.pgno) == two.free().contains(node.pgno));
            }
        }
        let y = self.putnode(node);
        let ghost three = *self;
        proof {
            if good {
                assert(three.free() =~= before.free());
                assert(three.is_free(b) == three.free().contains(b));
            }
        }
        self.set_page_free(b);
        proof {
            if good {
                assert(self.free() =~= before.free().insert(b));
                assert(self.store() =~= merged_store(t, a.pgno, a@, b).insert(node.pgno, node@));
            }
        }
        x && y && z
    }
}

/// A node with nothing in it and no neighbours.
pub open spec fn emptied(n: NodeView) -> NodeView {
    NodeView { left: 0, right: 0, kids: seq![], cells: seq![], ..n }
}

/// Nodes after one took over its right neighbour `b`: the next one has it for its
/// left neighbour, and `b` has nothing in it.
pub open spec fn merged_store(t: Store, a: u32, n: NodeView, b: u32) -> Store {
    let y = n.right;
    let u = if y != 0 && t.dom().contains(y) && t[y].leaf == n.leaf && node_fits(t[y]) {
        t.insert(y, (NodeView { left: a, ..t[y] }))
    } else {
        t
    };
    u.insert(a, n).insert(b, emptied(t[b]))
}

/// The keys of a node with that of child `i`, if it has one, replaced.
pub open spec fn with_separator(n: NodeView, i: int, k: DataView) -> Seq<CellView> {
    if i < n.cells.len() {
        n.cells.update(i, (k, seq![]))
    } else {
        n.cells
    }
}

/// The largest key that stays below page `p` when the entry with a key is taken out.
pub open spec fn last_left(s: Store, p: u32, h: nat, key: DataView) -> DataView {
    without_key(entries(s, seq![p], h), key).last().0
}

/// The cells if a page holds them.
pub open spec fn if_held(cells: Seq<CellView>) -> Option<Seq<CellView>> {
    if page_holds(cells) {
        Some(cells)
    } else {
        None
    }
}

/// The cells of a node whose child at place `i` is left with the cells `child` and the
/// largest key `big`. A child with fewer than `m` cells takes one of its left
/// neighbour, or of its right one, if that has more than `m`; else it is put together
/// with its right neighbour, and the last child with its left one. None where one of
/// the pages that are written does not hold its cells.
#[verifier::opaque]
pub open spec fn regrouped(
    s: Store,
    n: NodeView,
    i: int,
    child: Seq<CellView>,
    big: DataView,
    m: nat,
) -> Option<Seq<CellView>> {
    let cells = with_separator(n, i, big);
    let l = s[n.kids[i - 1]].cells;
    let r = s[n.kids[i + 1]].cells;
    if child.len() >= m {
        if_held(cells)
    } else if i > 0 && l.len() > m {
        if page_holds(l.drop_last()) && page_holds(seq![l.last()] + child) {
            if_held(cells.update(i - 1, (l[l.len() - 2].0, seq![])))
        } else {
            None
        }
    } else if i + 1 < n.kids.len() && r.len() > m {
        if page_holds(child.push(r[0])) && page_holds(r.skip(1)) {
            if_held(cells.update(i, (r[0].0, seq![])))
        } else {
            None
        }
    } else if i + 1 < n.kids.len() {
        if page_holds(child + r) {
            if_held(cells.remove(i))
        } else {
            None
        }
    } else {
        if page_holds(l + child) {
            if_held(cells.remove(i - 1))
        } else {
            None
        }
    }
}

/// The cells that page `p` is left with when the entry with a key is taken out below
/// it; none where a page that is written does not hold its cells.
#[verifier::opaque]
pub open spec fn pruned(s: Store, p: u32, h: nat, key: DataView, m: nat) -> Option<Seq<CellView>>
    decreases h,
{
    let n = s[p];
    if h == 0 {
        Some(without_key(n.cells, key))
    } else {
        let i = child_index(n, key);
        let d = (h - 1) as nat;
        match pruned(s, n.kids[i], d, key, m) {
            None => None,
            Some(child) => regrouped(s, n, i, child, last_left(s, n.kids[i], d, key), m),
        }
    }
}

/// What becomes of the root page when an entry is taken out of a tree: it holds the
/// cells that it is left with, unless its only child took its place.
pub open spec fn root_pruned(a: &BTree, b: &BTree, root: u32, key: DataView) -> bool {
    let h = a.height(root);
    let w = pruned(a.store(), root, h, key, a.m as nat)->0;
    if b.height(root) == h {
        b.store()[root].cells == w
    } else {
        b.height(root) + 1 == h && w.len() <= 1
    }
}

/// The largest key of a tree that may have too few cells is that of its last entry.
proof fn relaxed_max_is_last(s: Store, p: u32, h: nat, m: nat)
    requires
        relaxed(s, p, h, m),
        m >= 1,
        h > 0 || s[p].cells.len() > 0,
    ensures
        entries(s, seq![p], h).len() > 0,
        entries(s, seq![p], h).last().0 == max_key(s, p, h),
{
    single(s, p, h);
    if h > 0 {
        let g = (h - 1) as nat;
        let k = s[p].kids;
        let q = k[k.len() - 1];
        assert(ok(s, k[k.len() - 1], g, m, false));
        max_is_last(s, q, g, m, false);
        around(s, k, k.len() - 1, g);
        assert(k.skip(k.len() as int) =~= seq![]);
        no_trees(s, g);
        assert(k.last() == q);
    }
}

/// There are two entries at least below a page that is no root.
pub proof fn two_entries(s: Store, p: u32, h: nat, m: nat)
    requires
        ok(s, p, h, m, false),
        m >= 2,
    ensures
        entries(s, seq![p], h).len() >= 2,
    decreases h,
{
    single(s, p, h);
    if h > 0 {
        let g = (h - 1) as nat;
        let k = s[p].kids;
        assert(ok(s, k[0], g, m, false));
        two_entries(s, k[0], g, m);
        around(s, k, 0, g);
    }
}

/// The largest key that stays below a node.
proof fn last_left_up(s: Store, p: u32, h: nat, m: nat, top: bool, key: DataView)
    requires
        ok(s, p, h, m, top),
        h > 0,
        m >= 2,
        sorted(entries(s, seq![p], h)),
        has_key(entries(s, seq![p], h), key),
    ensures
        ({
            let k = s[p].kids;
            let i = child_index(s[p], key);
            let d = (h - 1) as nat;
            last_left(s, p, h, key) == if i + 1 < k.len() {
                max_key(s, k[k.len() - 1], d)
            } else {
                last_left(s, k[i], d, key)
            }
        }),
{
    let k = s[p].kids;
    let i = child_index(s[p], key);
    let d = (h - 1) as nat;
    without_middle(s, p, h, m, top, key);
    key_sides(s, p, h, m, top, key);
    let a = entries(s, k.take(i), d);
    let b = entries(s, seq![k[i]], d);
    let w = k.skip(i + 1);
    let c = entries(s, w, d);
    if i + 1 < k.len() {
        let z = w.len() - 1;
        around(s, w, z, d);
        assert(w.skip(z + 1) =~= seq![]);
        no_trees(s, d);
        assert(w[z] == k[k.len() - 1]);
        assert(ok(s, k[k.len() - 1], d, m, false));
        max_is_last(s, w[z], d, m, false);
        assert(c.last() == entries(s, seq![w[z]], d).last());
        assert((a + without_key(b, key) + c).last() == c.last());
    } else {
        assert(w =~= seq![]);
        no_trees(s, d);
        assert(ok(s, k[i], d, m, false));
        two_entries(s, k[i], d, m);
        key_at_bound(b, key);
        assert((a + without_key(b, key) + c).last() == without_key(b, key).last());
    }
}

/// What becomes of a node whose child has given up an entry, and that its neighbours
/// hold what they held.
proof fn regroup_facts(
    b: BTree,
    s: Store,
    f: Set<u32>,
    p: u32,
    h: nat,
    top: bool,
    pre: Seq<u32>,
    suf: Seq<u32>,
    key: DataView,
    i: int,
)
    requires
        b.m >= 2,
        changed_child(b, s, f, p, h, top, pre, suf, key, i),
    ensures
        ({
            let t = b.store();
            let k = s[p].kids;
            let d = (h - 1) as nat;
            let m = b.m as nat;
            &&& pruned(s, p, h, key, m) is Some
            &&& pruned(s, p, h, key, m) == regrouped(
                s,
                s[p],
                i,
                t[k[i]].cells,
                max_key(t, k[i], d),
                m,
            )
            &&& i > 0 ==> s[k[i - 1]].cells == t[k[i - 1]].cells
            &&& i + 1 < k.len() ==> s[k[i + 1]].cells == t[k[i + 1]].cells
        }),
{
    reveal(changed_child);
    let t = b.store();
    let g = b.free();
    let k = s[p].kids;
    let d = (h - 1) as nat;
    let m = b.m as nat;
    key_sides(s, p, h, m, top, key);
    assert(ok(s, k[i], d, m, false));
    two_entries(s, k[i], d, m);
    key_at_bound(entries(s, seq![k[i]], d), key);
    single(t, k[i], d);
    relaxed_max_is_last(t, k[i], d, m);
    assert(pruned(s, p, h, key, m) == regrouped(
        s,
        s[p],
        i,
        t[k[i]].cells,
        max_key(t, k[i], d),
        m,
    )) by {
        reveal_with_fuel(pruned, 2);
    }
    if i > 0 {
        beside(s, f, t, g, p, h, m, top, pre, suf, key, i - 1, seq![k[i - 1], k[i]]);
    }
    if i + 1 < k.len() {
        beside(s, f, t, g, p, h, m, top, pre, suf, key, i, seq![k[i], k[i + 1]]);
    }
}

/// A node whose child still has enough cells.
proof fn plain_facts(
    b: BTree,
    s: Store,
    f: Set<u32>,
    p: u32,
    h: nat,
    top: bool,
    pre: Seq<u32>,
    suf: Seq<u32>,
    key: DataView,
    i: int,
)
    requires
        b.m >= 2,
        changed_child(b, s, f, p, h, top, pre, suf, key, i),
        b.store()[s[p].kids[i]].cells.len() >= b.m,
    ensures
        ({
            let t = b.store();
            let d = (h - 1) as nat;
            let now = with_separator(s[p], i, max_key(t, s[p].kids[i], d));
            page_holds(now) && pruned(s, p, h, key, b.m as nat) == Some(now)
        }),
{
    regroup_facts(b, s, f, p, h, top, pre, suf, key, i);
    reveal(regrouped);
}

/// A node whose child takes a cell of its left neighbour.
proof fn left_facts(
    b: BTree,
    s: Store,
    f: Set<u32>,
    p: u32,
    h: nat,
    top: bool,
    pre: Seq<u32>,
    suf: Seq<u32>,
    key: DataView,
    i: int,
)
    requires
        b.m >= 2,
        short_child(b, s, f, p, h, top, pre, suf, key, i),
        i > 0,
        b.store()[s[p].kids[i - 1]].cells.len() > b.m,
    ensures
        ({
            let t = b.store();
            let d = (h - 1) as nat;
            let l = t[s[p].kids[i - 1]].cells;
            let c = t[s[p].kids[i]].cells;
            let now = with_separator(s[p], i, max_key(t, s[p].kids[i], d)).update(
                i - 1,
                (l[l.len() - 2].0, seq![]),
            );
            page_holds(l.drop_last()) && page_holds(seq![l.last()] + c) && page_holds(now) && pruned(
                s,
                p,
                h,
                key,
                b.m as nat,
            ) == Some(now)
        }),
{
    regroup_facts(b, s, f, p, h, top, pre, suf, key, i);
    reveal(regrouped);
}

/// A node whose child takes a cell of its right neighbour.
proof fn right_facts(
    b: BTree,
    s: Store,
    f: Set<u32>,
    p: u32,
    h: nat,
    top: bool,
    pre: Seq<u32>,
    suf: Seq<u32>,
    key: DataView,
    i: int,
)
    requires
        b.m >= 2,
        short_child(b, s, f, p, h, top, pre, suf, key, i),
        i + 1 < s[p].kids.len(),
        i >= 0,
        i == 0 || b.store()[s[p].kids[i - 1]].cells.len() <= b.m,
        b.store()[s[p].kids[i + 1]].cells.len() > b.m,
    ensures
        ({
            let t = b.store();
            let d = (h - 1) as nat;
            let r = t[s[p].kids[i + 1]].cells;
            let c = t[s[p].kids[i]].cells;
            let now = with_separator(s[p], i, max_key(t, s[p].kids[i], d)).update(
                i,
                (r[0].0, seq![]),
            );
            page_holds(c.push(r[0])) && page_holds(r.skip(1)) && page_holds(now) && pruned(
                s,
                p,
                h,
                key,
                b.m as nat,
            ) == Some(now)
        }),
{
    regroup_facts(b, s, f, p, h, top, pre, suf, key, i);
    reveal(regrouped);
}

/// A node whose child is put together with a neighbour.
proof fn merge_facts(
    b: BTree,
    s: Store,
    f: Set<u32>,
    p: u32,
    h: nat,
    top: bool,
    pre: Seq<u32>,
    suf: Seq<u32>,
    key: DataView,
    i: int,
    lo: int,
)
    requires
        b.m >= 2,
        short_child(b, s, f, p, h, top, pre, suf, key, i),
        lo >= 0,
        lo + 1 < s[p].kids.len(),
        if lo == i {
            i == 0 || b.store()[s[p].kids[i - 1]].cells.len() <= b.m
        } else {
            lo + 1 == i && i + 1 == s[p].kids.len()
        },
        b.store()[s[p].kids[lo]].cells.len() + b.store()[s[p].kids[lo + 1]].cells.len() < 2 * b.m,
    ensures
        ({
            let t = b.store();
            let d = (h - 1) as nat;
            let now = with_separator(s[p], i, max_key(t, s[p].kids[i], d)).remove(lo);
            page_holds(t[s[p].kids[lo]].cells + t[s[p].kids[lo + 1]].cells) && page_holds(now)
                && pruned(s, p, h, key, b.m as nat) == Some(now)
        }),
{
    regroup_facts(b, s, f, p, h, top, pre, suf, key, i);
    reveal(regrouped);
}

/// The keys of a node whose children at `lo` and after it have divided their
/// cells anew.
proof fn keys_after_borrow(
    s: Store,
    t: Store,
    v: Store,
    p: u32,
    h: nat,
    m: nat,
    top: bool,
    i: int,
    lo: int,
    both: Seq<u32>,
    n: NodeView,
)
    requires
        ok(s, p, h, m, top),
        h > 0,
        0 <= lo < s[p].kids.len() - 1,
        i == lo || i == lo + 1,
        both == seq![s[p].kids[lo], s[p].kids[lo + 1]],
        n.leaf == s[p].leaf,
        page_holds(n.cells),
        n.kids == s[p].kids,
        n.cells == with_separator(s[p], i, max_key(t, s[p].kids[i], (h - 1) as nat)).update(
            lo,
            (max_key(v, both[0], (h - 1) as nat), seq![]),
        ),
        max_key(v, both[1], (h - 1) as nat) == max_key(t, both[1], (h - 1) as nat),
        i == lo ==> max_key(t, both[1], (h - 1) as nat) == max_key(s, both[1], (h - 1) as nat),
    ensures
        rekeyed(s[p], n, v, (h - 1) as nat, lo, lo + 2, both),
{
    let k = s[p].kids;
    let d = (h - 1) as nat;
    let c = with_separator(s[p], i, max_key(t, k[i], d));
    assert(n.kids =~= k.take(lo) + both + k.skip(lo + 2));
    assert forall|j: int| lo <= j < lo + both.len() && j < n.cells.len() implies #[trigger] n.cells[j]
        == (max_key(v, both[j - lo], d), Seq::<DataView>::empty()) by {
        if j == lo + 1 && i == lo {
            assert(n.cells[j] == s[p].cells[j]);
            assert(s[p].cells[j].1 =~= Seq::<DataView>::empty());
        }
    }
}

/// The keys of a node whose children at `lo` and after it were put together.
proof fn keys_after_merge(
    s: Store,
    t: Store,
    v: Store,
    p: u32,
    h: nat,
    m: nat,
    top: bool,
    i: int,
    lo: int,
    both: Seq<u32>,
    n: NodeView,
)
    requires
        ok(s, p, h, m, top),
        h > 0,
        0 <= lo < s[p].kids.len() - 1,
        i == lo || i == lo + 1,
        both == seq![s[p].kids[lo], s[p].kids[lo + 1]],
        n.leaf == s[p].leaf,
        page_holds(n.cells),
        n.kids == s[p].kids.remove(lo + 1),
        n.cells == with_separator(s[p], i, max_key(t, s[p].kids[i], (h - 1) as nat)).remove(lo),
        max_key(v, both[0], (h - 1) as nat) == max_key(t, both[1], (h - 1) as nat),
        i == lo ==> max_key(t, both[1], (h - 1) as nat) == max_key(s, both[1], (h - 1) as nat),
    ensures
        rekeyed(s[p], n, v, (h - 1) as nat, lo, lo + 2, seq![both[0]]),
{
    let k = s[p].kids;
    let d = (h - 1) as nat;
    let out = seq![both[0]];
    let c = with_separator(s[p], i, max_key(t, k[i], d));
    assert(n.kids =~= k.take(lo) + out + k.skip(lo + 2));
    assert(node_fits(s[p]));
    assert forall|j: int| lo <= j < lo + out.len() && j < n.cells.len() implies #[trigger] n.cells[j]
        == (max_key(v, out[j - lo], d), Seq::<DataView>::empty()) by {
        assert(n.cells[j] == c[j + 1]);
        if i == lo {
            assert(c[j + 1] == s[p].cells[j + 1]);
            assert(s[p].cells[j + 1].1 =~= Seq::<DataView>::empty());
        }
    }
    assert forall|j: int| lo + out.len() <= j < n.cells.len() implies #[trigger] n.cells[j]
        == s[p].cells[j - out.len() + 2] by {
        assert(n.cells[j] == c[j + 1]);
    }
}

/// What is known of a node when its child at place `i` has given up an entry.
#[verifier::opaque]
pub open spec fn changed_child(
    b: BTree,
    s: Store,
    f: Set<u32>,
    p: u32,
    h: nat,
    top: bool,
    pre: Seq<u32>,
    suf: Seq<u32>,
    key: DataView,
    i: int,
) -> bool {
    let m = b.m as nat;
    let t = b.store();
    let g = b.free();
    let c = s[p].kids[i];
    let d = (h - 1) as nat;
    &&& b.free_ok()
    &&& placed(s, f, p, h, m, top, pre, suf)
    &&& h > 0
    &&& i == child_index(s[p], key)
    &&& removed(s, f, t, g, c, d, pre_of(s, p, h, i, pre), suf_of(s, p, h, i, suf), key)
    &&& relaxed(t, c, d, m)
    &&& full(s, c, d) ==> full(t, c, d)
    &&& h == 1 ==> t == s.insert(c, t[c]) && g == f
    &&& pruned(s, c, d, key, m) == Some(t[c].cells)
    &&& pruned(s, p, h, key, m) is Some
}

/// What is known of a node when its child at place `i` has given up an entry and
/// is left with too few.
pub open spec fn short_child(
    b: BTree,
    s: Store,
    f: Set<u32>,
    p: u32,
    h: nat,
    top: bool,
    pre: Seq<u32>,
    suf: Seq<u32>,
    key: DataView,
    i: int,
) -> bool {
    &&& changed_child(b, s, f, p, h, top, pre, suf, key, i)
    &&& b.store()[s[p].kids[i]].cells.len() + 1 == b.m
}

impl BTree {
    /// Moves a cell from its left neighbour to the child at place `i` of `node`,
    /// which has too few.
    #[verifier::rlimit(100)]
    fn borrow_from_left(
        &mut self,
        node: BTreeNode,
        i: usize,
        left: BTreeNode,
        child: BTreeNode,
        Ghost(s): Ghost<Store>,
        Ghost(f): Ghost<Set<u32>>,
        Ghost(h): Ghost<nat>,
        Ghost(top): Ghost<bool>,
        Ghost(pre): Ghost<Seq<u32>>,
        Ghost(suf): Ghost<Seq<u32>>,
        Ghost(key): Ghost<DataView>,
    ) -> (r: RemoveResult)
        requires
            old(self).wf(),
            old(self).is_write,
            i > 0,
        ensures
            final(self).wf(),
            final(self).m == old(self).m,
            final(self).is_write,
            final(self).total() == old(self).total(),
            final(self).pager.same_transaction(&old(self).pager),
            ({
                let m = old(self).m as nat;
                let t = old(self).store();
                let p = node.pgno;
                let d = (h - 1) as nat;
                short_child(*old(self), s, f, p, h, top, pre, suf, key, i as int) && node@ == (
                NodeView {
                    cells: with_separator(s[p], i as int, max_key(t, s[p].kids[i as int], d)),
                    ..s[p]
                }) && child.pgno == s[p].kids[i as int] && child@ == t[child.pgno] && left.pgno
                    == s[p].kids[i - 1] && left@ == t[left.pgno] && left@.cells.len() > m ==> removal_done(old(self).m as nat,
                    *final(self),
                    s,
                    f,
                    p,
                    h,
                    pre,
                    suf,
                    key,
                    r,
                )
            }),
    {
        reveal(changed_child);
        reveal(removal_done);
        let ghost before = *self;
        let ghost t = self.store();
        let ghost g = self.free();
        let ghost m = self.m as nat;
        let ghost p = node.pgno;
        let ghost d = (h - 1) as nat;
        let ghost lo = i - 1;
        let ghost n0 = node@;
        let ghost l0 = left@;
        let ghost c0 = child@;
        let ghost good = short_child(before, s, f, p, h, top, pre, suf, key, i as int) && node@ == (
        NodeView {
            cells: with_separator(s[p], i as int, max_key(t, s[p].kids[i as int], d)),
            ..s[p]
        }) && child.pgno == s[p].kids[i as int] && child@ == t[child.pgno] && left.pgno
            == s[p].kids[i - 1] && left@ == t[left.pgno] && left@.cells.len() > m;
        let ghost both = seq![left.pgno, child.pgno];
        proof {
            if good {
                assert(both =~= seq![s[p].kids[lo], s[p].kids[lo + 1]]);
                beside(s, f, t, g, p, h, m, top, pre, suf, key, lo, both);
                assert(node_fits(s[p]));
                assert(node@.cells.len() == s[p].cells.len());
                assert(i <= s[p].cells.len());
                assert(full(t, both[0], d));
                assert(d > 0 ==> slack(t[both[0]]) == 0);
            }
            assert(node@.cells.len() == node.cells@.len());
            assert(left@.cells.len() == left.cells@.len());
        }
        let mut node = node;
        let mut left = left;
        let mut child = child;
        if left.cells.len() <= 1 || i > node.cells.len() || (!child.is_leaf
            && left.children_pgno.len() != left.cells.len()) {
            return RemoveResult::Broken;
        }
        child.borrow_left(&mut left);
        let ghost n = l0.cells.len() - 1;
        assert(left@.cells.len() == left.cells@.len());
        let last: usize = left.cells.len() - 1;
        assert(cell_view(left.cells@[last as int]) == left@.cells[last as int]);
        let middle = left.cells[last].0.clone();
        let ghost mid = middle@;
        node.cells[i - 1] = (middle, BTreeValueType::null());
        assert(node@.cells =~= n0.cells.update(lo, (mid, seq![])));
        let ghost v = t.insert(left.pgno, left@).insert(child.pgno, child@);
        let ghost u = v.insert(p, node@);
        proof {
            if good {
                let cells = l0.cells + c0.cells;
                assert(mid == cells[n - 1].0);
                left_facts(before, s, f, p, h, top, pre, suf, key, i as int);
                assert(left@.cells =~= l0.cells.drop_last());
                assert(child@.cells =~= seq![l0.cells.last()] + c0.cells);
                assert(pruned(s, p, h, key, m) == Some(node@.cells));
                assert forall|x: u32| x != left.pgno && x != child.pgno implies #[trigger] crate::engine::tree::agree(t, v, x) by {}
                redistributed(t, v, both[0], both[1], d, m, n);
                assert(ok(v, both[0], d, m, false));
                assert(ok(v, both[1], d, m, false));
                keys_after_borrow(s, t, v, p, h, m, top, i as int, lo, both, node@);
                removed_borrow(
                    s,
                    f,
                    t,
                    g,
                    v,
                    u,
                    p,
                    h,
                    m,
                    top,
                    pre,
                    suf,
                    key,
                    lo,
                    n,
                    both,
                );
            }
        }
        if self.put_three(&left, &child, &node) {
            RemoveResult::Done
        } else {
            RemoveResult::Broken
        }
    }

    /// Moves a cell from its right neighbour to the child at place `i` of `node`,
    /// which has too few.
    #[verifier::rlimit(100)]
    fn borrow_from_right(
        &mut self,
        node: BTreeNode,
        i: usize,
        child: BTreeNode,
        right: BTreeNode,
        Ghost(s): Ghost<Store>,
        Ghost(f): Ghost<Set<u32>>,
        Ghost(h): Ghost<nat>,
        Ghost(top): Ghost<bool>,
        Ghost(pre): Ghost<Seq<u32>>,
        Ghost(suf): Ghost<Seq<u32>>,
        Ghost(key): Ghost<DataView>,
    ) -> (r: RemoveResult)
        requires
            old(self).wf(),
            old(self).is_write,
        ensures
            final(self).wf(),
            final(self).m == old(self).m,
            final(self).is_write,
            final(self).total() == old(self).total(),
            final(self).pager.same_transaction(&old(self).pager),
            ({
                let m = old(self).m as nat;
                let t = old(self).store();
                let p = node.pgno;
                let d = (h - 1) as nat;
                short_child(*old(self), s, f, p, h, top, pre, suf, key, i as int) && node@ == (
                NodeView {
                    cells: with_separator(s[p], i as int, max_key(t, s[p].kids[i as int], d)),
                    ..s[p]
                }) && child.pgno == s[p].kids[i as int] && child@ == t[child.pgno] && i + 1
                    < s[p].kids.len() && right.pgno == s[p].kids[i + 1] && right@ == t[right.pgno]
                    && right@.cells.len() > m && (i == 0 || t[s[p].kids[i - 1]].cells.len() <= m)
                    ==> removal_done(old(self).m as nat,
                    *final(self),
                    s,
                    f,
                    p,
                    h,
                    pre,
                    suf,
                    key,
                    r,
                )
            }),
    {
        reveal(changed_child);
        reveal(removal_done);
        let ghost before = *self;
        let ghost t = self.store();
        let ghost g = self.free();
        let ghost m = self.m as nat;
        let ghost p = node.pgno;
        let ghost d = (h - 1) as nat;
        let ghost lo = i as int;
        let ghost n0 = node@;
        let ghost r0 = right@;
        let ghost c0 = child@;
        let ghost good = short_child(before, s, f, p, h, top, pre, suf, key, i as int) && node@ == (
        NodeView {
            cells: with_separator(s[p], i as int, max_key(t, s[p].kids[i as int], d)),
            ..s[p]
        }) && child.pgno == s[p].kids[i as int] && child@ == t[child.pgno] && i + 1 < s[p].kids.len()
            && right.pgno == s[p].kids[i + 1] && right@ == t[right.pgno] && right@.cells.len() > m && (i == 0 || t[s[p].kids[i
            - 1]].cells.len() <= m);
        let ghost both = seq![child.pgno, right.pgno];
        proof {
            if good {
                assert(both =~= seq![s[p].kids[lo], s[p].kids[lo + 1]]);
                beside(s, f, t, g, p, h, m, top, pre, suf, key, lo, both);
                assert(node_fits(s[p]));
                assert(node@.cells.len() == s[p].cells.len());
                assert(i < s[p].cells.len());
                assert(full(t, both[0], d));
                assert(d > 0 ==> slack(t[both[0]]) == 0);
            }
            assert(node@.cells.len() == node.cells@.len());
            assert(right@.cells.len() == right.cells@.len());
            assert(child@.cells.len() == child.cells@.len());
        }
        let mut node = node;
        let mut right = right;
        let mut child = child;
        if right.cells.len() == 0 || i >= node.cells.len() || (!child.is_leaf && (
        child.children_pgno.len() != child.cells.len() || right.children_pgno.len() == 0)) {
            return RemoveResult::Broken;
        }
        child.borrow_right(&mut right);
        let ghost n = c0.cells.len() + 1int;
        assert(child@.cells.len() == child.cells@.len());
        let last: usize = child.cells.len() - 1;
        assert(cell_view(child.cells@[last as int]) == child@.cells[last as int]);
        let middle = child.cells[last].0.clone();
        let ghost mid = middle@;
        node.cells[i] = (middle, BTreeValueType::null());
        assert(node@.cells =~= n0.cells.update(lo, (mid, seq![])));
        let ghost v = t.insert(child.pgno, child@).insert(right.pgno, right@);
        let ghost u = v.insert(p, node@);
        proof {
            if good {
                let cells = c0.cells + r0.cells;
                assert(mid == cells[n - 1].0);
                right_facts(before, s, f, p, h, top, pre, suf, key, i as int);
                assert(right@.cells =~= r0.cells.skip(1));
                assert(child@.cells =~= c0.cells.push(r0.cells[0]));
                assert(pruned(s, p, h, key, m) == Some(node@.cells));
                assert forall|x: u32| x != right.pgno && x != child.pgno implies #[trigger] crate::engine::tree::agree(t, v, x) by {}
                redistributed(t, v, both[0], both[1], d, m, n);
                assert(ok(v, both[0], d, m, false));
                assert(ok(v, both[1], d, m, false));
                keys_after_borrow(s, t, v, p, h, m, top, i as int, lo, both, node@);
                removed_borrow(
                    s,
                    f,
                    t,
                    g,
                    v,
                    u,
                    p,
                    h,
                    m,
                    top,
                    pre,
                    suf,
                    key,
                    lo,
                    n,
                    both,
                );
            }
        }
        if self.put_three(&child, &right, &node) {
            RemoveResult::Done
        } else {
            RemoveResult::Broken
        }
    }

    /// Puts the children at places `lo` and `lo + 1` of `node` together. One of
    /// them, at place `i`, has too few cells. The left one takes the cells of the
    /// other, whose page is emptied and freed.
    #[verifier::rlimit(100)]
    fn merge_pair(
        &mut self,
        node: BTreeNode,
        i: usize,
        lo: usize,
        left: BTreeNode,
        right: BTreeNode,
        Ghost(s): Ghost<Store>,
        Ghost(f): Ghost<Set<u32>>,
        Ghost(h): Ghost<nat>,
        Ghost(top): Ghost<bool>,
        Ghost(pre): Ghost<Seq<u32>>,
        Ghost(suf): Ghost<Seq<u32>>,
        Ghost(key): Ghost<DataView>,
    ) -> (r: RemoveResult)
        requires
            old(self).wf(),
            old(self).is_write,
        ensures
            final(self).wf(),
            final(self).m == old(self).m,
            final(self).is_write,
            final(self).total() == old(self).total(),
            final(self).pager.same_transaction(&old(self).pager),
            ({
                let m = old(self).m as nat;
                let t = old(self).store();
                let p = node.pgno;
                let d = (h - 1) as nat;
                short_child(*old(self), s, f, p, h, top, pre, suf, key, i as int) && node@ == (
                NodeView {
                    cells: with_separator(s[p], i as int, max_key(t, s[p].kids[i as int], d)),
                    ..s[p]
                }) && lo + 1 < s[p].kids.len() && (lo == i || lo + 1 == i) && left.pgno
                    == s[p].kids[lo as int] && left@ == t[left.pgno] && right.pgno
                    == s[p].kids[lo + 1] && right@ == t[right.pgno] && left@.cells.len()
                    + right@.cells.len() < 2 * m && (if lo == i {
                    i == 0 || t[s[p].kids[i - 1]].cells.len() <= m
                } else {
                    i + 1 == s[p].kids.len()
                }) ==> {
                    &&& removal_done(
                        old(self).m as nat,
                        *final(self),
                        s,
                        f,
                        p,
                        h,
                        pre,
                        suf,
                        key,
                        r,
                    )
                    &&& r is Done
                    &&& final(self).store() == merged_store(
                        t,
                        left.pgno,
                        (NodeView {
                            cells: left@.cells + right@.cells,
                            kids: left@.kids + right@.kids,
                            right: right@.right,
                            ..left@
                        }),
                        right.pgno,
                    ).insert(
                        p,
                        (NodeView {
                            cells: node@.cells.remove(lo as int),
                            kids: node@.kids.remove(lo + 1),
                            ..node@
                        }),
                    )
                    &&& final(self).free() == old(self).free().insert(right.pgno)
                    &&& final(self).new_free_page@ == old(self).new_free_page@.insert(
                        place_of(old(self).new_free_page@, right.pgno),
                        right.pgno,
                    )
                    &&& final(self).freelist_first == old(self).freelist_first
                    &&& final(self).freelist_len == old(self).freelist_len
                }
            }),
    {
        reveal(changed_child);
        reveal(removal_done);
        let ghost before = *self;
        let ghost t = self.store();
        let ghost g = self.free();
        let ghost m = self.m as nat;
        let ghost p = node.pgno;
        let ghost d = (h - 1) as nat;
        let ghost n0 = node@;
        let ghost l0 = left@;
        let ghost r0 = right@;
        let ghost good = short_child(before, s, f, p, h, top, pre, suf, key, i as int) && node@ == (
        NodeView {
            cells: with_separator(s[p], i as int, max_key(t, s[p].kids[i as int], d)),
            ..s[p]
        }) && lo + 1 < s[p].kids.len() && (lo == i || lo + 1 == i) && left.pgno
            == s[p].kids[lo as int] && left@ == t[left.pgno] && right.pgno == s[p].kids[lo + 1]
            && right@ == t[right.pgno] && left@.cells.len() + right@.cells.len() < 2 * m && (if lo
            == i {
            i == 0 || t[s[p].kids[i - 1]].cells.len() <= m
        } else {
            i + 1 == s[p].kids.len()
        });
        let ghost both = seq![left.pgno, right.pgno];
        proof {
            if good {
                assert(both =~= seq![s[p].kids[lo as int], s[p].kids[lo + 1]]);
                beside(s, f, t, g, p, h, m, top, pre, suf, key, lo as int, both);
                assert(node_fits(s[p]));
                assert(node@.cells.len() == s[p].cells.len());
                assert(lo < s[p].cells.len());
            }
            assert(node@.cells.len() == node.cells@.len());
        }
        let mut node = node;
        let mut left = left;
        let mut right = right;
        if lo >= node.cells.len() || lo >= usize::MAX - 1 || lo + 1 >= node.children_pgno.len() {
            return RemoveResult::Broken;
        }
        left.merge(&mut right);
        right.clear();
        proof {
            crate::engine::node_ops::views_remove(node.cells@, lo as int);
        }
        node.cells.remove(lo);
        node.children_pgno.remove(lo + 1);
        assert(node@.cells == n0.cells.remove(lo as int));
        assert(node@.kids == n0.kids.remove(lo + 1));
        let ghost v = merged_store(t, left.pgno, left@, right.pgno);
        let ghost u = v.insert(p, node@);
        proof {
            if good {
                if h == 1 {
                    next_not_free(before, s, f, p, top, pre, suf, key, i as int, lo as int, both);
                }
                merge_facts(before, s, f, p, h, top, pre, suf, key, i as int, lo as int);
                assert(pruned(s, p, h, key, m) == Some(node@.cells));
                assert forall|x: u32| x != left.pgno && x != right.pgno implies #[trigger] crate::engine::tree::agree(t, v, x) by {}
                merged(t, v, both[0], both[1], d, m, both);
                keys_after_merge(s, t, v, p, h, m, top, i as int, lo as int, both, node@);
                removed_merge(
                    s,
                    f,
                    t,
                    g,
                    v,
                    u,
                    p,
                    h,
                    m,
                    top,
                    pre,
                    suf,
                    key,
                    lo as int,
                    both,
                );
            }
        }
        if self.put_merged(&left, &right, &node) {
            RemoveResult::Done
        } else {
            RemoveResult::Broken
        }
    }
}

/// The leaf after two neighbours is in use.
proof fn next_not_free(
    b: BTree,
    s: Store,
    f: Set<u32>,
    p: u32,
    top: bool,
    pre: Seq<u32>,
    suf: Seq<u32>,
    key: DataView,
    i: int,
    lo: int,
    both: Seq<u32>,
)
    requires
        b.m >= 2,
        short_child(b, s, f, p, 1, top, pre, suf, key, i),
        lo == i || lo + 1 == i,
        0 <= lo < s[p].kids.len() - 1,
        both == seq![s[p].kids[lo], s[p].kids[lo + 1]],
    ensures
        !b.free().contains(b.store()[both[1]].right),
{
    reveal(changed_child);
    let m = b.m as nat;
    let t = b.store();
    let g = b.free();
    let k = s[p].kids;
    beside(s, f, t, g, p, 1, m, top, pre, suf, key, lo, both);
    let pre2 = pre + level(s, k.take(lo), 0);
    let suf2 = level(s, k.skip(lo + 2), 0) + suf;
    let whole = pre2 + level(t, both, 0) + suf2;
    assert(level(t, both, 0) == both) by {
        reveal(level);
    }
    let n = pre2.len() as int;
    assert(whole[n + 1] == both[1]);
    reveal(linked);
    assert(t.dom().contains(whole[n + 1]));
    if n + 2 < whole.len() {
        assert(k.subrange(lo, lo + 2) =~= both);
        crate::engine::tree_remove::list_page_used(
            s,
            f,
            t,
            g,
            p,
            1,
            m,
            top,
            pre,
            suf,
            lo,
            lo + 2,
            both,
            n + 2,
        );
    }
}

/// What taking an entry out below page `p` came to, where the pages were `s`, of
/// which `f` were free.
#[verifier::opaque]
pub open spec fn removal_done(
    m: nat,
    b: BTree,
    s: Store,
    f: Set<u32>,
    p: u32,
    h: nat,
    pre: Seq<u32>,
    suf: Seq<u32>,
    key: DataView,
    r: RemoveResult,
) -> bool {
    let u = b.store();
    let g = b.free();
    &&& b.free_ok()
    &&& match r {
        RemoveResult::Broken => false,
        RemoveResult::Error => u == s && g == f && !has_key(entries(s, seq![p], h), key),
        RemoveResult::Done => {
            &&& removed(s, f, u, g, p, h, pre, suf, key)
            &&& relaxed(u, p, h, m)
            &&& full(s, p, h) ==> full(u, p, h)
            &&& u[p].cells.len() + 1 >= s[p].cells.len()
            &&& pruned(s, p, h, key, m) == Some(u[p].cells)
            &&& h == 0 ==> u == s.insert(p, u[p]) && g == f
        },
    }
}

impl BTree {
    /// The cells that page `pgno` is left with when the entry with a key is taken out
    /// below it, and the largest key that stays there. `None` where the key is not
    /// there and where a page that is written does not hold its cells.
    #[verifier::rlimit(100)]
    fn find_removal(
        &mut self,
        pgno: u32,
        key: &BTreeDataType,
        fuel: u32,
        Ghost(h): Ghost<nat>,
        Ghost(top): Ghost<bool>,
    ) -> (r: Option<(Vec<(BTreeDataType, BTreeValueType)>, Option<BTreeDataType>)>)
        requires
            old(self).wf(),
        ensures
            final(self).wf(),
            final(self).same(old(self)),
            final(self).store() == old(self).store(),
            final(self).total() == old(self).total(),
            old(self).free_ok() ==> final(self).free_ok() && final(self).free() == old(self).free(),
            ({
                let s = old(self).store();
                let m = old(self).m as nat;
                let e = entries(s, seq![pgno], h);
                fuel > h && ok(s, pgno, h, m, top) && sorted(e) ==> match r {
                    None => !has_key(e, key@) || pruned(s, pgno, h, key@, m) is None,
                    Some((cells, big)) => {
                        &&& has_key(e, key@)
                        &&& pruned(s, pgno, h, key@, m) == Some(cell_views(cells@))
                        &&& h > 0 || cells@.len() > 0 ==> big is Some && big->0@ == last_left(
                            s,
                            pgno,
                            h,
                            key@,
                        )
                    },
                }
            }),
        decreases fuel,
    {
        let ghost before = *self;
        let ghost s = self.store();
        let ghost m = self.m as nat;
        let ghost e = entries(s, seq![pgno], h);
        let ghost good = fuel > h && ok(s, pgno, h, m, top) && sorted(e);
        proof {
            reveal_with_fuel(pruned, 2);
            crate::engine::btree::same_facts(&before, self);
            if before.free_ok() {
                assert(self.free() =~= before.free());
            }
        }
        if fuel == 0 {
            return None;
        }
        let mut node = match self.getnode(pgno) {
            Some(n) => n,
            None => return None,
        };
        let ghost one = *self;
        let ghost n0 = node@;
        let ghost d = (h - 1) as nat;
        proof {
            if before.free_ok() {
                assert(self.free() =~= before.free());
            }
            if good {
                single(s, pgno, h);
                if h > 0 {
                    separators_sorted(s, pgno, h, m, top);
                    key_sides(s, pgno, h, m, top, key@);
                    without_middle(s, pgno, h, m, top, key@);
                }
            }
        }
        if node.is_leaf {
            if !node.remove_leaf(key) {
                return None;
            }
            let count: usize = node.cells.len();
            let big = if count > 0 {
                assert(cell_view(node.cells@[count - 1]) == node@.cells.last());
                Some(node.cells[count - 1].0.clone())
            } else {
                None
            };
            return Some((node.cells, big));
        }
        let (pos, _) = node.position(key);
        let count: usize = node.children_pgno.len();
        if count == 0 {
            return None;
        }
        let i: usize = if pos < count {
            pos
        } else {
            count - 1
        };
        let c: u32 = node.children_pgno[i];
        proof {
            if good {
                assert(i == child_index(n0, key@));
                assert(ok(s, n0.kids[i as int], d, m, false));
                child_sorted(s, pgno, h, i as int);
            }
        }
        let found = self.find_removal(c, key, fuel - 1, Ghost(d), Ghost(false));
        let ghost two = *self;
        proof {
            crate::engine::btree::same_transitive(&before, &one, self);
        }
        let (child, below) = match found {
            Some((v, Some(b))) => (v, b),
            Some((_, None)) => {
                proof {
                    if good {
                        two_entries(s, c, d, m);
                        single(s, c, d);
                        key_at_bound(entries(s, seq![c], d), key@);
                    }
                }
                return None;
            },
            None => return None,
        };
        proof {
            if good {
                two_entries(s, c, d, m);
                single(s, c, d);
                key_at_bound(entries(s, seq![c], d), key@);
                last_left_up(s, pgno, h, m, top, key@);
            }
        }
        let ghost below0 = below@;
        let ghost left0 = child@;
        let big = if i < count - 1 {
            proof {
                if good {
                    assert(ok(s, n0.kids[count - 1], d, m, false));
                    ok_relaxed(s, n0.kids[count - 1], d, m, false);
                }
            }
            let b = self.subtree_max(node.children_pgno[count - 1], fuel, Ghost(d));
            proof {
                crate::engine::btree::same_transitive(&before, &two, self);
            }
            b
        } else {
            Some(below.clone())
        };
        let ghost three = *self;
        if i < node.cells.len() {
            node.cells[i] = (below, BTreeValueType::null());
            assert(node@.cells =~= n0.cells.update(i as int, (below0, seq![])));
        }
        assert(node@.cells == with_separator(n0, i as int, below0));
        let held = self.regroup(node, i, child);
        proof {
            crate::engine::btree::same_transitive(&before, &three, self);
            if good {
                assert(forall|j: int| 0 <= j < n0.kids.len() ==> ok(s, #[trigger] n0.kids[j], d, m, false));
                assert forall|j: int| 0 <= j < n0.kids.len() implies s.dom().contains(
                    #[trigger] n0.kids[j],
                ) && s[n0.kids[j]].cells.len() >= m by {
                    assert(ok(s, n0.kids[j], d, m, false));
                }
            }
        }
        match held {
            Some(cells) => Some((cells, big)),
            None => None,
        }
    }

    /// The cells that `node` is left with when its child at place `i` has the cells
    /// `child`: `None` where a page that is written does not hold its cells.
    #[verifier::rlimit(60)]
    fn regroup(
        &mut self,
        node: BTreeNode,
        i: usize,
        child: Vec<(BTreeDataType, BTreeValueType)>,
    ) -> (r: Option<Vec<(BTreeDataType, BTreeValueType)>>)
        requires
            old(self).wf(),
            i < node@.kids.len(),
        ensures
            final(self).wf(),
            final(self).same(old(self)),
            final(self).store() == old(self).store(),
            final(self).total() == old(self).total(),
            old(self).free_ok() ==> final(self).free_ok() && final(self).free() == old(self).free(),
            forall|n: NodeView, big: DataView|
                {
                    let s = old(self).store();
                    let m = old(self).m as nat;
                    n.kids == node@.kids && node@.cells == with_separator(n, i as int, big)
                        && node@.kids.len() >= 2 && node@.kids.len() <= node@.cells.len() + 1 && (
                    forall|j: int|
                        0 <= j < n.kids.len() ==> s.dom().contains(#[trigger] n.kids[j])
                            && s[n.kids[j]].cells.len() >= m)
                } ==> match (#[trigger] regrouped(
                    old(self).store(),
                    n,
                    i as int,
                    cell_views(child@),
                    big,
                    old(self).m as nat,
                )) {
                    None => r is None,
                    Some(v) => r is Some && cell_views(r->0@) == v,
                },
    {
        let ghost before = *self;
        let ghost s = self.store();
        let ghost m = self.m as nat;
        let ghost keys = node@.cells;
        let ghost kids = node@.kids;
        let ghost c0 = cell_views(child@);
        proof {
            reveal(regrouped);
            crate::engine::btree::same_facts(&before, self);
            if before.free_ok() {
                assert(self.free() =~= before.free());
            }
        }
        let mut node = node;
        let mut child = child;
        if child.len() >= self.m {
            if cells_fit(&node.cells) {
                return Some(node.cells);
            }
            return None;
        }
        let count: usize = node.children_pgno.len();
        let mut left: Option<BTreeNode> = None;
        if i > 0 {
            left = self.getnode(node.children_pgno[i - 1]);
            if left.is_none() {
                return None;
            }
        }
        let ghost one = *self;
        let mut right: Option<BTreeNode> = None;
        if i < count - 1 {
            right = self.getnode(node.children_pgno[i + 1]);
            if right.is_none() {
                return None;
            }
        }
        proof {
            crate::engine::btree::same_transitive(&before, &one, self);
            if before.free_ok() {
                assert(one.free() =~= before.free());
                assert(self.free() =~= before.free());
            }
        }
        if let Some(mut l) = left {
            if l.cells.len() > self.m {
                let ghost lv = l.cells@;
                let ghost l0 = l@.cells;
                if i > node.cells.len() {
                    return None;
                }
                let cell = match l.cells.pop() {
                    Some(x) => x,
                    None => return None,
                };
                assert(cell_view(cell) == l0.last());
                assert(cell_views(l.cells@) =~= l0.drop_last());
                let n: usize = l.cells.len();
                assert(cell_view(l.cells@[n - 1]) == l0[l0.len() - 2]);
                let middle = l.cells[n - 1].0.clone();
                proof {
                    crate::engine::node_ops::views_insert(child@, 0, cell);
                }
                child.insert(0, cell);
                assert(cell_views(child@) =~= seq![l0.last()] + c0);
                let fits = cells_fit(&l.cells) && cells_fit(&child);
                let ghost mid = middle@;
                node.cells[i - 1] = (middle, BTreeValueType::null());
                assert(node@.cells =~= keys.update(i - 1, (mid, seq![])));
                if fits && cells_fit(&node.cells) {
                    return Some(node.cells);
                }
                return None;
            }
            if right.is_none() {
                if i > node.cells.len() {
                    return None;
                }
                proof {
                    crate::engine::node_ops::views_concat(l.cells@, child@);
                }
                let ghost lv = l.cells@;
                let ghost cv = child@;
                l.cells.append(&mut child);
                assert(l.cells@ =~= lv + cv);
                if !cells_fit(&l.cells) {
                    return None;
                }
                proof {
                    crate::engine::node_ops::views_remove(node.cells@, i - 1);
                }
                node.cells.remove(i - 1);
                if cells_fit(&node.cells) {
                    return Some(node.cells);
                }
                return None;
            }
        }
        if let Some(w) = right {
            let mut w = w;
            let ghost wv = w.cells@;
            let ghost r0 = w@.cells;
            if i >= node.cells.len() {
                return None;
            }
            if w.cells.len() > self.m {
                proof {
                    crate::engine::node_ops::views_remove(w.cells@, 0);
                }
                let cell = w.cells.remove(0);
                assert(cell_view(cell) == r0[0]);
                assert(cell_views(w.cells@) =~= r0.skip(1));
                let middle = cell.0.clone();
                let ghost mid = middle@;
                child.push(cell);
                assert(cell_views(child@) =~= c0.push(r0[0]));
                let fits = cells_fit(&w.cells) && cells_fit(&child);
                node.cells[i] = (middle, BTreeValueType::null());
                assert(node@.cells =~= keys.update(i as int, (mid, seq![])));
                if fits && cells_fit(&node.cells) {
                    return Some(node.cells);
                }
                return None;
            }
            proof {
                crate::engine::node_ops::views_concat(child@, w.cells@);
            }
            let ghost cv = child@;
            child.append(&mut w.cells);
            assert(child@ =~= cv + wv);
            if !cells_fit(&child) {
                return None;
            }
            proof {
                crate::engine::node_ops::views_remove(node.cells@, i as int);
            }
            node.cells.remove(i);
            if cells_fit(&node.cells) {
                return Some(node.cells);
            }
            return None;
        }
        None
    }

    /// Takes an entry out of the tree of page `pgno`. `fuel` bounds its height.
    #[verifier::rlimit(60)]
    pub fn remove_from(
        &mut self,
        pgno: u32,
        key: &BTreeDataType,
        fuel: u32,
        Ghost(h): Ghost<nat>,
        Ghost(top): Ghost<bool>,
        Ghost(pre): Ghost<Seq<u32>>,
        Ghost(suf): Ghost<Seq<u32>>,
    ) -> (r: RemoveResult)
        requires
            old(self).wf(),
            old(self).is_write,
        ensures
            final(self).wf(),
            final(self).m == old(self).m,
            final(self).is_write,
            final(self).total() == old(self).total(),
            final(self).pager.same_transaction(&old(self).pager),
            ({
                let s = old(self).store();
                let f = old(self).free();
                let m = old(self).m as nat;
                old(self).free_ok() && fuel > h && placed(s, f, pgno, h, m, top, pre, suf) && (
                has_key(entries(s, seq![pgno], h), key@) ==> pruned(s, pgno, h, key@, m) is Some)
                    ==> removal_done(old(self).m as nat,
                    *final(self),
                    s,
                    f,
                    pgno,
                    h,
                    pre,
                    suf,
                    key@,
                    r,
                )
            }),
        decreases fuel, 1nat,
    {
        reveal(removal_done);
        let ghost before = *self;
        let ghost s = self.store();
        let ghost f = self.free();
        let ghost m = self.m as nat;
        let ghost good = before.free_ok() && fuel > h && placed(s, f, pgno, h, m, top, pre, suf)
            && (has_key(entries(s, seq![pgno], h), key@) ==> pruned(s, pgno, h, key@, m) is Some);
        if fuel == 0 {
            return RemoveResult::Broken;
        }
        let node = match self.getnode(pgno) {
            Some(n) => n,
            None => return RemoveResult::Broken,
        };
        let mut node = node;
        let ghost n0 = node@;
        let ghost one = *self;
        proof {
            if good {
                assert(one.free() =~= f);
                occ_single(s, pgno, h, pgno);
                assert(occ(s, seq![pgno], h, pgno) > 0);
                assert(!before.free().contains(pgno));
                assert(!one.is_free(pgno)) by {
                    assert(one.free().contains(pgno) == one.is_free(pgno));
                }
                single(s, pgno, h);
                if h > 0 {
                    separators_sorted(s, pgno, h, m, top);
                    key_sides(s, pgno, h, m, top, key@);
                }
            }
        }
        if node.is_leaf {
            if !node.remove_leaf(key) {
                return RemoveResult::Error;
            }
            proof {
                if good {
                    reveal_with_fuel(pruned, 2);
                    leaf_removed(s, f, s.insert(pgno, node@), pgno, m, top, pre, suf, key@);
                }
            }
            if !self.putnode(&node) {
                return RemoveResult::Broken;
            }
            proof {
                if good {
                    assert(self.free() =~= f);
                }
            }
            RemoveResult::Done
        } else {
            let (pos, _) = node.position(key);
            self.remove_inner(
                node,
                pos,
                key,
                fuel,
                Ghost(h),
                Ghost(top),
                Ghost(pre),
                Ghost(suf),
            )
        }
    }

    /// Takes an entry out below the inner node `node`; its keys before `key` are
    /// `pos` many.
    #[verifier::rlimit(100)]
    #[verifier::spinoff_prover]
    pub fn remove_inner(
        &mut self,
        node: BTreeNode,
        pos: usize,
        key: &BTreeDataType,
        fuel: u32,
        Ghost(h): Ghost<nat>,
        Ghost(top): Ghost<bool>,
        Ghost(pre): Ghost<Seq<u32>>,
        Ghost(suf): Ghost<Seq<u32>>,
    ) -> (r: RemoveResult)
        requires
            old(self).wf(),
            old(self).is_write,
            fuel > 0,
            !node@.leaf,
        ensures
            final(self).wf(),
            final(self).m == old(self).m,
            final(self).is_write,
            final(self).total() == old(self).total(),
            final(self).pager.same_transaction(&old(self).pager),
            ({
                let s = old(self).store();
                let f = old(self).free();
                let m = old(self).m as nat;
                let p = node.pgno;
                old(self).free_ok() && fuel > h && placed(s, f, p, h, m, top, pre, suf) && s[p]
                    == node@ && pos == lower_bound(node@.cells, key@) && (has_key(
                    entries(s, seq![p], h),
                    key@,
                ) ==> pruned(s, p, h, key@, m) is Some) ==> removal_done(old(self).m as nat,
                    *final(self),
                    s,
                    f,
                    p,
                    h,
                    pre,
                    suf,
                    key@,
                    r,
                )
            }),
        decreases fuel, 0nat,
    {
        reveal(removal_done);
        let mut node = node;
        let ghost before = *self;
        let ghost s = self.store();
        let ghost f = self.free();
        let ghost m = self.m as nat;
        let ghost p = node.pgno;
        let ghost n0 = node@;
        let ghost d = (h - 1) as nat;
        let ghost good = before.free_ok() && fuel > h && placed(s, f, p, h, m, top, pre, suf) && s[p]
            == node@ && pos == lower_bound(node@.cells, key@) && (has_key(
            entries(s, seq![p], h),
            key@,
        ) ==> pruned(s, p, h, key@, m) is Some);
        let count: usize = node.children_pgno.len();
        if count == 0 {
            return RemoveResult::Broken;
        }
        let i: usize = if pos < count {
            pos
        } else {
            count - 1
        };
        let child: u32 = node.children_pgno[i];
        let ghost pre2 = pre_of(s, p, h, i as int, pre);
        let ghost suf2 = suf_of(s, p, h, i as int, suf);
        proof {
            if good {
                key_sides(s, p, h, m, top, key@);
                assert(i == child_index(n0, key@));
                child_placed(s, f, p, h, m, top, pre, suf, i as int);
                crate::engine::insert::below_key(s, f, p, h, m, top, pre, suf, key@);
                if has_key(entries(s, seq![p], h), key@) {
                    assert(pruned(s, child, d, key@, m) is Some) by {
                        reveal_with_fuel(pruned, 2);
                    }
                }
            }
        }
        let r = self.remove_from(
            child,
            key,
            fuel - 1,
            Ghost(d),
            Ghost(false),
            Ghost(pre2),
            Ghost(suf2),
        );
        match r {
            RemoveResult::Broken => return RemoveResult::Broken,
            RemoveResult::Error => return RemoveResult::Error,
            RemoveResult::Done => {},
        }
        let ghost one = *self;
        let ghost t = self.store();
        let ghost g = self.free();
        proof {
            if good {
                assert(ok(s, n0.kids[i as int], d, m, false));
                assert(relaxed(t, child, d, m));
                assert(t[child].cells.len() + 1 >= m);
            }
        }
        let largest = match self.subtree_max(child, fuel, Ghost(d)) {
            Some(k) => k,
            None => return RemoveResult::Broken,
        };
        let ghost big = largest@;
        if i < node.cells.len() {
            node.cells[i] = (largest, BTreeValueType::null());
            assert(node@.cells =~= n0.cells.update(i as int, (big, seq![])));
        }
        assert(node@ == (NodeView { cells: with_separator(n0, i as int, big), ..n0 }));
        let changed = match self.getnode(child) {
            Some(n) => n,
            None => return RemoveResult::Broken,
        };
        let ghost two = *self;
        proof {
            if good {
                assert(two.free() =~= g);
                assert(two.store() == t);
                assert(big == max_key(t, child, d));
            }
        }
        proof {
            if good {
                assert(changed_child(two, s, f, p, h, top, pre, suf, key@, i as int)) by {
                    reveal(changed_child);
                }
            }
        }
        if !changed.need_balance(self.m) {
            return self.put_parent(
                node,
                i,
                Ghost(s),
                Ghost(f),
                Ghost(h),
                Ghost(top),
                Ghost(pre),
                Ghost(suf),
                Ghost(key@),
            );
        }
        self.rebalance(
            node,
            i,
            changed,
            Ghost(s),
            Ghost(f),
            Ghost(h),
            Ghost(top),
            Ghost(pre),
            Ghost(suf),
            Ghost(key@),
        )
    }

    /// Writes `node`, whose child at place `i` has given up an entry and still
    /// has enough.
    fn put_parent(
        &mut self,
        node: BTreeNode,
        i: usize,
        Ghost(s): Ghost<Store>,
        Ghost(f): Ghost<Set<u32>>,
        Ghost(h): Ghost<nat>,
        Ghost(top): Ghost<bool>,
        Ghost(pre): Ghost<Seq<u32>>,
        Ghost(suf): Ghost<Seq<u32>>,
        Ghost(key): Ghost<DataView>,
    ) -> (r: RemoveResult)
        requires
            old(self).wf(),
            old(self).is_write,
        ensures
            final(self).wf(),
            final(self).m == old(self).m,
            final(self).is_write,
            final(self).total() == old(self).total(),
            final(self).pager.same_transaction(&old(self).pager),
            ({
                let t = old(self).store();
                let m = old(self).m as nat;
                let p = node.pgno;
                let d = (h - 1) as nat;
                let c = s[p].kids[i as int];
                changed_child(*old(self), s, f, p, h, top, pre, suf, key, i as int)
                    && t[c].cells.len() >= m && node@ == (NodeView {
                    cells: with_separator(s[p], i as int, max_key(t, c, d)),
                    ..s[p]
                }) ==> removal_done(old(self).m as nat, *final(self), s, f, p, h, pre, suf, key, r)
            }),
    {
        reveal(changed_child);
        reveal(removal_done);
        let ghost two = *self;
        let ghost t = self.store();
        let ghost g = self.free();
        let ghost m = self.m as nat;
        let ghost p = node.pgno;
        let ghost d = (h - 1) as nat;
        let ghost n0 = s[p];
        let ghost child = s[p].kids[i as int];
        let ghost good = changed_child(two, s, f, p, h, top, pre, suf, key, i as int)
            && t[child].cells.len() >= m && node@ == (NodeView {
            cells: with_separator(s[p], i as int, max_key(t, child, d)),
            ..s[p]
        });
        let ghost u = t.insert(p, node@);
        proof {
            if good {
                key_sides(s, p, h, m, top, key);
                relaxed_ok(t, child, d, m, false);
                plain_facts(two, s, f, p, h, top, pre, suf, key, i as int);
                assert(pruned(s, p, h, key, m) == Some(node@.cells));
                assert(rekeyed(n0, node@, t, d, i as int, i + 1, seq![child])) by {
                    assert(node@.kids =~= n0.kids.take(i as int) + seq![child] + n0.kids.skip(i + 1));
                }
                removed_plain(s, f, t, g, u, p, h, m, top, pre, suf, key);
                parent_page(s, f, t, g, p, h, m, top, pre, suf, i as int, key);
                assert(two.free().contains(p) == two.is_free(p));
            }
        }
        if !self.putnode(&node) {
            return RemoveResult::Broken;
        }
        proof {
            if good {
                assert(self.store() == u);
                assert(self.free() =~= g);
            }
        }
        RemoveResult::Done
    }

    /// Gives the child at place `i` of `node`, which has too few cells, a cell
    /// of a neighbour that has more than enough, or puts it together with a
    /// neighbour.
    #[verifier::rlimit(60)]
    fn rebalance(
        &mut self,
        node: BTreeNode,
        i: usize,
        child: BTreeNode,
        Ghost(s): Ghost<Store>,
        Ghost(f): Ghost<Set<u32>>,
        Ghost(h): Ghost<nat>,
        Ghost(top): Ghost<bool>,
        Ghost(pre): Ghost<Seq<u32>>,
        Ghost(suf): Ghost<Seq<u32>>,
        Ghost(key): Ghost<DataView>,
    ) -> (r: RemoveResult)
        requires
            old(self).wf(),
            old(self).is_write,
        ensures
            final(self).wf(),
            final(self).m == old(self).m,
            final(self).is_write,
            final(self).total() == old(self).total(),
            final(self).pager.same_transaction(&old(self).pager),
            ({
                let t = old(self).store();
                let p = node.pgno;
                let d = (h - 1) as nat;
                short_child(*old(self), s, f, p, h, top, pre, suf, key, i as int) && node@ == (
                NodeView {
                    cells: with_separator(s[p], i as int, max_key(t, s[p].kids[i as int], d)),
                    ..s[p]
                }) && child.pgno == s[p].kids[i as int] && child@ == t[child.pgno] ==> removal_done(old(self).m as nat,
                    *final(self),
                    s,
                    f,
                    p,
                    h,
                    pre,
                    suf,
                    key,
                    r,
                )
            }),
    {
        let ghost before = *self;
        let ghost t = self.store();
        let ghost g = self.free();
        let ghost m = self.m as nat;
        let ghost p = node.pgno;
        let ghost d = (h - 1) as nat;
        let ghost good = short_child(before, s, f, p, h, top, pre, suf, key, i as int) && node@ == (
        NodeView {
            cells: with_separator(s[p], i as int, max_key(t, s[p].kids[i as int], d)),
            ..s[p]
        }) && child.pgno == s[p].kids[i as int] && child@ == t[child.pgno];
        proof {
            if good {
                assert(before.free_ok()) by {
                    reveal(changed_child);
                }
            }
        }
        let count: usize = node.children_pgno.len();
        if i >= count {
            proof {
                if good {
                    reveal(changed_child);
                    key_sides(s, p, h, m, top, key);
                }
            }
            return RemoveResult::Broken;
        }
        let mut left: Option<BTreeNode> = None;
        if i > 0 {
            proof {
                if good {
                    neighbour(before, s, f, p, h, top, pre, suf, key, i as int, i - 1);
                }
            }
            left = self.getnode(node.children_pgno[i - 1]);
            if left.is_none() {
                return RemoveResult::Broken;
            }
        }
        let ghost one = *self;
        proof {
            if good {
                assert(one.free() =~= g);
            }
        }
        let mut right: Option<BTreeNode> = None;
        if i < count - 1 {
            proof {
                if good {
                    neighbour(before, s, f, p, h, top, pre, suf, key, i as int, i as int);
                }
            }
            right = self.getnode(node.children_pgno[i + 1]);
            if right.is_none() {
                return RemoveResult::Broken;
            }
        }
        let ghost two = *self;
        proof {
            if good {
                assert(two.free() =~= g);
                assert(short_child(two, s, f, p, h, top, pre, suf, key, i as int)) by {
                    reveal(changed_child);
                }
            }
        }
        let m_: usize = self.m;
        if let Some(l) = left {
            if l.cells.len() > m_ {
                return self.borrow_from_left(
                    node,
                    i,
                    l,
                    child,
                    Ghost(s),
                    Ghost(f),
                    Ghost(h),
                    Ghost(top),
                    Ghost(pre),
                    Ghost(suf),
                    Ghost(key),
                );
            }
            if let Some(w) = right {
                if w.cells.len() > m_ {
                    return self.borrow_from_right(
                        node,
                        i,
                        child,
                        w,
                        Ghost(s),
                        Ghost(f),
                        Ghost(h),
                        Ghost(top),
                        Ghost(pre),
                        Ghost(suf),
                        Ghost(key),
                    );
                }
                return self.merge_pair(
                    node,
                    i,
                    i,
                    child,
                    w,
                    Ghost(s),
                    Ghost(f),
                    Ghost(h),
                    Ghost(top),
                    Ghost(pre),
                    Ghost(suf),
                    Ghost(key),
                );
            }
            return self.merge_pair(
                node,
                i,
                i - 1,
                l,
                child,
                Ghost(s),
                Ghost(f),
                Ghost(h),
                Ghost(top),
                Ghost(pre),
                Ghost(suf),
                Ghost(key),
            );
        }
        if let Some(w) = right {
            if w.cells.len() > m_ {
                return self.borrow_from_right(
                    node,
                    i,
                    child,
                    w,
                    Ghost(s),
                    Ghost(f),
                    Ghost(h),
                    Ghost(top),
                    Ghost(pre),
                    Ghost(suf),
                    Ghost(key),
                );
            }
            return self.merge_pair(
                node,
                i,
                i,
                child,
                w,
                Ghost(s),
                Ghost(f),
                Ghost(h),
                Ghost(top),
                Ghost(pre),
                Ghost(suf),
                Ghost(key),
            );
        }
        proof {
            if good {
                assert(s[p].kids.len() >= 2) by {
                    reveal(changed_child);
                }
            }
        }
        RemoveResult::Broken
    }
}

/// The neighbour of a child that gave up an entry.
proof fn neighbour(
    b: BTree,
    s: Store,
    f: Set<u32>,
    p: u32,
    h: nat,
    top: bool,
    pre: Seq<u32>,
    suf: Seq<u32>,
    key: DataView,
    i: int,
    lo: int,
)
    requires
        b.m >= 2,
        short_child(b, s, f, p, h, top, pre, suf, key, i),
        lo == i || lo + 1 == i,
        0 <= lo < s[p].kids.len() - 1,
    ensures
        ({
            let e = if lo == i {
                s[p].kids[lo + 1]
            } else {
                s[p].kids[lo]
            };
            b.store().dom().contains(e) && b.store()[e].cells.len() >= b.m
        }),
{
    reveal(changed_child);
    let both = seq![s[p].kids[lo], s[p].kids[lo + 1]];
    beside(s, f, b.store(), b.free(), p, h, b.m as nat, top, pre, suf, key, lo, both);
}

/// The page of a node whose child changed is in use.
proof fn parent_page(
    s: Store,
    f: Set<u32>,
    t: Store,
    g: Set<u32>,
    p: u32,
    h: nat,
    m: nat,
    top: bool,
    pre: Seq<u32>,
    suf: Seq<u32>,
    i: int,
    key: DataView,
)
    requires
        placed(s, f, p, h, m, top, pre, suf),
        h > 0,
        0 <= i < s[p].kids.len(),
        removed(
            s,
            f,
            t,
            g,
            s[p].kids[i],
            (h - 1) as nat,
            pre_of(s, p, h, i, pre),
            suf_of(s, p, h, i, suf),
            key,
        ),
    ensures
        t.dom().contains(p),
        !g.contains(p),
{
    let d = (h - 1) as nat;
    let c = s[p].kids[i];
    child_placed(s, f, p, h, m, top, pre, suf, i);
    occ_single(s, p, h, p);
    assert(occ(s, seq![p], h, p) > 0);
    assert(s.dom().contains(p));
    assert(occ(t, seq![c], d, p) + taken(g, f, p) == occ(s, seq![c], d, p));
}

impl BTree {
    /// Puts the only child of a root in its place, and empties and frees the page of
    /// the child.
    #[verifier::rlimit(40)]
    fn decr_root(&mut self, root: u32, child_pgno: u32) -> (r: bool)
        requires
            old(self).wf(),
            old(self).is_write,
        ensures
            final(self).wf(),
            final(self).m == old(self).m,
            final(self).is_write,
            final(self).total() == old(self).total(),
            final(self).pager.same_transaction(&old(self).pager),
            ({
                let t = old(self).store();
                let g = old(self).free();
                let c = child_pgno;
                old(self).free_ok() && root < old(self).total() && t.dom().contains(c) && c != root
                    && c != 0 && !g.contains(root) && !g.contains(c) && node_fits(t[c]) ==> {
                    &&& r
                    &&& final(self).free_ok()
                    &&& final(self).free() == g.insert(c)
                    &&& final(self).store() == lowered_store(t, root, c)
                }
            }),
    {
        let ghost before = *self;
        let ghost t = self.store();
        let ghost g = self.free();
        let child = match self.getnode(child_pgno) {
            Some(n) => n,
            None => return false,
        };
        let ghost one = *self;
        let ghost good = before.free_ok() && root < before.total() && t.dom().contains(child_pgno)
            && child_pgno != root && child_pgno != 0 && !g.contains(root) && !g.contains(child_pgno)
            && node_fits(t[child_pgno]);
        let gone = BTreeNode {
            pgno: child_pgno,
            is_leaf: child.is_leaf,
            is_data_table: child.is_data_table,
            left: child.left,
            right: child.right,
            children_pgno: Vec::new(),
            cells: Vec::new(),
        };
        let ghost n0 = child@;
        proof {
            assert(gone@.kids =~= seq![]);
            assert(gone@.cells =~= seq![]);
            empty_fits(gone@);
        }
        let mut node = child;
        node.pgno = root;
        node.left = 0;
        node.right = 0;
        proof {
            if good {
                assert(one.free() =~= g);
                assert(one.is_free(root) == one.free().contains(root));
            }
        }
        let r = self.putnode(&node);
        let ghost two = *self;
        proof {
            if good {
                assert(two.free() =~= g);
                assert(two.is_free(child_pgno) == two.free().contains(child_pgno));
            }
        }
        let z = self.putnode(&gone);
        let ghost three = *self;
        proof {
            if good {
                assert(three.free() =~= g);
                assert(three.is_free(child_pgno) == three.free().contains(child_pgno));
            }
        }
        self.set_page_free(child_pgno);
        proof {
            if good {
                assert(self.free() =~= g.insert(child_pgno));
                assert(self.store() =~= lowered_store(t, root, child_pgno));
            }
        }
        r && z
    }

    /// Takes the entry with a key out of the tree of page `root`; says whether it
    /// was taken out. It is not where the key is not there, where a page would
    /// not hold its cells, and outside a write transaction. Then nothing changes.
    #[verifier::rlimit(100)]
    pub fn remove_entry(&mut self, root: u32, key: &BTreeDataType) -> (r: bool)
        requires
            old(self).wf(),
        ensures
            final(self).wf(),
            final(self).m == old(self).m,
            final(self).is_write == old(self).is_write,
            final(self).total() == old(self).total(),
            final(self).pager.same_transaction(&old(self).pager),
            ({
                let e = old(self).rows(root);
                let h = old(self).height(root);
                let m = old(self).m as nat;
                old(self).is_tree(root) ==> {
                    &&& final(self).is_tree(root)
                    &&& r ==> final(self).rows(root) == without_key(e, key@)
                    &&& r ==> root_pruned(old(self), final(self), root, key@)
                    &&& r == (old(self).is_write && has_key(e, key@) && pruned(
                        old(self).store(),
                        root,
                        h,
                        key@,
                        m,
                    ) is Some)
                    &&& !r ==> final(self).store() == old(self).store() && final(self).free()
                        == old(self).free()
                    &&& kept(
                        old(self).store(),
                        old(self).free(),
                        final(self).store(),
                        root,
                        h,
                        seq![],
                        seq![],
                    )
                    &&& old(self).free().subset_of(final(self).free())
                    &&& forall|x: u32| #[trigger]
                        final(self).owns(root, x) <==> old(self).owns(root, x) && !final(
                            self).free().contains(x)
                    &&& forall|x: u32|
                        final(self).free().contains(x) && !old(self).free().contains(x)
                            ==> #[trigger] old(self).owns(root, x)
                }
            }),
    {
        reveal(removal_done);
        let ghost before = *self;
        let ghost good = before.is_tree(root);
        let ghost h = before.height(root);
        let ghost m = before.m as nat;
        let ghost s = before.store();
        let ghost f = before.free();
        let ghost none = Seq::<u32>::empty();
        proof {
            if good {
                assert(before.tree_at(root, h));
                self.same_trees(&before, root);
                crate::engine::whole::kept_self(s, f, root, h);
            }
        }
        if !self.is_write {
            return false;
        }
        let d: u32 = match self.depth(root) {
            Some(d) => d,
            None => return false,
        };
        let ghost one = *self;
        proof {
            if good {
                one.same_trees(&before, root);
                assert(one.tree_at(root, h));
            }
        }
        if d == u32::MAX {
            return false;
        }
        let found = self.find_removal(root, key, d + 1, Ghost(h), Ghost(true));
        proof {
            if good {
                self.same_trees(&before, root);
                assert(self.tree_at(root, h));
            }
        }
        if found.is_none() {
            return false;
        }
        let r = self.remove_from(
            root,
            key,
            d + 1,
            Ghost(h),
            Ghost(true),
            Ghost(Seq::<u32>::empty()),
            Ghost(Seq::<u32>::empty()),
        );
        let ghost two = *self;
        let ghost t = self.store();
        let ghost g = self.free();
        match r {
            RemoveResult::Done => {},
            _ => {
                proof {
                    if good {
                        two.same_trees(&before, root);
                    }
                }
                return false;
            },
        }
        proof {
            if good {
                removed_facts(s, f, t, g, root, h, m, true, none, none, key@);
            }
        }
        let top = match self.getnode(root) {
            Some(n) => n,
            None => return false,
        };
        let ghost three = *self;
        proof {
            if good {
                assert(three.free() =~= g);
            }
        }
        if !top.is_leaf && top.children_pgno.len() == 1 {
            let child: u32 = top.children_pgno[0];
            let ghost u = lowered_store(t, root, child);
            proof {
                if good {
                    assert(t[root].kids =~= seq![child]);
                    assert(ok(t, t[root].kids[0], (h - 1) as nat, m, false));
                    root_lowered(s, f, t, g, u, root, h, m, key@, child);
                    assert(!g.contains(root)) by {
                        occ_single(t, root, h, root);
                        assert(occ(t, seq![root], h, root) > 0);
                    }
                }
            }
            let ok = self.decr_root(root, child);
            proof {
                if good {
                    let k = (h - 1) as nat;
                    assert(self.tree_at(root, k));
                    self.height_is(root, k);
                    owned_after(s, f, u, self.free(), root, h, k);
                }
            }
            return ok;
        }
        proof {
            if good {
                relaxed_ok(t, root, h, m, true);
                assert(three.tree_at(root, h));
                three.height_is(root, h);
                owned_after(s, f, t, g, root, h, h);
            }
        }
        true
    }
}

/// Nodes after the only child `c` of a root took its place; there is nothing left on the
/// page of the child.
pub open spec fn lowered_store(t: Store, root: u32, c: u32) -> Store {
    t.insert(root, (NodeView { left: 0, right: 0, ..t[c] })).insert(
        c,
        (NodeView { kids: seq![], cells: seq![], ..t[c] }),
    )
}

/// A node without cells fits in its page.
proof fn empty_fits(n: NodeView)
    requires
        n.kids.len() == 0,
        n.cells.len() == 0,
    ensures
        node_fits(n),
{
}

/// Pages that were not freed still belong to the tree.
proof fn owned_after(
    s: Store,
    f: Set<u32>,
    u: Store,
    g: Set<u32>,
    p: u32,
    h: nat,
    k: nat,
)
    requires
        forall|x: u32| #[trigger] occ(u, seq![p], k, x) + taken(g, f, x) == occ(s, seq![p], h, x),
        forall|x: u32| #[trigger] occ(s, seq![p], h, x) <= 1,
        forall|x: u32| #[trigger] occ(s, seq![p], h, x) > 0 ==> !f.contains(x),
    ensures
        forall|x: u32| #[trigger] occ(u, seq![p], k, x) > 0 <==> occ(s, seq![p], h, x) > 0
            && !g.contains(x),
        forall|x: u32| g.contains(x) && !f.contains(x) ==> #[trigger] occ(s, seq![p], h, x) > 0,
{
    assert forall|x: u32| #[trigger] occ(u, seq![p], k, x) > 0 <==> occ(s, seq![p], h, x) > 0
        && !g.contains(x) by {
        assert(occ(u, seq![p], k, x) + taken(g, f, x) == occ(s, seq![p], h, x));
        assert(occ(s, seq![p], h, x) <= 1);
        assert(occ(s, seq![p], h, x) > 0 ==> !f.contains(x));
    }
    assert forall|x: u32| g.contains(x) && !f.contains(x) implies #[trigger] occ(s, seq![p], h, x)
        > 0 by {
        assert(occ(u, seq![p], k, x) + taken(g, f, x) == occ(s, seq![p], h, x));
    }
}

} // verus!
