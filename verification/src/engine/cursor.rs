//! Cursors: moving through the entries of a tree in the order of their keys.
use vstd::prelude::*;

use crate::engine::btree::{same_facts, same_transitive, BTree};
use crate::engine::node::{cell_view, CellView};
use crate::engine::record::BTreeValueType;
use crate::engine::remove::{pruned, root_pruned};
use crate::engine::tree::{
    around, as_held, entries, flat_cells, flat_cells_concat, has_key, key_at_bound, level, linked,
    lower_bound, lower_bound_middle, lower_bound_parts, occ, ok, single, sorted, with_cell,
    with_cell_sorted, without_key, Store,
};
use crate::engine::tree_insert::{
    child_index, halved_bound, key_sides, kept, room, separators_sorted,
};
use crate::engine::value::{is_zero, zero_of_other_sign, BTreeDataType, DataView};
use crate::engine::whole::{height_bound, height_unique, new_pages, root_filled};
use crate::engine::recovery::group_calls;

verus! {

broadcast use group_calls;

/// A place in a tree.
#[derive(Debug)]
pub struct BTreeCursor {
    pub treeid: u32,
    /// The page of the root of the tree.
    pub root: u32,
    /// The page where the cursor is.
    pub node: u32,
    /// The pages above it.
    pub path: Vec<u32>,
    /// The cell where it is.
    pub cell_idx: usize,
    /// Whether the entry there comes next, in place of one that was removed.
    pub before_entry: bool,
}

/// The leaves of a tree, from left to right.
pub open spec fn leaves(b: &BTree, root: u32) -> Seq<u32> {
    level(b.store(), seq![root], b.height(root))
}

impl BTreeCursor {
    /// Whether the cursor is at leaf `j` and place `pos` of all entries.
    pub open spec fn on(&self, b: &BTree, j: int, pos: int) -> bool {
        let l = leaves(b, self.root);
        &&& 0 <= j < l.len()
        &&& l[j] == self.node
        &&& self.cell_idx <= b.store()[self.node].cells.len()
        &&& pos == flat_cells(b.store(), l.take(j)).len() + self.cell_idx
    }

    /// Whether the cursor is at place `pos` of the entries of its tree.
    pub open spec fn at(&self, b: &BTree, pos: int) -> bool {
        b.is_tree(self.root) && exists|j: int| self.on(b, j, pos)
    }

    /// Whether the cursor is at the entry at place `pos`.
    pub open spec fn on_entry(&self, b: &BTree, pos: int) -> bool {
        self.at(b, pos) && self.cell_idx < b.store()[self.node].cells.len()
    }
}

/// The cells of one leaf among all entries.
pub proof fn leaf_cells(s: Store, l: Seq<u32>, j: int)
    requires
        0 <= j < l.len(),
    ensures
        flat_cells(s, l) == flat_cells(s, l.take(j)) + s[l[j]].cells + flat_cells(s, l.skip(j + 1)),
        flat_cells(s, l.take(j + 1)) == flat_cells(s, l.take(j)) + s[l[j]].cells,
{
    let a = l.take(j);
    let b = seq![l[j]];
    let c = l.skip(j + 1);
    assert(l =~= a + b + c);
    assert(l.take(j + 1) =~= a + b);
    flat_cells_concat(s, a + b, c);
    flat_cells_concat(s, a, b);
    reveal_with_fuel(flat_cells, 2);
    assert(b.drop_last() =~= seq![]);
    assert(flat_cells(s, b) =~= s[l[j]].cells);
}

/// The rows of a tree are the cells of its leaves, which are linked.
pub proof fn rows_by_leaves(b: &BTree, root: u32)
    requires
        b.is_tree(root),
    ensures
        b.rows(root) == flat_cells(b.store(), leaves(b, root)),
        linked(b.store(), leaves(b, root)),
        sorted(b.rows(root)),
        forall|j: int|
            0 <= j < leaves(b, root).len() ==> {
                let n = b.store()[#[trigger] leaves(b, root)[j]];
                &&& b.store().dom().contains(leaves(b, root)[j])
                &&& n.leaf
                &&& leaves(b, root)[j] != 0
            },
{
    let h = b.height(root);
    let s = b.store();
    let l = leaves(b, root);
    let none = Seq::<u32>::empty();
    assert(b.tree_at(root, h));
    reveal(entries);
    assert(none + l + none =~= l);
    reveal(linked);
    assert forall|j: int| 0 <= j < l.len() implies l[j] != 0 by {
        crate::engine::tree::leaf_occurs(s, seq![root], h, j);
        assert(occ(s, seq![root], h, l[j]) > 0);
    }
}

/// A leaf has its neighbours.
pub proof fn leaf_links(b: &BTree, root: u32, j: int)
    requires
        b.is_tree(root),
        0 <= j < leaves(b, root).len(),
    ensures
        b.store()[leaves(b, root)[j]].left == (if j > 0 {
            leaves(b, root)[j - 1]
        } else {
            0
        }),
        b.store()[leaves(b, root)[j]].right == (if j + 1 < leaves(b, root).len() {
            leaves(b, root)[j + 1]
        } else {
            0
        }),
{
    rows_by_leaves(b, root);
    reveal(linked);
    assert(b.store().dom().contains(leaves(b, root)[j]));
}

/// Leaves of a tree are not empty, but for an empty root.
pub proof fn leaf_not_empty(b: &BTree, root: u32, j: int)
    requires
        b.is_tree(root),
        b.m >= 1,
        0 <= j < leaves(b, root).len(),
        leaves(b, root).len() > 1,
    ensures
        b.store()[leaves(b, root)[j]].cells.len() >= b.m,
{
    let h = b.height(root);
    let s = b.store();
    let m = b.m as nat;
    assert(b.tree_at(root, h));
    if h == 0 {
        single(s, root, 0);
    } else {
        single(s, root, h);
        let k = s[root].kids;
        assert(ok(s, k[0], (h - 1) as nat, m, false));
        level_full(s, k, (h - 1) as nat, m, j);
    }
}

proof fn level_full(s: Store, l: Seq<u32>, h: nat, m: nat, j: int)
    requires
        forall|i: int| 0 <= i < l.len() ==> ok(s, #[trigger] l[i], h, m, false),
        0 <= j < level(s, l, h).len(),
    ensures
        s[level(s, l, h)[j]].cells.len() >= m,
    decreases h,
{
    reveal(level);
    if h > 0 {
        let k = crate::engine::tree::flat_kids(s, l);
        kids_ok(s, l, h, m);
        level_full(s, k, (h - 1) as nat, m, j);
    } else {
        assert(ok(s, l[j], h, m, false));
    }
}

proof fn kids_ok(s: Store, l: Seq<u32>, h: nat, m: nat)
    requires
        h > 0,
        forall|i: int| 0 <= i < l.len() ==> ok(s, #[trigger] l[i], h, m, false),
    ensures
        forall|i: int|
            0 <= i < crate::engine::tree::flat_kids(s, l).len() ==> ok(
                s,
                #[trigger] crate::engine::tree::flat_kids(s, l)[i],
                (h - 1) as nat,
                m,
                false,
            ),
    decreases l.len(),
{
    if l.len() > 0 {
        let d = l.drop_last();
        assert forall|i: int| 0 <= i < d.len() implies ok(s, #[trigger] d[i], h, m, false) by {
            assert(d[i] == l[i]);
        }
        kids_ok(s, d, h, m);
        let a = crate::engine::tree::flat_kids(s, d);
        let k = crate::engine::tree::flat_kids(s, l);
        assert(ok(s, l[l.len() - 1], h, m, false));
        assert forall|i: int| 0 <= i < k.len() implies ok(
            s,
            #[trigger] k[i],
            (h - 1) as nat,
            m,
            false,
        ) by {
            if i < a.len() {
                assert(k[i] == a[i]);
            } else {
                assert(k[i] == s[l.last()].kids[i - a.len()]);
            }
        }
    }
}

impl BTreeCursor {
    /// A cursor at the root of a tree.
    pub fn new(treeid: u32, rootpgno: u32) -> (r: Self)
        ensures
            r.treeid == treeid,
            r.root == rootpgno,
            r.node == rootpgno,
            r.path@.len() == 0,
            r.cell_idx == 0,
            !r.before_entry,
    {
        BTreeCursor {
            treeid,
            root: rootpgno,
            node: rootpgno,
            path: Vec::new(),
            cell_idx: 0,
            before_entry: false,
        }
    }

    /// A cursor at the root of the schema table.
    pub fn new_root() -> (r: Self)
        ensures
            r.treeid == 1,
            r.root == 1,
            r.node == 1,
            r.path@.len() == 0,
            r.cell_idx == 0,
            !r.before_entry,
    {
        BTreeCursor::new(1, 1)
    }

    /// Goes back to the root.
    pub fn moveto_root(&mut self)
        ensures
            *final(self) == (BTreeCursor {
                node: old(self).root,
                path: final(self).path,
                ..*old(self)
            }),
            final(self).path@.len() == 0,
    {
        self.path.clear();
        self.node = self.root;
    }

    /// Goes down to a child.
    pub fn moveto_child(&mut self, pgno: u32)
        ensures
            *final(self) == (BTreeCursor { node: pgno, path: final(self).path, ..*old(self) }),
            final(self).path@ == old(self).path@.push(old(self).node),
    {
        self.path.push(self.node);
        self.node = pgno;
    }

    /// Goes up to the parent, where there is one.
    pub fn moveto_parent(&mut self)
        ensures
            *final(self) == (BTreeCursor {
                node: final(self).node,
                path: final(self).path,
                ..*old(self)
            }),
            old(self).path@.len() == 0 ==> final(self).node == old(self).node && final(
                self).path@.len() == 0,
            old(self).path@.len() > 0 ==> final(self).node == old(self).path@.last() && final(
                self).path@ == old(self).path@.drop_last(),
    {
        if let Some(p) = self.path.pop() {
            self.node = p;
        }
    }

    /// Goes from the root down to the place of a key; says whether the pages were a
    /// tree, and whether the key is there.
    #[verifier::rlimit(60)]
    fn descend(&mut self, btree: &mut BTree, key: &BTreeDataType) -> (r: (bool, bool))
        requires
            old(btree).wf(),
        ensures
            final(btree).wf(),
            final(btree).same(old(btree)),
            final(btree).store() == old(btree).store(),
            final(btree).total() == old(btree).total(),
            old(btree).free_ok() ==> final(btree).free_ok() && final(btree).free() == old(
                btree).free(),
            final(self).root == old(self).root,
            final(self).treeid == old(self).treeid,
            !final(self).before_entry,
            old(btree).is_tree(old(self).root) ==> {
                let e = old(btree).rows(old(self).root);
                let end = lower_bound(e, key@) as int;
                &&& r.0
                &&& final(self).at(final(btree), end)
                &&& r.1 == has_key(e, key@)
                &&& r.1 ==> final(self).on_entry(final(btree), end)
                &&& end < e.len() ==> final(self).on_entry(final(btree), end)
            },
    {
        self.moveto_root();
        self.before_entry = false;
        let ghost before = *btree;
        let ghost root = self.root;
        let ghost h = before.height(root);
        let ghost m = before.m as nat;
        let ghost s = before.store();
        let ghost all = leaves(&before, root);
        let ghost e = before.rows(root);
        let ghost good = before.is_tree(root);
        let ghost mut la = Seq::<u32>::empty();
        let ghost mut lb = Seq::<u32>::empty();
        proof {
            same_facts(&before, btree);
            if before.free_ok() {
                assert(btree.free() =~= before.free());
            }
            if good {
                assert(before.tree_at(root, h));
                height_bound(s, root, h, m, true, before.total() as nat);
                way_start(&before, root, key@);
            }
        }
        let total: u32 = btree.pager.total_pages;
        let mut d: u32 = 0;
        while d < total
            invariant
                before == *old(btree),
                before.wf(),
                btree.wf(),
                btree.same(&before),
                btree.store() == s,
                btree.total() == before.total(),
                total == before.total(),
                s == before.store(),
                m == before.m,
                m >= 2,
                before.free_ok() ==> btree.free_ok() && btree.free() == before.free(),
                self.root == root,
                root == old(self).root,
                self.treeid == old(self).treeid,
                !self.before_entry,
                good == before.is_tree(root),
                h == before.height(root),
                all == leaves(&before, root),
                e == before.rows(root),
                good ==> h < total && on_way(s, m, h, all, e, d as nat, self.node, la, lb, key@),
            decreases total - d,
        {
            let ghost mid = *btree;
            proof {
                if good {
                    assert(d <= h && ok(s, self.node, (h - d) as nat, m, d == 0)) by {
                        reveal(on_way);
                    }
                }
            }
            let found = btree.getnode(self.node);
            proof {
                same_transitive(&before, &mid, btree);
                if before.free_ok() {
                    assert(btree.free() =~= before.free());
                }
            }
            let node = match found {
                Some(n) => n,
                None => return (false, false),
            };
            let ghost p = self.node;
            let (pos, there) = node.position(key);
            if node.is_leaf {
                self.cell_idx = pos;
                proof {
                    if good {
                        assert(node@.cells.len() == node.cells@.len());
                        assert(h == d) by {
                            reveal(on_way);
                        }
                        btree.same_trees(&before, root);
                        way_stop(&before, root, p, la, lb, key@, pos as int);
                        assert(self.on(btree, la.len() as int, lower_bound(e, key@) as int));
                    }
                }
                return (true, there);
            }
            if node.children_pgno.len() == 0 {
                return (false, false);
            }
            let i: usize = if pos < node.children_pgno.len() {
                pos
            } else {
                node.children_pgno.len() - 1
            };
            proof {
                if good {
                    assert(h > d) by {
                        reveal(on_way);
                    }
                    way_sorted(s, m, h, all, e, d as nat, p, la, lb, key@);
                    assert(i == child_index(s[p], key@));
                    way_step(s, m, h, all, e, d as nat, p, la, lb, key@, i as int);
                    let g = (h - d - 1) as nat;
                    la = la + level(s, s[p].kids.take(i as int), g);
                    lb = level(s, s[p].kids.skip(i + 1), g) + lb;
                }
            }
            self.moveto_child(node.children_pgno[i]);
            d = d + 1;
        }
        proof {
            if good {
                reveal(on_way);
            }
        }
        (false, false)
    }
}

/// On the way down a tree: page `p` is `d` levels below the root, the leaves left
/// of those below it are `la`, and those right of them `lb`.
#[verifier::opaque]
pub open spec fn on_way(
    s: Store,
    m: nat,
    h: nat,
    all: Seq<u32>,
    e: Seq<CellView>,
    d: nat,
    p: u32,
    la: Seq<u32>,
    lb: Seq<u32>,
    key: DataView,
) -> bool {
    let k = (h - d) as nat;
    let ea = flat_cells(s, la);
    let eb = flat_cells(s, lb);
    let ep = entries(s, seq![p], k);
    &&& d <= h
    &&& ok(s, p, k, m, d == 0)
    &&& all == la + level(s, seq![p], k) + lb
    &&& e == ea + ep + eb
    &&& sorted(e)
    &&& forall|i: int|
        0 <= i < ea.len() ==> crate::engine::order::key_lt((#[trigger] ea[i]).0, key)
    &&& forall|i: int|
        0 <= i < eb.len() ==> crate::engine::order::key_lt(key, (#[trigger] eb[i]).0)
    &&& lb.len() > 0 ==> ep.len() > 0 && !crate::engine::order::key_lt(ep.last().0, key)
    &&& d > 0 ==> ep.len() > 0
}

/// The way starts at the root.
proof fn way_start(b: &BTree, root: u32, key: DataView)
    requires
        b.is_tree(root),
    ensures
        on_way(
            b.store(),
            b.m as nat,
            b.height(root),
            leaves(b, root),
            b.rows(root),
            0,
            root,
            seq![],
            seq![],
            key,
        ),
{
    reveal(on_way);
    let s = b.store();
    let h = b.height(root);
    let none = Seq::<u32>::empty();
    assert(b.tree_at(root, h));
    rows_by_leaves(b, root);
    assert(none + level(s, seq![root], h) + none =~= leaves(b, root));
    assert(flat_cells(s, none) =~= seq![]);
    assert(flat_cells(s, none) + entries(s, seq![root], h) + flat_cells(s, none) =~= b.rows(root));
}

/// The parts of the entries on the way are sorted.
proof fn way_sorted(
    s: Store,
    m: nat,
    h: nat,
    all: Seq<u32>,
    e: Seq<CellView>,
    d: nat,
    p: u32,
    la: Seq<u32>,
    lb: Seq<u32>,
    key: DataView,
)
    requires
        on_way(s, m, h, all, e, d, p, la, lb, key),
        m >= 1,
    ensures
        sorted(entries(s, seq![p], (h - d) as nat)),
        h > d ==> sorted(s[p].cells),
{
    reveal(on_way);
    let k = (h - d) as nat;
    crate::engine::tree::sorted_parts(
        flat_cells(s, la) + entries(s, seq![p], k),
        flat_cells(s, lb),
    );
    crate::engine::tree::sorted_parts(flat_cells(s, la), entries(s, seq![p], k));
    if k > 0 {
        separators_sorted(s, p, k, m, d == 0);
    }
}

/// One step down.
#[verifier::rlimit(40)]
proof fn way_step(
    s: Store,
    m: nat,
    h: nat,
    all: Seq<u32>,
    e: Seq<CellView>,
    d: nat,
    p: u32,
    la: Seq<u32>,
    lb: Seq<u32>,
    key: DataView,
    i: int,
)
    requires
        on_way(s, m, h, all, e, d, p, la, lb, key),
        m >= 1,
        h > d,
        0 <= i < s[p].kids.len(),
        i == child_index(s[p], key),
    ensures
        on_way(
            s,
            m,
            h,
            all,
            e,
            d + 1,
            s[p].kids[i],
            la + level(s, s[p].kids.take(i), (h - d - 1) as nat),
            level(s, s[p].kids.skip(i + 1), (h - d - 1) as nat) + lb,
            key,
        ),
{
    way_sorted(s, m, h, all, e, d, p, la, lb, key);
    reveal(on_way);
    let k = (h - d) as nat;
    let g = (k - 1) as nat;
    let kids = s[p].kids;
    let c = kids[i];
    assert(ok(s, kids[i], g, m, false));
    single(s, p, k);
    around(s, kids, i, g);
    let ca = level(s, kids.take(i), g);
    let cb = level(s, kids.skip(i + 1), g);
    flat_cells_concat(s, la, ca);
    flat_cells_concat(s, cb, lb);
    assert(entries(s, kids.take(i), g) == flat_cells(s, ca) && entries(s, kids.skip(i + 1), g)
        == flat_cells(s, cb)) by {
        reveal(entries);
    }
    crate::engine::tree::max_is_last(s, c, g, m, false);
    way_down(s, la, lb, ca, cb, p, k, m, d == 0, key);
    assert(all =~= (la + ca) + level(s, seq![c], g) + (cb + lb));
    assert(e =~= flat_cells(s, la + ca) + entries(s, seq![c], g) + flat_cells(s, cb + lb));
}

/// The way ends at a leaf.
#[verifier::rlimit(40)]
proof fn way_stop(
    b: &BTree,
    root: u32,
    p: u32,
    la: Seq<u32>,
    lb: Seq<u32>,
    key: DataView,
    pos: int,
)
    requires
        b.is_tree(root),
        b.m >= 2,
        on_way(
            b.store(),
            b.m as nat,
            b.height(root),
            leaves(b, root),
            b.rows(root),
            b.height(root),
            p,
            la,
            lb,
            key,
        ),
        ({
            let c = b.store()[p].cells;
            sorted(c) ==> pos == lower_bound(c, key)
        }),
    ensures
        ({
            let e = b.rows(root);
            let l = leaves(b, root);
            let j = la.len() as int;
            let c = b.store()[p].cells;
            let end = lower_bound(e, key) as int;
            &&& 0 <= j < l.len()
            &&& l[j] == p
            &&& l.take(j) == la
            &&& pos <= c.len()
            &&& end == flat_cells(b.store(), la).len() + pos
            &&& end < e.len() ==> pos < c.len()
            &&& sorted(c)
            &&& has_key(e, key) == has_key(c, key)
            &&& has_key(e, key) ==> end < e.len()
        }),
{
    let s = b.store();
    let h = b.height(root);
    let e = b.rows(root);
    let l = leaves(b, root);
    let c = s[p].cells;
    way_sorted(s, b.m as nat, h, l, e, h, p, la, lb, key);
    reveal(on_way);
    single(s, p, 0);
    let j = la.len() as int;
    assert(l[j] == p);
    assert(l.take(j) =~= la);
    let ea = flat_cells(s, la);
    let eb = flat_cells(s, lb);
    lower_bound_middle(ea, c, eb, key);
    key_at_bound(c, key);
    key_at_bound(e, key);
    crate::engine::tree::lower_bound_parts(c, key);
    if lb.len() > 0 {
        assert(c[c.len() - 1] == c.last());
        assert(pos < c.len());
    } else {
        assert(eb =~= seq![]);
    }
}

/// The first leaf of a tree with entries is not empty.
proof fn first_leaf(b: &BTree, root: u32)
    requires
        b.is_tree(root),
        b.m >= 1,
        b.rows(root).len() > 0,
        leaves(b, root).len() > 0,
    ensures
        b.store()[leaves(b, root)[0]].cells.len() > 0,
{
    let l = leaves(b, root);
    rows_by_leaves(b, root);
    if l.len() > 1 {
        leaf_not_empty(b, root, 0);
    } else {
        leaf_cells(b.store(), l, 0);
        assert(l.take(0) =~= seq![]);
        assert(l.skip(1) =~= seq![]);
        reveal_with_fuel(flat_cells, 1);
    }
}

/// Entries left of the child that a key belongs to are before the key, and those
/// right of it after it, also where there are other trees around.
proof fn way_down(
    s: Store,
    la: Seq<u32>,
    lb: Seq<u32>,
    ca: Seq<u32>,
    cb: Seq<u32>,
    p: u32,
    k: nat,
    m: nat,
    top: bool,
    key: DataView,
)
    requires
        ok(s, p, k, m, top),
        k > 0,
        m >= 1,
        sorted(entries(s, seq![p], k)),
        ({
            let i = child_index(s[p], key);
            let g = (k - 1) as nat;
            &&& ca == level(s, s[p].kids.take(i), g)
            &&& cb == level(s, s[p].kids.skip(i + 1), g)
        }),
        ({
            let ea = flat_cells(s, la);
            let eb = flat_cells(s, lb);
            &&& forall|i: int|
                0 <= i < ea.len() ==> crate::engine::order::key_lt((#[trigger] ea[i]).0, key)
            &&& forall|i: int|
                0 <= i < eb.len() ==> crate::engine::order::key_lt(key, (#[trigger] eb[i]).0)
            &&& lb.len() > 0 ==> !crate::engine::order::key_lt(
                entries(s, seq![p], k).last().0,
                key,
            )
        }),
    ensures
        ({
            let i = child_index(s[p], key);
            let g = (k - 1) as nat;
            let ea = flat_cells(s, la + ca);
            let eb = flat_cells(s, cb + lb);
            let e = entries(s, seq![s[p].kids[i]], g);
            &&& forall|i: int|
                0 <= i < ea.len() ==> crate::engine::order::key_lt((#[trigger] ea[i]).0, key)
            &&& forall|i: int|
                0 <= i < eb.len() ==> crate::engine::order::key_lt(key, (#[trigger] eb[i]).0)
            &&& (cb + lb).len() > 0 ==> e.len() > 0 && !crate::engine::order::key_lt(
                e.last().0,
                key,
            )
            &&& e.len() > 0
        }),
{
    key_sides(s, p, k, m, top, key);
    let i = child_index(s[p], key);
    let g = (k - 1) as nat;
    let kids = s[p].kids;
    flat_cells_concat(s, la, ca);
    flat_cells_concat(s, cb, lb);
    reveal(entries);
    let ea = flat_cells(s, la);
    let eb = flat_cells(s, lb);
    let a = flat_cells(s, la + ca);
    let c = flat_cells(s, cb + lb);
    let xa = entries(s, kids.take(i), g);
    let xc = entries(s, kids.skip(i + 1), g);
    assert(a =~= ea + xa);
    assert(c =~= xc + eb);
    assert forall|j: int| 0 <= j < a.len() implies crate::engine::order::key_lt(
        (#[trigger] a[j]).0,
        key,
    ) by {
        if j < ea.len() {
            assert(a[j] == ea[j]);
        } else {
            assert(a[j] == xa[j - ea.len()]);
        }
    }
    assert forall|j: int| 0 <= j < c.len() implies crate::engine::order::key_lt(
        key,
        (#[trigger] c[j]).0,
    ) by {
        if j < xc.len() {
            assert(c[j] == xc[j]);
        } else {
            assert(c[j] == eb[j - xc.len()]);
        }
    }
    if (cb + lb).len() > 0 {
        if i + 1 < kids.len() {
            assert(crate::engine::node::node_fits(s[p]));
            assert(i < s[p].cells.len());
        } else {
            assert(kids.skip(i + 1) =~= seq![]);
            crate::engine::tree::no_trees(s, g);
            assert(cb.len() == 0);
            assert(xc =~= seq![]);
            let b = entries(s, seq![kids[i]], g);
            assert(entries(s, seq![p], k) == xa + b + xc);
            assert(entries(s, seq![p], k).last() == b.last());
        }
    }
}

/// What going to the first entry does: to the first one of the tree where the cursor is
/// at its root, and of its leaf where it is at one.
pub open spec fn rewound(a: &BTree, c: &BTreeCursor, b: &BTree, d: &BTreeCursor, r: bool) -> bool {
    &&& b.wf()
    &&& b.same(a)
    &&& b.store() == a.store()
    &&& b.total() == a.total()
    &&& a.free_ok() ==> b.free_ok() && b.free() == a.free()
    &&& d.root == c.root
    &&& d.treeid == c.treeid
    &&& !d.before_entry
    &&& in_order(a, c.node) ==> {
        &&& d.node == leaves_below(a, c.node)[0]
        &&& d.cell_idx == 0
        &&& r == (a.store()[d.node].cells.len() > 0)
    }
    &&& a.is_tree(c.root) && c.node == c.root ==> {
        &&& r == (a.rows(c.root).len() > 0)
        &&& d.at(b, 0)
        &&& r ==> d.on_entry(b, 0)
    }
    &&& forall|j: int, pos: int|
        a.is_tree(c.root) && #[trigger] c.on(a, j, pos) ==> d.on(b, j, pos - c.cell_idx) && r == (
        a.store()[c.node].cells.len() > 0)
}

/// What going to the next entry does.
pub open spec fn advanced(a: &BTree, c: &BTreeCursor, b: &BTree, d: &BTreeCursor, r: bool) -> bool {
    &&& b.wf()
    &&& b.same(a)
    &&& b.store() == a.store()
    &&& b.total() == a.total()
    &&& a.free_ok() ==> b.free_ok() && b.free() == a.free()
    &&& d.root == c.root
    &&& d.treeid == c.treeid
    &&& !d.before_entry
    &&& forall|pos: int|
        !c.before_entry && #[trigger] c.on_entry(a, pos) ==> {
            let n = a.rows(c.root).len();
            &&& r == (pos + 1 < n)
            &&& r ==> d.on_entry(b, pos + 1)
            &&& !r ==> d.at(b, n as int)
        }
    &&& forall|pos: int|
        c.before_entry && #[trigger] c.at(a, pos) && (pos < a.rows(c.root).len() ==> c.on_entry(a, pos))
            ==> r == (pos < a.rows(c.root).len()) && d.at(
            b,
            pos,
        ) && (r ==> d.on_entry(b, pos))
}

/// What going to the entry with a key does.
pub open spec fn sought(
    a: &BTree,
    c: &BTreeCursor,
    b: &BTree,
    d: &BTreeCursor,
    key: DataView,
    r: bool,
) -> bool {
    &&& b.wf()
    &&& b.same(a)
    &&& b.store() == a.store()
    &&& b.total() == a.total()
    &&& a.free_ok() ==> b.free_ok() && b.free() == a.free()
    &&& d.root == c.root
    &&& d.treeid == c.treeid
    &&& !d.before_entry
    &&& a.is_tree(c.root) ==> {
        let e = a.rows(c.root);
        let key = as_held(e, key);
        let pos = lower_bound(e, key) as int;
        &&& r == has_key(e, key)
        &&& d.at(b, pos)
        &&& r ==> d.on_entry(b, pos) && e[pos].0 == key
    }
}

impl BTreeCursor {
    /// Goes from where the cursor is down to the first leaf below it, or to the last one;
    /// says whether the pages were a tree.
    fn sink(&mut self, btree: &mut BTree, last: bool) -> (r: Option<usize>)
        requires
            old(btree).wf(),
        ensures
            final(btree).wf(),
            final(btree).same(old(btree)),
            final(btree).store() == old(btree).store(),
            final(btree).total() == old(btree).total(),
            old(btree).free_ok() ==> final(btree).free_ok() && final(btree).free() == old(
                btree).free(),
            final(self).root == old(self).root,
            final(self).treeid == old(self).treeid,
            final(self).cell_idx == old(self).cell_idx,
            final(self).before_entry == old(self).before_entry,
            in_order(old(btree), old(self).node) ==> {
                let s = old(btree).store();
                let l = leaves_below(old(btree), old(self).node);
                &&& r == Some(s[final(self).node].cells.len() as usize)
                &&& s.dom().contains(final(self).node)
                &&& s[final(self).node].cells.len() <= usize::MAX
                &&& final(self).node == if last {
                    l.last()
                } else {
                    l[0]
                }
            },
    {
        let ghost before = *btree;
        let ghost s = before.store();
        let ghost m = before.m as nat;
        let ghost x = self.node;
        let ghost k = node_height(&before, x);
        let ghost l = leaves_below(&before, x);
        let ghost good = in_order(&before, x);
        proof {
            same_facts(&before, btree);
            if before.free_ok() {
                assert(btree.free() =~= before.free());
            }
        }
        let total: u32 = btree.pager.total_pages;
        let mut d: u32 = 0;
        while d < total
            invariant
                before == *old(btree),
                before.wf(),
                btree.wf(),
                btree.same(&before),
                btree.store() == s,
                btree.total() == before.total(),
                total == before.total(),
                s == before.store(),
                m == before.m,
                m >= 2,
                before.free_ok() ==> btree.free_ok() && btree.free() == before.free(),
                self.root == old(self).root,
                self.treeid == old(self).treeid,
                self.cell_idx == old(self).cell_idx,
                self.before_entry == old(self).before_entry,
                good == in_order(&before, old(self).node),
                k == node_height(&before, old(self).node),
                l == leaves_below(&before, old(self).node),
                good ==> {
                    let w = level(s, seq![self.node], (k - d) as nat);
                    &&& d <= k < total
                    &&& ok(s, self.node, (k - d) as nat, m, true)
                    &&& if last {
                        w.last() == l.last()
                    } else {
                        w[0] == l[0]
                    }
                },
            decreases total - d,
        {
            let ghost mid = *btree;
            let found = btree.getnode(self.node);
            proof {
                same_transitive(&before, &mid, btree);
                if before.free_ok() {
                    assert(btree.free() =~= before.free());
                }
            }
            let node = match found {
                Some(n) => n,
                None => return None,
            };
            let ghost p = self.node;
            if node.is_leaf {
                proof {
                    assert(node@.cells.len() == node.cells@.len());
                    single(s, p, 0);
                }
                return Some(node.cells.len());
            }
            let count: usize = node.children_pgno.len();
            if count == 0 {
                return None;
            }
            let i: usize = if last {
                count - 1
            } else {
                0
            };
            proof {
                if good {
                    ends_below(s, p, (k - d) as nat, m, true);
                    assert(ok(s, s[p].kids[i as int], (k - d - 1) as nat, m, false));
                }
            }
            self.moveto_child(node.children_pgno[i]);
            d = d + 1;
        }
        None
    }

    /// Goes from where the cursor is down to the leftmost leaf below, before its
    /// entries; says whether the pages were a tree.
    pub fn moveto_leftmost(&mut self, btree: &mut BTree) -> (r: bool)
        requires
            old(btree).wf(),
        ensures
            final(btree).wf(),
            final(btree).same(old(btree)),
            final(btree).store() == old(btree).store(),
            final(btree).total() == old(btree).total(),
            old(btree).free_ok() ==> final(btree).free_ok() && final(btree).free() == old(
                btree).free(),
            final(self).root == old(self).root,
            final(self).treeid == old(self).treeid,
            !final(self).before_entry,
            in_order(old(btree), old(self).node) ==> {
                &&& r
                &&& final(self).node == leaves_below(old(btree), old(self).node)[0]
                &&& final(self).cell_idx == 0
                &&& old(btree).store().dom().contains(final(self).node)
            },
            old(btree).is_tree(old(self).root) && old(self).node == old(self).root ==> {
                &&& r
                &&& final(self).at(final(btree), 0)
                &&& old(btree).rows(old(self).root).len() > 0 ==> final(self).on_entry(
                    final(btree),
                    0,
                )
            },
            forall|j: int, pos: int|
                old(btree).is_tree(old(self).root) && #[trigger] old(self).on(old(btree), j, pos)
                    ==> r && final(self).on(final(btree), j, pos - old(self).cell_idx),
    {
        let ghost before = *btree;
        let ghost start = *self;
        let found = self.sink(btree, false);
        self.before_entry = false;
        if found.is_none() {
            proof {
                if before.is_tree(start.root) {
                    root_below(&before, start.root);
                    assert forall|j: int, pos: int| #[trigger]
                        start.on(&before, j, pos) implies false by {
                        leaf_below(&before, start, j, pos);
                    }
                }
            }
            return false;
        }
        self.cell_idx = 0;
        proof {
            if before.is_tree(start.root) {
                btree.same_trees(&before, start.root);
                root_below(&before, start.root);
                let l = leaves(&before, start.root);
                if start.node == start.root {
                    assert(l.take(0) =~= seq![]);
                    assert(flat_cells(before.store(), l.take(0)) =~= seq![]);
                    assert(self.on(btree, 0, 0));
                    if before.rows(start.root).len() > 0 {
                        first_leaf(&before, start.root);
                    }
                }
                assert forall|j: int, pos: int| #[trigger] start.on(&before, j, pos) implies self.on(
                    btree,
                    j,
                    pos - start.cell_idx,
                ) by {
                    leaf_below(&before, start, j, pos);
                }
            }
        }
        true
    }

    /// Goes from where the cursor is down to the rightmost leaf below, behind its
    /// entries; says whether the pages were a tree.
    pub fn moveto_rightmost(&mut self, btree: &mut BTree) -> (r: bool)
        requires
            old(btree).wf(),
        ensures
            final(btree).wf(),
            final(btree).same(old(btree)),
            final(btree).store() == old(btree).store(),
            final(btree).total() == old(btree).total(),
            old(btree).free_ok() ==> final(btree).free_ok() && final(btree).free() == old(
                btree).free(),
            final(self).root == old(self).root,
            final(self).treeid == old(self).treeid,
            !final(self).before_entry,
            in_order(old(btree), old(self).node) ==> {
                &&& r
                &&& final(self).node == leaves_below(old(btree), old(self).node).last()
                &&& final(self).cell_idx == old(btree).store()[final(self).node].cells.len()
                &&& old(btree).store().dom().contains(final(self).node)
            },
            old(btree).is_tree(old(self).root) && old(self).node == old(self).root ==> r && final(
                self).at(final(btree), old(btree).rows(old(self).root).len() as int),
            forall|j: int, pos: int|
                old(btree).is_tree(old(self).root) && #[trigger] old(self).on(old(btree), j, pos)
                    ==> r && final(self).on(
                    final(btree),
                    j,
                    pos - old(self).cell_idx + old(btree).store()[old(self).node].cells.len(),
                ),
    {
        let ghost before = *btree;
        let ghost start = *self;
        let found = self.sink(btree, true);
        self.before_entry = false;
        match found {
            None => {
                proof {
                    if before.is_tree(start.root) {
                        root_below(&before, start.root);
                        assert forall|j: int, pos: int| #[trigger]
                            start.on(&before, j, pos) implies false by {
                            leaf_below(&before, start, j, pos);
                        }
                    }
                }
                false
            },
            Some(n) => {
                self.cell_idx = n;
                proof {
                    if before.is_tree(start.root) {
                        btree.same_trees(&before, start.root);
                        root_below(&before, start.root);
                        let s = before.store();
                        let l = leaves(&before, start.root);
                        if start.node == start.root {
                            let z = l.len() - 1;
                            rows_by_leaves(&before, start.root);
                            leaf_cells(s, l, z);
                            assert(l.take(z + 1) =~= l);
                            assert(self.on(
                                btree,
                                z,
                                before.rows(start.root).len() as int,
                            ));
                        }
                        assert forall|j: int, pos: int| #[trigger]
                            start.on(&before, j, pos) implies self.on(
                            btree,
                            j,
                            pos - start.cell_idx + s[start.node].cells.len(),
                        ) by {
                            leaf_below(&before, start, j, pos);
                        }
                    }
                }
                true
            },
        }
    }

    /// Goes from where the cursor is to the first entry below; says whether there is
    /// one.
    pub fn moveto_first_entry(&mut self, btree: &mut BTree) -> (r: bool)
        requires
            old(btree).wf(),
        ensures
            rewound(old(btree), old(self), final(btree), final(self), r),
    {
        let ghost before = *btree;
        let ghost start = *self;
        let ghost root = self.root;
        if !self.moveto_leftmost(btree) {
            return false;
        }
        let ghost mid = *btree;
        let found = btree.getnode(self.node);
        proof {
            same_transitive(&before, &mid, btree);
            if before.free_ok() {
                assert(btree.free() =~= before.free());
            }
            if before.is_tree(root) {
                root_below(&before, root);
                mid.same_trees(&before, root);
                btree.same_trees(&before, root);
                rows_by_leaves(&before, root);
                if start.node == root {
                    at_same(&mid, btree, *self, 0);
                    let j = choose|j: int| self.on(&mid, j, 0);
                    leaf_cells(before.store(), leaves(&before, root), j);
                    assert(before.store().dom().contains(leaves(&before, root)[j]));
                }
                assert forall|j: int, pos: int| #[trigger] start.on(&before, j, pos) implies self.on(
                    btree,
                    j,
                    pos - start.cell_idx,
                ) && found is Some && self.node == start.node by {
                    assert(self.on(&mid, j, pos - start.cell_idx));
                    assert(before.store().dom().contains(leaves(&before, root)[j]));
                }
            }
        }
        match found {
            Some(node) => {
                assert(node@.cells.len() == node.cells@.len());
                node.cells.len() > 0
            },
            None => false,
        }
    }

    /// The form in which the tree holds a key.
    fn held(&self, btree: &mut BTree, key: &BTreeDataType) -> (r: BTreeDataType)
        requires
            old(btree).wf(),
        ensures
            final(btree).wf(),
            final(btree).same(old(btree)),
            final(btree).store() == old(btree).store(),
            final(btree).total() == old(btree).total(),
            old(btree).free_ok() ==> final(btree).free_ok() && final(btree).free() == old(
                btree).free(),
            !is_zero(key@) ==> r@ == key@,
            old(btree).is_tree(self.root) ==> r@ == as_held(old(btree).rows(self.root), key@),
    {
        let ghost before = *btree;
        proof {
            same_facts(&before, btree);
            if before.free_ok() {
                assert(btree.free() =~= before.free());
            }
        }
        match zero_of_other_sign(key) {
            None => key.clone(),
            Some(other) => {
                let mut c = BTreeCursor::new(self.treeid, self.root);
                let (found, there) = c.descend(btree, key);
                if found && there {
                    return key.clone();
                }
                let ghost mid = *btree;
                let (found, there) = c.descend(btree, &other);
                proof {
                    same_transitive(&before, &mid, btree);
                    if before.is_tree(self.root) {
                        mid.same_trees(&before, self.root);
                    }
                }
                if found && there {
                    other
                } else {
                    key.clone()
                }
            },
        }
    }

    /// Goes to the place of a key as it is.
    fn find_place(&mut self, btree: &mut BTree, key: &BTreeDataType)
        requires
            old(btree).wf(),
        ensures
            final(btree).wf(),
            final(btree).same(old(btree)),
            final(btree).store() == old(btree).store(),
            final(btree).total() == old(btree).total(),
            old(btree).free_ok() ==> final(btree).free_ok() && final(btree).free() == old(
                btree).free(),
            final(self).root == old(self).root,
            final(self).treeid == old(self).treeid,
            !final(self).before_entry,
            old(btree).is_tree(old(self).root) ==> {
                let e = old(btree).rows(old(self).root);
                let pos = lower_bound(e, key@) as int;
                &&& final(self).at(final(btree), pos)
                &&& pos < e.len() ==> final(self).on_entry(final(btree), pos)
            },
    {
        let _ = self.descend(btree, key);
    }

    /// Goes to the place of a key; says whether the key is there.
    pub fn moveto_target(&mut self, btree: &mut BTree, key: &BTreeDataType) -> (r: bool)
        requires
            old(btree).wf(),
        ensures
            final(btree).wf(),
            final(btree).same(old(btree)),
            final(btree).store() == old(btree).store(),
            final(btree).total() == old(btree).total(),
            old(btree).free_ok() ==> final(btree).free_ok() && final(btree).free() == old(
                btree).free(),
            final(self).root == old(self).root,
            final(self).treeid == old(self).treeid,
            !final(self).before_entry,
            old(btree).is_tree(old(self).root) ==> {
                let e = old(btree).rows(old(self).root);
                let pos = lower_bound(e, as_held(e, key@)) as int;
                &&& r == has_key(e, as_held(e, key@))
                &&& final(self).at(final(btree), pos)
                &&& pos < e.len() ==> final(self).on_entry(final(btree), pos)
            },
    {
        let ghost before = *btree;
        let ghost root = self.root;
        let key = self.held(btree, key);
        let ghost mid = *btree;
        let (found, there) = self.descend(btree, &key);
        proof {
            same_transitive(&before, &mid, btree);
            if before.is_tree(root) {
                mid.same_trees(&before, root);
            }
        }
        found && there
    }

    /// Goes to the entry with a key; says whether it is there.
    pub fn moveto_key_entry(&mut self, btree: &mut BTree, key: &BTreeDataType) -> (r: bool)
        requires
            old(btree).wf(),
        ensures
            sought(old(btree), old(self), final(btree), final(self), key@, r),
    {
        let r = self.moveto_target(btree, key);
        proof {
            if old(btree).is_tree(old(self).root) {
                rows_by_leaves(old(btree), old(self).root);
                let e = old(btree).rows(old(self).root);
                key_at_bound(e, as_held(e, key@));
            }
        }
        r
    }

    /// The entry where the cursor is.
    pub fn current_entry(&self, btree: &mut BTree) -> (r: Option<(BTreeDataType, BTreeValueType)>)
        requires
            old(btree).wf(),
        ensures
            final(btree).wf(),
            final(btree).same(old(btree)),
            final(btree).store() == old(btree).store(),
            final(btree).total() == old(btree).total(),
            old(btree).free_ok() ==> final(btree).free_ok() && final(btree).free() == old(
                btree).free(),
            r is Some <==> old(btree).store().dom().contains(self.node) && self.cell_idx < old(
                btree).store()[self.node].cells.len(),
            r matches Some(c) ==> cell_view(c) == old(btree).store()[self.node].cells[self.cell_idx as int],
            forall|pos: int| #[trigger]
                self.on_entry(old(btree), pos) ==> r is Some && cell_view(r->0) == old(btree).rows(
                    self.root,
                )[pos] && 0 <= pos < old(btree).rows(self.root).len(),
    {
        let ghost before = *btree;
        let found = btree.getnode(self.node);
        proof {
            if before.free_ok() {
                assert(btree.free() =~= before.free());
            }
            assert forall|pos: int| #[trigger] self.on_entry(&before, pos) implies found is Some
                && before.rows(self.root)[pos]
                == before.store()[self.node].cells[self.cell_idx as int] && 0 <= pos < before.rows(
                self.root,
            ).len() by {
                let j = choose|j: int| self.on(&before, j, pos);
                rows_by_leaves(&before, self.root);
                leaf_cells(before.store(), leaves(&before, self.root), j);
                assert(before.store().dom().contains(leaves(&before, self.root)[j]));
            }
        }
        match found {
            Some(node) => {
                assert(node@.cells.len() == node.cells@.len());
                if self.cell_idx < node.cells.len() {
                    assert(cell_view(node.cells@[self.cell_idx as int])
                        == node@.cells[self.cell_idx as int]);
                    let k = node.cells[self.cell_idx].0.clone();
                    let v = node.cells[self.cell_idx].1.clone();
                    Some((k, v))
                } else {
                    None
                }
            },
            None => None,
        }
    }

    /// Goes to the next entry; says whether there is one. In place of one that
    /// was removed, that is the entry where the cursor is.
    #[verifier::rlimit(60)]
    pub fn moveto_next_entry(&mut self, btree: &mut BTree) -> (r: bool)
        requires
            old(btree).wf(),
        ensures
            advanced(old(btree), old(self), final(btree), final(self), r),
    {
        let ghost before = *btree;
        let ghost start = *self;
        let ghost root = self.root;
        let ghost s = before.store();
        let waits = self.before_entry;
        self.before_entry = false;
        let found = btree.getnode(self.node);
        let ghost mid = *btree;
        proof {
            if before.free_ok() {
                assert(mid.free() =~= before.free());
            }
            if before.is_tree(root) {
                mid.same_trees(&before, root);
                rows_by_leaves(&before, root);
                assert forall|j: int, pos: int| #[trigger] start.on(&before, j, pos) implies found
                    is Some && start.on(&mid, j, pos) by {
                    assert(s.dom().contains(leaves(&before, root)[j]));
                }
            }
        }
        let node = match found {
            Some(n) => n,
            None => return false,
        };
        let count: usize = node.cells.len();
        assert(node@.cells.len() == count);
        if waits {
            proof {
                assert forall|pos: int| #[trigger] start.at(&before, pos) && (pos < before.rows(
                    root,
                ).len() ==> start.on_entry(&before, pos)) implies (self.cell_idx < count) == (pos
                    < before.rows(root).len()) && self.at(btree, pos) && (self.cell_idx < count
                    ==> self.on_entry(btree, pos)) by {
                    let j = choose|j: int| start.on(&before, j, pos);
                    assert(self.on(btree, j, pos));
                    leaf_cells(s, leaves(&before, root), j);
                }
            }
            return self.cell_idx < count;
        }
        if count == 0 {
            return false;
        }
        if self.cell_idx < count - 1 {
            self.cell_idx = self.cell_idx + 1;
            proof {
                assert forall|pos: int| #[trigger] start.on_entry(&before, pos) implies pos + 1
                    < before.rows(root).len() && self.on_entry(btree, pos + 1) by {
                    let j = choose|j: int| start.on(&before, j, pos);
                    leaf_cells(s, leaves(&before, root), j);
                    assert(self.on(btree, j, pos + 1));
                }
            }
            return true;
        }
        if node.right != 0 {
            let next = btree.getnode(node.right);
            proof {
                same_transitive(&before, &mid, btree);
                if before.free_ok() {
                    assert(btree.free() =~= before.free());
                }
                if before.is_tree(root) {
                    btree.same_trees(&before, root);
                }
            }
            self.node = node.right;
            self.cell_idx = 0;
            proof {
                assert forall|pos: int| #[trigger] start.on_entry(&before, pos) implies next is Some
                    && s[node@.right].cells.len() > 0 && pos + 1 < before.rows(root).len()
                    && self.on_entry(btree, pos + 1) by {
                    let l = leaves(&before, root);
                    let j = choose|j: int| start.on(&before, j, pos);
                    leaf_cells(s, l, j);
                    leaf_links(&before, root, j);
                    assert(j + 1 < l.len());
                    assert(s.dom().contains(l[j + 1]));
                    leaf_not_empty(&before, root, j + 1);
                    leaf_cells(s, l, j + 1);
                    assert(self.on(btree, j + 1, pos + 1));
                }
            }
            return match next {
                Some(n) => {
                    assert(n@.cells.len() == n.cells@.len());
                    n.cells.len() > 0
                },
                None => false,
            };
        }
        self.cell_idx = count;
        proof {
            assert forall|pos: int| #[trigger] start.on_entry(&before, pos) implies pos + 1
                == before.rows(root).len() && self.at(btree, pos + 1) by {
                let l = leaves(&before, root);
                let j = choose|j: int| start.on(&before, j, pos);
                leaf_cells(s, l, j);
                leaf_links(&before, root, j);
                assert(j + 1 == l.len()) by {
                    if j + 1 < l.len() {
                        assert(s.dom().contains(l[j + 1]));
                    }
                }
                assert(l.skip(j + 1) =~= seq![]);
                assert(flat_cells(s, l.skip(j + 1)) =~= seq![]);
                assert(self.on(btree, j, pos + 1));
            }
        }
        false
    }
}

/// Where a key was taken out stands the entry after it.
pub proof fn bound_without(e: Seq<CellView>, k: DataView)
    requires
        sorted(e),
        has_key(e, k),
    ensures
        lower_bound(without_key(e, k), k) == lower_bound(e, k),
        sorted(without_key(e, k)),
        !has_key(without_key(e, k), k),
{
    broadcast use {
        crate::engine::order::key_lt_transitive,
        crate::engine::order::key_lt_irreflexive,
        crate::engine::order::key_lt_asymmetric,
    };

    key_at_bound(e, k);
    crate::engine::tree::lower_bound_parts(e, k);
    let n = lower_bound(e, k) as int;
    let f = without_key(e, k);
    crate::engine::tree::without_key_sorted(e, n);
    assert forall|i: int| 0 <= i < n implies crate::engine::order::key_lt((#[trigger] f[i]).0, k) by {
        assert(f[i] == e[i]);
    }
    assert forall|i: int| n <= i < f.len() implies !crate::engine::order::key_lt(
        (#[trigger] f[i]).0,
        k,
    ) && f[i].0 != k by {
        assert(f[i] == e[i + 1]);
        assert(crate::engine::order::key_lt(e[n].0, e[i + 1].0));
    }
    crate::engine::tree::lower_bound_is(f, k, n);
    key_at_bound(f, k);
}

/// What adding a row does.
pub open spec fn row_inserted(
    a: &BTree,
    c: &BTreeCursor,
    b: &BTree,
    d: &BTreeCursor,
    key: DataView,
    value: Seq<DataView>,
    r: bool,
) -> bool {
    &&& b.wf()
    &&& b.m == a.m
    &&& b.is_write == a.is_write
    &&& b.pager.same_transaction(&a.pager)
    &&& d.root == c.root
    &&& d.treeid == c.treeid
    &&& ({
        let root = c.root;
        let e = a.rows(root);
        let key = as_held(e, key);
        let cell = (key, value);
        let h = a.height(root);
        let m = a.m as nat;
        a.is_tree(root) ==> {
            &&& b.is_tree(root)
            &&& r == (a.is_write && !has_key(e, key) && a.can_grow(h + 2int) && room(
                a.store(),
                root,
                h,
                cell,
                m,
            ) is Some)
            &&& r ==> b.rows(root) == with_cell(e, cell)
            &&& r ==> root_filled(a, b, root, cell)
            &&& a.total() <= b.total() <= a.total() + if r {
                new_pages(a.store(), root, h, cell, m)
            } else {
                0
            }
            &&& b.total() <= a.total() + h + 2
            &&& b.spends(a)
            &&& r ==> d.on_entry(
                b,
                lower_bound(b.rows(root), key) as int,
            ) && !d.before_entry
            &&& !r ==> b.store() == a.store() && b.free()
                == a.free() && b.rows(root) == e
            &&& kept(
                a.store(),
                a.free(),
                b.store(),
                root,
                h,
                seq![],
                seq![],
            )
            &&& b.free().subset_of(a.free())
            &&& forall|x: u32| #[trigger]
                b.owns(root, x) <==> a.owns(root, x) || (
                a.free().contains(x) && !b.free().contains(x))
        }
    })
}

/// What removing a row does.
pub open spec fn row_removed(
    a: &BTree,
    c: &BTreeCursor,
    b: &BTree,
    d: &BTreeCursor,
    key: DataView,
    r: bool,
) -> bool {
    &&& b.wf()
    &&& b.m == a.m
    &&& b.is_write == a.is_write
    &&& b.total() == a.total()
    &&& b.pager.same_transaction(&a.pager)
    &&& d.root == c.root
    &&& d.treeid == c.treeid
    &&& ({
        let root = c.root;
        let e = a.rows(root);
        let key = as_held(e, key);
        let h = a.height(root);
        let m = a.m as nat;
        a.is_tree(root) ==> {
            &&& b.is_tree(root)
            &&& r == (a.is_write && has_key(e, key) && pruned(a.store(), root, h, key, m) is Some)
            &&& r ==> b.rows(root) == without_key(e, key)
            &&& r ==> root_pruned(a, b, root, key)
            &&& r ==> {
                let pos = lower_bound(e, key) as int;
                &&& d.before_entry
                &&& d.at(b, pos)
                &&& pos < b.rows(root).len() ==> d.on_entry(
                    b,
                    pos,
                )
            }
            &&& !r ==> b.store() == a.store() && b.free()
                == a.free() && b.rows(root) == e
            &&& kept(
                a.store(),
                a.free(),
                b.store(),
                root,
                h,
                seq![],
                seq![],
            )
            &&& forall|x: u32| #[trigger]
                b.owns(root, x) <==> a.owns(root, x) && !b.free().contains(x)
            &&& a.free().subset_of(b.free())
            &&& forall|x: u32|
                b.free().contains(x) && !a.free().contains(x)
                    ==> #[trigger] a.owns(root, x)
        }
    })
}

impl BTreeCursor {
    /// The record under a key.
    pub fn get_val(&mut self, btree: &mut BTree, key: &BTreeDataType) -> (r: Option<
        BTreeValueType,
    >)
        requires
            old(btree).wf(),
        ensures
            final(btree).wf(),
            final(btree).same(old(btree)),
            final(btree).store() == old(btree).store(),
            final(btree).total() == old(btree).total(),
            old(btree).free_ok() ==> final(btree).free_ok() && final(btree).free() == old(
                btree).free(),
            final(self).root == old(self).root,
            final(self).treeid == old(self).treeid,
            old(btree).is_tree(old(self).root) ==> {
                let e = old(btree).rows(old(self).root);
                let k = as_held(e, key@);
                &&& r is Some <==> has_key(e, k)
                &&& r matches Some(v) ==> e[lower_bound(e, k) as int] == (k, v@)
            },
    {
        let ghost before = *btree;
        let ghost root = self.root;
        if !self.moveto_key_entry(btree, key) {
            return None;
        }
        let ghost mid = *btree;
        let found = self.current_entry(btree);
        proof {
            same_transitive(&before, &mid, btree);
            if before.is_tree(root) {
                mid.same_trees(&before, root);
                let e = before.rows(root);
                assert(self.on_entry(&mid, lower_bound(e, as_held(e, key@)) as int));
            }
        }
        match found {
            Some((_, v)) => Some(v),
            None => None,
        }
    }

    /// Puts an entry into the tree and goes to it; says whether it was put in.
    /// Nothing is put in outside a write transaction, where a page that changes could not
    /// be restored, nor where a page would not hold its cells.
    pub fn insert(&mut self, btree: &mut BTree, key: &BTreeDataType, value: &BTreeValueType) -> (r:
        bool)
        requires
            old(btree).wf(),
        ensures
            row_inserted(old(btree), old(self), final(btree), final(self), key@, value@, r),
    {
        let ghost start = *btree;
        let ghost c = *self;
        let held = self.held(btree, key);
        let ghost before = *btree;
        let r = self.insert_held(btree, &held, value);
        proof {
            inserted_from(&start, &before, &c, btree, self, key@, held@, value@, r);
        }
        r
    }

    /// Puts in an entry whose key is as the tree would hold it.
    fn insert_held(&mut self, btree: &mut BTree, key: &BTreeDataType, value: &BTreeValueType) -> (r:
        bool)
        requires
            old(btree).wf(),
        ensures
            final(btree).wf(),
            final(btree).m == old(btree).m,
            final(btree).is_write == old(btree).is_write,
            final(btree).pager.same_transaction(&old(btree).pager),
            final(self).root == old(self).root,
            final(self).treeid == old(self).treeid,
            old(btree).is_tree(old(self).root) && as_held(
                old(btree).rows(old(self).root),
                key@,
            ) == key@ ==> row_inserted(
                old(btree),
                old(self),
                final(btree),
                final(self),
                key@,
                value@,
                r,
            ),
    {
        let ghost before = *btree;
        let ghost root = self.root;
        let r = btree.insert_entry(self.root, key, value);
        let ghost mid = *btree;
        proof {
            halved_bound(
                before.store(),
                root,
                before.height(root),
                (key@, value@),
                before.m as nat,
            );
        }
        if r {
            self.find_place(btree, key);
            proof {
                after_same(&before, &mid, btree);
                if before.is_tree(root) {
                    btree.same_trees(&mid, root);
                    assert forall|x: u32| #[trigger] btree.owns(root, x) == mid.owns(root, x) by {}
                    assert(btree.free() == mid.free());
                    let e = before.rows(root);
                    let c = (key@, value@);
                    rows_by_leaves(&before, root);
                    with_cell_sorted(e, c);
                    lower_bound_parts(e, key@);
                    assert(with_cell(e, c)[lower_bound(e, key@) as int].0 == key@);
                    key_at_bound(with_cell(e, c), key@);
                }
            }
        } else {
            proof {
                if before.is_tree(root) {
                    mid.same_trees(&before, root);
                }
            }
        }
        r
    }

    /// Takes the entry with a key out of the tree and goes to where it was; says
    /// whether it was taken out. The entry behind it is then the next one. Nothing is
    /// taken out outside a write transaction.
    pub fn remove(&mut self, btree: &mut BTree, key: &BTreeDataType) -> (r: bool)
        requires
            old(btree).wf(),
        ensures
            row_removed(old(btree), old(self), final(btree), final(self), key@, r),
    {
        let ghost start = *btree;
        let ghost c = *self;
        let held = self.held(btree, key);
        let ghost before = *btree;
        let r = self.remove_held(btree, &held);
        proof {
            removed_from(&start, &before, &c, btree, self, key@, held@, r);
        }
        r
    }

    /// Takes out the entry with a key that is as the tree would hold it.
    fn remove_held(&mut self, btree: &mut BTree, key: &BTreeDataType) -> (r: bool)
        requires
            old(btree).wf(),
        ensures
            final(btree).wf(),
            final(btree).m == old(btree).m,
            final(btree).is_write == old(btree).is_write,
            final(btree).total() == old(btree).total(),
            final(btree).pager.same_transaction(&old(btree).pager),
            final(self).root == old(self).root,
            final(self).treeid == old(self).treeid,
            old(btree).is_tree(old(self).root) && as_held(
                old(btree).rows(old(self).root),
                key@,
            ) == key@ ==> row_removed(
                old(btree),
                old(self),
                final(btree),
                final(self),
                key@,
                r,
            ),
    {
        let ghost before = *btree;
        let ghost root = self.root;
        let r = btree.remove_entry(self.root, key);
        let ghost mid = *btree;
        if r {
            self.find_place(btree, key);
            self.before_entry = true;
            proof {
                after_same(&before, &mid, btree);
                if before.is_tree(root) {
                    btree.same_trees(&mid, root);
                    rows_by_leaves(&before, root);
                    bound_without(before.rows(root), key@);
                    let pos = lower_bound(before.rows(root), key@) as int;
                    let j = choose|j: int|
                        (BTreeCursor { before_entry: false, ..*self }).on(btree, j, pos);
                    assert(self.on(btree, j, pos));
                    assert forall|x: u32| #[trigger] btree.owns(root, x) == mid.owns(root, x) by {}
                    assert(btree.free() == mid.free());
                }
            }
        } else {
            proof {
                if before.is_tree(root) {
                    mid.same_trees(&before, root);
                }
            }
        }
        r
    }

    /// The entry before the cursor, which goes to it.
    #[verifier::rlimit(40)]
    pub fn prev(&mut self, btree: &mut BTree) -> (r: Option<(BTreeDataType, BTreeValueType)>)
        requires
            old(btree).wf(),
        ensures
            final(btree).wf(),
            final(btree).same(old(btree)),
            final(btree).store() == old(btree).store(),
            final(btree).total() == old(btree).total(),
            old(btree).free_ok() ==> final(btree).free_ok() && final(btree).free() == old(
                btree).free(),
            final(self).root == old(self).root,
            final(self).treeid == old(self).treeid,
            old(btree).store().dom().contains(old(self).node) ==> {
                let c = old(btree).store()[old(self).node].cells;
                &&& c.len() == 0 ==> r is None && *final(self) == *old(self)
                &&& 0 < old(self).cell_idx <= c.len() ==> {
                    &&& r is Some
                    &&& cell_view(r->0) == c[old(self).cell_idx - 1]
                    &&& *final(self) == (BTreeCursor {
                        cell_idx: (old(self).cell_idx - 1) as usize,
                        ..*old(self)
                    })
                }
            },
            forall|pos: int| #[trigger]
                old(self).at(old(btree), pos) ==> {
                    let e = old(btree).rows(old(self).root);
                    &&& r is Some <==> pos > 0
                    &&& r matches Some(c) ==> 0 < pos <= e.len() && cell_view(c) == e[pos - 1]
                        && final(self).on_entry(final(btree), pos - 1)
                },
    {
        let ghost before = *btree;
        let ghost start = *self;
        let ghost root = self.root;
        let ghost s = before.store();
        let found = btree.getnode(self.node);
        let ghost mid = *btree;
        proof {
            if before.free_ok() {
                assert(mid.free() =~= before.free());
            }
            if before.is_tree(root) {
                mid.same_trees(&before, root);
                rows_by_leaves(&before, root);
                assert forall|pos: int| #[trigger] start.at(&before, pos) implies found is Some by {
                    let j = choose|j: int| start.on(&before, j, pos);
                    assert(s.dom().contains(leaves(&before, root)[j]));
                }
            }
        }
        let node = match found {
            Some(n) => n,
            None => return None,
        };
        assert(node@.cells.len() == node.cells@.len());
        let mut node = node;
        if node.cells.len() == 0 {
            proof {
                assert forall|pos: int| #[trigger] start.at(&before, pos) implies pos <= 0 by {
                    let j = choose|j: int| start.on(&before, j, pos);
                    let l = leaves(&before, root);
                    if l.len() > 1 {
                        leaf_not_empty(&before, root, j);
                    }
                    assert(l.take(0) =~= seq![]);
                    assert(flat_cells(s, l.take(0)) =~= seq![]);
                }
            }
            return None;
        }
        if self.cell_idx == 0 {
            let left: u32 = node.left;
            if left == 0 {
                proof {
                    assert forall|pos: int| #[trigger] start.at(&before, pos) implies pos == 0 by {
                        let j = choose|j: int| start.on(&before, j, pos);
                        let l = leaves(&before, root);
                        leaf_links(&before, root, j);
                        if j > 0 {
                            assert(s.dom().contains(l[j - 1]));
                        }
                        assert(l.take(0) =~= seq![]);
                        assert(flat_cells(s, l.take(0)) =~= seq![]);
                    }
                }
                return None;
            }
            let next = btree.getnode(left);
            proof {
                same_transitive(&before, &mid, btree);
                if before.free_ok() {
                    assert(btree.free() =~= before.free());
                }
                if before.is_tree(root) {
                    btree.same_trees(&before, root);
                }
                assert forall|pos: int| #[trigger] start.at(&before, pos) implies next is Some && s[
                    left
                ].cells.len() > 0 by {
                    let j = choose|j: int| start.on(&before, j, pos);
                    let l = leaves(&before, root);
                    leaf_links(&before, root, j);
                    assert(j > 0);
                    assert(s.dom().contains(l[j - 1]));
                    leaf_not_empty(&before, root, j - 1);
                }
            }
            let other = match next {
                Some(n) => n,
                None => return None,
            };
            assert(other@.cells.len() == other.cells@.len());
            if other.cells.len() == 0 {
                return None;
            }
            self.node = left;
            self.cell_idx = other.cells.len();
            node = other;
        }
        let ghost half = *self;
        proof {
            assert forall|pos: int| #[trigger] start.at(&before, pos) implies half.at(btree, pos) by {
                let j = choose|j: int| start.on(&before, j, pos);
                let l = leaves(&before, root);
                leaf_links(&before, root, j);
                if start.cell_idx == 0 {
                    assert(s.dom().contains(l[j - 1]));
                    leaf_cells(s, l, j - 1);
                    assert(half.on(btree, j - 1, pos));
                } else {
                    assert(half.on(btree, j, pos));
                }
            }
        }
        if self.cell_idx > node.cells.len() {
            return None;
        }
        self.cell_idx = self.cell_idx - 1;
        proof {
            assert forall|pos: int| #[trigger] start.at(&before, pos) implies 0 < pos
                <= before.rows(root).len() && node@.cells[self.cell_idx as int] == before.rows(
                root,
            )[pos - 1] && self.on_entry(btree, pos - 1) by {
                let j = choose|j: int| half.on(btree, j, pos);
                let l = leaves(&before, root);
                leaf_cells(s, l, j);
                assert(self.on(btree, j, pos - 1));
            }
        }
        assert(cell_view(node.cells@[self.cell_idx as int]) == node@.cells[self.cell_idx as int]);
        let k = node.cells[self.cell_idx].0.clone();
        let v = node.cells[self.cell_idx].1.clone();
        Some((k, v))
    }

    /// The entry at the cursor, which goes behind it.
    pub fn next(&mut self, btree: &mut BTree) -> (r: Option<(BTreeDataType, BTreeValueType)>)
        requires
            old(btree).wf(),
        ensures
            final(btree).wf(),
            final(btree).same(old(btree)),
            final(btree).store() == old(btree).store(),
            final(btree).total() == old(btree).total(),
            old(btree).free_ok() ==> final(btree).free_ok() && final(btree).free() == old(
                btree).free(),
            final(self).root == old(self).root,
            final(self).treeid == old(self).treeid,
            forall|pos: int| #[trigger]
                old(self).at(old(btree), pos) ==> {
                    let e = old(btree).rows(old(self).root);
                    &&& r is Some <==> pos < e.len()
                    &&& r matches Some(c) ==> 0 <= pos && cell_view(c) == e[pos] && final(self).at(
                        final(btree),
                        pos + 1,
                    )
                    &&& r is None ==> final(self).at(final(btree), pos)
                },
    {
        let ghost before = *btree;
        let ghost start = *self;
        let ghost root = self.root;
        let ghost s = before.store();
        let found = btree.getnode(self.node);
        let ghost mid = *btree;
        proof {
            if before.free_ok() {
                assert(mid.free() =~= before.free());
            }
            assert forall|pos: int| #[trigger] start.at(&before, pos) implies found is Some by {
                on_leaf(&before, start, pos);
            }
        }
        let node = match found {
            Some(n) => n,
            None => return None,
        };
        assert(node@.cells.len() == node.cells@.len());
        if self.cell_idx < node.cells.len() {
            assert(cell_view(node.cells@[self.cell_idx as int])
                == node@.cells[self.cell_idx as int]);
            let k = node.cells[self.cell_idx].0.clone();
            let v = node.cells[self.cell_idx].1.clone();
            self.cell_idx = self.cell_idx + 1;
            proof {
                assert forall|pos: int| #[trigger] start.at(&before, pos) implies 0 <= pos
                    < before.rows(root).len() && node@.cells[start.cell_idx as int] == before.rows(
                    root,
                )[pos] && self.at(btree, pos + 1) by {
                    behind_cell(&before, start, *self, pos);
                    at_same(&before, btree, *self, pos + 1);
                }
            }
            return Some((k, v));
        }
        let right: u32 = node.right;
        if right == 0 {
            proof {
                assert forall|pos: int| #[trigger] start.at(&before, pos) implies pos
                    == before.rows(root).len() && self.at(btree, pos) by {
                    behind_leaf(&before, start, pos);
                    at_same(&before, btree, *self, pos);
                }
            }
            return None;
        }
        let next = btree.getnode(right);
        proof {
            same_transitive(&before, &mid, btree);
            if before.free_ok() {
                assert(btree.free() =~= before.free());
            }
            assert forall|pos: int| #[trigger] start.at(&before, pos) implies next is Some && s[
                right
            ].cells.len() > 0 by {
                behind_leaf(&before, start, pos);
            }
        }
        let other = match next {
            Some(n) => n,
            None => return None,
        };
        assert(other@.cells.len() == other.cells@.len());
        if other.cells.len() == 0 {
            return None;
        }
        self.node = right;
        self.cell_idx = 1;
        assert(cell_view(other.cells@[0]) == other@.cells[0]);
        proof {
            assert forall|pos: int| #[trigger] start.at(&before, pos) implies 0 <= pos
                < before.rows(root).len() && other@.cells[0] == before.rows(root)[pos] && self.at(
                btree,
                pos + 1,
            ) by {
                behind_leaf(&before, start, pos);
                at_same(&before, btree, *self, pos + 1);
            }
        }
        let k = other.cells[0].0.clone();
        let v = other.cells[0].1.clone();
        Some((k, v))
    }

    /// The integer after the largest key below the cursor: 1 where there is none, and
    /// `None` where the largest key is no integer or the largest of all.
    pub fn next_integer_key(&mut self, btree: &mut BTree) -> (r: Option<u64>)
        requires
            old(btree).wf(),
        ensures
            final(btree).wf(),
            final(btree).same(old(btree)),
            final(btree).store() == old(btree).store(),
            final(btree).total() == old(btree).total(),
            old(btree).free_ok() ==> final(btree).free_ok() && final(btree).free() == old(
                btree).free(),
            final(self).root == old(self).root,
            final(self).treeid == old(self).treeid,
            in_order(old(btree), old(self).node) ==> {
                let s = old(btree).store();
                &&& r == next_key(rows_below(old(btree), old(self).node))
                &&& final(self).node == leaves_below(old(btree), old(self).node).last()
                &&& s[final(self).node].cells.len() > 0 ==> final(self).cell_idx
                    == s[final(self).node].cells.len() - 1
            },
    {
        let ghost before = *btree;
        let ghost start = *self;
        self.moveto_rightmost(btree);
        let ghost mid = *btree;
        let last = self.prev(btree);
        proof {
            same_transitive(&before, &mid, btree);
            if in_order(&before, start.node) {
                let k = node_height(&before, start.node);
                last_below(before.store(), start.node, k, before.m as nat);
            }
        }
        match last {
            Some((BTreeDataType::Integer(key), _)) => key.checked_add(1),
            Some(_) => None,
            None => Some(1),
        }
    }
}

// -- Nodes in order --------------------------------------------

/// Whether a page is a node of a tree in order.
pub open spec fn in_order(b: &BTree, x: u32) -> bool {
    exists|k: nat| k < b.total() && #[trigger] ok(b.store(), x, k, b.m as nat, true)
}

/// The height of a node of a tree in order.
pub open spec fn node_height(b: &BTree, x: u32) -> nat {
    choose|k: nat| k < b.total() && #[trigger] ok(b.store(), x, k, b.m as nat, true)
}

/// The leaves below a node, from left to right.
pub open spec fn leaves_below(b: &BTree, x: u32) -> Seq<u32> {
    level(b.store(), seq![x], node_height(b, x))
}

/// The entries below a node, in order.
pub open spec fn rows_below(b: &BTree, x: u32) -> Seq<CellView> {
    entries(b.store(), seq![x], node_height(b, x))
}

/// A node has one height.
proof fn node_height_is(b: &BTree, x: u32, k: nat)
    requires
        k < b.total(),
        ok(b.store(), x, k, b.m as nat, true),
    ensures
        in_order(b, x),
        node_height(b, x) == k,
{
    let j = node_height(b, x);
    assert(ok(b.store(), x, j, b.m as nat, true));
    height_unique(b.store(), x, j, k, b.m as nat, true);
}

/// What is below the root of a tree is the tree.
pub proof fn root_below(b: &BTree, root: u32)
    requires
        b.is_tree(root),
    ensures
        in_order(b, root),
        leaves_below(b, root) == leaves(b, root),
        rows_below(b, root) == b.rows(root),
        leaves(b, root).len() > 0,
{
    let h = b.height(root);
    assert(b.tree_at(root, h));
    height_bound(b.store(), root, h, b.m as nat, true, b.total() as nat);
    node_height_is(b, root, h);
    some_leaf(b.store(), root, h, b.m as nat, true);
}

/// What is below a leaf is the leaf.
pub proof fn leaf_below(b: &BTree, c: BTreeCursor, j: int, pos: int)
    requires
        b.is_tree(c.root),
        c.on(b, j, pos),
    ensures
        in_order(b, c.node),
        leaves_below(b, c.node) == seq![c.node],
        rows_below(b, c.node) == b.store()[c.node].cells,
{
    let h = b.height(c.root);
    let s = b.store();
    let m = b.m as nat;
    assert(b.tree_at(c.root, h));
    rows_by_leaves(b, c.root);
    assert(s.dom().contains(leaves(b, c.root)[j]));
    if h == 0 {
        single(s, c.root, 0);
    } else {
        single(s, c.root, h);
        let k = s[c.root].kids;
        assert(ok(s, k[0], (h - 1) as nat, m, false));
        leaves_ok(s, k, (h - 1) as nat, m, j);
    }
    assert(ok(s, c.node, 0, m, true));
    node_height_is(b, c.node, 0);
    single(s, c.node, 0);
}

proof fn leaves_ok(s: Store, l: Seq<u32>, h: nat, m: nat, j: int)
    requires
        forall|i: int| 0 <= i < l.len() ==> ok(s, #[trigger] l[i], h, m, false),
        0 <= j < level(s, l, h).len(),
    ensures
        ok(s, level(s, l, h)[j], 0, m, false),
    decreases h,
{
    reveal(level);
    if h > 0 {
        kids_ok(s, l, h, m);
        leaves_ok(s, crate::engine::tree::flat_kids(s, l), (h - 1) as nat, m, j);
    } else {
        assert(ok(s, l[j], h, m, false));
    }
}

/// There is a leaf below every node.
proof fn some_leaf(s: Store, p: u32, h: nat, m: nat, top: bool)
    requires
        ok(s, p, h, m, top),
    ensures
        level(s, seq![p], h).len() > 0,
    decreases h,
{
    single(s, p, h);
    if h > 0 {
        let g = (h - 1) as nat;
        assert(ok(s, s[p].kids[0], g, m, false));
        some_leaf(s, s[p].kids[0], g, m, false);
        around(s, s[p].kids, 0, g);
    }
}

/// The first leaf below a node is that below its first child, and the last one that below
/// its last child.
proof fn ends_below(s: Store, p: u32, h: nat, m: nat, top: bool)
    requires
        ok(s, p, h, m, top),
        h > 0,
    ensures
        ({
            let k = s[p].kids;
            let g = (h - 1) as nat;
            let w = level(s, seq![p], h);
            &&& w[0] == level(s, seq![k[0]], g)[0]
            &&& w.last() == level(s, seq![k[k.len() - 1]], g).last()
        }),
{
    let k = s[p].kids;
    let g = (h - 1) as nat;
    let z = k.len() - 1;
    single(s, p, h);
    assert(ok(s, k[0], g, m, false));
    assert(ok(s, k[z], g, m, false));
    some_leaf(s, k[0], g, m, false);
    some_leaf(s, k[z], g, m, false);
    crate::engine::tree::no_trees(s, g);
    around(s, k, 0, g);
    assert(k.take(0) =~= seq![]);
    around(s, k, z, g);
    assert(k.skip(z + 1) =~= seq![]);
}

/// The last entry below a node is the last one of its last leaf.
proof fn last_below(s: Store, p: u32, h: nat, m: nat)
    requires
        ok(s, p, h, m, true),
        m >= 1,
    ensures
        ({
            let e = entries(s, seq![p], h);
            let c = s[level(s, seq![p], h).last()].cells;
            &&& e.len() == 0 <==> c.len() == 0
            &&& e.len() > 0 ==> e.last() == c.last()
        }),
{
    let l = level(s, seq![p], h);
    some_leaf(s, p, h, m, true);
    let z = l.len() - 1;
    leaf_cells(s, l, z);
    assert(l.skip(z + 1) =~= seq![]);
    reveal_with_fuel(flat_cells, 1);
    assert(entries(s, seq![p], h) =~= flat_cells(s, l.take(z)) + s[l[z]].cells) by {
        reveal(entries);
    }
    if h == 0 {
        single(s, p, 0);
        assert(l.take(0) =~= seq![]);
    } else {
        single(s, p, h);
        assert(ok(s, s[p].kids[0], (h - 1) as nat, m, false));
        level_full(s, s[p].kids, (h - 1) as nat, m, z);
    }
}

/// Below the leaf with the last entry of a tree, the last entry is that of the tree.
pub proof fn end_below(b: &BTree, c: BTreeCursor)
    requires
        c.on_entry(b, b.rows(c.root).len() - 1),
    ensures
        in_order(b, c.node),
        next_key(rows_below(b, c.node)) == next_key(b.rows(c.root)),
{
    let n = b.rows(c.root).len() - 1;
    let j = choose|j: int| c.on(b, j, n);
    let s = b.store();
    let l = leaves(b, c.root);
    leaf_below(b, c, j, n);
    rows_by_leaves(b, c.root);
    leaf_cells(s, l, j);
    let cells = s[c.node].cells;
    assert(flat_cells(s, l.skip(j + 1)).len() == 0);
    assert(b.rows(c.root).last() == cells.last());
}

/// A cursor is at the same place of databases with the same trees.
proof fn at_same(a: &BTree, b: &BTree, c: BTreeCursor, pos: int)
    requires
        c.at(a, pos),
        b.store() == a.store(),
        b.free() == a.free(),
        b.m == a.m,
        b.free_ok(),
    ensures
        c.at(b, pos),
{
    b.same_trees(a, c.root);
    let j = choose|j: int| c.on(a, j, pos);
    assert(c.on(b, j, pos));
}

/// A cursor is at the same entry of databases with the same trees.
pub proof fn entry_same(a: &BTree, b: &BTree, c: BTreeCursor, pos: int)
    requires
        c.on_entry(a, pos),
        b.store() == a.store(),
        b.free() == a.free(),
        b.m == a.m,
        b.free_ok(),
    ensures
        c.on_entry(b, pos),
{
    at_same(a, b, c, pos);
}

/// A cursor in a tree is at a leaf.
proof fn on_leaf(b: &BTree, c: BTreeCursor, pos: int)
    requires
        c.at(b, pos),
    ensures
        b.store().dom().contains(c.node),
        b.store()[c.node].leaf,
{
    rows_by_leaves(b, c.root);
    let j = choose|j: int| c.on(b, j, pos);
    assert(b.store().dom().contains(leaves(b, c.root)[j]));
}

/// Behind the entry at a cursor.
proof fn behind_cell(b: &BTree, c: BTreeCursor, d: BTreeCursor, pos: int)
    requires
        c.at(b, pos),
        c.cell_idx < b.store()[c.node].cells.len(),
        d.root == c.root,
        d.node == c.node,
        d.cell_idx == c.cell_idx + 1,
    ensures
        0 <= pos < b.rows(c.root).len(),
        b.store()[c.node].cells[c.cell_idx as int] == b.rows(c.root)[pos],
        d.at(b, pos + 1),
{
    rows_by_leaves(b, c.root);
    let j = choose|j: int| c.on(b, j, pos);
    leaf_cells(b.store(), leaves(b, c.root), j);
    assert(d.on(b, j, pos + 1));
}

/// Behind the last entry of a leaf.
proof fn behind_leaf(b: &BTree, c: BTreeCursor, pos: int)
    requires
        c.at(b, pos),
        b.m >= 1,
        c.cell_idx >= b.store()[c.node].cells.len(),
    ensures
        ({
            let s = b.store();
            let y = s[c.node].right;
            let e = b.rows(c.root);
            &&& y == 0 ==> pos == e.len()
            &&& y != 0 ==> {
                &&& s.dom().contains(y)
                &&& s[y].cells.len() > 0
                &&& 0 <= pos < e.len()
                &&& s[y].cells[0] == e[pos]
                &&& forall|d: BTreeCursor|
                    d.root == c.root && d.node == y && d.cell_idx == 1 ==> #[trigger] d.at(
                        b,
                        pos + 1,
                    )
            }
        }),
{
    rows_by_leaves(b, c.root);
    let s = b.store();
    let l = leaves(b, c.root);
    let j = choose|j: int| c.on(b, j, pos);
    leaf_links(b, c.root, j);
    leaf_cells(s, l, j);
    if j + 1 < l.len() {
        assert(s.dom().contains(l[j + 1]));
        leaf_not_empty(b, c.root, j + 1);
        leaf_cells(s, l, j + 1);
        assert forall|d: BTreeCursor|
            d.root == c.root && d.node == l[j + 1] && d.cell_idx == 1 implies #[trigger] d.at(
            b,
            pos + 1,
        ) by {
            assert(d.on(b, j + 1, pos + 1));
        }
    } else {
        assert(l.skip(j + 1) =~= seq![]);
        assert(flat_cells(s, l.skip(j + 1)) =~= seq![]);
    }
}

/// The integer after the largest key.
pub open spec fn next_key(e: Seq<CellView>) -> Option<u64> {
    if e.len() == 0 {
        Some(1u64)
    } else {
        match e.last().0 {
            DataView::Integer(k) => if k < u64::MAX {
                Some((k + 1) as u64)
            } else {
                None
            },
            _ => None,
        }
    }
}

/// Adding a row to a database that was only read from another is adding it to that one.
proof fn inserted_from(
    a: &BTree,
    z: &BTree,
    c: &BTreeCursor,
    b: &BTree,
    d: &BTreeCursor,
    key: DataView,
    held: DataView,
    value: Seq<DataView>,
    r: bool,
)
    requires
        z.same(a),
        z.store() == a.store(),
        a.free_ok() ==> z.free_ok() && z.free() == a.free(),
        a.is_tree(c.root) ==> held == as_held(a.rows(c.root), key),
        b.wf(),
        b.m == z.m,
        b.is_write == z.is_write,
        b.pager.same_transaction(&z.pager),
        d.root == c.root,
        d.treeid == c.treeid,
        z.is_tree(c.root) && as_held(z.rows(c.root), held) == held ==> row_inserted(
            z,
            c,
            b,
            d,
            held,
            value,
            r,
        ),
    ensures
        row_inserted(a, c, b, d, key, value, r),
{
    if a.pager.in_write {
        assert forall|p: u32| p < b.pager.initial_pages implies #[trigger] b.pager.committed(p)
            == a.pager.committed(p) by {
            assert(z.pager.committed(p) == a.pager.committed(p));
        }
    }
    if a.is_tree(c.root) {
        assert(a.tree_at(c.root, a.height(c.root)));
        z.same_trees(a, c.root);
        assert forall|x: u32| #[trigger] z.owns(c.root, x) == a.owns(c.root, x) by {}
    }
}

/// Removing a row from a database that was only read from another is removing it from
/// that one.
proof fn removed_from(
    a: &BTree,
    z: &BTree,
    c: &BTreeCursor,
    b: &BTree,
    d: &BTreeCursor,
    key: DataView,
    held: DataView,
    r: bool,
)
    requires
        z.same(a),
        z.store() == a.store(),
        a.free_ok() ==> z.free_ok() && z.free() == a.free(),
        a.is_tree(c.root) ==> held == as_held(a.rows(c.root), key),
        b.wf(),
        b.m == z.m,
        b.is_write == z.is_write,
        b.total() == z.total(),
        b.pager.same_transaction(&z.pager),
        d.root == c.root,
        d.treeid == c.treeid,
        z.is_tree(c.root) && as_held(z.rows(c.root), held) == held ==> row_removed(
            z,
            c,
            b,
            d,
            held,
            r,
        ),
    ensures
        row_removed(a, c, b, d, key, r),
{
    if a.pager.in_write {
        assert forall|p: u32| p < b.pager.initial_pages implies #[trigger] b.pager.committed(p)
            == a.pager.committed(p) by {
            assert(z.pager.committed(p) == a.pager.committed(p));
        }
    }
    if a.is_tree(c.root) {
        assert(a.tree_at(c.root, a.height(c.root)));
        z.same_trees(a, c.root);
        assert forall|x: u32| #[trigger] z.owns(c.root, x) == a.owns(c.root, x) by {}
        assert forall|x: u32| b.free().contains(x) && !a.free().contains(x) implies #[trigger] a.owns(
            c.root,
            x,
        ) by {
            assert(z.owns(c.root, x));
        }
    }
}

/// A transaction goes on where pages are only read.
proof fn after_same(a: &BTree, b: &BTree, c: &BTree)
    requires
        b.pager.same_transaction(&a.pager),
        c.same(b),
    ensures
        c.pager.same_transaction(&a.pager),
{
    if c.pager.in_write {
        assert forall|p: u32| p < c.pager.initial_pages implies #[trigger] c.pager.committed(p)
            == a.pager.committed(p) by {
            assert(b.pager.committed(p) == a.pager.committed(p));
        }
    }
}

} // verus!
