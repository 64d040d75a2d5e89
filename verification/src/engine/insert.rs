//! Putting an entry into a tree.
use vstd::prelude::*;

use crate::engine::btree::BTree;
use crate::engine::node::{
    cell_view, cell_views, cells_fit, node_fits, page_holds, BTreeNode, CellView, NodeView,
};
use crate::engine::node_ops::views_insert;
use crate::engine::record::BTreeValueType;
use crate::engine::tree::{
    entries, has_key, lower_bound, lower_bound_middle, max_key, occ, occ_single, ok, same_content,
    single, full, with_cell, sorted, Store,
};
use crate::engine::tree_insert::{
    are_halves, filled,
    child_index, child_placed, halved, inserted, key_sides, leaf_done, leaf_neighbours, leaf_split,
    only_parent, placed, pre_of, raised, room, separators_sorted, suf_of, up_cells, up_done, up_split, up_wider, written_cells,
};
use crate::engine::value::{BTreeDataType, DataView};
use crate::engine::recovery::group_calls;

verus! {

broadcast use group_calls;

/// What putting an entry into a tree came to.
#[derive(Debug)]
pub enum InsertResult {
    /// The pages are no tree in order.
    Broken,
    /// The key is there already.
    Error,
    /// The tree was split: `right` holds what is larger than `upkey`.
    Needsplit { upkey: BTreeDataType, right: u32 },
    /// The entry is in.
    Done,
}

impl BTree {
    /// The pages that can be taken.
    pub open spec fn free(&self) -> Set<u32> {
        Set::new(|p: u32| self.is_free(p))
    }

    /// Gives page `pgno`, if it is a node of the wanted kind, another left
    /// neighbour.
    pub fn relink(&mut self, pgno: u32, left: u32, leaf: bool)
        requires
            old(self).wf(),
            old(self).is_write,
        ensures
            final(self).wf(),
            final(self).m == old(self).m,
            final(self).is_write,
            final(self).total() == old(self).total(),
            final(self).pager.same_transaction(&old(self).pager),
            ({
                let s = old(self).store();
                if pgno != 0 && s.dom().contains(pgno) && s[pgno].leaf == leaf && node_fits(
                    s[pgno],
                ) {
                    final(self).store() == s.insert(pgno, (NodeView { left, ..s[pgno] }))
                } else {
                    final(self).store() == s
                }
            }),
            old(self).free_ok() && (!leaf || !old(self).is_free(pgno)) ==> final(self).free_ok()
                && final(self).free() == old(self).free(),
            final(self).new_free_page@ == old(self).new_free_page@,
            final(self).freelist_first == old(self).freelist_first,
            final(self).freelist_len == old(self).freelist_len,
    {
        let ghost before = *self;
        if pgno == 0 {
            return;
        }
        if let Some(node) = self.getnode(pgno) {
            let ghost mid = *self;
            let mut node = node;
            if node.is_leaf == leaf {
                node.left = left;
                self.putnode(&node);
                proof {
                    if before.free_ok() && (!leaf || !before.is_free(pgno)) {
                        assert(!mid.chain_pages().contains(pgno)) by {
                            if mid.chain_pages().contains(pgno) {
                                let c = mid.chain_pages();
                                let i = choose|i: int| 0 <= i < c.len() && c[i] == pgno;
                                assert(mid.content(c[i])[0] != 0);
                                assert(mid.store()[pgno].leaf);
                                assert(mid.is_free(pgno));
                            }
                        }
                    }
                }
            }
        }
        proof {
            if before.free_ok() && (!leaf || !before.is_free(pgno)) {
                assert(self.free() =~= before.free());
            }
        }
    }

    /// Writes the two halves of a node: the left one to its page, the right one
    /// to a new page, which is returned.
    #[verifier::rlimit(40)]
    pub fn write_halves(&mut self, node: &mut BTreeNode, right: &mut BTreeNode) -> (r: Option<u32>)
        requires
            old(self).wf(),
            old(self).is_write,
            node_fits(old(node)@),
            node_fits(old(right)@),
            old(right)@.leaf == old(node)@.leaf,
        ensures
            final(self).wf(),
            final(self).m == old(self).m,
            final(self).is_write,
            final(self).pager.same_transaction(&old(self).pager),
            old(self).total() <= final(self).total() <= old(self).total() + 1,
            forall|n: int| n >= 1 && #[trigger] old(self).can_grow(n) ==> final(self).can_grow(
                n - 1,
            ),
            old(self).free_ok() && old(self).can_grow(1) && !old(self).is_free(old(node).pgno) && (
            old(node)@.leaf ==> !old(self).is_free(old(node)@.right)) ==> ({
                let s = old(self).store();
                let u = final(self).store();
                let p = old(node).pgno;
                &&& r is Some
                &&& final(self).free_ok()
                &&& final(self).spends(old(self))
                &&& old(self).free().contains(r->0)
                &&& final(self).free() == old(self).free().remove(r->0)
                &&& r->0 != p
                &&& r->0 != 0
                &&& u.dom().contains(p)
                &&& u.dom().contains(r->0)
                &&& u[p] == (NodeView { right: r->0, ..old(node)@ })
                &&& u[r->0] == (NodeView {
                    left: p,
                    right: old(node)@.right,
                    ..old(right)@
                })
                &&& forall|x: u32| #![trigger u.dom().contains(x)] #![trigger s.dom().contains(x)]
                    x != p && !old(self).free().contains(x) && s.dom().contains(x)
                        ==> u.dom().contains(x) && u[x] == (if x == old(node)@.right && x != 0
                        && s[x].leaf == old(node)@.leaf && node_fits(s[x]) {
                        NodeView { left: r->0, ..s[x] }
                    } else {
                        s[x]
                    })
            }),
    {
        let ghost before = *self;
        let ghost p = node.pgno;
        let ghost good = before.free_ok() && before.can_grow(1) && !before.is_free(p) && (
        node@.leaf ==> !before.is_free(node@.right));
        let q: u32 = match self.get_newpage() {
            Some(q) => q,
            None => return None,
        };
        let ghost one = *self;
        right.pgno = q;
        right.left = node.pgno;
        right.right = node.right;
        self.relink(node.right, q, node.is_leaf);
        let ghost two = *self;
        node.right = q;
        proof {
            if good {
                assert(one.free() =~= before.free().remove(q));
                assert(before.free().contains(q));
                assert(!one.is_free(q));
                if node.is_leaf {
                    assert(!one.is_free(old(node)@.right));
                }
                assert(two.free() == one.free());
                assert(two.is_free(q) == two.free().contains(q));
                assert(two.is_free(p) == two.free().contains(p));
                assert(one.is_free(p) == (before.is_free(p) && p != q));
                assert(!two.is_free(p));
                assert(!two.is_free(q));
            }
        }
        self.putnode(right);
        let ghost three = *self;
        proof {
            if good {
                assert(three.free() =~= two.free());
                assert(three.is_free(p) == three.free().contains(p));
            }
        }
        self.putnode(node);
        proof {
            if good {
                assert(self.free() =~= three.free());
                let s = before.store();
                let u = self.store();
                assert forall|x: u32| #![trigger u.dom().contains(x)] #![trigger s.dom().contains(x)]
                    x != p && !before.free().contains(x) && s.dom().contains(
                        x,
                    ) implies u.dom().contains(x) && u[x] == (if x == old(node)@.right && x != 0
                    && s[x].leaf == old(node)@.leaf && node_fits(s[x]) {
                    NodeView { left: q, ..s[x] }
                } else {
                    s[x]
                }) by {
                    assert(x != q);
                    assert(one.store().dom().contains(x) && one.store()[x] == s[x]);
                }
            }
        }
        Some(q)
    }

    /// What comes of putting an entry below page `pgno`: none where a page that is
    /// written does not hold its cells, or where the pages are no tree in order.
    pub fn find_room(
        &mut self,
        pgno: u32,
        key: &BTreeDataType,
        value: &BTreeValueType,
        fuel: u32,
        Ghost(h): Ghost<nat>,
        Ghost(top): Ghost<bool>,
    ) -> (r: Option<Option<BTreeDataType>>)
        requires
            old(self).wf(),
        ensures
            final(self).wf(),
            final(self).same(old(self)),
            final(self).store() == old(self).store(),
            final(self).total() == old(self).total(),
            old(self).free_ok() ==> final(self).free_ok() && final(self).free() == old(self).free(),
            ({
                let s = old(self).store();
                let m = old(self).m as nat;
                let v = room(s, pgno, h, (key@, value@), m);
                fuel > h && ok(s, pgno, h, m, top) && sorted(entries(s, seq![pgno], h)) ==> match r {
                    None => v is None,
                    Some(None) => v == Some(None::<DataView>),
                    Some(Some(k)) => v == Some(Some(k@)),
                }
            }),
        decreases fuel,
    {
        let ghost before = *self;
        let ghost s = self.store();
        let ghost m = self.m as nat;
        let ghost c = (key@, value@);
        let ghost good = fuel > h && ok(s, pgno, h, m, top) && sorted(entries(s, seq![pgno], h));
        proof {
            crate::engine::btree::same_facts(&before, self);
        }
        if fuel == 0 {
            return None;
        }
        let mut node = match self.getnode(pgno) {
            Some(n) => n,
            None => return None,
        };
        let ghost one = *self;
        let ghost n0 = node@;
        proof {
            if before.free_ok() {
                assert(self.free() =~= before.free());
            }
            if good {
                single(s, pgno, h);
                if h > 0 {
                    separators_sorted(s, pgno, h, m, top);
                }
            }
        }
        let (pos, _) = node.position(key);
        if node.is_leaf {
            let cell = (key.clone(), value.clone());
            proof {
                views_insert(node.cells@, pos as int, cell);
            }
            node.cells.insert(pos, cell);
            assert(node@.cells == n0.cells.insert(pos as int, c));
            return self.halve(&node);
        }
        let count: usize = node.children_pgno.len();
        if count == 0 {
            return None;
        }
        let i: usize = if pos < count {
            pos
        } else {
            count - 1
        };
        let ghost d = (h - 1) as nat;
        proof {
            if good {
                assert(i == child_index(n0, key@));
                assert(ok(s, n0.kids[i as int], d, m, false));
                child_sorted(s, pgno, h, i as int);
            }
        }
        let below = self.find_room(
            node.children_pgno[i],
            key,
            value,
            fuel - 1,
            Ghost(d),
            Ghost(false),
        );
        proof {
            crate::engine::btree::same_transitive(&before, &one, self);
        }
        let below = match below {
            None => return None,
            Some(b) => b,
        };
        if pos >= count {
            if i >= node.cells.len() {
                return None;
            }
            node.cells[i] = (key.clone(), BTreeValueType::null());
            assert(node@.cells =~= n0.cells.update(i as int, (key@, seq![])));
        }
        proof {
            if good {
                assert(node@.cells == raised(n0, key@));
            }
        }
        match below {
            None => {
                if cells_fit(&node.cells) {
                    Some(None)
                } else {
                    None
                }
            },
            Some(k) => {
                if i > node.cells.len() {
                    return None;
                }
                let cell = (k, BTreeValueType::null());
                let ghost was = node@.cells;
                proof {
                    views_insert(node.cells@, i as int, cell);
                }
                node.cells.insert(i, cell);
                assert(cell_view(cell) == (k@, Seq::<DataView>::empty()));
                assert(node@.cells == was.insert(i as int, (k@, seq![])));
                self.halve(&node)
            },
        }
    }

    /// What comes of writing the cells of a node.
    fn halve(&self, node: &BTreeNode) -> (r: Option<Option<BTreeDataType>>)
        requires
            self.wf(),
        ensures
            ({
                let v = written_cells(node@.cells, self.m as nat);
                match r {
                    None => v is None,
                    Some(None) => v == Some(None::<DataView>),
                    Some(Some(k)) => v == Some(Some(k@)),
                }
            }),
    {
        let n: usize = node.cells.len();
        if n < 2 * self.m {
            if cells_fit(&node.cells) {
                return Some(None);
            }
            return None;
        }
        let half: usize = n / 2;
        let ghost v = node@.cells;
        let mut left: Vec<(BTreeDataType, BTreeValueType)> = Vec::new();
        let mut right: Vec<(BTreeDataType, BTreeValueType)> = Vec::new();
        let mut i: usize = 0;
        while i < n
            invariant
                n == node.cells@.len(),
                v == node@.cells,
                half == n / 2,
                i <= n,
                left@.len() == (if i < half {
                    i
                } else {
                    half
                }),
                right@.len() == (if i < half {
                    0
                } else {
                    i - half
                }),
                forall|j: int| 0 <= j < left@.len() ==> cell_view(#[trigger] left@[j]) == v[j],
                forall|j: int|
                    0 <= j < right@.len() ==> cell_view(#[trigger] right@[j]) == v[half + j],
            decreases n - i,
        {
            let cell = (node.cells[i].0.clone(), node.cells[i].1.clone());
            assert(cell_view(cell) == cell_view(node.cells@[i as int]));
            if i < half {
                left.push(cell);
            } else {
                right.push(cell);
            }
            i = i + 1;
        }
        assert(cell_views(left@) =~= v.take(half as int));
        assert(cell_views(right@) =~= v.skip(half as int));
        if cells_fit(&left) && cells_fit(&right) {
            let k = node.cells[half - 1].0.clone();
            assert(cell_view(node.cells@[half - 1]) == v[half - 1]);
            Some(Some(k))
        } else {
            None
        }
    }

    /// Puts an entry into the tree of page `pgno`. `fuel` bounds its height.
    #[verifier::rlimit(100)]
    pub fn insert_into(
        &mut self,
        pgno: u32,
        key: &BTreeDataType,
        value: &BTreeValueType,
        fuel: u32,
        Ghost(h): Ghost<nat>,
        Ghost(top): Ghost<bool>,
        Ghost(pre): Ghost<Seq<u32>>,
        Ghost(suf): Ghost<Seq<u32>>,
    ) -> (r: InsertResult)
        requires
            old(self).wf(),
            old(self).is_write,
        ensures
            final(self).wf(),
            final(self).m == old(self).m,
            final(self).is_write,
            final(self).pager.same_transaction(&old(self).pager),
            ({
                let s = old(self).store();
                let f = old(self).free();
                let t = final(self).store();
                let g = final(self).free();
                let m = old(self).m as nat;
                let c = (key@, value@);
                old(self).free_ok() && old(self).can_grow(h + 1int) && fuel > h && room(
                    s,
                    pgno,
                    h,
                    c,
                    m,
                ) is Some && placed(s, f, pgno, h, m, top, pre, suf) ==> {
                    &&& final(self).free_ok()
                    &&& final(self).spends(old(self))
                    &&& old(self).total() <= final(self).total() <= old(self).total() + halved(
                        s,
                        pgno,
                        h,
                        c,
                        m,
                    )
                    &&& forall|n: int|
                        n >= 0 && old(self).can_grow(n + h + 1) ==> #[trigger] final(
                            self).can_grow(n)
                    &&& match r {
                        InsertResult::Broken => false,
                        InsertResult::Error => t == s && g == f && has_key(
                            entries(s, seq![pgno], h),
                            key@,
                        ) && final(self).total() == old(self).total(),
                        InsertResult::Done => room(s, pgno, h, c, m) == Some(None::<DataView>)
                            && inserted(
                            s,
                            f,
                            t,
                            g,
                            pgno,
                            h,
                            pre,
                            suf,
                            seq![pgno],
                            c,
                        ) && ok(t, pgno, h, m, top) && (full(s, pgno, h) ==> full(t, pgno, h)) && t[pgno].cells
                            == filled(s, pgno, h, c, m),
                        InsertResult::Needsplit { upkey, right } => room(s, pgno, h, c, m) == Some(
                            Some(upkey@),
                        ) && inserted(
                            s,
                            f,
                            t,
                            g,
                            pgno,
                            h,
                            pre,
                            suf,
                            seq![pgno, right],
                            c,
                        ) && ok(t, pgno, h, m, false) && ok(t, right, h, m, false) && upkey@
                            == max_key(t, pgno, h) && full(t, pgno, h) && (full(s, pgno, h)
                            ==> full(t, right, h)) && are_halves(
                            filled(s, pgno, h, c, m),
                            t[pgno].cells,
                            t[right].cells,
                        ),
                    }
                }
            }),
        decreases fuel, 1nat,
    {
        let ghost before = *self;
        let ghost s = self.store();
        let ghost f = self.free();
        let ghost m = self.m as nat;
        let ghost c = (key@, value@);
        let ghost good = before.free_ok() && before.can_grow(h + 1int) && fuel > h && room(
            s,
            pgno,
            h,
            c,
            m,
        ) is Some && placed(s, f, pgno, h, m, top, pre, suf);
        let limit: usize = 2 * self.m;
        if fuel == 0 {
            return InsertResult::Broken;
        }
        let node = match self.getnode(pgno) {
            Some(n) => n,
            None => return InsertResult::Broken,
        };
        let mut node = node;
        let ghost n0 = node@;
        let ghost one = *self;
        proof {
            if good {
                assert(one.free() =~= f);
                occ_single(s, pgno, h, pgno);
                assert(occ(s, seq![pgno], h, pgno) > 0);
                assert(!before.free().contains(pgno));
                assert(!one.is_free(pgno)) by {
                    assert(one.free().contains(pgno) == one.is_free(pgno));
                }
                assert forall|n: int| n >= 0 && before.can_grow(n + h + 1) implies #[trigger] one.can_grow(
                n) by {}
                single(s, pgno, h);
                if h > 0 {
                    separators_sorted(s, pgno, h, m, top);
                    key_sides(s, pgno, h, m, top, key@);
                }
            }
        }
        let (pos, found) = node.position(key);
        if node.is_leaf {
            if node.children_pgno.len() != 0 {
                return InsertResult::Broken;
            }
            if found {
                return InsertResult::Error;
            }
            let cell = (key.clone(), value.clone());
            proof {
                views_insert(node.cells@, pos as int, cell);
            }
            node.cells.insert(pos, cell);
            assert(node@.cells == n0.cells.insert(pos as int, c));
            if node.cells.len() < limit {
                if !node.fits() {
                    return InsertResult::Broken;
                }
                self.putnode(&node);
                proof {
                    if good {
                        assert(node@ == (NodeView { cells: with_cell(n0.cells, c), ..n0 }));
                        leaf_done(s, f, self.store(), pgno, m, top, pre, suf, c);
                        assert(filled(s, pgno, h, c, m) == node@.cells) by {
                            reveal(filled);
                        }
                        assert(self.free() =~= f);
                        assert forall|n: int|
                            n >= 0 && before.can_grow(n + h + 1) implies #[trigger] self.can_grow(
                        n) by {}
                    }
                }
                return InsertResult::Done;
            }
            let ghost e = node@.cells;
            let mut right = node.split();
            if !node.fits() || !right.fits() {
                return InsertResult::Broken;
            }
            proof {
                if good {
                    leaf_neighbours(s, f, pgno, m, top, pre, suf);
                    assert(one.free().contains(n0.right) == one.is_free(n0.right));
                    assert(before.can_grow(1int + h));
                    assert(one.can_grow(1));
                }
            }
            let upkey = if node.cells.len() > 0 {
                node.cells[node.cells.len() - 1].0.clone()
            } else {
                key.clone()
            };
            let ghost half = node@;
            assert(half.cells.len() > 0 ==> upkey@ == half.cells.last().0) by {
                if half.cells.len() > 0 {
                    assert(cell_view(node.cells@[node.cells@.len() - 1]) == half.cells.last());
                }
            }
            match self.write_halves(&mut node, &mut right) {
                None => InsertResult::Broken,
                Some(q) => {
                    proof {
                        if good {
                            let u = self.store();
                            assert(e == with_cell(n0.cells, c));
                            leaf_split(s, f, u, pgno, m, top, pre, suf, c, q);
                            assert(are_halves(
                                filled(s, pgno, h, c, m),
                                u[pgno].cells,
                                u[q].cells,
                            )) by {
                                reveal(filled);
                                reveal(are_halves);
                            }
                            assert forall|n: int|
                                n >= 0 && before.can_grow(n + h + 1) implies #[trigger] self.can_grow(
                            n) by {
                                assert(one.can_grow(n + 1));
                            }
                        }
                    }
                    InsertResult::Needsplit { upkey, right: q }
                },
            }
        } else {
            self.insert_inner(
                node,
                pos,
                key,
                value,
                fuel,
                Ghost(h),
                Ghost(top),
                Ghost(pre),
                Ghost(suf),
            )
        }
    }

    /// Writes the inner node `node`, whose child at place `i` was halved: its right
    /// half is page `q`, and its left half ends in `upkey`.
    #[verifier::rlimit(100)]
    #[verifier::spinoff_prover]
    fn insert_beside(
        &mut self,
        node: BTreeNode,
        pos: usize,
        i: usize,
        key: &BTreeDataType,
        upkey: BTreeDataType,
        q: u32,
        Ghost(s): Ghost<Store>,
        Ghost(f): Ghost<Set<u32>>,
        Ghost(h): Ghost<nat>,
        Ghost(top): Ghost<bool>,
        Ghost(pre): Ghost<Seq<u32>>,
        Ghost(suf): Ghost<Seq<u32>>,
        Ghost(c): Ghost<CellView>,
    ) -> (r: InsertResult)
        requires
            old(self).wf(),
            old(self).is_write,
            i < node@.kids.len(),
        ensures
            final(self).wf(),
            final(self).m == old(self).m,
            final(self).is_write,
            final(self).pager.same_transaction(&old(self).pager),
            old(self).total() <= final(self).total() <= old(self).total() + 1,
            r is Done ==> final(self).total() == old(self).total(),
            forall|n: int|
                n >= 0 && #[trigger] old(self).can_grow(n + 1) ==> final(self).can_grow(n),
            ({
                let t = final(self).store();
                let g = final(self).free();
                let m = old(self).m as nat;
                let p = node.pgno;
                child_halved(*old(self), s, f, p, h, top, pre, suf, c, i as int, upkey@, q) && old(
                    self).can_grow(1) && s[p] == node@ && c.0 == key@ && pos == lower_bound(
                    node@.cells,
                    key@,
                ) ==> {
                    &&& final(self).free_ok()
                    &&& final(self).spends(old(self))
                    &&& match r {
                        InsertResult::Broken => false,
                        InsertResult::Error => false,
                        InsertResult::Done => room(s, p, h, c, m) == Some(None::<DataView>)
                            && inserted(s, f, t, g, p, h, pre, suf, seq![p], c) && ok(
                            t,
                            p,
                            h,
                            m,
                            top,
                        ) && (full(s, p, h) ==> full(t, p, h)) && t[p].cells == filled(
                            s,
                            p,
                            h,
                            c,
                            m,
                        ),
                        InsertResult::Needsplit { upkey, right } => room(s, p, h, c, m) == Some(
                            Some(upkey@),
                        ) && inserted(
                            s,
                            f,
                            t,
                            g,
                            p,
                            h,
                            pre,
                            suf,
                            seq![p, right],
                            c,
                        ) && ok(t, p, h, m, false) && ok(t, right, h, m, false) && upkey@
                            == max_key(t, p, h) && full(t, p, h) && (full(s, p, h) ==> full(
                            t,
                            right,
                            h,
                        )) && are_halves(
                            filled(s, p, h, c, m),
                            t[p].cells,
                            t[right].cells,
                        ),
                    }
                }
            }),
    {
        let mut node = node;
        let ghost one = *self;
        let ghost t = self.store();
        let ghost g = self.free();
        let ghost m = self.m as nat;
        let ghost p = node.pgno;
        let ghost n0 = node@;
        let ghost d = (h - 1) as nat;
        let ghost child = n0.kids[i as int];
        let ghost good = child_halved(one, s, f, p, h, top, pre, suf, c, i as int, upkey@, q)
            && one.can_grow(1) && s[p] == node@ && c.0 == key@ && pos == lower_bound(
            node@.cells,
            key@,
        );
        let limit: usize = 2 * self.m;
        let count: usize = node.children_pgno.len();
        proof {
            if good {
                reveal(child_halved);
                key_sides(s, p, h, m, top, key@);
                assert(filled(s, p, h, c, m) == raised(n0, key@).insert(
                    i as int,
                    (upkey@, seq![]),
                )) by {
                    reveal(filled);
                }
            }
        }
        let ghost up0 = upkey@;
        if pos >= count {
            if i >= node.cells.len() {
                return InsertResult::Broken;
            }
            node.cells[i] = (key.clone(), BTreeValueType::null());
            assert(node@.cells =~= n0.cells.update(i as int, (key@, seq![])));
        }
        if i > node.cells.len() {
            return InsertResult::Broken;
        }
        let cell = (upkey, BTreeValueType::null());
        proof {
            views_insert(node.cells@, i as int, cell);
            if good {
                assert(node@.cells == raised(n0, key@));
                parent_stays(s, f, t, g, p, h, m, top, pre, suf, i as int, seq![child, q], c);
            }
        }
        node.cells.insert(i, cell);
        node.children_pgno.insert(i + 1, q);
        let ghost cells = node@.cells;
        let ghost kids = node@.kids;
        proof {
            assert(cell_view(cell) == (up0, Seq::<DataView>::empty()));
            if good {
                assert(cells == raised(n0, key@).insert(i as int, (up0, seq![])));
                assert(kids == n0.kids.insert(i + 1, q));
                let w = t.insert(p, node@);
                up_cells(s, f, t, g, w, p, h, m, top, pre, suf, c, q, cells, kids);
                assert(room(s, p, h, c, m) == written_cells(cells, m));
                assert(one.free().contains(p) == one.is_free(p));
            }
        }
        if node.cells.len() < limit {
            if !self.putnode(&node) {
                return InsertResult::Broken;
            }
            proof {
                if good {
                    assert(self.free() =~= g);
                    up_wider(s, f, t, g, self.store(), p, h, m, top, pre, suf, c, q);
                }
            }
            return InsertResult::Done;
        }
        if node.children_pgno.len() < node.cells.len() / 2 {
            return InsertResult::Broken;
        }
        let mut right = node.split();
        proof {
            if good {
                assert(node@.kids == kids.take((cells.len() / 2) as int));
                assert(right@.kids.last() == kids.last());
            }
        }
        if !node.fits() || !right.fits() || node.cells.len() == 0 {
            return InsertResult::Broken;
        }
        let upkey2 = node.cells[node.cells.len() - 1].0.clone();
        assert(upkey2@ == node@.cells.last().0) by {
            assert(cell_view(node.cells@[node.cells@.len() - 1]) == node@.cells.last());
        }
        match self.write_halves(&mut node, &mut right) {
            None => InsertResult::Broken,
            Some(y) => {
                proof {
                    if good {
                        let u = self.store();
                        assert(only_parent(t, g, u, p));
                        up_split(
                            s,
                            f,
                            t,
                            g,
                            u,
                            p,
                            h,
                            m,
                            top,
                            pre,
                            suf,
                            c,
                            q,
                            y,
                            cells,
                            kids,
                        );
                        assert(are_halves(cells, u[p].cells, u[y].cells)) by {
                            reveal(are_halves);
                        }
                    }
                }
                InsertResult::Needsplit { upkey: upkey2, right: y }
            },
        }
    }

    /// Puts an entry below the inner node `node`; its keys before `key` are
    /// `pos` many.
    #[verifier::rlimit(100)]
    #[verifier::spinoff_prover]
    pub fn insert_inner(
        &mut self,
        node: BTreeNode,
        pos: usize,
        key: &BTreeDataType,
        value: &BTreeValueType,
        fuel: u32,
        Ghost(h): Ghost<nat>,
        Ghost(top): Ghost<bool>,
        Ghost(pre): Ghost<Seq<u32>>,
        Ghost(suf): Ghost<Seq<u32>>,
    ) -> (r: InsertResult)
        requires
            old(self).wf(),
            old(self).is_write,
            fuel > 0,
            !node@.leaf,
        ensures
            final(self).wf(),
            final(self).m == old(self).m,
            final(self).is_write,
            final(self).pager.same_transaction(&old(self).pager),
            ({
                let s = old(self).store();
                let f = old(self).free();
                let t = final(self).store();
                let g = final(self).free();
                let m = old(self).m as nat;
                let c = (key@, value@);
                let p = node.pgno;
                old(self).free_ok() && old(self).can_grow(h + 1int) && fuel > h && room(
                    s,
                    p,
                    h,
                    c,
                    m,
                ) is Some && placed(s, f, p, h, m, top, pre, suf) && s[p] == node@ && pos
                    == lower_bound(node@.cells, key@) ==> {
                    &&& final(self).free_ok()
                    &&& final(self).spends(old(self))
                    &&& old(self).total() <= final(self).total() <= old(self).total() + halved(
                        s,
                        p,
                        h,
                        c,
                        m,
                    )
                    &&& forall|n: int|
                        n >= 0 && old(self).can_grow(n + h + 1) ==> #[trigger] final(
                            self).can_grow(n)
                    &&& match r {
                        InsertResult::Broken => false,
                        InsertResult::Error => t == s && g == f && has_key(
                            entries(s, seq![p], h),
                            key@,
                        ) && final(self).total() == old(self).total(),
                        InsertResult::Done => room(s, p, h, c, m) == Some(None::<DataView>)
                            && inserted(s, f, t, g, p, h, pre, suf, seq![p], c) && ok(
                            t,
                            p,
                            h,
                            m,
                            top,
                        ) && (full(s, p, h) ==> full(t, p, h)) && t[p].cells == filled(
                            s,
                            p,
                            h,
                            c,
                            m,
                        ),
                        InsertResult::Needsplit { upkey, right } => room(s, p, h, c, m) == Some(
                            Some(upkey@),
                        ) && inserted(
                            s,
                            f,
                            t,
                            g,
                            p,
                            h,
                            pre,
                            suf,
                            seq![p, right],
                            c,
                        ) && ok(t, p, h, m, false) && ok(t, right, h, m, false) && upkey@
                            == max_key(t, p, h) && full(t, p, h) && (full(s, p, h) ==> full(
                            t,
                            right,
                            h,
                        )) && are_halves(
                            filled(s, p, h, c, m),
                            t[p].cells,
                            t[right].cells,
                        ),
                    }
                }
            }),
        decreases fuel, 0nat,
    {
        let mut node = node;
        let ghost before = *self;
        let ghost s = self.store();
        let ghost f = self.free();
        let ghost m = self.m as nat;
        let ghost c = (key@, value@);
        let ghost p = node.pgno;
        let ghost n0 = node@;
        let ghost good = before.free_ok() && before.can_grow(h + 1int) && fuel > h && room(
            s,
            p,
            h,
            c,
            m,
        ) is Some && placed(s, f, p, h, m, top, pre, suf) && s[p] == node@ && pos
            == lower_bound(node@.cells, key@);
        let limit: usize = 2 * self.m;
        let count: usize = node.children_pgno.len();
        if count == 0 {
            return InsertResult::Broken;
        }
        let i: usize = if pos < count {
            pos
        } else {
            count - 1
        };
        let child: u32 = node.children_pgno[i];
        let ghost pre2 = pre_of(s, p, h, i as int, pre);
        let ghost suf2 = suf_of(s, p, h, i as int, suf);
        let ghost d = (h - 1) as nat;
        proof {
            if good {
                key_sides(s, p, h, m, top, key@);
                assert(i == child_index(n0, key@));
                child_placed(s, f, p, h, m, top, pre, suf, i as int);
            }
        }
        let r = self.insert_into(
            child,
            key,
            value,
            fuel - 1,
            Ghost(d),
            Ghost(false),
            Ghost(pre2),
            Ghost(suf2),
        );
        let ghost one = *self;
        let ghost t = self.store();
        let ghost g = self.free();
        proof {
            if good {
                below_key(s, f, p, h, m, top, pre, suf, key@);
                assert(match room(s, child, d, c, m) {
                    Some(Some(k)) => filled(s, p, h, c, m) == raised(n0, key@).insert(
                        i as int,
                        (k, seq![]),
                    ),
                    _ => filled(s, p, h, c, m) == raised(n0, key@),
                }) by {
                    reveal(filled);
                }
                assert forall|n: int| n >= 0 && before.can_grow(n + h + 1) implies #[trigger] one.can_grow(
                n + 1) by {
                    assert(before.can_grow((n + 1) + d + 1));
                }
                assert forall|n: int| n >= 0 && before.can_grow(n + h + 1) implies #[trigger] one.can_grow(
                n) by {
                    assert(one.can_grow(n + 1));
                }
            }
        }
        match r {
            InsertResult::Broken => InsertResult::Broken,
            InsertResult::Error => InsertResult::Error,
            InsertResult::Done => {
                if pos >= count {
                    if i >= node.cells.len() {
                        return InsertResult::Broken;
                    }
                    node.cells[i] = (key.clone(), BTreeValueType::null());
                    assert(node@.cells =~= n0.cells.update(i as int, (key@, seq![])));
                    proof {
                        if good {
                            parent_stays(s, f, t, g, p, h, m, top, pre, suf, i as int, seq![child], c);
                            assert(node@.cells == raised(n0, key@));
                            assert(page_holds(node@.cells));
                            assert(node_fits(node@));
                            assert(one.free().contains(p) == one.is_free(p));
                        }
                    }
                    self.putnode(&node);
                    proof {
                        if good {
                            assert(self.free() =~= g);
                            up_done(s, f, t, g, self.store(), p, h, m, top, pre, suf, c);
                        }
                    }
                } else {
                    proof {
                        if good {
                            parent_stays(s, f, t, g, p, h, m, top, pre, suf, i as int, seq![child], c);
                            up_done(s, f, t, g, t, p, h, m, top, pre, suf, c);
                        }
                    }
                }
                proof {
                    if good {
                        assert forall|n: int|
                            n >= 0 && before.can_grow(n + h + 1) implies #[trigger] self.can_grow(
                        n) by {
                            assert(one.can_grow(n));
                        }
                    }
                }
                InsertResult::Done
            },
            InsertResult::Needsplit { upkey, right: q } => {
                proof {
                    if good {
                        assert(child_halved(
                            one,
                            s,
                            f,
                            p,
                            h,
                            top,
                            pre,
                            suf,
                            c,
                            i as int,
                            upkey@,
                            q,
                        )) by {
                            reveal(child_halved);
                        }
                        assert(before.can_grow(1int + d + 1));
                        assert(one.can_grow(1));
                    }
                }
                let r = self.insert_beside(
                    node,
                    pos,
                    i,
                    key,
                    upkey,
                    q,
                    Ghost(s),
                    Ghost(f),
                    Ghost(h),
                    Ghost(top),
                    Ghost(pre),
                    Ghost(suf),
                    Ghost(c),
                );
                proof {
                    if good {
                        assert forall|n: int|
                            n >= 0 && before.can_grow(n + h + 1) implies #[trigger] self.can_grow(
                        n) by {
                            assert(one.can_grow(n + 1));
                        }
                    }
                }
                r
            },
        }
    }
}

/// What is known of a node when its child at place `i` was halved to take an entry.
#[verifier::opaque]
pub open spec fn child_halved(
    b: BTree,
    s: Store,
    f: Set<u32>,
    p: u32,
    h: nat,
    top: bool,
    pre: Seq<u32>,
    suf: Seq<u32>,
    c: CellView,
    i: int,
    upkey: DataView,
    q: u32,
) -> bool {
    let m = b.m as nat;
    let t = b.store();
    let g = b.free();
    let d = (h - 1) as nat;
    let child = s[p].kids[i];
    &&& b.free_ok()
    &&& h > 0
    &&& placed(s, f, p, h, m, top, pre, suf)
    &&& room(s, p, h, c, m) is Some
    &&& i == child_index(s[p], c.0)
    &&& room(s, child, d, c, m) == Some(Some(upkey))
    &&& inserted(
        s,
        f,
        t,
        g,
        child,
        d,
        pre_of(s, p, h, i, pre),
        suf_of(s, p, h, i, suf),
        seq![child, q],
        c,
    )
    &&& ok(t, child, d, m, false)
    &&& ok(t, q, d, m, false)
    &&& upkey == max_key(t, child, d)
    &&& full(t, child, d)
    &&& full(s, child, d) ==> full(t, q, d)
}

/// The entries below a child rise where all do.
pub proof fn child_sorted(s: Store, p: u32, h: nat, i: int)
    requires
        h > 0,
        0 <= i < s[p].kids.len(),
        sorted(entries(s, seq![p], h)),
    ensures
        sorted(entries(s, seq![s[p].kids[i]], (h - 1) as nat)),
{
    let k = s[p].kids;
    let d = (h - 1) as nat;
    single(s, p, h);
    crate::engine::tree::around(s, k, i, d);
    let a = entries(s, k.take(i), d);
    let b = entries(s, seq![k[i]], d);
    let e = entries(s, seq![p], h);
    assert forall|x: int, y: int| 0 <= x < y < b.len() implies crate::engine::order::key_lt(
        (#[trigger] b[x]).0,
        (#[trigger] b[y]).0,
    ) by {
        assert(e[a.len() + x] == b[x] && e[a.len() + y] == b[y]);
    }
}

/// The key is below a node exactly where it is below the child it belongs to.
pub proof fn below_key(
    s: Store,
    f: Set<u32>,
    p: u32,
    h: nat,
    m: nat,
    top: bool,
    pre: Seq<u32>,
    suf: Seq<u32>,
    key: DataView,
)
    requires
        placed(s, f, p, h, m, top, pre, suf),
        h > 0,
        m >= 1,
    ensures
        has_key(entries(s, seq![p], h), key) == has_key(
            entries(s, seq![s[p].kids[child_index(s[p], key)]], (h - 1) as nat),
            key,
        ),
{
    key_sides(s, p, h, m, top, key);
    let k = s[p].kids;
    let i = child_index(s[p], key);
    let d = (h - 1) as nat;
    lower_bound_middle(
        entries(s, k.take(i), d),
        entries(s, seq![k[i]], d),
        entries(s, k.skip(i + 1), d),
        key,
    );
}

/// The page of an inner node stays what it is while a child changes.
proof fn parent_stays(
    s: Store,
    f: Set<u32>,
    t: Store,
    g: Set<u32>,
    p: u32,
    h: nat,
    m: nat,
    top: bool,
    pre: Seq<u32>,
    suf: Seq<u32>,
    i: int,
    out: Seq<u32>,
    c: CellView,
)
    requires
        placed(s, f, p, h, m, top, pre, suf),
        h > 0,
        0 <= i < s[p].kids.len(),
        inserted(
            s,
            f,
            t,
            g,
            s[p].kids[i],
            (h - 1) as nat,
            pre_of(s, p, h, i, pre),
            suf_of(s, p, h, i, suf),
            out,
            c,
        ),
    ensures
        t.dom().contains(p),
        same_content(s[p], t[p]),
        !f.contains(p),
        !g.contains(p),
{
    child_placed(s, f, p, h, m, top, pre, suf, i);
    occ_single(s, p, h, p);
    assert(occ(s, seq![p], h, p) > 0);
    assert(s.dom().contains(p));
}

} // verus!
