//! What is done to a node alone: searching, splitting, and moving cells
//! between neighbours.
use vstd::prelude::*;

use crate::engine::node::{cell_view, cell_views, BTreeNode, NodeView};
use crate::engine::order::{
    key_lt, key_lt_asymmetric, key_lt_irreflexive, key_lt_transitive, Rank,
};
use crate::engine::record::BTreeValueType;
use crate::engine::tree::{
    has_key, key_at_bound, lower_bound, lower_bound_is, sorted, without_key,
};
use crate::engine::value::{rank_keys, BTreeDataType};

verus! {

/// Where a key is, or would be, among the cells of a node.
#[derive(Debug)]
pub enum SearchResult {
    Equal(usize),
    Lessthan(usize),
    Right,
}

/// The views of cells after one was put in.
pub proof fn views_insert(
    v: Seq<(BTreeDataType, BTreeValueType)>,
    i: int,
    c: (BTreeDataType, BTreeValueType),
)
    requires
        0 <= i <= v.len(),
    ensures
        cell_views(v.insert(i, c)) == cell_views(v).insert(i, cell_view(c)),
{
    assert(cell_views(v.insert(i, c)) =~= cell_views(v).insert(i, cell_view(c)));
}

/// The views of cells after one was taken out.
pub proof fn views_remove(v: Seq<(BTreeDataType, BTreeValueType)>, i: int)
    requires
        0 <= i < v.len(),
    ensures
        cell_views(v.remove(i)) == cell_views(v).remove(i),
{
    assert(cell_views(v.remove(i)) =~= cell_views(v).remove(i));
}

/// The views of a part of cells.
pub proof fn views_subrange(v: Seq<(BTreeDataType, BTreeValueType)>, i: int, j: int)
    requires
        0 <= i <= j <= v.len(),
    ensures
        cell_views(v.subrange(i, j)) == cell_views(v).subrange(i, j),
{
    assert(cell_views(v.subrange(i, j)) =~= cell_views(v).subrange(i, j));
}

/// The views of cells and of more cells behind them.
pub proof fn views_concat(
    v: Seq<(BTreeDataType, BTreeValueType)>,
    w: Seq<(BTreeDataType, BTreeValueType)>,
)
    ensures
        cell_views(v + w) == cell_views(v) + cell_views(w),
{
    assert(cell_views(v + w) =~= cell_views(v) + cell_views(w));
}

impl BTreeNode {
    /// Searches the cells for a key by halving.
    pub fn binary_search_cell(&self, key: &BTreeDataType) -> (r: SearchResult)
        ensures
            match r {
                SearchResult::Equal(i) => i < self@.cells.len() && self@.cells[i as int].0 == key@,
                SearchResult::Lessthan(i) => i < self@.cells.len() || (i == 0 && self@.cells.len()
                    == 0),
                SearchResult::Right => self@.cells.len() > 0,
            },
            sorted(self@.cells) ==> match r {
                SearchResult::Equal(i) => lower_bound(self@.cells, key@) == i && has_key(
                    self@.cells,
                    key@,
                ),
                SearchResult::Lessthan(i) => lower_bound(self@.cells, key@) == i && !has_key(
                    self@.cells,
                    key@,
                ),
                SearchResult::Right => lower_bound(self@.cells, key@) == self@.cells.len()
                    && !has_key(self@.cells, key@),
            },
    {
        let ghost v = self@.cells;
        let mut lower: usize = 0;
        let mut upper: usize = self.cells.len();
        while lower < upper
            invariant
                v == self@.cells,
                0 <= lower <= upper <= v.len(),
                self.cells@.len() == v.len(),
                sorted(v) ==> forall|i: int| 0 <= i < lower ==> key_lt((#[trigger] v[i]).0, key@),
                sorted(v) ==> forall|i: int|
                    upper <= i < v.len() ==> key_lt(key@, (#[trigger] v[i]).0),
            decreases upper - lower,
        {
            let mid: usize = lower + (upper - lower) / 2;
            broadcast use {key_lt_transitive, key_lt_irreflexive, key_lt_asymmetric};

            assert(cell_view(self.cells@[mid as int]) == v[mid as int]);
            match rank_keys(&self.cells[mid].0, key) {
                Rank::Equal => {
                    proof {
                        if sorted(v) {
                            assert forall|i: int| 0 <= i < mid implies key_lt(
                                (#[trigger] v[i]).0,
                                key@,
                            ) by {
                                assert(key_lt(v[i].0, v[mid as int].0));
                            }
                            assert forall|i: int| mid <= i < v.len() implies !key_lt(
                                (#[trigger] v[i]).0,
                                key@,
                            ) by {
                                if mid < i {
                                    assert(key_lt(v[mid as int].0, v[i].0));
                                }
                            }
                            lower_bound_is(v, key@, mid as int);
                        }
                    }
                    return SearchResult::Equal(mid);
                },
                Rank::Less => {
                    proof {
                        if sorted(v) {
                            assert forall|i: int| 0 <= i < mid + 1 implies key_lt(
                                (#[trigger] v[i]).0,
                                key@,
                            ) by {
                                if i < mid {
                                    assert(key_lt(v[i].0, v[mid as int].0));
                                }
                            }
                        }
                    }
                    lower = mid + 1;
                },
                Rank::Greater => {
                    proof {
                        if sorted(v) {
                            assert forall|i: int| mid <= i < v.len() implies key_lt(
                                key@,
                                (#[trigger] v[i]).0,
                            ) by {
                                if mid < i {
                                    assert(key_lt(v[mid as int].0, v[i].0));
                                }
                            }
                        }
                    }
                    upper = mid;
                },
            }
        }
        proof {
            broadcast use {key_lt_irreflexive, key_lt_asymmetric};

            if sorted(v) {
                lower_bound_is(v, key@, lower as int);
                key_at_bound(v, key@);
            }
        }
        if lower < self.cells.len() || self.cells.len() == 0 {
            SearchResult::Lessthan(lower)
        } else {
            SearchResult::Right
        }
    }

    /// The record under a key, where keys rise.
    pub fn get_key(&self, key: &BTreeDataType) -> (r: Option<BTreeValueType>)
        ensures
            r matches Some(v) ==> exists|i: int|
                0 <= i < self@.cells.len() && #[trigger] self@.cells[i] == (key@, v@),
            sorted(self@.cells) ==> (r is Some <==> has_key(self@.cells, key@)),
    {
        match self.binary_search_cell(key) {
            SearchResult::Equal(i) => {
                assert(cell_view(self.cells@[i as int]) == self@.cells[i as int]);
                Some(self.cells[i].1.clone())
            },
            _ => None,
        }
    }

    /// Whether a key is among the cells, where keys rise.
    pub fn contains_key(&self, key: &BTreeDataType) -> (r: bool)
        ensures
            r ==> has_key(self@.cells, key@),
            sorted(self@.cells) ==> r == has_key(self@.cells, key@),
    {
        match self.binary_search_cell(key) {
            SearchResult::Equal(i) => {
                assert(self@.cells[i as int].0 == key@);
                true
            },
            _ => false,
        }
    }

    /// The smallest key.
    pub fn get_minimum_key(&self) -> (r: BTreeDataType)
        requires
            self@.cells.len() > 0,
        ensures
            r@ == self@.cells[0].0,
    {
        assert(cell_view(self.cells@[0]) == self@.cells[0]);
        self.cells[0].0.clone()
    }

    /// The leftmost child.
    pub fn get_leftmost_child(&self) -> (r: u32)
        requires
            self@.kids.len() > 0,
        ensures
            r == self@.kids[0],
    {
        self.children_pgno[0]
    }

    /// The rightmost child.
    pub fn get_rightmost_child(&self) -> (r: u32)
        requires
            self@.kids.len() > 0,
        ensures
            r == self@.kids.last(),
    {
        self.children_pgno[self.children_pgno.len() - 1]
    }

    /// The child to the left of cell `idx`.
    pub fn get_leftchild(&self, idx: usize) -> (r: u32)
        requires
            idx < self@.kids.len(),
        ensures
            r == self@.kids[idx as int],
    {
        self.children_pgno[idx]
    }

    /// The child to the right of cell `idx`.
    pub fn get_rightchild(&self, idx: usize) -> (r: u32)
        requires
            idx + 1 < self@.kids.len(),
        ensures
            r == self@.kids[idx + 1],
    {
        assert(idx + 1 < self.children_pgno.len());
        self.children_pgno[idx + 1]
    }

    /// Number of cells before a key, and whether the key is among them, where
    /// keys rise.
    pub fn position(&self, key: &BTreeDataType) -> (r: (usize, bool))
        ensures
            r.0 <= self@.cells.len(),
            r.1 ==> r.0 < self@.cells.len(),
            r.1 ==> self@.cells[r.0 as int].0 == key@,
            sorted(self@.cells) ==> r.0 == lower_bound(self@.cells, key@) && r.1 == has_key(
                self@.cells,
                key@,
            ),
    {
        match self.binary_search_cell(key) {
            SearchResult::Equal(i) => (i, true),
            SearchResult::Lessthan(i) => (i, false),
            SearchResult::Right => (self.cells.len(), false),
        }
    }

    /// Moves the upper half of the cells, and of the children, to a new node, which
    /// has no page and no neighbours yet.
    pub fn split(&mut self) -> (r: BTreeNode)
        requires
            old(self)@.kids.len() == 0 || old(self)@.kids.len() >= old(self)@.cells.len() / 2,
        ensures
            final(self).pgno == old(self).pgno,
            final(self)@ == (NodeView {
                cells: old(self)@.cells.take((old(self)@.cells.len() / 2) as int),
                kids: if old(self)@.kids.len() == 0 {
                    seq![]
                } else {
                    old(self)@.kids.take((old(self)@.cells.len() / 2) as int)
                },
                ..old(self)@
            }),
            r.pgno == 0,
            r@.left == 0,
            r@.right == 0,
            r@.leaf == old(self)@.leaf,
            r@.data == old(self)@.data,
            r@.cells == old(self)@.cells.skip((old(self)@.cells.len() / 2) as int),
            r@.kids == (if old(self)@.kids.len() == 0 {
                seq![]
            } else {
                old(self)@.kids.skip((old(self)@.cells.len() / 2) as int)
            }),
    {
        let ghost v = self.cells@;
        let ghost k = self.children_pgno@;
        let at: usize = self.cells.len() / 2;
        let cells = self.cells.split_off(at);
        let children_pgno = if self.children_pgno.len() == 0 {
            Vec::new()
        } else {
            self.children_pgno.split_off(at)
        };
        proof {
            views_subrange(v, 0, at as int);
            views_subrange(v, at as int, v.len() as int);
            assert(self.cells@ =~= v.subrange(0, at as int));
            assert(cells@ =~= v.subrange(at as int, v.len() as int));
            assert(cell_views(v).take(at as int) =~= cell_views(v).subrange(0, at as int));
            assert(cell_views(v).skip(at as int) =~= cell_views(v).subrange(
                at as int,
                v.len() as int,
            ));
            if k.len() == 0 {
                assert(self.children_pgno@ =~= seq![]);
                assert(children_pgno@ =~= seq![]);
            } else {
                assert(self.children_pgno@ =~= k.take(at as int));
                assert(children_pgno@ =~= k.skip(at as int));
            }
        }
        BTreeNode {
            pgno: 0,
            is_leaf: self.is_leaf,
            is_data_table: self.is_data_table,
            left: 0,
            right: 0,
            children_pgno,
            cells,
        }
    }

    /// Whether the node has fewer cells than it should.
    pub fn need_balance(&self, m: usize) -> (r: bool)
        ensures
            r == (self@.cells.len() < m),
    {
        self.cells.len() < m
    }

    /// Takes the cell with a key out of a leaf, where keys rise.
    pub fn remove_leaf(&mut self, key: &BTreeDataType) -> (r: bool)
        ensures
            final(self).pgno == old(self).pgno,
            !r ==> final(self)@ == old(self)@,
            sorted(old(self)@.cells) ==> r == has_key(old(self)@.cells, key@),
            r && sorted(old(self)@.cells) ==> final(self)@ == (NodeView {
                cells: without_key(old(self)@.cells, key@),
                ..old(self)@
            }),
    {
        let (pos, found) = self.position(key);
        if !found {
            return false;
        }
        proof {
            views_remove(self.cells@, pos as int);
        }
        self.cells.remove(pos);
        true
    }

    /// Moves the last cell of the left neighbour, and its child, to the front.
    pub fn borrow_left(&mut self, left: &mut BTreeNode)
        requires
            old(left)@.cells.len() > 0,
            old(self)@.leaf || old(left)@.kids.len() == old(left)@.cells.len(),
        ensures
            ({
                let cells = old(left)@.cells + old(self)@.cells;
                let kids = old(left)@.kids + old(self)@.kids;
                let n = old(left)@.cells.len() - 1;
                &&& final(self).pgno == old(self).pgno
                &&& final(left).pgno == old(left).pgno
                &&& final(left)@ == (NodeView {
                    cells: cells.take(n),
                    kids: if old(self)@.leaf {
                        old(left)@.kids
                    } else {
                        kids.take(n)
                    },
                    ..old(left)@
                })
                &&& final(self)@ == (NodeView {
                    cells: cells.skip(n),
                    kids: if old(self)@.leaf {
                        old(self)@.kids
                    } else {
                        kids.skip(n)
                    },
                    ..old(self)@
                })
            }),
    {
        let ghost lv = left.cells@;
        let ghost sv = self.cells@;
        let ghost n = (lv.len() - 1) as int;
        if let Some(cell) = left.cells.pop() {
            self.cells.insert(0, cell);
        }
        if !self.is_leaf {
            if let Some(child) = left.children_pgno.pop() {
                self.children_pgno.insert(0, child);
            }
        }
        proof {
            let cells = old(left)@.cells + old(self)@.cells;
            let kids = old(left)@.kids + old(self)@.kids;
            assert(left@.cells =~= cells.take(n));
            assert(self@.cells =~= cells.skip(n));
            if !self@.leaf {
                assert(left@.kids =~= kids.take(n));
                assert(self@.kids =~= kids.skip(n));
            }
        }
    }

    /// Moves the first cell of the right neighbour, and its child, to the end.
    pub fn borrow_right(&mut self, right: &mut BTreeNode)
        requires
            old(right)@.cells.len() > 0,
            old(self)@.leaf || old(right)@.kids.len() > 0,
            old(self)@.leaf || old(self)@.kids.len() == old(self)@.cells.len(),
        ensures
            ({
                let cells = old(self)@.cells + old(right)@.cells;
                let kids = old(self)@.kids + old(right)@.kids;
                let n = old(self)@.cells.len() + 1int;
                &&& final(self).pgno == old(self).pgno
                &&& final(right).pgno == old(right).pgno
                &&& final(self)@ == (NodeView {
                    cells: cells.take(n),
                    kids: if old(self)@.leaf {
                        old(self)@.kids
                    } else {
                        kids.take(n)
                    },
                    ..old(self)@
                })
                &&& final(right)@ == (NodeView {
                    cells: cells.skip(n),
                    kids: if old(self)@.leaf {
                        old(right)@.kids
                    } else {
                        kids.skip(n)
                    },
                    ..old(right)@
                })
            }),
    {
        let ghost n = self.cells@.len() + 1int;
        let cell = right.cells.remove(0);
        self.cells.push(cell);
        if !self.is_leaf {
            let child: u32 = right.children_pgno.remove(0);
            self.children_pgno.push(child);
        }
        proof {
            let cells = old(self)@.cells + old(right)@.cells;
            let kids = old(self)@.kids + old(right)@.kids;
            assert(self@.cells =~= cells.take(n));
            assert(right@.cells =~= cells.skip(n));
            if !self@.leaf {
                assert(self@.kids =~= kids.take(n));
                assert(right@.kids =~= kids.skip(n));
            }
        }
    }

    /// Takes over all cells and children of the right neighbour, and the place
    /// of that neighbour.
    pub fn merge(&mut self, right: &mut BTreeNode)
        ensures
            final(self).pgno == old(self).pgno,
            final(right).pgno == old(right).pgno,
            final(self)@ == (NodeView {
                cells: old(self)@.cells + old(right)@.cells,
                kids: old(self)@.kids + old(right)@.kids,
                right: old(right)@.right,
                ..old(self)@
            }),
            final(right)@ == (NodeView { cells: seq![], kids: seq![], ..old(right)@ }),
    {
        let ghost sv = self.cells@;
        let ghost rv = right.cells@;
        proof {
            views_concat(sv, rv);
        }
        self.cells.append(&mut right.cells);
        self.children_pgno.append(&mut right.children_pgno);
        self.right = right.right;
        assert(self.cells@ =~= sv + rv);
    }

    /// Leaves the node with nothing in it and no neighbours.
    pub fn clear(&mut self)
        ensures
            final(self).pgno == old(self).pgno,
            final(self)@ == (NodeView {
                left: 0,
                right: 0,
                cells: seq![],
                kids: seq![],
                ..old(self)@
            }),
    {
        self.left = 0;
        self.right = 0;
        self.cells.clear();
        self.children_pgno.clear();
        assert(self@.cells =~= seq![]);
        assert(self@.kids =~= seq![]);
    }
}

} // verus!
