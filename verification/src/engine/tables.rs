//! Several trees in one database.
use vstd::prelude::*;

use crate::engine::btree::BTree;
use crate::engine::node::CellView;
use crate::engine::transaction::{empty_fits, empty_leaf};
use crate::engine::tree::{level, linked, occ, occ_single, single};
use crate::engine::tree_insert::kept;
use crate::engine::whole::{is_root, kept_self, other_tree_kept};
use crate::engine::recovery::group_calls;

verus! {

broadcast use group_calls;

/// Whether no page belongs to both trees.
pub open spec fn apart(b: &BTree, p: u32, q: u32) -> bool {
    forall|x: u32| !(#[trigger] b.owns(p, x) && b.owns(q, x))
}

/// Whether the pages `roots` are roots of trees that share no page.
pub open spec fn tables(b: &BTree, roots: Set<u32>) -> bool {
    &&& forall|p: u32| #[trigger] roots.contains(p) ==> b.is_tree(p)
    &&& forall|p: u32, q: u32| #[trigger]
        roots.contains(p) && #[trigger] roots.contains(q) && p != q ==> apart(b, p, q)
}

/// A change to one tree leaves the rows of the trees apart from it as they are.
pub proof fn other_tree_stays(a: &BTree, b: &BTree, p: u32, q: u32)
    requires
        a.is_tree(p),
        a.is_tree(q),
        apart(a, p, q),
        b.free_ok(),
        b.m == a.m,
        kept(a.store(), a.free(), b.store(), p, a.height(p), seq![], seq![]),
        forall|x: u32| #[trigger]
            b.free().contains(x) ==> a.free().contains(x) || a.owns(p, x),
    ensures
        b.is_tree(q),
        b.rows(q) == a.rows(q),
        forall|x: u32| #[trigger] b.owns(q, x) == a.owns(q, x),
{
    let h = a.height(p);
    let k = a.height(q);
    let m = a.m as nat;
    assert(a.tree_at(q, k));
    assert(!b.is_free(0));
    assert forall|x: u32| #[trigger] occ(a.store(), seq![q], k, x) > 0 implies occ(
        a.store(),
        seq![p],
        h,
        x,
    ) == 0 && !b.free().contains(x) by {
        assert(a.owns(q, x));
        if a.owns(p, x) {
            assert(false);
        }
        assert(!a.free().contains(x));
    }
    other_tree_kept(a.store(), a.free(), b.store(), b.free(), p, h, q, k, m);
    assert(b.tree_at(q, k));
    b.height_is(q, k);
}

/// Freeing the pages of one tree leaves the trees apart from it as they are.
pub proof fn freed_leaves(a: &BTree, b: &BTree, p: u32, q: u32)
    requires
        a.is_tree(p),
        a.is_tree(q),
        apart(a, p, q),
        b.free_ok(),
        b.m == a.m,
        b.store() == a.store(),
        forall|x: u32| #[trigger]
            b.free().contains(x) ==> a.free().contains(x) || a.owns(p, x),
    ensures
        b.is_tree(q),
        b.rows(q) == a.rows(q),
{
    kept_self(a.store(), a.free(), p, a.height(p));
    other_tree_stays(a, b, p, q);
}

/// Trees stay where free pages and the header page change, and where pages that
/// belong to no tree stop being free.
pub proof fn trees_remain(a: &BTree, b: &BTree, root: u32)
    requires
        a.is_tree(root),
        b.free_ok(),
        b.m == a.m,
        b.free().subset_of(a.free()),
        forall|q: u32|
            q != 0 && !a.free().contains(q) && a.store().dom().contains(q)
                ==> #[trigger] b.store().dom().contains(q) && b.store()[q] == a.store()[q],
    ensures
        b.is_tree(root),
        b.rows(root) == a.rows(root),
        b.height(root) == a.height(root),
        forall|x: u32| #[trigger] b.owns(root, x) == a.owns(root, x),
{
    let s = a.store();
    let t = b.store();
    let f = a.free();
    let h = a.height(root);
    assert(a.tree_at(root, h));
    assert forall|x: u32| #![trigger t.dom().contains(x)] #![trigger s.dom().contains(x)]
        occ(s, seq![0u32], 0, x) == 0 && !f.contains(x) && s.dom().contains(
            x,
        ) implies t.dom().contains(x) && t[x] == s[x] by {
        occ_single(s, 0, 0, x);
        assert(t.dom().contains(x) && t[x] == s[x]);
    }
    assert(kept(s, f, t, 0, 0, seq![], seq![]));
    assert forall|x: u32| #[trigger] occ(s, seq![root], h, x) > 0 implies occ(s, seq![0u32], 0, x)
        == 0 && !b.free().contains(x) by {
        occ_single(s, 0, 0, x);
    }
    assert(!b.is_free(0));
    other_tree_kept(s, f, t, b.free(), 0, 0, root, h, a.m as nat);
    assert(b.tree_at(root, h));
    b.height_is(root, h);
}

/// A leaf without cells or neighbours, on a page that is not free, is a tree
/// without rows.
pub proof fn empty_tree(b: &BTree, p: u32)
    requires
        b.free_ok(),
        2 <= b.m,
        p != 0,
        !b.free().contains(p),
        b.store().dom().contains(p),
        b.store()[p] == empty_leaf(),
    ensures
        b.is_tree(p),
        b.rows(p) == Seq::<CellView>::empty(),
        forall|x: u32| #[trigger] b.owns(p, x) ==> x == p,
{
    let f = b.free();
    let s = b.store();
    assert(!b.is_free(0));
    single(s, p, 0);
    let none = Seq::<u32>::empty();
    assert(none + level(s, seq![p], 0) + none =~= seq![p]);
    assert(linked(s, seq![p])) by {
        reveal(linked);
    }
    assert forall|x: u32| #[trigger] occ(s, seq![p], 0, x) <= 1 && (occ(s, seq![p], 0, x) > 0
        ==> x == p) by {
        occ_single(s, p, 0, x);
    }
    assert(is_root(s, f, p, 0, b.m as nat));
    assert(b.tree_at(p, 0));
    b.height_is(p, 0);
}

/// A tree on a page that was free is apart from all others.
proof fn new_tree_apart(a: &BTree, b: &BTree, p: u32, roots: Set<u32>)
    requires
        tables(a, roots),
        a.free().contains(p),
        b.is_tree(p),
        forall|x: u32| #[trigger] b.owns(p, x) ==> x == p,
        forall|q: u32| #[trigger]
            a.is_tree(q) ==> b.is_tree(q) && (forall|x: u32| #[trigger]
                b.owns(q, x) == a.owns(q, x)),
    ensures
        tables(b, roots.insert(p)),
{
    let more = roots.insert(p);
    assert forall|u: u32, v: u32| #[trigger]
        more.contains(u) && #[trigger] more.contains(v) && u != v implies apart(b, u, v) by {
        assert forall|x: u32| !(#[trigger] b.owns(u, x) && b.owns(v, x)) by {
            if b.owns(u, x) && b.owns(v, x) {
                if u != p {
                    assert(roots.contains(u) && a.is_tree(u));
                    assert(a.owns(u, x));
                    assert(a.tree_at(u, a.height(u)));
                }
                if v != p {
                    assert(roots.contains(v) && a.is_tree(v));
                    assert(a.owns(v, x));
                    assert(a.tree_at(v, a.height(v)));
                }
                if u != p && v != p {
                    assert(apart(a, u, v));
                }
            }
        }
    }
    assert forall|u: u32| #[trigger] more.contains(u) implies b.is_tree(u) by {
        if u != p {
            assert(roots.contains(u));
        }
    }
}

impl BTree {
    /// Makes a tree without rows.
    pub fn new_tree(&mut self) -> (r: Option<u32>)
        requires
            old(self).wf(),
        ensures
            final(self).wf(),
            final(self).m == old(self).m,
            final(self).is_write == old(self).is_write,
            final(self).pager.same_transaction(&old(self).pager),
            old(self).total() <= final(self).total() <= old(self).total() + 1,
            !old(self).is_write ==> r is None,
            old(self).is_write && old(self).free_ok() && old(self).can_grow(1) ==> r is Some,
            r matches Some(p) ==> p == (match old(self).next_free_page() {
                Some(q) => q,
                None => old(self).total(),
            }),
            old(self).next_free_page() is Some ==> final(self).total() == old(self).total(),
            old(self).free_ok() ==> final(self).spends(old(self)),
            old(self).free_ok() ==> {
                &&& final(self).free_ok()
                &&& final(self).free().subset_of(old(self).free())
                &&& r matches Some(p) ==> {
                    &&& p != 0
                    &&& old(self).free().contains(p)
                    &&& final(self).free() == old(self).free().remove(p)
                    &&& final(self).is_tree(p)
                    &&& final(self).rows(p) == Seq::<CellView>::empty()
                    &&& forall|x: u32| #[trigger] final(self).owns(p, x) ==> x == p
                    &&& forall|roots: Set<u32>| #[trigger]
                        tables(old(self), roots) ==> tables(final(self), roots.insert(p))
                }
                &&& forall|x: u32|
                    x != 0 && !old(self).free().contains(x) && old(self).store().dom().contains(x)
                        ==> #[trigger] final(self).store().dom().contains(x) && final(
                        self).store()[x] == old(self).store()[x]
                &&& forall|q: u32| #[trigger]
                    old(self).is_tree(q) ==> final(self).is_tree(q) && final(self).rows(q) == old(self).rows(q) && final(self).height(q) == old(self).height(q) && (forall|x: u32|
                     #[trigger] final(self).owns(q, x) == old(self).owns(q, x))
            },
    {
        if !self.is_write {
            return None;
        }
        let ghost before = *self;
        let node = match self.newnode(true, true) {
            None => {
                proof {
                    if before.free_ok() {
                        assert forall|p: u32|
                            p != 0 && !before.free().contains(p) && before.store().dom().contains(
                                p,
                            ) implies #[trigger] self.store().dom().contains(p)
                            && self.store()[p] == before.store()[p] by {
                            assert(self.content(p) == before.content(p));
                        }
                        assert forall|q: u32| #[trigger] before.is_tree(q) implies self.is_tree(q)
                            && self.rows(q) == before.rows(q) && self.height(q) == before.height(q)
                            && (forall|x: u32| #[trigger] self.owns(q, x) == before.owns(q, x)) by {
                            trees_remain(&before, self, q);
                        }
                    }
                }
                return None;
            },
            Some(node) => node,
        };
        let ghost mid = *self;
        proof {
            empty_fits(node@);
        }
        let done = self.putnode(&node);
        proof {
            if before.free_ok() {
                assert(!mid.free().contains(node.pgno));
                assert(!mid.is_free(node.pgno));
                assert(done);
                assert(self.free() =~= mid.free());
                empty_tree(self, node.pgno);
                assert forall|q: u32| #[trigger] before.is_tree(q) implies self.is_tree(q)
                    && self.rows(q) == before.rows(q) && self.height(q) == before.height(q) && (
                forall|x: u32| #[trigger] self.owns(q, x) == before.owns(q, x)) by {
                    trees_remain(&before, self, q);
                }
                assert forall|roots: Set<u32>| #[trigger] tables(&before, roots) implies tables(
                    self,
                    roots.insert(node.pgno),
                ) by {
                    new_tree_apart(&before, self, node.pgno, roots);
                }
            }
        }
        if done {
            Some(node.pgno)
        } else {
            None
        }
    }
}

} // verus!
