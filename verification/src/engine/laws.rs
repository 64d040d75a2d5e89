//! What reading gives back of writing, and what writing leaves alone.
use vstd::prelude::*;

use crate::engine::btree::BTree;
use crate::engine::cursor::{row_inserted, row_removed, rows_by_leaves, BTreeCursor};
use crate::engine::node::CellView;
use crate::engine::order::{key_lt, key_lt_irreflexive, key_lt_transitive};
use crate::engine::tables::{apart, other_tree_stays, tables};
use crate::engine::tree::{
    as_held, has_key, key_at_bound, lower_bound, lower_bound_parts, sorted, with_cell, with_cell_sorted,
    without_key, without_key_sorted,
};
use crate::engine::value::DataView;

verus! {

/// The value of a key among entries.
pub open spec fn found(e: Seq<CellView>, k: DataView) -> Option<Seq<DataView>> {
    if has_key(e, k) {
        Some(e[lower_bound(e, k) as int].1)
    } else {
        None
    }
}

/// Where an entry has a key, its value is the one that is found.
pub proof fn found_is(e: Seq<CellView>, i: int)
    requires
        sorted(e),
        0 <= i < e.len(),
    ensures
        has_key(e, e[i].0),
        lower_bound(e, e[i].0) == i,
        found(e, e[i].0) == Some(e[i].1),
{
    let k = e[i].0;
    key_at_bound(e, k);
    lower_bound_parts(e, k);
    let n = lower_bound(e, k) as int;
    assert(e[n].0 == k);
    broadcast use {key_lt_transitive, key_lt_irreflexive};

    if n < i {
        assert(key_lt(e[n].0, e[i].0));
    } else if i < n {
        assert(key_lt(e[i].0, e[n].0));
    }
}

/// An entry that was added is found, and every other key is found as before.
pub proof fn found_after_insert(e: Seq<CellView>, c: CellView, k: DataView)
    requires
        sorted(e),
        !has_key(e, c.0),
    ensures
        sorted(with_cell(e, c)),
        found(with_cell(e, c), k) == if k == c.0 {
            Some(c.1)
        } else {
            found(e, k)
        },
{
    let f = with_cell(e, c);
    let n = lower_bound(e, c.0) as int;
    with_cell_sorted(e, c);
    lower_bound_parts(e, c.0);
    assert(f[n] == c);
    found_is(f, n);
    if k != c.0 {
        if has_key(e, k) {
            let i = choose|i: int| 0 <= i < e.len() && (#[trigger] e[i]).0 == k;
            found_is(e, i);
            let j = if i < n {
                i
            } else {
                i + 1
            };
            assert(f[j] == e[i]);
            found_is(f, j);
        }
        if has_key(f, k) {
            let j = choose|j: int| 0 <= j < f.len() && (#[trigger] f[j]).0 == k;
            let i = if j < n {
                j
            } else {
                j - 1
            };
            assert(e[i] == f[j]);
        }
    }
}

/// An entry that was removed is not found, and every other key is found as before.
pub proof fn found_after_remove(e: Seq<CellView>, q: DataView, k: DataView)
    requires
        sorted(e),
        has_key(e, q),
    ensures
        sorted(without_key(e, q)),
        found(without_key(e, q), k) == if k == q {
            None
        } else {
            found(e, k)
        },
{
    let f = without_key(e, q);
    let n = lower_bound(e, q) as int;
    key_at_bound(e, q);
    assert(e[n].0 == q);
    without_key_sorted(e, n);
    if has_key(f, k) {
        let j = choose|j: int| 0 <= j < f.len() && (#[trigger] f[j]).0 == k;
        let i = if j < n {
            j
        } else {
            j + 1
        };
        assert(e[i] == f[j]);
        found_is(e, i);
        found_is(f, j);
        found_is(e, n);
    }
    if k != q && has_key(e, k) {
        let i = choose|i: int| 0 <= i < e.len() && (#[trigger] e[i]).0 == k;
        let j = if i < n {
            i
        } else {
            i - 1
        };
        assert(i != n);
        assert(f[j] == e[i]);
        found_is(f, j);
        found_is(e, i);
    }
}

/// Removing an entry undoes adding it.
pub proof fn remove_undoes_insert(e: Seq<CellView>, c: CellView)
    requires
        sorted(e),
        !has_key(e, c.0),
    ensures
        without_key(with_cell(e, c), c.0) == e,
{
    let f = with_cell(e, c);
    let n = lower_bound(e, c.0) as int;
    with_cell_sorted(e, c);
    lower_bound_parts(e, c.0);
    assert(f[n] == c);
    found_is(f, n);
    assert(without_key(f, c.0) =~= e);
}

/// A row that a cursor added is read back, and every other key reads as before.
pub proof fn insert_reads_back(
    a: &BTree,
    c: &BTreeCursor,
    b: &BTree,
    d: &BTreeCursor,
    key: DataView,
    value: Seq<DataView>,
    k: DataView,
)
    requires
        a.is_tree(c.root),
        row_inserted(a, c, b, d, key, value, true),
    ensures
        b.is_tree(c.root),
        found(b.rows(c.root), k) == if k == as_held(a.rows(c.root), key) {
            Some(value)
        } else {
            found(a.rows(c.root), k)
        },
{
    rows_by_leaves(a, c.root);
    found_after_insert(a.rows(c.root), (as_held(a.rows(c.root), key), value), k);
}

/// A row that a cursor removed is gone, and every other key reads as before.
pub proof fn remove_reads_back(
    a: &BTree,
    c: &BTreeCursor,
    b: &BTree,
    d: &BTreeCursor,
    key: DataView,
    k: DataView,
)
    requires
        a.is_tree(c.root),
        row_removed(a, c, b, d, key, true),
    ensures
        b.is_tree(c.root),
        found(b.rows(c.root), k) == if k == as_held(a.rows(c.root), key) {
            None
        } else {
            found(a.rows(c.root), k)
        },
{
    rows_by_leaves(a, c.root);
    found_after_remove(a.rows(c.root), as_held(a.rows(c.root), key), k);
}

/// Whether the trees of some pages have the same rows, but for one.
pub open spec fn others_same(a: &BTree, b: &BTree, roots: Set<u32>, root: u32) -> bool {
    forall|q: u32| #[trigger] roots.contains(q) && q != root ==> b.rows(q) == a.rows(q)
}

/// Adding a row to one table, or failing to, leaves all other tables as they are.
pub proof fn insert_keeps_tables(
    a: &BTree,
    c: &BTreeCursor,
    b: &BTree,
    d: &BTreeCursor,
    key: DataView,
    value: Seq<DataView>,
    r: bool,
    roots: Set<u32>,
)
    requires
        tables(a, roots),
        roots.contains(c.root),
        row_inserted(a, c, b, d, key, value, r),
    ensures
        tables(b, roots),
        others_same(a, b, roots, c.root),
{
    let root = c.root;
    assert(a.is_tree(root));
    assert(b.tree_at(root, b.height(root)));
    assert forall|q: u32| #[trigger] roots.contains(q) && q != root implies b.is_tree(q) && b.rows(
        q,
    ) == a.rows(q) && (forall|x: u32| #[trigger] b.owns(q, x) == a.owns(q, x)) by {
        assert(a.is_tree(q));
        other_tree_stays(a, b, root, q);
    }
    assert forall|p: u32, q: u32| #[trigger]
        roots.contains(p) && #[trigger] roots.contains(q) && p != q implies apart(b, p, q) by {
        assert(apart(a, p, q));
        assert forall|x: u32| !(#[trigger] b.owns(p, x) && b.owns(q, x)) by {
            pages_apart(a, b, roots, root, p, q, x);
        }
    }
}

proof fn pages_apart(a: &BTree, b: &BTree, roots: Set<u32>, root: u32, p: u32, q: u32, x: u32)
    requires
        tables(a, roots),
        roots.contains(p),
        roots.contains(q),
        roots.contains(root),
        p != q,
        forall|q: u32| #[trigger]
            roots.contains(q) && q != root ==> (forall|x: u32| #[trigger]
                b.owns(q, x) == a.owns(q, x)),
        forall|x: u32| #[trigger]
            b.owns(root, x) ==> a.owns(root, x) || a.free().contains(x),
    ensures
        !(b.owns(p, x) && b.owns(q, x)),
{
    assert(apart(a, p, q));
    assert(a.is_tree(p) && a.is_tree(q));
    assert(a.tree_at(p, a.height(p)) && a.tree_at(q, a.height(q)));
    assert(!(a.owns(p, x) && a.owns(q, x)));
    if b.owns(p, x) && b.owns(q, x) {
        if p != root {
            assert(a.owns(p, x));
        }
        if q != root {
            assert(a.owns(q, x));
        }
        assert(a.free().contains(x));
    }
}

/// Removing a row from one table, or failing to, leaves all other tables as they
/// are.
pub proof fn remove_keeps_tables(
    a: &BTree,
    c: &BTreeCursor,
    b: &BTree,
    d: &BTreeCursor,
    key: DataView,
    r: bool,
    roots: Set<u32>,
)
    requires
        tables(a, roots),
        roots.contains(c.root),
        row_removed(a, c, b, d, key, r),
    ensures
        tables(b, roots),
        others_same(a, b, roots, c.root),
{
    let root = c.root;
    assert(a.is_tree(root));
    assert(b.tree_at(root, b.height(root)));
    assert forall|q: u32| #[trigger] roots.contains(q) && q != root implies b.is_tree(q) && b.rows(
        q,
    ) == a.rows(q) && (forall|x: u32| #[trigger] b.owns(q, x) == a.owns(q, x)) by {
        assert(a.is_tree(q));
        assert forall|x: u32| #[trigger] b.free().contains(x) implies a.free().contains(x)
            || a.owns(root, x) by {}
        other_tree_stays(a, b, root, q);
    }
    assert forall|p: u32, q: u32| #[trigger]
        roots.contains(p) && #[trigger] roots.contains(q) && p != q implies apart(b, p, q) by {
        assert forall|x: u32| !(#[trigger] b.owns(p, x) && b.owns(q, x)) by {
            pages_apart(a, b, roots, root, p, q, x);
        }
    }
}

} // verus!
