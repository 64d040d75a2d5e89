//! What adding and removing rows makes of a tree as a whole: the map that it shows, and
//! the shape of all its nodes.
use vstd::prelude::*;

use crate::engine::btree::BTree;
use crate::engine::cursor::{
    leaf_links, leaves, row_inserted, row_removed, rows_by_leaves, BTreeCursor,
};
use crate::engine::laws::{found, insert_reads_back, remove_reads_back};
use crate::engine::node::{cell_size, page_holds, CellView};
use crate::engine::remove::pruned;
use crate::engine::small::{
    all_small, cell_limit, small_rows_can_go, small_rows_have_room,
};
use crate::engine::tree::{as_held, entries, flat_cells, has_key, max_is_last, ok, sorted, Store};
use crate::engine::tree_insert::room;
use crate::engine::value::DataView;

verus! {

// -- The map ---------------------------------------------------

/// The keys of a tree and what is read under them.
pub open spec fn shown(b: &BTree, root: u32) -> Map<DataView, Seq<DataView>> {
    Map::new(
        |k: DataView| found(b.rows(root), k) is Some,
        |k: DataView| found(b.rows(root), k)->0,
    )
}

/// Adding a row adds its key to the map that is read, and says so. Where the key is
/// there already the map stays as it is, with the old value under the key. Nothing else
/// keeps a row out but the end of a transaction, a database that cannot grow and pages
/// that do not hold their cells.
pub proof fn insert_adds_to_map(
    a: &BTree,
    c: &BTreeCursor,
    b: &BTree,
    d: &BTreeCursor,
    key: DataView,
    value: Seq<DataView>,
    r: bool,
)
    requires
        a.is_tree(c.root),
        row_inserted(a, c, b, d, key, value, r),
    ensures
        b.is_tree(c.root),
        shown(b, c.root) == if r {
            shown(a, c.root).insert(as_held(a.rows(c.root), key), value)
        } else {
            shown(a, c.root)
        },
        r ==> !shown(a, c.root).contains_key(as_held(a.rows(c.root), key)),
        a.is_write && a.can_grow(a.height(c.root) + 2int) && room(
            a.store(),
            c.root,
            a.height(c.root),
            (as_held(a.rows(c.root), key), value),
            a.m as nat,
        ) is Some ==> r == !shown(a, c.root).contains_key(as_held(a.rows(c.root), key)),
{
    let m = shown(a, c.root);
    let n = shown(b, c.root);
    if r {
        assert forall|k: DataView| #[trigger] found(b.rows(c.root), k) == if k == as_held(a.rows(c.root), key) {
            Some(value)
        } else {
            found(a.rows(c.root), k)
        } by {
            insert_reads_back(a, c, b, d, key, value, k);
        }
        assert(n =~= m.insert(as_held(a.rows(c.root), key), value));
    } else {
        assert(n =~= m);
    }
}

/// Where all rows are small, a row is added exactly where its key is not there.
pub proof fn small_row_is_added(
    a: &BTree,
    c: &BTreeCursor,
    b: &BTree,
    d: &BTreeCursor,
    key: DataView,
    value: Seq<DataView>,
    r: bool,
)
    requires
        a.wf(),
        a.is_tree(c.root),
        a.is_write,
        a.can_grow(a.height(c.root) + 2int),
        all_small(a.rows(c.root), a.m as nat),
        cell_size((as_held(a.rows(c.root), key), value)) <= cell_limit(a.m as nat),
        row_inserted(a, c, b, d, key, value, r),
    ensures
        r == !shown(a, c.root).contains_key(as_held(a.rows(c.root), key)),
{
    small_rows_have_room(a, c.root, (as_held(a.rows(c.root), key), value));
    insert_adds_to_map(a, c, b, d, key, value, r);
}

/// Removing a row takes its key out of the map that is read, and says so; where the key
/// is not there the map stays as it is. Nothing else keeps a row in but the end of a
/// transaction and pages that do not hold their cells.
pub proof fn remove_takes_from_map(
    a: &BTree,
    c: &BTreeCursor,
    b: &BTree,
    d: &BTreeCursor,
    key: DataView,
    r: bool,
)
    requires
        a.is_tree(c.root),
        row_removed(a, c, b, d, key, r),
    ensures
        b.is_tree(c.root),
        shown(b, c.root) == if r {
            shown(a, c.root).remove(as_held(a.rows(c.root), key))
        } else {
            shown(a, c.root)
        },
        r ==> shown(a, c.root).contains_key(as_held(a.rows(c.root), key)),
        a.is_write && pruned(a.store(), c.root, a.height(c.root), as_held(a.rows(c.root), key), a.m as nat) is Some
            ==> r == shown(a, c.root).contains_key(as_held(a.rows(c.root), key)),
{
    let m = shown(a, c.root);
    let n = shown(b, c.root);
    if r {
        assert forall|k: DataView| #[trigger] found(b.rows(c.root), k) == if k == as_held(a.rows(c.root), key) {
            None
        } else {
            found(a.rows(c.root), k)
        } by {
            remove_reads_back(a, c, b, d, key, k);
        }
        assert(n =~= m.remove(as_held(a.rows(c.root), key)));
    } else {
        assert(n =~= m);
    }
}

// -- The nodes -------------------------------------------------

/// Whether page `x` is a node of height `k` of the tree of page `p`, of height `h`.
pub open spec fn stands_in(s: Store, p: u32, h: nat, x: u32, k: nat) -> bool
    decreases h,
{
    if h == k {
        x == p
    } else if h > k {
        exists|i: int|
            0 <= i < s[p].kids.len() && stands_in(s, #[trigger] s[p].kids[i], (h - 1) as nat, x, k)
    } else {
        false
    }
}

/// Whether a node of height `k` has as many cells as it should, on its page, and for an
/// inner node: whether its keys are the largest ones below its children, and no child is
/// empty.
pub open spec fn node_shaped(s: Store, x: u32, k: nat, m: nat, top: bool) -> bool {
    let n = s[x];
    &&& s.dom().contains(x)
    &&& page_holds(n.cells)
    &&& n.cells.len() < 2 * m
    &&& !top ==> m <= n.cells.len()
    &&& n.leaf <==> k == 0
    &&& k > 0 ==> {
        &&& n.kids.len() >= 2
        &&& n.kids.len() == n.cells.len() || n.kids.len() == n.cells.len() + 1
        &&& forall|i: int|
            0 <= i < n.kids.len() ==> {
                let e = entries(s, seq![#[trigger] n.kids[i]], (k - 1) as nat);
                &&& s[n.kids[i]].cells.len() > 0
                &&& e.len() > 0
                &&& i < n.cells.len() ==> n.cells[i].0 == e.last().0
            }
    }
}

/// Whether the leaves of a tree have each other for neighbours and hold its rows, from
/// left to right.
pub open spec fn leaves_linked(b: &BTree, root: u32) -> bool {
    let s = b.store();
    let l = leaves(b, root);
    &&& flat_cells(s, l) == b.rows(root)
    &&& sorted(b.rows(root))
    &&& forall|j: int|
        0 <= j < l.len() ==> {
            let n = s[#[trigger] l[j]];
            &&& s.dom().contains(l[j])
            &&& n.leaf
            &&& n.left == if j > 0 {
                l[j - 1]
            } else {
                0
            }
            &&& n.right == if j + 1 < l.len() {
                l[j + 1]
            } else {
                0
            }
        }
}

/// Whether a whole tree has the shape that it should.
pub open spec fn well_shaped(b: &BTree, root: u32) -> bool {
    let h = b.height(root);
    &&& forall|x: u32, k: nat| #[trigger]
        stands_in(b.store(), root, h, x, k) ==> node_shaped(
            b.store(),
            x,
            k,
            b.m as nat,
            k == h,
        )
    &&& leaves_linked(b, root)
}

proof fn nodes_shaped(s: Store, p: u32, h: nat, m: nat, top: bool, x: u32, k: nat)
    requires
        ok(s, p, h, m, top),
        m >= 1,
        stands_in(s, p, h, x, k),
    ensures
        node_shaped(s, x, k, m, top && k == h),
    decreases h,
{
    if h == k {
        if k > 0 {
            let n = s[p];
            let d = (k - 1) as nat;
            assert forall|i: int| 0 <= i < n.kids.len() implies ({
                let e = entries(s, seq![#[trigger] n.kids[i]], d);
                &&& s[n.kids[i]].cells.len() > 0
                &&& e.len() > 0
                &&& i < n.cells.len() ==> n.cells[i].0 == e.last().0
            }) by {
                assert(ok(s, n.kids[i], d, m, false));
                max_is_last(s, n.kids[i], d, m, false);
            }
        }
    } else {
        let i = choose|i: int|
            0 <= i < s[p].kids.len() && stands_in(
                s,
                #[trigger] s[p].kids[i],
                (h - 1) as nat,
                x,
                k,
            );
        assert(ok(s, s[p].kids[i], (h - 1) as nat, m, false));
        nodes_shaped(s, s[p].kids[i], (h - 1) as nat, m, false, x, k);
    }
}

/// Every tree in order has the shape that it should: all nodes but the root have `m`
/// cells at least and all fewer than `2 * m`, keys part the children, and leaves are
/// linked in the order of their keys.
pub proof fn trees_are_shaped(b: &BTree, root: u32)
    requires
        b.wf(),
        b.is_tree(root),
    ensures
        well_shaped(b, root),
{
    let h = b.height(root);
    let m = b.m as nat;
    assert(b.tree_at(root, h));
    assert forall|x: u32, k: nat| #[trigger]
        stands_in(b.store(), root, h, x, k) implies node_shaped(b.store(), x, k, m, k == h) by {
        nodes_shaped(b.store(), root, h, m, true, x, k);
    }
    rows_by_leaves(b, root);
    assert forall|j: int| 0 <= j < leaves(b, root).len() implies ({
        let n = b.store()[#[trigger] leaves(b, root)[j]];
        &&& b.store().dom().contains(leaves(b, root)[j])
        &&& n.leaf
        &&& n.left == if j > 0 {
            leaves(b, root)[j - 1]
        } else {
            0
        }
        &&& n.right == if j + 1 < leaves(b, root).len() {
            leaves(b, root)[j + 1]
        } else {
            0
        }
    }) by {
        leaf_links(b, root, j);
    }
}

/// The keys of rows.
pub open spec fn keys_of(e: Seq<CellView>) -> Set<DataView> {
    Set::new(|k: DataView| has_key(e, k))
}

/// Adding a row leaves a tree in its shape, with the keys that it had and the new one.
pub proof fn insert_keeps_shape(
    a: &BTree,
    c: &BTreeCursor,
    b: &BTree,
    d: &BTreeCursor,
    key: DataView,
    value: Seq<DataView>,
    r: bool,
)
    requires
        a.wf(),
        a.is_tree(c.root),
        row_inserted(a, c, b, d, key, value, r),
    ensures
        well_shaped(b, c.root),
        keys_of(b.rows(c.root)) == if r {
            keys_of(a.rows(c.root)).insert(as_held(a.rows(c.root), key))
        } else {
            keys_of(a.rows(c.root))
        },
{
    trees_are_shaped(b, c.root);
    insert_adds_to_map(a, c, b, d, key, value, r);
    assert(keys_of(a.rows(c.root)) =~= shown(a, c.root).dom());
    assert(keys_of(b.rows(c.root)) =~= shown(b, c.root).dom());
    assert(shown(a, c.root).insert(as_held(a.rows(c.root), key), value).dom() =~= shown(a, c.root).dom().insert(
        as_held(a.rows(c.root), key),
    ));
}

/// Removing a row leaves a tree in its shape, with the keys that it had but the one that
/// was removed.
pub proof fn remove_keeps_shape(
    a: &BTree,
    c: &BTreeCursor,
    b: &BTree,
    d: &BTreeCursor,
    key: DataView,
    r: bool,
)
    requires
        a.wf(),
        a.is_tree(c.root),
        row_removed(a, c, b, d, key, r),
    ensures
        well_shaped(b, c.root),
        keys_of(b.rows(c.root)) == if r {
            keys_of(a.rows(c.root)).remove(as_held(a.rows(c.root), key))
        } else {
            keys_of(a.rows(c.root))
        },
        a.is_write && (keys_of(a.rows(c.root)).contains(as_held(a.rows(c.root), key)) ==> pruned(
            a.store(),
            c.root,
            a.height(c.root),
            as_held(a.rows(c.root), key),
            a.m as nat,
        ) is Some) ==> r == keys_of(a.rows(c.root)).contains(as_held(a.rows(c.root), key)),
{
    trees_are_shaped(b, c.root);
    remove_takes_from_map(a, c, b, d, key, r);
    assert(keys_of(a.rows(c.root)) =~= shown(a, c.root).dom());
    assert(keys_of(b.rows(c.root)) =~= shown(b, c.root).dom());
    assert(shown(a, c.root).remove(as_held(a.rows(c.root), key)).dom() =~= shown(a, c.root).dom().remove(
        as_held(a.rows(c.root), key),
    ));
}

/// Where all rows are small, a row is removed exactly where its key is there.
pub proof fn small_row_is_removed(
    a: &BTree,
    c: &BTreeCursor,
    b: &BTree,
    d: &BTreeCursor,
    key: DataView,
    r: bool,
)
    requires
        a.wf(),
        a.is_tree(c.root),
        a.is_write,
        all_small(a.rows(c.root), a.m as nat),
        row_removed(a, c, b, d, key, r),
    ensures
        r == keys_of(a.rows(c.root)).contains(as_held(a.rows(c.root), key)),
{
    if has_key(a.rows(c.root), as_held(a.rows(c.root), key)) {
        small_rows_can_go(a, c.root, as_held(a.rows(c.root), key));
    }
    remove_keeps_shape(a, c, b, d, key, r);
}

} // verus!
