//! Rows that are small enough for pages always to hold their cells.
use vstd::prelude::*;

use crate::engine::btree::BTree;
use crate::engine::node::{cell_size, cells_size, page_holds, CellView, HEADER_LEN, PAGE_SIZE};
use crate::engine::record::record_size;
use crate::engine::remove::{last_left, pruned, regrouped, two_entries, with_separator};
use crate::engine::tree::{
    around, entries, has_key, key_at_bound, lower_bound_parts, max_is_last, ok, single, sorted,
    with_cell, without_key, Store,
};
use crate::engine::tree_insert::{child_index, key_sides, raised, room, written_cells};
use crate::engine::tree_remove::without_middle;
use crate::engine::value::DataView;
use crate::engine::whole::height_bound;

verus! {

/// Number of bytes that a cell may take so that a page always has room for as many
/// cells as it may have.
pub open spec fn cell_limit(m: nat) -> int {
    (PAGE_SIZE - HEADER_LEN) / (2 * m - 1) - 2
}

/// Whether all cells are small enough for pages always to have room.
pub open spec fn all_small(e: Seq<CellView>, m: nat) -> bool {
    forall|i: int| 0 <= i < e.len() ==> cell_size(#[trigger] e[i]) <= cell_limit(m)
}

proof fn size_of_small(cells: Seq<CellView>, m: nat)
    requires
        all_small(cells, m),
    ensures
        cells_size(cells) <= cells.len() * cell_limit(m),
    decreases cells.len(),
{
    let k = cell_limit(m);
    let l = cells.len() as int;
    if l > 0 {
        let d = cells.drop_last();
        assert forall|i: int| 0 <= i < d.len() implies cell_size(#[trigger] d[i]) <= k by {
            assert(d[i] == cells[i]);
        }
        size_of_small(d, m);
        assert(cells.last() == cells[l - 1]);
        assert((l - 1) * k + k == l * k) by (nonlinear_arith);
    }
}

/// A page holds small cells, as many as it may have.
proof fn small_held(cells: Seq<CellView>, m: nat)
    requires
        m >= 1,
        all_small(cells, m),
        cells.len() < 2 * m,
    ensures
        page_holds(cells),
{
    size_of_small(cells, m);
    let w = 2 * m - 1;
    let k = cell_limit(m) + 2;
    let l = cells.len() as int;
    let z = PAGE_SIZE - HEADER_LEN;
    assert(w * (z / w) <= z && z / w >= 0) by (nonlinear_arith)
        requires
            w > 0,
            z >= 0,
    ;
    assert(l * k <= w * k) by (nonlinear_arith)
        requires
            0 <= l <= w,
            k >= 0,
    ;
    assert(l * (k - 2) + 2 * l == l * k) by (nonlinear_arith);
}

/// The cells of a node are small where the entries below it are.
proof fn node_small(s: Store, p: u32, h: nat, m: nat, top: bool)
    requires
        ok(s, p, h, m, top),
        m >= 1,
        all_small(entries(s, seq![p], h), m),
    ensures
        all_small(s[p].cells, m),
{
    single(s, p, h);
    if h > 0 {
        let n = s[p];
        let d = (h - 1) as nat;
        assert forall|j: int| 0 <= j < n.cells.len() implies cell_size(#[trigger] n.cells[j])
            <= cell_limit(m) by {
            let q = n.kids[j];
            assert(ok(s, n.kids[j], d, m, false));
            max_is_last(s, q, d, m, false);
            small_below(s, p, h, m, top, j);
            let e = entries(s, seq![q], d);
            assert(cell_size(e[e.len() - 1]) <= cell_limit(m));
            assert(n.cells[j].1 =~= Seq::<DataView>::empty());
            assert(record_size(n.cells[j].1) == 0);
        }
    }
}

/// The entries below a child are small where those below the node are.
proof fn small_below(s: Store, p: u32, h: nat, m: nat, top: bool, j: int)
    requires
        ok(s, p, h, m, top),
        h > 0,
        0 <= j < s[p].kids.len(),
        all_small(entries(s, seq![p], h), m),
    ensures
        all_small(entries(s, seq![s[p].kids[j]], (h - 1) as nat), m),
{
    let k = s[p].kids;
    let d = (h - 1) as nat;
    single(s, p, h);
    around(s, k, j, d);
    let a = entries(s, k.take(j), d);
    let b = entries(s, seq![k[j]], d);
    let e = entries(s, seq![p], h);
    assert forall|i: int| 0 <= i < b.len() implies cell_size(#[trigger] b[i]) <= cell_limit(m) by {
        assert(e[a.len() + i] == b[i]);
    }
}

/// Writing small cells needs no more room than there is.
proof fn written_small(cells: Seq<CellView>, m: nat)
    requires
        m >= 1,
        all_small(cells, m),
        cells.len() <= 2 * m,
    ensures
        written_cells(cells, m) is Some,
        written_cells(cells, m) matches Some(Some(k)) ==> 12 + crate::engine::value::data_size(k)
            <= cell_limit(m),
{
    let half = (cells.len() / 2) as int;
    if cells.len() < 2 * m {
        small_held(cells, m);
    } else {
        let a = cells.take(half);
        let b = cells.skip(half);
        assert forall|i: int| 0 <= i < a.len() implies cell_size(#[trigger] a[i]) <= cell_limit(
            m,
        ) by {
            assert(a[i] == cells[i]);
        }
        assert forall|i: int| 0 <= i < b.len() implies cell_size(#[trigger] b[i]) <= cell_limit(
            m,
        ) by {
            assert(b[i] == cells[half + i]);
        }
        small_held(a, m);
        small_held(b, m);
        assert(cell_size(cells[half - 1]) <= cell_limit(m));
    }
}

/// A small entry always has room among small ones.
proof fn room_small(s: Store, p: u32, h: nat, c: CellView, m: nat, top: bool)
    requires
        ok(s, p, h, m, top),
        m >= 1,
        sorted(entries(s, seq![p], h)),
        all_small(entries(s, seq![p], h), m),
        cell_size(c) <= cell_limit(m),
    ensures
        room(s, p, h, c, m) is Some,
        room(s, p, h, c, m) matches Some(Some(k)) ==> 12 + crate::engine::value::data_size(k)
            <= cell_limit(m),
    decreases h,
{
    let n = s[p];
    node_small(s, p, h, m, top);
    single(s, p, h);
    if h == 0 {
        lower_bound_parts(n.cells, c.0);
        let f = with_cell(n.cells, c);
        let b = crate::engine::tree::lower_bound(n.cells, c.0) as int;
        assert forall|i: int| 0 <= i < f.len() implies cell_size(#[trigger] f[i]) <= cell_limit(
            m,
        ) by {
            if i < b {
                assert(f[i] == n.cells[i]);
            } else if i > b {
                assert(f[i] == n.cells[i - 1]);
            }
        }
        written_small(f, m);
    } else {
        let d = (h - 1) as nat;
        let i = child_index(n, c.0);
        key_sides(s, p, h, m, top, c.0);
        assert(ok(s, n.kids[i], d, m, false));
        small_below(s, p, h, m, top, i);
        room_small(s, n.kids[i], d, c, m, false);
        let e = Seq::<DataView>::empty();
        assert(record_size(e) == 0);
        let f = raised(n, c.0);
        assert(cell_size((c.0, e)) <= cell_limit(m));
        assert forall|j: int| 0 <= j < f.len() implies cell_size(#[trigger] f[j]) <= cell_limit(
            m,
        ) by {
            if j < n.cells.len() {
                assert(cell_size(n.cells[j]) <= cell_limit(m));
            }
        }
        match room(s, n.kids[i], d, c, m) {
            Some(Some(k)) => {
                let g = f.insert(i, (k, e));
                assert(cell_size((k, e)) <= cell_limit(m));
                assert forall|j: int| 0 <= j < g.len() implies cell_size(#[trigger] g[j])
                    <= cell_limit(m) by {
                    if j < i {
                        assert(g[j] == f[j]);
                    } else if j > i {
                        assert(g[j] == f[j - 1]);
                    }
                }
                written_small(g, m);
            },
            _ => {
                small_held(f, m);
            },
        }
    }
}

/// Small entries can always be taken out.
#[verifier::rlimit(60)]
proof fn pruned_small(s: Store, p: u32, h: nat, key: DataView, m: nat, top: bool)
    requires
        ok(s, p, h, m, top),
        m >= 2,
        sorted(entries(s, seq![p], h)),
        has_key(entries(s, seq![p], h), key),
        all_small(entries(s, seq![p], h), m),
    ensures
        pruned(s, p, h, key, m) is Some,
        all_small(pruned(s, p, h, key, m)->0, m),
        (pruned(s, p, h, key, m)->0).len() <= s[p].cells.len(),
    decreases h,
{
    reveal_with_fuel(pruned, 2);
    let n = s[p];
    node_small(s, p, h, m, top);
    single(s, p, h);
    if h == 0 {
        key_at_bound(n.cells, key);
        small_without(n.cells, key, m);
    } else {
        let d = (h - 1) as nat;
        let i = child_index(n, key);
        let k = n.kids;
        key_sides(s, p, h, m, top, key);
        without_middle(s, p, h, m, top, key);
        assert(ok(s, k[i], d, m, false));
        small_below(s, p, h, m, top, i);
        pruned_small(s, k[i], d, key, m, false);
        let b = entries(s, seq![k[i]], d);
        two_entries(s, k[i], d, m);
        key_at_bound(b, key);
        small_without(b, key, m);
        let w = without_key(b, key);
        assert(cell_size(w[w.len() - 1]) <= cell_limit(m));
        if i > 0 {
            assert(ok(s, k[i - 1], d, m, false));
            small_below(s, p, h, m, top, i - 1);
            node_small(s, k[i - 1], d, m, false);
        }
        if i + 1 < k.len() {
            assert(ok(s, k[i + 1], d, m, false));
            small_below(s, p, h, m, top, i + 1);
            node_small(s, k[i + 1], d, m, false);
        }
        regrouped_small(s, p, h, m, top, i, pruned(s, k[i], d, key, m)->0, last_left(s, k[i], d, key));
    }
}

proof fn small_without(e: Seq<CellView>, key: DataView, m: nat)
    requires
        all_small(e, m),
        crate::engine::tree::lower_bound(e, key) < e.len(),
    ensures
        all_small(without_key(e, key), m),
        without_key(e, key).len() == e.len() - 1,
{
    let n = crate::engine::tree::lower_bound(e, key) as int;
    let f = without_key(e, key);
    assert forall|i: int| 0 <= i < f.len() implies cell_size(#[trigger] f[i]) <= cell_limit(m) by {
        if i < n {
            assert(f[i] == e[i]);
        } else {
            assert(f[i] == e[i + 1]);
        }
    }
}

/// Small cells can be divided anew.
#[verifier::rlimit(60)]
proof fn regrouped_small(
    s: Store,
    p: u32,
    h: nat,
    m: nat,
    top: bool,
    i: int,
    child: Seq<CellView>,
    big: DataView,
)
    requires
        ok(s, p, h, m, top),
        h > 0,
        m >= 2,
        0 <= i < s[p].kids.len(),
        all_small(s[p].cells, m),
        all_small(child, m),
        12 + crate::engine::value::data_size(big) <= cell_limit(m),
        i > 0 ==> all_small(s[s[p].kids[i - 1]].cells, m) && m <= s[s[p].kids[i - 1]].cells.len() < 2
            * m,
        i + 1 < s[p].kids.len() ==> all_small(s[s[p].kids[i + 1]].cells, m) && m
            <= s[s[p].kids[i + 1]].cells.len() < 2 * m,
    ensures
        regrouped(s, s[p], i, child, big, m) is Some,
        all_small(regrouped(s, s[p], i, child, big, m)->0, m),
        (regrouped(s, s[p], i, child, big, m)->0).len() <= s[p].cells.len(),
{
    reveal(regrouped);
    let n = s[p];
    let none = Seq::<DataView>::empty();
    assert(record_size(none) == 0);
    let cells = with_separator(n, i, big);
    let l = s[n.kids[i - 1]].cells;
    let r = s[n.kids[i + 1]].cells;
    let z = cell_limit(m);
    assert(cell_size((big, none)) <= z);
    assert forall|j: int| 0 <= j < cells.len() implies cell_size(#[trigger] cells[j]) <= z by {
        assert(cell_size(n.cells[j]) <= z);
    }
    if child.len() >= m {
        small_held(cells, m);
    } else if i > 0 && l.len() > m {
        let x = l.drop_last();
        let y = seq![l.last()] + child;
        let k = l[l.len() - 2].0;
        let now = cells.update(i - 1, (k, none));
        assert(cell_size(l[l.len() - 2]) <= z && cell_size(l[l.len() - 1]) <= z);
        assert forall|j: int| 0 <= j < x.len() implies cell_size(#[trigger] x[j]) <= z by {
            assert(x[j] == l[j]);
        }
        assert forall|j: int| 0 <= j < y.len() implies cell_size(#[trigger] y[j]) <= z by {
            if j > 0 {
                assert(y[j] == child[j - 1]);
            }
        }
        assert forall|j: int| 0 <= j < now.len() implies cell_size(#[trigger] now[j]) <= z by {
            assert(cell_size(cells[j]) <= z);
        }
        small_held(x, m);
        small_held(y, m);
        small_held(now, m);
    } else if i + 1 < n.kids.len() && r.len() > m {
        let x = child.push(r[0]);
        let y = r.skip(1);
        let now = cells.update(i, (r[0].0, none));
        assert(cell_size(r[0]) <= z);
        assert forall|j: int| 0 <= j < x.len() implies cell_size(#[trigger] x[j]) <= z by {
            if j < child.len() {
                assert(x[j] == child[j]);
            }
        }
        assert forall|j: int| 0 <= j < y.len() implies cell_size(#[trigger] y[j]) <= z by {
            assert(y[j] == r[j + 1]);
        }
        assert forall|j: int| 0 <= j < now.len() implies cell_size(#[trigger] now[j]) <= z by {
            assert(cell_size(cells[j]) <= z);
        }
        small_held(x, m);
        small_held(y, m);
        small_held(now, m);
    } else {
        let right = i + 1 < n.kids.len();
        let x = if right {
            child + r
        } else {
            l + child
        };
        let at = if right {
            i
        } else {
            i - 1
        };
        let now = cells.remove(at);
        assert forall|j: int| 0 <= j < x.len() implies cell_size(#[trigger] x[j]) <= z by {
            if right {
                if j < child.len() {
                    assert(x[j] == child[j]);
                } else {
                    assert(x[j] == r[j - child.len()]);
                }
            } else {
                if j < l.len() {
                    assert(x[j] == l[j]);
                } else {
                    assert(x[j] == child[j - l.len()]);
                }
            }
        }
        assert forall|j: int| 0 <= j < now.len() implies cell_size(#[trigger] now[j]) <= z by {
            if j < at {
                assert(now[j] == cells[j]);
            } else {
                assert(now[j] == cells[j + 1]);
            }
        }
        small_held(x, m);
        small_held(now, m);
    }
}

/// Where all rows of a tree are small, and another one is, pages hold their cells when
/// it is put in. The tree is lower than its database has pages.
pub proof fn small_rows_have_room(b: &BTree, root: u32, c: CellView)
    requires
        b.wf(),
        b.is_tree(root),
        all_small(b.rows(root), b.m as nat),
        cell_size(c) <= cell_limit(b.m as nat),
    ensures
        room(b.store(), root, b.height(root), c, b.m as nat) is Some,
        b.height(root) < b.total(),
{
    let h = b.height(root);
    assert(b.tree_at(root, h));
    room_small(b.store(), root, h, c, b.m as nat, true);
    height_bound(b.store(), root, h, b.m as nat, true, b.total() as nat);
}

/// Where all rows of a tree are small, pages hold their cells when one is taken out.
pub proof fn small_rows_can_go(b: &BTree, root: u32, key: DataView)
    requires
        b.wf(),
        b.is_tree(root),
        all_small(b.rows(root), b.m as nat),
        has_key(b.rows(root), key),
    ensures
        pruned(b.store(), root, b.height(root), key, b.m as nat) is Some,
{
    let h = b.height(root);
    assert(b.tree_at(root, h));
    pruned_small(b.store(), root, h, key, b.m as nat, true);
}

} // verus!
