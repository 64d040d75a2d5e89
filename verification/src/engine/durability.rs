//! What is there when the files of a database are opened again, wherever their writing
//! stopped.
//!
//! A program performs on the files what the library asks for, one operation after the
//! other. The laws speak of files that follow these operations. The pages of a file are
//! counted in 32 bits.
use vstd::prelude::*;

use crate::engine::btree::{chain_same, BTree};
use crate::engine::journal::{page_of, pages_fit, pages_in, replay, Disk};
use crate::engine::node::PAGE_SIZE;
use crate::engine::pages::found_is_committed;
use crate::engine::recovery::{
    counts_earlier_pages, disk_at, found, group_calls, recovered, settles, started, unharmed,
    went_on_follows,
};
use crate::engine::tables::trees_remain;
use crate::engine::transaction::{begun, committed, read_begun, same_contents};

verus! {

broadcast use group_calls;

/// Whether the trees of `a` are there in `d`.
pub open spec fn has_trees_of(d: &BTree, a: &BTree) -> bool {
    forall|root: u32| #[trigger]
        a.is_tree(root) ==> d.is_tree(root) && d.rows(root) == a.rows(root)
}

/// Where the pages of a database are found, its trees are.
proof fn opened_like(a: &BTree, c: &BTree, d: &BTree, r: bool)
    requires
        a.new_free_page@.len() == 0,
        a.header_matches(),
        a.total() > 0,
        pages_fit(a.total() as int),
        c.m == a.m,
        read_begun(c, d, r),
        found(c.pager.journal@.disk).len() == a.total(),
        forall|p: u32|
            p < a.total() ==> found(c.pager.journal@.disk)[p as int] == #[trigger] a.content(p),
    ensures
        r,
        d.total() == a.total(),
        has_trees_of(d, a),
{
    let db = recovered(c.pager.journal@.disk);
    assert(pages_in(db.len()) == a.total());
    assert(r);
    assert forall|p: u32| p < a.total() implies #[trigger] d.content(p) == a.content(p) by {
        assert(d.content(p) == page_of(db, p as int));
        assert(found(c.pager.journal@.disk)[p as int] == page_of(db, p as int));
    }
    assert(d.content(0) == a.content(0));
    assert(d.new_free_page@ =~= a.new_free_page@);
    assert forall|root: u32| #[trigger] a.is_tree(root) implies d.is_tree(root) && d.rows(root)
        == a.rows(root) by {
        same_contents(a, d, root);
    }
}

/// Where what a commit wrote is found, the trees that it wrote are.
proof fn opened_after_commit(a: &BTree, b: &BTree, c: &BTree, d: &BTree, r: bool)
    requires
        a.free_ok(),
        committed(a, b, true),
        a.pager.counts_all(),
        a.total() * PAGE_SIZE < 0x1_0000_0000,
        c.m == b.m,
        found(c.pager.journal@.disk) == found(b.pager.journal@.disk),
        read_begun(c, d, r),
    ensures
        r,
        d.total() == a.total(),
        has_trees_of(d, a),
{
    let db = b.pager.journal@.disk.db;
    let e = recovered(c.pager.journal@.disk);
    assert(recovered(b.pager.journal@.disk) == db);
    assert(found(b.pager.journal@.disk).len() == b.total());
    assert(pages_in(e.len()) == b.total());
    assert(r);
    assert forall|p: u32| p < b.total() implies #[trigger] d.content(p) == b.content(p) by {
        assert(d.content(p) == page_of(e, p as int));
        assert(found(c.pager.journal@.disk)[p as int] == page_of(e, p as int));
        assert(found(b.pager.journal@.disk)[p as int] == page_of(db, p as int));
    }
    assert(d.content(0) == b.content(0));
    let l = b.chain_pages();
    assert forall|i: int| 0 <= i < l.len() implies d.pager.content(#[trigger] l[i])
        == b.pager.content(l[i]) by {
        assert(d.content(l[i]) == b.content(l[i]));
    }
    chain_same(b.pager, d.pager, b.freelist_first, b.freelist_len as nat);
    assert(d.new_free_page@ =~= seq![]);
    assert(b.new_free_page@ =~= seq![]);
    assert(d.free_ok()) by {
        assert forall|i: int| 0 <= i < l.len() implies 0 < #[trigger] l[i] < d.total() && d.content(
            l[i],
        )[0] != 0 && !d.new_free_page@.contains(l[i]) by {
            assert(d.content(l[i]) == b.content(l[i]));
        }
    }
    assert(d.free().subset_of(b.free())) by {
        assert forall|p: u32| #[trigger] d.free().contains(p) implies b.free().contains(p) by {
            assert(d.is_free(p));
        }
    }
    assert forall|q: u32|
        q != 0 && !b.free().contains(q) && b.store().dom().contains(
            q,
        ) implies #[trigger] d.store().dom().contains(q) && d.store()[q] == b.store()[q] by {
        assert(d.content(q) == b.content(q));
    }
    assert forall|root: u32| #[trigger] a.is_tree(root) implies d.is_tree(root) && d.rows(root)
        == a.rows(root) by {
        assert(b.is_tree(root));
        trees_remain(b, d, root);
    }
}

/// In a transaction the pages of the database before it are found.
proof fn found_before(a: &BTree, t: &BTree)
    requires
        t.wf(),
        t.pager.in_write,
        t.pager.initial_pages == a.total(),
        forall|p: u32| p < a.total() ==> #[trigger] t.pager.committed(p) == a.content(p),
        a.total() * PAGE_SIZE < 0x1_0000_0000,
    ensures
        a.total() > 0,
        pages_fit(a.total() as int),
        found(t.pager.journal@.disk).len() == a.total(),
        forall|p: u32|
            p < a.total() ==> found(t.pager.journal@.disk)[p as int] == #[trigger] a.content(p),
{
    let n = a.total() as int;
    t.pager.transaction_can_roll_back();
    found_is_committed(&t.pager);
    let f = found(t.pager.journal@.disk);
    assert(pages_in((n * PAGE_SIZE) as nat) == n) by {
        assert((n * PAGE_SIZE) % 0x1_0000_0000 == n * PAGE_SIZE);
    }
    assert forall|p: u32| p < a.total() implies f[p as int] == #[trigger] a.content(p) by {
        assert(f[p as int] == t.pager.committed(p));
        assert(t.pager.committed(p) == a.content(p));
    }
}

/// A transaction on a database at rest counts all whole pages of its file.
pub proof fn begun_counts_all(a: &BTree, b: &BTree)
    requires
        a.pager.at_rest(),
        a.pager.initial_pages == a.total(),
        a.pager.journal@.disk.db.len() < 0x1_0000_0000,
        begun(a, b),
    ensures
        b.pager.counts_all(),
{
    let n = a.pager.journal@.disk.db.len() as int;
    assert(n % 0x1_0000_0000 == n);
    assert(n < (n / (PAGE_SIZE as int)) * PAGE_SIZE + PAGE_SIZE);
}

/// What was committed is there when the files are opened again: `a` is a database in a
/// transaction, `b` after the transaction was ended, `files` those that `a` follows, `c`
/// any database on what the operations made of them, and `d` what is read of it.
pub proof fn commit_survives(
    a: &BTree,
    b: &BTree,
    files: Disk,
    c: &BTree,
    d: &BTree,
    r: bool,
    root: u32,
)
    requires
        a.is_tree(root),
        committed(a, b, true),
        a.pager.counts_all(),
        a.total() * PAGE_SIZE < 0x1_0000_0000,
        a.pager.journal@.follows(files),
        c.m == b.m,
        c.pager.journal@.disk == replay(files, b.pager.journal@.ops),
        read_begun(c, d, r),
    ensures
        r,
        d.total() == a.total(),
        d.is_tree(root),
        d.rows(root) == a.rows(root),
{
    assert(a.tree_at(root, a.height(root)));
    went_on_follows(a.pager.journal@, b.pager.journal@, files);
    opened_after_commit(a, b, c, d, r);
}

/// A transaction leaves no trace in files whose writing stopped before its end. `a` is a
/// database before a transaction, and `t` in it. `b` comes from `t` by operations that
/// harm nothing: further work, a rollback, or a look at the journal. `files` are those
/// that `t` follows, `c` is any database on what the first `k` operations made of them,
/// and `d` what is read of it.
pub proof fn crash_restores(
    a: &BTree,
    t: &BTree,
    b: &BTree,
    files: Disk,
    k: int,
    c: &BTree,
    d: &BTree,
    r: bool,
)
    requires
        a.new_free_page@.len() == 0,
        a.header_matches(),
        a.total() * PAGE_SIZE < 0x1_0000_0000,
        t.wf(),
        t.pager.in_write,
        t.pager.initial_pages == a.total(),
        forall|p: u32| p < a.total() ==> #[trigger] t.pager.committed(p) == a.content(p),
        unharmed(t.pager.journal@, b.pager.journal@),
        t.pager.journal@.follows(files),
        t.pager.journal@.ops.len() <= k <= b.pager.journal@.ops.len(),
        c.m == a.m,
        c.pager.journal@.disk == replay(files, b.pager.journal@.ops.take(k)),
        read_begun(c, d, r),
    ensures
        r,
        d.total() == a.total(),
        has_trees_of(d, a),
        b.wf() && b.pager.in_write && b.pager.initial_pages == a.total() && k
            == b.pager.journal@.ops.len() ==> d.pager.journal@.disk.db.len() == a.total()
            * PAGE_SIZE,
{
    let v = t.pager.journal@;
    let w = b.pager.journal@;
    found_before(a, t);
    t.pager.transaction_can_roll_back();
    went_on_follows(v, w, files);
    assert(replay(files, w.ops.take(k)) == disk_at(v, w, k));
    reveal(unharmed);
    assert(found(disk_at(v, w, k)) == found(v.disk));
    opened_like(a, c, d, r);
    if b.wf() && b.pager.in_write {
        b.pager.transaction_can_roll_back();
        assert(w.ops.take(w.ops.len() as int) =~= w.ops);
    }
}

/// In files whose writing stopped while a transaction was begun the database is as it
/// was, but for the moment when the journal counts the pages of an earlier transaction:
/// `a` is a database at rest, `b` in the transaction, `files` those that `a` follows, `c`
/// any database on what the first `k` operations made of them, and `d` what is read of it.
pub proof fn crash_in_begin(
    a: &BTree,
    b: &BTree,
    files: Disk,
    k: int,
    c: &BTree,
    d: &BTree,
    r: bool,
)
    requires
        a.pager.wf(),
        a.pager.at_rest(),
        a.total() > 0,
        a.new_free_page@.len() == 0,
        a.header_matches(),
        begun(a, b),
        a.pager.journal@.follows(files),
        a.pager.journal@.ops.len() <= k <= b.pager.journal@.ops.len(),
        c.m == a.m,
        c.pager.journal@.disk == replay(files, b.pager.journal@.ops.take(k)),
        !counts_earlier_pages(c.pager.journal@.disk),
        read_begun(c, d, r),
    ensures
        r,
        d.total() == a.total(),
        has_trees_of(d, a),
{
    let v = a.pager.journal@;
    let w = b.pager.journal@;
    went_on_follows(v, w, files);
    assert(replay(files, w.ops.take(k)) == disk_at(v, w, k));
    reveal(started);
    assert(found(disk_at(v, w, k)) == found(v.disk));
    a.pager.all_in_file();
    assert(recovered(v.disk) == v.disk.db);
    assert forall|p: u32| p < a.total() implies found(v.disk)[p as int] == #[trigger] a.content(p)
        by {
        assert(a.pager.content(p) == page_of(v.disk.db, p as int));
    }
    opened_like(a, c, d, r);
}

/// In files whose writing stopped in a commit the database is as it was before the
/// transaction or as the transaction left it: `a` is a database before a transaction, `t`
/// in it, `b` after it was ended, `files` those that `t` follows, `c` any database on what
/// the first `k` operations made of them, and `d` what is read of it.
pub proof fn crash_in_commit(
    a: &BTree,
    t: &BTree,
    b: &BTree,
    files: Disk,
    k: int,
    c: &BTree,
    d: &BTree,
    r: bool,
)
    requires
        a.new_free_page@.len() == 0,
        a.header_matches(),
        a.total() * PAGE_SIZE < 0x1_0000_0000,
        t.wf(),
        t.free_ok(),
        t.pager.counts_all(),
        t.total() * PAGE_SIZE < 0x1_0000_0000,
        t.pager.initial_pages == a.total(),
        forall|p: u32| p < a.total() ==> #[trigger] t.pager.committed(p) == a.content(p),
        committed(t, b, true),
        t.pager.journal@.follows(files),
        t.pager.journal@.ops.len() <= k <= b.pager.journal@.ops.len(),
        c.m == a.m,
        t.m == a.m,
        c.pager.journal@.disk == replay(files, b.pager.journal@.ops.take(k)),
        read_begun(c, d, r),
    ensures
        r,
        (d.total() == a.total() && has_trees_of(d, a)) || (d.total() == t.total() && has_trees_of(
            d,
            t,
        )),
{
    let v = t.pager.journal@;
    let w = b.pager.journal@;
    found_before(a, t);
    went_on_follows(v, w, files);
    assert(replay(files, w.ops.take(k)) == disk_at(v, w, k));
    reveal(settles);
    assert(found(disk_at(v, w, k)) == found(v.disk) || found(disk_at(v, w, k)) == found(w.disk));
    if found(disk_at(v, w, k)) == found(v.disk) {
        opened_like(a, c, d, r);
    } else {
        opened_after_commit(t, b, c, d, r);
    }
}

/// A transaction is there as a whole or not at all, wherever the writing of the files
/// stopped between its beginning and its end, but for the moment when the journal counts
/// the pages of an earlier transaction. `a` is a database at rest, `t` once the
/// transaction is begun, `u` before its end, and `b` after it. `files` are those that `a`
/// follows, `c` is any database on what the first `k` operations made of them, and `d`
/// what is read of it.
pub proof fn transaction_is_whole(
    a: &BTree,
    t: &BTree,
    u: &BTree,
    b: &BTree,
    files: Disk,
    k: int,
    c: &BTree,
    d: &BTree,
    r: bool,
)
    requires
        a.pager.wf(),
        a.pager.at_rest(),
        a.total() > 0,
        a.new_free_page@.len() == 0,
        a.header_matches(),
        a.pager.journal@.disk.db.len() < 0x1_0000_0000,
        begun(a, t),
        u.wf(),
        u.free_ok(),
        u.m == a.m,
        u.total() * PAGE_SIZE < 0x1_0000_0000,
        u.pager.same_transaction(&t.pager),
        committed(u, b, true),
        a.pager.journal@.follows(files),
        a.pager.journal@.ops.len() <= k <= b.pager.journal@.ops.len(),
        c.m == a.m,
        c.pager.journal@.disk == replay(files, b.pager.journal@.ops.take(k)),
        !counts_earlier_pages(c.pager.journal@.disk),
        read_begun(c, d, r),
    ensures
        r,
        (d.total() == a.total() && has_trees_of(d, a)) || (d.total() == u.total() && has_trees_of(
            d,
            u,
        )),
{
    let x = a.pager.journal@;
    let y = t.pager.journal@;
    let z = u.pager.journal@;
    let w = b.pager.journal@;
    went_on_follows(x, y, files);
    went_on_follows(y, z, files);
    went_on_follows(z, w, files);
    begun_counts_all(a, t);
    let n = a.pager.journal@.disk.db.len() as int;
    assert(a.total() * PAGE_SIZE <= n) by {
        a.pager.all_in_file();
    }
    assert forall|p: u32| p < a.total() implies #[trigger] t.pager.committed(p) == a.content(p) by {}
    assert forall|p: u32| p < a.total() implies #[trigger] u.pager.committed(p) == a.content(p) by {
        assert(u.pager.committed(p) == t.pager.committed(p));
    }
    if k <= y.ops.len() {
        assert(w.ops.take(k) =~= y.ops.take(k));
        crash_in_begin(a, t, files, k, c, d, r);
    } else if k <= z.ops.len() {
        assert(w.ops.take(k) =~= z.ops.take(k));
        crash_restores(a, t, u, files, k, c, d, r);
    } else {
        crash_in_commit(a, u, b, files, k, c, d, r);
    }
}

} // verus!
