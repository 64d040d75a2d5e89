//! What a database finds in its files, wherever their writing stopped.
//!
//! The files change by one operation after the other, and the program that performs
//! them may stop after any of them. The relations here speak of all these points.
use vstd::prelude::*;

use crate::engine::bytes::{be32, be32_len, be32_round_trip};
use crate::engine::journal::{
    journal_header, journal_pages, marked_valid, offsets_fit, page_of, pages_in, record_content,
    record_count, record_page, record_start, records_ok, replay, resized, saved_page, write_at,
    Disk, FileOpView, JournalView, EXCLUSIVE_LOCK, JOURNAL_HEADER, JOURNAL_PAGE,
    JOURNAL_PAGE_COUNT, JOURNAL_VALID_BYTE, RESERVED_LOCK,
};
use crate::engine::node::PAGE_SIZE;
use crate::engine::journal::pages_fit;

verus! {

// -- What is found ---------------------------------------------

/// Whether the journal is marked as in use.
pub open spec fn in_use(d: Disk) -> bool {
    d.journal is Some && marked_valid(d.journal->0)
}

/// Whether the journal can be rolled back: it is in use and in order.
pub open spec fn rolls_back(d: Disk) -> bool {
    let j = d.journal->0;
    &&& in_use(d)
    &&& records_ok(j)
    &&& offsets_fit(j)
    &&& pages_fit(journal_pages(j) as int)
}

/// A database file once the first `n` records of a journal are written back.
pub open spec fn restored(db: Seq<u8>, j: Seq<u8>, n: nat) -> Seq<u8>
    decreases n,
{
    if n == 0 {
        db
    } else {
        write_at(
            restored(db, j, (n - 1) as nat),
            record_page(j, n - 1) * PAGE_SIZE,
            record_content(j, n - 1),
        )
    }
}

/// The database file once a journal that can be rolled back is rolled back.
pub open spec fn recovered(d: Disk) -> Seq<u8> {
    if rolls_back(d) {
        let j = d.journal->0;
        let db = restored(d.db, j, record_count(j));
        if journal_pages(j) != 0 {
            resized(db, journal_pages(j) * PAGE_SIZE)
        } else {
            db
        }
    } else {
        d.db
    }
}

/// The pages of the database that is opened on the files.
pub open spec fn found(d: Disk) -> Seq<Seq<u8>> {
    Seq::new(pages_in(recovered(d).len()) as nat, |p: int| page_of(recovered(d), p))
}

/// The byte at a place of a file, with zeros behind its end.
pub open spec fn byte_at(db: Seq<u8>, i: int) -> u8 {
    if i < db.len() {
        db[i]
    } else {
        0
    }
}

/// Writing a page changes the bytes of that page and no others.
proof fn write_at_bytes(db: Seq<u8>, q: u32, x: Seq<u8>, p: u32, o: int)
    requires
        x.len() == PAGE_SIZE,
        0 <= o < PAGE_SIZE,
    ensures
        byte_at(write_at(db, q * PAGE_SIZE, x), p * PAGE_SIZE + o) == (if p == q {
            x[o]
        } else {
            byte_at(db, p * PAGE_SIZE + o)
        }),
{
    let w = write_at(db, q * PAGE_SIZE, x);
    let i = p * PAGE_SIZE + o;
    if p < q {
        assert(i < q * PAGE_SIZE);
    } else if p > q {
        assert(i >= q * PAGE_SIZE + PAGE_SIZE);
    }
}

/// The bytes of a file once records are written back.
proof fn restored_bytes(db: Seq<u8>, j: Seq<u8>, n: nat, p: u32, o: int)
    requires
        n <= record_count(j),
        0 <= o < PAGE_SIZE,
    ensures
        byte_at(restored(db, j, n), p * PAGE_SIZE + o) == (match saved_page(j, n, p) {
            Some(c) => c[o],
            None => byte_at(db, p * PAGE_SIZE + o),
        }),
    decreases n,
{
    if n > 0 {
        restored_bytes(db, j, (n - 1) as nat, p, o);
        assert(record_start(n - 1) + JOURNAL_PAGE <= j.len());
        write_at_bytes(
            restored(db, j, (n - 1) as nat),
            record_page(j, n - 1),
            record_content(j, n - 1),
            p,
            o,
        );
    }
}

/// Whether two files agree on all pages, of the first `n`, that a journal does not save.
pub open spec fn agree_beside(x: Seq<u8>, y: Seq<u8>, j: Seq<u8>, n: int) -> bool {
    forall|p: u32, o: int|
        p < n && 0 <= o < PAGE_SIZE && saved_page(j, record_count(j), p) is None
            ==> #[trigger] byte_at(x, p * PAGE_SIZE + o) == byte_at(y, p * PAGE_SIZE + o)
}

/// What is recovered does not depend on the pages that the journal saves, nor on what
/// is behind the pages that it counts.
pub proof fn recovered_beside(x: Seq<u8>, y: Seq<u8>, j: Seq<u8>)
    requires
        rolls_back(Disk { db: x, journal: Some(j) }),
        journal_pages(j) != 0,
        agree_beside(x, y, j, journal_pages(j) as int),
    ensures
        recovered(Disk { db: x, journal: Some(j) }) == recovered(Disk { db: y, journal: Some(j) }),
{
    let n = record_count(j);
    let a = resized(restored(x, j, n), journal_pages(j) * PAGE_SIZE);
    let b = resized(restored(y, j, n), journal_pages(j) * PAGE_SIZE);
    assert forall|i: int| 0 <= i < a.len() implies a[i] == b[i] by {
        let p = (i / PAGE_SIZE as int) as u32;
        let o = i % PAGE_SIZE as int;
        assert(i == p * PAGE_SIZE + o && p < journal_pages(j) && 0 <= o < PAGE_SIZE)
            by (nonlinear_arith)
            requires
                0 <= i < journal_pages(j) * PAGE_SIZE,
                PAGE_SIZE == 4096,
                p == (i / PAGE_SIZE as int) as u32,
                o == i % PAGE_SIZE as int,
        ;
        restored_bytes(x, j, n, p, o);
        restored_bytes(y, j, n, p, o);
        assert(byte_at(restored(x, j, n), i) == byte_at(restored(y, j, n), i)) by {
            if saved_page(j, n, p) is None {
                assert(byte_at(x, p * PAGE_SIZE + o) == byte_at(y, p * PAGE_SIZE + o));
            }
        }
    }
    assert(a =~= b);
}

/// How far the first `n` records of a journal reach.
spec fn reach(j: Seq<u8>, n: nat) -> int
    decreases n,
{
    if n == 0 {
        0
    } else {
        let e = record_page(j, n - 1) * PAGE_SIZE + PAGE_SIZE;
        if e > reach(j, (n - 1) as nat) {
            e
        } else {
            reach(j, (n - 1) as nat)
        }
    }
}

proof fn restored_len(db: Seq<u8>, j: Seq<u8>, n: nat)
    requires
        n <= record_count(j),
    ensures
        restored(db, j, n).len() == (if reach(j, n) > db.len() {
            reach(j, n)
        } else {
            db.len() as int
        }),
    decreases n,
{
    if n > 0 {
        restored_len(db, j, (n - 1) as nat);
        assert(record_start(n - 1) + JOURNAL_PAGE <= j.len());
    }
}

proof fn reach_grows(j: Seq<u8>, k: nat, n: nat)
    requires
        k <= n,
    ensures
        reach(j, k) <= reach(j, n),
    decreases n,
{
    if k < n {
        reach_grows(j, k, (n - 1) as nat);
    }
}

proof fn saved_stays(j: Seq<u8>, k: nat, n: nat, p: u32)
    requires
        k <= n,
        saved_page(j, n, p) is None,
    ensures
        saved_page(j, k, p) is None,
    decreases n,
{
    if k < n {
        saved_stays(j, k, (n - 1) as nat, p);
    }
}

/// A rollback that stopped after `k` records is done by the next one.
pub proof fn restored_partly(db: Seq<u8>, j: Seq<u8>, k: nat)
    requires
        rolls_back(Disk { db, journal: Some(j) }),
        k <= record_count(j),
    ensures
        found(Disk { db: restored(db, j, k), journal: Some(j) }) == found(
            Disk { db, journal: Some(j) },
        ),
{
    let n = record_count(j);
    let part = restored(db, j, k);
    assert(agree_beside(part, db, j, 0x1_0000_0000)) by {
        assert forall|p: u32, o: int|
            0 <= o < PAGE_SIZE && saved_page(j, n, p) is None implies #[trigger] byte_at(
            part,
            p * PAGE_SIZE + o,
        ) == byte_at(db, p * PAGE_SIZE + o) by {
            restored_bytes(db, j, k, p, o);
            saved_stays(j, k, n, p);
        }
    }
    let d = Disk { db, journal: Some(j) };
    let e = Disk { db: part, journal: Some(j) };
    if journal_pages(j) != 0 {
        recovered_beside(part, db, j);
    } else {
        restored_len(db, j, n);
        restored_len(db, j, k);
        restored_len(part, j, n);
        reach_grows(j, k, n);
        let a = recovered(e);
        let b = recovered(d);
        assert(a.len() == b.len());
        assert forall|p: int| 0 <= p < pages_in(a.len()) implies page_of(a, p) == page_of(b, p) by {
            assert forall|o: int| 0 <= o < PAGE_SIZE implies #[trigger] a[p * PAGE_SIZE + o]
                == b[p * PAGE_SIZE + o] by {
                let q = p as u32;
                restored_bytes(part, j, n, q, o);
                restored_bytes(db, j, n, q, o);
                if saved_page(j, n, q) is None {
                    assert(byte_at(part, q * PAGE_SIZE + o) == byte_at(db, q * PAGE_SIZE + o));
                }
            }
            assert(page_of(a, p) =~= page_of(b, p)) by {
                assert forall|o: int| 0 <= o < PAGE_SIZE implies page_of(a, p)[o] == page_of(b, p)[o]
                    by {
                    assert(a[p * PAGE_SIZE + o] == b[p * PAGE_SIZE + o]);
                }
            }
        }
    }
    assert(found(e) =~= found(d));
}

/// A rollback that stopped once the file had its length again is done by the next one.
pub proof fn restored_and_cut(db: Seq<u8>, j: Seq<u8>)
    requires
        rolls_back(Disk { db, journal: Some(j) }),
        journal_pages(j) != 0,
    ensures
        ({
            let cut = resized(restored(db, j, record_count(j)), journal_pages(j) * PAGE_SIZE);
            found(Disk { db: cut, journal: Some(j) }) == found(Disk { db, journal: Some(j) })
        }),
{
    let n = record_count(j);
    let cut = resized(restored(db, j, n), journal_pages(j) * PAGE_SIZE);
    assert forall|p: u32, o: int|
        p < journal_pages(j) && 0 <= o < PAGE_SIZE && saved_page(j, n, p) is None implies
        #[trigger] byte_at(cut, p * PAGE_SIZE + o) == byte_at(db, p * PAGE_SIZE + o) by {
        restored_bytes(db, j, n, p, o);
        assert(p * PAGE_SIZE + o < journal_pages(j) * PAGE_SIZE);
    }
    recovered_beside(cut, db, j);
}

/// Writing a page that the journal saves, or that is behind those it counts, changes
/// nothing of what is found.
pub proof fn write_beside(db: Seq<u8>, j: Seq<u8>, p: u32, x: Seq<u8>)
    requires
        rolls_back(Disk { db, journal: Some(j) }),
        journal_pages(j) != 0,
        x.len() == PAGE_SIZE,
        saved_page(j, record_count(j), p) is Some || p >= journal_pages(j),
    ensures
        found(Disk { db: write_at(db, p * PAGE_SIZE, x), journal: Some(j) }) == found(
            Disk { db, journal: Some(j) },
        ),
{
    let w = write_at(db, p * PAGE_SIZE, x);
    assert forall|q: u32, o: int|
        q < journal_pages(j) && 0 <= o < PAGE_SIZE && saved_page(j, record_count(j), q) is None
            implies #[trigger] byte_at(w, q * PAGE_SIZE + o) == byte_at(db, q * PAGE_SIZE + o) by {
        write_at_bytes(db, p, x, q, o);
    }
    recovered_beside(w, db, j);
}

/// Giving the file another length that all counted pages have room in changes nothing
/// of what is found.
pub proof fn resize_beside(db: Seq<u8>, j: Seq<u8>, n: int)
    requires
        rolls_back(Disk { db, journal: Some(j) }),
        journal_pages(j) != 0,
        n >= journal_pages(j) * PAGE_SIZE,
    ensures
        found(Disk { db: resized(db, n), journal: Some(j) }) == found(
            Disk { db, journal: Some(j) },
        ),
{
    let w = resized(db, n);
    assert forall|q: u32, o: int|
        q < journal_pages(j) && 0 <= o < PAGE_SIZE && saved_page(j, record_count(j), q) is None
            implies #[trigger] byte_at(w, q * PAGE_SIZE + o) == byte_at(db, q * PAGE_SIZE + o) by {
        assert(q * PAGE_SIZE + o < journal_pages(j) * PAGE_SIZE);
    }
    recovered_beside(w, db, j);
}

// -- The operations of a call ----------------------------------

/// The files after the operations up to number `k`, of which those of `v` are done.
pub open spec fn disk_at(v: JournalView, w: JournalView, k: int) -> Disk {
    replay(v.disk, w.ops.subrange(v.ops.len() as int, k))
}

/// Whether `w` comes from `v` by further operations, which make of the files what the
/// images have become.
#[verifier::opaque]
pub open spec fn went_on(v: JournalView, w: JournalView) -> bool {
    &&& v.ops.len() <= w.ops.len()
    &&& w.ops.take(v.ops.len() as int) == v.ops
    &&& w.disk == disk_at(v, w, w.ops.len() as int)
}

/// Whether `w` comes from `v` by operations none of which changes what is found.
#[verifier::opaque]
pub open spec fn unharmed(v: JournalView, w: JournalView) -> bool {
    &&& went_on(v, w)
    &&& forall|k: int|
        v.ops.len() <= k <= w.ops.len() ==> found(#[trigger] disk_at(v, w, k)) == found(v.disk)
}

/// Whether `w` comes from `v` by operations after each of which what `v` has or what `w`
/// has is found.
#[verifier::opaque]
pub open spec fn settles(v: JournalView, w: JournalView) -> bool {
    &&& went_on(v, w)
    &&& forall|k: int|
        v.ops.len() <= k <= w.ops.len() ==> found(#[trigger] disk_at(v, w, k)) == found(v.disk)
            || found(disk_at(v, w, k)) == found(w.disk)
}

/// Whether the journal has no records yet and counts the pages of an earlier
/// transaction, which is so for one moment while it is emptied.
pub open spec fn counts_earlier_pages(d: Disk) -> bool {
    let j = d.journal->0;
    &&& rolls_back(d)
    &&& record_count(j) == 0
    &&& journal_pages(j) != 0
    &&& journal_pages(j) != pages_in(d.db.len())
}

/// Whether `w` comes from `v` by operations none of which changes what is found, but
/// for the moment when the journal counts the pages of an earlier transaction.
#[verifier::opaque]
pub open spec fn started(v: JournalView, w: JournalView) -> bool {
    &&& went_on(v, w)
    &&& found(w.disk) == found(v.disk)
    &&& forall|k: int|
        v.ops.len() <= k <= w.ops.len() ==> found(#[trigger] disk_at(v, w, k)) == found(v.disk)
            || counts_earlier_pages(disk_at(v, w, k))
}

proof fn replay_add(d: Disk, a: Seq<FileOpView>, b: Seq<FileOpView>)
    ensures
        replay(d, a + b) == replay(replay(d, a), b),
    decreases b.len(),
{
    if b.len() == 0 {
        assert(a + b =~= a);
    } else {
        replay_add(d, a, b.drop_last());
        assert((a + b).drop_last() =~= a + b.drop_last());
        assert((a + b).last() == b.last());
    }
}

/// The points between the first and the last of three states.
proof fn disk_between(a: JournalView, b: JournalView, c: JournalView, k: int)
    requires
        went_on(a, b),
        went_on(b, c),
        a.ops.len() <= k <= c.ops.len(),
    ensures
        k <= b.ops.len() ==> disk_at(a, c, k) == disk_at(a, b, k),
        k >= b.ops.len() ==> disk_at(a, c, k) == disk_at(b, c, k),
        went_on(a, c),
{
    reveal(went_on);
    let n = a.ops.len() as int;
    let m = b.ops.len() as int;
    assert forall|i: int| 0 <= i < m implies b.ops[i] == c.ops[i] by {
        assert(c.ops.take(m)[i] == c.ops[i]);
    }
    assert(c.ops.take(n) =~= b.ops.take(n));
    if k <= m {
        assert(c.ops.subrange(n, k) =~= b.ops.subrange(n, k));
    }
    if k >= m {
        assert(c.ops.subrange(n, k) =~= b.ops.subrange(n, m) + c.ops.subrange(m, k));
        replay_add(a.disk, b.ops.subrange(n, m), c.ops.subrange(m, k));
    }
    let e = c.ops.len() as int;
    assert(c.ops.subrange(n, e) =~= b.ops.subrange(n, m) + c.ops.subrange(m, e));
    replay_add(a.disk, b.ops.subrange(n, m), c.ops.subrange(m, e));
}

/// The first and the last point.
proof fn disk_ends(v: JournalView, w: JournalView)
    requires
        went_on(v, w),
    ensures
        disk_at(v, w, v.ops.len() as int) == v.disk,
        disk_at(v, w, w.ops.len() as int) == w.disk,
        v.ops.len() <= w.ops.len(),
{
    reveal(went_on);
    assert(w.ops.subrange(v.ops.len() as int, v.ops.len() as int) =~= seq![]);
}

/// Without operations nothing has changed.
pub broadcast proof fn unharmed_without_ops(v: JournalView, w: JournalView)
    requires
        w.ops == v.ops,
        w.disk == v.disk,
    ensures
        #[trigger] unharmed(v, w),
{
    reveal(went_on);
    reveal(unharmed);
    assert(w.ops.take(v.ops.len() as int) =~= v.ops);
    assert(w.ops.subrange(v.ops.len() as int, v.ops.len() as int) =~= seq![]);
}

pub broadcast proof fn unharmed_goes_on(v: JournalView, w: JournalView)
    requires
        #[trigger] unharmed(v, w),
    ensures
        went_on(v, w),
        found(w.disk) == found(v.disk),
{
    reveal(unharmed);
    disk_ends(v, w);
    assert(found(disk_at(v, w, w.ops.len() as int)) == found(v.disk));
}

pub broadcast proof fn unharmed_transitive(a: JournalView, b: JournalView, c: JournalView)
    requires
        #[trigger] unharmed(a, b),
        #[trigger] unharmed(b, c),
    ensures
        unharmed(a, c),
{
    reveal(unharmed);
    disk_ends(a, b);
    disk_ends(b, c);
    disk_between(a, b, c, b.ops.len() as int);
    assert(found(b.disk) == found(disk_at(a, b, b.ops.len() as int)));
    assert forall|k: int| a.ops.len() <= k <= c.ops.len() implies found(#[trigger] disk_at(a, c, k))
        == found(a.disk) by {
        disk_between(a, b, c, k);
        if k <= b.ops.len() {
            assert(found(disk_at(a, b, k)) == found(a.disk));
        } else {
            assert(found(disk_at(b, c, k)) == found(b.disk));
        }
    }
}

pub broadcast proof fn went_on_transitive(a: JournalView, b: JournalView, c: JournalView)
    requires
        #[trigger] went_on(a, b),
        #[trigger] went_on(b, c),
    ensures
        went_on(a, c),
{
    disk_ends(a, b);
    disk_ends(b, c);
    disk_between(a, b, c, b.ops.len() as int);
}

pub broadcast proof fn settles_goes_on(v: JournalView, w: JournalView)
    requires
        #[trigger] settles(v, w),
    ensures
        went_on(v, w),
{
    reveal(settles);
}

pub broadcast proof fn settles_after(a: JournalView, b: JournalView, c: JournalView)
    requires
        #[trigger] unharmed(a, b),
        #[trigger] settles(b, c),
    ensures
        settles(a, c),
{
    reveal(unharmed);
    reveal(settles);
    disk_ends(a, b);
    disk_ends(b, c);
    disk_between(a, b, c, b.ops.len() as int);
    assert(found(b.disk) == found(disk_at(a, b, b.ops.len() as int)));
    assert forall|k: int| a.ops.len() <= k <= c.ops.len() implies found(#[trigger] disk_at(a, c, k))
        == found(a.disk) || found(disk_at(a, c, k)) == found(c.disk) by {
        disk_between(a, b, c, k);
        if k <= b.ops.len() {
            assert(found(disk_at(a, b, k)) == found(a.disk));
        } else {
            assert(found(disk_at(b, c, k)) == found(b.disk) || found(disk_at(b, c, k)) == found(
                c.disk,
            ));
        }
    }
}

pub broadcast proof fn started_goes_on(v: JournalView, w: JournalView)
    requires
        #[trigger] started(v, w),
    ensures
        went_on(v, w),
        found(w.disk) == found(v.disk),
{
    reveal(started);
}

/// How calls follow one another.
pub broadcast group group_calls {
    unharmed_without_ops,
    unharmed_goes_on,
    unharmed_transitive,
    went_on_transitive,
    settles_goes_on,
    settles_after,
    started_goes_on,
}

/// One more operation.
pub proof fn one_more(v: JournalView, w: JournalView, op: FileOpView)
    requires
        w.ops == v.ops.push(op),
        w.disk == crate::engine::journal::apply(v.disk, op),
    ensures
        went_on(v, w),
        found(w.disk) == found(v.disk) ==> unharmed(v, w),
{
    reveal(went_on);
    reveal(unharmed);
    let n = v.ops.len() as int;
    assert(w.ops.take(n) =~= v.ops);
    assert(w.ops.subrange(n, n) =~= seq![]);
    assert(w.ops.subrange(n, n + 1) =~= seq![op]);
    assert(seq![op].drop_last() =~= seq![]);
    assert(replay(v.disk, seq![]) == v.disk);
    assert(disk_at(v, w, n + 1) == w.disk);
    assert(disk_at(v, w, n) == v.disk);
    if found(w.disk) == found(v.disk) {
        assert forall|k: int| n <= k <= n + 1 implies found(#[trigger] disk_at(v, w, k)) == found(
            v.disk,
        ) by {
            assert(k == n || k == n + 1);
        }
    }
}

/// Operations of which one changes what is found.
pub proof fn settles_in_one(a: JournalView, b: JournalView, c: JournalView, op: FileOpView)
    requires
        unharmed(a, b),
        unharmed(b.then_op(op), c),
    ensures
        settles(a, c),
{
    let m = b.then_op(op);
    one_more(b, m, op);
    reveal(settles);
    reveal(unharmed);
    disk_ends(a, b);
    disk_ends(b, m);
    disk_ends(m, c);
    disk_between(a, b, m, b.ops.len() as int);
    disk_between(a, m, c, m.ops.len() as int);
    assert(found(c.disk) == found(disk_at(m, c, c.ops.len() as int)));
    assert forall|k: int| a.ops.len() <= k <= c.ops.len() implies found(#[trigger] disk_at(a, c, k))
        == found(a.disk) || found(disk_at(a, c, k)) == found(c.disk) by {
        disk_between(a, m, c, k);
        if k <= b.ops.len() {
            disk_between(a, b, m, k);
            assert(found(disk_at(a, b, k)) == found(a.disk));
        } else {
            assert(found(disk_at(m, c, k)) == found(m.disk));
        }
    }
}

/// Whether an operation leaves the contents of both files.
pub open spec fn is_quiet(op: FileOpView) -> bool {
    op is SyncDb || op is SyncJournal || op is LockShared || op is LockExclusive || op is Unlock
}

/// An operation that leaves the contents of both files.
pub proof fn quiet(v: JournalView, op: FileOpView)
    requires
        is_quiet(op),
    ensures
        unharmed(v, v.then_op(op)),
{
    one_more(v, v.then_op(op), op);
}

/// The locks leave the contents of both files.
pub proof fn locks_are_quiet(v: JournalView)
    ensures
        unharmed(v, v.exclusive()),
        unharmed(v, v.reading()),
        unharmed(v, v.reserved()),
        unharmed(v, v.released()),
{
    broadcast use group_calls;

    let pending = FileOpView::LockExclusive { byte: 0 };
    let a = v.then_op(pending);
    quiet(v, pending);
    let off = FileOpView::Unlock { byte: 2 };
    quiet(a, off);
    let shut = FileOpView::LockExclusive { byte: 2 };
    quiet(a, shut);
    quiet(a.then_op(off), shut);
    assert(unharmed(a.then_op(off).then_op(shut), v.exclusive()) || unharmed(
        a.then_op(shut),
        v.exclusive(),
    ) || v.exclusive() == v);
    let read = FileOpView::LockShared { byte: 2 };
    quiet(a, read);
    quiet(a.then_op(read), FileOpView::Unlock { byte: 0 });
    assert(unharmed(
        a.then_op(read).then_op(FileOpView::Unlock { byte: 0 }),
        v.reading(),
    ) || v.reading() == v);
    let alone = FileOpView::LockExclusive { byte: 1 };
    quiet(v, alone);
    assert(unharmed(v.then_op(alone), v.reserved()) || v.reserved() == v);
    quiet(v, off);
    let b = v.then_op(off);
    quiet(b, FileOpView::Unlock { byte: 1 });
    let c = b.then_op(FileOpView::Unlock { byte: 1 });
    quiet(c, FileOpView::Unlock { byte: 0 });
    assert(unharmed(c.then_op(FileOpView::Unlock { byte: 0 }), v.released()) || unharmed(
        c,
        v.released(),
    ));
}

// -- Rolling back ----------------------------------------------

/// After a journal was rolled back: the saved pages are written back and the file has
/// its length again before the journal goes out of use.
pub open spec fn undone(v: JournalView) -> JournalView {
    let f = v.file();
    let a = v.reserved().exclusive().written_back(record_count(f));
    let b = if journal_pages(f) != 0 {
        a.then_op(FileOpView::SetDbLen { len: journal_pages(f) * PAGE_SIZE })
    } else {
        a
    };
    b.then_op(FileOpView::SyncDb).invalidated().released()
}

/// After a look at the journal: one that can be rolled back is, and one that is in use
/// but not in order is deleted.
pub open spec fn examined(v: JournalView) -> JournalView {
    if rolls_back(v.disk) {
        undone(v)
    } else if in_use(v.disk) {
        v.reserved().exclusive().deleted().released()
    } else {
        v
    }
}

/// Writing saved pages back changes nothing of what is found.
proof fn written_back_unharmed(v: JournalView, n: nat)
    requires
        rolls_back(v.disk),
        n <= record_count(v.file()),
    ensures
        v.written_back(n).disk == (Disk { db: restored(v.disk.db, v.file(), n), ..v.disk }),
        unharmed(v, v.written_back(n)),
    decreases n,
{
    broadcast use group_calls;

    if n > 0 {
        let k = (n - 1) as nat;
        written_back_unharmed(v, k);
        restored_partly(v.disk.db, v.file(), k);
        restored_partly(v.disk.db, v.file(), n);
        let m = v.written_back(k);
        let w = v.written_back(n);
        one_more(
            m,
            w,
            FileOpView::WriteDb {
                offset: record_page(v.file(), n - 1) * PAGE_SIZE,
                bytes: record_content(v.file(), n - 1),
            },
        );
        assert(v.disk == (Disk { db: v.disk.db, journal: Some(v.file()) }));
    }
}

/// Taking the journal out of use makes what is in the file found.
pub proof fn out_of_use(v: JournalView)
    requires
        in_use(v.disk),
    ensures
        v.invalidated().disk.db == v.disk.db,
        !in_use(v.invalidated().disk),
        v.invalidated().disk.journal is Some,
        recovered(v.invalidated().disk) == v.disk.db,
        ({
            let op = FileOpView::WriteJournal { offset: 16, bytes: seq![0u8] };
            unharmed(v.then_op(op), v.invalidated()) && found(v.then_op(op).disk) == found(
                v.invalidated().disk,
            )
        }),
{
    broadcast use group_calls;

    let op = FileOpView::WriteJournal { offset: 16, bytes: seq![0u8] };
    let m = v.then_op(op);
    let j = m.disk.journal->0;
    assert(j == write_at(v.file(), 16, seq![0u8]));
    assert(j[16] == 0);
    quiet(m, FileOpView::SyncJournal);
    assert(unharmed(m.then_op(FileOpView::SyncJournal), v.invalidated()));
}

/// A look at the journal changes nothing of what is found, and leaves it in the file.
pub proof fn examined_unharmed(v: JournalView)
    ensures
        unharmed(v, examined(v)),
        examined(v).disk.db == recovered(v.disk),
        !in_use(examined(v).disk),
        recovered(examined(v).disk) == recovered(v.disk),
{
    broadcast use group_calls;

    locks_are_quiet(v);
    let u = v.reserved();
    locks_are_quiet(u);
    let e = u.exclusive();
    assert(e.disk == v.disk);
    if rolls_back(v.disk) {
        let f = v.file();
        let a = e.written_back(record_count(f));
        written_back_unharmed(e, record_count(f));
        let len = FileOpView::SetDbLen { len: journal_pages(f) * PAGE_SIZE };
        let b = if journal_pages(f) != 0 {
            a.then_op(len)
        } else {
            a
        };
        assert(v.disk == (Disk { db: v.disk.db, journal: Some(f) }));
        if journal_pages(f) != 0 {
            restored_and_cut(v.disk.db, f);
            assert(found(b.disk) == found(v.disk));
            one_more(a, b, len);
        }
        assert(unharmed(v, b));
        assert(b.disk.db == recovered(v.disk));
        let s = b.then_op(FileOpView::SyncDb);
        quiet(b, FileOpView::SyncDb);
        out_of_use(s);
        let op = FileOpView::WriteJournal { offset: 16, bytes: seq![0u8] };
        assert(found(s.then_op(op).disk) =~= found(v.disk));
        one_more(s, s.then_op(op), op);
        locks_are_quiet(s.invalidated());
        assert(s.invalidated().released().disk == s.invalidated().disk);
    } else if in_use(v.disk) {
        let m = e.then_op(FileOpView::DeleteJournal);
        assert(found(m.disk) =~= found(e.disk));
        one_more(e, m, FileOpView::DeleteJournal);
        assert(unharmed(m, e.deleted()));
        locks_are_quiet(e.deleted());
        assert(e.deleted().released().disk == e.deleted().disk);
    }
}

// -- Beginning -------------------------------------------------

/// A file cut to the pages that are counted in it has the same pages.
proof fn cut_to_count(db: Seq<u8>)
    ensures
        ({
            let n = pages_in(db.len());
            let x = resized(db, n * PAGE_SIZE);
            &&& pages_in(x.len()) == n
            &&& forall|p: int| 0 <= p < n ==> #[trigger] page_of(x, p) == page_of(db, p)
        }),
{
    let n = pages_in(db.len());
    let x = resized(db, n * PAGE_SIZE);
    assert(0 <= n < 0x10_0000 && n * PAGE_SIZE <= db.len());
    assert(x.len() == n * PAGE_SIZE);
    assert((n * PAGE_SIZE) % 0x1_0000_0000 == n * PAGE_SIZE);
    assert forall|p: int| 0 <= p < n implies #[trigger] page_of(x, p) == page_of(db, p) by {
        assert(page_of(x, p) =~= page_of(db, p));
    }
}

/// An empty journal changes nothing of what is found, unless it counts other pages.
proof fn empty_journal_found(db: Seq<u8>, j: Seq<u8>)
    requires
        record_count(j) == 0,
    ensures
        ({
            let d = Disk { db, journal: Some(j) };
            found(d) == found(Disk { db, journal: None }) || counts_earlier_pages(d)
        }),
{
    let d = Disk { db, journal: Some(j) };
    if rolls_back(d) && journal_pages(j) == pages_in(db.len()) {
        cut_to_count(db);
        assert(restored(db, j, 0) == db);
        assert(found(d) =~= found(Disk { db, journal: None }));
    } else if !counts_earlier_pages(d) {
        assert(recovered(d) == db);
        assert(found(d) =~= found(Disk { db, journal: None }));
    }
}

/// Operations that change nothing of what is found start a transaction.
pub proof fn unharmed_starts(v: JournalView, w: JournalView)
    requires
        unharmed(v, w),
    ensures
        started(v, w),
{
    reveal(unharmed);
    reveal(started);
    unharmed_goes_on(v, w);
}

/// Operations of which one is followed by another moment.
proof fn started_in_two(
    a: JournalView,
    b: JournalView,
    op: FileOpView,
    op2: FileOpView,
    c: JournalView,
)
    requires
        unharmed(a, b),
        found(b.then_op(op).disk) == found(a.disk) || counts_earlier_pages(b.then_op(op).disk),
        found(b.then_op(op).then_op(op2).disk) == found(a.disk),
        unharmed(b.then_op(op).then_op(op2), c),
    ensures
        started(a, c),
{
    let m = b.then_op(op);
    let n = m.then_op(op2);
    one_more(b, m, op);
    one_more(m, n, op2);
    reveal(unharmed);
    reveal(started);
    disk_ends(a, b);
    disk_ends(b, m);
    disk_ends(m, n);
    disk_ends(n, c);
    disk_between(a, b, m, b.ops.len() as int);
    disk_between(a, m, n, m.ops.len() as int);
    disk_between(a, n, c, n.ops.len() as int);
    assert(found(c.disk) == found(disk_at(n, c, c.ops.len() as int)));
    assert forall|k: int| a.ops.len() <= k <= c.ops.len() implies found(#[trigger] disk_at(a, c, k))
        == found(a.disk) || counts_earlier_pages(disk_at(a, c, k)) by {
        disk_between(a, n, c, k);
        if k <= b.ops.len() {
            disk_between(a, m, n, k);
            disk_between(a, b, m, k);
            assert(found(disk_at(a, b, k)) == found(a.disk));
        } else if k == m.ops.len() {
            disk_between(a, m, n, k);
            disk_between(a, b, m, k);
        } else {
            assert(found(disk_at(n, c, k)) == found(n.disk));
        }
    }
}

/// A write transaction on a database at rest starts.
pub proof fn writing_starts(v: JournalView, pages: u32)
    requires
        !in_use(v.disk),
        pages == pages_in(v.disk.db.len()),
        pages > 0,
        v.lock != RESERVED_LOCK,
        v.lock != EXCLUSIVE_LOCK,
    ensures
        started(v, v.writing(pages)),
{
    broadcast use group_calls;
    broadcast use be32_len;

    locks_are_quiet(v);
    let a = JournalView { saved: seq![], ..v.reserved() };
    assert(unharmed(v.reserved(), a));
    let db = v.disk.db;
    assert(a.disk == v.disk);
    assert(found(v.disk) =~= found(Disk { db, journal: None }));
    if v.is_open() {
        let cut = FileOpView::SetJournalLen { len: JOURNAL_HEADER as int };
        let mark = FileOpView::WriteJournal { offset: JOURNAL_VALID_BYTE as int, bytes: seq![1u8] };
        let count = FileOpView::WriteJournal {
            offset: JOURNAL_PAGE_COUNT as int,
            bytes: be32(pages),
        };
        let b = a.then_op(cut);
        assert(!marked_valid(b.file()));
        assert(found(b.disk) =~= found(v.disk));
        one_more(a, b, cut);
        let m = b.then_op(mark);
        assert(m.file().len() == JOURNAL_HEADER);
        assert(m.disk == (Disk { db, journal: Some(m.file()) }));
        empty_journal_found(db, m.file());
        let n = m.then_op(count);
        assert(n.file().len() == JOURNAL_HEADER);
        assert(n.file().subrange(20, 24) =~= be32(pages));
        be32_round_trip(n.file(), 20, pages);
        assert(n.disk == (Disk { db, journal: Some(n.file()) }));
        empty_journal_found(db, n.file());
        let e = n.then_op(FileOpView::SyncJournal);
        quiet(n, FileOpView::SyncJournal);
        assert(unharmed(e, v.writing(pages)));
        started_in_two(v, b, mark, count, v.writing(pages));
    } else {
        let h = journal_header(pages);
        let make = FileOpView::CreateJournal { bytes: h };
        let b = a.then_op(make);
        assert(h.len() == JOURNAL_HEADER);
        assert(h.subrange(20, 24) =~= be32(pages));
        be32_round_trip(h, 20, pages);
        assert(b.disk == (Disk { db, journal: Some(h) }));
        empty_journal_found(db, h);
        one_more(a, b, make);
        assert(unharmed(b, v.writing(pages)));
        unharmed_starts(v, v.writing(pages));
    }
}

/// The locks that are released before a transaction begins change nothing.
pub proof fn started_after(a: JournalView, b: JournalView, c: JournalView)
    requires
        unharmed(a, b),
        started(b, c),
    ensures
        started(a, c),
{
    reveal(unharmed);
    reveal(started);
    disk_ends(a, b);
    disk_ends(b, c);
    disk_between(a, b, c, b.ops.len() as int);
    assert(found(b.disk) == found(disk_at(a, b, b.ops.len() as int)));
    assert forall|k: int| a.ops.len() <= k <= c.ops.len() implies found(#[trigger] disk_at(a, c, k))
        == found(a.disk) || counts_earlier_pages(disk_at(a, c, k)) by {
        disk_between(a, b, c, k);
        if k <= b.ops.len() {
            assert(found(disk_at(a, b, k)) == found(a.disk));
        } else {
            assert(found(disk_at(b, c, k)) == found(b.disk) || counts_earlier_pages(
                disk_at(b, c, k),
            ));
        }
    }
}

// -- The files -------------------------------------------------

/// The files are what the operations make of them, after a call as before it.
pub proof fn went_on_follows(v: JournalView, w: JournalView, d: Disk)
    requires
        went_on(v, w),
        v.follows(d),
    ensures
        w.follows(d),
        v.ops.is_prefix_of(w.ops),
        forall|k: int|
            v.ops.len() <= k <= w.ops.len() ==> replay(d, #[trigger] w.ops.take(k)) == disk_at(
                v,
                w,
                k,
            ),
{
    reveal(went_on);
    let n = v.ops.len() as int;
    assert forall|k: int| n <= k <= w.ops.len() implies replay(d, #[trigger] w.ops.take(k))
        == disk_at(v, w, k) by {
        assert(w.ops.take(k) =~= v.ops + w.ops.subrange(n, k)) by {
            assert(w.ops.take(n) == v.ops);
        }
        replay_add(d, v.ops, w.ops.subrange(n, k));
    }
    assert(w.ops.take(w.ops.len() as int) =~= w.ops);
    assert(replay(d, w.ops.take(w.ops.len() as int)) == disk_at(v, w, w.ops.len() as int));
}

/// Handing out the operations begins them anew.
pub proof fn handed_out_follows(v: JournalView, d: Disk)
    requires
        v.follows(d),
    ensures
        (JournalView { ops: seq![], ..v }).follows(replay(d, v.ops)),
{
}

} // verus!
