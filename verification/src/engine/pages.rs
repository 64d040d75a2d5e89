//! The page cache.
//!
//! Pages are read into a cache and written back when it runs full or when the
//! transaction ends. Before a page is changed for the first time in a
//! transaction, the journal saves it.
use vstd::prelude::*;

use crate::engine::bytes::{be32, be32_at, be32_len, be32_round_trip, zeros};
use crate::engine::journal::{
    has_page, journal_pages, marked_valid, page_of, pages_fit, pages_in, record_bytes,
    record_checksum, record_content, record_count, record_page, record_start, records_ok,
    restored_page, saved_page, write_at, xor_all, Disk, FileOpView, Journal, JournalView,
    EXCLUSIVE_LOCK, NONE_LOCK, JOURNAL_HEADER, JOURNAL_PAGE, JOURNAL_PAGE_COUNT, JOURNAL_VALID_BYTE,
    RESERVED_LOCK,
};
use crate::engine::node::PAGE_SIZE;
use crate::engine::recovery::{
    examined, examined_unharmed, found, group_calls, in_use, locks_are_quiet, one_more, out_of_use,
    quiet, recovered, resize_beside, restored, rolls_back, settles, settles_in_one, started,
    started_after, undone, unharmed, went_on, write_beside, writing_starts,
};

verus! {

broadcast use group_calls;

/// Flag of a page that holds nothing yet.
pub const PAGE_EMPTY: u32 = 1;

/// What the pager is doing.
#[derive(Clone, Copy, PartialEq, Eq, Structural, Debug)]
pub enum PagerState {
    Start,
    Read,
    Writebuf,
    Writefile,
}

/// A page in the cache.
#[derive(Debug)]
pub struct PageInfo {
    pub refcnt: u64,
    pub inner: PageInfoInner,
}

/// A page's number, flags and bytes, and whether it has to be written back.
#[derive(Debug)]
pub struct PageInfoInner {
    pub dirty: bool,
    pub pgno: u32,
    pub flags: u32,
    pub data: Vec<u8>,
}

impl PageInfo {
    /// A clean page that nobody uses.
    pub fn new(pgno: u32, flags: u32, data: Vec<u8>) -> (r: Self)
        ensures
            r.refcnt == 0,
            !r.inner.dirty,
            r.inner.pgno == pgno,
            r.inner.flags == flags,
            r.inner.data == data,
    {
        PageInfo { refcnt: 0, inner: PageInfoInner { dirty: false, pgno, flags, data } }
    }

    /// Gives the page another number and returns the old one.
    pub fn fetchkey_rekey(&mut self, pgno: u32) -> (r: u32)
        ensures
            r == old(self).inner.pgno,
            *final(self) == (PageInfo {
                inner: PageInfoInner { pgno, ..old(self).inner },
                ..*old(self)
            }),
    {
        let old_no: u32 = self.inner.pgno;
        self.inner.pgno = pgno;
        old_no
    }

    /// The bytes of the page, for writing.
    pub fn data_write(&mut self) -> (r: &mut Vec<u8>)
        ensures
            *r == old(self).inner.data,
            *final(self) == (PageInfo {
                inner: PageInfoInner { data: *final(r), ..old(self).inner },
                ..*old(self)
            }),
    {
        &mut self.inner.data
    }

    /// The bytes of the page.
    pub fn data_read(&self) -> (r: &[u8])
        ensures
            r@ == self.inner.data@,
    {
        self.inner.data.as_slice()
    }

    /// The number of the page.
    pub fn pgno(&self) -> (r: u32)
        ensures
            r == self.inner.pgno,
    {
        self.inner.pgno
    }

    /// The flags of the page.
    pub fn flags(&self) -> (r: u32)
        ensures
            r == self.inner.flags,
    {
        self.inner.flags
    }
}

/// The cache of pages over the files.
pub struct Pager {
    pub dbname: String,
    pub state: PagerState,
    pub journal: Journal,
    pub lru: Vec<u32>,
    pub pinned_pages: u64,
    pub initial_pages: u32,
    pub initial_len: usize,
    pub total_pages: u32,
    pub max_pinned: u64,
    pub max_pages: usize,
    pub pages_hash: Vec<PageInfo>,
    pub modified: Vec<u32>,
    pub in_write: bool,
}

/// Whether no page is twice in the cache.
pub open spec fn distinct(c: Seq<PageInfo>) -> bool {
    forall|i: int, j: int|
        0 <= i < j < c.len() ==> (#[trigger] c[i]).inner.pgno != (#[trigger] c[j]).inner.pgno
}

/// Whether `i` is where the cache has page `p`.
pub open spec fn is_slot(c: Seq<PageInfo>, p: u32, i: int) -> bool {
    0 <= i < c.len() && c[i].inner.pgno == p
}

/// Whether page `p` is in the cache.
pub open spec fn is_cached(c: Seq<PageInfo>, p: u32) -> bool {
    exists|i: int| is_slot(c, p, i)
}

/// Whether page `p` is in the cache and nobody uses it.
pub open spec fn unused(c: Seq<PageInfo>, p: u32) -> bool {
    exists|i: int| #[trigger] is_slot(c, p, i) && c[i].refcnt == 0
}

/// Whether page `p` is in the cache and has to be written back.
pub open spec fn is_dirty(c: Seq<PageInfo>, p: u32) -> bool {
    exists|i: int| #[trigger] is_slot(c, p, i) && c[i].inner.dirty
}

/// Number of pages of the cache that are in use.
pub open spec fn pinned(c: Seq<PageInfo>) -> nat
    decreases c.len(),
{
    if c.len() == 0 {
        0
    } else {
        pinned(c.drop_last()) + (if c.last().refcnt > 0 {
            1nat
        } else {
            0
        })
    }
}

/// Number of users of page `p`.
pub open spec fn users(c: Seq<PageInfo>, p: u32) -> int {
    if is_cached(c, p) {
        c[choose|i: int| is_slot(c, p, i)].refcnt as int
    } else {
        0
    }
}

/// After those of the first `n` pages of a cache that have to be were written to the file.
pub open spec fn flushed(v: JournalView, c: Seq<PageInfo>, n: nat) -> JournalView
    decreases n,
{
    if n == 0 {
        v
    } else {
        let w = flushed(v, c, (n - 1) as nat);
        let x = c[n - 1].inner;
        if x.dirty {
            w.page_written(x.pgno, x.data@)
        } else {
            w
        }
    }
}

impl Pager {
    /// The bytes of page `p` as the database now has them, be they in the cache
    /// or in the file.
    pub open spec fn content(&self, p: u32) -> Seq<u8> {
        if is_cached(self.pages_hash@, p) {
            self.pages_hash@[choose|i: int| is_slot(self.pages_hash@, p, i)].inner.data@
        } else {
            page_of(self.journal@.disk.db, p as int)
        }
    }

    /// The bytes of page `p` before the transaction: what a rollback, now or
    /// after a crash, makes of the page.
    pub open spec fn committed(&self, p: u32) -> Seq<u8> {
        let f = self.journal@.file();
        restored_page(self.journal@.disk.db, f, record_count(f), p)
    }

    /// Whether the journal has saved all that a rollback needs.
    pub open spec fn saves(&self) -> bool {
        let f = self.journal@.file();
        &&& self.journal@.is_open()
        &&& self.initial_pages > 0
        &&& f.len() == record_start(self.modified@.len() as int)
        &&& record_count(f) == self.modified@.len()
        &&& self.journal@.pos == f.len()
        &&& self.journal@.saved == self.modified@
        &&& marked_valid(f)
        &&& records_ok(f)
        &&& journal_pages(f) == self.initial_pages
        &&& self.initial_pages * PAGE_SIZE <= self.initial_len <= self.journal@.disk.db.len()
        &&& self.modified@.no_duplicates()
        &&& forall|i: int|
            0 <= i < self.modified@.len() ==> record_page(f, i) == #[trigger] self.modified@[i]
                && self.modified@[i] < self.initial_pages
    }

    /// Whether page `p` of the cache is as it should be.
    pub open spec fn slot_ok(&self, i: int) -> bool {
        let x = self.pages_hash@[i].inner;
        &&& x.data@.len() == PAGE_SIZE
        &&& pages_fit(x.pgno + 1)
        &&& x.dirty ==> self.in_write && (self.modified@.contains(x.pgno) || x.pgno
            >= self.initial_pages)
        &&& !x.dirty && x.pgno < self.total_pages ==> x.pgno * PAGE_SIZE + PAGE_SIZE
            <= self.journal@.disk.db.len() && x.data@ == page_of(
            self.journal@.disk.db,
            x.pgno as int,
        )
    }

    /// The invariant of the cache.
    pub open spec fn wf(&self) -> bool {
        let c = self.pages_hash@;
        &&& distinct(c)
        &&& forall|i: int| 0 <= i < c.len() ==> #[trigger] self.slot_ok(i)
        &&& self.lru@.no_duplicates()
        &&& forall|k: int|
            0 <= k < self.lru@.len() ==> unused(c, #[trigger] self.lru@[k])
        &&& self.pinned_pages == pinned(c)
        &&& pages_fit(self.total_pages as int)
        &&& self.initial_pages <= self.total_pages
        &&& forall|p: u32|
            p < self.total_pages && !(#[trigger] is_cached(c, p)) ==> p * PAGE_SIZE + PAGE_SIZE
                <= self.journal@.disk.db.len()
        &&& self.in_write ==> self.saves()
        &&& !self.in_write ==> self.modified@.len() == 0 && self.initial_pages == self.total_pages
    }

    /// Whether both hold the same pages.
    pub open spec fn same_pages(&self, o: &Pager) -> bool {
        &&& self.total_pages == o.total_pages
        &&& forall|p: u32| p < self.total_pages ==> #[trigger] self.content(p) == o.content(p)
    }

    /// Whether this pager comes from `o` in one transaction, whose locks are kept.
    pub open spec fn same_transaction(&self, o: &Pager) -> bool {
        &&& self.same_rollback(o)
        &&& self.journal@.lock == o.journal@.lock || self.journal@.lock == EXCLUSIVE_LOCK
            || o.journal@.lock == NONE_LOCK
    }

    /// Whether this pager comes from `o` so that a rollback gives the same, and so do the
    /// files wherever their writing stopped between the two.
    pub open spec fn same_rollback(&self, o: &Pager) -> bool {
        &&& self.in_write == o.in_write
        &&& self.initial_pages == o.initial_pages
        &&& self.initial_len == o.initial_len
        &&& unharmed(o.journal@, self.journal@)
        &&& self.in_write ==> forall|p: u32|
            p < self.initial_pages ==> #[trigger] self.committed(p) == o.committed(p)
    }

    /// Whether no transaction is under way and the pages of the file are the pages.
    pub open spec fn at_rest(&self) -> bool {
        &&& !self.in_write
        &&& !in_use(self.journal@.disk)
        &&& self.total_pages == pages_in(self.journal@.disk.db.len())
    }

    /// Whether the transaction began with all whole pages of the file counted.
    pub open spec fn counts_all(&self) -> bool {
        self.in_write && self.initial_len < self.initial_pages * PAGE_SIZE + PAGE_SIZE
    }

    /// The length of the file once the transaction is ended: all pages have room, and
    /// what was behind them before the transaction stays.
    pub open spec fn kept_len(&self) -> int {
        if self.total_pages * PAGE_SIZE >= self.initial_len {
            self.total_pages * PAGE_SIZE
        } else {
            self.initial_len as int
        }
    }

    /// The files once the transaction is ended. All readers are shut out, and the journal
    /// is written through before a page goes to the file. It goes out of use once the
    /// file is written through, and the locks are released last.
    pub open spec fn ended(&self) -> JournalView {
        let c = self.pages_hash@;
        let w = flushed(self.journal@.exclusive().then_op(FileOpView::SyncJournal), c, c.len());
        let x = if w.disk.db.len() > self.kept_len() {
            w.then_op(FileOpView::SetDbLen { len: self.kept_len() })
        } else {
            w
        };
        x.then_op(FileOpView::SyncDb).invalidated().released()
    }

    /// Whether the page that was not used for longest has to leave the cache before page
    /// `p` can come in.
    pub open spec fn makes_room(&self, p: u32) -> bool {
        !is_cached(self.pages_hash@, p) && self.pages_hash@.len() >= self.max_pages
            && self.lru@.len() > 0
    }

    /// Whether no page of the cache is in use.
    pub open spec fn idle(&self) -> bool {
        forall|i: int| 0 <= i < self.pages_hash@.len() ==> (#[trigger] self.pages_hash@[i]).refcnt == 0
    }
}

// -- Lemmas ----------------------------------------------------

/// Where a page is in the cache, its bytes are there.
pub proof fn content_in_cache(pager: &Pager, i: int)
    requires
        distinct(pager.pages_hash@),
        0 <= i < pager.pages_hash@.len(),
    ensures
        is_cached(pager.pages_hash@, pager.pages_hash@[i].inner.pgno),
        pager.content(pager.pages_hash@[i].inner.pgno) == pager.pages_hash@[i].inner.data@,
{
    let c = pager.pages_hash@;
    let p = c[i].inner.pgno;
    assert(is_slot(c, p, i));
    let j = choose|j: int| is_slot(c, p, j);
    if j < i {
        assert(c[j].inner.pgno != c[i].inner.pgno);
    } else if i < j {
        assert(c[i].inner.pgno != c[j].inner.pgno);
    }
}

/// Where a page is in the cache, its users are counted there.
proof fn users_in_cache(c: Seq<PageInfo>, i: int)
    requires
        distinct(c),
        0 <= i < c.len(),
    ensures
        users(c, c[i].inner.pgno) == c[i].refcnt,
{
    let p = c[i].inner.pgno;
    assert(is_slot(c, p, i));
    let j = choose|j: int| is_slot(c, p, j);
    if j < i {
        assert(c[j].inner.pgno != c[i].inner.pgno);
    } else if i < j {
        assert(c[i].inner.pgno != c[j].inner.pgno);
    }
}

/// Whether the pages of `c` that are in use are in the same places of `d`.
spec fn uses_stay(c: Seq<PageInfo>, d: Seq<PageInfo>) -> bool {
    forall|i: int|
        0 <= i < c.len() && (#[trigger] c[i]).refcnt > 0 ==> i < d.len() && d[i].inner.pgno
            == c[i].inner.pgno && d[i].refcnt == c[i].refcnt
}

/// Pages that nobody uses may come and go.
proof fn users_stay(c: Seq<PageInfo>, d: Seq<PageInfo>)
    requires
        distinct(c),
        distinct(d),
        uses_stay(c, d),
        uses_stay(d, c),
    ensures
        forall|q: u32| #[trigger] users(d, q) == users(c, q),
{
    assert forall|q: u32| #[trigger] users(d, q) == users(c, q) by {
        if users(c, q) > 0 {
            let i = choose|i: int| is_slot(c, q, i);
            assert(c[i].refcnt > 0);
            users_in_cache(d, i);
        } else if users(d, q) > 0 {
            let i = choose|i: int| is_slot(d, q, i);
            assert(d[i].refcnt > 0);
            users_in_cache(c, i);
        }
    }
}

/// Writing a page changes that page and no other.
pub proof fn page_write(db: Seq<u8>, p: u32, x: Seq<u8>, q: u32)
    requires
        x.len() == PAGE_SIZE,
    ensures
        p * PAGE_SIZE + PAGE_SIZE <= write_at(db, p * PAGE_SIZE, x).len(),
        db.len() <= write_at(db, p * PAGE_SIZE, x).len(),
        page_of(write_at(db, p * PAGE_SIZE, x), p as int) == x,
        q != p && q * PAGE_SIZE + PAGE_SIZE <= db.len() ==> page_of(
            write_at(db, p * PAGE_SIZE, x),
            q as int,
        ) == page_of(db, q as int),
{
    let w = write_at(db, p * PAGE_SIZE, x);
    assert(page_of(w, p as int) =~= x);
    if q != p && q * PAGE_SIZE + PAGE_SIZE <= db.len() {
        assert(page_of(w, q as int) =~= page_of(db, q as int));
    }
}

/// A page that is saved does not depend on the database any more.
proof fn saved_page_found(j: Seq<u8>, n: nat, l: Seq<u32>, p: u32)
    requires
        n <= l.len(),
        forall|i: int| 0 <= i < n ==> record_page(j, i) == #[trigger] l[i],
    ensures
        saved_page(j, n, p) is Some <==> l.take(n as int).contains(p),
    decreases n,
{
    if n > 0 {
        saved_page_found(j, (n - 1) as nat, l, p);
        let a = l.take(n as int);
        let b = l.take(n - 1);
        assert(record_page(j, n - 1) == l[n - 1]);
        if a.contains(p) {
            let i = choose|i: int| 0 <= i < a.len() && a[i] == p;
            if i < n - 1 {
                assert(b[i] == p);
            }
        }
        if b.contains(p) {
            let i = choose|i: int| 0 <= i < b.len() && b[i] == p;
            assert(a[i] == p);
        }
        if l[n - 1] == p {
            assert(a[n - 1] == p);
        }
    }
}

/// Writing a page that is saved, or that is new, leaves what a rollback gives.
proof fn commit_keeps_committed(before: &Pager, db: Seq<u8>, p: u32, x: Seq<u8>, q: u32)
    requires
        before.saves(),
        before.modified@.contains(p) || p >= before.initial_pages,
        x.len() == PAGE_SIZE,
        db == write_at(before.journal@.disk.db, p * PAGE_SIZE, x),
        q < before.initial_pages,
    ensures
        restored_page(
            db,
            before.journal@.file(),
            record_count(before.journal@.file()),
            q,
        ) == before.committed(q),
{
    let f = before.journal@.file();
    let n = record_count(f);
    page_write(before.journal@.disk.db, p, x, q);
    saved_page_found(f, n, before.modified@, q);
    assert(before.modified@.take(n as int) =~= before.modified@);
}

/// Writing a page that is saved, or that is new, changes nothing of what is found.
proof fn page_goes_out(before: &Pager, v: JournalView, p: u32, x: Seq<u8>)
    requires
        before.wf(),
        before.in_write,
        v.disk.journal == before.journal@.disk.journal,
        before.modified@.contains(p) || p >= before.initial_pages,
        x.len() == PAGE_SIZE,
    ensures
        unharmed(v, v.page_written(p, x)),
{
    before.transaction_can_roll_back();
    let f = v.file();
    let n = record_count(f);
    saved_page_found(f, n, before.modified@, p);
    assert(before.modified@.take(n as int) =~= before.modified@);
    assert(v.disk == (Disk { db: v.disk.db, journal: Some(f) }));
    write_beside(v.disk.db, f, p, x);
    one_more(v, v.page_written(p, x), FileOpView::WriteDb { offset: p * PAGE_SIZE, bytes: x });
}

/// In a transaction the pages before it are found.
pub proof fn found_is_committed(pager: &Pager)
    requires
        pager.wf(),
        pager.in_write,
    ensures
        found(pager.journal@.disk).len() == pages_in((pager.initial_pages * PAGE_SIZE) as nat),
        forall|p: int|
            0 <= p < found(pager.journal@.disk).len() ==> p < pager.initial_pages
                && #[trigger] found(pager.journal@.disk)[p] == pager.committed(p as u32),
{
    pager.transaction_can_roll_back();
    let v = pager.journal@;
    let f = v.file();
    let n = record_count(f);
    let db = restored(v.disk.db, f, n);
    let x = recovered(v.disk);
    assert(x.len() == pager.initial_pages * PAGE_SIZE);
    assert forall|p: int| 0 <= p < found(v.disk).len() implies p < pager.initial_pages
        && #[trigger] found(v.disk)[p] == pager.committed(p as u32) by {
        assert(p < pager.initial_pages) by (nonlinear_arith)
            requires
                p < ((pager.initial_pages * PAGE_SIZE) % 0x1_0000_0000) / (PAGE_SIZE as int),
                PAGE_SIZE == 4096,
                0 <= pager.initial_pages,
        ;
        written_back_pages(v, n, p as u32);
        written_back_is(v, n);
        assert(page_of(x, p) =~= page_of(db, p));
    }
}

/// The records that a longer journal starts with.
proof fn saved_page_prefix(j: Seq<u8>, k: Seq<u8>, n: nat, p: u32)
    requires
        forall|i: int|
            0 <= i < n ==> #[trigger] record_page(j, i) == record_page(k, i) && record_content(j, i)
                == record_content(k, i),
    ensures
        saved_page(j, n, p) == saved_page(k, n, p),
    decreases n,
{
    if n > 0 {
        assert(record_page(j, n - 1) == record_page(k, n - 1));
        saved_page_prefix(j, k, (n - 1) as nat, p);
    }
}

/// A journal with one more record.
proof fn record_appended(f: Seq<u8>, n: nat, p: u32, x: Seq<u8>)
    requires
        f.len() == record_start(n as int),
        records_ok(f),
        x.len() == PAGE_SIZE,
        marked_valid(f),
    ensures
        ({
            let g = write_at(f, f.len() as int, record_bytes(p, x));
            &&& g.len() == record_start((n + 1) as int)
            &&& record_count(g) == n + 1
            &&& records_ok(g)
            &&& marked_valid(g)
            &&& journal_pages(g) == journal_pages(f)
            &&& record_page(g, n as int) == p
            &&& record_content(g, n as int) == x
            &&& forall|i: int|
                0 <= i < n ==> #[trigger] record_page(g, i) == record_page(f, i) && record_content(
                    g,
                    i,
                ) == record_content(f, i)
        }),
{
    broadcast use be32_len;

    let r = record_bytes(p, x);
    let g = write_at(f, f.len() as int, r);
    assert(g =~= f + r);
    assert(record_count(f) == n);
    assert(record_count(g) == n + 1);
    let o = record_start(n as int);
    assert(g.subrange(o, o + 4) =~= be32(p));
    be32_round_trip(g, o, p);
    assert(record_content(g, n as int) =~= x);
    assert(record_checksum(g, n as int) == xor_all(x));
    reveal(be32_at);
    reveal(crate::engine::bytes::be16_at);
    assert forall|i: int| 0 <= i < n implies #[trigger] record_page(g, i) == record_page(f, i)
        && record_content(g, i) == record_content(f, i) && record_checksum(g, i) == record_checksum(
        f,
        i,
    ) by {
        assert(record_start(i) + JOURNAL_PAGE <= record_start(n as int));
        assert(record_content(g, i) =~= record_content(f, i));
    }
    assert forall|i: int| 0 <= i < record_count(g) implies xor_all(#[trigger] record_content(g, i))
        == record_checksum(g, i) by {
        if i < n {
            assert(record_page(g, i) == record_page(f, i));
            assert(xor_all(record_content(f, i)) == record_checksum(f, i));
        }
    }
}

/// Different numbers below `k` are at most `k` many.
pub proof fn distinct_below(l: Seq<u32>, k: nat)
    requires
        l.no_duplicates(),
        forall|i: int| 0 <= i < l.len() ==> (#[trigger] l[i]) < k,
    ensures
        l.len() <= k,
{
    let a = l.map_values(|p: u32| p as int);
    assert(a.no_duplicates()) by {
        assert forall|i: int, j: int| 0 <= i < a.len() && 0 <= j < a.len() && i != j implies a[i]
            != a[j] by {
            assert(l[i] != l[j]);
        }
    }
    a.unique_seq_to_set();
    let s = a.to_set();
    let t = vstd::set_lib::set_int_range(0, k as int);
    vstd::set_lib::lemma_int_range(0, k as int);
    assert(s.subset_of(t)) by {
        assert forall|x: int| s.contains(x) implies t.contains(x) by {
            let i = choose|i: int| 0 <= i < a.len() && a[i] == x;
            assert(l[i] < k);
        }
    }
    vstd::set_lib::lemma_len_subset(s, t);
}

proof fn pinned_update(c: Seq<PageInfo>, i: int, x: PageInfo)
    requires
        0 <= i < c.len(),
    ensures
        pinned(c.update(i, x)) == pinned(c) - (if c[i].refcnt > 0 {
            1int
        } else {
            0
        }) + (if x.refcnt > 0 {
            1int
        } else {
            0
        }),
    decreases c.len(),
{
    let d = c.update(i, x);
    if i == c.len() - 1 {
        assert(d.drop_last() =~= c.drop_last());
    } else {
        assert(d.drop_last() =~= c.drop_last().update(i, x));
        pinned_update(c.drop_last(), i, x);
    }
}

proof fn pinned_bound(c: Seq<PageInfo>)
    ensures
        pinned(c) <= c.len(),
    decreases c.len(),
{
    if c.len() > 0 {
        pinned_bound(c.drop_last());
    }
}

proof fn pinned_strict(c: Seq<PageInfo>, i: int)
    requires
        0 <= i < c.len(),
        c[i].refcnt == 0,
    ensures
        pinned(c) < c.len(),
    decreases c.len(),
{
    if i == c.len() - 1 {
        pinned_bound(c.drop_last());
    } else {
        pinned_strict(c.drop_last(), i);
    }
}

proof fn pinned_positive(c: Seq<PageInfo>, i: int)
    requires
        0 <= i < c.len(),
        c[i].refcnt > 0,
    ensures
        pinned(c) > 0,
    decreases c.len(),
{
    if i < c.len() - 1 {
        pinned_positive(c.drop_last(), i);
    }
}

/// A cache of which no page is in use counts none.
pub proof fn pinned_idle(c: Seq<PageInfo>)
    requires
        forall|i: int| 0 <= i < c.len() ==> (#[trigger] c[i]).refcnt == 0,
    ensures
        pinned(c) == 0,
    decreases c.len(),
{
    if c.len() > 0 {
        pinned_idle(c.drop_last());
    }
}

/// A list of pages without `p`.
pub open spec fn without_page(l: Seq<u32>, p: u32) -> Seq<u32>
    decreases l.len(),
{
    if l.len() == 0 {
        l
    } else if l.last() == p {
        without_page(l.drop_last(), p)
    } else {
        without_page(l.drop_last(), p).push(l.last())
    }
}

proof fn without_other_page(l: Seq<u32>, p: u32)
    requires
        !l.contains(p),
    ensures
        without_page(l, p) == l,
    decreases l.len(),
{
    if l.len() > 0 {
        let d = l.drop_last();
        if d.contains(p) {
            let i = choose|i: int| 0 <= i < d.len() && d[i] == p;
            assert(l[i] == p);
        }
        assert(l[l.len() - 1] != p);
        without_other_page(d, p);
        assert(d.push(l.last()) =~= l);
    }
}

proof fn without_page_at(l: Seq<u32>, p: u32, i: int)
    requires
        l.no_duplicates(),
        0 <= i < l.len(),
        l[i] == p,
    ensures
        without_page(l, p) == l.remove(i),
    decreases l.len(),
{
    let d = l.drop_last();
    assert forall|j: int, k: int| 0 <= j < d.len() && 0 <= k < d.len() && j != k implies d[j]
        != d[k] by {
        assert(l[j] != l[k]);
    }
    if i == l.len() - 1 {
        if d.contains(p) {
            let j = choose|j: int| 0 <= j < d.len() && d[j] == p;
            assert(l[j] == l[i]);
        }
        without_other_page(d, p);
        assert(l.remove(i) =~= d);
    } else {
        assert(l[l.len() - 1] != l[i]);
        without_page_at(d, p, i);
        assert(d.remove(i).push(l.last()) =~= l.remove(i));
    }
}

/// The list without `p`.
fn drop_page(l: &mut Vec<u32>, p: u32)
    requires
        old(l)@.no_duplicates(),
    ensures
        final(l)@.no_duplicates(),
        forall|q: u32| final(l)@.contains(q) <==> old(l)@.contains(q) && q != p,
        final(l)@ == without_page(old(l)@, p),
{
    let ghost s = l@;
    let mut i: usize = 0;
    while i < l.len()
        invariant
            i <= l@.len(),
            l@ == s,
            s == old(l)@,
            s.no_duplicates(),
            forall|k: int| 0 <= k < i ==> s[k] != p,
        decreases l@.len() - i,
    {
        if l[i] == p {
            l.remove(i);
            proof {
                without_page_at(s, p, i as int);
                let t = l@;
                assert forall|q: u32| t.contains(q) <==> s.contains(q) && q != p by {
                    if t.contains(q) {
                        let k = choose|k: int| 0 <= k < t.len() && t[k] == q;
                        if k < i {
                            assert(s[k] == q);
                        } else {
                            assert(s[k + 1] == q);
                        }
                    }
                    if s.contains(q) && q != p {
                        let k = choose|k: int| 0 <= k < s.len() && s[k] == q;
                        if k < i {
                            assert(t[k] == q);
                        } else {
                            assert(t[k - 1] == q);
                        }
                    }
                }
            }
            return;
        }
        i = i + 1;
    }    proof {
        without_other_page(s, p);
    }
}

impl Pager {
    /// A pager without pages on the contents of the two files.
    pub fn new(db: Vec<u8>, journal: Option<Vec<u8>>, dbname: String) -> (r: Self)
        ensures
            r.wf(),
            r.idle(),
            r.total_pages == 0,
            r.initial_pages == 0,
            !r.in_write,
            r.state == PagerState::Start,
            r.max_pinned == 100,
            r.max_pages == 10,
            r.pages_hash@.len() == 0,
            r.journal@.disk.db == db@,
            r.journal@.disk.journal == (match journal {
                Some(j) => Some(j@),
                None => None,
            }),
            r.journal@.ops == Seq::<FileOpView>::empty(),
            r.journal@.lock == NONE_LOCK,
    {
        let name = dbname.clone();
        Pager {
            dbname,
            state: PagerState::Start,
            journal: Journal::new(db, journal, name),
            lru: Vec::new(),
            pinned_pages: 0,
            initial_pages: 0,
            initial_len: 0,
            total_pages: 0,
            max_pinned: 100,
            max_pages: 10,
            pages_hash: Vec::new(),
            modified: Vec::new(),
            in_write: false,
        }
    }

    /// Comes in as a reader, so that the files can be read.
    pub fn come_in(&mut self)
        requires
            old(self).wf(),
        ensures
            final(self).wf(),
            final(self).same_pages(old(self)),
            final(self).same_transaction(old(self)),
            final(self).journal@ == old(self).journal@.reading(),
            final(self).pages_hash == old(self).pages_hash,
            final(self).max_pinned == old(self).max_pinned,
            final(self).max_pages == old(self).max_pages,
    {
        let ghost before = *self;
        self.journal.begin_transaction_read();
        proof {
            locks_are_quiet(before.journal@);
            let c = self.pages_hash@;
            assert forall|i: int| 0 <= i < c.len() implies #[trigger] self.slot_ok(i) by {
                assert(before.slot_ok(i));
            }
            assert forall|p: u32| p < self.total_pages implies #[trigger] self.content(p)
                == before.content(p) by {}
            assert forall|p: u32| p < self.initial_pages implies #[trigger] self.committed(p)
                == before.committed(p) by {}
            assert forall|k: int| 0 <= k < self.lru@.len() implies unused(
                c,
                #[trigger] self.lru@[k],
            ) by {
                assert(unused(before.pages_hash@, before.lru@[k]));
            }
        }
    }

    /// Takes the contents that the files have now. No page counts as read until a read
    /// transaction begins.
    pub fn take_files(&mut self, db: Vec<u8>, journal: Option<Vec<u8>>)
        requires
            old(self).wf(),
            !old(self).in_write,
        ensures
            final(self).wf(),
            !final(self).in_write,
            final(self).total_pages == 0,
            final(self).journal@ == (JournalView {
                disk: Disk {
                    db: db@,
                    journal: match journal {
                        Some(j) => Some(j@),
                        None => None,
                    },
                },
                ..old(self).journal@
            }),
            final(self).pages_hash == old(self).pages_hash,
            final(self).max_pinned == old(self).max_pinned,
            final(self).max_pages == old(self).max_pages,
    {
        let ghost before = *self;
        self.journal.take_files(db, journal);
        self.total_pages = 0;
        self.initial_pages = 0;
        proof {
            let c = self.pages_hash@;
            assert forall|i: int| 0 <= i < c.len() implies #[trigger] self.slot_ok(i) by {
                assert(before.slot_ok(i));
            }
            assert forall|k: int| 0 <= k < self.lru@.len() implies unused(
                c,
                #[trigger] self.lru@[k],
            ) by {
                assert(unused(before.pages_hash@, before.lru@[k]));
            }
        }
    }

    /// Number of pages of the database.
    pub fn get_total_pages(&self) -> (r: u32)
        ensures
            r == self.total_pages,
    {
        self.total_pages
    }

    /// Number of pages in the cache.
    pub fn pagecnt(&self) -> (r: usize)
        ensures
            r == self.pages_hash@.len(),
    {
        self.pages_hash.len()
    }

    /// Where the cache has page `pgno`.
    fn find(&self, pgno: u32) -> (r: Option<usize>)
        ensures
            r matches Some(i) ==> is_slot(self.pages_hash@, pgno, i as int),
            r is None ==> !is_cached(self.pages_hash@, pgno),
    {
        let mut i: usize = 0;
        while i < self.pages_hash.len()
            invariant
                i <= self.pages_hash@.len(),
                forall|k: int|
                    0 <= k < i ==> (#[trigger] self.pages_hash@[k]).inner.pgno != pgno,
            decreases self.pages_hash@.len() - i,
        {
            if self.pages_hash[i].inner.pgno == pgno {
                return Some(i);
            }
            i = i + 1;
        }
        None
    }

    /// Reads page `pgno` from the file, or an empty page where it has none.
    fn readto(&self, pgno: u32) -> (r: Vec<u8>)
        requires
            pgno * PAGE_SIZE + PAGE_SIZE <= self.journal@.disk.db.len(),
        ensures
            r@ == page_of(self.journal@.disk.db, pgno as int),
            r@.len() == PAGE_SIZE,
    {
        self.journal.readpage(pgno)
    }

    /// Writes the page in `slot` to the file, once its saved copy is safe.
    fn commit_page(&mut self, slot: usize)
        requires
            old(self).wf(),
            slot < old(self).pages_hash@.len(),
            old(self).pages_hash@[slot as int].inner.dirty,
        ensures
            final(self).state == PagerState::Writefile,
            final(self).journal@ == old(self).journal@.exclusive().then_op(
                FileOpView::SyncJournal,
            ).page_written(
                old(self).pages_hash@[slot as int].inner.pgno,
                old(self).pages_hash@[slot as int].inner.data@,
            ),
            final(self).lru == old(self).lru,
            final(self).pinned_pages == old(self).pinned_pages,
            final(self).initial_pages == old(self).initial_pages,
            final(self).total_pages == old(self).total_pages,
            final(self).max_pinned == old(self).max_pinned,
            final(self).max_pages == old(self).max_pages,
            final(self).pages_hash == old(self).pages_hash,
            final(self).modified == old(self).modified,
            final(self).in_write == old(self).in_write,
            final(self).initial_len == old(self).initial_len,
    {
        proof {
            assert(self.slot_ok(slot as int));
        }
        self.state = PagerState::Writefile;
        let pgno: u32 = self.pages_hash[slot].inner.pgno;
        self.journal.commit_page(pgno, self.pages_hash[slot].inner.data.as_slice());
    }

    /// Puts page `pgno` into the cache, in a new place.
    fn alloc_page_and_read(&mut self, pgno: u32) -> (r: usize)
        requires
            old(self).wf(),
            !is_cached(old(self).pages_hash@, pgno),
            pgno < old(self).total_pages || (old(self).in_write && pages_fit(pgno + 1)),
        ensures
            final(self).wf(),
            final(self).same_pages(old(self)),
            final(self).same_transaction(old(self)),
            is_slot(final(self).pages_hash@, pgno, r as int),
            final(self).pages_hash@[r as int].refcnt == 0,
            final(self).pages_hash@[r as int].inner.dirty == (pgno >= old(self).total_pages),
            final(self).pages_hash@.len() == old(self).pages_hash@.len() + 1,
            final(self).pages_hash@.take(old(self).pages_hash@.len() as int)
                == old(self).pages_hash@,
            final(self).max_pinned == old(self).max_pinned,
            final(self).max_pages == old(self).max_pages,
            final(self).modified == old(self).modified,
            final(self).journal == old(self).journal,
            final(self).lru == old(self).lru,
            r == old(self).pages_hash@.len(),
            forall|q: u32| #[trigger]
                is_cached(final(self).pages_hash@, q) == (q == pgno || is_cached(
                    old(self).pages_hash@,
                    q,
                )),
            forall|q: u32| #[trigger]
                users(final(self).pages_hash@, q) == users(old(self).pages_hash@, q),
    {
        let ghost before = *self;
        let page = if pgno < self.total_pages {
            PageInfo::new(pgno, 0, self.readto(pgno))
        } else {
            let mut p = PageInfo::new(pgno, PAGE_EMPTY, zeros(PAGE_SIZE));
            p.inner.dirty = true;
            p
        };
        let slot: usize = self.pages_hash.len();
        self.pages_hash.push(page);
        proof {
            let c = before.pages_hash@;
            let d = self.pages_hash@;
            assert(d.drop_last() =~= c);
            assert(d.take(c.len() as int) =~= c);
            assert forall|i: int, j: int| 0 <= i < j < d.len() implies (#[trigger] d[i]).inner.pgno
                != (#[trigger] d[j]).inner.pgno by {
                if j == c.len() {
                    assert(!is_slot(c, pgno, i));
                }
            }
            assert forall|i: int| 0 <= i < d.len() implies #[trigger] self.slot_ok(i) by {
                if i < c.len() {
                    assert(before.slot_ok(i));
                } else if pgno >= before.total_pages {
                    assert(pgno >= before.initial_pages);
                } else {
                    assert(pages_fit(pgno + 1));
                }
            }
            assert forall|k: int| 0 <= k < self.lru@.len() implies unused(
                d,
                #[trigger] self.lru@[k],
            ) by {
                assert(unused(c, before.lru@[k]));
                let i = choose|i: int| #[trigger]
                    is_slot(c, before.lru@[k], i) && c[i].refcnt == 0;
                assert(is_slot(d, self.lru@[k], i));
            }
            assert forall|p: u32| p < self.total_pages && !(#[trigger] is_cached(d, p)) implies p
                * PAGE_SIZE + PAGE_SIZE <= self.journal@.disk.db.len() by {
                if is_cached(c, p) {
                    let i = choose|i: int| is_slot(c, p, i);
                    assert(is_slot(d, p, i));
                }
            }
            assert forall|p: u32| p < self.total_pages implies #[trigger] self.content(p)
                == before.content(p) by {
                if is_cached(c, p) {
                    let i = choose|i: int| is_slot(c, p, i);
                    content_in_cache(&before, i);
                    content_in_cache(self, i);
                } else if p == pgno {
                    content_in_cache(self, slot as int);
                } else if is_cached(d, p) {
                    let i = choose|i: int| is_slot(d, p, i);
                    assert(is_slot(c, p, i));
                }
            }
            assert(is_slot(d, pgno, slot as int));
            users_stay(c, d);
            assert forall|q: u32| #[trigger] is_cached(d, q) == (q == pgno || is_cached(c, q)) by {
                if is_cached(c, q) {
                    let i = choose|i: int| is_slot(c, q, i);
                    assert(is_slot(d, q, i));
                }
                if is_cached(d, q) && q != pgno {
                    let i = choose|i: int| is_slot(d, q, i);
                    assert(is_slot(c, q, i));
                }
            }
        }
        slot
    }

    /// Brings page `pgno` into the cache: it is there, or room is made by
    /// writing back the page that was not used for longest, or a new place is
    /// taken. `None` where the cache is full and too many pages are in use.
    #[verifier::rlimit(40)]
    fn fetch_cache(&mut self, pgno: u32) -> (r: Option<usize>)
        requires
            old(self).wf(),
            pgno < old(self).total_pages || (old(self).in_write && pages_fit(pgno + 1)),
        ensures
            final(self).wf(),
            final(self).same_pages(old(self)),
            final(self).same_transaction(old(self)),
            !old(self).in_write ==> final(self).journal == old(self).journal,
            final(self).max_pinned == old(self).max_pinned,
            final(self).max_pages == old(self).max_pages,
            final(self).pinned_pages == old(self).pinned_pages,
            forall|q: u32| #[trigger]
                users(final(self).pages_hash@, q) == users(old(self).pages_hash@, q),
            old(self).idle() ==> final(self).idle(),
            r is None <==> !is_cached(old(self).pages_hash@, pgno) && old(self).pages_hash@.len()
                >= old(self).max_pages && old(self).pinned_pages >= old(self).max_pinned,
            r is None ==> *final(self) == *old(self),
            r is Some ==> final(self).lru@ == (if old(self).makes_room(pgno) {
                old(self).lru@.drop_last()
            } else {
                old(self).lru@
            }),
            r is Some ==> forall|q: u32| #[trigger]
                is_cached(final(self).pages_hash@, q) == (q == pgno || (is_cached(
                    old(self).pages_hash@,
                    q,
                ) && !(old(self).makes_room(pgno) && q == old(self).lru@.last()))),
            r matches Some(i) ==> {
                &&& is_slot(final(self).pages_hash@, pgno, i as int)
                &&& is_cached(old(self).pages_hash@, pgno) ==> *final(self) == *old(self)
                &&& !is_cached(old(self).pages_hash@, pgno) ==> final(self).pages_hash@[i as int].refcnt
                    == 0
                &&& pgno >= old(self).total_pages && !is_cached(old(self).pages_hash@, pgno)
                    ==> final(self).pages_hash@[i as int].inner.dirty
            },
    {
        if let Some(i) = self.find(pgno) {
            return Some(i);
        }
        if self.pages_hash.len() < self.max_pages {
            let r: usize = self.alloc_page_and_read(pgno);
            proof {
                assert(self.pages_hash@.drop_last() =~= old(self).pages_hash@);
                if old(self).idle() {
                    assert forall|i: int| 0 <= i < self.pages_hash@.len() implies (
                    #[trigger] self.pages_hash@[i]).refcnt == 0 by {
                        if i < old(self).pages_hash@.len() {
                            assert(self.pages_hash@.drop_last()[i] == old(self).pages_hash@[i]);
                        }
                    }
                }
            }
            return Some(r);
        }
        if self.pinned_pages >= self.max_pinned {
            return None;
        }
        if self.lru.len() == 0 {
            let r: usize = self.alloc_page_and_read(pgno);
            proof {
                assert(self.pages_hash@.drop_last() =~= old(self).pages_hash@);
                if old(self).idle() {
                    assert forall|i: int| 0 <= i < self.pages_hash@.len() implies (
                    #[trigger] self.pages_hash@[i]).refcnt == 0 by {
                        if i < old(self).pages_hash@.len() {
                            assert(self.pages_hash@.drop_last()[i] == old(self).pages_hash@[i]);
                        }
                    }
                }
            }
            return Some(r);
        }
        let victim: u32 = self.lru[self.lru.len() - 1];
        Some(self.evict(victim, pgno))
    }

    /// Writes back the page `victim`, which nobody uses, and gives its place to
    /// page `pgno`.
    #[verifier::rlimit(60)]
    fn evict(&mut self, victim: u32, pgno: u32) -> (r: usize)
        requires
            old(self).wf(),
            old(self).lru@.len() > 0,
            old(self).lru@.last() == victim,
            !is_cached(old(self).pages_hash@, pgno),
            pgno < old(self).total_pages || (old(self).in_write && pages_fit(pgno + 1)),
        ensures
            final(self).wf(),
            final(self).same_pages(old(self)),
            final(self).same_transaction(old(self)),
            !old(self).in_write ==> final(self).journal == old(self).journal,
            final(self).max_pinned == old(self).max_pinned,
            final(self).max_pages == old(self).max_pages,
            final(self).pinned_pages == old(self).pinned_pages,
            forall|q: u32| #[trigger]
                users(final(self).pages_hash@, q) == users(old(self).pages_hash@, q),
            old(self).idle() ==> final(self).idle(),
            is_slot(final(self).pages_hash@, pgno, r as int),
            final(self).lru@ == old(self).lru@.drop_last(),
            forall|q: u32| #[trigger]
                is_cached(final(self).pages_hash@, q) == (q == pgno || (is_cached(
                    old(self).pages_hash@,
                    q,
                ) && q != victim)),
            final(self).pages_hash@[r as int].refcnt == 0,
            pgno >= old(self).total_pages ==> final(self).pages_hash@[r as int].inner.dirty,
    {
        let ghost before = *self;
        let ghost c = self.pages_hash@;
        proof {
            assert(before.lru@[before.lru@.len() - 1] == victim);
        }
        let slot: usize = match self.find(victim) {
            Some(i) => i,
            None => 0,
        };
        proof {
            assert(unused(c, victim));
            let i = choose|i: int| #[trigger] is_slot(c, victim, i) && c[i].refcnt == 0;
            if i < slot {
                assert(c[i].inner.pgno != c[slot as int].inner.pgno);
            } else if slot < i {
                assert(c[slot as int].inner.pgno != c[i].inner.pgno);
            }
            assert(before.slot_ok(slot as int));
        }
        if self.pages_hash[slot].inner.dirty {
            self.commit_page(slot);
        }
        let ghost mid = *self;
        let ghost db0 = before.journal@.disk.db;
        let ghost db1 = self.journal@.disk.db;
        proof {
            let x = c[slot as int].inner;
            assert(mid.journal@.disk.journal == before.journal@.disk.journal);
            assert forall|q: u32|
                q != victim && q * PAGE_SIZE + PAGE_SIZE <= db0.len() implies #[trigger] page_of(
                db1,
                q as int,
            ) == page_of(db0, q as int) by {
                page_write(db0, victim, x.data@, q);
            }
            page_write(db0, victim, x.data@, victim);
            assert(db1.len() >= db0.len());
            assert(x.dirty || victim < before.total_pages ==> victim * PAGE_SIZE + PAGE_SIZE
                <= db1.len() && page_of(db1, victim as int) == x.data@);
            if before.in_write {
                assert forall|q: u32| q < before.initial_pages implies #[trigger] mid.committed(q)
                    == before.committed(q) by {
                    if x.dirty {
                        commit_keeps_committed(&before, db1, victim, x.data@, q);
                    }
                }
            }
            if x.dirty {
                let v = before.journal@;
                locks_are_quiet(v);
                quiet(v.exclusive(), FileOpView::SyncJournal);
                page_goes_out(
                    &before,
                    v.exclusive().then_op(FileOpView::SyncJournal),
                    victim,
                    x.data@,
                );
            }
            assert(unharmed(before.journal@, mid.journal@));
        }
        self.lru.pop();
        let mut page = PageInfo::new(0, 0, Vec::new());
        std::mem::swap(&mut page, &mut self.pages_hash[slot]);
        page.inner.dirty = false;
        page.fetchkey_rekey(pgno);
        if pgno < self.total_pages {
            page.inner.flags = page.inner.flags & !PAGE_EMPTY;
            page.inner.data = self.readto(pgno);
        } else {
            page.inner.flags = page.inner.flags | PAGE_EMPTY;
            page.inner.dirty = true;
        }
        self.pages_hash[slot] = page;
        proof {
            let d = self.pages_hash@;
            assert(d =~= c.update(slot as int, page));
            pinned_update(c, slot as int, page);
            assert forall|i: int, j: int| 0 <= i < j < d.len() implies (#[trigger] d[i]).inner.pgno
                != (#[trigger] d[j]).inner.pgno by {
                assert(!is_slot(c, pgno, i));
                assert(!is_slot(c, pgno, j));
            }
            assert forall|i: int| 0 <= i < d.len() implies #[trigger] self.slot_ok(i) by {
                assert(before.slot_ok(i));
                if i != slot {
                    let q = c[i].inner.pgno;
                    if i < slot {
                        assert(c[i].inner.pgno != c[slot as int].inner.pgno);
                    } else {
                        assert(c[slot as int].inner.pgno != c[i].inner.pgno);
                    }
                    assert(page_of(db1, q as int) == page_of(db0, q as int) || q * PAGE_SIZE
                        + PAGE_SIZE > db0.len());
                } else {
                    assert(page_of(db1, pgno as int) == page_of(db0, pgno as int) || pgno * PAGE_SIZE
                        + PAGE_SIZE > db0.len());
                }
            }
            let l = self.lru@;
            assert(l =~= before.lru@.drop_last());
            assert forall|k: int| 0 <= k < l.len() implies unused(d, #[trigger] l[k]) by {
                assert(before.lru@[k] == l[k]);
                assert(unused(c, before.lru@[k]));
                let i = choose|i: int| #[trigger]
                    is_slot(c, before.lru@[k], i) && c[i].refcnt == 0;
                assert(before.lru@[k] != before.lru@[before.lru@.len() - 1]);
                assert(i != slot);
                assert(is_slot(d, l[k], i));
            }
            assert forall|p: u32| p < self.total_pages && !(#[trigger] is_cached(d, p)) implies p
                * PAGE_SIZE + PAGE_SIZE <= db1.len() by {
                if is_cached(c, p) && p != victim {
                    let i = choose|i: int| is_slot(c, p, i);
                    assert(is_slot(d, p, i));
                }
            }
            assert forall|p: u32| p < self.total_pages implies #[trigger] self.content(p)
                == before.content(p) by {
                if p == pgno {
                    content_in_cache(self, slot as int);
                    assert(page_of(db1, pgno as int) == page_of(db0, pgno as int));
                } else if p == victim {
                    content_in_cache(&before, slot as int);
                    if is_cached(d, p) {
                        let i = choose|i: int| is_slot(d, p, i);
                        assert(i != slot);
                        assert(is_slot(c, p, i));
                        if i < slot {
                            assert(c[i].inner.pgno != c[slot as int].inner.pgno);
                        } else {
                            assert(c[slot as int].inner.pgno != c[i].inner.pgno);
                        }
                    }
                } else if is_cached(c, p) {
                    let i = choose|i: int| is_slot(c, p, i);
                    assert(is_slot(d, p, i));
                    content_in_cache(&before, i);
                    content_in_cache(self, i);
                } else {
                    if is_cached(d, p) {
                        let i = choose|i: int| is_slot(d, p, i);
                        assert(is_slot(c, p, i));
                    }
                    assert(page_of(db1, p as int) == page_of(db0, p as int));
                }
            }
            assert(is_slot(d, pgno, slot as int));
            users_stay(c, d);
            assert forall|q: u32| #[trigger] is_cached(d, q) == (q == pgno || (is_cached(c, q) && q
                != victim)) by {
                if is_cached(c, q) && q != victim {
                    let i = choose|i: int| is_slot(c, q, i);
                    assert(is_slot(d, q, i));
                }
                if is_cached(d, q) && q != pgno {
                    let i = choose|i: int| is_slot(d, q, i);
                    assert(is_slot(c, q, i));
                    if i < slot {
                        assert(c[i].inner.pgno != c[slot as int].inner.pgno);
                    } else if slot < i {
                        assert(c[slot as int].inner.pgno != c[i].inner.pgno);
                    }
                }
            }
            assert(self.journal@ == mid.journal@);
            if before.in_write {
                assert forall|q: u32| q < before.initial_pages implies #[trigger] self.committed(q)
                    == before.committed(q) by {
                    assert(self.committed(q) == mid.committed(q));
                }
            }
        }
        slot
    }
}

/// Changing a page in its place leaves where the pages are.
proof fn slot_changed(c: Seq<PageInfo>, slot: int, x: PageInfo)
    requires
        distinct(c),
        0 <= slot < c.len(),
        x.inner.pgno == c[slot].inner.pgno,
    ensures
        distinct(c.update(slot, x)),
        forall|p: u32, i: int| #[trigger]
            is_slot(c.update(slot, x), p, i) == is_slot(c, p, i),
        forall|p: u32| #[trigger] is_cached(c.update(slot, x), p) == is_cached(c, p),
{
    let d = c.update(slot, x);
    assert forall|p: u32, i: int| #[trigger] is_slot(d, p, i) == is_slot(c, p, i) by {}
    assert forall|p: u32| #[trigger] is_cached(d, p) == is_cached(c, p) by {
        if is_cached(c, p) {
            let i = choose|i: int| is_slot(c, p, i);
            assert(is_slot(d, p, i));
        }
        if is_cached(d, p) {
            let i = choose|i: int| is_slot(d, p, i);
            assert(is_slot(c, p, i));
        }
    }
}

/// Changing a page in its place changes that page and no other.
proof fn content_changed(before: &Pager, after: &Pager, slot: int, x: PageInfo)
    requires
        distinct(before.pages_hash@),
        0 <= slot < before.pages_hash@.len(),
        x.inner.pgno == before.pages_hash@[slot].inner.pgno,
        after.pages_hash@ == before.pages_hash@.update(slot, x),
        after.journal@.disk.db == before.journal@.disk.db,
    ensures
        forall|p: u32| #[trigger]
            after.content(p) == (if p == x.inner.pgno {
                x.inner.data@
            } else {
                before.content(p)
            }),
{
    let c = before.pages_hash@;
    let d = after.pages_hash@;
    slot_changed(c, slot, x);
    assert forall|p: u32| #[trigger]
        after.content(p) == (if p == x.inner.pgno {
            x.inner.data@
        } else {
            before.content(p)
        }) by {
        if p == x.inner.pgno {
            content_in_cache(after, slot);
        } else if is_cached(c, p) {
            let i = choose|i: int| is_slot(c, p, i);
            content_in_cache(before, i);
            assert(is_slot(d, p, i));
            content_in_cache(after, i);
        } else {
            assert(!is_cached(d, p));
        }
    }
}

/// Pages that nobody uses stay so when a page in use changes.
proof fn lru_keeps(l: Seq<u32>, c: Seq<PageInfo>, slot: int, x: PageInfo)
    requires
        distinct(c),
        0 <= slot < c.len(),
        x.inner.pgno == c[slot].inner.pgno,
        x.refcnt == 0 || !l.contains(x.inner.pgno),
        forall|k: int| 0 <= k < l.len() ==> unused(c, #[trigger] l[k]),
    ensures
        forall|k: int| 0 <= k < l.len() ==> unused(c.update(slot, x), #[trigger] l[k]),
{
    let d = c.update(slot, x);
    assert forall|k: int| 0 <= k < l.len() implies unused(d, #[trigger] l[k]) by {
        assert(unused(c, l[k]));
        let i = choose|i: int| #[trigger] is_slot(c, l[k], i) && c[i].refcnt == 0;
        assert(is_slot(d, l[k], i));
        if i == slot {
            assert(l.contains(l[k]));
        }
    }
}

impl Pager {
    /// Counts one more user of the page in `slot`.
    #[verifier::rlimit(30)]
    fn page_pin(&mut self, slot: usize)
        requires
            old(self).wf(),
            slot < old(self).pages_hash@.len(),
            old(self).pages_hash@[slot as int].refcnt < u64::MAX,
        ensures
            final(self).wf(),
            final(self).same_pages(old(self)),
            final(self).same_transaction(old(self)),
            final(self).pages_hash@ == old(self).pages_hash@.update(
                slot as int,
                (PageInfo {
                    refcnt: (old(self).pages_hash@[slot as int].refcnt + 1) as u64,
                    ..old(self).pages_hash@[slot as int]
                }),
            ),
            final(self).max_pinned == old(self).max_pinned,
            final(self).max_pages == old(self).max_pages,
            final(self).modified == old(self).modified,
            final(self).journal == old(self).journal,
            final(self).lru@ == without_page(
                old(self).lru@,
                old(self).pages_hash@[slot as int].inner.pgno,
            ),
            final(self).pinned_pages == old(self).pinned_pages + (if old(self).pages_hash@[slot as int].refcnt == 0 {
                1int
            } else {
                0
            }),
    {
        let ghost before = *self;
        let ghost c = self.pages_hash@;
        let n: u64 = self.pages_hash[slot].refcnt;
        let ghost x = PageInfo { refcnt: (n + 1) as u64, ..c[slot as int] };
        proof {
            pinned_update(c, slot as int, x);
            if n == 0 {
                pinned_strict(c, slot as int);
            }
        }
        if n == 0 {
            let p: u32 = self.pages_hash[slot].inner.pgno;
            drop_page(&mut self.lru, p);
            assert(self.pages_hash.len() <= usize::MAX);
            self.pinned_pages = self.pinned_pages + 1;
        }
        self.pages_hash[slot].refcnt = n + 1;
        proof {
            let d = self.pages_hash@;
            assert(d =~= c.update(slot as int, x));
            slot_changed(c, slot as int, x);
            content_changed(&before, self, slot as int, x);
            content_in_cache(&before, slot as int);
            assert forall|i: int| 0 <= i < d.len() implies #[trigger] self.slot_ok(i) by {
                assert(before.slot_ok(i));
            }
            let l = self.lru@;
            assert forall|k: int| 0 <= k < l.len() implies unused(c, #[trigger] l[k]) by {
                assert(l.contains(l[k]));
                assert(before.lru@.contains(l[k]));
                let j = choose|j: int| 0 <= j < before.lru@.len() && before.lru@[j] == l[k];
                assert(unused(c, before.lru@[j]));
            }
            if n > 0 && l.contains(x.inner.pgno) {
                let j = choose|j: int| 0 <= j < l.len() && l[j] == x.inner.pgno;
                assert(unused(c, l[j]));
                let i = choose|i: int| #[trigger] is_slot(c, l[j], i) && c[i].refcnt == 0;
                if i < slot {
                    assert(c[i].inner.pgno != c[slot as int].inner.pgno);
                } else if slot < i {
                    assert(c[slot as int].inner.pgno != c[i].inner.pgno);
                }
            }
            if n > 0 {
                without_other_page(l, x.inner.pgno);
            }
            lru_keeps(l, c, slot as int, x);
        }
    }

    /// Counts one more user of a page in use.
    pub fn acquire(&mut self, slot: usize)
        requires
            old(self).wf(),
            slot < old(self).pages_hash@.len(),
            0 < old(self).pages_hash@[slot as int].refcnt < u64::MAX,
        ensures
            final(self).wf(),
            final(self).same_pages(old(self)),
            final(self).same_transaction(old(self)),
            final(self).pages_hash@ == old(self).pages_hash@.update(
                slot as int,
                (PageInfo {
                    refcnt: (old(self).pages_hash@[slot as int].refcnt + 1) as u64,
                    ..old(self).pages_hash@[slot as int]
                }),
            ),
            final(self).journal == old(self).journal,
            final(self).pinned_pages == old(self).pinned_pages,
    {
        self.page_pin(slot);
    }

    /// Counts one user less; a page that nobody uses may be written back.
    #[verifier::rlimit(30)]
    pub fn release(&mut self, slot: usize)
        requires
            old(self).wf(),
            slot < old(self).pages_hash@.len(),
            old(self).pages_hash@[slot as int].refcnt > 0,
        ensures
            final(self).wf(),
            final(self).same_pages(old(self)),
            final(self).same_transaction(old(self)),
            final(self).journal == old(self).journal,
            final(self).lru@ == (if old(self).pages_hash@[slot as int].refcnt == 1 {
                seq![old(self).pages_hash@[slot as int].inner.pgno] + old(self).lru@
            } else {
                old(self).lru@
            }),
            final(self).pages_hash@ == old(self).pages_hash@.update(
                slot as int,
                (PageInfo {
                    refcnt: (old(self).pages_hash@[slot as int].refcnt - 1) as u64,
                    ..old(self).pages_hash@[slot as int]
                }),
            ),
            final(self).max_pinned == old(self).max_pinned,
            final(self).max_pages == old(self).max_pages,
    {
        let ghost before = *self;
        let ghost c = self.pages_hash@;
        let n: u64 = self.pages_hash[slot].refcnt;
        let ghost x = PageInfo { refcnt: (n - 1) as u64, ..c[slot as int] };
        proof {
            pinned_update(c, slot as int, x);
            pinned_positive(c, slot as int);
        }
        self.pages_hash[slot].refcnt = n - 1;
        if n == 1 {
            self.page_unpin(slot);
        }
        proof {
            let d = self.pages_hash@;
            assert(d =~= c.update(slot as int, x));
            slot_changed(c, slot as int, x);
            content_changed(&before, self, slot as int, x);
            content_in_cache(&before, slot as int);
            assert forall|i: int| 0 <= i < d.len() implies #[trigger] self.slot_ok(i) by {
                assert(before.slot_ok(i));
            }
            let l = before.lru@;
            if l.contains(x.inner.pgno) {
                let j = choose|j: int| 0 <= j < l.len() && l[j] == x.inner.pgno;
                assert(unused(c, l[j]));
                let i = choose|i: int| #[trigger] is_slot(c, l[j], i) && c[i].refcnt == 0;
                if i < slot {
                    assert(c[i].inner.pgno != c[slot as int].inner.pgno);
                } else if slot < i {
                    assert(c[slot as int].inner.pgno != c[i].inner.pgno);
                }
            }
            lru_keeps(l, c, slot as int, x);
            if n == 1 {
                let m = self.lru@;
                assert(m =~= seq![x.inner.pgno] + l);
                assert forall|k: int| 0 <= k < m.len() implies unused(d, #[trigger] m[k]) by {
                    if k == 0 {
                        assert(is_slot(d, m[0], slot as int));
                    } else {
                        assert(m[k] == l[k - 1]);
                    }
                }
                assert forall|i: int, j: int|
                    0 <= i < m.len() && 0 <= j < m.len() && i != j implies m[i] != m[j] by {
                    if i > 0 {
                        assert(m[i] == l[i - 1]);
                    }
                    if j > 0 {
                        assert(m[j] == l[j - 1]);
                    }
                }
            }
        }
    }

    /// Puts a page that nobody uses any more in front of the list of pages that
    /// may be written back.
    fn page_unpin(&mut self, slot: usize)
        requires
            slot < old(self).pages_hash@.len(),
            old(self).pinned_pages > 0,
        ensures
            *final(self) == (Pager {
                lru: final(self).lru,
                pinned_pages: (old(self).pinned_pages - 1) as u64,
                ..*old(self)
            }),
            final(self).lru@ == seq![old(self).pages_hash@[slot as int].inner.pgno]
                + old(self).lru@,
    {
        let p: u32 = self.pages_hash[slot].inner.pgno;
        self.lru.insert(0, p);
        assert(self.lru@ =~= seq![p] + old(self).lru@);
        self.pinned_pages = self.pinned_pages - 1;
    }

    /// Brings page `pgno` into the cache and counts one more user of it. A page
    /// past the end of the database is new: it is empty and has to be written.
    #[verifier::rlimit(30)]
    pub fn fetch(&mut self, pgno: u32) -> (r: Option<usize>)
        requires
            old(self).wf(),
            pgno < old(self).total_pages || (old(self).in_write && pages_fit(pgno + 1)),
            forall|i: int|
                0 <= i < old(self).pages_hash@.len() ==> (#[trigger] old(self).pages_hash@[i]).refcnt < u64::MAX,
        ensures
            final(self).wf(),
            final(self).same_pages(old(self)),
            final(self).same_transaction(old(self)),
            !old(self).in_write ==> final(self).journal == old(self).journal,
            final(self).max_pinned == old(self).max_pinned,
            final(self).max_pages == old(self).max_pages,
            r is None <==> !is_cached(old(self).pages_hash@, pgno) && old(self).pages_hash@.len()
                >= old(self).max_pages && old(self).pinned_pages >= old(self).max_pinned,
            r is None ==> *final(self) == *old(self),
            r matches Some(i) ==> {
                &&& is_slot(final(self).pages_hash@, pgno, i as int)
                &&& final(self).lru@ == without_page(
                    if old(self).makes_room(pgno) {
                        old(self).lru@.drop_last()
                    } else {
                        old(self).lru@
                    },
                    pgno,
                )
                &&& forall|q: u32| #[trigger]
                    is_cached(final(self).pages_hash@, q) == (q == pgno || (is_cached(
                        old(self).pages_hash@,
                        q,
                    ) && !(old(self).makes_room(pgno) && q == old(self).lru@.last())))
                &&& final(self).pages_hash@[i as int].refcnt > 0
                &&& forall|q: u32| #[trigger]
                    users(final(self).pages_hash@, q) == users(old(self).pages_hash@, q) + (if q
                        == pgno {
                        1int
                    } else {
                        0
                    })
                &&& old(self).idle() ==> final(self).pages_hash@[i as int].refcnt == 1
                    && forall|j: int|
                    0 <= j < final(self).pages_hash@.len() && j != i ==> (#[trigger] final(self).pages_hash@[j]).refcnt == 0
                &&& pgno >= old(self).total_pages && !is_cached(old(self).pages_hash@, pgno)
                    ==> final(self).pages_hash@[i as int].inner.dirty
            },
    {
        match self.fetch_cache(pgno) {
            Some(slot) => {
                let ghost mid = *self;
                proof {
                    assert(mid.pages_hash@[slot as int].refcnt < u64::MAX);
                    if old(self).idle() {
                        assert(mid.pages_hash@[slot as int].refcnt == 0);
                    }
                }
                self.page_pin(slot);
                proof {
                    assert forall|p: u32| p < self.total_pages implies #[trigger] self.content(p)
                        == old(self).content(p) by {
                        assert(self.content(p) == mid.content(p));
                    }
                    slot_changed(
                        mid.pages_hash@,
                        slot as int,
                        self.pages_hash@[slot as int],
                    );
                    assert forall|q: u32| #[trigger]
                        users(self.pages_hash@, q) == users(old(self).pages_hash@, q) + (if q
                            == pgno {
                            1int
                        } else {
                            0
                        }) by {
                        let d = self.pages_hash@;
                        users_in_cache(d, slot as int);
                        users_in_cache(mid.pages_hash@, slot as int);
                        assert(users(mid.pages_hash@, q) == users(old(self).pages_hash@, q));
                        if q != pgno {
                            if is_cached(d, q) {
                                let i = choose|i: int| is_slot(d, q, i);
                                assert(is_slot(mid.pages_hash@, q, i));
                                users_in_cache(d, i);
                                users_in_cache(mid.pages_hash@, i);
                            } else if is_cached(mid.pages_hash@, q) {
                                let i = choose|i: int| is_slot(mid.pages_hash@, q, i);
                                assert(is_slot(d, q, i));
                            }
                        }
                    }
                    assert forall|p: u32|
                        p < self.initial_pages && self.in_write implies #[trigger] self.committed(p)
                        == old(self).committed(p) by {
                        assert(self.committed(p) == mid.committed(p));
                    }
                    if old(self).idle() {
                        assert forall|j: int|
                            0 <= j < self.pages_hash@.len() && j != slot implies (
                        #[trigger] self.pages_hash@[j]).refcnt == 0 by {
                            assert(self.pages_hash@[j] == mid.pages_hash@[j]);
                        }
                    }
                }
                Some(slot)
            },
            None => None,
        }
    }

    /// Announces a change of the page in `slot`: the journal saves the page
    /// first, unless it is new or saved already.
    #[verifier::rlimit(60)]
    pub fn will_modify(&mut self, slot: usize)
        requires
            old(self).wf(),
            old(self).in_write,
            slot < old(self).pages_hash@.len(),
        ensures
            final(self).wf(),
            final(self).same_pages(old(self)),
            final(self).same_transaction(old(self)),
            final(self).max_pinned == old(self).max_pinned,
            final(self).max_pages == old(self).max_pages,
            final(self).pinned_pages == old(self).pinned_pages,
            final(self).journal@ == (if old(self).pages_hash@[slot as int].inner.pgno
                < old(self).initial_pages {
                old(self).journal@.page_saved(
                    old(self).pages_hash@[slot as int].inner.pgno,
                    old(self).pages_hash@[slot as int].inner.data@,
                )
            } else {
                old(self).journal@
            }),
            final(self).pages_hash@ == old(self).pages_hash@.update(
                slot as int,
                (PageInfo {
                    inner: PageInfoInner {
                        dirty: true,
                        ..old(self).pages_hash@[slot as int].inner
                    },
                    ..old(self).pages_hash@[slot as int]
                }),
            ),
    {
        let ghost before = *self;
        let ghost c = self.pages_hash@;
        let p: u32 = self.pages_hash[slot].inner.pgno;
        proof {
            assert(before.slot_ok(slot as int));
        }
        if p < self.initial_pages && !has_page(&self.modified, p) {
            proof {
                let l = self.modified@.push(p);
                assert forall|i: int, j: int|
                    0 <= i < l.len() && 0 <= j < l.len() && i != j implies l[i] != l[j] by {}
                assert forall|i: int| 0 <= i < l.len() implies (#[trigger] l[i])
                    < self.initial_pages by {}
                distinct_below(l, self.initial_pages as nat);
                let n = self.modified@.len() as int;
                assert(record_start(n) + JOURNAL_PAGE == JOURNAL_HEADER + (n + 1) * JOURNAL_PAGE);
                assert((n + 1) * JOURNAL_PAGE <= self.initial_pages * JOURNAL_PAGE);
            }
            self.modified.push(p);
            self.journal.backup_page(p, self.pages_hash[slot].inner.data.as_slice());
            proof {
                let n = before.modified@.len();
                let f = before.journal@.file();
                let g = self.journal@.file();
                let x = c[slot as int].inner.data@;
                record_appended(f, n, p, x);
                assert(g == write_at(f, f.len() as int, record_bytes(p, x)));
                assert forall|i: int| 0 <= i < n implies #[trigger] record_page(g, i)
                    == record_page(f, i) && record_content(g, i) == record_content(f, i) by {}
                assert forall|i: int| 0 <= i < self.modified@.len() implies record_page(g, i)
                    == #[trigger] self.modified@[i] && self.modified@[i] < self.initial_pages by {
                    if i < n {
                        assert(before.modified@[i] == self.modified@[i]);
                        assert(record_page(g, i) == record_page(f, i));
                    }
                }
                assert forall|i: int, j: int|
                    0 <= i < self.modified@.len() && 0 <= j < self.modified@.len() && i
                        != j implies self.modified@[i] != self.modified@[j] by {}
                assert(self.saves());
                assert forall|q: u32| q < self.initial_pages implies #[trigger] self.committed(q)
                    == before.committed(q) by {
                    saved_page_prefix(g, f, n, q);
                    if q == p {
                        saved_page_found(f, n, before.modified@, p);
                        assert(before.modified@.take(n as int) =~= before.modified@);
                    }
                }
            }
        }
        let ghost mid = *self;
        self.pages_hash[slot].inner.dirty = true;
        proof {
            let x = PageInfo {
                inner: PageInfoInner { dirty: true, ..c[slot as int].inner },
                ..c[slot as int]
            };
            let d = self.pages_hash@;
            assert(d =~= c.update(slot as int, x));
            pinned_update(c, slot as int, x);
            slot_changed(c, slot as int, x);
            content_changed(&before, self, slot as int, x);
            content_in_cache(&before, slot as int);
            if self.lru@.contains(p) && x.refcnt > 0 {
                let j = choose|j: int| 0 <= j < self.lru@.len() && self.lru@[j] == p;
                assert(unused(c, self.lru@[j]));
                let i = choose|i: int| #[trigger] is_slot(c, self.lru@[j], i) && c[i].refcnt == 0;
                if i < slot {
                    assert(c[i].inner.pgno != c[slot as int].inner.pgno);
                } else if slot < i {
                    assert(c[slot as int].inner.pgno != c[i].inner.pgno);
                }
            }
            lru_keeps(self.lru@, c, slot as int, x);
            assert forall|i: int| 0 <= i < d.len() implies #[trigger] self.slot_ok(i) by {
                assert(before.slot_ok(i));
                let q = d[i].inner.pgno;
                if before.modified@.contains(q) {
                    let k = choose|k: int|
                        0 <= k < before.modified@.len() && before.modified@[k] == q;
                    assert(self.modified@[k] == q);
                }
                if i == slot && p < before.initial_pages && !before.modified@.contains(p) {
                    assert(self.modified@[before.modified@.len() as int] == p);
                }
            }
            assert(self.journal@ == mid.journal@);
            assert forall|q: u32| q < self.initial_pages implies #[trigger] self.committed(q)
                == before.committed(q) by {
                assert(self.committed(q) == mid.committed(q));
            }
            assert(unharmed(before.journal@, self.journal@)) by {
                if self.journal@ != before.journal@ {
                    found_is_committed(&before);
                    found_is_committed(self);
                    let a = found(before.journal@.disk);
                    let b = found(self.journal@.disk);
                    assert forall|i: int| 0 <= i < a.len() implies a[i] == b[i] by {
                        assert(self.committed(i as u32) == before.committed(i as u32));
                    }
                    assert(b =~= a);
                    one_more(
                        before.journal@,
                        self.journal@,
                        FileOpView::WriteJournal {
                            offset: before.journal@.pos,
                            bytes: record_bytes(p, c[slot as int].inner.data@),
                        },
                    );
                }
            }
        }
    }
}

/// The database after the first `n` records were written back.
proof fn written_back_is(v: JournalView, n: nat)
    requires
        v.is_open(),
    ensures
        v.written_back(n).disk == (Disk { db: restored(v.disk.db, v.file(), n), ..v.disk }),
    decreases n,
{
    if n > 0 {
        written_back_is(v, (n - 1) as nat);
    }
}

/// Pages of a database after the first `n` records were written back.
proof fn written_back_pages(v: JournalView, n: nat, p: u32)
    requires
        v.is_open(),
        n <= record_count(v.file()),
    ensures
        v.written_back(n).disk.journal == v.disk.journal,
        v.written_back(n).disk.db.len() >= v.disk.db.len(),
        p * PAGE_SIZE + PAGE_SIZE <= v.disk.db.len() ==> page_of(
            v.written_back(n).disk.db,
            p as int,
        ) == restored_page(v.disk.db, v.file(), n, p),
    decreases n,
{
    if n > 0 {
        let m = (n - 1) as nat;
        written_back_pages(v, m, p);
        let f = v.file();
        assert(record_start(n - 1) + JOURNAL_PAGE <= f.len());
        page_write(v.written_back(m).disk.db, record_page(f, n - 1), record_content(f, n - 1), p);
    }
}

/// An emptied journal is a journal without records.
proof fn emptied_journal(v: JournalView, pages: u32)
    ensures
        v.is_open() ==> ({
            let f = v.emptied(pages).file();
            &&& v.emptied(pages).is_open()
            &&& f.len() == JOURNAL_HEADER
            &&& marked_valid(f)
            &&& journal_pages(f) == pages
        }),
        ({
            let f = crate::engine::journal::journal_header(pages);
            &&& f.len() == JOURNAL_HEADER
            &&& marked_valid(f)
            &&& journal_pages(f) == pages
        }),
{
    broadcast use be32_len;

    let h = crate::engine::journal::journal_header(pages);
    assert(h.subrange(20, 24) =~= be32(pages));
    be32_round_trip(h, 20, pages);
    if v.is_open() {
        let f = v.emptied(pages).file();
        assert(f.subrange(20, 24) =~= be32(pages));
        be32_round_trip(f, 20, pages);
    }
}

/// After a write transaction was begun, once locks of an earlier one are released.
pub open spec fn writing_anew(v: JournalView, pages: u32) -> JournalView {
    if v.lock == RESERVED_LOCK || v.lock == EXCLUSIVE_LOCK {
        v.released().writing(pages)
    } else {
        v.writing(pages)
    }
}

proof fn writing_goes_on(v: JournalView, pages: u32)
    ensures
        went_on(v, writing_anew(v, pages)),
{
    locks_are_quiet(v);
    let u = if v.lock == RESERVED_LOCK || v.lock == EXCLUSIVE_LOCK {
        v.released()
    } else {
        v
    };
    assert(unharmed(v, u));
    locks_are_quiet(u);
    let a = JournalView { saved: seq![], ..u.reserved() };
    assert(unharmed(u.reserved(), a));
    if u.is_open() {
        let cut = FileOpView::SetJournalLen { len: JOURNAL_HEADER as int };
        let mark = FileOpView::WriteJournal { offset: JOURNAL_VALID_BYTE as int, bytes: seq![1u8] };
        let count = FileOpView::WriteJournal {
            offset: JOURNAL_PAGE_COUNT as int,
            bytes: be32(pages),
        };
        let b = a.then_op(cut);
        let m = b.then_op(mark);
        let n = m.then_op(count);
        one_more(a, b, cut);
        one_more(b, m, mark);
        one_more(m, n, count);
        quiet(n, FileOpView::SyncJournal);
        assert(unharmed(n.then_op(FileOpView::SyncJournal), u.writing(pages)));
    } else {
        let make = FileOpView::CreateJournal {
            bytes: crate::engine::journal::journal_header(pages),
        };
        one_more(a, a.then_op(make), make);
        assert(unharmed(a.then_op(make), u.writing(pages)));
    }
}

/// The header page of a new database.
pub open spec fn db_header() -> Seq<u8> {
    seq![77u8, 73, 78, 83, 81, 76, 0, 0, 0, 0, 0, 0, 0, 0, 0, 0, 1] + Seq::new(
        (PAGE_SIZE - 17) as nat,
        |i: int| 0u8,
    )
}

impl Pager {
    /// The contents of a database file: those of the file, where there is one,
    /// and a header page where there is none.
    pub fn create_or_opendb(file: Option<Vec<u8>>) -> (r: Vec<u8>)
        ensures
            file matches Some(v) ==> r@ == v@,
            file is None ==> r@ == db_header(),
    {
        match file {
            Some(v) => v,
            None => {
                let mut out: Vec<u8> = vec![77u8, 73, 78, 83, 81, 76, 0, 0, 0, 0, 0, 0, 0, 0, 0, 0, 1];
                let mut rest = zeros(PAGE_SIZE - 17);
                out.append(&mut rest);
                assert(out@ =~= db_header());
                out
            },
        }
    }

    /// Changes the bytes of a page whose change was announced.
    #[verifier::rlimit(30)]
    pub fn set_data(&mut self, slot: usize, data: Vec<u8>)
        requires
            old(self).wf(),
            slot < old(self).pages_hash@.len(),
            old(self).pages_hash@[slot as int].inner.dirty,
            data@.len() == PAGE_SIZE,
        ensures
            final(self).wf(),
            final(self).total_pages == old(self).total_pages,
            final(self).same_transaction(old(self)),
            final(self).journal == old(self).journal,
            final(self).max_pinned == old(self).max_pinned,
            final(self).max_pages == old(self).max_pages,
            forall|p: u32| #[trigger]
                final(self).content(p) == (if p == old(self).pages_hash@[slot as int].inner.pgno {
                    data@
                } else {
                    old(self).content(p)
                }),
            final(self).pages_hash@ == old(self).pages_hash@.update(
                slot as int,
                (PageInfo {
                    inner: PageInfoInner { data, ..old(self).pages_hash@[slot as int].inner },
                    ..old(self).pages_hash@[slot as int]
                }),
            ),
    {
        let ghost before = *self;
        let ghost c = self.pages_hash@;
        let ghost x = PageInfo {
            inner: PageInfoInner { data, ..c[slot as int].inner },
            ..c[slot as int]
        };
        *self.pages_hash[slot].data_write() = data;
        proof {
            let p = x.inner.pgno;
            let d = self.pages_hash@;
            assert(d =~= c.update(slot as int, x));
            pinned_update(c, slot as int, x);
            slot_changed(c, slot as int, x);
            content_changed(&before, self, slot as int, x);
            assert forall|i: int| 0 <= i < d.len() implies #[trigger] self.slot_ok(i) by {
                assert(before.slot_ok(i));
            }
            if self.lru@.contains(p) && x.refcnt > 0 {
                let j = choose|j: int| 0 <= j < self.lru@.len() && self.lru@[j] == p;
                assert(unused(c, self.lru@[j]));
                let i = choose|i: int| #[trigger] is_slot(c, self.lru@[j], i) && c[i].refcnt == 0;
                if i < slot {
                    assert(c[i].inner.pgno != c[slot as int].inner.pgno);
                } else if slot < i {
                    assert(c[slot as int].inner.pgno != c[i].inner.pgno);
                }
            }
            lru_keeps(self.lru@, c, slot as int, x);
        }
    }

    /// Notes that the page in `slot` holds something.
    #[verifier::rlimit(30)]
    pub fn mark_inited(&mut self, slot: usize)
        requires
            old(self).wf(),
            slot < old(self).pages_hash@.len(),
        ensures
            final(self).wf(),
            final(self).same_pages(old(self)),
            final(self).same_transaction(old(self)),
            final(self).journal == old(self).journal,
            final(self).max_pinned == old(self).max_pinned,
            final(self).max_pages == old(self).max_pages,
            final(self).pages_hash@ == old(self).pages_hash@.update(
                slot as int,
                (PageInfo {
                    inner: PageInfoInner {
                        flags: old(self).pages_hash@[slot as int].inner.flags & !PAGE_EMPTY,
                        ..old(self).pages_hash@[slot as int].inner
                    },
                    ..old(self).pages_hash@[slot as int]
                }),
            ),
    {
        let ghost before = *self;
        let ghost c = self.pages_hash@;
        let flags: u32 = self.pages_hash[slot].inner.flags;
        let ghost x = PageInfo {
            inner: PageInfoInner { flags: flags & !PAGE_EMPTY, ..c[slot as int].inner },
            ..c[slot as int]
        };
        self.pages_hash[slot].inner.flags = flags & !PAGE_EMPTY;
        proof {
            let p = x.inner.pgno;
            let d = self.pages_hash@;
            assert(d =~= c.update(slot as int, x));
            pinned_update(c, slot as int, x);
            slot_changed(c, slot as int, x);
            content_changed(&before, self, slot as int, x);
            content_in_cache(&before, slot as int);
            assert forall|i: int| 0 <= i < d.len() implies #[trigger] self.slot_ok(i) by {
                assert(before.slot_ok(i));
            }
            if self.lru@.contains(p) && x.refcnt > 0 {
                let j = choose|j: int| 0 <= j < self.lru@.len() && self.lru@[j] == p;
                assert(unused(c, self.lru@[j]));
                let i = choose|i: int| #[trigger] is_slot(c, self.lru@[j], i) && c[i].refcnt == 0;
                if i < slot {
                    assert(c[i].inner.pgno != c[slot as int].inner.pgno);
                } else if slot < i {
                    assert(c[slot as int].inner.pgno != c[i].inner.pgno);
                }
            }
            lru_keeps(self.lru@, c, slot as int, x);
        }
    }

    /// Counts new pages as pages of the database.
    pub fn extend_page_count(&mut self, pagecnt: u32)
        requires
            old(self).wf(),
            pages_fit(pagecnt as int),
            old(self).in_write,
            forall|p: u32|
                old(self).total_pages <= p < pagecnt ==> #[trigger] is_dirty(
                    old(self).pages_hash@,
                    p,
                ),
        ensures
            final(self).wf(),
            final(self).same_transaction(old(self)),
            *final(self) == (Pager {
                total_pages: if pagecnt > old(self).total_pages {
                    pagecnt
                } else {
                    old(self).total_pages
                },
                ..*old(self)
            }),
    {
        if pagecnt > self.total_pages {
            let ghost before = *self;
            self.total_pages = pagecnt;
            proof {
                let c = self.pages_hash@;
                assert forall|p: u32| p < self.total_pages && !(#[trigger] is_cached(c, p)) implies p
                    * PAGE_SIZE + PAGE_SIZE <= self.journal@.disk.db.len() by {
                    if before.total_pages <= p {
                        assert(is_dirty(c, p));
                    }
                }
                assert forall|i: int| 0 <= i < c.len() implies #[trigger] self.slot_ok(i) by {
                    assert(before.slot_ok(i));
                    let p = c[i].inner.pgno;
                    if before.total_pages <= p < pagecnt {
                        assert(is_slot(c, p, i));
                        assert(is_dirty(c, p));
                        let j = choose|j: int| #[trigger] is_slot(c, p, j) && c[j].inner.dirty;
                        if i < j {
                            assert(c[i].inner.pgno != c[j].inner.pgno);
                        } else if j < i {
                            assert(c[j].inner.pgno != c[i].inner.pgno);
                        }
                    }
                }
                assert forall|k: int| 0 <= k < self.lru@.len() implies unused(
                    c,
                    #[trigger] self.lru@[k],
                ) by {
                    assert(unused(before.pages_hash@, before.lru@[k]));
                }
            }
        }
    }

    /// Begins a write transaction, unless one is under way.
    #[verifier::rlimit(30)]
    pub fn begin_transaction_write(&mut self)
        requires
            old(self).wf(),
            old(self).total_pages > 0,
        ensures
            final(self).wf(),
            final(self).same_pages(old(self)),
            final(self).in_write,
            final(self).initial_pages == old(self).initial_pages,
            final(self).state == PagerState::Writebuf,
            final(self).max_pinned == old(self).max_pinned,
            final(self).max_pages == old(self).max_pages,
            final(self).pages_hash == old(self).pages_hash,
            old(self).in_write ==> final(self).journal@ == old(self).journal@
                && final(self).initial_len == old(self).initial_len,
            !old(self).in_write ==> final(self).journal@ == writing_anew(
                old(self).journal@,
                old(self).total_pages,
            ) && final(self).initial_len == old(self).journal@.disk.db.len(),
            went_on(old(self).journal@, final(self).journal@),
            old(self).at_rest() ==> started(old(self).journal@, final(self).journal@),
            forall|p: u32|
                p < final(self).initial_pages ==> #[trigger] final(self).committed(p) == (if old(
                    self).in_write {
                    old(self).committed(p)
                } else {
                    old(self).content(p)
                }),
    {
        let ghost before = *self;
        let ghost c = self.pages_hash@;
        if !self.in_write {
            if self.journal.dblock == RESERVED_LOCK || self.journal.dblock == EXCLUSIVE_LOCK {
                self.journal.unlock_write();
            }
            let ghost v = self.journal@;
            self.journal.begin_transaction_write(self.total_pages);
            self.in_write = true;
            self.initial_len = self.journal.db.len();
            proof {
                writing_goes_on(before.journal@, self.total_pages);
                if before.at_rest() {
                    locks_are_quiet(before.journal@);
                    writing_starts(v, self.total_pages);
                    started_after(before.journal@, v, self.journal@);
                }
                emptied_journal(JournalView { saved: seq![], ..v.reserved() }, self.total_pages);
                let f = self.journal@.file();
                let last = (self.total_pages - 1) as u32;
                assert(last * PAGE_SIZE + PAGE_SIZE <= self.journal@.disk.db.len()) by {
                    if is_cached(c, last) {
                        let i = choose|i: int| is_slot(c, last, i);
                        assert(before.slot_ok(i));
                    }
                }
                assert(self.modified@ =~= seq![]);
                assert(self.saves());
                assert forall|p: u32| p < self.initial_pages implies #[trigger] self.committed(p)
                    == before.content(p) by {
                    if is_cached(c, p) {
                        let i = choose|i: int| is_slot(c, p, i);
                        assert(before.slot_ok(i));
                        content_in_cache(&before, i);
                    }
                }
            }
        }
        let ghost mid = *self;
        self.state = PagerState::Writebuf;
        proof {
            assert forall|i: int| 0 <= i < c.len() implies #[trigger] self.slot_ok(i) by {
                assert(before.slot_ok(i));
            }
            assert forall|k: int| 0 <= k < self.lru@.len() implies unused(
                c,
                #[trigger] self.lru@[k],
            ) by {
                assert(unused(before.pages_hash@, before.lru@[k]));
            }
            assert forall|p: u32| p < self.total_pages implies #[trigger] self.content(p)
                == before.content(p) by {}
            assert(before.in_write ==> unharmed(before.journal@, self.journal@));
            assert forall|p: u32| p < self.initial_pages implies #[trigger] self.committed(p) == (
            if before.in_write {
                before.committed(p)
            } else {
                before.content(p)
            }) by {
                assert(self.committed(p) == mid.committed(p));
            }
        }
    }

    /// Leaves a read transaction.
    pub fn end_transaction_read(&mut self)
        requires
            old(self).wf(),
        ensures
            final(self).wf(),
            final(self).same_pages(old(self)),
            final(self).same_rollback(old(self)),
            final(self).journal@ == old(self).journal@.left(),
            final(self).pages_hash == old(self).pages_hash,
            final(self).max_pinned == old(self).max_pinned,
            final(self).max_pages == old(self).max_pages,
    {
        let ghost before = *self;
        self.journal.unlock_read();
        proof {
            let off = FileOpView::Unlock { byte: crate::engine::journal::SHARED_BYTE as int };
            quiet(before.journal@, off);
            assert(unharmed(before.journal@.then_op(off), self.journal@) || unharmed(
                before.journal@,
                self.journal@,
            ));
            let c = self.pages_hash@;
            assert forall|i: int| 0 <= i < c.len() implies #[trigger] self.slot_ok(i) by {
                assert(before.slot_ok(i));
            }
            assert forall|p: u32| p < self.total_pages implies #[trigger] self.content(p)
                == before.content(p) by {}
            assert forall|p: u32| p < self.initial_pages implies #[trigger] self.committed(p)
                == before.committed(p) by {}
            assert forall|k: int| 0 <= k < self.lru@.len() implies unused(
                c,
                #[trigger] self.lru@[k],
            ) by {
                assert(unused(before.pages_hash@, before.lru@[k]));
            }
        }
    }

    /// Cuts the file to `pagecnt` pages, of which the database has no more.
    pub fn shrink_file(&mut self, pagecnt: u32)
        requires
            old(self).wf(),
            !old(self).in_write,
            pagecnt >= old(self).total_pages,
            pagecnt * PAGE_SIZE <= usize::MAX,
        ensures
            final(self).wf(),
            final(self).same_pages(old(self)),
            !final(self).in_write,
            final(self).initial_pages == old(self).initial_pages,
            final(self).initial_len == old(self).initial_len,
            went_on(old(self).journal@, final(self).journal@),
            final(self).journal@ == old(self).journal@.then_op(
                FileOpView::SetDbLen { len: pagecnt * PAGE_SIZE },
            ),
            final(self).pages_hash == old(self).pages_hash,
    {
        let ghost before = *self;
        let ghost db0 = self.journal@.disk.db;
        self.journal.shrink(pagecnt);
        proof {
            one_more(
                before.journal@,
                self.journal@,
                FileOpView::SetDbLen { len: pagecnt * PAGE_SIZE },
            );
            let c = self.pages_hash@;
            let db1 = self.journal@.disk.db;
            assert forall|p: u32|
                p < before.total_pages && p * PAGE_SIZE + PAGE_SIZE <= db0.len() implies #[trigger] page_of(
                db1,
                p as int,
            ) == page_of(db0, p as int) && p * PAGE_SIZE + PAGE_SIZE <= db1.len() by {
                assert(page_of(db1, p as int) =~= page_of(db0, p as int));
            }
            assert forall|i: int| 0 <= i < c.len() implies #[trigger] self.slot_ok(i) by {
                assert(before.slot_ok(i));
                let p = c[i].inner.pgno;
                if p < before.total_pages {
                    assert(page_of(db1, p as int) == page_of(db0, p as int));
                }
            }
            assert forall|p: u32| p < self.total_pages && !(#[trigger] is_cached(c, p)) implies p
                * PAGE_SIZE + PAGE_SIZE <= db1.len() by {
                assert(!is_cached(before.pages_hash@, p));
            }
            assert forall|p: u32| p < self.total_pages implies #[trigger] self.content(p)
                == before.content(p) by {
                if !is_cached(c, p) {
                    assert(page_of(db1, p as int) == page_of(db0, p as int));
                }
            }
            assert forall|k: int| 0 <= k < self.lru@.len() implies unused(
                c,
                #[trigger] self.lru@[k],
            ) by {
                assert(unused(before.pages_hash@, before.lru@[k]));
            }
        }
    }
}

/// Whether the first `n` places of a cache are clean and as the file has them.
spec fn clean_upto(c: Seq<PageInfo>, n: int, total: u32, db: Seq<u8>) -> bool {
    forall|i: int|
        0 <= i < n ==> {
            let x = (#[trigger] c[i]).inner;
            &&& x.data@.len() == PAGE_SIZE
            &&& !x.dirty
            &&& x.pgno < total ==> x.pgno * PAGE_SIZE + PAGE_SIZE <= db.len() && x.data@ == page_of(
                db,
                x.pgno as int,
            )
        }
}

/// Whether two caches have the same pages with the same users in the same places.
pub open spec fn same_slots(c: Seq<PageInfo>, d: Seq<PageInfo>) -> bool {
    &&& c.len() == d.len()
    &&& forall|i: int|
        0 <= i < c.len() ==> (#[trigger] c[i]).inner.pgno == d[i].inner.pgno && c[i].refcnt
            == d[i].refcnt
}

proof fn same_slots_facts(c: Seq<PageInfo>, d: Seq<PageInfo>, l: Seq<u32>)
    requires
        same_slots(c, d),
        distinct(c),
        forall|k: int| 0 <= k < l.len() ==> unused(c, #[trigger] l[k]),
    ensures
        distinct(d),
        pinned(d) == pinned(c),
        forall|p: u32, i: int| #[trigger] is_slot(d, p, i) == is_slot(c, p, i),
        forall|p: u32| #[trigger] is_cached(d, p) == is_cached(c, p),
        forall|k: int| 0 <= k < l.len() ==> unused(d, #[trigger] l[k]),
    decreases c.len(),
{
    assert forall|i: int, j: int| 0 <= i < j < d.len() implies (#[trigger] d[i]).inner.pgno != (
    #[trigger] d[j]).inner.pgno by {
        assert(c[i].inner.pgno != c[j].inner.pgno);
    }
    assert forall|p: u32, i: int| #[trigger] is_slot(d, p, i) == is_slot(c, p, i) by {
        if 0 <= i < c.len() {
            assert(c[i].inner.pgno == d[i].inner.pgno);
        }
    }
    assert forall|p: u32| #[trigger] is_cached(d, p) == is_cached(c, p) by {
        if is_cached(c, p) {
            let i = choose|i: int| is_slot(c, p, i);
            assert(is_slot(d, p, i));
        }
        if is_cached(d, p) {
            let i = choose|i: int| is_slot(d, p, i);
            assert(is_slot(c, p, i));
        }
    }
    assert forall|k: int| 0 <= k < l.len() implies unused(d, #[trigger] l[k]) by {
        assert(unused(c, l[k]));
        let i = choose|i: int| #[trigger] is_slot(c, l[k], i) && c[i].refcnt == 0;
        assert(c[i].refcnt == d[i].refcnt);
        assert(is_slot(d, l[k], i));
    }
    same_pinned(c, d);
}

proof fn same_pinned(c: Seq<PageInfo>, d: Seq<PageInfo>)
    requires
        same_slots(c, d),
    ensures
        pinned(d) == pinned(c),
    decreases c.len(),
{
    if c.len() > 0 {
        assert(c[c.len() - 1].refcnt == d[d.len() - 1].refcnt);
        assert forall|i: int| 0 <= i < c.len() - 1 implies (#[trigger] c.drop_last()[i]).inner.pgno
            == d.drop_last()[i].inner.pgno && c.drop_last()[i].refcnt == d.drop_last()[i].refcnt by {
            assert(c[i].refcnt == d[i].refcnt);
        }
        same_pinned(c.drop_last(), d.drop_last());
    }
}

impl Pager {
    /// Ends the write transaction: all changed pages are written to the file,
    /// and the journal goes out of use.
    #[verifier::rlimit(60)]
    pub fn end_transaction_write(&mut self)
        requires
            old(self).wf(),
            old(self).in_write,
        ensures
            final(self).wf(),
            final(self).same_pages(old(self)),
            !final(self).in_write,
            final(self).state == PagerState::Writefile,
            final(self).initial_pages == final(self).total_pages,
            final(self).max_pinned == old(self).max_pinned,
            final(self).max_pages == old(self).max_pages,
            old(self).idle() ==> final(self).idle(),
            final(self).lru@.len() == 0,
            same_slots(old(self).pages_hash@, final(self).pages_hash@),
            forall|i: int|
                0 <= i < final(self).pages_hash@.len() ==> !(#[trigger] final(
                    self).pages_hash@[i]).inner.dirty,
            final(self).journal@ == old(self).ended(),
            settles(old(self).journal@, final(self).journal@),
            final(self).journal@.disk.db.len() == old(self).kept_len(),
            forall|p: u32|
                p < final(self).total_pages ==> page_of(final(self).journal@.disk.db, p as int)
                    == #[trigger] old(self).content(p),
            final(self).journal@.is_open(),
            !marked_valid(final(self).journal@.file()),
            final(self).journal@.lock == NONE_LOCK,
    {
        let ghost before = *self;
        let ghost c = self.pages_hash@;
        self.journal.end_transaction_write();
        self.state = PagerState::Writefile;
        self.journal.sync_journal();
        self.lru.clear();
        let ghost total = self.total_pages;
        let mut i: usize = 0;
        let ghost begin = self.journal@;
        proof {
            locks_are_quiet(before.journal@);
            quiet(before.journal@.exclusive(), FileOpView::SyncJournal);
        }
        assert(before.journal@.disk.db == self.journal@.disk.db);
        while i < self.pages_hash.len()
            invariant
                before.wf(),
                before.in_write,
                c == before.pages_hash@,
                i <= self.pages_hash@.len(),
                total == before.total_pages,
                *self == (Pager {
                    journal: self.journal,
                    pages_hash: self.pages_hash,
                    lru: self.lru,
                    state: PagerState::Writefile,
                    ..before
                }),
                self.lru@.len() == 0,
                self.journal@ == flushed(begin, c, i as nat),
                unharmed(before.journal@, self.journal@),
                same_slots(c, self.pages_hash@),
                clean_upto(self.pages_hash@, i as int, total, self.journal@.disk.db),
                forall|k: int|
                    0 <= k < c.len() ==> (#[trigger] self.pages_hash@[k]).inner.data@
                        == c[k].inner.data@,
                forall|k: int| i <= k < c.len() ==> #[trigger] self.pages_hash@[k] == c[k],
                self.journal@.disk.journal == before.journal@.disk.journal,
                self.journal@.disk.db.len() >= before.journal@.disk.db.len(),
                forall|p: u32|
                    p * PAGE_SIZE + PAGE_SIZE <= before.journal@.disk.db.len() && (forall|k: int|
                        0 <= k < i ==> (#[trigger] c[k]).inner.pgno != p) ==> #[trigger] page_of(
                        self.journal@.disk.db,
                        p as int,
                    ) == page_of(before.journal@.disk.db, p as int),
            decreases self.pages_hash@.len() - i,
        {
            let ghost mid = *self;
            proof {
                assert(before.slot_ok(i as int));
                assert(self.pages_hash@[i as int] == c[i as int]);
            }
            if self.pages_hash[i].inner.dirty {
                let p: u32 = self.pages_hash[i].inner.pgno;
                self.journal.write_page(p, self.pages_hash[i].inner.data.as_slice());
                self.pages_hash[i].inner.dirty = false;
                proof {
                    let x = c[i as int].inner;
                    page_goes_out(&before, mid.journal@, p, x.data@);
                    let db0 = mid.journal@.disk.db;
                    let db1 = self.journal@.disk.db;
                    assert forall|k: int| 0 <= k < i implies (#[trigger] c[k]).inner.pgno != p by {
                        assert(c[k].inner.pgno != c[i as int].inner.pgno);
                    }
                    page_write(db0, p, x.data@, p);
                    assert forall|k: int| 0 <= k < i + 1 implies ({
                        let y = (#[trigger] self.pages_hash@[k]).inner;
                        &&& y.data@.len() == PAGE_SIZE
                        &&& !y.dirty
                        &&& y.pgno < total ==> y.pgno * PAGE_SIZE + PAGE_SIZE <= db1.len()
                            && y.data@ == page_of(db1, y.pgno as int)
                    }) by {
                        if k < i {
                            assert(self.pages_hash@[k] == mid.pages_hash@[k]);
                            assert(c[k].inner.pgno == self.pages_hash@[k].inner.pgno);
                            page_write(db0, p, x.data@, self.pages_hash@[k].inner.pgno);
                        }
                    }
                    assert forall|q: u32|
                        q * PAGE_SIZE + PAGE_SIZE <= before.journal@.disk.db.len() && (forall|k: int|
                            0 <= k < i + 1 ==> (#[trigger] c[k]).inner.pgno != q) implies #[trigger] page_of(
                        db1,
                        q as int,
                    ) == page_of(before.journal@.disk.db, q as int) by {
                        assert(c[i as int].inner.pgno != q);
                        page_write(db0, p, x.data@, q);
                        assert(page_of(db0, q as int) == page_of(
                            before.journal@.disk.db,
                            q as int,
                        ));
                    }
                    assert forall|k: int| 0 <= k < c.len() implies (#[trigger] self.pages_hash@[k]).inner.data@
                        == c[k].inner.data@ by {
                        assert(mid.pages_hash@[k].inner.data@ == c[k].inner.data@);
                    }
                    assert forall|k: int| 0 <= k < c.len() implies (#[trigger] c[k]).inner.pgno
                        == self.pages_hash@[k].inner.pgno && c[k].refcnt
                        == self.pages_hash@[k].refcnt by {
                        assert(c[k].inner.pgno == mid.pages_hash@[k].inner.pgno);
                    }
                }
            } else {
                proof {
                    let db = self.journal@.disk.db;
                    let x = c[i as int].inner;
                    if x.pgno < total {
                        assert forall|k: int| 0 <= k < i implies (#[trigger] c[k]).inner.pgno
                            != x.pgno by {
                            assert(c[k].inner.pgno != c[i as int].inner.pgno);
                        }
                        assert(page_of(db, x.pgno as int) == page_of(
                            before.journal@.disk.db,
                            x.pgno as int,
                        ));
                    }
                    assert(clean_upto(self.pages_hash@, i + 1, total, db));
                }
            }
            i = i + 1;
        }
        let ghost grown = self.journal@.disk.db;
        let ghost out = self.journal@;
        proof {
            if total > 0 {
                let last = (total - 1) as u32;
                if is_cached(c, last) {
                    let k = choose|k: int| is_slot(c, last, k);
                    assert(c[k].inner.pgno == self.pages_hash@[k].inner.pgno);
                } else {
                    assert(!is_cached(before.pages_hash@, last));
                }
            }
            assert(total * PAGE_SIZE <= grown.len());
        }
        let pages_len: usize = self.total_pages as usize * PAGE_SIZE;
        let len: usize = if pages_len >= self.initial_len {
            pages_len
        } else {
            self.initial_len
        };
        if self.journal.db.len() > len {
            self.journal.cut(len);
        }
        let ghost db = self.journal@.disk.db;
        let ghost cut = self.journal@;
        proof {
            assert(unharmed(before.journal@, cut)) by {
                if grown.len() > len {
                    before.transaction_can_roll_back();
                    let f = before.journal@.file();
                    assert(out.disk == (Disk { db: grown, journal: Some(f) }));
                    resize_beside(grown, f, len as int);
                    one_more(out, cut, FileOpView::SetDbLen { len: len as int });
                }
            }
            assert forall|p: u32| p < total implies #[trigger] page_of(db, p as int) == page_of(
                grown,
                p as int,
            ) by {
                assert(page_of(db, p as int) =~= page_of(grown, p as int));
            }
            assert forall|k: int| 0 <= k < self.pages_hash@.len() implies ({
                let y = (#[trigger] self.pages_hash@[k]).inner;
                &&& y.data@.len() == PAGE_SIZE
                &&& !y.dirty
                &&& y.pgno < total ==> y.pgno * PAGE_SIZE + PAGE_SIZE <= db.len() && y.data@
                    == page_of(db, y.pgno as int)
            }) by {}
        }
        self.journal.sync_db();
        self.journal.invalidate_journal();
        self.modified.clear();
        self.initial_pages = self.total_pages;
        self.in_write = false;
        self.journal.unlock_write();
        proof {
            let synced = cut.then_op(FileOpView::SyncDb);
            quiet(cut, FileOpView::SyncDb);
            before.transaction_can_roll_back();
            out_of_use(synced);
            locks_are_quiet(synced.invalidated());
            let op = FileOpView::WriteJournal { offset: 16, bytes: seq![0u8] };
            settles_in_one(before.journal@, synced, self.journal@, op);
            let d = self.pages_hash@;
            same_slots_facts(c, d, seq![]);
            assert(self.journal@.disk.db == db);
            let f = before.journal@.file();
            let g = self.journal@.file();
            assert(g == write_at(f, JOURNAL_VALID_BYTE as int, seq![0u8]));
            assert(g[JOURNAL_VALID_BYTE as int] == 0);
            assert forall|k: int| 0 <= k < d.len() implies #[trigger] self.slot_ok(k) by {
                assert(before.slot_ok(k));
                assert(c[k].inner.pgno == d[k].inner.pgno);
            }
            assert forall|p: u32| p < total && !(#[trigger] is_cached(d, p)) implies p * PAGE_SIZE
                + PAGE_SIZE <= db.len() by {
                assert(!is_cached(c, p));
            }
            assert forall|p: u32| p < total implies #[trigger] self.content(p) == before.content(p)
                by {
                if is_cached(c, p) {
                    let k = choose|k: int| is_slot(c, p, k);
                    content_in_cache(&before, k);
                    assert(is_slot(d, p, k));
                    content_in_cache(self, k);
                } else {
                    assert(!is_cached(d, p));
                    assert forall|k: int| 0 <= k < c.len() implies (#[trigger] c[k]).inner.pgno != p by {
                        assert(!is_slot(c, p, k));
                    }
                    assert(page_of(grown, p as int) == page_of(before.journal@.disk.db, p as int));
                    assert(page_of(db, p as int) == page_of(grown, p as int));
                }
            }
            assert forall|p: u32| p < total implies p * PAGE_SIZE + PAGE_SIZE <= db.len()
                && page_of(db, p as int) == #[trigger] before.content(p) by {
                if is_cached(d, p) {
                    let k = choose|k: int| is_slot(d, p, k);
                    assert(self.slot_ok(k));
                    content_in_cache(self, k);
                    assert(self.content(p) == before.content(p));
                } else {
                    assert(self.content(p) == before.content(p));
                }
            }
            let last = (total - 1) as u32;
            assert(page_of(db, last as int) == before.content(last));
            if before.idle() {
                assert forall|k: int| 0 <= k < d.len() implies (#[trigger] d[k]).refcnt == 0 by {
                    assert(c[k].refcnt == d[k].refcnt);
                }
            }
        }
    }

    /// Reads all pages of the cache anew; pages that the database does not have
    /// become empty.
    fn reload_cache_after_rollback(&mut self)
        requires
            distinct(old(self).pages_hash@),
            old(self).total_pages * PAGE_SIZE <= old(self).journal@.disk.db.len(),
        ensures
            *final(self) == (Pager { pages_hash: final(self).pages_hash, ..*old(self) }),
            same_slots(old(self).pages_hash@, final(self).pages_hash@),
            clean_upto(
                final(self).pages_hash@,
                final(self).pages_hash@.len() as int,
                final(self).total_pages,
                final(self).journal@.disk.db,
            ),
    {
        let ghost before = *self;
        let mut i: usize = 0;
        while i < self.pages_hash.len()
            invariant
                i <= self.pages_hash@.len(),
                *self == (Pager { pages_hash: self.pages_hash, ..before }),
                before.total_pages * PAGE_SIZE <= before.journal@.disk.db.len(),
                same_slots(before.pages_hash@, self.pages_hash@),
                clean_upto(
                    self.pages_hash@,
                    i as int,
                    self.total_pages,
                    self.journal@.disk.db,
                ),
            decreases self.pages_hash@.len() - i,
        {
            let ghost mid = *self;
            let p: u32 = self.pages_hash[i].inner.pgno;
            let flags: u32 = self.pages_hash[i].inner.flags;
            if p < self.total_pages {
                let data = self.readto(p);
                self.pages_hash[i].inner.data = data;
                self.pages_hash[i].inner.flags = flags & !PAGE_EMPTY;
            } else {
                self.pages_hash[i].inner.data = zeros(PAGE_SIZE);
                self.pages_hash[i].inner.flags = flags | PAGE_EMPTY;
            }
            self.pages_hash[i].inner.dirty = false;
            proof {
                assert forall|k: int| 0 <= k < before.pages_hash@.len() implies (
                #[trigger] before.pages_hash@[k]).inner.pgno == self.pages_hash@[k].inner.pgno
                    && before.pages_hash@[k].refcnt == self.pages_hash@[k].refcnt by {
                    assert(before.pages_hash@[k].refcnt == mid.pages_hash@[k].refcnt);
                }
                assert forall|k: int| 0 <= k < i + 1 implies ({
                    let y = (#[trigger] self.pages_hash@[k]).inner;
                    &&& y.data@.len() == PAGE_SIZE
                    &&& !y.dirty
                    &&& y.pgno < self.total_pages ==> y.pgno * PAGE_SIZE + PAGE_SIZE
                        <= self.journal@.disk.db.len() && y.data@ == page_of(
                        self.journal@.disk.db,
                        y.pgno as int,
                    )
                }) by {
                    if k < i {
                        assert(self.pages_hash@[k] == mid.pages_hash@[k]);
                    }
                }
            }
            i = i + 1;
        }
    }
}

/// Whether a journal can be rolled back: it is in use and in order.
pub open spec fn can_roll_back(v: JournalView) -> bool {
    rolls_back(v.disk)
}

/// Whether a journal is in use but not in order.
pub open spec fn is_damaged(v: JournalView) -> bool {
    in_use(v.disk) && !rolls_back(v.disk)
}

impl Pager {
    /// Whether `n` pages, and a journal that saves them all, can be addressed.
    fn count_fits(n: u32) -> (r: bool)
        ensures
            r == pages_fit(n as int),
    {
        match (n as usize).checked_mul(JOURNAL_PAGE) {
            Some(m) => m <= usize::MAX - JOURNAL_HEADER,
            None => false,
        }
    }

    /// Without a transaction all pages are in the file.
    pub proof fn all_in_file(&self)
        requires
            self.wf(),
            !self.in_write,
        ensures
            self.total_pages * PAGE_SIZE <= self.journal@.disk.db.len(),
            forall|p: u32|
                p < self.total_pages ==> #[trigger] self.content(p) == page_of(
                    self.journal@.disk.db,
                    p as int,
                ),
    {
        let c = self.pages_hash@;
        let db = self.journal@.disk.db;
        assert forall|p: u32| p < self.total_pages implies #[trigger] self.content(p) == page_of(
            db,
            p as int,
        ) && p * PAGE_SIZE + PAGE_SIZE <= db.len() by {
            if is_cached(c, p) {
                let i = choose|i: int| is_slot(c, p, i);
                assert(self.slot_ok(i));
                content_in_cache(self, i);
            }
        }
        if self.total_pages > 0 {
            let last = (self.total_pages - 1) as u32;
            assert(self.content(last) == page_of(db, last as int));
        }
    }

    /// A transaction can always be rolled back.
    pub proof fn transaction_can_roll_back(&self)
        requires
            self.wf(),
            self.in_write,
        ensures
            can_roll_back(self.journal@),
            journal_pages(self.journal@.file()) == self.initial_pages,
            self.initial_pages > 0,
            forall|p: u32|
                p < self.initial_pages ==> p * PAGE_SIZE + PAGE_SIZE
                    <= self.journal@.disk.db.len() && #[trigger] self.committed(p)
                    == restored_page(
                    self.journal@.disk.db,
                    self.journal@.file(),
                    record_count(self.journal@.file()),
                    p,
                ),
    {
        let f = self.journal@.file();
        assert forall|i: int| 0 <= i < record_count(f) implies (#[trigger] record_page(f, i))
            * PAGE_SIZE + PAGE_SIZE <= usize::MAX by {
            assert(record_page(f, i) == self.modified@[i]);
        }
    }

    /// Writes the saved pages back and cuts the file to the length it had.
    #[verifier::rlimit(60)]
    fn rollback(&mut self)
        requires
            old(self).wf(),
            can_roll_back(old(self).journal@),
        ensures
            final(self).wf(),
            !final(self).in_write,
            old(self).idle() ==> final(self).idle(),
            final(self).max_pinned == old(self).max_pinned,
            final(self).max_pages == old(self).max_pages,
            final(self).state == old(self).state,
            final(self).total_pages == (if journal_pages(old(self).journal@.file()) != 0 {
                journal_pages(old(self).journal@.file())
            } else {
                old(self).total_pages
            }),
            journal_pages(old(self).journal@.file()) != 0 ==> final(self).journal@.disk.db.len()
                == journal_pages(old(self).journal@.file()) * PAGE_SIZE,
            forall|p: u32|
                p < final(self).total_pages && p * PAGE_SIZE + PAGE_SIZE
                    <= old(self).journal@.disk.db.len() ==> #[trigger] final(self).content(p)
                    == restored_page(
                    old(self).journal@.disk.db,
                    old(self).journal@.file(),
                    record_count(old(self).journal@.file()),
                    p,
                ),
            final(self).initial_len == old(self).initial_len,
            final(self).journal@ == undone(old(self).journal@),
            unharmed(old(self).journal@, final(self).journal@),
            final(self).journal@.disk.db == recovered(old(self).journal@.disk),
            final(self).journal@.is_open(),
            !marked_valid(final(self).journal@.file()),
            final(self).journal@.lock == NONE_LOCK,
    {
        let ghost before = *self;
        let ghost c = self.pages_hash@;
        let ghost v = self.journal@;
        proof {
            examined_unharmed(v);
        }
        let ghost f = v.file();
        proof {
            if before.in_write {
                before.transaction_can_roll_back();
            } else {
                before.all_in_file();
            }
        }
        self.journal.begin_rollback();
        self.journal.lock_exclusive();
        let ghost w = self.journal@;
        assert(w.disk == v.disk);
        let pagecnt: u32 = self.journal.rollback();
        let ghost db1 = self.journal@.disk.db;
        proof {
            written_back_pages(w, record_count(f), 0);
        }
        if pagecnt != 0 {
            self.journal.shrink(pagecnt);
            self.total_pages = pagecnt;
            self.initial_pages = pagecnt;
        }
        self.journal.sync_db();
        self.journal.invalidate_journal();
        self.modified.clear();
        self.in_write = false;
        self.initial_pages = self.total_pages;
        let ghost db2 = self.journal@.disk.db;
        self.reload_cache_after_rollback();
        self.journal.unlock_write();
        proof {
            let d = self.pages_hash@;
            same_slots_facts(c, d, self.lru@);
            let g = self.journal@.file();
            assert(g == write_at(f, JOURNAL_VALID_BYTE as int, seq![0u8]));
            assert(g[JOURNAL_VALID_BYTE as int] == 0);
            assert(self.journal@.disk.db == db2);
            assert forall|k: int| 0 <= k < d.len() implies #[trigger] self.slot_ok(k) by {
                assert(before.slot_ok(k));
                assert(c[k].inner.pgno == d[k].inner.pgno);
            }
            self.all_in_file();
            assert forall|p: u32|
                p < self.total_pages && p * PAGE_SIZE + PAGE_SIZE <= v.disk.db.len() implies #[trigger] self.content(
            p) == restored_page(v.disk.db, f, record_count(f), p) by {
                written_back_pages(w, record_count(f), p);
                assert(page_of(db2, p as int) =~= page_of(db1, p as int));
            }
            if before.idle() {
                assert forall|k: int| 0 <= k < d.len() implies (#[trigger] d[k]).refcnt == 0 by {
                    assert(c[k].refcnt == d[k].refcnt);
                }
            }
        }
    }

    /// Rolls back what a journal in use has saved. A damaged journal is not used: it
    /// is deleted under the lock of a writer.
    #[verifier::rlimit(30)]
    pub fn check_and_tryrollback(&mut self)
        requires
            old(self).wf(),
        ensures
            final(self).wf(),
            final(self).max_pinned == old(self).max_pinned,
            final(self).max_pages == old(self).max_pages,
            final(self).state == old(self).state,
            old(self).idle() ==> final(self).idle(),
            !can_roll_back(old(self).journal@) ==> final(self).same_pages(old(self))
                && final(self).initial_pages == old(self).initial_pages && !final(self).in_write
                && final(self).journal@.disk.db == old(self).journal@.disk.db,
            !can_roll_back(old(self).journal@) && !is_damaged(old(self).journal@) ==> *final(self)
                == *old(self),
            final(self).journal@ == examined(old(self).journal@),
            unharmed(old(self).journal@, final(self).journal@),
            final(self).journal@.disk.db == recovered(old(self).journal@.disk),
            !in_use(final(self).journal@.disk),
            final(self).initial_len == old(self).initial_len,
            is_damaged(old(self).journal@) ==> {
                &&& final(self).journal@
                    == old(self).journal@.reserved().exclusive().deleted().released()
                &&& !final(self).journal@.is_open()
                &&& final(self).journal@.disk.journal is None
                &&& final(self).journal@.lock == NONE_LOCK
            },
            can_roll_back(old(self).journal@) ==> {
                &&& !final(self).in_write
                &&& final(self).total_pages == (if journal_pages(old(self).journal@.file()) != 0 {
                    journal_pages(old(self).journal@.file())
                } else {
                    old(self).total_pages
                })
                &&& journal_pages(old(self).journal@.file()) != 0
                    ==> final(self).journal@.disk.db.len() == journal_pages(
                    old(self).journal@.file(),
                ) * PAGE_SIZE
                &&& forall|p: u32|
                    p < final(self).total_pages && p * PAGE_SIZE + PAGE_SIZE
                        <= old(self).journal@.disk.db.len() ==> #[trigger] final(self).content(p)
                        == restored_page(
                        old(self).journal@.disk.db,
                        old(self).journal@.file(),
                        record_count(old(self).journal@.file()),
                        p,
                    )
                &&& final(self).journal@.is_open()
                &&& !marked_valid(final(self).journal@.file())
                &&& final(self).journal@.lock == NONE_LOCK
            },
            old(self).in_write ==> {
                &&& final(self).total_pages == old(self).initial_pages
                &&& forall|p: u32|
                    p < final(self).total_pages ==> #[trigger] final(self).content(p)
                        == old(self).committed(p)
            },
    {
        let ghost before = *self;
        proof {
            examined_unharmed(before.journal@);
            if before.in_write {
                before.transaction_can_roll_back();
            }
        }
        if self.journal.journal.is_some() && self.journal.is_journal_valid() {
            let jp: u32 = match &self.journal.journal {
                Some(j) => if j.len() >= crate::engine::journal::JOURNAL_PAGE_COUNT + 4 {
                    crate::engine::bytes::get_be32(
                        j.as_slice(),
                        crate::engine::journal::JOURNAL_PAGE_COUNT,
                    )
                } else {
                    0
                },
                None => 0,
            };
            if self.journal.check_journal() && Self::count_fits(jp) {
                self.rollback();
            } else {
                self.journal.begin_rollback();
                self.journal.lock_exclusive();
                self.journal.delete_journal();
                self.journal.unlock_write();
                proof {
                    let c = self.pages_hash@;
                    assert(!before.in_write);
                    assert(self.journal@.disk.db == before.journal@.disk.db);
                    assert forall|i: int| 0 <= i < c.len() implies #[trigger] self.slot_ok(i) by {
                        assert(before.slot_ok(i));
                    }
                    assert forall|p: u32| p < self.total_pages implies #[trigger] self.content(p)
                        == before.content(p) by {}
                    assert forall|k: int| 0 <= k < self.lru@.len() implies unused(
                        c,
                        #[trigger] self.lru@[k],
                    ) by {
                        assert(unused(before.pages_hash@, before.lru@[k]));
                    }
                }
            }
        }
    }

    /// Begins to read: comes in as a reader, rolls back what a journal in use
    /// has saved, and counts the pages of the file. Says whether that many pages
    /// can be addressed.
    #[verifier::rlimit(30)]
    pub fn begin_transaction_read(&mut self) -> (r: bool)
        requires
            old(self).wf(),
        ensures
            final(self).wf(),
            !final(self).in_write,
            final(self).state == PagerState::Read,
            final(self).max_pinned == old(self).max_pinned,
            final(self).max_pages == old(self).max_pages,
            old(self).idle() ==> final(self).idle(),
            final(self).journal@ == examined(old(self).journal@.reading()),
            unharmed(old(self).journal@, final(self).journal@),
            final(self).journal@.disk.db == recovered(old(self).journal@.disk),
            r ==> final(self).at_rest(),
            r == pages_fit(pages_in(final(self).journal@.disk.db.len())),
            r ==> final(self).total_pages == pages_in(final(self).journal@.disk.db.len()),
            forall|p: u32|
                p < final(self).total_pages ==> #[trigger] final(self).content(p) == page_of(
                    final(self).journal@.disk.db,
                    p as int,
                ),
            !can_roll_back(old(self).journal@) ==> final(self).journal@.disk.db
                == old(self).journal@.disk.db,
            can_roll_back(old(self).journal@) && journal_pages(old(self).journal@.file()) != 0 ==> {
                &&& final(self).journal@.disk.db.len() == journal_pages(old(self).journal@.file())
                    * PAGE_SIZE
                &&& forall|p: u32|
                    p < journal_pages(old(self).journal@.file()) && p * PAGE_SIZE + PAGE_SIZE
                        <= old(self).journal@.disk.db.len() ==> page_of(
                        final(self).journal@.disk.db,
                        p as int,
                    ) == #[trigger] restored_page(
                        old(self).journal@.disk.db,
                        old(self).journal@.file(),
                        record_count(old(self).journal@.file()),
                        p,
                    )
            },
            can_roll_back(old(self).journal@) ==> !marked_valid(final(self).journal@.file()),
    {
        let ghost before = *self;
        self.journal.begin_transaction_read();
        self.state = PagerState::Read;
        proof {
            locks_are_quiet(before.journal@);
            let c = self.pages_hash@;
            assert(self.journal@.disk == before.journal@.disk);
            assert forall|i: int| 0 <= i < c.len() implies #[trigger] self.slot_ok(i) by {
                assert(before.slot_ok(i));
            }
            assert forall|k: int| 0 <= k < self.lru@.len() implies unused(
                c,
                #[trigger] self.lru@[k],
            ) by {
                assert(unused(before.pages_hash@, before.lru@[k]));
            }
        }
        let ghost start = *self;
        self.check_and_tryrollback();
        let ghost mid = *self;
        proof {
            mid.all_in_file();
            let v = before.journal@;
            if can_roll_back(v) && journal_pages(v.file()) != 0 {
                assert forall|p: u32|
                    p < journal_pages(v.file()) && p * PAGE_SIZE + PAGE_SIZE
                        <= v.disk.db.len() implies page_of(mid.journal@.disk.db, p as int)
                    == #[trigger] restored_page(v.disk.db, v.file(), record_count(v.file()), p) by {
                    assert(mid.content(p) == page_of(mid.journal@.disk.db, p as int));
                }
            }
        }
        let pagecnt: u32 = self.journal.fetch_db_pagecnt();
        if !Self::count_fits(pagecnt) {
            return false;
        }
        self.initial_pages = pagecnt;
        self.total_pages = pagecnt;
        let ghost c = self.pages_hash@;
        self.reload_cache_after_rollback();
        proof {
            let d = self.pages_hash@;
            same_slots_facts(c, d, self.lru@);
            assert forall|k: int| 0 <= k < d.len() implies #[trigger] self.slot_ok(k) by {
                assert(mid.slot_ok(k));
                assert(c[k].inner.pgno == d[k].inner.pgno);
            }
            self.all_in_file();
            if mid.idle() {
                assert forall|k: int| 0 <= k < d.len() implies (#[trigger] d[k]).refcnt == 0 by {
                    assert(c[k].refcnt == d[k].refcnt);
                }
            }
        }
        true
    }

    /// The bytes of page `pgno`.
    pub fn page_data(&mut self, pgno: u32) -> (r: Vec<u8>)
        requires
            old(self).wf(),
            old(self).idle(),
            old(self).max_pinned > 0,
            pgno < old(self).total_pages,
        ensures
            final(self).wf(),
            final(self).idle(),
            final(self).same_pages(old(self)),
            final(self).same_transaction(old(self)),
            !old(self).in_write ==> final(self).journal == old(self).journal,
            final(self).max_pinned == old(self).max_pinned,
            r@ == old(self).content(pgno),
            r@.len() == PAGE_SIZE,
    {
        let ghost before = *self;
        proof {
            pinned_idle(self.pages_hash@);
        }
        match self.fetch(pgno) {
            Some(slot) => {
                let ghost mid = *self;
                proof {
                    content_in_cache(self, slot as int);
                    assert(mid.slot_ok(slot as int));
                    assert(mid.content(pgno) == before.content(pgno));
                }
                let data = self.pages_hash[slot].data_read();
                let r = crate::engine::bytes::copy_range(data, 0, data.len());
                assert(r@ =~= mid.pages_hash@[slot as int].inner.data@);
                self.release(slot);
                proof {
                    assert forall|p: u32| p < self.total_pages implies #[trigger] self.content(p)
                        == before.content(p) by {
                        assert(self.content(p) == mid.content(p));
                    }
                    assert forall|p: u32|
                        p < self.initial_pages && self.in_write implies #[trigger] self.committed(p)
                        == before.committed(p) by {
                        assert(self.committed(p) == mid.committed(p));
                    }
                }
                r
            },
            None => Vec::new(),
        }
    }

    /// Changes the bytes of page `pgno`.
    pub fn put_page(&mut self, pgno: u32, data: Vec<u8>)
        requires
            old(self).wf(),
            old(self).idle(),
            old(self).max_pinned > 0,
            old(self).in_write,
            pgno < old(self).total_pages,
            data@.len() == PAGE_SIZE,
        ensures
            final(self).wf(),
            final(self).idle(),
            final(self).total_pages == old(self).total_pages,
            final(self).same_transaction(old(self)),
            final(self).max_pinned == old(self).max_pinned,
            forall|p: u32|
                p < final(self).total_pages ==> #[trigger] final(self).content(p) == (if p == pgno {
                    data@
                } else {
                    old(self).content(p)
                }),
    {
        let ghost before = *self;
        proof {
            pinned_idle(self.pages_hash@);
        }
        if let Some(slot) = self.fetch(pgno) {
            let ghost one = *self;
            self.will_modify(slot);
            let ghost two = *self;
            self.mark_inited(slot);
            let ghost three = *self;
            self.set_data(slot, data);
            let ghost four = *self;
            self.release(slot);
            proof {
                assert forall|p: u32| p < self.total_pages implies #[trigger] self.content(p) == (
                if p == pgno {
                    data@
                } else {
                    before.content(p)
                }) by {
                    assert(self.content(p) == four.content(p));
                    assert(three.content(p) == two.content(p));
                    assert(two.content(p) == one.content(p));
                    assert(one.content(p) == before.content(p));
                }
                assert forall|p: u32| p < self.initial_pages implies #[trigger] self.committed(p)
                    == before.committed(p) by {
                    assert(self.committed(p) == four.committed(p));
                    assert(four.committed(p) == three.committed(p));
                    assert(three.committed(p) == two.committed(p));
                    assert(two.committed(p) == one.committed(p));
                    assert(one.committed(p) == before.committed(p));
                }
            }
        }
    }

    /// Adds a page to the database and returns its number; `None` where the
    /// machine cannot address one more.
    pub fn grow(&mut self) -> (r: Option<u32>)
        requires
            old(self).wf(),
            old(self).idle(),
            old(self).max_pinned > 0,
            old(self).in_write,
        ensures
            final(self).wf(),
            final(self).idle(),
            final(self).max_pinned == old(self).max_pinned,
            final(self).same_transaction(old(self)),
            r is Some <==> old(self).total_pages < u32::MAX && pages_fit(
                old(self).total_pages + 1,
            ),
            r is None ==> *final(self) == *old(self),
            r matches Some(p) ==> p == old(self).total_pages && final(self).total_pages == p + 1
                && forall|q: u32| q < p ==> #[trigger] final(self).content(q) == old(self).content(q),
    {
        let ghost before = *self;
        let pgno: u32 = self.total_pages;
        if pgno == u32::MAX || !Self::count_fits(pgno + 1) {
            return None;
        }
        proof {
            pinned_idle(self.pages_hash@);
        }
        match self.fetch(pgno) {
            Some(slot) => {
                let ghost one = *self;
                self.will_modify(slot);
                let ghost two = *self;
                proof {
                    assert forall|p: u32| two.total_pages <= p < pgno + 1 implies #[trigger] is_dirty(
                        two.pages_hash@,
                        p,
                    ) by {
                        assert(is_slot(two.pages_hash@, p, slot as int));
                    }
                }
                self.extend_page_count(pgno + 1);
                let ghost three = *self;
                self.mark_inited(slot);
                let ghost four = *self;
                self.release(slot);
                proof {
                    assert forall|q: u32| q < pgno implies #[trigger] self.content(q)
                        == before.content(q) by {
                        assert(self.content(q) == four.content(q));
                        assert(four.content(q) == three.content(q));
                        assert(three.content(q) == two.content(q));
                        assert(two.content(q) == one.content(q));
                        assert(one.content(q) == before.content(q));
                    }
                    assert forall|p: u32| p < self.initial_pages implies #[trigger] self.committed(p)
                        == before.committed(p) by {
                        assert(self.committed(p) == four.committed(p));
                        assert(four.committed(p) == three.committed(p));
                        assert(three.committed(p) == two.committed(p));
                        assert(two.committed(p) == one.committed(p));
                        assert(one.committed(p) == before.committed(p));
                    }
                }
                Some(pgno)
            },
            None => None,
        }
    }
}

} // verus!
