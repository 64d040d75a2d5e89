//! Transactions on the trees of a database, and what becomes of free pages and
//! trees in them.
use vstd::prelude::*;

use crate::engine::btree::{
    chain_same, free_chain, page_len, same_facts, BTree, FREE_NEXTPTR, HEADER_FREELIST,
    HEADER_FREELIST_LEN, place_keeps_rising, rises};
use crate::engine::bytes::{
    be32, be32_at, be32_len, be32_round_trip, get_be32, push_be32, put, put_bytes, zeros,
};
use crate::engine::journal::{journal_pages, page_of, pages_in, Disk, JournalView};
use crate::engine::node::{node_fits, BTreeNode, CellView, NodeView, PAGE_SIZE};
use crate::engine::journal::pages_fit;
use crate::engine::pages::{can_roll_back, distinct_below, writing_anew, Pager};
use crate::engine::tree::{
    around, level, linked, occ, occ_concat, occ_single, ok, single, unique, Store,
};
use crate::engine::tree_insert::kept;
use crate::engine::whole::{is_root, other_tree_kept};
use crate::engine::recovery::{examined, group_calls, in_use, recovered, settles, started, unharmed, went_on};

verus! {

broadcast use group_calls;

/// The bytes of a free page that names the next one.
pub open spec fn free_page(next: u32) -> Seq<u8> {
    let blank = Seq::new(PAGE_SIZE as nat, |i: int| 0u8).update(0, 2u8);
    put(blank, FREE_NEXTPTR as int, be32(next))
}

/// The header page with the first free page and their number written to it.
pub open spec fn with_free_list(page: Seq<u8>, first: u32, n: u32) -> Seq<u8> {
    put(put(page, HEADER_FREELIST as int, be32(first)), HEADER_FREELIST_LEN as int, be32(n))
}

/// The page after place `i` of a list that is put before a chain.
pub open spec fn next_free(l: Seq<u32>, i: int, first: u32, n: u32) -> u32 {
    if i + 1 < l.len() {
        l[i + 1]
    } else if n != 0 {
        first
    } else {
        0
    }
}

proof fn free_page_next(next: u32)
    ensures
        free_page(next).len() == PAGE_SIZE,
        be32_at(free_page(next), FREE_NEXTPTR as int) == next,
        free_page(next)[0] == 2,
{
    broadcast use be32_len;

    let p = free_page(next);
    assert(p.subrange(FREE_NEXTPTR as int, FREE_NEXTPTR + 4) =~= be32(next));
    be32_round_trip(p, FREE_NEXTPTR as int, next);
}

/// What the header page says of the free pages once they are written to it.
pub proof fn free_list_written(page: Seq<u8>, first: u32, n: u32)
    requires
        page.len() == PAGE_SIZE,
    ensures
        with_free_list(page, first, n).len() == PAGE_SIZE,
        be32_at(with_free_list(page, first, n), HEADER_FREELIST as int) == first,
        be32_at(with_free_list(page, first, n), HEADER_FREELIST_LEN as int) == n,
{
    broadcast use be32_len;

    let p = with_free_list(page, first, n);
    assert(p.subrange(HEADER_FREELIST as int, HEADER_FREELIST + 4) =~= be32(first));
    assert(p.subrange(HEADER_FREELIST_LEN as int, HEADER_FREELIST_LEN + 4) =~= be32(n));
    be32_round_trip(p, HEADER_FREELIST as int, first);
    be32_round_trip(p, HEADER_FREELIST_LEN as int, n);
}

/// A list of free pages, each naming the next and the last naming a chain, is a
/// chain together with it.
proof fn longer_chain(pager: Pager, l: Seq<u32>, first: u32, n: u32, i: int)
    requires
        0 <= i <= l.len(),
        forall|j: int|
            0 <= j < l.len() ==> pager.content(#[trigger] l[j]) == free_page(
                next_free(l, j, first, n),
            ),
    ensures
        ({
            let start = if i < l.len() {
                l[i]
            } else {
                first
            };
            free_chain(pager, start, (l.len() - i + n) as nat) == l.skip(i) + free_chain(
                pager,
                first,
                n as nat,
            )
        }),
    decreases l.len() - i,
{
    let c = free_chain(pager, first, n as nat);
    if i < l.len() {
        longer_chain(pager, l, first, n, i + 1);
        free_page_next(next_free(l, i, first, n));
        assert(pager.content(l[i]) == free_page(next_free(l, i, first, n)));
        assert(l.skip(i) + c =~= seq![l[i]] + (l.skip(i + 1) + c));
        let k = (l.len() - i + n) as nat;
        let next = next_free(l, i, first, n);
        assert(free_chain(pager, l[i], k) == seq![l[i]] + free_chain(
            pager,
            next,
            (k - 1) as nat,
        ));
        if i + 1 == l.len() && n == 0 {
            assert(l.skip(i + 1) + c =~= seq![]);
            assert(free_chain(pager, next, 0) =~= seq![]);
        }
    } else {
        assert(l.skip(i) + c =~= c);
    }
}

/// Databases with the same pages and the same free pages have the same trees.
pub proof fn same_contents(a: &BTree, b: &BTree, root: u32)
    requires
        a.is_tree(root),
        b.total() == a.total(),
        b.m == a.m,
        b.new_free_page@ == a.new_free_page@,
        b.freelist_first == a.freelist_first,
        b.freelist_len == a.freelist_len,
        forall|p: u32| p < a.total() ==> #[trigger] b.content(p) == a.content(p),
    ensures
        b.is_tree(root),
        b.rows(root) == a.rows(root),
{
    assert(b.store() =~= a.store());
    let h = a.height(root);
    assert(a.tree_at(root, h));
    let c = a.chain_pages();
    assert forall|i: int| 0 <= i < c.len() implies b.pager.content(#[trigger] c[i])
        == a.pager.content(c[i]) by {
        assert(b.content(c[i]) == a.content(c[i]));
    }
    chain_same(a.pager, b.pager, a.freelist_first, a.freelist_len as nat);
    assert(b.free_ok()) by {
        assert forall|i: int| 0 <= i < c.len() implies 0 < #[trigger] c[i] < b.total() && b.content(
            c[i],
        )[0] != 0 && !b.new_free_page@.contains(c[i]) by {
            assert(b.content(c[i]) == a.content(c[i]));
        }
    }
    assert(b.free() =~= a.free());
    b.same_trees(a, root);
}

/// Trees stay where only free pages and the header page change.
pub proof fn trees_stay(a: &BTree, b: &BTree, root: u32)
    requires
        a.is_tree(root),
        b.free_ok(),
        b.m == a.m,
        b.free() == a.free(),
        b.total() == a.total(),
        forall|p: u32|
            0 < p < a.total() && !a.free().contains(p) ==> #[trigger] b.content(p) == a.content(p),
    ensures
        b.is_tree(root),
        b.rows(root) == a.rows(root),
{
    let s = a.store();
    let t = b.store();
    let f = a.free();
    let h = a.height(root);
    let m = a.m as nat;
    assert(a.tree_at(root, h));
    assert forall|x: u32| #![trigger t.dom().contains(x)] #![trigger s.dom().contains(x)]
        occ(s, seq![0u32], 0, x) == 0 && !f.contains(x) && s.dom().contains(
            x,
        ) implies t.dom().contains(x) && t[x] == s[x] by {
        occ_single(s, 0, 0, x);
        assert(b.content(x) == a.content(x));
    }
    assert(kept(s, f, t, 0, 0, seq![], seq![]));
    assert forall|x: u32| #[trigger] occ(s, seq![root], h, x) > 0 implies occ(s, seq![0u32], 0, x)
        == 0 && !f.contains(x) by {
        occ_single(s, 0, 0, x);
    }
    other_tree_kept(s, f, t, f, 0, 0, root, h, m);
    assert(b.tree_at(root, h));
    b.height_is(root, h);
}

/// The pages of a file that is no longer than its pages and a part of one more.
proof fn count_of_kept(pager: &Pager)
    requires
        pager.wf(),
        pager.counts_all(),
        pager.total_pages * PAGE_SIZE < 0x1_0000_0000,
    ensures
        pages_in(pager.kept_len() as nat) == pager.total_pages,
{
    let n = pager.total_pages as int;
    let k = pager.kept_len();
    assert(n * PAGE_SIZE <= k < n * PAGE_SIZE + PAGE_SIZE);
    assert(n < 0x10_0000);
    assert(k < 0x1_0000_0000);
    assert(k / (PAGE_SIZE as int) == n);
}

/// What beginning to read a database does.
pub open spec fn read_begun(a: &BTree, b: &BTree, r: bool) -> bool {
    let v = a.pager.journal@;
    let n = pages_in(b.pager.journal@.disk.db.len());
    &&& b.wf()
    &&& b.m == a.m
    &&& !b.is_write
    &&& !b.pager.in_write
    &&& b.new_free_page@.len() == 0
    &&& forall|p: u32|
        p < b.total() ==> #[trigger] b.content(p) == page_of(b.pager.journal@.disk.db, p as int)
    &&& b.pager.journal@ == examined(v.reading())
    &&& unharmed(v, b.pager.journal@)
    &&& b.pager.journal@.disk.db == recovered(v.disk)
    &&& r ==> b.pager.at_rest()
    &&& r == (n > 0 && pages_fit(n))
    &&& r ==> b.total() == n && b.header_matches()
}

/// What beginning to change a database does.
pub open spec fn begun(a: &BTree, b: &BTree) -> bool {
    &&& b.wf()
    &&& b.m == a.m
    &&& b.is_write
    &&& b.pager.in_write
    &&& b.pager.same_pages(&a.pager)
    &&& b.new_free_page@.len() == 0
    &&& b.freelist_first == a.freelist_first
    &&& b.freelist_len == a.freelist_len
    &&& b.pager.initial_pages == a.pager.initial_pages
    &&& went_on(a.pager.journal@, b.pager.journal@)
    &&& a.pager.at_rest() ==> started(a.pager.journal@, b.pager.journal@)
    &&& if a.pager.in_write {
        b.pager.journal@ == a.pager.journal@ && b.pager.initial_len == a.pager.initial_len
    } else {
        b.pager.journal@ == writing_anew(a.pager.journal@, a.total()) && b.pager.initial_len
            == a.pager.journal@.disk.db.len()
    }
    &&& forall|p: u32|
        p < b.pager.initial_pages ==> #[trigger] b.pager.committed(p)
            == (if a.pager.in_write {
            a.pager.committed(p)
        } else {
            a.content(p)
        })
    &&& a.new_free_page@.len() == 0 ==> forall|root: u32| #[trigger]
        a.is_tree(root) ==> b.is_tree(root) && b.rows(root)
            == a.rows(root)
}

/// What writing all changes does.
pub open spec fn committed(a: &BTree, b: &BTree, r: bool) -> bool {
    &&& b.wf()
    &&& b.m == a.m
    &&& !b.is_write
    &&& !b.pager.in_write
    &&& b.total() == a.total()
    &&& b.new_free_page@.len() == 0
    &&& settles(a.pager.journal@, b.pager.journal@)
    &&& exists|m: Pager|
        m.same_transaction(&a.pager) && m.total_pages == a.total() && b.pager.journal@
            == #[trigger] m.ended()
    &&& b.pager.journal@.disk.db.len() == a.pager.kept_len()
    &&& !in_use(b.pager.journal@.disk)
    &&& a.pager.counts_all() && b.total() * PAGE_SIZE < 0x1_0000_0000 ==> b.pager.at_rest()
    &&& forall|p: u32|
        p < b.total() ==> page_of(
            b.pager.journal@.disk.db,
            p as int,
        ) == #[trigger] b.content(p)
    &&& a.free_ok() ==> {
        &&& r
        &&& b.free_ok()
        &&& b.free() == a.free()
        &&& b.header_matches()
        &&& forall|p: u32|
            0 < p < a.total() && !a.new_free_page@.contains(p)
                ==> #[trigger] b.content(p) == a.content(p)
        &&& forall|root: u32| #[trigger]
            a.is_tree(root) ==> b.is_tree(root) && b.rows(root)
                == a.rows(root)
    }
}

/// What undoing all changes does.
pub open spec fn rolled_back(a: &BTree, b: &BTree) -> bool {
    &&& b.wf()
    &&& b.m == a.m
    &&& !b.is_write
    &&& b.new_free_page@.len() == 0
    &&& !b.pager.in_write
    &&& b.pager.journal@ == examined(a.pager.journal@)
    &&& unharmed(a.pager.journal@, b.pager.journal@)
    &&& b.pager.journal@.disk.db == recovered(a.pager.journal@.disk)
    &&& can_roll_back(a.pager.journal@) ==> b.total() == (if journal_pages(
        a.pager.journal@.file(),
    ) != 0 {
        journal_pages(a.pager.journal@.file())
    } else {
        a.total()
    })
    &&& forall|p: u32|
        p < b.total() ==> #[trigger] b.content(p) == page_of(
            recovered(a.pager.journal@.disk),
            p as int,
        )
    &&& a.pager.in_write ==> {
        &&& b.total() == a.pager.initial_pages
        &&& forall|p: u32|
            p < b.total() ==> #[trigger] b.content(p)
                == a.pager.committed(p)
    }
    &&& !can_roll_back(a.pager.journal@) ==> {
        &&& b.total() == a.total()
        &&& b.pager.same_pages(&a.pager)
        &&& b.pager.journal@.disk.db == a.pager.journal@.disk.db
    }
    &&& b.total() > 0 ==> b.header_matches()
}

impl BTree {
    /// What the header page says of the free pages.
    pub open spec fn header_matches(&self) -> bool {
        &&& self.freelist_first == be32_at(self.content(0), HEADER_FREELIST as int)
        &&& self.freelist_len == be32_at(self.content(0), HEADER_FREELIST_LEN as int)
    }

    /// Reads what the header page says of the free pages.
    fn read_header(&mut self)
        requires
            old(self).wf(),
            old(self).total() > 0,
        ensures
            final(self).wf(),
            final(self).m == old(self).m,
            final(self).is_write == old(self).is_write,
            final(self).new_free_page@ == old(self).new_free_page@,
            final(self).pager.same_pages(&old(self).pager),
            final(self).pager.same_transaction(&old(self).pager),
            !old(self).pager.in_write ==> final(self).pager.journal == old(self).pager.journal,
            final(self).header_matches(),
    {
        let ghost before = *self;
        proof {
            page_len(&before.pager, 0);
        }
        let data = self.pager.page_data(0);
        self.freelist_first = get_be32(data.as_slice(), HEADER_FREELIST);
        self.freelist_len = get_be32(data.as_slice(), HEADER_FREELIST_LEN);
        assert(self.pager.content(0) == before.pager.content(0));
    }

    /// Begins to read the database; says whether it can be read. A journal that
    /// was left behind is rolled back.
    pub fn begin_transaction_read(&mut self) -> (r: bool)
        requires
            old(self).wf(),
        ensures
            read_begun(old(self), final(self), r),
    {
        self.is_write = false;
        self.new_free_page.clear();
        if !self.pager.begin_transaction_read() {
            return false;
        }
        if self.pager.total_pages == 0 {
            return false;
        }
        let ghost before = *self;
        self.read_header();
        proof {
            assert forall|p: u32| p < self.total() implies #[trigger] self.content(p) == page_of(
                self.pager.journal@.disk.db,
                p as int,
            ) by {
                assert(self.pager.content(p) == before.pager.content(p));
            }
        }
        true
    }

    /// Begins to change the database.
    pub fn begin_transaction_write(&mut self)
        requires
            old(self).wf(),
            old(self).total() > 0,
        ensures
            begun(old(self), final(self)),
    {
        let ghost before = *self;
        self.pager.begin_transaction_write();
        self.new_free_page.clear();
        self.is_write = true;
        proof {
            if before.new_free_page@.len() == 0 {
                assert(self.new_free_page@ =~= before.new_free_page@);
                assert forall|root: u32| #[trigger] before.is_tree(root) implies self.is_tree(root)
                    && self.rows(root) == before.rows(root) by {
                    assert forall|p: u32| p < before.total() implies #[trigger] self.content(p)
                        == before.content(p) by {
                        assert(self.pager.content(p) == before.pager.content(p));
                    }
                    same_contents(&before, self, root);
                }
            }
        }
    }

    /// Comes in as a reader, so that the files can be read.
    pub fn come_in(&mut self)
        requires
            old(self).wf(),
        ensures
            final(self).wf(),
            final(self).same(old(self)),
            final(self).pager.journal@ == old(self).pager.journal@.reading(),
    {
        self.pager.come_in();
    }

    /// Takes the contents that the files have now, which other programs may have changed,
    /// and begins to read them; says whether they can be read. Nothing is taken in a
    /// transaction, nor while file operations are left to perform.
    pub fn read_again(&mut self, db: Vec<u8>, journal: Option<Vec<u8>>) -> (r: bool)
        requires
            old(self).wf(),
        ensures
            old(self).pager.in_write || old(self).pager.journal@.ops.len() > 0 ==> !r
                && *final(self) == *old(self),
            !old(self).pager.in_write && old(self).pager.journal@.ops.len() == 0 ==> exists|
                m: BTree,
            | #[trigger]
                read_begun(&m, final(self), r) && m.m == old(self).m && m.pager.journal@ == (
                JournalView {
                    disk: Disk {
                        db: db@,
                        journal: match journal {
                            Some(j) => Some(j@),
                            None => None,
                        },
                    },
                    ..old(self).pager.journal@
                }),
    {
        if self.pager.in_write || self.pager.journal.ops.len() > 0 {
            return false;
        }
        self.is_write = false;
        self.pager.take_files(db, journal);
        let ghost m = *self;
        let r = self.begin_transaction_read();
        assert(read_begun(&m, self, r));
        r
    }

    /// Ends reading.
    pub fn end_transaction_read(&mut self)
        requires
            old(self).wf(),
        ensures
            final(self).wf(),
            final(self).same_data(old(self)),
            final(self).pager.journal@ == old(self).pager.journal@.left(),
    {
        self.pager.end_transaction_read();
    }

    /// Writes the pages that were freed in the transaction to the chain of free
    /// pages; says whether the free pages were in order.
    #[verifier::rlimit(60)]
    pub fn write_freepage(&mut self) -> (r: bool)
        requires
            old(self).wf(),
            old(self).is_write,
        ensures
            final(self).wf(),
            final(self).m == old(self).m,
            final(self).is_write,
            final(self).total() == old(self).total(),
            final(self).pager.same_transaction(&old(self).pager),
            final(self).new_free_page@ == old(self).new_free_page@,
            old(self).free_ok() ==> {
                &&& r
                &&& final(self).chain_pages() == old(self).new_free_page@ + old(self).chain_pages()
                &&& final(self).content(0) == with_free_list(
                    old(self).content(0),
                    final(self).freelist_first,
                    final(self).freelist_len,
                )
                &&& final(self).header_matches()
                &&& forall|p: u32|
                    0 < p < old(self).total() && !old(self).new_free_page@.contains(p)
                        ==> #[trigger] final(self).content(p) == old(self).content(p)
                &&& forall|i: int|
                    0 <= i < old(self).new_free_page@.len() ==> final(self).content(
                        #[trigger] old(self).new_free_page@[i],
                    ) == free_page(
                        next_free(
                            old(self).new_free_page@,
                            i,
                            old(self).freelist_first,
                            old(self).freelist_len,
                        ),
                    )
            },
    {
        broadcast use be32_len;

        let ghost before = *self;
        let ghost l = self.new_free_page@;
        let ghost good = before.free_ok();
        let count: usize = self.new_free_page.len();
        if self.pager.total_pages == 0 {
            return false;
        }
        proof {
            if good {
                let all = l + before.chain_pages();
                chain_len(before.pager, before.freelist_first, before.freelist_len as nat);
                assert forall|i: int, j: int|
                    0 <= i < all.len() && 0 <= j < all.len() && i != j implies all[i] != all[j] by {
                    lists_distinct(&before, i, j);
                }
                assert forall|i: int| 0 <= i < all.len() implies (#[trigger] all[i])
                    < before.total() by {
                    if i < l.len() {
                        assert(all[i] == l[i]);
                    } else {
                        assert(all[i] == before.chain_pages()[i - l.len()]);
                    }
                }
                distinct_below(all, before.total() as nat);
            }
        }
        if count > u32::MAX as usize {
            return false;
        }
        let longer: u32 = match self.freelist_len.checked_add(count as u32) {
            Some(n) => n,
            None => return false,
        };
        let mut i: usize = 0;
        while i < count
            invariant
                before == *old(self),
                before.wf(),
                self.wf(),
                self.is_write,
                self.m == before.m,
                self.total() == before.total(),
                self.pager.same_transaction(&before.pager),
                l == before.new_free_page@,
                self.new_free_page@ == l,
                count == l.len(),
                i <= count,
                self.freelist_first == before.freelist_first,
                self.freelist_len == before.freelist_len,
                good == before.free_ok(),
                good ==> forall|p: u32|
                    p < before.total() && !l.take(i as int).contains(p) ==> #[trigger] self.content(p)
                        == before.content(p),
                good ==> forall|j: int|
                    0 <= j < i ==> self.content(#[trigger] l[j]) == free_page(
                        next_free(l, j, before.freelist_first, before.freelist_len),
                    ),
            decreases count - i,
        {
            broadcast use be32_len;

            let ghost mid = *self;
            let pgno: u32 = self.new_free_page[i];
            if pgno >= self.pager.total_pages {
                return false;
            }
            let next: u32 = if i < count - 1 {
                self.new_free_page[i + 1]
            } else if self.freelist_len != 0 {
                self.freelist_first
            } else {
                0
            };
            let mut data = zeros(PAGE_SIZE);
            data.set(0, 2);
            let mut link: Vec<u8> = Vec::new();
            push_be32(&mut link, next);
            assert(link@ =~= be32(next));
            put_bytes(&mut data, FREE_NEXTPTR, link.as_slice());
            assert(data@ =~= free_page(next));
            self.pager.put_page(pgno, data);
            proof {
                assert forall|p: u32| p < before.total() implies #[trigger] self.content(p) == (if p
                    == pgno {
                    free_page(next)
                } else {
                    mid.content(p)
                }) by {
                    assert(self.pager.content(p) == (if p == pgno {
                        free_page(next)
                    } else {
                        mid.pager.content(p)
                    }));
                }
                if good {
                    assert(l.take(i + 1) =~= l.take(i as int).push(pgno));
                    assert forall|p: u32|
                        p < before.total() && !l.take(i + 1).contains(p) implies #[trigger] self.content(
                    p) == before.content(p) by {
                        assert(!l.take(i as int).contains(p)) by {
                            if l.take(i as int).contains(p) {
                                let j = choose|j: int|
                                    0 <= j < i && l.take(i as int)[j] == p;
                                assert(l.take(i + 1)[j] == p);
                            }
                        }
                        assert(p != pgno) by {
                            assert(l.take(i + 1)[i as int] == pgno);
                        }
                        assert(mid.content(p) == before.content(p));
                    }
                    assert forall|j: int| 0 <= j < i + 1 implies self.content(#[trigger] l[j])
                        == free_page(
                        next_free(l, j, before.freelist_first, before.freelist_len),
                    ) by {
                        assert(0 < l[j] < before.total());
                        if j < i {
                            assert(l[j] != l[i as int]);
                            assert(mid.content(l[j]) == free_page(
                                next_free(l, j, before.freelist_first, before.freelist_len),
                            ));
                        }
                    }
                }
            }
            i = i + 1;
        }
        let ghost mid = *self;
        if count > 0 {
            self.freelist_first = self.new_free_page[0];
            self.freelist_len = longer;
        }
        let ghost after = *self;
        proof {
            page_len(&after.pager, 0);
        }
        let data = self.pager.page_data(0);
        let mut data = data;
        let ghost page0 = data@;
        let mut first: Vec<u8> = Vec::new();
        push_be32(&mut first, self.freelist_first);
        assert(first@ =~= be32(self.freelist_first));
        put_bytes(&mut data, HEADER_FREELIST, first.as_slice());
        let mut len: Vec<u8> = Vec::new();
        push_be32(&mut len, self.freelist_len);
        assert(len@ =~= be32(self.freelist_len));
        put_bytes(&mut data, HEADER_FREELIST_LEN, len.as_slice());
        let ghost page1 = data@;
        assert(page1 == with_free_list(page0, self.freelist_first, self.freelist_len));
        let ghost read = *self;
        self.pager.put_page(0, data);
        proof {
            free_list_written(page0, self.freelist_first, self.freelist_len);
            assert forall|p: u32| p < before.total() implies #[trigger] self.content(p) == (if p
                == 0 {
                page1
            } else {
                mid.content(p)
            }) by {
                assert(self.pager.content(p) == (if p == 0 {
                    page1
                } else {
                    read.pager.content(p)
                }));
                assert(read.pager.content(p) == mid.pager.content(p));
            }
            assert(self.content(0) == page1);
            if good {
                let c = before.chain_pages();
                assert(l.take(count as int) =~= l);
                assert forall|p: u32|
                    0 < p < before.total() && !l.contains(p) implies #[trigger] self.content(p)
                    == before.content(p) by {
                    assert(mid.content(p) == before.content(p));
                }
                assert(page0 == before.content(0)) by {
                    assert(!l.take(count as int).contains(0));
                    assert(mid.content(0) == before.content(0));
                    assert(read.pager.content(0) == mid.pager.content(0));
                }
                assert forall|i: int| 0 <= i < l.len() implies self.content(#[trigger] l[i])
                    == free_page(next_free(l, i, before.freelist_first, before.freelist_len)) by {
                    assert(0 < l[i] < before.total());
                    assert(mid.content(l[i]) == free_page(
                        next_free(l, i, before.freelist_first, before.freelist_len),
                    ));
                }
                assert forall|i: int| 0 <= i < c.len() implies self.pager.content(#[trigger] c[i])
                    == before.pager.content(c[i]) by {
                    assert(!l.contains(c[i]));
                    assert(self.content(c[i]) == before.content(c[i]));
                }
                chain_same(
                    before.pager,
                    self.pager,
                    before.freelist_first,
                    before.freelist_len as nat,
                );
                longer_chain(self.pager, l, before.freelist_first, before.freelist_len, 0);
                assert(l.skip(0) =~= l);
                if count == 0 {
                    assert(l + c =~= c);
                }
            }
        }
        true
    }

    /// Writes all changes to the database file.
    #[verifier::rlimit(40)]
    pub fn end_transaction_write(&mut self) -> (r: bool)
        requires
            old(self).wf(),
            old(self).is_write,
        ensures
            committed(old(self), final(self), r),
    {
        let ghost before = *self;
        let r = self.write_freepage();
        let ghost one = *self;
        self.pager.end_transaction_write();
        self.is_write = false;
        self.new_free_page.clear();
        proof {
            assert(one.pager.same_transaction(&before.pager) && self.pager.journal@
                == one.pager.ended());
            if before.pager.counts_all() && self.total() * PAGE_SIZE < 0x1_0000_0000 {
                count_of_kept(&before.pager);
            }
            assert forall|p: u32| p < self.total() implies #[trigger] self.content(p)
                == one.content(p) && page_of(self.pager.journal@.disk.db, p as int)
                == self.content(p) by {
                assert(self.pager.content(p) == one.pager.content(p));
            }
            if before.free_ok() {
                let l = before.new_free_page@;
                let c = before.chain_pages();
                let d = one.chain_pages();
                assert forall|i: int| 0 <= i < d.len() implies self.pager.content(#[trigger] d[i])
                    == one.pager.content(d[i]) by {
                    if i < l.len() {
                        assert(d[i] == l[i]);
                    } else {
                        assert(d[i] == c[i - l.len()]);
                    }
                    assert(self.content(d[i]) == one.content(d[i]));
                }
                chain_same(
                    one.pager,
                    self.pager,
                    one.freelist_first,
                    one.freelist_len as nat,
                );
                assert(self.chain_pages() == d);
                assert forall|i: int, j: int|
                    0 <= i < d.len() && 0 <= j < d.len() && i != j implies d[i] != d[j] by {
                    lists_distinct(&before, i, j);
                }
                assert forall|i: int| 0 <= i < d.len() implies 0 < #[trigger] d[i] < self.total()
                    && self.content(d[i])[0] != 0 && !self.new_free_page@.contains(d[i]) by {
                    if i < l.len() {
                        assert(d[i] == l[i]);
                        free_page_next(
                            next_free(l, i, before.freelist_first, before.freelist_len),
                        );
                        assert(one.content(l[i]) == free_page(
                            next_free(l, i, before.freelist_first, before.freelist_len),
                        ));
                    } else {
                        let x = c[i - l.len()];
                        assert(d[i] == x);
                        assert(!l.contains(x));
                        assert(one.content(x) == before.content(x));
                    }
                    assert(self.content(d[i]) == one.content(d[i]));
                }
                assert(self.free_ok());
                assert forall|q: u32| #[trigger] self.is_free(q) == before.is_free(q) by {
                    if d.contains(q) {
                        let i = choose|i: int| 0 <= i < d.len() && d[i] == q;
                        if i < l.len() {
                            assert(l[i] == q);
                        } else {
                            assert(c[i - l.len()] == q);
                        }
                    }
                    if l.contains(q) {
                        let i = choose|i: int| 0 <= i < l.len() && l[i] == q;
                        assert(d[i] == q);
                    }
                    if c.contains(q) {
                        let i = choose|i: int| 0 <= i < c.len() && c[i] == q;
                        assert(d[l.len() + i] == q);
                    }
                }
                assert(self.free() =~= before.free());
                assert forall|p: u32|
                    0 < p < before.total() && !l.contains(p) implies #[trigger] self.content(p)
                    == before.content(p) by {
                    assert(one.content(p) == before.content(p));
                }
                assert(self.content(0) == one.content(0));
                assert forall|root: u32| #[trigger] before.is_tree(root) implies self.is_tree(root)
                    && self.rows(root) == before.rows(root) by {
                    assert forall|p: u32|
                        0 < p < before.total() && !before.free().contains(
                            p,
                        ) implies #[trigger] self.content(p) == before.content(p) by {
                        assert(!before.is_free(p));
                    }
                    trees_stay(&before, self, root);
                }
            }
        }
        r
    }

    /// Undoes all changes since the transaction began, or what a journal that was left
    /// behind has saved.
    pub fn rollback(&mut self)
        requires
            old(self).wf(),
        ensures
            rolled_back(old(self), final(self)),
    {
        let ghost before = *self;
        self.new_free_page.clear();
        self.is_write = false;
        self.pager.check_and_tryrollback();
        let ghost mid = *self;
        if self.pager.total_pages > 0 {
            self.read_header();
        }
        proof {
            self.pager.all_in_file();
            assert forall|p: u32| p < self.total() implies #[trigger] self.content(p) == page_of(
                recovered(before.pager.journal@.disk),
                p as int,
            ) by {
                assert(self.pager.content(p) == page_of(self.pager.journal@.disk.db, p as int));
            }
            if before.pager.in_write {
                assert forall|p: u32| p < self.total() implies #[trigger] self.content(p)
                    == before.pager.committed(p) by {
                    assert(self.pager.content(p) == mid.pager.content(p));
                    assert(mid.pager.content(p) == before.pager.committed(p));
                }
            }
        }
    }

    /// An empty node on a new page; it is not written yet.
    pub fn newnode(&mut self, is_leaf: bool, is_data_table: bool) -> (r: Option<BTreeNode>)
        requires
            old(self).wf(),
            old(self).is_write,
        ensures
            final(self).wf(),
            final(self).m == old(self).m,
            final(self).is_write,
            final(self).pager.same_transaction(&old(self).pager),
            r is Some <==> old(self).next_free_page() is Some || old(self).can_grow(1),
            r matches Some(n) ==> n.pgno == (match old(self).next_free_page() {
                Some(p) => p,
                None => old(self).total(),
            }),
            final(self).total() == old(self).total() + (if old(self).next_free_page() is None
                && r is Some {
                1int
            } else {
                0
            }),
            old(self).free_ok() ==> final(self).spends(old(self)),
            old(self).total() <= final(self).total() <= old(self).total() + 1,
            forall|q: u32|
                q < old(self).total() ==> #[trigger] final(self).content(q) == old(self).content(q),
            old(self).free_ok() && old(self).can_grow(1) ==> r is Some,
            old(self).free_ok() ==> final(self).free_ok(),
            old(self).free_ok() && r is None ==> final(self).free() == old(self).free(),
            r matches Some(n) ==> n@ == (NodeView {
                leaf: is_leaf,
                data: is_data_table,
                left: 0,
                right: 0,
                kids: seq![],
                cells: seq![],
            }) && (old(self).free_ok() ==> {
                &&& 0 < n.pgno < final(self).total()
                &&& old(self).free().contains(n.pgno)
                &&& final(self).free() == old(self).free().remove(n.pgno)
                &&& forall|q: u32|
                    q != n.pgno && old(self).store().dom().contains(q) ==> #[trigger] final(
                        self).store().dom().contains(q) && final(self).store()[q]
                        == old(self).store()[q]
            }),
    {
        let ghost before = *self;
        match self.get_newpage() {
            Some(p) => {
                proof {
                    if before.free_ok() {
                        assert(self.free() =~= before.free().remove(p));
                        assert(before.free().contains(p));
                    }
                }
                Some(BTreeNode::load_empty_page(p, is_leaf, is_data_table))
            },
            None => {
                proof {
                    if before.free_ok() {
                        assert(self.free() =~= before.free());
                    }
                }
                None
            },
        }
    }
}

/// A chain has as many pages as it is said to have.
proof fn chain_len(pager: Pager, first: u32, n: nat)
    ensures
        free_chain(pager, first, n).len() == n,
    decreases n,
{
    if n > 0 {
        chain_len(pager, be32_at(pager.content(first), FREE_NEXTPTR as int), (n - 1) as nat);
    }
}

/// No page is listed twice as free.
proof fn lists_distinct(b: &BTree, i: int, j: int)
    requires
        b.free_ok(),
        0 <= i < b.new_free_page@.len() + b.chain_pages().len(),
        0 <= j < b.new_free_page@.len() + b.chain_pages().len(),
        i != j,
    ensures
        (b.new_free_page@ + b.chain_pages())[i] != (b.new_free_page@ + b.chain_pages())[j],
{
    let l = b.new_free_page@;
    let c = b.chain_pages();
    if i < l.len() && j < l.len() {
        assert(l[i] != l[j]);
    } else if i < l.len() {
        assert(!l.contains(c[j - l.len()]));
        assert(l.contains(l[i]));
    } else if j < l.len() {
        assert(!l.contains(c[i - l.len()]));
        assert(l.contains(l[j]));
    } else {
        assert(c[i - l.len()] != c[j - l.len()]);
    }
}

/// A rollback gives back the trees that were there when the transaction began:
/// `a` is the database before the transaction, `b` in it, and `c` after the
/// rollback.
pub proof fn rollback_restores(a: &BTree, b: &BTree, c: &BTree, root: u32)
    requires
        a.is_tree(root),
        a.new_free_page@.len() == 0,
        a.header_matches(),
        b.pager.initial_pages == a.total(),
        forall|p: u32| p < a.total() ==> #[trigger] b.pager.committed(p) == a.content(p),
        c.m == a.m,
        c.new_free_page@.len() == 0,
        c.header_matches(),
        c.total() == b.pager.initial_pages,
        forall|p: u32| p < c.total() ==> #[trigger] c.content(p) == b.pager.committed(p),
    ensures
        c.is_tree(root),
        c.rows(root) == a.rows(root),
{
    assert forall|p: u32| p < a.total() implies #[trigger] c.content(p) == a.content(p) by {
        assert(c.content(p) == b.pager.committed(p));
        assert(b.pager.committed(p) == a.content(p));
    }
    assert(a.total() > 0) by {
        assert(a.tree_at(root, a.height(root)));
    }
    assert(c.content(0) == a.content(0));
    assert(c.new_free_page@ =~= a.new_free_page@);
    same_contents(a, c, root);
}

/// The pages of trees.
pub open spec fn pages_of(s: Store, l: Seq<u32>, h: nat) -> Set<u32> {
    Set::new(|x: u32| occ(s, l, h, x) > 0)
}

impl BTree {
    /// Frees all pages of the tree of page `pgno`; `fuel` bounds its height. Says
    /// whether the pages were a tree.
    #[verifier::rlimit(60)]
    fn free_pages(&mut self, pgno: u32, fuel: u32, Ghost(h): Ghost<nat>, Ghost(top): Ghost<
        bool,
    >) -> (r: bool)
        requires
            old(self).wf(),
        ensures
            final(self).wf(),
            final(self).m == old(self).m,
            final(self).is_write == old(self).is_write,
            final(self).total() == old(self).total(),
            final(self).pager.same_pages(&old(self).pager),
            final(self).pager.same_transaction(&old(self).pager),
            final(self).store() == old(self).store(),
            final(self).freelist_first == old(self).freelist_first,
            final(self).freelist_len == old(self).freelist_len,
            rises(old(self).new_free_page@) ==> rises(final(self).new_free_page@),
            ({
                let s = old(self).store();
                old(self).free_ok() && fuel > h && ok(s, pgno, h, old(self).m as nat, top)
                    && unique(s, seq![pgno], h) && (forall|x: u32| #[trigger]
                    occ(s, seq![pgno], h, x) > 0 ==> x != 0 && !old(self).free().contains(x)) ==> {
                    &&& r
                    &&& final(self).free_ok()
                    &&& final(self).free() == old(self).free().union(pages_of(s, seq![pgno], h))
                }
            }),
        decreases fuel,
    {
        let ghost before = *self;
        let ghost s = self.store();
        let ghost f = self.free();
        let ghost m = self.m as nat;
        let ghost good = before.free_ok() && fuel > h && ok(s, pgno, h, m, top) && unique(
            s,
            seq![pgno],
            h,
        ) && (forall|x: u32| #[trigger] occ(s, seq![pgno], h, x) > 0 ==> x != 0 && !f.contains(x));
        proof {
            same_facts(&before, self);
        }
        if fuel == 0 {
            return false;
        }
        let node = match self.getnode(pgno) {
            Some(n) => n,
            None => return false,
        };
        let ghost d = (h - 1) as nat;
        let ghost kids = node@.kids;
        proof {
            if good {
                assert(self.free() =~= f);
            }
        }
        if !node.is_leaf {
            let mut i: usize = 0;
            let ghost none = Seq::<u32>::empty();
            proof {
                if good {
                    assert(kids.take(0) =~= none);
                    assert forall|x: u32| !#[trigger] pages_of(s, kids.take(0), d).contains(x) by {
                        reveal(occ);
                    }
                    assert(self.free() =~= f.union(pages_of(s, kids.take(0), d)));
                }
            }
            while i < node.children_pgno.len()
                invariant
                    before == *old(self),
                    before.wf(),
                    self.wf(),
                    self.m == before.m,
                    m == before.m,
                    self.is_write == before.is_write,
                    self.total() == before.total(),
                    self.pager.same_pages(&before.pager),
                    self.pager.same_transaction(&before.pager),
                    self.store() == s,
                    self.freelist_first == before.freelist_first,
                    self.freelist_len == before.freelist_len,
                    rises(before.new_free_page@) ==> rises(self.new_free_page@),
                    s == before.store(),
                    f == before.free(),
                    fuel > 0,
                    i <= node.children_pgno@.len(),
                    kids == node.children_pgno@,
                    good == (before.free_ok() && fuel > h && ok(s, pgno, h, m, top) && unique(
                        s,
                        seq![pgno],
                        h,
                    ) && (forall|x: u32| #[trigger]
                        occ(s, seq![pgno], h, x) > 0 ==> x != 0 && !f.contains(x))),
                    good ==> h > 0 && d == h - 1 && kids == s[pgno].kids && self.free_ok()
                        && self.free() == f.union(pages_of(s, kids.take(i as int), d)),
                decreases node.children_pgno.len() - i,
            {
                let ghost mid = *self;
                let child: u32 = node.children_pgno[i];
                proof {
                    if good {
                        child_apart(s, pgno, h, m, top, i as int);
                        assert(ok(s, kids[i as int], d, m, false));
                        assert forall|x: u32| #[trigger] occ(s, seq![child], d, x) > 0 implies x != 0
                            && !mid.free().contains(x) by {
                            assert(occ(s, seq![pgno], h, x) > 0);
                            assert(!pages_of(s, kids.take(i as int), d).contains(x));
                        }
                    }
                }
                let ok = self.free_pages(child, fuel - 1, Ghost(d), Ghost(false));
                proof {
                    assert forall|p: u32| p < self.total() implies #[trigger] self.pager.content(p)
                        == before.pager.content(p) by {
                        assert(mid.pager.content(p) == before.pager.content(p));
                    }
                    if before.pager.in_write {
                        assert forall|p: u32|
                            p < self.pager.initial_pages implies #[trigger] self.pager.committed(p)
                            == before.pager.committed(p) by {
                            assert(mid.pager.committed(p) == before.pager.committed(p));
                        }
                    }
                    if good {
                        assert(kids.take(i + 1) =~= kids.take(i as int) + seq![child]);
                        assert forall|x: u32| #[trigger]
                            pages_of(s, kids.take(i + 1), d).contains(x) == (pages_of(
                                s,
                                kids.take(i as int),
                                d,
                            ).contains(x) || pages_of(s, seq![child], d).contains(x)) by {
                            occ_concat(s, kids.take(i as int), seq![child], d, x);
                        }
                        assert(self.free() =~= f.union(pages_of(s, kids.take(i + 1), d)));
                    }
                }
                if !ok {
                    return false;
                }
                i = i + 1;
            }
            proof {
                if good {
                    assert(kids.take(i as int) =~= kids);
                }
            }
        }
        let ghost last = *self;
        proof {
            if good {
                occ_single(s, pgno, h, pgno);
                assert(occ(s, seq![pgno], h, pgno) > 0);
                assert(occ(s, seq![pgno], h, pgno) <= 1);
                assert(!last.is_free(pgno)) by {
                    assert(last.is_free(pgno) == last.free().contains(pgno));
                }
                assert(pgno < before.total());
            }
        }
        self.set_page_free(pgno);
        proof {
            place_keeps_rising(last.new_free_page@, pgno);
            if good {
                assert forall|x: u32| #[trigger] self.free().contains(x) == f.union(
                    pages_of(s, seq![pgno], h),
                ).contains(x) by {
                    occ_single(s, pgno, h, x);
                    assert(self.is_free(x) == (last.is_free(x) || x == pgno));
                    assert(last.is_free(x) == last.free().contains(x));
                    if h > 0 {
                        assert(pages_of(s, kids, d).contains(x) == (occ(s, kids, d, x) > 0));
                    }
                    assert(pages_of(s, seq![pgno], h).contains(x) == (occ(s, seq![pgno], h, x)
                        > 0));
                }
                assert(self.free() =~= f.union(pages_of(s, seq![pgno], h)));
            }
        }
        true
    }

    /// Frees every page of the tree of page `root_pgno`; says whether it was a
    /// tree.
    pub fn free_tree(&mut self, root_pgno: u32) -> (r: bool)
        requires
            old(self).wf(),
        ensures
            final(self).wf(),
            final(self).m == old(self).m,
            final(self).is_write == old(self).is_write,
            final(self).total() == old(self).total(),
            final(self).pager.same_pages(&old(self).pager),
            final(self).pager.same_transaction(&old(self).pager),
            final(self).store() == old(self).store(),
            final(self).freelist_first == old(self).freelist_first,
            final(self).freelist_len == old(self).freelist_len,
            rises(old(self).new_free_page@) ==> rises(final(self).new_free_page@),
            old(self).is_tree(root_pgno) ==> {
                &&& r
                &&& final(self).chain_pages() == old(self).chain_pages()
                &&& forall|x: u32| #[trigger]
                    final(self).new_free_page@.contains(x) <==> old(self).new_free_page@.contains(x)
                        || old(self).owns(root_pgno, x)
                &&& final(self).free_ok()
                &&& forall|x: u32| #[trigger]
                    final(self).free().contains(x) <==> old(self).free().contains(x) || old(
                        self).owns(root_pgno, x)
            },
    {
        let ghost before = *self;
        let ghost good = before.is_tree(root_pgno);
        let ghost h = before.height(root_pgno);
        let ghost s = before.store();
        proof {
            if good {
                assert(before.tree_at(root_pgno, h));
            }
        }
        let d: u32 = match self.depth(root_pgno) {
            Some(d) => d,
            None => return false,
        };
        let ghost one = *self;
        if d == u32::MAX {
            return false;
        }
        let r = self.free_pages(root_pgno, d + 1, Ghost(h), Ghost(true));
        proof {
            assert forall|p: u32| p < self.total() implies #[trigger] self.pager.content(p)
                == before.pager.content(p) by {
                assert(one.pager.content(p) == before.pager.content(p));
            }
            if before.pager.in_write {
                assert forall|p: u32|
                    p < self.pager.initial_pages implies #[trigger] self.pager.committed(p)
                    == before.pager.committed(p) by {
                    assert(one.pager.committed(p) == before.pager.committed(p));
                }
            }
            if good {
                assert forall|x: u32| #[trigger]
                    self.free().contains(x) <==> before.free().contains(x) || before.owns(
                        root_pgno,
                        x,
                    ) by {
                    assert(pages_of(s, seq![root_pgno], h).contains(x) == (occ(
                        s,
                        seq![root_pgno],
                        h,
                        x,
                    ) > 0));
                }
                let l = before.chain_pages();
                assert forall|i: int| 0 <= i < l.len() implies self.pager.content(#[trigger] l[i])
                    == before.pager.content(l[i]) by {
                    assert(0 < l[i] < before.total());
                }
                chain_same(
                    before.pager,
                    self.pager,
                    before.freelist_first,
                    before.freelist_len as nat,
                );
                assert forall|x: u32| #[trigger]
                    self.new_free_page@.contains(x) <==> before.new_free_page@.contains(x)
                        || before.owns(root_pgno, x) by {
                    assert(self.free().contains(x) == self.is_free(x));
                    assert(before.free().contains(x) == before.is_free(x));
                    crate::engine::whole::root_in_store(s, root_pgno, h, before.m as nat, true);
                    if before.owns(root_pgno, x) {
                        assert(s.dom().contains(x));
                    }
                    if self.new_free_page@.contains(x) {
                        let i = choose|i: int|
                            0 <= i < self.new_free_page@.len() && self.new_free_page@[i] == x;
                        assert(0 < self.new_free_page@[i] < self.total());
                        if self.chain_pages().contains(x) {
                            let c = self.chain_pages();
                            let j = choose|j: int| 0 <= j < c.len() && c[j] == x;
                            assert(!self.new_free_page@.contains(c[j]));
                        }
                    }
                    if before.new_free_page@.contains(x) {
                        let w = before.new_free_page@;
                        let i = choose|i: int| 0 <= i < w.len() && w[i] == x;
                        assert(0 < w[i] < before.total());
                        if l.contains(x) {
                            let j = choose|j: int| 0 <= j < l.len() && l[j] == x;
                            assert(!before.new_free_page@.contains(l[j]));
                        }
                    }
                }
            }
        }
        r
    }

    /// Makes a database of the header page alone: begins a transaction and
    /// writes an empty tree to page 1. Says whether the pages can be addressed.
    #[verifier::rlimit(40)]
    pub fn create_db(&mut self) -> (r: bool)
        requires
            old(self).wf(),
        ensures
            final(self).wf(),
            final(self).m == old(self).m,
            went_on(old(self).pager.journal@, final(self).pager.journal@),
            r ==> {
                &&& final(self).is_write
                &&& final(self).total() >= 2
                &&& final(self).store().dom().contains(1)
                &&& final(self).store()[1] == empty_leaf()
                &&& final(self).freelist_len == 0 ==> final(self).is_tree(1) && final(self).rows(1)
                    == Seq::<CellView>::empty()
                &&& final(self).new_free_page@.len() == 0
            },
            !crate::engine::pages::can_roll_back(old(self).pager.journal@) && old(
                self).pager.journal@.disk.db.len() == PAGE_SIZE && pages_fit(2) ==> r && final(
                self).total() == 2 && final(self).pager.counts_all() && final(self).freelist_len == be32_at(
                page_of(old(self).pager.journal@.disk.db, 0),
                HEADER_FREELIST_LEN as int,
            ),
    {
        let ghost before = *self;
        if !self.begin_transaction_read() {
            return false;
        }
        let ghost one = *self;
        proof {
            assert(one.content(0) == page_of(one.pager.journal@.disk.db, 0));
        }
        self.begin_transaction_write();
        let ghost two = *self;
        if self.pager.total_pages == 1 {
            if self.pager.grow().is_none() {
                return false;
            }
        }
        let ghost three = *self;
        let node = BTreeNode::load_empty_page(1, true, true);
        proof {
            empty_fits(node@);
        }
        if !self.putnode(&node) {
            return false;
        }
        proof {
            assert(self.store()[1] == empty_leaf());
            assert(self.new_free_page@ =~= seq![]);
            if self.freelist_len == 0 {
                assert(self.chain_pages() =~= seq![]);
                assert(self.free_ok());
                let f = self.free();
                let s = self.store();
                assert(!self.is_free(0) && !self.is_free(1));
                single(s, 1, 0);
                let none = Seq::<u32>::empty();
                assert(none + level(s, seq![1u32], 0) + none =~= seq![1u32]);
                assert(linked(s, seq![1u32])) by {
                    reveal(linked);
                }
                assert forall|x: u32| #[trigger] occ(s, seq![1u32], 0, x) <= 1 && (occ(
                    s,
                    seq![1u32],
                    0,
                    x,
                ) > 0 ==> x != 0 && !f.contains(x)) by {
                    occ_single(s, 1, 0, x);
                }
                assert(is_root(s, f, 1, 0, self.m as nat));
                assert(self.tree_at(1, 0));
                self.height_is(1, 0);
            }
        }
        true
    }
}

/// An empty leaf of a table.
pub open spec fn empty_leaf() -> NodeView {
    NodeView { leaf: true, data: true, left: 0, right: 0, kids: seq![], cells: seq![] }
}

/// A leaf without cells fits into a page.
pub proof fn empty_fits(n: NodeView)
    requires
        n.leaf,
        n.kids.len() == 0,
        n.cells.len() == 0,
    ensures
        node_fits(n),
{
}

/// The pages of a child occur in no child before it, and in the whole tree.
proof fn child_apart(s: Store, p: u32, h: nat, m: nat, top: bool, i: int)
    requires
        ok(s, p, h, m, top),
        unique(s, seq![p], h),
        h > 0,
        0 <= i < s[p].kids.len(),
    ensures
        unique(s, seq![s[p].kids[i]], (h - 1) as nat),
        forall|x: u32| #[trigger]
            occ(s, seq![s[p].kids[i]], (h - 1) as nat, x) > 0 ==> occ(s, seq![p], h, x) > 0 && occ(
                s,
                s[p].kids.take(i),
                (h - 1) as nat,
                x,
            ) == 0,
{
    let d = (h - 1) as nat;
    let k = s[p].kids;
    around(s, k, i, d);
    assert forall|x: u32| #[trigger] occ(s, seq![k[i]], d, x) <= 1 && (occ(s, seq![k[i]], d, x) > 0
        ==> occ(s, seq![p], h, x) > 0 && occ(s, k.take(i), d, x) == 0) by {
        occ_single(s, p, h, x);
        assert(occ(s, seq![p], h, x) <= 1);
        assert(occ(s, k, d, x) == occ(s, k.take(i), d, x) + occ(s, seq![k[i]], d, x) + occ(
            s,
            k.skip(i + 1),
            d,
            x,
        ));
    }
}

} // verus!
