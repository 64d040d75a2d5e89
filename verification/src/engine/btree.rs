//! Trees in pages: reading and writing nodes, and free pages.
//!
//! Free pages are kept in two ways. Pages that were freed in the transaction
//! are in a list. Those freed before form a chain in the file: the header page
//! names the first and their number, and each names the next.
use vstd::prelude::*;

use crate::engine::bytes::{be32_at, get_be32};
use crate::engine::node::{
    decode_encode_node, decode_node, node_fits, node_ok, BTreeNode, PAGE_SIZE,
};
use crate::engine::journal::pages_fit;
use crate::engine::pages::Pager;
use crate::engine::tree::Store;
use crate::engine::recovery::group_calls;

verus! {

broadcast use group_calls;

pub const HEADER_FREELIST: usize = 0x20;

pub const HEADER_FREELIST_LEN: usize = 0x24;

pub const FREE_NEXTPTR: usize = 0x10;

/// The trees of a database.
pub struct BTree {
    pub pager: Pager,
    pub m: usize,
    pub is_write: bool,
    pub new_free_page: Vec<u32>,
    pub freelist_first: u32,
    pub freelist_len: u32,
}

/// The pages of a chain of `n` free pages that starts at `first`.
pub open spec fn free_chain(pager: Pager, first: u32, n: nat) -> Seq<u32>
    decreases n,
{
    if n == 0 {
        seq![]
    } else {
        seq![first] + free_chain(
            pager,
            be32_at(pager.content(first), FREE_NEXTPTR as int),
            (n - 1) as nat,
        )
    }
}

impl BTree {
    /// The bytes of page `p`.
    pub open spec fn content(&self, p: u32) -> Seq<u8> {
        self.pager.content(p)
    }

    /// Number of pages of the database.
    pub open spec fn total(&self) -> u32 {
        self.pager.total_pages
    }

    /// The nodes that the pages hold.
    pub open spec fn store(&self) -> Store {
        Map::new(
            |p: u32| p < self.total() && node_ok(self.content(p)),
            |p: u32| decode_node(self.content(p)),
        )
    }

    /// The pages of the chain of free pages.
    pub open spec fn chain_pages(&self) -> Seq<u32> {
        free_chain(self.pager, self.freelist_first, self.freelist_len as nat)
    }

    /// Whether `p` can be taken for a new node.
    pub open spec fn is_free(&self, p: u32) -> bool {
        p >= self.total() || self.new_free_page@.contains(p) || self.chain_pages().contains(p)
    }

    /// The free page that a new node gets, where there is one: the one that was freed
    /// last in this transaction, else the first of the chain.
    pub open spec fn next_free_page(&self) -> Option<u32> {
        if self.new_free_page@.len() > 0 {
            Some(self.new_free_page@.last())
        } else if self.freelist_len > 0 && 0 < self.freelist_first < self.total() {
            Some(self.freelist_first)
        } else {
            None
        }
    }

    /// Whether this database comes from `o` by using free pages, and by adding pages only
    /// once none was free.
    pub open spec fn spends(&self, o: &BTree) -> bool {
        &&& self.total() >= o.total()
        &&& o.next_free_page() is None ==> self.next_free_page() is None
        &&& self.total() > o.total() ==> self.next_free_page() is None
    }

    /// Whether free pages are pages of the database, each listed once and
    /// marked.
    pub open spec fn free_ok(&self) -> bool {
        let l = self.new_free_page@;
        let c = self.chain_pages();
        &&& l.no_duplicates()
        &&& c.no_duplicates()
        &&& forall|i: int| 0 <= i < l.len() ==> 0 < #[trigger] l[i] < self.total()
        &&& forall|i: int|
            0 <= i < c.len() ==> 0 < #[trigger] c[i] < self.total() && self.content(c[i])[0] != 0
                && !l.contains(c[i])
        &&& self.total() > 0
    }

    /// The invariant of the trees.
    pub open spec fn wf(&self) -> bool {
        &&& self.pager.wf()
        &&& self.pager.idle()
        &&& self.pager.max_pinned > 0
        &&& 2 <= self.m <= usize::MAX / 2
        &&& self.is_write ==> self.pager.in_write
    }

    /// Whether `n` more pages can be added.
    pub open spec fn can_grow(&self, n: int) -> bool {
        self.total() + n <= u32::MAX && pages_fit(self.total() + n)
    }

    /// Whether both hold the same pages, with the same pages free.
    pub open spec fn same(&self, o: &BTree) -> bool {
        &&& self.same_data(o)
        &&& self.pager.same_transaction(&o.pager)
    }

    /// Whether both hold the same pages, with the same pages free, whatever locks they
    /// have.
    pub open spec fn same_data(&self, o: &BTree) -> bool {
        &&& self.m == o.m
        &&& self.is_write == o.is_write
        &&& self.new_free_page@ == o.new_free_page@
        &&& self.freelist_first == o.freelist_first
        &&& self.freelist_len == o.freelist_len
        &&& self.pager.same_pages(&o.pager)
        &&& self.pager.same_rollback(&o.pager)
    }

    /// Number of free pages in the chain.
    pub fn get_freelist_len(&self) -> (r: u32)
        ensures
            r == self.freelist_len,
    {
        self.freelist_len
    }

    /// The first free page of the chain.
    pub fn get_freelist_first(&self) -> (r: u32)
        ensures
            r == self.freelist_first,
    {
        self.freelist_first
    }
}

/// Chains rest on the contents of their pages alone.
pub proof fn chain_same(a: Pager, b: Pager, first: u32, n: nat)
    requires
        forall|i: int|
            0 <= i < free_chain(a, first, n).len() ==> b.content(
                #[trigger] free_chain(a, first, n)[i],
            ) == a.content(free_chain(a, first, n)[i]),
    ensures
        free_chain(b, first, n) == free_chain(a, first, n),
    decreases n,
{
    if n > 0 {
        let c = free_chain(a, first, n);
        assert(c[0] == first);
        let next = be32_at(a.content(first), FREE_NEXTPTR as int);
        let d = free_chain(a, next, (n - 1) as nat);
        assert forall|i: int| 0 <= i < d.len() implies b.content(#[trigger] d[i]) == a.content(
            d[i],
        ) by {
            assert(c[i + 1] == d[i]);
        }
        chain_same(a, b, next, (n - 1) as nat);
    }
}

/// Databases with the same pages hold the same nodes and free pages.
pub proof fn same_facts(a: &BTree, b: &BTree)
    requires
        b.same(a),
        a.total() == b.total(),
    ensures
        b.store() == a.store(),
        a.free_ok() ==> b.free_ok() && b.chain_pages() == a.chain_pages() && forall|p: u32|
            #[trigger] b.is_free(p) == a.is_free(p),
{
    assert(b.store() =~= a.store()) by {
        assert forall|p: u32| p < a.total() implies #[trigger] b.content(p) == a.content(p) by {
            assert(b.pager.content(p) == a.pager.content(p));
        }
    }
    if a.free_ok() {
        let c = a.chain_pages();
        assert forall|i: int| 0 <= i < c.len() implies b.pager.content(#[trigger] c[i])
            == a.pager.content(c[i]) by {}
        chain_same(a.pager, b.pager, a.freelist_first, a.freelist_len as nat);
        assert forall|i: int| 0 <= i < c.len() implies 0 < #[trigger] b.chain_pages()[i] < b.total()
            && b.content(b.chain_pages()[i])[0] != 0 && !b.new_free_page@.contains(
            b.chain_pages()[i],
        ) by {
            assert(c[i] == b.chain_pages()[i]);
            assert(b.pager.content(c[i]) == a.pager.content(c[i]));
        }
    }
}

/// Holding the same pages is transitive.
pub proof fn same_transitive(a: &BTree, b: &BTree, c: &BTree)
    requires
        b.same(a),
        c.same(b),
    ensures
        c.same(a),
{
    assert forall|p: u32| p < c.total() implies #[trigger] c.pager.content(p) == a.pager.content(
        p,
    ) by {
        assert(b.pager.content(p) == a.pager.content(p));
    }
    if c.pager.in_write {
        assert forall|p: u32| p < c.pager.initial_pages implies #[trigger] c.pager.committed(p)
            == a.pager.committed(p) by {
            assert(b.pager.committed(p) == a.pager.committed(p));
        }
    }
}

/// Writing a page that is not in the chain of free pages leaves the free pages.
pub proof fn write_keeps_free(a: &BTree, b: &BTree, p: u32)
    requires
        a.free_ok(),
        !a.chain_pages().contains(p),
        b.total() == a.total(),
        b.new_free_page@ == a.new_free_page@,
        b.freelist_first == a.freelist_first,
        b.freelist_len == a.freelist_len,
        forall|q: u32| q < a.total() && q != p ==> #[trigger] b.content(q) == a.content(q),
    ensures
        b.free_ok(),
        b.chain_pages() == a.chain_pages(),
        forall|q: u32| #[trigger] b.is_free(q) == a.is_free(q),
{
    let c = a.chain_pages();
    assert forall|i: int| 0 <= i < c.len() implies b.pager.content(#[trigger] c[i])
        == a.pager.content(c[i]) by {
        assert(c.contains(c[i]));
        assert(b.content(c[i]) == a.content(c[i]));
    }
    chain_same(a.pager, b.pager, a.freelist_first, a.freelist_len as nat);
    assert forall|i: int| 0 <= i < c.len() implies 0 < #[trigger] b.chain_pages()[i] < b.total()
        && b.content(b.chain_pages()[i])[0] != 0 && !b.new_free_page@.contains(
        b.chain_pages()[i],
    ) by {
        assert(c[i] == b.chain_pages()[i]);
        assert(c.contains(c[i]));
        assert(b.content(c[i]) == a.content(c[i]));
    }
}

impl BTree {
    /// Trees over a pager, with nodes of fewer than `2 * m` cells. Nodes below a root
    /// have `m` cells at least, and one of them may go before neighbours make up for
    /// it: with `m` one there would be no key left to part them by.
    pub fn new(pager: Pager, m: usize) -> (r: Self)
        requires
            pager.wf(),
            pager.idle(),
            pager.max_pinned > 0,
            2 <= m <= usize::MAX / 2,
        ensures
            r.wf(),
            r.pager == pager,
            r.m == m,
            !r.is_write,
            r.new_free_page@.len() == 0,
            r.freelist_first == 0,
            r.freelist_len == 0,
    {
        BTree {
            pager,
            m,
            is_write: false,
            new_free_page: Vec::new(),
            freelist_first: 0,
            freelist_len: 0,
        }
    }

    /// Reads the node of page `pgno`, if it is one.
    pub fn getnode(&mut self, pgno: u32) -> (r: Option<BTreeNode>)
        requires
            old(self).wf(),
        ensures
            final(self).wf(),
            final(self).same(old(self)),
            final(self).store() == old(self).store(),
            old(self).free_ok() ==> final(self).free_ok() && forall|p: u32| #[trigger]
                final(self).is_free(p) == old(self).is_free(p),
            r is Some <==> old(self).store().dom().contains(pgno),
            r matches Some(n) ==> n.pgno == pgno && n@ == old(self).store()[pgno],
    {
        if pgno >= self.pager.total_pages {
            proof {
                same_facts(old(self), self);
            }
            return None;
        }
        let ghost before = *self;
        proof {
            page_len(&before.pager, pgno);
        }
        let data = self.pager.page_data(pgno);
        proof {
            same_facts(&before, self);
        }
        BTreeNode::load_page(pgno, data.as_slice())
    }

    /// The root of the schema table.
    pub fn get_rootpage(&mut self) -> (r: Option<BTreeNode>)
        requires
            old(self).wf(),
        ensures
            final(self).wf(),
            final(self).same(old(self)),
            final(self).store() == old(self).store(),
            old(self).free_ok() ==> final(self).free_ok() && forall|p: u32| #[trigger]
                final(self).is_free(p) == old(self).is_free(p),
            r is Some <==> old(self).store().dom().contains(1),
            r matches Some(n) ==> n.pgno == 1 && n@ == old(self).store()[1],
    {
        self.getnode(1)
    }

    /// Writes a node to its page; says whether it was written.
    pub fn putnode(&mut self, node: &BTreeNode) -> (r: bool)
        requires
            old(self).wf(),
        ensures
            final(self).wf(),
            r == (old(self).is_write && node.pgno < old(self).total() && node_fits(node@)),
            !r ==> *final(self) == *old(self),
            r ==> {
                &&& final(self).m == old(self).m
                &&& final(self).is_write
                &&& final(self).total() == old(self).total()
                &&& final(self).store() == old(self).store().insert(node.pgno, node@)
                &&& final(self).pager.same_transaction(&old(self).pager)
                &&& forall|q: u32|
                    q < old(self).total() && q != node.pgno ==> #[trigger] final(self).content(q)
                        == old(self).content(q)
                &&& final(self).new_free_page@ == old(self).new_free_page@
                &&& final(self).freelist_first == old(self).freelist_first
                &&& final(self).freelist_len == old(self).freelist_len
                &&& old(self).free_ok() && !old(self).chain_pages().contains(node.pgno) ==> final(
                    self).free_ok() && forall|q: u32| #[trigger]
                    final(self).is_free(q) == old(self).is_free(q)
            },
    {
        if !self.is_write || node.pgno >= self.pager.total_pages || !node.fits() {
            return false;
        }
        let ghost before = *self;
        let data = node.write_buf();
        let ghost bytes = data@;
        self.pager.put_page(node.pgno, data);
        proof {
            decode_encode_node(node@);
            assert forall|q: u32| q < self.total() implies #[trigger] self.content(q) == (if q
                == node.pgno {
                bytes
            } else {
                before.content(q)
            }) by {
                assert(self.pager.content(q) == (if q == node.pgno {
                    bytes
                } else {
                    before.pager.content(q)
                }));
            }
            assert(self.store() =~= before.store().insert(node.pgno, node@));
            if before.free_ok() && !before.chain_pages().contains(node.pgno) {
                write_keeps_free(&before, self, node.pgno);
            }
        }
        true
    }

    /// Reads the next page from a page of the chain of free pages.
    pub fn read_freepage_metadata(&mut self, pgno: u32) -> (r: u32)
        requires
            old(self).wf(),
            pgno < old(self).total(),
        ensures
            final(self).wf(),
            final(self).same(old(self)),
            r == be32_at(old(self).content(pgno), FREE_NEXTPTR as int),
    {
        let ghost before = *self;
        proof {
            page_len(&before.pager, pgno);
        }
        let data = self.pager.page_data(pgno);
        get_be32(data.as_slice(), FREE_NEXTPTR)
    }

    /// Takes a free page, if there is one.
    #[verifier::rlimit(40)]
    pub fn acquire_free_pgno(&mut self) -> (r: Option<u32>)
        requires
            old(self).wf(),
        ensures
            final(self).wf(),
            final(self).m == old(self).m,
            final(self).is_write == old(self).is_write,
            final(self).store() == old(self).store(),
            final(self).pager.same_pages(&old(self).pager),
            final(self).pager.same_transaction(&old(self).pager),
            r == old(self).next_free_page(),
            old(self).new_free_page@.len() > 0 ==> final(self).new_free_page@
                == old(self).new_free_page@.drop_last() && final(self).freelist_first
                == old(self).freelist_first && final(self).freelist_len == old(self).freelist_len,
            old(self).new_free_page@.len() == 0 && r is Some ==> {
                &&& final(self).new_free_page@ == old(self).new_free_page@
                &&& final(self).freelist_first == be32_at(
                    old(self).content(r->0),
                    FREE_NEXTPTR as int,
                )
                &&& final(self).freelist_len == old(self).freelist_len - 1
            },
            r is None ==> *final(self) == *old(self),
            old(self).free_ok() ==> {
                &&& final(self).free_ok()
                &&& r is None <==> old(self).new_free_page@.len() == 0 && old(self).freelist_len == 0
                &&& r is None ==> forall|q: u32| #[trigger]
                    final(self).is_free(q) == old(self).is_free(q)
                &&& r matches Some(p) ==> {
                    &&& 0 < p < old(self).total()
                    &&& old(self).is_free(p)
                    &&& forall|q: u32| #[trigger]
                        final(self).is_free(q) == (old(self).is_free(q) && q != p)
                }
            },
    {
        let ghost before = *self;
        if self.new_free_page.len() > 0 {
            let p = self.new_free_page.pop();
            proof {
                let l = before.new_free_page@;
                let k = self.new_free_page@;
                assert(k =~= l.drop_last());
                assert(self.chain_pages() == before.chain_pages());
                assert(self.store() =~= before.store());
                let c = self.chain_pages();
                if before.free_ok() {
                    let x = l.last();
                    assert(l.contains(x)) by {
                        assert(l[l.len() - 1] == x);
                    }
                    assert forall|i: int| 0 <= i < k.len() implies 0 < #[trigger] k[i] < self.total()
                        by {
                        assert(k[i] == l[i]);
                    }
                    assert forall|i: int| 0 <= i < c.len() implies !k.contains(#[trigger] c[i]) by {
                        if k.contains(c[i]) {
                            let j = choose|j: int| 0 <= j < k.len() && k[j] == c[i];
                            assert(l[j] == c[i]);
                        }
                    }
                    assert forall|q: u32| #[trigger] self.is_free(q) == (before.is_free(q) && q
                        != x) by {
                        if k.contains(q) {
                            let j = choose|j: int| 0 <= j < k.len() && k[j] == q;
                            assert(l[j] == q);
                            assert(l[j] != l[l.len() - 1]);
                        }
                        if l.contains(q) && q != x {
                            let j = choose|j: int| 0 <= j < l.len() && l[j] == q;
                            assert(k[j] == q);
                        }
                        if c.contains(q) && q == x {
                            let j = choose|j: int| 0 <= j < c.len() && c[j] == q;
                            assert(!l.contains(c[j]));
                        }
                        assert(0 < l[l.len() - 1] < before.total());
                    }
                }
            }
            return p;
        }
        if self.freelist_len == 0 {
            return None;
        }
        let pgno: u32 = self.freelist_first;
        if pgno == 0 || pgno >= self.pager.total_pages {
            proof {
                if before.free_ok() {
                    assert(before.chain_pages()[0] == pgno);
                }
            }
            return None;
        }
        let next: u32 = self.read_freepage_metadata(pgno);
        let ghost mid = *self;
        proof {
            same_facts(&before, &mid);
        }
        self.freelist_first = next;
        self.freelist_len = self.freelist_len - 1;
        proof {
            assert(self.store() =~= mid.store());
            let c = mid.chain_pages();
            let d = self.chain_pages();
            let n = mid.freelist_len as nat;
            if before.free_ok() {
                let e = free_chain(mid.pager, next, (n - 1) as nat);
                assert(mid.content(pgno) == before.content(pgno)) by {
                    assert(mid.pager.content(pgno) == before.pager.content(pgno));
                }
                assert(c == seq![pgno] + e);
                assert(d == e);
                assert(c[0] == pgno);
                assert forall|i: int| 0 <= i < d.len() implies #[trigger] d[i] == c[i + 1] by {}
                assert forall|i: int, j: int|
                    0 <= i < d.len() && 0 <= j < d.len() && i != j implies d[i] != d[j] by {
                    assert(c[i + 1] != c[j + 1]);
                }
                assert forall|i: int| 0 <= i < d.len() implies 0 < #[trigger] d[i] < self.total()
                    && self.content(d[i])[0] != 0 && !self.new_free_page@.contains(d[i]) by {
                    assert(0 < c[i + 1] < mid.total());
                    assert(self.content(d[i]) == mid.content(c[i + 1]));
                }
                assert forall|q: u32| #[trigger] self.is_free(q) == (mid.is_free(q) && q
                    != pgno) by {
                    if d.contains(q) {
                        let j = choose|j: int| 0 <= j < d.len() && d[j] == q;
                        assert(c[j + 1] == q);
                        assert(c[j + 1] != c[0]);
                    }
                    if c.contains(q) && q != pgno {
                        let j = choose|j: int| 0 <= j < c.len() && c[j] == q;
                        assert(d[j - 1] == q);
                    }
                    assert(!mid.new_free_page@.contains(c[0]));
                }
                assert(c.contains(pgno));
                assert forall|q: u32| #[trigger] self.is_free(q) == (before.is_free(q) && q
                    != pgno) by {
                    assert(mid.is_free(q) == before.is_free(q));
                }
                assert(before.is_free(pgno)) by {
                    assert(mid.is_free(pgno));
                }
            }
        }
        Some(pgno)
    }

    /// Takes a free page or adds one to the database; `None` where the machine
    /// cannot address one more.
    #[verifier::rlimit(40)]
    pub fn get_newpage(&mut self) -> (r: Option<u32>)
        requires
            old(self).wf(),
            old(self).is_write,
        ensures
            final(self).wf(),
            final(self).m == old(self).m,
            final(self).is_write,
            final(self).pager.same_transaction(&old(self).pager),
            r == (if old(self).next_free_page() is Some {
                old(self).next_free_page()
            } else if old(self).can_grow(1) {
                Some(old(self).pager.total_pages)
            } else {
                None
            }),
            final(self).total() == old(self).total() + (if old(self).next_free_page() is None
                && r is Some {
                1int
            } else {
                0
            }),
            old(self).free_ok() ==> final(self).spends(old(self)),
            old(self).total() <= final(self).total() <= old(self).total() + 1,
            forall|q: u32|
                q < old(self).total() ==> #[trigger] final(self).content(q) == old(self).content(q),
            forall|n: int| n >= 1 && #[trigger] old(self).can_grow(n) ==> final(self).can_grow(
                n - 1,
            ),
            old(self).free_ok() && old(self).can_grow(1) ==> r is Some,
            old(self).free_ok() && r is None ==> final(self).free_ok() && forall|q: u32| #[trigger]
                final(self).is_free(q) == old(self).is_free(q),
            old(self).free_ok() ==> (r matches Some(p) ==> {
                &&& final(self).free_ok()
                &&& 0 < p < final(self).total()
                &&& old(self).is_free(p)
                &&& forall|q: u32| #[trigger]
                    final(self).is_free(q) == (old(self).is_free(q) && q != p)
                &&& forall|q: u32|
                    q != p && old(self).store().dom().contains(q) ==> #[trigger] final(
                        self).store().dom().contains(q) && final(self).store()[q]
                        == old(self).store()[q]
            }),
    {
        let ghost before = *self;
        match self.acquire_free_pgno() {
            Some(p) => {
                proof {
                    assert forall|q: u32| q < before.total() implies #[trigger] self.content(q)
                        == before.content(q) by {
                        assert(self.pager.content(q) == before.pager.content(q));
                    }
                }
                Some(p)
            },
            None => {
                let ghost mid = *self;
                proof {
                    assert forall|q: u32| q < before.total() implies #[trigger] mid.content(q)
                        == before.content(q) by {
                        assert(mid.pager.content(q) == before.pager.content(q));
                    }
                }
                let r = self.pager.grow();
                proof {
                    assert forall|q: u32| q < before.total() implies #[trigger] self.content(q)
                        == before.content(q) by {
                        assert(self.pager.content(q) == mid.pager.content(q));
                        assert(mid.content(q) == before.content(q));
                    }
                    if before.free_ok() {
                        assert(self.chain_pages() =~= before.chain_pages());
                        assert forall|q: u32|
                            before.store().dom().contains(q) implies #[trigger] self.store().dom().contains(
                        q) && self.store()[q] == before.store()[q] by {
                            assert(self.content(q) == before.content(q));
                        }
                        if let Some(p) = r {
                            assert forall|q: u32| #[trigger] self.is_free(q) == (before.is_free(q)
                                && q != p) by {
                                assert(mid.is_free(q) == before.is_free(q));
                            }
                            assert(before.is_free(p));
                        }
                    }
                }
                r
            },
        }
    }
}

/// Where a page number belongs in a rising list.
pub open spec fn place_of(l: Seq<u32>, p: u32) -> int
    decreases l.len(),
{
    if l.len() == 0 {
        0
    } else if l.last() <= p {
        l.len() as int
    } else {
        place_of(l.drop_last(), p)
    }
}

/// Whether page numbers rise.
pub open spec fn rises(l: Seq<u32>) -> bool {
    forall|i: int, j: int| 0 <= i <= j < l.len() ==> #[trigger] l[i] <= #[trigger] l[j]
}

/// A page number in its place keeps a list rising.
pub proof fn place_keeps_rising(l: Seq<u32>, p: u32)
    ensures
        0 <= place_of(l, p) <= l.len(),
        forall|i: int| place_of(l, p) <= i < l.len() ==> #[trigger] l[i] > p,
        rises(l) ==> rises(l.insert(place_of(l, p), p)),
    decreases l.len(),
{
    let k = place_of(l, p);
    if l.len() > 0 && l.last() > p {
        let d = l.drop_last();
        place_keeps_rising(d, p);
        assert forall|i: int| k <= i < l.len() implies #[trigger] l[i] > p by {
            if i < l.len() - 1 {
                assert(d[i] > p);
            }
        }
        if rises(l) {
            assert forall|i: int, j: int| 0 <= i <= j < d.len() implies #[trigger] d[i]
                <= #[trigger] d[j] by {
                assert(l[i] <= l[j]);
            }
            let r = d.insert(k, p);
            assert(l.insert(k, p) =~= r.push(l.last()));
            assert(rises(r));
            let w = r.push(l.last());
            assert forall|i: int, j: int| 0 <= i <= j < w.len() implies #[trigger] w[i]
                <= #[trigger] w[j] by {
                if j < r.len() {
                    assert(r[i] <= r[j]);
                } else if i < r.len() {
                    if i < k {
                        assert(r[i] == l[i]);
                        assert(l[i] <= l[l.len() - 1]);
                    } else if i > k {
                        assert(r[i] == l[i - 1]);
                        assert(l[i - 1] <= l[l.len() - 1]);
                    }
                }
            }
        }
    } else if l.len() > 0 {
        assert(l.insert(k, p) =~= l.push(p));
        if rises(l) {
            let w = l.push(p);
            assert forall|i: int, j: int| 0 <= i <= j < w.len() implies #[trigger] w[i]
                <= #[trigger] w[j] by {
                if j < l.len() {
                    assert(l[i] <= l[j]);
                } else if i < l.len() {
                    assert(l[i] <= l[l.len() - 1]);
                }
            }
        }
    }
}

impl BTree {
    /// Keeps a page of this transaction for new nodes.
    #[verifier::spinoff_prover]
    #[verifier::rlimit(40)]
    pub fn set_page_free(&mut self, pgno: u32)
        requires
            old(self).wf(),
        ensures
            *final(self) == (BTree { new_free_page: final(self).new_free_page, ..*old(self) }),
            final(self).new_free_page@ == old(self).new_free_page@.insert(
                place_of(old(self).new_free_page@, pgno),
                pgno,
            ),
            final(self).wf(),
            final(self).store() == old(self).store(),
            old(self).free_ok() && 0 < pgno < old(self).total() && !old(self).is_free(pgno)
                ==> final(self).free_ok() && forall|q: u32| #[trigger]
                final(self).is_free(q) == (old(self).is_free(q) || q == pgno),
    {
        let ghost before = *self;
        let ghost l = self.new_free_page@;
        let mut k: usize = self.new_free_page.len();
        assert(l.take(l.len() as int) =~= l);
        while k > 0 && self.new_free_page[k - 1] > pgno
            invariant
                *self == before,
                l == before.new_free_page@,
                k <= l.len(),
                place_of(l, pgno) == place_of(l.take(k as int), pgno),
            decreases k,
        {
            assert(l.take(k as int).drop_last() =~= l.take(k - 1));
            k = k - 1;
        }
        assert(place_of(l, pgno) == k);
        self.new_free_page.insert(k, pgno);
        proof {
            let w = self.new_free_page@;
            place_keeps_rising(l, pgno);
            assert(w == l.insert(k as int, pgno));
            assert(self.chain_pages() == before.chain_pages());
            assert(self.store() =~= before.store());
            assert(w[k as int] == pgno);
            assert forall|i: int| 0 <= i < l.len() implies #[trigger] w.contains(l[i]) by {
                if i < k {
                    assert(w[i] == l[i]);
                } else {
                    assert(w[i + 1] == l[i]);
                }
            }
            assert forall|x: u32| #[trigger] w.contains(x) implies x == pgno || l.contains(x) by {
                let i = choose|i: int| 0 <= i < w.len() && w[i] == x;
                if i < k {
                    assert(l[i] == x);
                } else if i > k {
                    assert(l[i - 1] == x);
                }
            }
            if before.free_ok() && 0 < pgno < before.total() && !before.is_free(pgno) {
                let c = self.chain_pages();
                assert forall|i: int, j: int|
                    0 <= i < w.len() && 0 <= j < w.len() && i != j implies w[i] != w[j] by {
                    let x = if i < k {
                        i
                    } else {
                        i - 1
                    };
                    let y = if j < k {
                        j
                    } else {
                        j - 1
                    };
                    if i != k {
                        assert(w[i] == l[x]);
                        assert(l.contains(l[x]));
                    }
                    if j != k {
                        assert(w[j] == l[y]);
                        assert(l.contains(l[y]));
                    }
                }
                assert forall|i: int| 0 <= i < w.len() implies 0 < #[trigger] w[i] < self.total() by {
                    assert(w.contains(w[i]));
                    if w[i] != pgno {
                        let j = choose|j: int| 0 <= j < l.len() && l[j] == w[i];
                        assert(0 < l[j] < before.total());
                    }
                }
                assert forall|i: int| 0 <= i < c.len() implies !w.contains(#[trigger] c[i]) by {
                    assert(c.contains(c[i]));
                    assert(!l.contains(c[i]));
                }
                assert forall|q: u32| #[trigger] self.is_free(q) == (before.is_free(q) || q
                    == pgno) by {
                    if l.contains(q) {
                        let j = choose|j: int| 0 <= j < l.len() && l[j] == q;
                        assert(w.contains(l[j]));
                    }
                    assert(w.contains(pgno));
                }
            }
        }
    }
}

/// All pages of a database are a page long.
pub proof fn page_len(pager: &Pager, p: u32)
    requires
        pager.wf(),
        p < pager.total_pages,
    ensures
        pager.content(p).len() == PAGE_SIZE,
{
    let c = pager.pages_hash@;
    if crate::engine::pages::is_cached(c, p) {
        let i = choose|i: int| crate::engine::pages::is_slot(c, p, i);
        assert(pager.slot_ok(i));
        crate::engine::pages::content_in_cache(pager, i);
    }
}

} // verus!
