//! The rollback journal and the locks on the database file.
//!
//! The library works on images of the two files. Every change of an image is
//! also put on a list of file operations, which the program around the library
//! performs on the files in that order.
use vstd::prelude::*;

use crate::engine::bytes::{be32, be32_at, be32_len, copy_range, get_be32, push_be32, zeros};
use crate::engine::node::PAGE_SIZE;

verus! {

pub const NONE_LOCK: u8 = 0;

pub const SHARED_LOCK: u8 = 1;

pub const RESERVED_LOCK: u8 = 2;

pub const PENDING_LOCK: u8 = 3;

pub const EXCLUSIVE_LOCK: u8 = 4;

pub const PENDING_BYTE: usize = 0;

pub const RESERVED_BYTE: usize = 1;

pub const SHARED_BYTE: usize = 2;

pub const VALID_BYTE: usize = 16;

pub const JOURNAL_VALID_BYTE: usize = 16;

pub const JOURNAL_PAGE_COUNT: usize = 20;

pub const JOURNAL_HEADER: usize = 4096;

/// Number of bytes of a record of the journal: a page number, a page and a
/// checksum.
pub const JOURNAL_PAGE: usize = 4101;

/// Locks on ranges of bytes of a file.
pub trait FileLock {
    fn lock_shared(&self, start: usize, len: usize);

    fn lock_shared_all(&self);

    fn lock_exclusive(&self, start: usize, len: usize);

    fn lock_exclusive_all(&self);

    fn unlock(&self, start: usize, len: usize);

    fn unlock_all(&self);
}

/// An operation on the database file or on its journal.
#[derive(Debug)]
pub enum FileOp {
    WriteDb { offset: usize, bytes: Vec<u8> },
    SetDbLen { len: usize },
    SyncDb,
    CreateJournal { bytes: Vec<u8> },
    WriteJournal { offset: usize, bytes: Vec<u8> },
    SetJournalLen { len: usize },
    SyncJournal,
    DeleteJournal,
    LockShared { byte: usize },
    LockExclusive { byte: usize },
    Unlock { byte: usize },
}

/// What a file operation is.
pub enum FileOpView {
    WriteDb { offset: int, bytes: Seq<u8> },
    SetDbLen { len: int },
    SyncDb,
    CreateJournal { bytes: Seq<u8> },
    WriteJournal { offset: int, bytes: Seq<u8> },
    SetJournalLen { len: int },
    SyncJournal,
    DeleteJournal,
    LockShared { byte: int },
    LockExclusive { byte: int },
    Unlock { byte: int },
}

impl View for FileOp {
    type V = FileOpView;

    open spec fn view(&self) -> FileOpView {
        match self {
            FileOp::WriteDb { offset, bytes } => FileOpView::WriteDb {
                offset: *offset as int,
                bytes: bytes@,
            },
            FileOp::SetDbLen { len } => FileOpView::SetDbLen { len: *len as int },
            FileOp::SyncDb => FileOpView::SyncDb,
            FileOp::CreateJournal { bytes } => FileOpView::CreateJournal { bytes: bytes@ },
            FileOp::WriteJournal { offset, bytes } => FileOpView::WriteJournal {
                offset: *offset as int,
                bytes: bytes@,
            },
            FileOp::SetJournalLen { len } => FileOpView::SetJournalLen { len: *len as int },
            FileOp::SyncJournal => FileOpView::SyncJournal,
            FileOp::DeleteJournal => FileOpView::DeleteJournal,
            FileOp::LockShared { byte } => FileOpView::LockShared { byte: *byte as int },
            FileOp::LockExclusive { byte } => FileOpView::LockExclusive { byte: *byte as int },
            FileOp::Unlock { byte } => FileOpView::Unlock { byte: *byte as int },
        }
    }
}

/// The views of a sequence of file operations.
pub open spec fn op_views(s: Seq<FileOp>) -> Seq<FileOpView> {
    Seq::new(s.len(), |i: int| s[i]@)
}

/// The contents of the two files; there may be no journal.
#[verifier::ext_equal]
pub struct Disk {
    pub db: Seq<u8>,
    pub journal: Option<Seq<u8>>,
}

/// The first `n` bytes of a file, with zeros where it is shorter.
pub open spec fn resized(s: Seq<u8>, n: int) -> Seq<u8> {
    Seq::new(n as nat, |i: int| if i < s.len() {
        s[i]
    } else {
        0u8
    })
}

/// A file after a write at `offset`; a gap before it is filled with zeros.
pub open spec fn write_at(s: Seq<u8>, offset: int, bytes: Seq<u8>) -> Seq<u8> {
    resized(s, offset) + bytes + s.skip(if offset + bytes.len() < s.len() {
        offset + bytes.len()
    } else {
        s.len() as int
    })
}

/// The files after an operation.
pub open spec fn apply(d: Disk, op: FileOpView) -> Disk {
    match op {
        FileOpView::WriteDb { offset, bytes } => Disk { db: write_at(d.db, offset, bytes), ..d },
        FileOpView::SetDbLen { len } => Disk { db: resized(d.db, len), ..d },
        FileOpView::CreateJournal { bytes } => Disk { journal: Some(bytes), ..d },
        FileOpView::WriteJournal { offset, bytes } => match d.journal {
            Some(j) => Disk { journal: Some(write_at(j, offset, bytes)), ..d },
            None => d,
        },
        FileOpView::SetJournalLen { len } => match d.journal {
            Some(j) => Disk { journal: Some(resized(j, len)), ..d },
            None => d,
        },
        FileOpView::DeleteJournal => Disk { journal: None, ..d },
        _ => d,
    }
}

/// The files after operations, one after the other.
pub open spec fn replay(d: Disk, ops: Seq<FileOpView>) -> Disk
    decreases ops.len(),
{
    if ops.len() == 0 {
        d
    } else {
        apply(replay(d, ops.drop_last()), ops.last())
    }
}

/// Page `p` of a file.
pub open spec fn page_of(db: Seq<u8>, p: int) -> Seq<u8> {
    db.subrange(p * PAGE_SIZE, p * PAGE_SIZE + PAGE_SIZE)
}

// -- Records ---------------------------------------------------

/// The bytes of a sequence, joined by exclusive or.
pub open spec fn xor_all(s: Seq<u8>) -> u8
    decreases s.len(),
{
    if s.len() == 0 {
        0
    } else {
        xor_all(s.drop_last()) ^ s.last()
    }
}

/// Number of whole records of a journal.
pub open spec fn record_count(j: Seq<u8>) -> nat {
    if j.len() < JOURNAL_HEADER {
        0
    } else {
        ((j.len() - JOURNAL_HEADER) / JOURNAL_PAGE as int) as nat
    }
}

/// Where record `i` starts.
pub open spec fn record_start(i: int) -> int {
    JOURNAL_HEADER + i * JOURNAL_PAGE
}

/// The page number of record `i`.
pub open spec fn record_page(j: Seq<u8>, i: int) -> u32 {
    be32_at(j, record_start(i))
}

/// The page that record `i` holds.
pub open spec fn record_content(j: Seq<u8>, i: int) -> Seq<u8> {
    j.subrange(record_start(i) + 4, record_start(i) + 4 + PAGE_SIZE)
}

/// The checksum of record `i`.
pub open spec fn record_checksum(j: Seq<u8>, i: int) -> u8 {
    j[record_start(i) + 4 + PAGE_SIZE]
}

/// Whether a journal consists of whole records with right checksums.
pub open spec fn records_ok(j: Seq<u8>) -> bool {
    &&& j.len() > JOURNAL_HEADER ==> j.len() == record_start(record_count(j) as int)
    &&& forall|i: int|
        0 <= i < record_count(j) ==> xor_all(#[trigger] record_content(j, i)) == record_checksum(
            j,
            i,
        )
}

/// Whether a journal is marked as in use.
pub open spec fn marked_valid(j: Seq<u8>) -> bool {
    j.len() > JOURNAL_VALID_BYTE && j[JOURNAL_VALID_BYTE as int] != 0
}

/// Number of pages that the database had when the journal was begun.
pub open spec fn journal_pages(j: Seq<u8>) -> u32 {
    if j.len() >= JOURNAL_PAGE_COUNT + 4 {
        be32_at(j, JOURNAL_PAGE_COUNT as int)
    } else {
        0
    }
}

/// Whether all pages that a journal saves have offsets that memory can have.
pub open spec fn offsets_fit(j: Seq<u8>) -> bool {
    forall|i: int|
        0 <= i < record_count(j) ==> (#[trigger] record_page(j, i)) * PAGE_SIZE + PAGE_SIZE
            <= usize::MAX
}

/// Whether `n` pages, and a journal that saves them all, can be addressed.
pub open spec fn pages_fit(n: int) -> bool {
    n * JOURNAL_PAGE + JOURNAL_HEADER <= usize::MAX
}

/// What the first `n` records say of page `p`: the last of them counts.
pub open spec fn saved_page(j: Seq<u8>, n: nat, p: u32) -> Option<Seq<u8>>
    decreases n,
{
    if n == 0 {
        None
    } else if record_page(j, n - 1) == p {
        Some(record_content(j, n - 1))
    } else {
        saved_page(j, (n - 1) as nat, p)
    }
}

/// Page `p` of the database once the first `n` records are written back.
pub open spec fn restored_page(db: Seq<u8>, j: Seq<u8>, n: nat, p: u32) -> Seq<u8> {
    match saved_page(j, n, p) {
        Some(c) => c,
        None => page_of(db, p as int),
    }
}

/// The record of a page.
pub open spec fn record_bytes(p: u32, content: Seq<u8>) -> Seq<u8> {
    be32(p) + content + seq![xor_all(content)]
}

/// The header of a new journal: its name, the mark of use and the page count.
pub open spec fn journal_header(pages: u32) -> Seq<u8> {
    seq![
        77u8,
        73,
        78,
        83,
        81,
        76,
        95,
        74,
        79,
        85,
        82,
        78,
        65,
        76,
        0,
        0,
        1,
        0,
        0,
        0,
    ] + be32(pages) + Seq::new((JOURNAL_HEADER - 24) as nat, |i: int| 0u8)
}

/// The journal of a database, with the images of the two files.
pub struct Journal {
    pub db: Vec<u8>,
    pub dbname: String,
    pub journal: Option<Vec<u8>>,
    pub pos: usize,
    pub backup_set: Vec<u32>,
    pub dblock: u8,
    pub gotpending: bool,
    pub ops: Vec<FileOp>,
}

/// What a journal is: the files, where the next record goes, the pages saved so
/// far, the locks held, and the file operations not yet handed out.
#[verifier::ext_equal]
pub struct JournalView {
    pub disk: Disk,
    pub name: Seq<char>,
    pub pos: int,
    pub saved: Seq<u32>,
    pub lock: u8,
    pub pending: bool,
    pub ops: Seq<FileOpView>,
}

impl View for Journal {
    type V = JournalView;

    open spec fn view(&self) -> JournalView {
        JournalView {
            disk: Disk {
                db: self.db@,
                journal: match self.journal {
                    Some(j) => Some(j@),
                    None => None,
                },
            },
            name: self.dbname@,
            pos: self.pos as int,
            saved: self.backup_set@,
            lock: self.dblock,
            pending: self.gotpending,
            ops: op_views(self.ops@),
        }
    }
}

impl JournalView {
    /// The journal after a file operation.
    pub open spec fn then_op(self, op: FileOpView) -> JournalView {
        JournalView { disk: apply(self.disk, op), ops: self.ops.push(op), ..self }
    }

    /// The contents of the journal file.
    pub open spec fn file(self) -> Seq<u8> {
        self.disk.journal->0
    }

    /// Whether there is a journal file.
    pub open spec fn is_open(self) -> bool {
        self.disk.journal is Some
    }

    /// After all readers are shut out.
    pub open spec fn exclusive(self) -> JournalView {
        if self.lock == EXCLUSIVE_LOCK {
            self
        } else {
            let a = self.then_op(FileOpView::LockExclusive { byte: PENDING_BYTE as int });
            let b = if self.lock >= SHARED_LOCK {
                a.then_op(FileOpView::Unlock { byte: SHARED_BYTE as int })
            } else {
                a
            };
            JournalView {
                lock: EXCLUSIVE_LOCK,
                pending: true,
                ..b.then_op(FileOpView::LockExclusive { byte: SHARED_BYTE as int })
            }
        }
    }

    /// After a reader has come in.
    pub open spec fn reading(self) -> JournalView {
        if self.lock >= SHARED_LOCK {
            self
        } else {
            let a = self.then_op(FileOpView::LockExclusive { byte: PENDING_BYTE as int });
            let b = a.then_op(FileOpView::LockShared { byte: SHARED_BYTE as int });
            JournalView {
                lock: SHARED_LOCK,
                pending: false,
                ..b.then_op(FileOpView::Unlock { byte: PENDING_BYTE as int })
            }
        }
    }

    /// After other writers are shut out.
    pub open spec fn reserved(self) -> JournalView {
        if self.lock == RESERVED_LOCK || self.lock == EXCLUSIVE_LOCK {
            self
        } else {
            JournalView {
                lock: RESERVED_LOCK,
                ..self.then_op(FileOpView::LockExclusive { byte: RESERVED_BYTE as int })
            }
        }
    }

    /// After the journal was emptied for a database of `pages` pages.
    pub open spec fn emptied(self, pages: u32) -> JournalView {
        JournalView {
            pos: JOURNAL_HEADER as int,
            ..self.then_op(FileOpView::SetJournalLen { len: JOURNAL_HEADER as int }).then_op(
                FileOpView::WriteJournal { offset: JOURNAL_VALID_BYTE as int, bytes: seq![1u8] },
            ).then_op(
                FileOpView::WriteJournal {
                    offset: JOURNAL_PAGE_COUNT as int,
                    bytes: be32(pages),
                },
            ).then_op(FileOpView::SyncJournal)
        }
    }

    /// After a write transaction was begun.
    pub open spec fn writing(self, pages: u32) -> JournalView {
        if self.lock == RESERVED_LOCK || self.lock == EXCLUSIVE_LOCK {
            self
        } else {
            let a = JournalView { saved: seq![], ..self.reserved() };
            if self.is_open() {
                a.emptied(pages)
            } else {
                JournalView {
                    pos: JOURNAL_HEADER as int,
                    ..a.then_op(FileOpView::CreateJournal { bytes: journal_header(pages) })
                }
            }
        }
    }

    /// After all locks of a writer are released.
    pub open spec fn released(self) -> JournalView {
        let a = self.then_op(FileOpView::Unlock { byte: SHARED_BYTE as int }).then_op(
            FileOpView::Unlock { byte: RESERVED_BYTE as int },
        );
        let b = if self.pending {
            a.then_op(FileOpView::Unlock { byte: PENDING_BYTE as int })
        } else {
            a
        };
        JournalView { lock: NONE_LOCK, pending: false, ..b }
    }

    /// After a reader has left.
    pub open spec fn left(self) -> JournalView {
        let a = if self.lock >= SHARED_LOCK {
            self.then_op(FileOpView::Unlock { byte: SHARED_BYTE as int })
        } else {
            self
        };
        JournalView { lock: NONE_LOCK, ..a }
    }

    /// After a page was written to the database.
    pub open spec fn page_written(self, p: u32, page: Seq<u8>) -> JournalView {
        self.then_op(FileOpView::WriteDb { offset: p * PAGE_SIZE, bytes: page })
    }

    /// After a page was saved, unless it is saved already.
    pub open spec fn page_saved(self, p: u32, page: Seq<u8>) -> JournalView {
        if self.saved.contains(p) {
            self
        } else {
            JournalView {
                pos: self.pos + JOURNAL_PAGE,
                saved: self.saved.push(p),
                ..self.then_op(
                    FileOpView::WriteJournal { offset: self.pos, bytes: record_bytes(p, page) },
                )
            }
        }
    }

    /// After the journal was marked as out of use.
    pub open spec fn invalidated(self) -> JournalView {
        JournalView {
            pos: JOURNAL_VALID_BYTE + 1,
            saved: seq![],
            ..self.then_op(
                FileOpView::WriteJournal { offset: JOURNAL_VALID_BYTE as int, bytes: seq![0u8] },
            ).then_op(FileOpView::SyncJournal)
        }
    }

    /// After the journal was marked as in use.
    pub open spec fn revalidated(self) -> JournalView {
        JournalView {
            pos: JOURNAL_HEADER as int,
            ..self.then_op(
                FileOpView::WriteJournal { offset: JOURNAL_VALID_BYTE as int, bytes: seq![1u8] },
            ).then_op(FileOpView::SyncJournal)
        }
    }

    /// After the journal was deleted.
    pub open spec fn deleted(self) -> JournalView {
        JournalView { pos: 0, saved: seq![], ..self.then_op(FileOpView::DeleteJournal) }
    }

    /// After the first `n` records were written back to the database.
    pub open spec fn written_back(self, n: nat) -> JournalView
        decreases n,
    {
        if n == 0 {
            self
        } else {
            self.written_back((n - 1) as nat).page_written(
                record_page(self.file(), n - 1),
                record_content(self.file(), n - 1),
            )
        }
    }

    /// Whether the files are what the operations handed out since `d` make of it.
    pub open spec fn follows(self, d: Disk) -> bool {
        self.disk == replay(d, self.ops)
    }
}

/// A file operation changes the image as it changes the files, so the program
/// around the library finds in the files what the library has in its images.
pub proof fn then_op_follows(v: JournalView, op: FileOpView, d: Disk)
    requires
        v.follows(d),
    ensures
        v.then_op(op).follows(d),
{
    assert(v.ops.push(op).drop_last() =~= v.ops);
}

// -- Images ----------------------------------------------------

/// Writes `bytes` into an image.
fn write_image(v: &mut Vec<u8>, offset: usize, bytes: &[u8])
    requires
        offset + bytes@.len() <= usize::MAX,
    ensures
        final(v)@ == write_at(old(v)@, offset as int, bytes@),
{
    let ghost s = v@;
    let n: usize = bytes.len();
    if v.len() < offset + n {
        resize_image(v, offset);
        assert(v@ =~= resized(s, offset as int));
        v.extend_from_slice(bytes);
        assert(v@ =~= write_at(s, offset as int, bytes@));
    } else {
        let mut k: usize = 0;
        while k < n
            invariant
                n == bytes@.len(),
                k <= n,
                offset + n <= v@.len(),
                offset + n <= usize::MAX,
                v@.len() == s.len(),
                forall|j: int|
                    0 <= j < v@.len() ==> #[trigger] v@[j] == (if offset <= j < offset + k {
                        bytes@[j - offset]
                    } else {
                        s[j]
                    }),
            decreases n - k,
        {
            v.set(offset + k, bytes[k]);
            k = k + 1;
        }
        assert(v@ =~= write_at(s, offset as int, bytes@));
    }
}

/// Cuts an image or fills it up with zeros.
fn resize_image(v: &mut Vec<u8>, n: usize)
    ensures
        final(v)@ == resized(old(v)@, n as int),
{
    let ghost s = v@;
    if v.len() > n {
        v.truncate(n);
    } else {
        while v.len() < n
            invariant
                s.len() <= v@.len() <= n,
                forall|j: int|
                    0 <= j < v@.len() ==> #[trigger] v@[j] == (if j < s.len() {
                        s[j]
                    } else {
                        0u8
                    }),
            decreases n - v@.len(),
        {
            v.push(0);
        }
    }
    assert(v@ =~= resized(s, n as int));
}

/// The checksum of a page.
fn checksum(b: &[u8]) -> (r: u8)
    ensures
        r == xor_all(b@),
{
    let mut x: u8 = 0;
    let mut i: usize = 0;
    while i < b.len()
        invariant
            i <= b@.len(),
            x == xor_all(b@.take(i as int)),
        decreases b@.len() - i,
    {
        assert(b@.take(i + 1).drop_last() =~= b@.take(i as int));
        x = x ^ b[i];
        i = i + 1;
    }
    assert(b@.take(i as int) =~= b@);
    x
}

/// The header of a new journal.
fn header_bytes(pages: u32) -> (r: Vec<u8>)
    ensures
        r@ == journal_header(pages),
        r@.len() == JOURNAL_HEADER,
{
    broadcast use be32_len;

    let mut out: Vec<u8> = vec![77u8, 73, 78, 83, 81, 76, 95, 74, 79, 85, 82, 78, 65, 76, 0, 0, 1, 0, 0, 0];
    push_be32(&mut out, pages);
    let mut rest = zeros(JOURNAL_HEADER - 24);
    out.append(&mut rest);
    assert(out@ =~= journal_header(pages));
    out
}

impl Journal {
    /// A journal on the contents of the two files.
    pub fn new(db: Vec<u8>, journal: Option<Vec<u8>>, dbname: String) -> (r: Self)
        ensures
            r@ == (JournalView {
                disk: Disk {
                    db: db@,
                    journal: match journal {
                        Some(j) => Some(j@),
                        None => None,
                    },
                },
                name: dbname@,
                pos: 0,
                saved: seq![],
                lock: NONE_LOCK,
                pending: false,
                ops: seq![],
            }),
    {
        let r = Journal {
            db,
            dbname,
            journal,
            pos: 0,
            backup_set: Vec::new(),
            dblock: NONE_LOCK,
            gotpending: false,
            ops: Vec::new(),
        };
        assert(r@.ops =~= seq![]);
        assert(r@.saved =~= seq![]);
        r
    }

    /// Puts a file operation on the list and makes the change that it stands for.
    fn perform(&mut self, op: FileOp)
        requires
            op@ matches FileOpView::WriteDb { offset, bytes } ==> 0 <= offset && offset
                + bytes.len() <= usize::MAX,
            op@ matches FileOpView::WriteJournal { offset, bytes } ==> 0 <= offset && offset
                + bytes.len() <= usize::MAX,
        ensures
            final(self)@ == old(self)@.then_op(op@),
    {
        let ghost v = self@;
        match &op {
            FileOp::WriteDb { offset, bytes } => write_image(
                &mut self.db,
                *offset,
                bytes.as_slice(),
            ),
            FileOp::SetDbLen { len } => resize_image(&mut self.db, *len),
            FileOp::CreateJournal { bytes } => {
                let b = copy_range(bytes.as_slice(), 0, bytes.len());
                assert(b@ =~= bytes@);
                self.journal = Some(b);
            },
            FileOp::WriteJournal { offset, bytes } => {
                if let Some(j) = &mut self.journal {
                    write_image(j, *offset, bytes.as_slice());
                }
            },
            FileOp::SetJournalLen { len } => {
                if let Some(j) = &mut self.journal {
                    resize_image(j, *len);
                }
            },
            FileOp::DeleteJournal => {
                self.journal = None;
            },
            _ => {},
        }
        let ghost before = op_views(self.ops@);
        self.ops.push(op);
        assert(op_views(self.ops@) =~= before.push(op@));
        assert(self@ =~= v.then_op(op@));
    }

    /// Hands out the file operations gathered so far.
    pub fn take_ops(&mut self) -> (r: Vec<FileOp>)
        ensures
            op_views(r@) == old(self)@.ops,
            final(self)@ == (JournalView { ops: seq![], ..old(self)@ }),
    {
        let mut r: Vec<FileOp> = Vec::new();
        std::mem::swap(&mut r, &mut self.ops);
        assert(self@.ops =~= seq![]);
        r
    }

    /// Takes the contents that the files have now for the images.
    pub fn take_files(&mut self, db: Vec<u8>, journal: Option<Vec<u8>>)
        ensures
            final(self)@ == (JournalView {
                disk: Disk {
                    db: db@,
                    journal: match journal {
                        Some(j) => Some(j@),
                        None => None,
                    },
                },
                ..old(self)@
            }),
    {
        self.db = db;
        self.journal = journal;
    }

    /// Reads a page of the database.
    pub fn readpage(&self, pgno: u32) -> (r: Vec<u8>)
        requires
            pgno * PAGE_SIZE + PAGE_SIZE <= self@.disk.db.len(),
        ensures
            r@ == page_of(self@.disk.db, pgno as int),
            r@.len() == PAGE_SIZE,
    {
        assert(self.db@.len() == self.db.len());
        assert(pgno * PAGE_SIZE <= usize::MAX);
        let offset: usize = pgno as usize * PAGE_SIZE;
        copy_range(self.db.as_slice(), offset, offset + PAGE_SIZE)
    }

    /// Has the database written through.
    pub fn sync_db(&mut self)
        ensures
            final(self)@ == old(self)@.then_op(FileOpView::SyncDb),
    {
        self.perform(FileOp::SyncDb);
    }

    /// Shuts out all readers.
    pub fn lock_exclusive(&mut self)
        ensures
            final(self)@ == old(self)@.exclusive(),
    {
        if self.dblock == EXCLUSIVE_LOCK {
            return;
        }
        self.perform(FileOp::LockExclusive { byte: PENDING_BYTE });
        self.gotpending = true;
        if self.dblock >= SHARED_LOCK {
            self.perform(FileOp::Unlock { byte: SHARED_BYTE });
        }
        self.perform(FileOp::LockExclusive { byte: SHARED_BYTE });
        self.dblock = EXCLUSIVE_LOCK;
    }

    /// Comes in as a reader.
    pub fn begin_transaction_read(&mut self)
        ensures
            final(self)@ == old(self)@.reading(),
    {
        if self.dblock >= SHARED_LOCK {
            return;
        }
        self.perform(FileOp::LockExclusive { byte: PENDING_BYTE });
        self.gotpending = true;
        self.perform(FileOp::LockShared { byte: SHARED_BYTE });
        self.perform(FileOp::Unlock { byte: PENDING_BYTE });
        self.dblock = SHARED_LOCK;
        self.gotpending = false;
    }

    /// Shuts out other writers before a rollback.
    pub fn begin_rollback(&mut self)
        ensures
            final(self)@ == old(self)@.reserved(),
    {
        if self.dblock == RESERVED_LOCK || self.dblock == EXCLUSIVE_LOCK {
            return;
        }
        self.perform(FileOp::LockExclusive { byte: RESERVED_BYTE });
        self.dblock = RESERVED_LOCK;
    }

    /// Begins a write transaction on a database of `pagecnt` pages: shuts out
    /// other writers and begins an empty journal, unless that was done before.
    pub fn begin_transaction_write(&mut self, pagecnt: u32)
        ensures
            final(self)@ == old(self)@.writing(pagecnt),
    {
        if self.dblock == RESERVED_LOCK || self.dblock == EXCLUSIVE_LOCK {
            return;
        }
        self.perform(FileOp::LockExclusive { byte: RESERVED_BYTE });
        self.dblock = RESERVED_LOCK;
        self.backup_set.clear();
        assert(self@.saved =~= seq![]);
        if self.journal.is_some() {
            self.reset_journal(pagecnt);
            return;
        }
        let bytes = header_bytes(pagecnt);
        self.perform(FileOp::CreateJournal { bytes });
        self.pos = JOURNAL_HEADER;
    }

    /// Writes a page to the database once its saved copy is safe.
    pub fn commit_page(&mut self, pgno: u32, buf: &[u8])
        requires
            old(self)@.is_open(),
            pgno * PAGE_SIZE + buf@.len() <= usize::MAX,
        ensures
            final(self)@ == old(self)@.exclusive().then_op(FileOpView::SyncJournal).page_written(
                pgno,
                buf@,
            ),
    {
        self.lock_exclusive();
        self.sync_journal();
        self.write_page(pgno, buf);
    }

    /// Writes a page to the database.
    pub fn write_page(&mut self, pgno: u32, buf: &[u8])
        requires
            pgno * PAGE_SIZE + buf@.len() <= usize::MAX,
        ensures
            final(self)@ == old(self)@.page_written(pgno, buf@),
    {
        let bytes = copy_range(buf, 0, buf.len());
        assert(bytes@ =~= buf@);
        self.perform(FileOp::WriteDb { offset: pgno as usize * PAGE_SIZE, bytes });
    }

    /// Shuts out all readers at the end of a write transaction.
    pub fn end_transaction_write(&mut self)
        ensures
            final(self)@ == old(self)@.exclusive(),
    {
        self.lock_exclusive();
    }

    /// Saves a page in the journal, unless it is saved already.
    pub fn backup_page(&mut self, pgno: u32, buf: &[u8])
        requires
            old(self)@.is_open(),
            buf@.len() == PAGE_SIZE,
            old(self)@.pos + JOURNAL_PAGE <= usize::MAX,
        ensures
            final(self)@ == old(self)@.page_saved(pgno, buf@),
    {
        broadcast use be32_len;

        if has_page(&self.backup_set, pgno) {
            return;
        }
        let ghost v = self@;
        let mut bytes: Vec<u8> = Vec::new();
        push_be32(&mut bytes, pgno);
        bytes.extend_from_slice(buf);
        bytes.push(checksum(buf));
        assert(bytes@ =~= record_bytes(pgno, buf@));
        let offset: usize = self.pos;
        self.perform(FileOp::WriteJournal { offset, bytes });
        self.pos = self.pos + JOURNAL_PAGE;
        self.backup_set.push(pgno);
        assert(self@ =~= v.page_saved(pgno, buf@));
    }

    /// Has the journal written through.
    pub fn sync_journal(&mut self)
        requires
            old(self)@.is_open(),
        ensures
            final(self)@ == old(self)@.then_op(FileOpView::SyncJournal),
    {
        self.perform(FileOp::SyncJournal);
    }

    /// Marks the journal as out of use.
    pub fn invalidate_journal(&mut self)
        requires
            old(self)@.is_open(),
        ensures
            final(self)@ == old(self)@.invalidated(),
    {
        let ghost v = self@;
        let bytes: Vec<u8> = vec![0u8];
        assert(bytes@ =~= seq![0u8]);
        self.perform(FileOp::WriteJournal { offset: JOURNAL_VALID_BYTE, bytes });
        self.perform(FileOp::SyncJournal);
        self.pos = JOURNAL_VALID_BYTE + 1;
        self.backup_set.clear();
        assert(self@ =~= v.invalidated());
    }

    /// Marks the journal as in use.
    pub fn revalidate_journal(&mut self)
        requires
            old(self)@.is_open(),
        ensures
            final(self)@ == old(self)@.revalidated(),
    {
        let bytes: Vec<u8> = vec![1u8];
        assert(bytes@ =~= seq![1u8]);
        self.perform(FileOp::WriteJournal { offset: JOURNAL_VALID_BYTE, bytes });
        self.perform(FileOp::SyncJournal);
        self.pos = JOURNAL_HEADER;
    }

    /// Deletes the journal.
    pub fn delete_journal(&mut self)
        ensures
            final(self)@ == old(self)@.deleted(),
    {
        let ghost v = self@;
        self.perform(FileOp::DeleteJournal);
        self.pos = 0;
        self.backup_set.clear();
        assert(self@ =~= v.deleted());
    }

    /// Empties the journal for a database of `pagecnt` pages.
    pub fn reset_journal(&mut self, pagecnt: u32)
        requires
            old(self)@.is_open(),
        ensures
            final(self)@ == old(self)@.emptied(pagecnt),
    {
        broadcast use be32_len;

        self.perform(FileOp::SetJournalLen { len: JOURNAL_HEADER });
        let one: Vec<u8> = vec![1u8];
        assert(one@ =~= seq![1u8]);
        self.perform(FileOp::WriteJournal { offset: JOURNAL_VALID_BYTE, bytes: one });
        let mut count: Vec<u8> = Vec::new();
        push_be32(&mut count, pagecnt);
        assert(count@ =~= be32(pagecnt));
        self.perform(FileOp::WriteJournal { offset: JOURNAL_PAGE_COUNT, bytes: count });
        self.perform(FileOp::SyncJournal);
        self.pos = JOURNAL_HEADER;
    }

    /// Whether the journal is marked as in use.
    pub fn is_journal_valid(&self) -> (r: bool)
        requires
            self@.is_open(),
        ensures
            r == marked_valid(self@.file()),
    {
        match &self.journal {
            Some(j) => j.len() > JOURNAL_VALID_BYTE && j[JOURNAL_VALID_BYTE] != 0,
            None => false,
        }
    }

    /// Whether the journal consists of whole records with right checksums, of
    /// pages that can be addressed.
    pub fn check_journal(&self) -> (r: bool)
        requires
            self@.is_open(),
        ensures
            r == (records_ok(self@.file()) && offsets_fit(self@.file())),
    {
        match &self.journal {
            Some(j) => {
                let ghost f = j@;
                if j.len() <= JOURNAL_HEADER {
                    return true;
                }
                let total: usize = j.len() - JOURNAL_HEADER;
                let n: usize = total / JOURNAL_PAGE;
                assert(n == record_count(f));
                if n * JOURNAL_PAGE != total {
                    return false;
                }
                let mut i: usize = 0;
                while i < n
                    invariant
                        i <= n,
                        f == j@,
                        f == self@.file(),
                        n == record_count(f),
                        j.len() == JOURNAL_HEADER + n * JOURNAL_PAGE,
                        forall|k: int|
                            0 <= k < i ==> xor_all(#[trigger] record_content(f, k))
                                == record_checksum(f, k),
                        forall|k: int|
                            0 <= k < i ==> (#[trigger] record_page(f, k)) * PAGE_SIZE + PAGE_SIZE
                                <= usize::MAX,
                    decreases n - i,
                {
                    proof {
                        assert(i * JOURNAL_PAGE + JOURNAL_PAGE <= n * JOURNAL_PAGE)
                            by (nonlinear_arith)
                            requires
                                i + 1 <= n,
                        ;
                    }
                    let o: usize = JOURNAL_HEADER + i * JOURNAL_PAGE;
                    assert(o == record_start(i as int));
                    let page = copy_range(j.as_slice(), o + 4, o + 4 + PAGE_SIZE);
                    assert(page@ == record_content(f, i as int));
                    let p: u32 = get_be32(j.as_slice(), o);
                    if checksum(page.as_slice()) != j[o + 4 + PAGE_SIZE] {
                        return false;
                    }
                    assert(p == record_page(f, i as int));
                    match (p as usize).checked_mul(PAGE_SIZE) {
                        None => return false,
                        Some(m) => {
                            if m > usize::MAX - PAGE_SIZE {
                                return false;
                            }
                        },
                    }
                    i = i + 1;
                }
                true
            },
            None => false,
        }
    }

    /// Releases the locks of a writer.
    pub fn unlock_write(&mut self)
        ensures
            final(self)@ == old(self)@.released(),
    {
        self.perform(FileOp::Unlock { byte: SHARED_BYTE });
        self.perform(FileOp::Unlock { byte: RESERVED_BYTE });
        if self.gotpending {
            self.perform(FileOp::Unlock { byte: PENDING_BYTE });
        }
        self.dblock = NONE_LOCK;
        self.gotpending = false;
    }

    /// Releases the lock of a reader.
    pub fn unlock_read(&mut self)
        ensures
            final(self)@ == old(self)@.left(),
    {
        if self.dblock >= SHARED_LOCK {
            self.perform(FileOp::Unlock { byte: SHARED_BYTE });
        }
        self.dblock = NONE_LOCK;
    }

    /// Writes all saved pages back to the database, and returns how many pages
    /// the database had when the journal was begun.
    pub fn rollback(&mut self) -> (r: u32)
        requires
            old(self)@.is_open(),
            records_ok(old(self)@.file()),
            offsets_fit(old(self)@.file()),
        ensures
            r == journal_pages(old(self)@.file()),
            final(self)@ == old(self)@.written_back(record_count(old(self)@.file())),
    {
        let ghost v = self@;
        let ghost f = v.file();
        let (n, r): (usize, u32) = match &self.journal {
            Some(j) => {
                let n: usize = if j.len() < JOURNAL_HEADER {
                    0
                } else {
                    (j.len() - JOURNAL_HEADER) / JOURNAL_PAGE
                };
                let r: u32 = if j.len() >= JOURNAL_PAGE_COUNT + 4 {
                    get_be32(j.as_slice(), JOURNAL_PAGE_COUNT)
                } else {
                    0
                };
                (n, r)
            },
            None => (0, 0),
        };
        let mut i: usize = 0;
        while i < n
            invariant
                i <= n,
                n == record_count(f),
                f == v.file(),
                v.is_open(),
                f.len() <= usize::MAX,
                records_ok(f),
                offsets_fit(f),
                self@ == v.written_back(i as nat),
                self@.disk.journal == v.disk.journal,
            decreases n - i,
        {
            proof {
                assert(i * JOURNAL_PAGE + JOURNAL_PAGE <= n * JOURNAL_PAGE) by (nonlinear_arith)
                    requires
                        i + 1 <= n,
                ;
            }
            let o: usize = JOURNAL_HEADER + i * JOURNAL_PAGE;
            assert(o == record_start(i as int));
            let (p, page): (u32, Vec<u8>) = match &self.journal {
                Some(j) => (
                    get_be32(j.as_slice(), o),
                    copy_range(j.as_slice(), o + 4, o + 4 + PAGE_SIZE),
                ),
                None => (0, Vec::new()),
            };
            assert(p == record_page(f, i as int));
            assert(page@ =~= record_content(f, i as int));
            self.write_page(p, page.as_slice());
            i = i + 1;
        }
        r
    }

    /// Number of whole pages of the database. Of the file's length the low 32
    /// bits count.
    pub fn fetch_db_pagecnt(&self) -> (r: u32)
        ensures
            r == pages_in(self@.disk.db.len()),
    {
        ((self.db.len() as u64 % 0x1_0000_0000) / (PAGE_SIZE as u64)) as u32
    }

    /// Cuts the database to `len` bytes.
    pub fn cut(&mut self, len: usize)
        ensures
            final(self)@ == old(self)@.then_op(FileOpView::SetDbLen { len: len as int }),
    {
        self.perform(FileOp::SetDbLen { len });
    }

    /// Cuts the database to `pagecnt` pages.
    pub fn shrink(&mut self, pagecnt: u32)
        requires
            pagecnt * PAGE_SIZE <= usize::MAX,
        ensures
            final(self)@ == old(self)@.then_op(FileOpView::SetDbLen { len: pagecnt * PAGE_SIZE }),
    {
        self.perform(FileOp::SetDbLen { len: pagecnt as usize * PAGE_SIZE });
    }
}

/// Number of whole pages of a file of `n` bytes.
pub open spec fn pages_in(n: nat) -> int {
    (n as int % 0x1_0000_0000) / (PAGE_SIZE as int)
}

/// Whether a page number occurs in a list.
pub fn has_page(l: &Vec<u32>, p: u32) -> (r: bool)
    ensures
        r == l@.contains(p),
{
    let mut i: usize = 0;
    while i < l.len()
        invariant
            i <= l@.len(),
            forall|k: int| 0 <= k < i ==> l@[k] != p,
        decreases l@.len() - i,
    {
        if l[i] == p {
            return true;
        }
        i = i + 1;
    }
    false
}

} // verus!
