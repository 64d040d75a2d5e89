//! What a shell does with lines and statements.
use vstd::prelude::*;
use vstd::string::{StrSliceExecFns, StringExecFns};

use crate::engine::btree::BTree;
use crate::engine::durability::commit_survives;
use crate::engine::journal::{page_of, replay, Disk};
use crate::engine::node::PAGE_SIZE;
use crate::engine::transaction::{begun, committed, read_begun, rolled_back, same_contents};
use crate::engine::value::{BTreeDataType, DataView};
use crate::sql::ast::{Statement, StatementView, TransactionKind};
use crate::sql::schema::{column_def_views, ColumnDef, ColumnDefView};
use crate::sql::text::{decimal, push_decimal};
use crate::sql::vm::VMInstance;
use crate::engine::recovery::{group_calls, in_use, went_on};

verus! {

broadcast use group_calls;

// -- Blanks and words ------------------------------------------

/// Whether a character is white space.
pub open spec fn is_space(c: char) -> bool {
    ||| '\u{9}' <= c <= '\u{d}'
    ||| c == ' '
    ||| c == '\u{85}'
    ||| c == '\u{a0}'
    ||| c == '\u{1680}'
    ||| '\u{2000}' <= c <= '\u{200a}'
    ||| c == '\u{2028}'
    ||| c == '\u{2029}'
    ||| c == '\u{202f}'
    ||| c == '\u{205f}'
    ||| c == '\u{3000}'
}

fn space(c: char) -> (r: bool)
    ensures
        r == is_space(c),
{
    ('\u{9}' <= c && c <= '\u{d}') || c == ' ' || c == '\u{85}' || c == '\u{a0}' || c == '\u{1680}'
        || ('\u{2000}' <= c && c <= '\u{200a}') || c == '\u{2028}' || c == '\u{2029}' || c
        == '\u{202f}' || c == '\u{205f}' || c == '\u{3000}'
}

/// The first place from `i` on where there is no white space.
pub open spec fn skip_space(s: Seq<char>, i: int) -> int
    decreases s.len() - i,
{
    if 0 <= i < s.len() && is_space(s[i]) {
        skip_space(s, i + 1)
    } else {
        i
    }
}

/// The first place from `i` on where there is white space.
pub open spec fn skip_word(s: Seq<char>, i: int) -> int
    decreases s.len() - i,
{
    if 0 <= i < s.len() && !is_space(s[i]) {
        skip_word(s, i + 1)
    } else {
        i
    }
}

/// A text without the white space at its end.
pub open spec fn trim_end(s: Seq<char>) -> Seq<char>
    decreases s.len(),
{
    if s.len() > 0 && is_space(s.last()) {
        trim_end(s.drop_last())
    } else {
        s
    }
}

/// Whether a text ends in a semicolon, apart from white space.
pub open spec fn is_complete(sql: Seq<char>) -> bool {
    trim_end(sql).len() > 0 && trim_end(sql).last() == ';'
}

/// Whether a text ends in a semicolon, apart from white space.
pub fn sql_is_complete(sql: &str) -> (r: bool)
    ensures
        r == is_complete(sql@),
{
    let mut n: usize = sql.unicode_len();
    assert(sql@.take(n as int) =~= sql@);
    while n > 0
        invariant
            n <= sql@.len(),
            trim_end(sql@) == trim_end(sql@.take(n as int)),
        decreases n,
    {
        let c = sql.get_char(n - 1);
        assert(sql@.take(n as int).last() == c);
        assert(sql@.take(n as int).drop_last() =~= sql@.take(n - 1));
        if !space(c) {
            return c == ';';
        }
        n = n - 1;
    }
    assert(sql@.take(0) =~= seq![]);
    false
}

fn after_space(s: &str, from: usize) -> (r: usize)
    requires
        from <= s@.len(),
    ensures
        from <= r <= s@.len(),
        r == skip_space(s@, from as int),
{
    let n: usize = s.unicode_len();
    let mut i: usize = from;
    while i < n && space(s.get_char(i))
        invariant
            n == s@.len(),
            from <= i <= n,
            skip_space(s@, from as int) == skip_space(s@, i as int),
        decreases n - i,
    {
        i = i + 1;
    }
    i
}

fn after_word(s: &str, from: usize) -> (r: usize)
    requires
        from <= s@.len(),
    ensures
        from <= r <= s@.len(),
        r == skip_word(s@, from as int),
{
    let n: usize = s.unicode_len();
    let mut i: usize = from;
    while i < n && !space(s.get_char(i))
        invariant
            n == s@.len(),
            from <= i <= n,
            skip_word(s@, from as int) == skip_word(s@, i as int),
        decreases n - i,
    {
        i = i + 1;
    }
    i
}

/// The word that starts behind the white space from `i` on, and where it ends;
/// without one the word is empty.
pub open spec fn word_from(s: Seq<char>, i: int) -> (Seq<char>, int) {
    let a = skip_space(s, i);
    let b = skip_word(s, a);
    (s.subrange(a, b), b)
}

fn next_word(s: &str, from: usize) -> (r: (String, usize))
    requires
        from <= s@.len(),
    ensures
        (r.0@, r.1 as int) == word_from(s@, from as int),
        from <= r.1 <= s@.len(),
{
    let a: usize = after_space(s, from);
    let b: usize = after_word(s, a);
    let w = String::from_str(s.substring_char(a, b));
    (w, b)
}

// -- Commands --------------------------------------------------

/// A command to the shell itself.
#[derive(Debug, PartialEq)]
pub enum Meta {
    Exit,
    Help,
    /// Another database; there may be no name.
    Open(Option<String>),
    Tables,
    /// How tables are made: all of them, or those with a name.
    Schema(Option<String>),
    Dbinfo,
    Unknown(String),
}

/// A command to the shell itself.
#[verifier::ext_equal]
pub enum MetaView {
    Exit,
    Help,
    Open(Option<Seq<char>>),
    Tables,
    Schema(Option<Seq<char>>),
    Dbinfo,
    Unknown(Seq<char>),
}

impl View for Meta {
    type V = MetaView;

    open spec fn view(&self) -> MetaView {
        match self {
            Meta::Exit => MetaView::Exit,
            Meta::Help => MetaView::Help,
            Meta::Open(n) => MetaView::Open(crate::sql::ast::label(*n)),
            Meta::Tables => MetaView::Tables,
            Meta::Schema(n) => MetaView::Schema(crate::sql::ast::label(*n)),
            Meta::Dbinfo => MetaView::Dbinfo,
            Meta::Unknown(s) => MetaView::Unknown(s@),
        }
    }
}

/// A word, if there is one.
pub open spec fn some_word(w: Seq<char>) -> Option<Seq<char>> {
    if w.len() > 0 {
        Some(w)
    } else {
        None
    }
}

/// The command that a line is: its first word, and the second where it takes one.
pub open spec fn meta_of(line: Seq<char>) -> MetaView {
    let (w, i) = word_from(line, 0);
    let more = some_word(word_from(line, i).0);
    if w == ".exit"@ || w == ".quit"@ {
        MetaView::Exit
    } else if w == ".help"@ {
        MetaView::Help
    } else if w == ".open"@ {
        MetaView::Open(more)
    } else if w == ".tables"@ {
        MetaView::Tables
    } else if w == ".schema"@ {
        MetaView::Schema(more)
    } else if w == ".dbinfo"@ {
        MetaView::Dbinfo
    } else {
        MetaView::Unknown(w)
    }
}

fn is_word(w: &String, word: &str) -> (r: bool)
    ensures
        r == (w@ == word@),
{
    *w == String::from_str(word)
}

/// The command that a line is.
pub fn parse_meta(line: &str) -> (r: Meta)
    ensures
        r@ == meta_of(line@),
{
    let (w, i) = next_word(line, 0);
    let (more, _) = next_word(line, i);
    let more = if more.as_str().unicode_len() > 0 {
        Some(more)
    } else {
        None
    };
    if is_word(&w, ".exit") || is_word(&w, ".quit") {
        Meta::Exit
    } else if is_word(&w, ".help") {
        Meta::Help
    } else if is_word(&w, ".open") {
        Meta::Open(more)
    } else if is_word(&w, ".tables") {
        Meta::Tables
    } else if is_word(&w, ".schema") {
        Meta::Schema(more)
    } else if is_word(&w, ".dbinfo") {
        Meta::Dbinfo
    } else {
        Meta::Unknown(w)
    }
}

/// What a line of input comes to: a command, statements that are complete, or a
/// wait for more lines.
#[derive(Debug, PartialEq)]
pub enum Input {
    Command(Meta),
    Sql(String),
    More,
}

/// Whether a text is nothing but white space.
pub open spec fn is_blank_text(s: Seq<char>) -> bool {
    skip_space(s, 0) == s.len()
}

/// Whether a line is a command: its first character that is not white space is a
/// dot.
pub open spec fn starts_with_dot(line: Seq<char>) -> bool {
    skip_space(line, 0) < line.len() && line[skip_space(line, 0)] == '.'
}

/// Takes a line of input behind the lines that wait. A command is only looked for
/// where none wait.
pub fn take_line(buffer: &mut String, line: &str) -> (r: Input)
    ensures
        if is_blank_text(old(buffer)@) && starts_with_dot(line@) {
            &&& r matches Input::Command(m) && m@ == meta_of(line@)
            &&& final(buffer)@ == old(buffer)@
        } else {
            let all = old(buffer)@ + line@;
            if is_complete(all) {
                &&& r matches Input::Sql(s) && s@ == all
                &&& final(buffer)@ == Seq::<char>::empty()
            } else {
                r is More && final(buffer)@ == all
            }
        },
{
    let n: usize = buffer.as_str().unicode_len();
    if after_space(buffer.as_str(), 0) == n {
        let i: usize = after_space(line, 0);
        if i < line.unicode_len() && line.get_char(i) == '.' {
            return Input::Command(parse_meta(line));
        }
    }
    buffer.append(line);
    if !sql_is_complete(buffer.as_str()) {
        return Input::More;
    }
    let sql = buffer.clone();
    *buffer = String::new();
    Input::Sql(sql)
}

// -- Output ----------------------------------------------------

/// How a column is declared.
pub open spec fn column_text(c: ColumnDefView) -> Seq<char> {
    c.name + " "@ + c.col_type + (if c.is_primary_key {
        " PRIMARY KEY"@
    } else if !c.nullable {
        " NOT NULL"@
    } else {
        ""@
    })
}

/// How columns are declared, with commas between them.
pub open spec fn column_texts(c: Seq<ColumnDefView>) -> Seq<char>
    decreases c.len(),
{
    if c.len() == 0 {
        ""@
    } else if c.len() == 1 {
        column_text(c[0])
    } else {
        column_texts(c.drop_last()) + ", "@ + column_text(c.last())
    }
}

/// The statement that makes a table.
pub open spec fn table_text(name: Seq<char>, c: Seq<ColumnDefView>) -> Seq<char> {
    "CREATE TABLE "@ + name + " ("@ + column_texts(c) + ");"@
}

fn push_column(s: &mut String, c: &ColumnDef)
    ensures
        final(s)@ == old(s)@ + column_text(c@),
{
    let ghost before = s@;
    proof {
        reveal_strlit("");
    }
    s.append(c.name.as_str());
    s.append(" ");
    s.append(c.col_type.as_str());
    if c.is_primary_key {
        s.append(" PRIMARY KEY");
    } else if !c.nullable {
        s.append(" NOT NULL");
    }
    assert(s@ =~= before + column_text(c@));
}

/// The statement that makes a table.
pub fn create_table_text(name: &str, columns: &Vec<ColumnDef>) -> (r: String)
    ensures
        r@ == table_text(name@, column_def_views(columns@)),
{
    let mut s = String::from_str("CREATE TABLE ");
    s.append(name);
    s.append(" (");
    let ghost before = s@;
    let ghost v = column_def_views(columns@);
    let mut i: usize = 0;
    proof {
        reveal_strlit("");
        assert(v.take(0) =~= seq![]);
        assert(before + column_texts(v.take(0)) =~= before);
    }
    while i < columns.len()
        invariant
            i <= columns@.len(),
            v == column_def_views(columns@),
            s@ == before + column_texts(v.take(i as int)),
        decreases columns.len() - i,
    {
        if i > 0 {
            s.append(", ");
        }
        push_column(&mut s, &columns[i]);
        proof {
            reveal_strlit("");
            let a = v.take(i as int);
            let b = v.take(i + 1);
            assert(b.drop_last() =~= a);
            assert(b.last() == columns@[i as int]@);
            assert(s@ =~= before + column_texts(b));
        }
        i = i + 1;
    }
    assert(v.take(v.len() as int) =~= v);
    s.append(");");
    s
}

/// A number in hexadecimal digits.
pub open spec fn hexadecimal(b: u8) -> Seq<char> {
    if b < 16 {
        seq![hex_digit(b)]
    } else {
        seq![hex_digit(b / 16), hex_digit(b % 16)]
    }
}

/// A hexadecimal digit.
pub open spec fn hex_digit(d: u8) -> char {
    "0123456789ABCDEF"@[d as int]
}

fn digit(d: u8) -> (r: &'static str)
    requires
        d < 16,
    ensures
        r@ == seq![hex_digit(d)],
{
    let digits: &'static str = "0123456789ABCDEF";
    proof {
        reveal_strlit("0123456789ABCDEF");
    }
    let r = digits.substring_char(d as usize, d as usize + 1);
    assert(r@ =~= seq![hex_digit(d)]);
    r
}

/// Bytes in hexadecimal digits, with a comma behind each.
pub open spec fn byte_texts(b: Seq<u8>) -> Seq<char>
    decreases b.len(),
{
    if b.len() == 0 {
        seq![]
    } else {
        byte_texts(b.drop_last()) + hexadecimal(b.last()) + ","@
    }
}

/// How a value is shown; `number` is how it is written where it is a real.
pub open spec fn shown(v: DataView, number: Seq<char>) -> Seq<char> {
    match v {
        DataView::Null => "Null"@,
        DataView::Integer(n) => "Intg("@ + decimal(n as nat) + ")"@,
        DataView::Real(_) => "Real("@ + number + ")"@,
        DataView::Text(t) => "Text("@ + t + ")"@,
        DataView::Blob(b) => "Blob(["@ + byte_texts(b),
    }
}

/// How a value is shown; `number` is how it is written where it is a real.
pub fn show_value(v: &BTreeDataType, number: &str) -> (r: String)
    ensures
        r@ == shown(v@, number@),
{
    match v {
        BTreeDataType::Null => String::from_str("Null"),
        BTreeDataType::Integer(n) => {
            let mut s = String::from_str("Intg(");
            push_decimal(&mut s, *n);
            s.append(")");
            s
        },
        BTreeDataType::Real(_) => crate::sql::text::join3("Real(", number, ")"),
        BTreeDataType::Text(t) => crate::sql::text::join3("Text(", t.as_str(), ")"),
        BTreeDataType::Blob(b) => {
            let mut s = String::from_str("Blob([");
            let ghost before = s@;
            let mut i: usize = 0;
            assert(b@.take(0) =~= seq![]);
            assert(before + byte_texts(b@.take(0)) =~= before);
            while i < b.len()
                invariant
                    i <= b@.len(),
                    s@ == before + byte_texts(b@.take(i as int)),
                decreases b.len() - i,
            {
                let x: u8 = b[i];
                let ghost mid = s@;
                if x >= 16 {
                    s.append(digit(x / 16));
                }
                s.append(digit(x % 16));
                assert(s@ =~= mid + hexadecimal(x));
                s.append(",");
                proof {
                    let t = b@.take(i + 1);
                    assert(t.drop_last() =~= b@.take(i as int));
                    assert(t.last() == x);
                    assert(s@ =~= before + byte_texts(t));
                }
                i = i + 1;
            }
            assert(b@.take(b@.len() as int) =~= b@);
            s
        },
    }
}


// -- Statements ------------------------------------------------

/// A shell's state: the machine, and whether a transaction was begun by a
/// statement.
pub struct Session {
    pub vm: VMInstance,
    pub explicit_transaction: bool,
}

/// Whether a statement gets a transaction of its own: outside of one that a
/// statement began, all but transaction statements do.
pub open spec fn is_auto(explicit: bool, s: StatementView) -> bool {
    !explicit && !(s is Transaction)
}

/// Whether a machine holds nothing but its database.
pub open spec fn is_fresh(vm: VMInstance) -> bool {
    &&& vm.cursors@.len() == 0
    &&& vm.regs() == Seq::<DataView>::empty()
    &&& vm.pc == 0
    &&& !vm.flag_halt
    &&& !vm.flag_cursor_end
    &&& vm.rows() == Seq::<Seq<DataView>>::empty()
}

fn is_transaction(s: &Statement) -> (r: bool)
    ensures
        r == (s@ is Transaction),
{
    match s {
        Statement::Transaction(_) => true,
        _ => false,
    }
}

/// What opening a session on a database that exists does.
pub open spec fn reopened(btree: &BTree, r: Option<Session>) -> bool {
    exists|m: BTree| #[trigger]
        read_begun(btree, &m, r is Some) && (r matches Some(s) ==> s.vm.btree.same_data(&m)
            && s.vm.btree.pager.journal@ == m.pager.journal@.left())
}

/// What was committed is there in a session that is opened on the files: `a` is a
/// database in a transaction, `b` after the transaction was ended, `files` those that `a`
/// follows, and `c` any database on what the operations made of them. The pages of a file
/// are counted in 32 bits.
pub proof fn committed_rows_reopen(
    a: &BTree,
    b: &BTree,
    files: Disk,
    c: &BTree,
    r: Option<Session>,
    root: u32,
)
    requires
        a.is_tree(root),
        committed(a, b, true),
        a.pager.counts_all(),
        a.total() * PAGE_SIZE < 0x1_0000_0000,
        a.pager.journal@.follows(files),
        c.m == b.m,
        c.pager.journal@.disk == replay(files, b.pager.journal@.ops),
        reopened(c, r),
    ensures
        r matches Some(s) && s.vm.btree.is_tree(root) && s.vm.btree.rows(root) == a.rows(root),
{
    let m = choose|m: BTree| #[trigger]
        read_begun(c, &m, r is Some) && (r matches Some(s) ==> s.vm.btree.same_data(&m)
            && s.vm.btree.pager.journal@ == m.pager.journal@.left());
    commit_survives(a, b, files, c, &m, r is Some, root);
    let t = r->0.vm.btree;
    assert forall|p: u32| p < m.total() implies #[trigger] t.content(p) == m.content(p) by {
        assert(t.pager.content(p) == m.pager.content(p));
    }
    same_contents(&m, &t, root);
}

impl Session {
    /// The invariant of a session.
    pub open spec fn wf(&self) -> bool {
        self.vm.wf()
    }

    /// A session on a database that is open.
    pub fn new(btree: BTree) -> (r: Self)
        ensures
            r.vm.btree == btree,
            is_fresh(r.vm),
            !r.explicit_transaction,
    {
        Session { vm: VMInstance::new(btree), explicit_transaction: false }
    }

    /// A session on a database, which is made where it is new; there is none where
    /// it cannot be made or read.
    pub fn open(btree: BTree, is_new: bool) -> (r: Option<Self>)
        requires
            btree.wf(),
        ensures
            r matches Some(s) ==> {
                &&& s.wf()
                &&& is_fresh(s.vm)
                &&& !s.explicit_transaction
                &&& !s.vm.btree.is_write
                &&& s.vm.btree.m == btree.m
                &&& s.vm.btree.total() > 0
            },
            is_new && !crate::engine::pages::can_roll_back(btree.pager.journal@)
                && btree.pager.journal@.disk.db.len() == crate::engine::node::PAGE_SIZE
                && crate::engine::journal::pages_fit(2) && crate::engine::bytes::be32_at(
                page_of(btree.pager.journal@.disk.db, 0),
                crate::engine::btree::HEADER_FREELIST_LEN as int,
            ) == 0 ==> r is Some && r->0.vm.btree.is_tree(1) && r->0.vm.btree.rows(1).len() == 0
                && r->0.vm.btree.pager.at_rest(),
            is_new ==> (r matches Some(s) ==> {
                &&& went_on(btree.pager.journal@, s.vm.btree.pager.journal@)
                &&& !in_use(s.vm.btree.pager.journal@.disk)
                &&& forall|p: u32|
                    p < s.vm.btree.total() ==> page_of(
                        s.vm.btree.pager.journal@.disk.db,
                        p as int,
                    ) == #[trigger] s.vm.btree.content(p)
            }),
            !is_new ==> reopened(&btree, r),
    {
        let ghost given = btree;
        let mut btree = btree;
        if is_new {
            if !btree.create_db() {
                return None;
            }
            if !btree.end_transaction_write() {
                return None;
            }
            Some(Session::new(btree))
        } else {
            if !btree.begin_transaction_read() {
                assert(read_begun(&given, &btree, false));
                return None;
            }
            let ghost m = btree;
            assert(read_begun(&given, &m, true));
            btree.end_transaction_read();
            Some(Session::new(btree))
        }
    }

    /// Makes ready for a statement; fails where a transaction is needed and there is
    /// no database.
    pub fn begin_statement(&mut self, s: &Statement) -> (r: bool)
        requires
            old(self).wf(),
        ensures
            final(self).wf(),
            final(self).explicit_transaction == old(self).explicit_transaction,
            if is_auto(old(self).explicit_transaction, s@) {
                if old(self).vm.btree.total() > 0 {
                    r && is_fresh(final(self).vm) && begun(
                        &old(self).vm.btree,
                        &final(self).vm.btree,
                    )
                } else {
                    !r && *final(self) == *old(self)
                }
            } else {
                r && is_fresh(final(self).vm) && final(self).vm.btree == old(self).vm.btree
            },
    {
        if !self.explicit_transaction && !is_transaction(s) {
            if self.vm.btree.pager.total_pages == 0 {
                return false;
            }
            self.vm.btree.begin_transaction_write();
        }
        self.vm.reset();
        true
    }

    /// Ends a statement whose program ran through or failed: its own transaction is
    /// written or undone, and a transaction statement that ran through decides
    /// whether statements have transactions of their own.
    pub fn end_statement(&mut self, s: &Statement, ran: bool) -> (r: bool)
        requires
            old(self).wf(),
        ensures
            final(self).wf(),
            final(self).explicit_transaction == (match s@ {
                StatementView::Transaction(t) => if ran {
                    t.kind == TransactionKind::Begin
                } else {
                    old(self).explicit_transaction
                },
                _ => old(self).explicit_transaction,
            }),
            final(self).vm == (VMInstance { btree: final(self).vm.btree, ..old(self).vm }),
            if is_auto(old(self).explicit_transaction, s@) {
                if ran {
                    if old(self).vm.btree.is_write {
                        committed(&old(self).vm.btree, &final(self).vm.btree, r)
                    } else {
                        !r && final(self).vm.btree == old(self).vm.btree
                    }
                } else {
                    !r && rolled_back(&old(self).vm.btree, &final(self).vm.btree)
                }
            } else {
                r == ran && final(self).vm.btree == old(self).vm.btree
            },
    {
        match s {
            Statement::Transaction(t) => {
                if ran {
                    self.explicit_transaction = t.kind == TransactionKind::Begin;
                }
                ran
            },
            _ => {
                if self.explicit_transaction {
                    return ran;
                }
                if !ran {
                    self.vm.btree.rollback();
                    return false;
                }
                if !self.vm.btree.is_write {
                    return false;
                }
                self.vm.btree.end_transaction_write()
            },
        }
    }
}

} // verus!
