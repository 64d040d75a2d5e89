//! What statements do, from their text to the rows of the database.
use vstd::prelude::*;
use vstd::utf8::encode_utf8;

use crate::engine::cursor::rows_by_leaves;
use crate::engine::node::CellView;
use crate::engine::tables::apart;
use crate::engine::transaction::{begun, committed, rolled_back};
use crate::engine::value::DataView;
use crate::sql::answering::{arranges, query_gives_rows, query_rows, Arrangement};
use crate::sql::ast::{
    CreateTableStmtView, DeleteStmtView, DropTableStmtView, InsertStmtView, SelectStmtView,
    StatementView, TableNameView, TransactionKind, TransactionStmt, UpdateStmtView,
};
use crate::sql::codegen::{programs_joined, statement_program};
use crate::sql::effects::{
    addable, appended, delete_removes_meant, insert_appends, meant, set_row, settable,
    update_sets_meant,
};
use crate::sql::grammar::p_root;
use crate::sql::lexer::tokens_from;
use crate::sql::listing::{dropped_table_is_gone, made_table_reads_back};
use crate::sql::memo::inserted;
use crate::sql::operations::{CreateTableView, DropTableView, OperationView};
use crate::sql::phrasing::{statement_writable, statements_from};
use crate::sql::planner::TableBindingView;
use crate::sql::reals::{Answers, RealAnswers, RealQuestionView};
use crate::sql::relation::lower_select;
use crate::sql::results::Source;
use crate::sql::running::{at_start, goes, knows, next_step};
use crate::sql::schema::{table_info, table_key, TableStructureView};
use crate::sql::spelling::{spellable, spelled_all, text_read_back};
use crate::sql::storing::{read_structure, structure_read_back};
use crate::sql::vm::{stepped, VMInstance};

verus! {

/// Whether a text is that of a statement that can be written.
pub open spec fn is_text_of(sql: Seq<char>, s: StatementView, other: bool) -> bool {
    let t = statements_from(seq![s], 0, other);
    &&& statement_writable(s)
    &&& forall|i: int| 0 <= i < t.len() ==> spellable(#[trigger] t[i])
    &&& encode_utf8(sql) == spelled_all(t)
}

/// The statement that a text is read as, where it is one statement.
pub open spec fn read_alone(sql: Seq<char>) -> Option<StatementView> {
    match p_root(tokens_from(encode_utf8(sql), 0), 0) {
        Ok((root, _)) => if root.statements.len() == 1 {
            Some(root.statements[0])
        } else {
            None
        },
        Err(_) => None,
    }
}

/// The text of a statement is read as the statement.
pub proof fn text_is_statement(sql: Seq<char>, s: StatementView, other: bool)
    requires
        is_text_of(sql, s, other),
    ensures
        read_alone(sql) == Some(s),
{
    let v = seq![s];
    assert forall|x: int| 0 <= x < v.len() implies statement_writable(#[trigger] v[x]) by {}
    text_read_back(v, other, sql);
}

/// The operations of the statement that a text is read as, where they can be made and run
/// through from one machine to another.
pub open spec fn text_goes(
    sql: Seq<char>,
    cat: spec_fn(TableNameView) -> Option<TableBindingView>,
    known: Answers,
    r: RealAnswers,
    a: VMInstance,
    fin: VMInstance,
    n: nat,
) -> bool {
    &&& read_alone(sql) is Some
    &&& statement_program(read_alone(sql)->0, cat, known) matches Ok(Ok(ops)) && ops.len()
        <= usize::MAX && goes(ops, a, fin, r, n)
}

/// From the text of a query to the rows that it gives out.
pub proof fn select_text_gives_rows(
    sql: Seq<char>,
    s: SelectStmtView,
    other: bool,
    known: Answers,
    src: Source,
    a: VMInstance,
    fin: VMInstance,
    n: nat,
)
    requires
        is_text_of(sql, StatementView::Select(s), other),
        text_goes(sql, src.cat, known, src.reals, a, fin, n),
        knows(a, src),
        at_start(a),
        s.from matches Some(t) ==> t.joins.len() < usize::MAX,
        inserted(lower_select(s)->Ok_0, seq![]).0.len() <= usize::MAX,
    ensures
        exists|arr: Arrangement| #[trigger]
            arranges(arr, s) && fin.rows() == query_rows(s, arr, src),
{
    text_is_statement(sql, StatementView::Select(s), other);
    query_gives_rows(s, known, src, a, fin, n);
}

/// From the text of a DELETE statement to the rows that are left.
pub proof fn delete_text_removes(
    sql: Seq<char>,
    s: DeleteStmtView,
    other: bool,
    cat: spec_fn(TableNameView) -> Option<TableBindingView>,
    known: Answers,
    r: RealAnswers,
    a: VMInstance,
    fin: VMInstance,
    n: nat,
)
    requires
        is_text_of(sql, StatementView::Delete(s), other),
        text_goes(sql, cat, known, r, a, fin, n),
        a.btree.is_tree(cat(s.table)->0.root_pgno),
        a.pc == 0,
        !a.flag_halt,
    ensures
        ({
            let b = cat(s.table)->0;
            fin.btree.rows(b.root_pgno) == a.btree.rows(b.root_pgno).filter(
                |row: CellView| !meant(s.where_clause, s.table, b.columns, row, r),
            )
        }),
{
    text_is_statement(sql, StatementView::Delete(s), other);
    delete_removes_meant(s, cat, r, a, fin, n);
}

/// From the text of an UPDATE statement to the rows as they are set.
pub proof fn update_text_sets(
    sql: Seq<char>,
    s: UpdateStmtView,
    other: bool,
    cat: spec_fn(TableNameView) -> Option<TableBindingView>,
    known: Answers,
    r: RealAnswers,
    a: VMInstance,
    fin: VMInstance,
    n: nat,
)
    requires
        is_text_of(sql, StatementView::Update(s), other),
        text_goes(sql, cat, known, r, a, fin, n),
        a.btree.is_tree(cat(s.table)->0.root_pgno),
        a.pc == 0,
        !a.flag_halt,
        cat(s.table)->0.columns.len() <= usize::MAX,
        s.assignments.len() <= usize::MAX,
    ensures
        ({
            let b = cat(s.table)->0;
            let before = a.btree.rows(b.root_pgno);
            let after = fin.btree.rows(b.root_pgno);
            &&& after.len() == before.len()
            &&& forall|i: int|
                0 <= i < before.len() ==> (#[trigger] after[i]).0 == before[i].0
            &&& forall|i: int|
                0 <= i < before.len() && !meant(
                    s.where_clause,
                    s.table,
                    b.columns,
                    before[i],
                    r,
                ) ==> #[trigger] after[i] == before[i]
            &&& forall|i: int|
                0 <= i < before.len() && meant(
                    s.where_clause,
                    s.table,
                    b.columns,
                    before[i],
                    r,
                ) && settable(s, b.columns, before[i], r) ==> (#[trigger] after[i]).1 == set_row(
                    s,
                    b.columns,
                    before[i],
                    r,
                )
        }),
{
    text_is_statement(sql, StatementView::Update(s), other);
    update_sets_meant(s, cat, r, a, fin, n);
}

/// From the text of an INSERT statement to the rows that are added.
pub proof fn insert_text_appends(
    sql: Seq<char>,
    s: InsertStmtView,
    other: bool,
    cat: spec_fn(TableNameView) -> Option<TableBindingView>,
    known: Answers,
    r: RealAnswers,
    a: VMInstance,
    fin: VMInstance,
    n: nat,
    key: int,
)
    requires
        is_text_of(sql, StatementView::Insert(s), other),
        text_goes(sql, cat, known, r, a, fin, n),
        a.btree.is_tree(cat(s.table)->0.root_pgno),
        a.pc == 0,
        !a.flag_halt,
        cat(s.table)->0.columns.len() <= usize::MAX,
        ({
            let e = a.btree.rows(cat(s.table)->0.root_pgno);
            if e.len() == 0 {
                key == 1
            } else {
                e.last().0 == DataView::Integer((key - 1) as u64) && key >= 1
            }
        }),
        key + s.rows.len() <= u64::MAX,
        forall|j: int|
            0 <= j < s.rows.len() ==> addable(
                s,
                cat(s.table)->0.columns,
                #[trigger] s.rows[j],
                r,
            ),
    ensures
        ({
            let b = cat(s.table)->0;
            fin.btree.rows(b.root_pgno) == appended(
                a.btree.rows(b.root_pgno),
                s,
                b.columns,
                s.rows,
                key,
                r,
            )
        }),
{
    text_is_statement(sql, StatementView::Insert(s), other);
    insert_appends(s, cat, r, a, fin, n, key);
}

/// From the text of a CREATE TABLE statement to the schema: the table is there, without
/// rows, and what is stored of it is read back as the columns of the statement, each with
/// its type and with what is said of it; every other table is as it was.
pub proof fn create_text_makes(
    sql: Seq<char>,
    s: CreateTableStmtView,
    other: bool,
    cat: spec_fn(TableNameView) -> Option<TableBindingView>,
    known: Answers,
    r: RealAnswers,
    a: VMInstance,
    fin: VMInstance,
    n: nat,
    name: Seq<char>,
)
    requires
        is_text_of(sql, StatementView::CreateTable(s), other),
        text_goes(sql, cat, known, r, a, fin, n),
        a.btree.is_tree(1),
        a.pc == 0,
        !a.flag_halt,
    ensures
        table_info(a.btree.rows(1), s.name.name) is None,
        table_info(fin.btree.rows(1), s.name.name) matches Some(info) && read_structure(
            info.structure_json,
        ) == Some(TableStructureView { columns: s.columns }) && fin.btree.is_tree(info.root_pgno)
            && fin.btree.rows(info.root_pgno) == Seq::<CellView>::empty(),
        name != s.name.name ==> table_info(fin.btree.rows(1), name) == table_info(
            a.btree.rows(1),
            name,
        ),
{
    text_is_statement(sql, StatementView::CreateTable(s), other);
    let op = OperationView::CreateTable(CreateTableView { name: s.name.name, columns: s.columns });
    let ops = statement_program(StatementView::CreateTable(s), cat, known)->Ok_0->Ok_0;
    assert(ops =~= seq![op]);
    let m = next_step(ops, a, fin, r, n);
    assert(stepped(m, a.pc).pc == 1);
    assert(fin == stepped(m, a.pc));
    let t = TableStructureView { columns: s.columns };
    let e = a.btree.rows(1);
    rows_by_leaves(&a.btree, 1);
    let p = choose|p: u32|
        {
            &&& p != 0
            &&& a.btree.free().contains(p)
            &&& !m.btree.free().contains(p)
            &&& #[trigger] m.btree.is_tree(p)
            &&& m.btree.rows(p) == Seq::<CellView>::empty()
            &&& m.btree.rows(1) == crate::engine::tree::with_cell(
                e,
                (table_key(s.name.name), crate::sql::schema::table_record(s.name.name, p, t)),
            )
        };
    made_table_reads_back(e, s.name.name, p, t, s.name.name);
    made_table_reads_back(e, s.name.name, p, t, name);
    structure_read_back(t);
}

/// From the text of a DROP TABLE statement to the schema: the table was there and is gone,
/// and every other table is as it was.
pub proof fn drop_text_removes(
    sql: Seq<char>,
    s: DropTableStmtView,
    other: bool,
    cat: spec_fn(TableNameView) -> Option<TableBindingView>,
    known: Answers,
    r: RealAnswers,
    a: VMInstance,
    fin: VMInstance,
    n: nat,
    name: Seq<char>,
)
    requires
        is_text_of(sql, StatementView::DropTable(s), other),
        text_goes(sql, cat, known, r, a, fin, n),
        a.btree.is_tree(1),
        table_info(a.btree.rows(1), s.name.name) matches Some(info) ==> a.btree.is_tree(
            info.root_pgno,
        ) && apart(&a.btree, 1, info.root_pgno),
        a.pc == 0,
        !a.flag_halt,
    ensures
        table_info(a.btree.rows(1), s.name.name) is Some,
        table_info(fin.btree.rows(1), s.name.name) is None,
        name != s.name.name ==> table_info(fin.btree.rows(1), name) == table_info(
            a.btree.rows(1),
            name,
        ),
{
    text_is_statement(sql, StatementView::DropTable(s), other);
    let op = OperationView::DropTable(DropTableView { name: s.name.name });
    let ops = statement_program(StatementView::DropTable(s), cat, known)->Ok_0->Ok_0;
    assert(ops =~= seq![op]);
    let m = next_step(ops, a, fin, r, n);
    assert(stepped(m, a.pc).pc == 1);
    assert(fin == stepped(m, a.pc));
    let e = a.btree.rows(1);
    rows_by_leaves(&a.btree, 1);
    dropped_table_is_gone(e, s.name.name, s.name.name);
    dropped_table_is_gone(e, s.name.name, name);
}

/// From the text of a statement about transactions to what it does: BEGIN begins one,
/// COMMIT makes what was changed last, and ROLLBACK takes it back.
pub proof fn transaction_text_does(
    sql: Seq<char>,
    s: TransactionStmt,
    other: bool,
    cat: spec_fn(TableNameView) -> Option<TableBindingView>,
    known: Answers,
    r: RealAnswers,
    a: VMInstance,
    fin: VMInstance,
    n: nat,
)
    requires
        is_text_of(sql, StatementView::Transaction(s), other),
        text_goes(sql, cat, known, r, a, fin, n),
        a.pc == 0,
        !a.flag_halt,
    ensures
        s.kind == TransactionKind::Begin ==> begun(&a.btree, &fin.btree),
        s.kind == TransactionKind::Commit && a.btree.is_write ==> committed(
            &a.btree,
            &fin.btree,
            true,
        ),
        s.kind == TransactionKind::Commit && !a.btree.is_write ==> fin.btree == a.btree,
        s.kind == TransactionKind::Rollback ==> rolled_back(&a.btree, &fin.btree),
{
    text_is_statement(sql, StatementView::Transaction(s), other);
    let ops = statement_program(StatementView::Transaction(s), cat, known)->Ok_0->Ok_0;
    assert(ops.len() == 1);
    let m = next_step(ops, a, fin, r, n);
    assert(stepped(m, a.pc).pc == 1);
    assert(fin == stepped(m, a.pc));
}

/// The operations of statements are those of each, in their order.
pub proof fn programs_in_order(
    v: Seq<StatementView>,
    w: Seq<StatementView>,
    s: StatementView,
    cat: spec_fn(TableNameView) -> Option<TableBindingView>,
    known: Answers,
)
    ensures
        programs_joined(seq![s], cat, known) == statement_program(s, cat, known),
        match (programs_joined(v, cat, known), programs_joined(w, cat, known)) {
            (Ok(Ok(a)), Ok(Ok(b))) => programs_joined(v + w, cat, known) == Ok::<
                Result<Seq<OperationView>, Seq<char>>,
                RealQuestionView,
            >(Ok(a + b)),
            _ => true,
        },
    decreases w.len(),
{
    let one = seq![s];
    assert(one.drop_last() =~= seq![]);
    assert(one.last() == s);
    assert(programs_joined(one.drop_last(), cat, known) == Ok::<
        Result<Seq<OperationView>, Seq<char>>,
        RealQuestionView,
    >(Ok(seq![])));
    match statement_program(s, cat, known) {
        Ok(Ok(b)) => {
            assert(Seq::<OperationView>::empty() + b =~= b);
        },
        _ => {},
    }
    if w.len() == 0 {
        assert(v + w =~= v);
        match programs_joined(v, cat, known) {
            Ok(Ok(a)) => {
                assert(a + Seq::<OperationView>::empty() =~= a);
            },
            _ => {},
        }
    } else {
        let d = w.drop_last();
        programs_in_order(v, d, s, cat, known);
        assert((v + w).drop_last() =~= v + d);
        assert((v + w).last() == w.last());
        match (programs_joined(v, cat, known), programs_joined(d, cat, known)) {
            (Ok(Ok(a)), Ok(Ok(c))) => match statement_program(w.last(), cat, known) {
                Ok(Ok(b)) => {
                    assert((a + c) + b =~= a + (c + b));
                },
                _ => {},
            },
            _ => {},
        }
    }
}

} // verus!
