//! From statements to programs.
use vstd::prelude::*;
use vstd::string::StringExecFns;

use crate::sql::ast::{
    statement_views, CreateTableStmt, DeleteStmt, DropTableStmt, InsertStmt, RootNode, SelectStmt,
    SelectStmtView, Statement, StatementView, TableNameView, TransactionKind, TransactionStmt,
    UpdateStmt,
};
use crate::sql::mutation::{
    compile_delete, compile_insert, compile_update, delete_program, insert_program, update_program,
};
use crate::sql::operations::{
    operation_views, BeginTransaction, CommitTransaction, CreateTable, CreateTableView, DropTable,
    DropTableView, Halt, Operation, OperationView, RollbackTransaction,
};
use crate::sql::optimize::{usual_plan, CascadesOptimizer, OptimizeError, Planned};
use crate::sql::planner::{
    compile_physical_plan_body, known, plan_program, Catalog, PlanError, TableBindingView,
};
use crate::sql::program::in_transaction;
use crate::sql::reals::{Answers, Asked, RealAnswers, RealQuestion, RealQuestionView};
use crate::sql::relation::{lower_select, RelationError, RelationExpr};
use crate::sql::schema::copy_column_defs;

verus! {

/// Why a statement has no program.
#[derive(Debug, PartialEq)]
pub struct CodegenError {
    pub message: String,
}

impl CodegenError {
    /// The error in words.
    pub fn text(&self) -> (r: String)
        ensures
            r@ == "codegen error: "@ + self.message@,
    {
        let mut s = String::from_str("codegen error: ");
        s.append(self.message.as_str());
        s
    }
}

impl From<RelationError> for CodegenError {
    fn from(value: RelationError) -> (r: Self) {
        CodegenError { message: value.message }
    }
}

impl vstd::std_specs::convert::FromSpecImpl<RelationError> for CodegenError {
    open spec fn obeys_from_spec() -> bool {
        true
    }

    open spec fn from_spec(value: RelationError) -> Self {
        CodegenError { message: value.message }
    }
}

impl From<OptimizeError> for CodegenError {
    fn from(value: OptimizeError) -> (r: Self) {
        CodegenError { message: value.message }
    }
}

impl vstd::std_specs::convert::FromSpecImpl<OptimizeError> for CodegenError {
    open spec fn obeys_from_spec() -> bool {
        true
    }

    open spec fn from_spec(value: OptimizeError) -> Self {
        CodegenError { message: value.message }
    }
}

impl From<PlanError> for CodegenError {
    fn from(value: PlanError) -> (r: Self) {
        CodegenError { message: value.message }
    }
}

impl vstd::std_specs::convert::FromSpecImpl<PlanError> for CodegenError {
    open spec fn obeys_from_spec() -> bool {
        true
    }

    open spec fn from_spec(value: PlanError) -> Self {
        CodegenError { message: value.message }
    }
}

/// What a statement comes to: a program, an error, or a question about reals that
/// has to be answered first.
#[derive(Debug)]
pub enum Coded {
    Made(Vec<Operation>),
    Failed(CodegenError),
    Needs(RealQuestion),
}

/// A program, or what is wrong.
pub type ProgramView = Result<Seq<OperationView>, Seq<char>>;

/// Whether a statement comes to what it should.
pub open spec fn is_coded(x: Coded, s: Asked<ProgramView>) -> bool {
    match s {
        Ok(Ok(ops)) => x matches Coded::Made(v) && operation_views(v@) == ops,
        Ok(Err(m)) => x matches Coded::Failed(e) && e.message@ == m,
        Err(q) => x matches Coded::Needs(y) && y@ == q,
    }
}

/// What programs can be made of.
pub trait ASTNode {
    /// The program.
    spec fn program(
        &self,
        cat: spec_fn(TableNameView) -> Option<TableBindingView>,
        reals: Answers,
    ) -> Asked<ProgramView>;

    /// Makes the program.
    fn to_oper<C: Catalog>(&self, catalog: &C, reals: &RealAnswers) -> (x: Coded)
        ensures
            is_coded(x, self.program(known(catalog), reals.answers())),
    ;
}

fn single(op: Operation) -> (r: Coded)
    ensures
        r matches Coded::Made(v) && operation_views(v@) == seq![op@],
{
    let mut v: Vec<Operation> = Vec::new();
    v.push(op);
    assert(operation_views(v@) =~= seq![op@]);
    Coded::Made(v)
}

fn coded(r: Result<Vec<Operation>, String>) -> (x: Coded)
    ensures
        match r {
            Ok(v) => x == Coded::Made(v),
            Err(m) => x == Coded::Failed(CodegenError { message: m }),
        },
{
    match r {
        Ok(v) => Coded::Made(v),
        Err(message) => Coded::Failed(CodegenError { message }),
    }
}

impl ASTNode for CreateTableStmt {
    open spec fn program(
        &self,
        cat: spec_fn(TableNameView) -> Option<TableBindingView>,
        reals: Answers,
    ) -> Asked<ProgramView> {
        Ok(
            Ok(
                seq![
                    OperationView::CreateTable(
                        CreateTableView { name: self@.name.name, columns: self@.columns },
                    ),
                ],
            ),
        )
    }

    fn to_oper<C: Catalog>(&self, catalog: &C, reals: &RealAnswers) -> (x: Coded)
        ensures
            x matches Coded::Made(v) ==> in_transaction(operation_views(v@)),
    {
        let op = Operation::CreateTable(
            CreateTable { name: self.name.name.clone(), columns: copy_column_defs(&self.columns) },
        );
        assert(op@ =~~= OperationView::CreateTable(
            CreateTableView { name: self@.name.name, columns: self@.columns },
        ));
        single(op)
    }
}

impl ASTNode for DropTableStmt {
    open spec fn program(
        &self,
        cat: spec_fn(TableNameView) -> Option<TableBindingView>,
        reals: Answers,
    ) -> Asked<ProgramView> {
        Ok(Ok(seq![OperationView::DropTable(DropTableView { name: self@.name.name })]))
    }

    fn to_oper<C: Catalog>(&self, catalog: &C, reals: &RealAnswers) -> (x: Coded)
        ensures
            x matches Coded::Made(v) ==> in_transaction(operation_views(v@)),
    {
        let op = Operation::DropTable(DropTable { name: self.name.name.clone() });
        assert(op@ =~~= OperationView::DropTable(DropTableView { name: self@.name.name }));
        single(op)
    }
}

impl ASTNode for InsertStmt {
    open spec fn program(
        &self,
        cat: spec_fn(TableNameView) -> Option<TableBindingView>,
        reals: Answers,
    ) -> Asked<ProgramView> {
        Ok(insert_program(self@, cat))
    }

    fn to_oper<C: Catalog>(&self, catalog: &C, reals: &RealAnswers) -> (x: Coded)
        ensures
            x matches Coded::Made(v) ==> in_transaction(operation_views(v@)),
    {
        coded(compile_insert(self, catalog))
    }
}

impl ASTNode for UpdateStmt {
    open spec fn program(
        &self,
        cat: spec_fn(TableNameView) -> Option<TableBindingView>,
        reals: Answers,
    ) -> Asked<ProgramView> {
        Ok(update_program(self@, cat))
    }

    fn to_oper<C: Catalog>(&self, catalog: &C, reals: &RealAnswers) -> (x: Coded)
        ensures
            x matches Coded::Made(v) ==> in_transaction(operation_views(v@)),
    {
        coded(compile_update(self, catalog))
    }
}

impl ASTNode for DeleteStmt {
    open spec fn program(
        &self,
        cat: spec_fn(TableNameView) -> Option<TableBindingView>,
        reals: Answers,
    ) -> Asked<ProgramView> {
        Ok(delete_program(self@, cat))
    }

    fn to_oper<C: Catalog>(&self, catalog: &C, reals: &RealAnswers) -> (x: Coded)
        ensures
            x matches Coded::Made(v) ==> in_transaction(operation_views(v@)),
    {
        coded(compile_delete(self, catalog))
    }
}

/// The program of a query: that of its best plan.
pub open spec fn select_program(
    stmt: SelectStmtView,
    cat: spec_fn(TableNameView) -> Option<TableBindingView>,
    reals: Answers,
) -> Asked<ProgramView> {
    match lower_select(stmt) {
        Err(m) => Ok(Err(m)),
        Ok(rel) => match usual_plan(reals, rel) {
            Err(q) => Err(q),
            Ok((None, _)) => Ok(Err("no physical plan found within cost bound"@)),
            Ok((Some(p), _)) => Ok(plan_program(p, cat, false)),
        },
    }
}

impl ASTNode for SelectStmt {
    open spec fn program(
        &self,
        cat: spec_fn(TableNameView) -> Option<TableBindingView>,
        reals: Answers,
    ) -> Asked<ProgramView> {
        select_program(self@, cat, reals)
    }

    fn to_oper<C: Catalog>(&self, catalog: &C, reals: &RealAnswers) -> (x: Coded)
        ensures
            x matches Coded::Made(v) ==> in_transaction(operation_views(v@)),
    {
        let relation = match RelationExpr::from_select(self) {
            Err(e) => return Coded::Failed(CodegenError::from(e)),
            Ok(r) => r,
        };
        let plan = match CascadesOptimizer::optimize_relation(&relation, reals) {
            Planned::Needs(q) => return Coded::Needs(q),
            Planned::Failed(e) => return Coded::Failed(CodegenError::from(e)),
            Planned::Plan(p) => p,
        };
        match compile_physical_plan_body(&plan, catalog) {
            Err(e) => Coded::Failed(CodegenError::from(e)),
            Ok(v) => Coded::Made(v),
        }
    }
}

/// The operation for a transaction statement.
pub open spec fn transaction_operation(kind: TransactionKind) -> OperationView {
    match kind {
        TransactionKind::Begin => OperationView::BeginTransaction(BeginTransaction),
        TransactionKind::Commit => OperationView::CommitTransaction(CommitTransaction),
        TransactionKind::Rollback => OperationView::RollbackTransaction(RollbackTransaction),
    }
}

impl ASTNode for TransactionStmt {
    open spec fn program(
        &self,
        cat: spec_fn(TableNameView) -> Option<TableBindingView>,
        reals: Answers,
    ) -> Asked<ProgramView> {
        Ok(Ok(seq![transaction_operation(self.kind)]))
    }

    fn to_oper<C: Catalog>(&self, catalog: &C, reals: &RealAnswers) -> (x: Coded) {
        match self.kind {
            TransactionKind::Begin => single(Operation::BeginTransaction(BeginTransaction)),
            TransactionKind::Commit => single(Operation::CommitTransaction(CommitTransaction)),
            TransactionKind::Rollback => single(
                Operation::RollbackTransaction(RollbackTransaction),
            ),
        }
    }
}

/// The program of a statement.
pub open spec fn statement_program(
    stmt: StatementView,
    cat: spec_fn(TableNameView) -> Option<TableBindingView>,
    reals: Answers,
) -> Asked<ProgramView> {
    match stmt {
        StatementView::CreateTable(s) => Ok(
            Ok(
                seq![
                    OperationView::CreateTable(
                        CreateTableView { name: s.name.name, columns: s.columns },
                    ),
                ],
            ),
        ),
        StatementView::DropTable(s) => Ok(
            Ok(seq![OperationView::DropTable(DropTableView { name: s.name.name })]),
        ),
        StatementView::Insert(s) => Ok(insert_program(s, cat)),
        StatementView::Select(s) => select_program(s, cat, reals),
        StatementView::Update(s) => Ok(update_program(s, cat)),
        StatementView::Delete(s) => Ok(delete_program(s, cat)),
        StatementView::Transaction(s) => Ok(Ok(seq![transaction_operation(s.kind)])),
    }
}

impl ASTNode for Statement {
    open spec fn program(
        &self,
        cat: spec_fn(TableNameView) -> Option<TableBindingView>,
        reals: Answers,
    ) -> Asked<ProgramView> {
        statement_program(self@, cat, reals)
    }

    fn to_oper<C: Catalog>(&self, catalog: &C, reals: &RealAnswers) -> (x: Coded)
        ensures
            !(self@ is Transaction) ==> (x matches Coded::Made(v) ==> in_transaction(
                operation_views(v@),
            )),
    {
        match self {
            Statement::CreateTable(s) => s.to_oper(catalog, reals),
            Statement::DropTable(s) => s.to_oper(catalog, reals),
            Statement::Insert(s) => s.to_oper(catalog, reals),
            Statement::Select(s) => s.to_oper(catalog, reals),
            Statement::Update(s) => s.to_oper(catalog, reals),
            Statement::Delete(s) => s.to_oper(catalog, reals),
            Statement::Transaction(s) => s.to_oper(catalog, reals),
        }
    }
}

/// The programs of statements, one behind the other.
pub open spec fn programs_joined(
    stmts: Seq<StatementView>,
    cat: spec_fn(TableNameView) -> Option<TableBindingView>,
    reals: Answers,
) -> Asked<ProgramView>
    decreases stmts.len(),
{
    if stmts.len() == 0 {
        Ok(Ok(seq![]))
    } else {
        match programs_joined(stmts.drop_last(), cat, reals) {
            Err(q) => Err(q),
            Ok(Err(m)) => Ok(Err(m)),
            Ok(Ok(a)) => match statement_program(stmts.last(), cat, reals) {
                Err(q) => Err(q),
                Ok(Err(m)) => Ok(Err(m)),
                Ok(Ok(b)) => Ok(Ok(a + b)),
            },
        }
    }
}

proof fn joined_error_stays(
    stmts: Seq<StatementView>,
    cat: spec_fn(TableNameView) -> Option<TableBindingView>,
    reals: Answers,
    n: int,
)
    requires
        0 <= n <= stmts.len(),
        !(programs_joined(stmts.take(n), cat, reals) matches Ok(Ok(_))),
    ensures
        programs_joined(stmts, cat, reals) == programs_joined(stmts.take(n), cat, reals),
    decreases stmts.len(),
{
    if n < stmts.len() {
        assert(stmts.drop_last().take(n) =~= stmts.take(n));
        joined_error_stays(stmts.drop_last(), cat, reals, n);
    } else {
        assert(stmts.take(n) =~= stmts);
    }
}

impl ASTNode for RootNode {
    open spec fn program(
        &self,
        cat: spec_fn(TableNameView) -> Option<TableBindingView>,
        reals: Answers,
    ) -> Asked<ProgramView> {
        match programs_joined(self@.statements, cat, reals) {
            Err(q) => Err(q),
            Ok(Err(m)) => Ok(Err(m)),
            Ok(Ok(ops)) => Ok(Ok(ops.push(OperationView::Halt(Halt)))),
        }
    }

    fn to_oper<C: Catalog>(&self, catalog: &C, reals: &RealAnswers) -> (x: Coded) {
        let ghost v = statement_views(self.statements@);
        let ghost cat = known(catalog);
        let mut ops: Vec<Operation> = Vec::new();
        let mut i: usize = 0;
        assert(v.take(0) =~= seq![]);
        assert(operation_views(ops@) =~= seq![]);
        while i < self.statements.len()
            invariant
                i <= self.statements@.len(),
                v == statement_views(self.statements@),
                cat == known(catalog),
                programs_joined(v.take(i as int), cat, reals.answers()) == Ok::<
                    ProgramView,
                    RealQuestionView,
                >(Ok(operation_views(ops@))),
            decreases self.statements.len() - i,
        {
            proof {
                assert(v.take(i + 1).drop_last() =~= v.take(i as int));
                assert(v.take(i + 1).last() == self.statements@[i as int]@);
            }
            let mut more = match self.statements[i].to_oper(catalog, reals) {
                Coded::Needs(q) => {
                    proof {
                        joined_error_stays(v, cat, reals.answers(), i + 1);
                    }
                    return Coded::Needs(q);
                },
                Coded::Failed(e) => {
                    proof {
                        joined_error_stays(v, cat, reals.answers(), i + 1);
                    }
                    return Coded::Failed(e);
                },
                Coded::Made(more) => more,
            };
            let ghost before = ops@;
            let ghost added = more@;
            ops.append(&mut more);
            assert(operation_views(ops@) =~= operation_views(before) + operation_views(added));
            i = i + 1;
        }
        assert(v.take(v.len() as int) =~= v);
        let ghost before = ops@;
        ops.push(Operation::Halt(Halt));
        assert(operation_views(ops@) =~= operation_views(before).push(OperationView::Halt(Halt)));
        Coded::Made(ops)
    }
}

} // verus!
