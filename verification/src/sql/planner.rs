//! From plans to programs.
use vstd::prelude::*;
use vstd::string::StringExecFns;

use crate::sql::ast::{
    label, texts, Expr, ExprView, JoinConstraint, JoinConstraintView, Literal, LiteralView,
    TableName, TableNameView,
};
use crate::sql::operations::{
    operation_views, And, Close, Column, Goto, Halt, IfCursorEnd, IfNot, IfResultsGe, MoveNext, OpenRead, Operation,
    OperationView, ResultRow, ResultRowView, Rewind,
};
use crate::sql::plan::{PhysicalPlan, PhysicalPlanNode, PhysicalPlanNodeView, PhysicalPlanView};
use crate::sql::program::{
    columns_named, expr_code, grown, grown_guarded, grown_once, grown_resolves, grown_twice,
    is_made, jumps_below, jumps_inside, never_halts, only_column, resolve_among, resolved,
    source_views, Code, CodeView, ResolvedColumn, RowSource, RowSourceView, Scope, ScopeView,
};
use crate::sql::relation::{projection_item_views, ProjectionItem, ProjectionItemView};
use crate::sql::schema::{column_def_views, copy_column_defs, ColumnDef, ColumnDefView};
use crate::sql::text::join3;

verus! {

/// Where a table is and which columns it has.
#[derive(Debug, PartialEq)]
pub struct TableBinding {
    pub root_pgno: u32,
    pub columns: Vec<ColumnDef>,
}

/// Where a table is and which columns it has.
#[verifier::ext_equal]
pub struct TableBindingView {
    pub root_pgno: u32,
    pub columns: Seq<ColumnDefView>,
}

impl View for TableBinding {
    type V = TableBindingView;

    open spec fn view(&self) -> TableBindingView {
        TableBindingView { root_pgno: self.root_pgno, columns: column_def_views(self.columns@) }
    }
}

impl Clone for TableBinding {
    fn clone(&self) -> (r: Self)
        ensures
            r@ == self@,
    {
        TableBinding { root_pgno: self.root_pgno, columns: copy_column_defs(&self.columns) }
    }
}

/// What a look-up found.
pub open spec fn binding_view(b: Option<TableBinding>) -> Option<TableBindingView> {
    match b {
        Some(b) => Some(b@),
        None => None,
    }
}

/// Where tables are looked up.
pub trait Catalog {
    /// What is known of a table.
    spec fn binding(&self, name: TableNameView) -> Option<TableBindingView>;

    /// Looks a table up.
    fn table(&self, name: &TableName) -> (r: Option<TableBinding>)
        ensures
            binding_view(r) == self.binding(name@),
    ;
}

/// Tables with their names.
#[derive(Debug, PartialEq)]
pub struct TableList {
    pub tables: Vec<(String, TableBinding)>,
}

/// The first table with a name.
pub open spec fn first_table(t: Seq<(String, TableBinding)>, name: Seq<char>) -> Option<
    TableBindingView,
>
    decreases t.len(),
{
    if t.len() == 0 {
        None
    } else {
        match first_table(t.drop_last(), name) {
            Some(b) => Some(b),
            None => if t.last().0@ == name {
                Some(t.last().1@)
            } else {
                None
            },
        }
    }
}

proof fn first_table_stays(t: Seq<(String, TableBinding)>, name: Seq<char>, n: int)
    requires
        0 <= n <= t.len(),
        first_table(t.take(n), name) is Some,
    ensures
        first_table(t, name) == first_table(t.take(n), name),
    decreases t.len(),
{
    if n < t.len() {
        assert(t.drop_last().take(n) =~= t.take(n));
        first_table_stays(t.drop_last(), name, n);
    } else {
        assert(t.take(n) =~= t);
    }
}

impl TableList {
    /// No tables.
    pub fn new() -> (r: Self)
        ensures
            r.tables@.len() == 0,
            forall|n: TableNameView| #[trigger] r.binding(n) is None,
    {
        TableList { tables: Vec::new() }
    }

    /// Adds a table; one with the same name that is already there stays the one
    /// that is found.
    pub fn push(&mut self, name: String, binding: TableBinding)
        ensures
            forall|n: TableNameView| #[trigger]
                final(self).binding(n) == (match old(self).binding(n) {
                    Some(b) => Some(b),
                    None => if n.name == name@ {
                        Some(binding@)
                    } else {
                        None
                    },
                }),
    {
        let ghost before = self.tables@;
        self.tables.push((name, binding));
        assert(self.tables@.drop_last() =~= before);
    }
}

impl Catalog for TableList {
    open spec fn binding(&self, name: TableNameView) -> Option<TableBindingView> {
        first_table(self.tables@, name.name)
    }

    fn table(&self, name: &TableName) -> (r: Option<TableBinding>) {
        let mut i: usize = 0;
        let ghost t = self.tables@;
        assert(t.take(0) =~= seq![]);
        while i < self.tables.len()
            invariant
                i <= t.len(),
                t == self.tables@,
                first_table(t.take(i as int), name@.name) is None,
            decreases self.tables.len() - i,
        {
            assert(t.take(i + 1).drop_last() =~= t.take(i as int));
            assert(t.take(i + 1).last() == t[i as int]);
            if self.tables[i].0 == name.name {
                proof {
                    first_table_stays(t, name@.name, i + 1);
                }
                return Some(self.tables[i].1.clone());
            }
            i = i + 1;
        }
        assert(t.take(t.len() as int) =~= t);
        None
    }
}

/// What a catalog knows, as a function.
pub open spec fn known<C: Catalog>(c: &C) -> spec_fn(TableNameView) -> Option<TableBindingView> {
    |n: TableNameView| c.binding(n)
}

/// Why a plan has no program.
#[derive(Debug, PartialEq)]
pub struct PlanError {
    pub message: String,
}

impl PlanError {
    /// The error in words.
    pub fn text(&self) -> (r: String)
        ensures
            r@ == "plan error: "@ + self.message@,
    {
        let mut s = String::from_str("plan error: ");
        s.append(self.message.as_str());
        s
    }
}

// -- Rows ------------------------------------------------------

/// Reads the first `n` columns of a table.
pub open spec fn columns_code(cursor_id: usize, n: nat, c: CodeView) -> (CodeView, Seq<usize>)
    decreases n,
{
    if n == 0 {
        (c, seq![])
    } else {
        let (d, regs) = columns_code(cursor_id, (n - 1) as nat, c);
        (
            d.put(
                OperationView::Column(
                    Column { cursor_id, col_idx: (n - 1) as usize, dest: d.registers },
                ),
            ),
            regs.push(d.registers),
        )
    }
}

/// Reads all columns of all tables.
pub open spec fn all_columns(env: Seq<RowSourceView>, c: CodeView) -> (CodeView, Seq<usize>)
    decreases env.len(),
{
    if env.len() == 0 {
        (c, seq![])
    } else {
        let (d, regs) = all_columns(env.drop_last(), c);
        let (f, more) = columns_code(env.last().cursor_id, env.last().columns.len(), d);
        (f, regs + more)
    }
}

/// Computes the columns of a result.
pub open spec fn items_code(
    items: Seq<ProjectionItemView>,
    env: Seq<RowSourceView>,
    c: CodeView,
) -> Result<(CodeView, Seq<usize>), Seq<char>>
    decreases items.len(),
{
    if items.len() == 0 {
        Ok((c, seq![]))
    } else {
        match items_code(items.drop_last(), env, c) {
            Err(m) => Err(m),
            Ok((d, regs)) => match items.last() {
                ProjectionItemView::Expr { expr, alias } => match expr_code(
                    expr,
                    ScopeView::Sources(env),
                    d,
                ) {
                    Err(m) => Err(m),
                    Ok((f, reg)) => Ok((f, regs.push(reg))),
                },
                ProjectionItemView::Wildcard => {
                    let (f, more) = all_columns(env, d);
                    Ok((f, regs + more))
                },
            },
        }
    }
}

/// Gives a row out, unless as many rows as `limit` allows are out already. Without
/// items it holds all columns.
pub open spec fn row_code(
    items: Option<Seq<ProjectionItemView>>,
    env: Seq<RowSourceView>,
    limit: Option<usize>,
    c: CodeView,
) -> Result<CodeView, Seq<char>> {
    let skip = c.next_label();
    let d = match limit {
        Some(limit) => c.label().emit(
            OperationView::IfResultsGe(IfResultsGe { limit, target: skip }),
        ),
        None => c,
    };
    let made = match items {
        Some(items) => items_code(items, env, d),
        None => Ok(all_columns(env, d)),
    };
    match made {
        Err(m) => Err(m),
        Ok((f, fields)) => {
            let g = f.emit(OperationView::ResultRow(ResultRowView { fields }));
            if limit is Some {
                Ok(g.mark(skip))
            } else {
                Ok(g)
            }
        },
    }
}

/// Compares the columns that are to be equal in both tables; the register says
/// whether all of them are.
pub open spec fn using_code(
    columns: Seq<Seq<char>>,
    env: Seq<RowSourceView>,
    left: int,
    c: CodeView,
) -> Result<(CodeView, Option<usize>), Seq<char>>
    decreases columns.len(),
{
    if columns.len() == 0 {
        Ok((c, None))
    } else {
        match using_code(columns.drop_last(), env, left, c) {
            Err(m) => Err(m),
            Ok((d, current)) => {
                let name = columns.last();
                let kind = "USING column"@;
                match only_column(columns_named(env.subrange(0, left), None, name), kind, name) {
                    Err(m) => Err(m),
                    Ok(p) => match only_column(
                        columns_named(env.subrange(left, env.len() as int), None, name),
                        kind,
                        name,
                    ) {
                        Err(m) => Err(m),
                        Ok(q) => Ok(pair_code(p, q, current, d)),
                    },
                }
            },
        }
    }
}

/// Compares two columns, and takes what was found before into account.
pub open spec fn pair_code(
    p: ResolvedColumn,
    q: ResolvedColumn,
    current: Option<usize>,
    c: CodeView,
) -> (CodeView, Option<usize>) {
    let lhs = c.registers;
    let d = c.put(column_read(p, lhs));
    let rhs = d.registers;
    let f = d.put(column_read(q, rhs));
    let dest = f.registers;
    let g = f.put(OperationView::Eq(crate::sql::operations::Eq { lhs, rhs, dest }));
    match current {
        None => (g, Some(dest)),
        Some(prev) => (
            g.put(OperationView::And(And { lhs: prev, rhs: dest, dest: g.registers })),
            Some(g.registers),
        ),
    }
}

/// The operation that reads a column.
pub open spec fn column_read(p: ResolvedColumn, dest: usize) -> OperationView {
    OperationView::Column(Column { cursor_id: p.cursor_id, col_idx: p.col_idx, dest })
}

/// Decides whether rows of two tables belong together; there may be nothing to
/// decide.
pub open spec fn constraint_code(
    constraint: JoinConstraintView,
    env: Seq<RowSourceView>,
    left: int,
    c: CodeView,
) -> Result<(CodeView, Option<usize>), Seq<char>> {
    match constraint {
        JoinConstraintView::Unconstrained => Ok((c, None)),
        JoinConstraintView::On(e) => match expr_code(e, ScopeView::Sources(env), c) {
            Ok((d, reg)) => Ok((d, Some(reg))),
            Err(m) => Err(m),
        },
        JoinConstraintView::Using(columns) => using_code(columns, env, left, c),
    }
}

/// What becomes of rows.
pub enum SinkView {
    /// They are given out, up to a limit.
    Row { items: Option<Seq<ProjectionItemView>>, limit: Option<usize> },
    /// Those that a predicate holds of go on.
    Filter { predicate: ExprView, next: Box<SinkView> },
    /// They are given out, and go on.
    Also { items: Seq<ProjectionItemView>, next: Box<SinkView> },
    /// They are joined with the rows of a plan.
    Right { plan: PhysicalPlanView, constraint: JoinConstraintView, next: Box<SinkView> },
    /// Those that belong together go on; `left` tables are on the left.
    Check { constraint: JoinConstraintView, left: usize, next: Box<SinkView> },
}

/// What becomes of rows.
pub enum Sink<'a> {
    Row { items: Option<&'a Vec<ProjectionItem>>, limit: Option<usize> },
    Filter { predicate: &'a Expr, next: &'a Sink<'a> },
    Also { items: &'a Vec<ProjectionItem>, next: &'a Sink<'a> },
    Right { plan: &'a PhysicalPlan, constraint: &'a JoinConstraint, next: &'a Sink<'a> },
    Check { constraint: &'a JoinConstraint, left: usize, next: &'a Sink<'a> },
}

/// What is in it.
pub open spec fn sink_view(s: Sink<'_>) -> SinkView
    decreases s,
{
    match s {
        Sink::Row { items, limit } => SinkView::Row {
            items: match items {
                Some(v) => Some(projection_item_views(v@)),
                None => None,
            },
            limit,
        },
        Sink::Filter { predicate, next } => SinkView::Filter {
            predicate: predicate@,
            next: Box::new(sink_view(*next)),
        },
        Sink::Also { items, next } => SinkView::Also {
            items: projection_item_views(items@),
            next: Box::new(sink_view(*next)),
        },
        Sink::Right { plan, constraint, next } => SinkView::Right {
            plan: plan@,
            constraint: constraint@,
            next: Box::new(sink_view(*next)),
        },
        Sink::Check { constraint, left, next } => SinkView::Check {
            constraint: constraint@,
            left,
            next: Box::new(sink_view(*next)),
        },
    }
}

/// A measure of plans.
pub open spec fn plan_size(p: PhysicalPlanView) -> nat
    decreases p,
{
    match p.node {
        PhysicalPlanNodeView::OneRow => 1,
        PhysicalPlanNodeView::SeqScan { table, alias } => 1,
        PhysicalPlanNodeView::Filter { predicate, input } => 2 + plan_size(*input),
        PhysicalPlanNodeView::Project { items, input } => 2 + plan_size(*input),
        PhysicalPlanNodeView::NestedLoopJoin { join_type, constraint, left, right } => 4
            + plan_size(*left) + plan_size(*right),
        PhysicalPlanNodeView::HashJoin { join_type, constraint, left, right } => 4 + plan_size(
            *left,
        ) + plan_size(*right),
        PhysicalPlanNodeView::Sort { items, input } => 2 + plan_size(*input),
        PhysicalPlanNodeView::Limit { count, input } => 2 + plan_size(*input),
    }
}

/// A measure of what becomes of rows.
pub open spec fn sink_size(s: SinkView) -> nat
    decreases s,
{
    match s {
        SinkView::Row { items, limit } => 1,
        SinkView::Filter { predicate, next } => 1 + sink_size(*next),
        SinkView::Also { items, next } => 1 + sink_size(*next),
        SinkView::Right { plan, constraint, next } => 2 + plan_size(plan) + sink_size(*next),
        SinkView::Check { constraint, left, next } => 1 + sink_size(*next),
    }
}

/// What is said of a plan that sorts.
pub open spec fn no_sorting() -> Seq<char> {
    "Sort physical plan cannot be compiled before temp btree/sort VM ops exist"@
}

/// The number that a limit is.
pub open spec fn limit_of(e: ExprView) -> Result<usize, Seq<char>> {
    match e {
        ExprView::Literal(LiteralView::Integer(n)) => if 0 <= n <= usize::MAX {
            Ok(n as usize)
        } else {
            Err("LIMIT must be a non-negative integer"@)
        },
        _ => Err("only integer literal LIMIT is supported by VM codegen"@),
    }
}

/// The start of a loop over a table.
pub open spec fn scan_start(root_pgno: u32, c: CodeView) -> CodeView {
    let cursor_id = c.cursors;
    let start = c.next_label();
    let d = c.label();
    let end = d.next_label();
    d.label().open(OperationView::OpenRead(OpenRead { cursor_id, root_pgno })).emit(
        OperationView::Rewind(Rewind { cursor_id }),
    ).emit(OperationView::IfCursorEnd(IfCursorEnd { target: end })).mark(start)
}

/// The end of a loop over a table.
pub open spec fn scan_end(cursor_id: usize, start: usize, end: usize, c: CodeView) -> CodeView {
    c.emit(OperationView::MoveNext(MoveNext { cursor_id })).emit(
        OperationView::IfCursorEnd(IfCursorEnd { target: end }),
    ).emit(OperationView::Goto(Goto { target: start })).mark(end).emit(
        OperationView::Close(Close { cursor_id }),
    )
}

/// The operations that find the rows of a plan and do with them what `sink` says.
pub open spec fn rows_code(
    p: PhysicalPlanView,
    env: Seq<RowSourceView>,
    sink: SinkView,
    cat: spec_fn(TableNameView) -> Option<TableBindingView>,
    c: CodeView,
) -> Result<CodeView, Seq<char>>
    decreases plan_size(p) + sink_size(sink),
{
    match p.node {
        PhysicalPlanNodeView::OneRow => sink_code(env, sink, cat, c),
        PhysicalPlanNodeView::SeqScan { table, alias } => match cat(table) {
            None => Err("unknown table '"@ + table.name + "'"@),
            Some(b) => {
                let cursor_id = c.cursors;
                let inner = env.push(
                    RowSourceView { table: table.name, alias, cursor_id, columns: b.columns },
                );
                match sink_code(inner, sink, cat, scan_start(b.root_pgno, c)) {
                    Err(m) => Err(m),
                    Ok(d) => Ok(
                        scan_end(cursor_id, c.next_label(), c.label().next_label(), d),
                    ),
                }
            },
        },
        PhysicalPlanNodeView::Filter { predicate, input } => rows_code(
            *input,
            env,
            SinkView::Filter { predicate, next: Box::new(sink) },
            cat,
            c,
        ),
        PhysicalPlanNodeView::Project { items, input } => rows_code(
            *input,
            env,
            SinkView::Also { items, next: Box::new(sink) },
            cat,
            c,
        ),
        PhysicalPlanNodeView::NestedLoopJoin { join_type, constraint, left, right } => rows_code(
            *left,
            env,
            SinkView::Right { plan: *right, constraint, next: Box::new(sink) },
            cat,
            c,
        ),
        PhysicalPlanNodeView::HashJoin { join_type, constraint, left, right } => rows_code(
            *left,
            env,
            SinkView::Right { plan: *right, constraint, next: Box::new(sink) },
            cat,
            c,
        ),
        PhysicalPlanNodeView::Limit { count, input } => match limit_of(count) {
            Err(m) => Err(m),
            Ok(n) => rows_code(
                *input,
                env,
                SinkView::Row { items: None, limit: Some(n) },
                cat,
                c,
            ),
        },
        PhysicalPlanNodeView::Sort { items, input } => Err(no_sorting()),
    }
}

/// The operations that do with a row what `sink` says.
pub open spec fn sink_code(
    env: Seq<RowSourceView>,
    sink: SinkView,
    cat: spec_fn(TableNameView) -> Option<TableBindingView>,
    c: CodeView,
) -> Result<CodeView, Seq<char>>
    decreases sink_size(sink),
{
    match sink {
        SinkView::Row { items, limit } => row_code(items, env, limit, c),
        SinkView::Filter { predicate, next } => match expr_code(
            predicate,
            ScopeView::Sources(env),
            c,
        ) {
            Err(m) => Err(m),
            Ok((d, cond_reg)) => {
                let skip = d.next_label();
                let f = d.label().emit(OperationView::IfNot(IfNot { cond_reg, target: skip }));
                match sink_code(env, *next, cat, f) {
                    Err(m) => Err(m),
                    Ok(g) => Ok(g.mark(skip)),
                }
            },
        },
        SinkView::Also { items, next } => match row_code(Some(items), env, None, c) {
            Err(m) => Err(m),
            Ok(d) => sink_code(env, *next, cat, d),
        },
        SinkView::Right { plan, constraint, next } => rows_code(
            plan,
            env,
            SinkView::Check { constraint, left: env.len() as usize, next },
            cat,
            c,
        ),
        SinkView::Check { constraint, left, next } => match constraint_code(
            constraint,
            env,
            left as int,
            c,
        ) {
            Err(m) => Err(m),
            Ok((d, None)) => sink_code(env, *next, cat, d),
            Ok((d, Some(cond_reg))) => {
                let skip = d.next_label();
                let f = d.label().emit(OperationView::IfNot(IfNot { cond_reg, target: skip }));
                match sink_code(env, *next, cat, f) {
                    Err(m) => Err(m),
                    Ok(g) => Ok(g.mark(skip)),
                }
            },
        },
    }
}

/// A plan without the limits around it, and the innermost of them.
pub open spec fn peeled(p: PhysicalPlanView, limit: Option<usize>) -> Result<
    (PhysicalPlanView, Option<usize>),
    Seq<char>,
>
    decreases p,
{
    match p.node {
        PhysicalPlanNodeView::Limit { count, input } => match limit_of(count) {
            Err(m) => Err(m),
            Ok(n) => peeled(*input, Some(n)),
        },
        PhysicalPlanNodeView::Sort { items, input } => Err(no_sorting()),
        _ => Ok((p, limit)),
    }
}

/// The operations that give the rows of a plan out.
pub open spec fn output_code(
    p: PhysicalPlanView,
    limit: Option<usize>,
    cat: spec_fn(TableNameView) -> Option<TableBindingView>,
    c: CodeView,
) -> Result<CodeView, Seq<char>> {
    match p.node {
        PhysicalPlanNodeView::Project { items, input } => rows_code(
            *input,
            seq![],
            SinkView::Row { items: Some(items), limit },
            cat,
            c,
        ),
        _ => rows_code(p, seq![], SinkView::Row { items: None, limit }, cat, c),
    }
}

/// The program of a plan.
pub open spec fn plan_program(
    p: PhysicalPlanView,
    cat: spec_fn(TableNameView) -> Option<TableBindingView>,
    halt: bool,
) -> Result<Seq<OperationView>, Seq<char>> {
    match peeled(p, None) {
        Err(m) => Err(m),
        Ok((q, limit)) => match output_code(q, limit, cat, CodeView::empty()) {
            Err(m) => Err(m),
            Ok(c) => if halt {
                resolved(c.ops.push(OperationView::Halt(Halt)), c.labels)
            } else {
                resolved(c.ops, c.labels)
            },
        },
    }
}


/// Whether the tables on the left of all joins are among the first `n`.
pub open spec fn sink_fits(s: SinkView, n: nat) -> bool
    decreases s,
{
    match s {
        SinkView::Row { items, limit } => true,
        SinkView::Filter { predicate, next } => sink_fits(*next, n),
        SinkView::Also { items, next } => sink_fits(*next, n),
        SinkView::Right { plan, constraint, next } => sink_fits(*next, n),
        SinkView::Check { constraint, left, next } => left <= n && sink_fits(*next, n),
    }
}

/// More tables are enough too.
pub proof fn sink_fits_more(s: SinkView, n: nat, m: nat)
    requires
        sink_fits(s, n),
        n <= m,
    ensures
        sink_fits(s, m),
    decreases s,
{
    match s {
        SinkView::Row { items, limit } => {},
        SinkView::Filter { predicate, next } => {
            sink_fits_more(*next, n, m);
        },
        SinkView::Also { items, next } => {
            sink_fits_more(*next, n, m);
        },
        SinkView::Right { plan, constraint, next } => {
            sink_fits_more(*next, n, m);
        },
        SinkView::Check { constraint, left, next } => {
            sink_fits_more(*next, n, m);
        },
    }
}

/// A loop over a table makes a program grow.
pub proof fn grown_scan(root_pgno: u32, c: CodeView, d: CodeView)
    requires
        grown(scan_start(root_pgno, c), d),
        c.labels.len() + 2 <= usize::MAX,
        d.ops.len() + 4 <= usize::MAX,
    ensures
        grown(c, scan_end(c.cursors, c.next_label(), c.label().next_label(), d)),
{
    let s = scan_start(root_pgno, c);
    let start = c.next_label();
    let end = c.label().next_label();
    let e = scan_end(c.cursors, start, end, d);
    assert(s.ops.len() == c.ops.len() + 3);
    assert(s.labels.len() == c.labels.len() + 2);
    assert forall|i: int| 0 <= i < c.ops.len() implies #[trigger] e.ops[i] == c.ops[i] by {
        assert(s.ops[i] == c.ops[i]);
        assert(d.ops[i] == s.ops[i]);
    }
    assert forall|k: int| 0 <= k < c.labels.len() implies #[trigger] e.labels[k] == c.labels[k] by {
        assert(s.labels[k] == c.labels[k]);
        assert(d.labels[k] == s.labels[k]);
    }
    assert forall|k: int| c.labels.len() <= k < e.labels.len() implies (
    #[trigger] e.labels[k]) is Some && e.labels[k]->0 <= e.ops.len() by {
        if k != end {
            assert(e.labels[k] == d.labels[k]);
            if k == start {
                assert(d.labels[k] == s.labels[k]);
            }
        }
    }
    assert forall|i: int| c.ops.len() <= i < e.ops.len() implies jumps_below(
        #[trigger] e.ops[i],
        e.labels.len() as int,
    ) by {
        if i < s.ops.len() {
            assert(e.ops[i] == d.ops[i]);
            assert(d.ops[i] == s.ops[i]);
        } else if i < d.ops.len() {
            assert(e.ops[i] == d.ops[i]);
        }
    }
}

/// The number that a limit is.
pub fn literal_limit(e: &Expr) -> (r: Result<usize, String>)
    ensures
        match r {
            Ok(n) => limit_of(e@) == Ok::<usize, Seq<char>>(n),
            Err(m) => limit_of(e@) == Err::<usize, Seq<char>>(m@),
        },
{
    match e {
        Expr::Literal(Literal::Integer(n)) => {
            if *n >= 0 && *n as u64 <= usize::MAX as u64 {
                Ok(*n as usize)
            } else {
                Err(String::from_str("LIMIT must be a non-negative integer"))
            }
        },
        _ => Err(String::from_str("only integer literal LIMIT is supported by VM codegen")),
    }
}

/// Whether a step of making a program came to what it should.
pub open spec fn is_step(
    r: Result<(), String>,
    c: CodeView,
    s: Result<CodeView, Seq<char>>,
) -> bool {
    match r {
        Ok(_) => s == Ok::<CodeView, Seq<char>>(c),
        Err(e) => s == Err::<CodeView, Seq<char>>(e@),
    }
}

/// Makes the program of a plan.
pub struct PlanCompiler<'a, C: Catalog> {
    pub catalog: &'a C,
    pub code: Code,
}

impl<'a, C: Catalog> PlanCompiler<'a, C> {
    fn compile_columns(&mut self, cursor_id: usize, n: usize, regs: &mut Vec<usize>)
        requires
            old(self).code.wf(),
        ensures
            final(self).code.wf(),
            final(self).catalog == old(self).catalog,
            ({
                let (d, more) = columns_code(cursor_id, n as nat, old(self).code@);
                final(self).code@ == d && final(regs)@ == old(regs)@ + more
            }),
            grown(old(self).code@, final(self).code@),
    {
        let ghost c = self.code@;
        let ghost before = regs@;
        let mut i: usize = 0;
        assert(before + columns_code(cursor_id, 0, c).1 =~= before);
        while i < n
            invariant
                i <= n,
                self.code.wf(),
                self.catalog == old(self).catalog,
                c == old(self).code@,
                before == old(regs)@,
                self.code@ == columns_code(cursor_id, i as nat, c).0,
                regs@ == before + columns_code(cursor_id, i as nat, c).1,
                grown(c, self.code@),
            decreases n - i,
        {
            let ghost mid = self.code@;
            let reg: usize = self.code.compile_column(
                ResolvedColumn { cursor_id, col_idx: i },
            );
            regs.push(reg);
            i = i + 1;
            proof {
                let op = column_read(
                    ResolvedColumn { cursor_id, col_idx: (i - 1) as usize },
                    mid.registers,
                );
                grown_once(mid, op);
                grown_twice(c, mid, mid.put(op));
                assert(regs@ =~= before + columns_code(cursor_id, i as nat, c).1);
            }
        }
    }

    fn compile_all_columns(&mut self, env: &Vec<RowSource>, regs: &mut Vec<usize>)
        requires
            old(self).code.wf(),
        ensures
            final(self).code.wf(),
            final(self).catalog == old(self).catalog,
            ({
                let (d, more) = all_columns(source_views(env@), old(self).code@);
                final(self).code@ == d && final(regs)@ == old(regs)@ + more
            }),
            grown(old(self).code@, final(self).code@),
    {
        let ghost c = self.code@;
        let ghost before = regs@;
        let ghost v = source_views(env@);
        let mut i: usize = 0;
        assert(v.take(0) =~= seq![]);
        assert(before + all_columns(v.take(0), c).1 =~= before);
        while i < env.len()
            invariant
                i <= env@.len(),
                v == source_views(env@),
                self.code.wf(),
                self.catalog == old(self).catalog,
                c == old(self).code@,
                before == old(regs)@,
                self.code@ == all_columns(v.take(i as int), c).0,
                regs@ == before + all_columns(v.take(i as int), c).1,
                grown(c, self.code@),
            decreases env.len() - i,
        {
            let ghost mid = self.code@;
            self.compile_columns(env[i].cursor_id, env[i].columns.len(), regs);
            proof {
                let t = v.take(i + 1);
                assert(t.drop_last() =~= v.take(i as int));
                assert(t.last() == env@[i as int]@);
                grown_twice(c, mid, self.code@);
                assert(regs@ =~= before + all_columns(t, c).1);
            }
            i = i + 1;
        }
        assert(v.take(v.len() as int) =~= v);
    }

    fn compile_items(
        &mut self,
        items: &Vec<ProjectionItem>,
        env: &Vec<RowSource>,
    ) -> (r: Result<Vec<usize>, String>)
        requires
            old(self).code.wf(),
        ensures
            final(self).code.wf(),
            final(self).catalog == old(self).catalog,
            ({
                let s = items_code(
                    projection_item_views(items@),
                    source_views(env@),
                    old(self).code@,
                );
                match r {
                    Ok(v) => s == Ok::<(CodeView, Seq<usize>), Seq<char>>((final(self).code@, v@))
                        && grown(old(self).code@, final(self).code@),
                    Err(e) => s == Err::<(CodeView, Seq<usize>), Seq<char>>(e@),
                }
            }),
    {
        let ghost c = self.code@;
        let ghost v = projection_item_views(items@);
        let ghost w = source_views(env@);
        let mut regs: Vec<usize> = Vec::new();
        let mut i: usize = 0;
        assert(v.take(0) =~= seq![]);
        assert(regs@ =~= seq![]);
        while i < items.len()
            invariant
                i <= items@.len(),
                v == projection_item_views(items@),
                w == source_views(env@),
                self.code.wf(),
                self.catalog == old(self).catalog,
                c == old(self).code@,
                items_code(v.take(i as int), w, c) == Ok::<(CodeView, Seq<usize>), Seq<char>>(
                    (self.code@, regs@),
                ),
                grown(c, self.code@),
            decreases items.len() - i,
        {
            let ghost mid = self.code@;
            let ghost before = regs@;
            proof {
                let t = v.take(i + 1);
                assert(t.drop_last() =~= v.take(i as int));
                assert(t.last() == items@[i as int]@);
            }
            match &items[i] {
                ProjectionItem::Expr { expr, alias } => {
                    match self.code.compile_expr(expr, &Scope::Sources(env)) {
                        Ok(reg) => {
                            regs.push(reg);
                        },
                        Err(m) => {
                            proof {
                                items_error_stays(v, w, c, i + 1);
                            }
                            return Err(m);
                        },
                    }
                },
                ProjectionItem::Wildcard => {
                    self.compile_all_columns(env, &mut regs);
                },
            }
            proof {
                grown_twice(c, mid, self.code@);
            }
            i = i + 1;
        }
        assert(v.take(v.len() as int) =~= v);
        Ok(regs)
    }

    fn emit_row(
        &mut self,
        items: Option<&Vec<ProjectionItem>>,
        env: &Vec<RowSource>,
        limit: Option<usize>,
    ) -> (r: Result<(), String>)
        requires
            old(self).code.wf(),
        ensures
            final(self).code.wf(),
            final(self).catalog == old(self).catalog,
            is_step(
                r,
                final(self).code@,
                row_code(
                    (match items {
                        Some(v) => Some(projection_item_views(v@)),
                        None => None,
                    }),
                    source_views(env@),
                    limit,
                    old(self).code@,
                ),
            ),
            r is Ok ==> grown(old(self).code@, final(self).code@),
    {
        let ghost c = self.code@;
        let mut skip: usize = 0;
        let ghost mut guard = OperationView::Halt(Halt);
        if let Some(limit) = limit {
            skip = self.code.new_label();
            self.code.emit(Operation::IfResultsGe(IfResultsGe { limit, target: skip }));
            proof {
                guard = OperationView::IfResultsGe(IfResultsGe { limit, target: skip });
            }
        }
        let ghost d = self.code@;
        let mut fields: Vec<usize> = Vec::new();
        match items {
            Some(items) => match self.compile_items(items, env) {
                Ok(v) => {
                    fields = v;
                },
                Err(m) => {
                    return Err(m);
                },
            },
            None => {
                self.compile_all_columns(env, &mut fields);
                assert(fields@ =~= all_columns(source_views(env@), d).1);
            },
        }
        let ghost f = self.code@;
        let ghost row = OperationView::ResultRow(ResultRowView { fields: fields@ });
        let op = Operation::ResultRow(ResultRow { fields });
        assert(op@ =~~= row);
        self.code.emit(op);
        let n: usize = self.code.ops.len();
        proof {
            grown_once(f, row);
            grown_twice(d, f, f.emit(row));
        }
        if limit.is_some() {
            self.code.mark(skip);
            proof {
                grown_guarded(c, guard, f.emit(row));
            }
        }
        Ok(())
    }

    fn compile_using(
        &mut self,
        columns: &Vec<String>,
        env: &Vec<RowSource>,
        left: usize,
    ) -> (r: Result<Option<usize>, String>)
        requires
            old(self).code.wf(),
            left <= env@.len(),
        ensures
            final(self).code.wf(),
            final(self).catalog == old(self).catalog,
            is_made(
                r,
                final(self).code@,
                using_code(texts(columns@), source_views(env@), left as int, old(self).code@),
            ),
            r is Ok ==> grown(old(self).code@, final(self).code@),
    {
        let ghost c = self.code@;
        let ghost v = texts(columns@);
        let ghost w = source_views(env@);
        let mut current: Option<usize> = None;
        let mut i: usize = 0;
        assert(v.take(0) =~= seq![]);
        while i < columns.len()
            invariant
                i <= columns@.len(),
                left <= env@.len(),
                v == texts(columns@),
                w == source_views(env@),
                self.code.wf(),
                self.catalog == old(self).catalog,
                c == old(self).code@,
                using_code(v.take(i as int), w, left as int, c) == Ok::<
                    (CodeView, Option<usize>),
                    Seq<char>,
                >((self.code@, current)),
                grown(c, self.code@),
            decreases columns.len() - i,
        {
            let ghost mid = self.code@;
            proof {
                let t = v.take(i + 1);
                assert(t.drop_last() =~= v.take(i as int));
                assert(t.last() == columns@[i as int]@);
            }
            let name = columns[i].as_str();
            let p = match resolve_among(env, 0, left, None, name, "USING column") {
                Ok(p) => p,
                Err(m) => {
                    proof {
                        using_error_stays(v, w, left as int, c, i + 1);
                    }
                    return Err(m);
                },
            };
            let q = match resolve_among(env, left, env.len(), None, name, "USING column") {
                Ok(q) => q,
                Err(m) => {
                    proof {
                        using_error_stays(v, w, left as int, c, i + 1);
                    }
                    return Err(m);
                },
            };
            let lhs: usize = self.code.compile_column(p);
            let ghost one = self.code@;
            let rhs: usize = self.code.compile_column(q);
            let ghost two = self.code@;
            let dest: usize = self.code.registers;
            self.code.put(Operation::Eq(crate::sql::operations::Eq { lhs, rhs, dest }));
            let ghost three = self.code@;
            proof {
                grown_once(mid, column_read(p, lhs));
                grown_once(one, column_read(q, rhs));
                grown_once(
                    two,
                    OperationView::Eq(crate::sql::operations::Eq { lhs, rhs, dest }),
                );
                grown_twice(c, mid, one);
                grown_twice(c, one, two);
                grown_twice(c, two, three);
            }
            match current {
                None => {
                    current = Some(dest);
                },
                Some(prev) => {
                    let both: usize = self.code.registers;
                    self.code.put(Operation::And(And { lhs: prev, rhs: dest, dest: both }));
                    proof {
                        let op = OperationView::And(And { lhs: prev, rhs: dest, dest: both });
                        grown_once(three, op);
                        grown_twice(c, three, three.put(op));
                    }
                    current = Some(both);
                },
            }
            i = i + 1;
        }
        assert(v.take(v.len() as int) =~= v);
        Ok(current)
    }

    fn compile_join_constraint(
        &mut self,
        constraint: &JoinConstraint,
        env: &Vec<RowSource>,
        left: usize,
    ) -> (r: Result<Option<usize>, String>)
        requires
            old(self).code.wf(),
            left <= env@.len(),
        ensures
            final(self).code.wf(),
            final(self).catalog == old(self).catalog,
            is_made(
                r,
                final(self).code@,
                constraint_code(constraint@, source_views(env@), left as int, old(self).code@),
            ),
            r is Ok ==> grown(old(self).code@, final(self).code@),
    {
        match constraint {
            JoinConstraint::Unconstrained => Ok(None),
            JoinConstraint::On(e) => match self.code.compile_expr(e, &Scope::Sources(env)) {
                Ok(reg) => Ok(Some(reg)),
                Err(m) => Err(m),
            },
            JoinConstraint::Using(columns) => self.compile_using(columns, env, left),
        }
    }
}

proof fn items_error_stays(
    items: Seq<ProjectionItemView>,
    env: Seq<RowSourceView>,
    c: CodeView,
    n: int,
)
    requires
        0 <= n <= items.len(),
        items_code(items.take(n), env, c) is Err,
    ensures
        items_code(items, env, c) == items_code(items.take(n), env, c),
    decreases items.len(),
{
    if n < items.len() {
        assert(items.drop_last().take(n) =~= items.take(n));
        items_error_stays(items.drop_last(), env, c, n);
    } else {
        assert(items.take(n) =~= items);
    }
}

proof fn using_error_stays(
    columns: Seq<Seq<char>>,
    env: Seq<RowSourceView>,
    left: int,
    c: CodeView,
    n: int,
)
    requires
        0 <= n <= columns.len(),
        using_code(columns.take(n), env, left, c) is Err,
    ensures
        using_code(columns, env, left, c) == using_code(columns.take(n), env, left, c),
    decreases columns.len(),
{
    if n < columns.len() {
        assert(columns.drop_last().take(n) =~= columns.take(n));
        using_error_stays(columns.drop_last(), env, left, c, n);
    } else {
        assert(columns.take(n) =~= columns);
    }
}


impl<'a, C: Catalog> PlanCompiler<'a, C> {
    fn compile_guarded(
        &mut self,
        cond_reg: usize,
        env: &mut Vec<RowSource>,
        next: &Sink<'_>,
    ) -> (r: Result<(), String>)
        requires
            old(self).code.wf(),
            sink_fits(sink_view(*next), old(env)@.len()),
        ensures
            final(self).code.wf(),
            final(self).catalog == old(self).catalog,
            r is Ok ==> final(env)@ == old(env)@,
            ({
                let d = old(self).code@;
                let skip = d.next_label();
                let f = d.label().emit(OperationView::IfNot(IfNot { cond_reg, target: skip }));
                let s = sink_code(
                    source_views(old(env)@),
                    sink_view(*next),
                    known(old(self).catalog),
                    f,
                );
                match r {
                    Ok(_) => s is Ok && final(self).code@ == (s->Ok_0).mark(skip),
                    Err(m) => s == Err::<CodeView, Seq<char>>(m@),
                }
            }),
            r is Ok ==> grown(old(self).code@, final(self).code@),
        decreases sink_size(sink_view(*next)), 1int,
    {
        let ghost c = self.code@;
        let skip: usize = self.code.new_label();
        self.code.emit(Operation::IfNot(IfNot { cond_reg, target: skip }));
        match self.compile_sink(env, next) {
            Err(m) => Err(m),
            Ok(_) => {
                let n: usize = self.code.ops.len();
                proof {
                    grown_guarded(
                        c,
                        OperationView::IfNot(IfNot { cond_reg, target: skip }),
                        self.code@,
                    );
                }
                self.code.mark(skip);
                Ok(())
            },
        }
    }

    /// Adds the operations that do with a row what `sink` says.
    fn compile_sink(&mut self, env: &mut Vec<RowSource>, sink: &Sink<'_>) -> (r: Result<(), String>)
        requires
            old(self).code.wf(),
            sink_fits(sink_view(*sink), old(env)@.len()),
        ensures
            final(self).code.wf(),
            final(self).catalog == old(self).catalog,
            r is Ok ==> final(env)@ == old(env)@,
            is_step(
                r,
                final(self).code@,
                sink_code(
                    source_views(old(env)@),
                    sink_view(*sink),
                    known(old(self).catalog),
                    old(self).code@,
                ),
            ),
            r is Ok ==> grown(old(self).code@, final(self).code@),
        decreases sink_size(sink_view(*sink)), 0int,
    {
        let ghost c = self.code@;
        match sink {
            Sink::Row { items, limit } => self.emit_row(*items, env, *limit),
            Sink::Filter { predicate, next } => {
                match self.code.compile_expr(predicate, &Scope::Sources(env)) {
                    Err(m) => Err(m),
                    Ok(cond_reg) => {
                        let ghost d = self.code@;
                        let r = self.compile_guarded(cond_reg, env, next);
                        proof {
                            if r is Ok {
                                grown_twice(c, d, self.code@);
                            }
                        }
                        r
                    },
                }
            },
            Sink::Also { items, next } => {
                match self.emit_row(Some(*items), env, None) {
                    Err(m) => Err(m),
                    Ok(_) => {
                        let ghost d = self.code@;
                        let r = self.compile_sink(env, next);
                        proof {
                            if r is Ok {
                                grown_twice(c, d, self.code@);
                            }
                        }
                        r
                    },
                }
            },
            Sink::Right { plan, constraint, next } => {
                let left: usize = env.len();
                let check = Sink::Check { constraint: *constraint, left, next: *next };
                self.compile_rows(plan, env, &check)
            },
            Sink::Check { constraint, left, next } => {
                match self.compile_join_constraint(constraint, env, *left) {
                    Err(m) => Err(m),
                    Ok(None) => {
                        let ghost d = self.code@;
                        let r = self.compile_sink(env, next);
                        proof {
                            if r is Ok {
                                grown_twice(c, d, self.code@);
                            }
                        }
                        r
                    },
                    Ok(Some(cond_reg)) => {
                        let ghost d = self.code@;
                        let r = self.compile_guarded(cond_reg, env, next);
                        proof {
                            if r is Ok {
                                grown_twice(c, d, self.code@);
                            }
                        }
                        r
                    },
                }
            },
        }
    }

    fn compile_seq_scan(
        &mut self,
        table: &TableName,
        alias: &Option<String>,
        env: &mut Vec<RowSource>,
        sink: &Sink<'_>,
    ) -> (r: Result<(), String>)
        requires
            old(self).code.wf(),
            sink_fits(sink_view(*sink), old(env)@.len()),
        ensures
            final(self).code.wf(),
            final(self).catalog == old(self).catalog,
            r is Ok ==> final(env)@ == old(env)@,
            ({
                let c = old(self).code@;
                let cat = known(old(self).catalog);
                match cat(table@) {
                    None => r is Err && r->Err_0@ == "unknown table '"@ + table@.name + "'"@,
                    Some(b) => {
                        let inner = source_views(old(env)@).push(
                            RowSourceView {
                                table: table@.name,
                                alias: label(*alias),
                                cursor_id: c.cursors,
                                columns: b.columns,
                            },
                        );
                        let s = sink_code(
                            inner,
                            sink_view(*sink),
                            cat,
                            scan_start(b.root_pgno, c),
                        );
                        match r {
                            Ok(_) => s is Ok && final(self).code@ == scan_end(
                                c.cursors,
                                c.next_label(),
                                c.label().next_label(),
                                s->Ok_0,
                            ),
                            Err(m) => s == Err::<CodeView, Seq<char>>(m@),
                        }
                    },
                }
            }),
            r is Ok ==> grown(old(self).code@, final(self).code@),
        decreases sink_size(sink_view(*sink)), 1int,
    {
        let ghost c = self.code@;
        let ghost v = source_views(env@);
        let binding = match self.catalog.table(table) {
            None => return Err(join3("unknown table '", table.name.as_str(), "'")),
            Some(b) => b,
        };
        let ghost b = binding@;
        let root_pgno: u32 = binding.root_pgno;
        let cursor_id: usize = self.code.cursors;
        let alias = match alias {
            Some(a) => Some(a.clone()),
            None => None,
        };
        let ghost before = env@;
        env.push(
            RowSource { table: table.name.clone(), alias, cursor_id, columns: binding.columns },
        );
        assert(source_views(env@) =~= v.push(
            RowSourceView {
                table: table@.name,
                alias: label(alias),
                cursor_id: c.cursors,
                columns: b.columns,
            },
        ));
        let start: usize = self.code.new_label();
        let end: usize = self.code.new_label();
        let labels: usize = self.code.labels.len();
        self.code.open(Operation::OpenRead(OpenRead { cursor_id, root_pgno }));
        self.code.emit(Operation::Rewind(Rewind { cursor_id }));
        self.code.emit(Operation::IfCursorEnd(IfCursorEnd { target: end }));
        self.code.mark(start);
        assert(self.code@ == scan_start(root_pgno, c));
        proof {
            sink_fits_more(sink_view(*sink), before.len(), env@.len());
        }
        match self.compile_sink(env, sink) {
            Err(m) => return Err(m),
            Ok(_) => {},
        }
        let ghost d = self.code@;
        self.code.emit(Operation::MoveNext(MoveNext { cursor_id }));
        self.code.emit(Operation::IfCursorEnd(IfCursorEnd { target: end }));
        self.code.emit(Operation::Goto(Goto { target: start }));
        self.code.mark(end);
        self.code.emit(Operation::Close(Close { cursor_id }));
        let n: usize = self.code.ops.len();
        proof {
            assert(self.code@.ops.len() == n);
            assert(scan_end(cursor_id, start, end, d).ops.len() == d.ops.len() + 4);
            grown_scan(root_pgno, c, d);
        }
        env.pop();
        assert(env@ =~= before);
        Ok(())
    }

    /// Adds the operations that find the rows of a plan and do with them what
    /// `sink` says.
    fn compile_rows(
        &mut self,
        plan: &PhysicalPlan,
        env: &mut Vec<RowSource>,
        sink: &Sink<'_>,
    ) -> (r: Result<(), String>)
        requires
            old(self).code.wf(),
            sink_fits(sink_view(*sink), old(env)@.len()),
        ensures
            final(self).code.wf(),
            final(self).catalog == old(self).catalog,
            r is Ok ==> final(env)@ == old(env)@,
            is_step(
                r,
                final(self).code@,
                rows_code(
                    plan@,
                    source_views(old(env)@),
                    sink_view(*sink),
                    known(old(self).catalog),
                    old(self).code@,
                ),
            ),
            r is Ok ==> grown(old(self).code@, final(self).code@),
        decreases plan_size(plan@) + sink_size(sink_view(*sink)), 0int,
    {
        match &plan.node {
            PhysicalPlanNode::OneRow => self.compile_sink(env, sink),
            PhysicalPlanNode::SeqScan { table, alias } => self.compile_seq_scan(
                table,
                alias,
                env,
                sink,
            ),
            PhysicalPlanNode::Filter { predicate, input } => {
                let inner = Sink::Filter { predicate, next: sink };
                self.compile_rows(input, env, &inner)
            },
            PhysicalPlanNode::Project { items, input } => {
                let inner = Sink::Also { items, next: sink };
                self.compile_rows(input, env, &inner)
            },
            PhysicalPlanNode::NestedLoopJoin { join_type, constraint, left, right } => {
                let inner = Sink::Right { plan: right, constraint, next: sink };
                self.compile_rows(left, env, &inner)
            },
            PhysicalPlanNode::HashJoin { join_type, constraint, left, right } => {
                let inner = Sink::Right { plan: right, constraint, next: sink };
                self.compile_rows(left, env, &inner)
            },
            PhysicalPlanNode::Limit { count, input } => {
                let limit: usize = match literal_limit(count) {
                    Err(m) => return Err(m),
                    Ok(n) => n,
                };
                let inner = Sink::Row { items: None, limit: Some(limit) };
                self.compile_rows(input, env, &inner)
            },
            PhysicalPlanNode::Sort { items, input } => Err(
                String::from_str(
                    "Sort physical plan cannot be compiled before temp btree/sort VM ops exist",
                ),
            ),
        }
    }

    fn compile_output(&mut self, plan: &PhysicalPlan, limit: Option<usize>) -> (r: Result<
        (),
        String,
    >)
        requires
            old(self).code.wf(),
        ensures
            final(self).code.wf(),
            is_step(
                r,
                final(self).code@,
                output_code(plan@, limit, known(old(self).catalog), old(self).code@),
            ),
            r is Ok ==> grown(old(self).code@, final(self).code@),
    {
        let mut env: Vec<RowSource> = Vec::new();
        assert(source_views(env@) =~= seq![]);
        match &plan.node {
            PhysicalPlanNode::Project { items, input } => {
                let sink = Sink::Row { items: Some(items), limit };
                self.compile_rows(input, &mut env, &sink)
            },
            _ => {
                let sink = Sink::Row { items: None, limit };
                self.compile_rows(plan, &mut env, &sink)
            },
        }
    }
}

/// A plan without the limits around it, and the innermost of them.
fn peel_limit(plan: &PhysicalPlan, limit: Option<usize>) -> (r: Result<
    (&PhysicalPlan, Option<usize>),
    String,
>)
    ensures
        match r {
            Ok((p, l)) => peeled(plan@, limit) == Ok::<
                (PhysicalPlanView, Option<usize>),
                Seq<char>,
            >((p@, l)),
            Err(m) => peeled(plan@, limit) == Err::<
                (PhysicalPlanView, Option<usize>),
                Seq<char>,
            >(m@),
        },
    decreases plan,
{
    match &plan.node {
        PhysicalPlanNode::Limit { count, input } => match literal_limit(count) {
            Err(m) => Err(m),
            Ok(n) => peel_limit(input, Some(n)),
        },
        PhysicalPlanNode::Sort { items, input } => Err(
            String::from_str(
                "Sort physical plan cannot be compiled before temp btree/sort VM ops exist",
            ),
        ),
        _ => Ok((plan, limit)),
    }
}

/// Whether the error or the program of a plan is what it should be.
pub open spec fn is_plan_program(
    r: Result<Vec<Operation>, PlanError>,
    s: Result<Seq<OperationView>, Seq<char>>,
) -> bool {
    match r {
        Ok(v) => s == Ok::<Seq<OperationView>, Seq<char>>(operation_views(v@)),
        Err(e) => s == Err::<Seq<OperationView>, Seq<char>>(e.message@),
    }
}

fn compile_program<C: Catalog>(plan: &PhysicalPlan, catalog: &C, halt: bool) -> (r: Result<
    Vec<Operation>,
    PlanError,
>)
    ensures
        is_plan_program(r, plan_program(plan@, known(catalog), halt)),
        r matches Ok(v) ==> {
            let ops = operation_views(v@);
            &&& jumps_inside(ops)
            &&& halt ==> ops.len() > 0 && ops.last() == OperationView::Halt(Halt) && never_halts(
                ops.drop_last(),
            )
            &&& !halt ==> never_halts(ops)
        },
{
    let (output, limit) = match peel_limit(plan, None) {
        Err(message) => return Err(PlanError { message }),
        Ok(x) => x,
    };
    let mut compiler = PlanCompiler { catalog, code: Code::new() };
    match compiler.compile_output(output, limit) {
        Err(message) => return Err(PlanError { message }),
        Ok(_) => {},
    }
    let ghost c = compiler.code@;
    proof {
        grown_resolves(c, c.ops.len() as int);
        assert(c.ops.take(c.ops.len() as int) =~= c.ops);
    }
    if halt {
        compiler.code.emit(Operation::Halt(Halt));
        proof {
            assert(compiler.code@.ops.drop_last() =~= c.ops);
        }
    }
    let n: usize = compiler.code.ops.len();
    let r = compiler.code.finish();
    proof {
        if halt {
            let v = resolved(c.ops, c.labels)->Ok_0;
            assert(v.push(OperationView::Halt(Halt)).drop_last() =~= v);
        }
    }
    match r {
        Ok(v) => Ok(v),
        Err(message) => Err(PlanError { message }),
    }
}

/// The program of a plan, which halts at its end.
pub fn compile_physical_plan<C: Catalog>(plan: &PhysicalPlan, catalog: &C) -> (r: Result<
    Vec<Operation>,
    PlanError,
>)
    ensures
        is_plan_program(r, plan_program(plan@, known(catalog), true)),
        r matches Ok(v) ==> {
            let ops = operation_views(v@);
            &&& jumps_inside(ops)
            &&& ops.len() > 0
            &&& ops.last() == OperationView::Halt(Halt)
            &&& never_halts(ops.drop_last())
        },
{
    compile_program(plan, catalog, true)
}

/// The program of a plan, without an end.
pub fn compile_physical_plan_body<C: Catalog>(plan: &PhysicalPlan, catalog: &C) -> (r: Result<
    Vec<Operation>,
    PlanError,
>)
    ensures
        is_plan_program(r, plan_program(plan@, known(catalog), false)),
        r matches Ok(v) ==> jumps_inside(operation_views(v@)) && never_halts(operation_views(v@)),
{
    compile_program(plan, catalog, false)
}

} // verus!
