//! Relations in groups of those that have the same rows.
use vstd::prelude::*;

use crate::sql::ast::{
    copy_expr, copy_join_constraint, copy_order_by_items, copy_table_name, expr_view,
    join_constraint_view, order_by_item_views, same_expr, same_join_constraint, same_label,
    same_order_by_items, same_table_name, table_name_view, BinaryOp, Expr, ExprView, JoinConstraint,
    JoinConstraintView, JoinType, OrderByItem, OrderByItemView, TableName, TableNameView,
};
use crate::sql::operations::copy_indices;
use crate::sql::relation::{
    copy_projection_items, projection_item_views, same_projection_items, ProjectionItem,
    ProjectionItemView, RelationExpr, RelationExprView,
};

verus! {

fn same_indices(a: &Vec<usize>, b: &Vec<usize>) -> (r: bool)
    ensures
        r == (a@ == b@),
{
    if a.len() != b.len() {
        return false;
    }
    let mut i: usize = 0;
    while i < a.len()
        invariant
            i <= a@.len(),
            a@.len() == b@.len(),
            forall|j: int| 0 <= j < i ==> a@[j] == b@[j],
        decreases a.len() - i,
    {
        if a[i] != b[i] {
            return false;
        }
        i = i + 1;
    }
    assert(a@ =~= b@);
    true
}

/// What a relation does with others.
#[derive(Debug, PartialEq)]
pub enum LogicalOp {
    OneRow,
    TableScan { table: TableName, alias: Option<String> },
    Projection { items: Vec<ProjectionItem> },
    Selection { predicate: Expr },
    Join { join_type: JoinType, constraint: JoinConstraint },
    Order { items: Vec<OrderByItem> },
    Limit { count: Expr },
}

/// What a relation does with others.
#[verifier::ext_equal]
pub enum LogicalOpView {
    OneRow,
    TableScan { table: TableNameView, alias: Option<Seq<char>> },
    Projection { items: Seq<ProjectionItemView> },
    Selection { predicate: ExprView },
    Join { join_type: JoinType, constraint: JoinConstraintView },
    Order { items: Seq<OrderByItemView> },
    Limit { count: ExprView },
}

/// What is in it.
pub open spec fn logical_op_view(e: LogicalOp) -> LogicalOpView {
    match e {
        LogicalOp::OneRow => LogicalOpView::OneRow,
        LogicalOp::TableScan { table, alias } => LogicalOpView::TableScan {
            table: table_name_view(table),
            alias: match alias { Some(z) => Some(z@), None => None },
        },
        LogicalOp::Projection { items } => LogicalOpView::Projection {
            items: projection_item_views(items@),
        },
        LogicalOp::Selection { predicate } => LogicalOpView::Selection {
            predicate: expr_view(predicate),
        },
        LogicalOp::Join { join_type, constraint } => LogicalOpView::Join {
            join_type: join_type,
            constraint: join_constraint_view(constraint),
        },
        LogicalOp::Order { items } => LogicalOpView::Order { items: order_by_item_views(items@) },
        LogicalOp::Limit { count } => LogicalOpView::Limit { count: expr_view(count) },
    }
}

impl View for LogicalOp {
    type V = LogicalOpView;

    open spec fn view(&self) -> LogicalOpView {
        logical_op_view(*self)
    }
}

/// A copy.
pub fn copy_logical_op(e: &LogicalOp) -> (r: LogicalOp)
    ensures
        r@ == e@,
{
    let r = match e {
        LogicalOp::OneRow => LogicalOp::OneRow,
        LogicalOp::TableScan { table, alias } => LogicalOp::TableScan {
            table: copy_table_name(table),
            alias: match alias { Some(z) => Some(z.clone()), None => None },
        },
        LogicalOp::Projection { items } => LogicalOp::Projection {
            items: copy_projection_items(items),
        },
        LogicalOp::Selection { predicate } => LogicalOp::Selection {
            predicate: copy_expr(predicate),
        },
        LogicalOp::Join { join_type, constraint } => LogicalOp::Join {
            join_type: *join_type,
            constraint: copy_join_constraint(constraint),
        },
        LogicalOp::Order { items } => LogicalOp::Order { items: copy_order_by_items(items) },
        LogicalOp::Limit { count } => LogicalOp::Limit { count: copy_expr(count) },
    };
    assert(r@ =~~= e@);
    r
}

impl Clone for LogicalOp {
    fn clone(&self) -> (r: Self)
        ensures
            r@ == self@,
    {
        copy_logical_op(self)
    }
}

/// Whether two are the same.
pub fn same_logical_op(a: &LogicalOp, b: &LogicalOp) -> (r: bool)
    ensures
        r == (a@ == b@),
{
    match (a, b) {
        (LogicalOp::OneRow, LogicalOp::OneRow) => true,
        (LogicalOp::TableScan { table: a_table, alias: a_alias }, LogicalOp::TableScan { table: b_table, alias: b_alias }) => {
            let r = same_table_name(a_table, b_table) && same_label(a_alias, b_alias);
            assert(r == (a@ =~~= b@));
            r
        },
        (LogicalOp::Projection { items: a_items }, LogicalOp::Projection { items: b_items }) => {
            let r = same_projection_items(a_items, b_items);
            assert(r == (a@ =~~= b@));
            r
        },
        (LogicalOp::Selection { predicate: a_predicate }, LogicalOp::Selection { predicate: b_predicate }) => {
            let r = same_expr(a_predicate, b_predicate);
            assert(r == (a@ =~~= b@));
            r
        },
        (LogicalOp::Join { join_type: a_join_type, constraint: a_constraint }, LogicalOp::Join { join_type: b_join_type, constraint: b_constraint }) => {
            let r = *a_join_type == *b_join_type && same_join_constraint(
                a_constraint,
                b_constraint,
            );
            assert(r == (a@ =~~= b@));
            r
        },
        (LogicalOp::Order { items: a_items }, LogicalOp::Order { items: b_items }) => {
            let r = same_order_by_items(a_items, b_items);
            assert(r == (a@ =~~= b@));
            r
        },
        (LogicalOp::Limit { count: a_count }, LogicalOp::Limit { count: b_count }) => {
            let r = same_expr(a_count, b_count);
            assert(r == (a@ =~~= b@));
            r
        },
        _ => false,
    }
}

/// A relation over groups of relations.
#[derive(Debug, PartialEq)]
pub struct MemoExpr {
    pub op: LogicalOp,
    pub children: Vec<usize>,
}

/// A relation over groups of relations.
#[verifier::ext_equal]
pub struct MemoExprView {
    pub op: LogicalOpView,
    pub children: Seq<usize>,
}

/// What is in it.
pub open spec fn memo_expr_view(e: MemoExpr) -> MemoExprView {
    MemoExprView { op: logical_op_view(e.op), children: e.children@ }
}

impl View for MemoExpr {
    type V = MemoExprView;

    open spec fn view(&self) -> MemoExprView {
        memo_expr_view(*self)
    }
}

/// What is in each.
pub open spec fn memo_expr_views(s: Seq<MemoExpr>) -> Seq<MemoExprView> {
    Seq::new(s.len(), |i: int| memo_expr_view(s[i]))
}

/// A copy.
pub fn copy_memo_expr(e: &MemoExpr) -> (r: MemoExpr)
    ensures
        r@ == e@,
{
    let r = MemoExpr { op: copy_logical_op((&e.op)), children: copy_indices((&e.children)) };
    assert(r@ =~~= e@);
    r
}

impl Clone for MemoExpr {
    fn clone(&self) -> (r: Self)
        ensures
            r@ == self@,
    {
        copy_memo_expr(self)
    }
}

/// A copy.
pub fn copy_memo_exprs(v: &Vec<MemoExpr>) -> (r: Vec<MemoExpr>)
    ensures
        memo_expr_views(r@) == memo_expr_views(v@),
        r@.len() == v@.len(),
{
    let mut r: Vec<MemoExpr> = Vec::new();
    let mut i: usize = 0;
    while i < v.len()
        invariant
            i <= v@.len(),
            r@.len() == i,
            forall|j: int| 0 <= j < i ==> (#[trigger] r@[j])@ == v@[j]@,
        decreases v.len() - i,
    {
        r.push(copy_memo_expr(&v[i]));
        i = i + 1;
    }
    assert(memo_expr_views(r@) =~= memo_expr_views(v@));
    r
}

/// Whether two are the same.
pub fn same_memo_expr(a: &MemoExpr, b: &MemoExpr) -> (r: bool)
    ensures
        r == (a@ == b@),
{
    let r = same_logical_op((&a.op), (&b.op)) && same_indices((&a.children), (&b.children));
    assert(r == (a@ =~~= b@));
    r
}

// -- Groups ----------------------------------------------------

/// Relations with the same rows.
#[derive(Debug)]
pub struct Group {
    pub expressions: Vec<MemoExpr>,
    pub explored: bool,
}

/// Relations with the same rows.
#[verifier::ext_equal]
pub struct GroupView {
    pub expressions: Seq<MemoExprView>,
    pub explored: bool,
}

impl View for Group {
    type V = GroupView;

    open spec fn view(&self) -> GroupView {
        GroupView { expressions: memo_expr_views(self.expressions@), explored: self.explored }
    }
}

/// All groups.
#[derive(Debug)]
pub struct Memo {
    pub groups: Vec<Group>,
}

impl View for Memo {
    type V = Seq<GroupView>;

    open spec fn view(&self) -> Seq<GroupView> {
        Seq::new(self.groups@.len(), |i: int| self.groups@[i]@)
    }
}

/// Number of relations that a relation is over.
pub open spec fn arity(op: LogicalOpView) -> nat {
    match op {
        LogicalOpView::OneRow => 0,
        LogicalOpView::TableScan { table, alias } => 0,
        LogicalOpView::Join { join_type, constraint } => 2,
        _ => 1,
    }
}

/// Whether a relation is over as many groups as it has to be, all before `g`.
pub open spec fn expr_ok(e: MemoExprView, g: int) -> bool {
    &&& e.children.len() == arity(e.op)
    &&& forall|i: int| 0 <= i < e.children.len() ==> #[trigger] e.children[i] < g
}

/// Whether all relations of all groups are over groups before their own.
pub open spec fn memo_ok(m: Seq<GroupView>) -> bool {
    forall|g: int, k: int|
        0 <= g < m.len() && 0 <= k < m[g].expressions.len() ==> expr_ok(
            #[trigger] m[g].expressions[k],
            g,
        )
}

/// A relation in a group of its own.
pub open spec fn with_group(m: Seq<GroupView>, e: MemoExprView) -> Seq<GroupView> {
    m.push(GroupView { expressions: seq![e], explored: false })
}

/// One more, unless there are too many.
pub open spec fn one_more(n: usize) -> usize {
    if n < usize::MAX {
        (n + 1) as usize
    } else {
        n
    }
}

/// One more, unless there are too many.
pub fn count_up(n: usize) -> (r: usize)
    ensures
        r == one_more(n),
{
    if n < usize::MAX {
        n + 1
    } else {
        n
    }
}

/// Groups with one more relation in group `g`, unless it is there already; and the
/// number of relations that were added.
pub open spec fn with_expression(m: Seq<GroupView>, n: usize, g: int, e: MemoExprView) -> (
    Seq<GroupView>,
    usize,
) {
    if m[g].expressions.contains(e) {
        (m, n)
    } else {
        (
            m.update(g, GroupView { expressions: m[g].expressions.push(e), ..m[g] }),
            one_more(n),
        )
    }
}

impl Memo {
    /// No groups.
    pub fn new() -> (r: Self)
        ensures
            r@ == Seq::<GroupView>::empty(),
    {
        let r = Memo { groups: Vec::new() };
        assert(r@ =~= Seq::<GroupView>::empty());
        r
    }

    /// Puts a relation into a group of its own.
    pub fn add_group(&mut self, e: MemoExpr) -> (r: usize)
        requires
            memo_ok(old(self)@),
            expr_ok(e@, old(self)@.len() as int),
        ensures
            r == old(self)@.len(),
            final(self)@ == with_group(old(self)@, e@),
            memo_ok(final(self)@),
    {
        let ghost before = self@;
        let r: usize = self.groups.len();
        let mut expressions: Vec<MemoExpr> = Vec::new();
        expressions.push(e);
        assert(memo_expr_views(expressions@) =~= seq![e@]);
        self.groups.push(Group { expressions, explored: false });
        assert(self@ =~= with_group(before, e@));
        assert forall|g: int, k: int|
            0 <= g < self@.len() && 0 <= k < self@[g].expressions.len() implies expr_ok(
            #[trigger] self@[g].expressions[k],
            g,
        ) by {
            if g < before.len() {
                assert(self@[g] == before[g]);
            }
        }
        r
    }

    /// Adds a relation to a group, unless it is there already.
    pub fn add_expression(&mut self, g: usize, e: MemoExpr, rules: usize) -> (r: usize)
        requires
            memo_ok(old(self)@),
            g < old(self)@.len(),
            expr_ok(e@, g as int),
        ensures
            (final(self)@, r) == with_expression(old(self)@, rules, g as int, e@),
            memo_ok(final(self)@),
            final(self)@.len() == old(self)@.len(),
    {
        let ghost before = self@;
        let mut i: usize = 0;
        assert(self@[g as int] == self.groups@[g as int]@);
        while i < self.groups[g as usize].expressions.len()
            invariant
                self@ == before,
                before == old(self)@,
                memo_ok(before),
                g < self.groups@.len(),
                i <= self.groups@[g as int].expressions@.len(),
                forall|j: int|
                    0 <= j < i ==> (#[trigger] self.groups@[g as int].expressions@[j])@ != e@,
            decreases self.groups@[g as int].expressions@.len() - i,
        {
            if same_memo_expr(&self.groups[g].expressions[i], &e) {
                assert(before[g as int].expressions[i as int] == e@);
                return rules;
            }
            i = i + 1;
        }
        assert(!before[g as int].expressions.contains(e@)) by {
            assert(before[g as int] == self.groups@[g as int]@);
            assert forall|j: int| 0 <= j < before[g as int].expressions.len() implies #[trigger] before[g as int].expressions[j]
                != e@ by {
                assert(self.groups@[g as int].expressions@[j]@ != e@);
            }
        }
        let ghost old_group = self.groups@[g as int];
        self.groups[g].expressions.push(e);
        assert(self.groups@[g as int].expressions@ == old_group.expressions@.push(e));
        assert(memo_expr_views(self.groups@[g as int].expressions@) =~= memo_expr_views(
            old_group.expressions@,
        ).push(e@));
        assert(self@ =~= with_expression(before, rules, g as int, e@).0);
        assert forall|h: int, k: int|
            0 <= h < self@.len() && 0 <= k < self@[h].expressions.len() implies expr_ok(
            #[trigger] self@[h].expressions[k],
            h,
        ) by {
            if h != g {
                assert(self@[h] == before[h]);
            } else if k < before[h].expressions.len() {
                assert(self@[h].expressions[k] == before[h].expressions[k]);
            }
        }
        count_up(rules)
    }
}

// -- Relations -------------------------------------------------

/// The groups with those for a relation and all in it, and the group of it.
pub open spec fn inserted(rel: RelationExprView, m: Seq<GroupView>) -> (Seq<GroupView>, usize)
    decreases rel,
{
    match rel {
        RelationExprView::OneRow => (
            with_group(m, MemoExprView { op: LogicalOpView::OneRow, children: seq![] }),
            m.len() as usize,
        ),
        RelationExprView::TableScan { table, alias } => (
            with_group(
                m,
                MemoExprView { op: LogicalOpView::TableScan { table, alias }, children: seq![] },
            ),
            m.len() as usize,
        ),
        RelationExprView::Projection { input, items } => {
            let (n, child) = inserted(*input, m);
            (
                with_group(
                    n,
                    MemoExprView { op: LogicalOpView::Projection { items }, children: seq![child] },
                ),
                n.len() as usize,
            )
        },
        RelationExprView::Selection { input, predicate } => {
            let (n, child) = inserted(*input, m);
            (
                with_group(
                    n,
                    MemoExprView {
                        op: LogicalOpView::Selection { predicate },
                        children: seq![child],
                    },
                ),
                n.len() as usize,
            )
        },
        RelationExprView::Join { left, right, join_type, constraint } => {
            let (n, a) = inserted(*left, m);
            let (o, b) = inserted(*right, n);
            (
                with_group(
                    o,
                    MemoExprView {
                        op: LogicalOpView::Join { join_type, constraint },
                        children: seq![a, b],
                    },
                ),
                o.len() as usize,
            )
        },
        RelationExprView::Order { input, items } => {
            let (n, child) = inserted(*input, m);
            (
                with_group(
                    n,
                    MemoExprView { op: LogicalOpView::Order { items }, children: seq![child] },
                ),
                n.len() as usize,
            )
        },
        RelationExprView::Limit { input, count } => {
            let (n, child) = inserted(*input, m);
            (
                with_group(
                    n,
                    MemoExprView { op: LogicalOpView::Limit { count }, children: seq![child] },
                ),
                n.len() as usize,
            )
        },
    }
}

fn one_child(child: usize) -> (r: Vec<usize>)
    ensures
        r@ == seq![child],
{
    let mut v: Vec<usize> = Vec::new();
    v.push(child);
    assert(v@ =~= seq![child]);
    v
}

fn two_children(a: usize, b: usize) -> (r: Vec<usize>)
    ensures
        r@ == seq![a, b],
{
    let mut v: Vec<usize> = Vec::new();
    v.push(a);
    v.push(b);
    assert(v@ =~= seq![a, b]);
    v
}

impl Memo {
    fn add_over(&mut self, op: LogicalOp, child: usize) -> (r: usize)
        requires
            memo_ok(old(self)@),
            child < old(self)@.len(),
            arity(op@) == 1,
        ensures
            r == old(self)@.len(),
            final(self)@ == with_group(
                old(self)@,
                (MemoExprView { op: op@, children: seq![child] }),
            ),
            memo_ok(final(self)@),
    {
        let e = MemoExpr { op, children: one_child(child) };
        assert(e@ =~~= MemoExprView { op: op@, children: seq![child] });
        self.add_group(e)
    }

    /// Makes groups for a relation and all in it.
    pub fn insert_relation(&mut self, rel: &RelationExpr) -> (r: usize)
        requires
            memo_ok(old(self)@),
        ensures
            (final(self)@, r) == inserted(rel@, old(self)@),
            memo_ok(final(self)@),
            old(self)@.len() <= r < final(self)@.len(),
        decreases rel,
    {
        match rel {
            RelationExpr::OneRow => {
                let e = MemoExpr { op: LogicalOp::OneRow, children: Vec::new() };
                assert(e@ =~~= MemoExprView { op: LogicalOpView::OneRow, children: seq![] });
                self.add_group(e)
            },
            RelationExpr::TableScan { table, alias } => {
                let alias = match alias {
                    Some(a) => Some(a.clone()),
                    None => None,
                };
                let op = LogicalOp::TableScan { table: copy_table_name(table), alias };
                let e = MemoExpr { op, children: Vec::new() };
                assert(e@ =~~= MemoExprView { op: op@, children: seq![] });
                self.add_group(e)
            },
            RelationExpr::Projection { input, items } => {
                let child: usize = self.insert_relation(input);
                let op = LogicalOp::Projection { items: copy_projection_items(items) };
                self.add_over(op, child)
            },
            RelationExpr::Selection { input, predicate } => {
                let child: usize = self.insert_relation(input);
                let op = LogicalOp::Selection { predicate: copy_expr(predicate) };
                self.add_over(op, child)
            },
            RelationExpr::Join { left, right, join_type, constraint } => {
                let a: usize = self.insert_relation(left);
                let b: usize = self.insert_relation(right);
                let op = LogicalOp::Join {
                    join_type: *join_type,
                    constraint: copy_join_constraint(constraint),
                };
                let e = MemoExpr { op, children: two_children(a, b) };
                assert(e@ =~~= MemoExprView { op: op@, children: seq![a, b] });
                self.add_group(e)
            },
            RelationExpr::Order { input, items } => {
                let child: usize = self.insert_relation(input);
                let op = LogicalOp::Order { items: copy_order_by_items(items) };
                self.add_over(op, child)
            },
            RelationExpr::Limit { input, count } => {
                let child: usize = self.insert_relation(input);
                let op = LogicalOp::Limit { count: copy_expr(count) };
                self.add_over(op, child)
            },
        }
    }
}

// -- Rules -----------------------------------------------------

/// A condition on rows that another condition holds of, as one.
pub open spec fn both(a: ExprView, b: ExprView) -> ExprView {
    ExprView::Binary { left: Box::new(a), op: BinaryOp::And, right: Box::new(b) }
}

/// Groups with the selections of another group merged into those of group `g`.
pub open spec fn merged_selections(
    m: Seq<GroupView>,
    n: usize,
    g: int,
    predicate: ExprView,
    below: Seq<MemoExprView>,
) -> (Seq<GroupView>, usize)
    decreases below.len(),
{
    if below.len() == 0 {
        (m, n)
    } else {
        let (o, k) = merged_selections(m, n, g, predicate, below.drop_last());
        match below.last().op {
            LogicalOpView::Selection { predicate: inner } => with_expression(
                o,
                k,
                g,
                MemoExprView {
                    op: LogicalOpView::Selection { predicate: both(predicate, inner) },
                    children: below.last().children,
                },
            ),
            _ => (o, k),
        }
    }
}

/// Groups with what the rules make of a relation of group `g`: inner and cross
/// joins can be turned around, and selections of selections merged.
pub open spec fn with_rules(m: Seq<GroupView>, n: usize, g: int, e: MemoExprView) -> (
    Seq<GroupView>,
    usize,
) {
    match e.op {
        LogicalOpView::Join { join_type, constraint } => if join_type == JoinType::Inner
            || join_type == JoinType::Cross {
            with_expression(
                m,
                n,
                g,
                MemoExprView { op: e.op, children: seq![e.children[1], e.children[0]] },
            )
        } else {
            (m, n)
        },
        LogicalOpView::Selection { predicate } => merged_selections(
            m,
            n,
            g,
            predicate,
            m[e.children[0] as int].expressions,
        ),
        _ => (m, n),
    }
}

/// Groups after the rules on the first relations of group `g`.
pub open spec fn with_all_rules(m: Seq<GroupView>, n: usize, g: int, es: Seq<MemoExprView>) -> (
    Seq<GroupView>,
    usize,
)
    decreases es.len(),
{
    if es.len() == 0 {
        (m, n)
    } else {
        let (o, k) = with_all_rules(m, n, g, es.drop_last());
        with_rules(o, k, g, es.last())
    }
}

/// Groups after the rules on group `g` and on all groups below it.
pub open spec fn explored(m: Seq<GroupView>, n: usize, g: int) -> (Seq<GroupView>, usize)
    decreases g, 2int, 0int,
{
    if m[g].explored {
        (m, n)
    } else {
        let es = m[g].expressions;
        let (o, k) = explored_below(m, n, g, es);
        let (p, l) = with_all_rules(o, k, g, es);
        (p.update(g, GroupView { explored: true, ..p[g] }), l)
    }
}

/// Groups after the rules on the groups that relations of group `g` are over.
pub open spec fn explored_below(m: Seq<GroupView>, n: usize, g: int, es: Seq<MemoExprView>) -> (
    Seq<GroupView>,
    usize,
)
    decreases g, 1int, es.len(),
{
    if es.len() == 0 {
        (m, n)
    } else {
        let (o, k) = explored_below(m, n, g, es.drop_last());
        explored_each(o, k, g, es.last().children)
    }
}

/// Groups after the rules on some groups before `g`.
pub open spec fn explored_each(m: Seq<GroupView>, n: usize, g: int, kids: Seq<usize>) -> (
    Seq<GroupView>,
    usize,
)
    decreases g, 0int, kids.len(),
{
    if kids.len() == 0 {
        (m, n)
    } else {
        let (o, k) = explored_each(m, n, g, kids.drop_last());
        if kids.last() < g {
            explored(o, k, kids.last() as int)
        } else {
            (o, k)
        }
    }
}

impl Memo {
    fn merge_selections(
        &mut self,
        g: usize,
        predicate: &Expr,
        below: &Vec<MemoExpr>,
        rules: usize,
    ) -> (r: usize)
        requires
            memo_ok(old(self)@),
            g < old(self)@.len(),
            forall|i: int| 0 <= i < below@.len() ==> expr_ok((#[trigger] below@[i])@, g as int),
        ensures
            (final(self)@, r) == merged_selections(
                old(self)@,
                rules,
                g as int,
                predicate@,
                memo_expr_views(below@),
            ),
            memo_ok(final(self)@),
            final(self)@.len() == old(self)@.len(),
    {
        let ghost v = memo_expr_views(below@);
        let ghost before = self@;
        let mut n: usize = rules;
        let mut i: usize = 0;
        assert(v.take(0) =~= seq![]);
        while i < below.len()
            invariant
                i <= below@.len(),
                v == memo_expr_views(below@),
                before == old(self)@,
                memo_ok(self@),
                self@.len() == before.len(),
                g < before.len(),
                forall|i: int| 0 <= i < below@.len() ==> expr_ok((#[trigger] below@[i])@, g as int),
                (self@, n) == merged_selections(
                    before,
                    rules,
                    g as int,
                    predicate@,
                    v.take(i as int),
                ),
            decreases below.len() - i,
        {
            proof {
                let t = v.take(i + 1);
                assert(t.drop_last() =~= v.take(i as int));
                assert(t.last() == below@[i as int]@);
            }
            match &below[i].op {
                LogicalOp::Selection { predicate: inner } => {
                    let combined = Expr::Binary {
                        left: Box::new(copy_expr(predicate)),
                        op: BinaryOp::And,
                        right: Box::new(copy_expr(inner)),
                    };
                    assert(combined@ == both(predicate@, inner@));
                    let e = MemoExpr {
                        op: LogicalOp::Selection { predicate: combined },
                        children: copy_indices(&below[i].children),
                    };
                    assert(expr_ok(below@[i as int]@, g as int));
                    n = self.add_expression(g, e, n);
                },
                _ => {},
            }
            i = i + 1;
        }
        assert(v.take(v.len() as int) =~= v);
        n
    }

    /// Adds what the rules make of a relation of a group.
    pub fn apply_rules(&mut self, g: usize, e: &MemoExpr, rules: usize) -> (r: usize)
        requires
            memo_ok(old(self)@),
            g < old(self)@.len(),
            expr_ok(e@, g as int),
        ensures
            (final(self)@, r) == with_rules(old(self)@, rules, g as int, e@),
            memo_ok(final(self)@),
            final(self)@.len() == old(self)@.len(),
    {
        match &e.op {
            LogicalOp::Join { join_type, constraint } => {
                if *join_type == JoinType::Inner || *join_type == JoinType::Cross {
                    let op = copy_logical_op(&e.op);
                    assert(e@.children[0] < g && e@.children[1] < g);
                    let turned = MemoExpr {
                        op,
                        children: two_children(e.children[1], e.children[0]),
                    };
                    assert(turned@ =~~= MemoExprView {
                        op: e@.op,
                        children: seq![e@.children[1], e@.children[0]],
                    });
                    self.add_expression(g, turned, rules)
                } else {
                    rules
                }
            },
            LogicalOp::Selection { predicate } => {
                assert(e@.children[0] < g);
                let child: usize = e.children[0];
                assert(self@[child as int] == self.groups@[child as int]@);
                let below = copy_memo_exprs(&self.groups[child].expressions);
                assert forall|i: int| 0 <= i < below@.len() implies expr_ok(
                    (#[trigger] below@[i])@,
                    g as int,
                ) by {
                    assert(memo_expr_views(below@)[i] == below@[i]@);
                    assert(expr_ok(self@[child as int].expressions[i], child as int));
                }
                self.merge_selections(g, predicate, &below, rules)
            },
            _ => rules,
        }
    }

    /// Applies the rules to a group and to all groups below it.
    pub fn explore_group(&mut self, g: usize, rules: usize) -> (r: usize)
        requires
            memo_ok(old(self)@),
            g < old(self)@.len(),
        ensures
            (final(self)@, r) == explored(old(self)@, rules, g as int),
            memo_ok(final(self)@),
            final(self)@.len() == old(self)@.len(),
        decreases g,
    {
        let ghost before = self@;
        assert(self@[g as int] == self.groups@[g as int]@);
        if self.groups[g].explored {
            return rules;
        }
        let es = copy_memo_exprs(&self.groups[g].expressions);
        let ghost v = memo_expr_views(es@);
        assert(v == before[g as int].expressions);
        let mut n: usize = rules;
        let mut i: usize = 0;
        assert(v.take(0) =~= seq![]);
        while i < es.len()
            invariant
                i <= es@.len(),
                v == memo_expr_views(es@),
                g < before.len(),
                before == old(self)@,
                memo_ok(before),
                v == before[g as int].expressions,
                memo_ok(self@),
                self@.len() == before.len(),
                (self@, n) == explored_below(before, rules, g as int, v.take(i as int)),
            decreases es.len() - i,
        {
            proof {
                let t = v.take(i + 1);
                assert(t.drop_last() =~= v.take(i as int));
                assert(t.last() == es@[i as int]@);
                assert(expr_ok(before[g as int].expressions[i as int], g as int));
            }
            let ghost mid = self@;
            let ghost k = n;
            let ghost kids = es@[i as int].children@;
            let mut j: usize = 0;
            assert(kids.take(0) =~= seq![]);
            while j < es[i].children.len()
                invariant
                    i < es@.len(),
                    g < before.len(),
                    before == old(self)@,
                    kids == es@[i as int].children@,
                    j <= kids.len(),
                    forall|x: int| 0 <= x < kids.len() ==> #[trigger] kids[x] < g,
                    memo_ok(self@),
                    self@.len() == before.len(),
                    (self@, n) == explored_each(mid, k, g as int, kids.take(j as int)),
                decreases kids.len() - j,
            {
                proof {
                    let t = kids.take(j + 1);
                    assert(t.drop_last() =~= kids.take(j as int));
                    assert(t.last() == kids[j as int]);
                }
                assert(kids[j as int] < g);
                let kid: usize = es[i].children[j];
                n = self.explore_group(kid, n);
                j = j + 1;
            }
            assert(kids.take(kids.len() as int) =~= kids);
            i = i + 1;
        }
        assert(v.take(v.len() as int) =~= v);
        let ghost mid = self@;
        let ghost k = n;
        i = 0;
        while i < es.len()
            invariant
                i <= es@.len(),
                v == memo_expr_views(es@),
                g < before.len(),
                before == old(self)@,
                memo_ok(before),
                v == before[g as int].expressions,
                memo_ok(self@),
                self@.len() == before.len(),
                (self@, n) == with_all_rules(mid, k, g as int, v.take(i as int)),
            decreases es.len() - i,
        {
            proof {
                let t = v.take(i + 1);
                assert(t.drop_last() =~= v.take(i as int));
                assert(t.last() == es@[i as int]@);
                assert(expr_ok(before[g as int].expressions[i as int], g as int));
            }
            n = self.apply_rules(g, &es[i], n);
            i = i + 1;
        }
        assert(v.take(v.len() as int) =~= v);
        let ghost last = self@;
        assert(last[g as int] == self.groups@[g as int]@);
        self.groups[g].explored = true;
        assert(self@ =~= last.update(g as int, GroupView { explored: true, ..last[g as int] }));
        assert forall|h: int, k: int|
            0 <= h < self@.len() && 0 <= k < self@[h].expressions.len() implies expr_ok(
            #[trigger] self@[h].expressions[k],
            h,
        ) by {
            assert(self@[h].expressions == last[h].expressions);
        }
        n
    }
}

} // verus!
