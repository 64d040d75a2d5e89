//! The operations for the columns of rows that are added or changed.
use vstd::prelude::*;

use crate::engine::node::CellView;
use crate::engine::value::DataView;
use crate::sql::ast::{ColumnRefView, ExprView};
use crate::sql::evaluation::{
    code_longer, entries_of, evaluated, expr_code_grows, expression_computed, field, one_value,
    only_registers, runs_one, runs_split, runs_through, same_value,
};
use crate::sql::mutation::{slot_code, slots_code};
use crate::sql::operations::{Null, OperationView};
use crate::sql::program::{expr_code, scope_column, CodeView, ResolvedColumn, ScopeView};
use crate::sql::reals::{OutcomeView, RealAnswers};
use crate::sql::straight::{
    below, column_computed, countable, expr_straight, hold, hold_stays, holds_code, registers_join,
    straight, straight_twice,
};
use crate::sql::vm::VMInstance;

verus! {

/// The one entry that expressions of a statement that changes rows can see.
pub open spec fn the_entry(cell: CellView) -> spec_fn(usize) -> Option<CellView> {
    |id: usize|
        if id == 0 {
            Some(cell)
        } else {
            None
        }
}

/// The new value of a column: that of its expression where it has one; else the
/// value it has, or nothing.
pub open spec fn slot_value(
    slot: Option<usize>,
    col_idx: int,
    exprs: Seq<ExprView>,
    sc: ScopeView,
    keep: bool,
    cell: CellView,
    r: RealAnswers,
) -> OutcomeView<DataView> {
    match slot {
        Some(k) => evaluated(exprs[k as int], sc, the_entry(cell), r),
        None => if keep {
            OutcomeView::Got(field(cell, col_idx))
        } else {
            OutcomeView::Got(DataView::Null)
        },
    }
}

/// The new values of columns.
pub open spec fn slot_values(
    slots: Seq<Option<usize>>,
    exprs: Seq<ExprView>,
    sc: ScopeView,
    keep: bool,
    cell: CellView,
    r: RealAnswers,
) -> Option<Seq<DataView>>
    decreases slots.len(),
{
    if slots.len() == 0 {
        Some(seq![])
    } else {
        match slot_values(slots.drop_last(), exprs, sc, keep, cell, r) {
            None => None,
            Some(v) => match slot_value(
                slots.last(),
                slots.len() - 1,
                exprs,
                sc,
                keep,
                cell,
                r,
            ) {
                OutcomeView::Got(x) => Some(v.push(x)),
                _ => None,
            },
        }
    }
}

/// Whether an expression sees at most the entry of cursor 0.
pub open spec fn sees_one(sc: ScopeView) -> bool {
    !(sc is Sources)
}

/// The value of an expression of a statement that changes rows.
pub proof fn value_here(
    e: ExprView,
    sc: ScopeView,
    cell: CellView,
    a: VMInstance,
    r: RealAnswers,
)
    requires
        sees_one(sc),
        sc is Table ==> a.entry(0) == Some(cell),
    ensures
        evaluated(e, sc, entries_of(a), r) == evaluated(e, sc, the_entry(cell), r),
{
    assert forall|column: ColumnRefView|
        (#[trigger] scope_column(sc, column)) is Ok implies entries_of(a)(
        scope_column(sc, column)->Ok_0.cursor_id,
    ) == the_entry(cell)(scope_column(sc, column)->Ok_0.cursor_id) by {}
    same_value(e, sc, entries_of(a), the_entry(cell), r);
}

proof fn slot_longer(
    slot: Option<usize>,
    col_idx: usize,
    exprs: Seq<ExprView>,
    sc: ScopeView,
    keep: bool,
    c: CodeView,
)
    ensures
        slot_code(slot, col_idx, exprs, sc, keep, c) matches Ok(x) ==> c.ops.len()
            <= x.0.ops.len(),
{
    if let Some(k) = slot {
        code_longer(exprs[k as int], sc, c);
    }
}

/// Computing columns makes a program longer.
pub proof fn slots_longer(
    slots: Seq<Option<usize>>,
    exprs: Seq<ExprView>,
    sc: ScopeView,
    keep: bool,
    c: CodeView,
)
    ensures
        slots_code(slots, exprs, sc, keep, c) matches Ok(x) ==> c.ops.len() <= x.0.ops.len(),
    decreases slots.len(),
{
    if slots.len() > 0 {
        slots_longer(slots.drop_last(), exprs, sc, keep, c);
        if let Ok((d, regs)) = slots_code(slots.drop_last(), exprs, sc, keep, c) {
            slot_longer(slots.last(), (slots.len() - 1) as usize, exprs, sc, keep, d);
        }
    }
}

/// Computing columns does not jump.
pub proof fn slots_straight(
    slots: Seq<Option<usize>>,
    exprs: Seq<ExprView>,
    sc: ScopeView,
    keep: bool,
    c: CodeView,
)
    requires
        countable(c),
        slots_code(slots, exprs, sc, keep, c) matches Ok(x) && x.0.ops.len() <= usize::MAX,
    ensures
        straight(c, slots_code(slots, exprs, sc, keep, c)->Ok_0.0),
    decreases slots.len(),
{
    if slots.len() > 0 {
        let d = slots_code(slots.drop_last(), exprs, sc, keep, c)->Ok_0.0;
        let f = slots_code(slots, exprs, sc, keep, c)->Ok_0.0;
        slot_longer(slots.last(), (slots.len() - 1) as usize, exprs, sc, keep, d);
        slots_straight(slots.drop_last(), exprs, sc, keep, c);
        if let Some(k) = slots.last() {
            expr_straight(exprs[k as int], sc, d);
        } else {
            assert(straight(d, f));
        }
        straight_twice(c, d, f);
    }
}

/// Computing columns leaves their values in their registers.
pub proof fn slots_computed(
    slots: Seq<Option<usize>>,
    exprs: Seq<ExprView>,
    sc: ScopeView,
    keep: bool,
    cell: CellView,
    c: CodeView,
    ops: Seq<OperationView>,
    a: VMInstance,
    b: VMInstance,
    r: RealAnswers,
)
    requires
        countable(c),
        sees_one(sc),
        sc is Table || keep ==> a.entry(0) == Some(cell),
        slots_code(slots, exprs, sc, keep, c) matches Ok(x) && x.0.ops.len() <= usize::MAX
            && holds_code(ops, c, x.0) && runs_through(
            ops,
            c.ops.len() as int,
            x.0.ops.len() as int,
            a,
            b,
            r,
        ),
    ensures
        only_registers(a, b, c.registers as int),
        slot_values(slots, exprs, sc, keep, cell, r) is Some,
        hold(
            b,
            slots_code(slots, exprs, sc, keep, c)->Ok_0.1,
            slot_values(slots, exprs, sc, keep, cell, r)->0,
        ),
        below(
            slots_code(slots, exprs, sc, keep, c)->Ok_0.1,
            slots_code(slots, exprs, sc, keep, c)->Ok_0.0.registers as int,
        ),
    decreases slots.len(),
{
    if slots.len() > 0 {
        let rest = slots.drop_last();
        let slot = slots.last();
        let j = (slots.len() - 1) as usize;
        let (d, regs) = slots_code(rest, exprs, sc, keep, c)->Ok_0;
        let (f, all) = slots_code(slots, exprs, sc, keep, c)->Ok_0;
        slots_longer(rest, exprs, sc, keep, c);
        slot_longer(slot, j, exprs, sc, keep, d);
        slots_straight(rest, exprs, sc, keep, c);
        slots_straight(slots, exprs, sc, keep, c);
        if let Some(k) = slot {
            expr_straight(exprs[k as int], sc, d);
        }
        let m = runs_split(
            ops,
            c.ops.len() as int,
            d.ops.len() as int,
            f.ops.len() as int,
            a,
            b,
            r,
        );
        assert(holds_code(ops, c, d)) by {
            assert forall|i: int| c.ops.len() <= i < d.ops.len() implies #[trigger] ops[i]
                == d.ops[i] by {
                assert(ops[i] == f.ops[i]);
            }
        }
        slots_computed(rest, exprs, sc, keep, cell, c, ops, a, m, r);
        assert(sc is Table || keep ==> m.entry(0) == Some(cell));
        let i = d.ops.len() as int;
        match slot {
            Some(k) => {
                let e = exprs[k as int];
                expression_computed(e, sc, d, ops, m, b, r);
                expr_code_grows(e, sc, d);
                value_here(e, sc, cell, m, r);
            },
            None => {
                assert(ops[i] == f.ops[i]);
                assert(f.ops.len() == i + 1);
                assert(j < slots.len());
                if keep {
                    columns_fit(slots, exprs, sc, keep, c);
                    column_computed(
                        ResolvedColumn { cursor_id: 0, col_idx: j },
                        ops,
                        i,
                        d.registers,
                        cell,
                        m,
                        b,
                        r,
                    );
                } else {
                    let n = runs_one(ops, i, m, b, r);
                    one_value(ops[i], m, n, r, d.registers, d.registers as int);
                }
            },
        }
        registers_join(a, m, b, c.registers as int, d.registers as int);
        hold_stays(
            m,
            b,
            d.registers as int,
            regs,
            slot_values(rest, exprs, sc, keep, cell, r)->0,
        );
        let v = slot_values(slots, exprs, sc, keep, cell, r)->0;
        assert forall|k: int| 0 <= k < all.len() implies b.reg(#[trigger] all[k]) == Some(v[k])
            && all[k] < f.registers by {
            if k < regs.len() {
                assert(all[k] == regs[k]);
                assert(regs[k] < d.registers);
            }
        }
    } else {
        assert(runs_through(ops, c.ops.len() as int, c.ops.len() as int, a, b, r));
    }
}

/// There are not more columns than can be counted.
proof fn columns_fit(
    slots: Seq<Option<usize>>,
    exprs: Seq<ExprView>,
    sc: ScopeView,
    keep: bool,
    c: CodeView,
)
    requires
        slots_code(slots, exprs, sc, keep, c) matches Ok(x) && x.0.ops.len() <= usize::MAX,
    ensures
        slots.len() <= usize::MAX,
        slots_code(slots, exprs, sc, keep, c) matches Ok(x) ==> slots.len() <= x.0.ops.len()
            - c.ops.len(),
    decreases slots.len(),
{
    if slots.len() > 0 {
        let d = slots_code(slots.drop_last(), exprs, sc, keep, c)->Ok_0.0;
        slot_longer(slots.last(), (slots.len() - 1) as usize, exprs, sc, keep, d);
        columns_fit(slots.drop_last(), exprs, sc, keep, c);
        if let Some(k) = slots.last() {
            code_puts(exprs[k as int], sc, d);
        }
    }
}

/// An expression takes at least one operation.
proof fn code_puts(e: ExprView, sc: ScopeView, c: CodeView)
    ensures
        expr_code(e, sc, c) matches Ok(x) ==> c.ops.len() < x.0.ops.len(),
    decreases e,
{
    match e {
        ExprView::Unary { op, expr } => {
            code_puts(*expr, sc, c);
        },
        ExprView::Binary { left, op, right } => {
            code_longer(*left, sc, c);
            if expr_code(*left, sc, c) is Ok {
                code_longer(*right, sc, expr_code(*left, sc, c)->Ok_0.0);
            }
        },
        _ => {},
    }
}

} // verus!
