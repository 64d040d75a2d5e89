//! A statement takes effect as a whole or not at all.
use vstd::prelude::*;

use crate::engine::btree::BTree;
use crate::engine::durability::{has_trees_of, transaction_is_whole};
use crate::engine::journal::{replay, Disk};
use crate::engine::node::PAGE_SIZE;
use crate::engine::recovery::{counts_earlier_pages, group_calls};
use crate::engine::transaction::{begun, committed, read_begun, rollback_restores, rolled_back};
use crate::sql::operations::OperationView;
use crate::sql::program::{in_transaction, on_transaction};
use crate::sql::reals::RealAnswers;
use crate::sql::vm::{executed, ran, stepped, RunView, StepView, VMInstance};

verus! {

broadcast use group_calls;

/// Whether `b` is in the same transaction as `a`.
pub open spec fn same_attempt(a: &BTree, b: &BTree) -> bool {
    &&& b.m == a.m
    &&& b.is_write == a.is_write
    &&& b.pager.same_transaction(&a.pager)
}

/// An operation stays in the transaction that it is in, unless it begins or ends
/// one.
pub proof fn operation_stays(
    op: OperationView,
    a: VMInstance,
    b: VMInstance,
    r: RealAnswers,
    s: StepView,
)
    requires
        executed(op, a, b, r, s),
        !on_transaction(op),
    ensures
        same_attempt(&a.btree, &b.btree),
{
    match op {
        OperationView::UpdateRow(o) => {
            if a.btree.pager.in_write {
                assert forall|p: u32| p < a.btree.pager.initial_pages implies #[trigger] b.btree.pager.committed(
                    p,
                ) == a.btree.pager.committed(p) by {}
            }
        },
        _ => {},
    }
}

/// Transactions are the same, step by step.
proof fn attempts_join(a: &BTree, b: &BTree, c: &BTree)
    requires
        same_attempt(a, b),
        same_attempt(b, c),
    ensures
        same_attempt(a, c),
{
    if a.pager.in_write {
        assert forall|p: u32| p < c.pager.initial_pages implies #[trigger] c.pager.committed(p)
            == a.pager.committed(p) by {
            assert(b.pager.committed(p) == a.pager.committed(p));
        }
    }
}

/// A program that does not begin or end a transaction stays in the one it is in.
pub proof fn program_stays(
    ops: Seq<OperationView>,
    a: VMInstance,
    b: VMInstance,
    r: RealAnswers,
    fuel: nat,
    end: RunView,
)
    requires
        ran(ops, a, b, r, fuel, end),
        in_transaction(ops),
    ensures
        same_attempt(&a.btree, &b.btree),
    decreases fuel,
{
    if !(a.flag_halt || a.pc >= ops.len()) && fuel > 0 {
        let op = ops[a.pc as int];
        let (m, s) = choose|m: VMInstance, s: StepView| #[trigger]
            executed(op, a, m, r, s) && match s {
                StepView::Done => ran(ops, stepped(m, a.pc), b, r, (fuel - 1) as nat, end),
                StepView::Failed => b == m && end == RunView::Failed(
                    crate::sql::vm::failure(a.pc, op),
                ),
                StepView::Needs(q) => b == m && end == RunView::Needs(q),
            };
        operation_stays(op, a, m, r, s);
        if s is Done {
            program_stays(ops, stepped(m, a.pc), b, r, (fuel - 1) as nat, end);
            attempts_join(&a.btree, &m.btree, &b.btree);
        }
    }
}

/// A statement that fails leaves no trace: `a` is a database without a transaction,
/// `b` is what its program made of it in a transaction of its own, and `c` is what is
/// left once that is undone.
pub proof fn failure_leaves_no_trace(a: &BTree, t: &BTree, b: &BTree, c: &BTree, root: u32)
    requires
        a.wf(),
        !a.pager.in_write,
        a.new_free_page@.len() == 0,
        a.header_matches(),
        a.is_tree(root),
        begun(a, t),
        same_attempt(t, b),
        rolled_back(b, c),
    ensures
        c.is_tree(root),
        c.rows(root) == a.rows(root),
{
    assert(a.total() > 0) by {
        assert(a.tree_at(root, a.height(root)));
    }
    assert forall|p: u32| p < a.total() implies #[trigger] b.pager.committed(p) == a.content(p) by {
        assert(t.pager.committed(p) == a.content(p));
    }
    rollback_restores(a, b, c, root);
}

/// A statement that ran through is there as a whole or not at all, wherever the writing
/// of the files stopped, but for the moment when the journal counts the pages of an
/// earlier transaction. `a` is a database at rest, `v` the machine once the statement is
/// begun, `w` what its program made of it, and `b` the database once that is written.
/// `files` are those that `a` follows, `c` is any database on what the first `k`
/// operations made of them, and `d` what is read of it. The pages of a file are counted
/// in 32 bits.
pub proof fn statement_is_whole(
    ops: Seq<OperationView>,
    a: &BTree,
    v: VMInstance,
    w: VMInstance,
    reals: RealAnswers,
    fuel: nat,
    end: RunView,
    b: &BTree,
    files: Disk,
    k: int,
    c: &BTree,
    d: &BTree,
    r: bool,
)
    requires
        a.pager.wf(),
        a.pager.at_rest(),
        a.total() > 0,
        a.new_free_page@.len() == 0,
        a.header_matches(),
        a.pager.journal@.disk.db.len() < 0x1_0000_0000,
        begun(a, &v.btree),
        in_transaction(ops),
        ran(ops, v, w, reals, fuel, end),
        w.btree.wf(),
        w.btree.free_ok(),
        w.btree.total() * PAGE_SIZE < 0x1_0000_0000,
        committed(&w.btree, b, true),
        a.pager.journal@.follows(files),
        a.pager.journal@.ops.len() <= k <= b.pager.journal@.ops.len(),
        c.m == a.m,
        c.pager.journal@.disk == replay(files, b.pager.journal@.ops.take(k)),
        !counts_earlier_pages(c.pager.journal@.disk),
        read_begun(c, d, r),
    ensures
        r,
        (d.total() == a.total() && has_trees_of(d, a)) || (d.total() == w.btree.total()
            && has_trees_of(d, &w.btree)),
{
    program_stays(ops, v, w, reals, fuel, end);
    transaction_is_whole(a, &v.btree, &w.btree, b, files, k, c, d, r);
}

} // verus!
