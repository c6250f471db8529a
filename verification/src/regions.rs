//! The syntactic facts loop-body outlining decides with: which variables a statement reads and
//! writes, which it reads before writing, whether every branch inside it lands inside it, how
//! large it is, and whether it can throw.
use vstd::prelude::*;

use crate::ir::{BrTarget, CatchClause, Expr, Stmt, Temp};
use crate::varset::{Var, VarSet};

verus! {

// ---------------------------------------------------------------------------------------------
// Reads.

/// The variables `e` reads.
pub open spec fn expr_reads(e: Expr) -> Set<Var>
    decreases e,
{
    match e {
        Expr::Temp(t) => set![Var::Temp(t)],
        Expr::LocalGet(i) => set![Var::Local(i)],
        Expr::Un(_, a) => expr_reads(*a),
        Expr::Bin(_, a, b) => expr_reads(*a).union(expr_reads(*b)),
        Expr::Load { addr, .. } => expr_reads(*addr),
        Expr::Select { cond, then, els } => expr_reads(*cond).union(expr_reads(*then)).union(expr_reads(*els)),
        _ => Set::empty(),
    }
}

/// The variables the expressions `es` read.
pub open spec fn exprs_reads(es: Seq<Expr>) -> Set<Var>
    decreases es.len(),
{
    if es.len() == 0 {
        Set::empty()
    } else {
        exprs_reads(es.subrange(0, es.len() - 1)).union(expr_reads(es[es.len() - 1]))
    }
}

/// The values a branch target carries out of the function.
pub open spec fn target_values(t: BrTarget) -> Seq<Expr> {
    match t {
        BrTarget::Return { values } => values@,
        _ => seq![],
    }
}

/// The values the targets `ts` carry out, in order.
pub open spec fn targets_values(ts: Seq<BrTarget>) -> Seq<Expr>
    decreases ts.len(),
{
    if ts.len() == 0 {
        seq![]
    } else {
        targets_values(ts.subrange(0, ts.len() - 1)) + target_values(ts[ts.len() - 1])
    }
}

/// The expressions `s` holds directly (not those of nested statements), in visiting order.
pub open spec fn direct_exprs(s: Stmt) -> Seq<Expr> {
    match s {
        Stmt::Assign { expr, .. } | Stmt::LocalSet { expr, .. } | Stmt::GlobalSet { expr, .. } => seq![expr],
        Stmt::Store { addr, value, .. } => seq![addr, value],
        Stmt::If { cond, .. } => seq![cond],
        Stmt::Br(t) => target_values(t),
        Stmt::BrIf { cond, target } => seq![cond] + target_values(target),
        Stmt::BrTable { index, targets, default } => seq![index] + targets_values(targets@) + target_values(default),
        Stmt::Return { values } => values@,
        Stmt::Call { args, .. } | Stmt::Throw { args, .. } => args@,
        Stmt::CallIndirect { index, args, .. } => seq![index] + args@,
        Stmt::MemoryGrow { delta, .. } => seq![delta],
        Stmt::MemoryCopy { dst, src, len } | Stmt::MemoryInit { dst, src, len, .. } | Stmt::TableInit {
            dst,
            src,
            len,
            ..
        } | Stmt::TableCopy { dst, src, len, .. } => seq![dst, src, len],
        Stmt::MemoryFill { dst, val, len } => seq![dst, val, len],
        Stmt::ThrowRef { exn } => seq![exn],
        _ => seq![],
    }
}

/// The temporaries `ts`, as variables.
pub open spec fn temp_vars(ts: Seq<Temp>) -> Set<Var> {
    Set::new(|v: Var| exists|i: int| 0 <= i < ts.len() && v == Var::Temp(#[trigger] ts[i]))
}

/// The sources of a branch's temp moves.
pub open spec fn assign_sources(assigns: Seq<(Temp, Temp)>) -> Set<Var> {
    Set::new(|v: Var| exists|i: int| 0 <= i < assigns.len() && v == Var::Temp(#[trigger] assigns[i].1))
}

/// The destinations of a branch's temp moves.
pub open spec fn assign_dests(assigns: Seq<(Temp, Temp)>) -> Set<Var> {
    Set::new(|v: Var| exists|i: int| 0 <= i < assigns.len() && v == Var::Temp(#[trigger] assigns[i].0))
}

/// What taking the branch `t` reads: the values it returns, or the temps it moves.
pub open spec fn target_reads(t: BrTarget) -> Set<Var> {
    match t {
        BrTarget::Return { values } => exprs_reads(values@),
        BrTarget::Label { assigns, .. } => assign_sources(assigns@),
    }
}

/// What taking the branch `t` writes: the temps it moves into.
pub open spec fn target_writes(t: BrTarget) -> Set<Var> {
    match t {
        BrTarget::Label { assigns, .. } => assign_dests(assigns@),
        _ => Set::empty(),
    }
}

/// The union of `target_reads` over `ts`.
pub open spec fn targets_reads(ts: Seq<BrTarget>) -> Set<Var>
    decreases ts.len(),
{
    if ts.len() == 0 {
        Set::empty()
    } else {
        targets_reads(ts.subrange(0, ts.len() - 1)).union(target_reads(ts[ts.len() - 1]))
    }
}

/// The union of `target_writes` over `ts`.
pub open spec fn targets_writes(ts: Seq<BrTarget>) -> Set<Var>
    decreases ts.len(),
{
    if ts.len() == 0 {
        Set::empty()
    } else {
        targets_writes(ts.subrange(0, ts.len() - 1)).union(target_writes(ts[ts.len() - 1]))
    }
}

/// What the branch targets of the catch clauses `cs` read.
pub open spec fn catches_reads(cs: Seq<CatchClause>) -> Set<Var>
    decreases cs.len(),
{
    if cs.len() == 0 {
        Set::empty()
    } else {
        catches_reads(cs.subrange(0, cs.len() - 1)).union(target_reads(cs[cs.len() - 1].target))
    }
}

/// What the catch clauses `cs` write: their payload temps and their branch moves.
pub open spec fn catches_writes(cs: Seq<CatchClause>) -> Set<Var>
    decreases cs.len(),
{
    if cs.len() == 0 {
        Set::empty()
    } else {
        let c = cs[cs.len() - 1];
        catches_writes(cs.subrange(0, cs.len() - 1)).union(temp_vars(c.value_temps@)).union(target_writes(c.target))
    }
}

/// What `s` reads through its own branches.
pub open spec fn branch_reads(s: Stmt) -> Set<Var> {
    match s {
        Stmt::Br(t) => target_reads(t),
        Stmt::BrIf { target, .. } => target_reads(target),
        Stmt::BrTable { targets, default, .. } => targets_reads(targets@).union(target_reads(default)),
        Stmt::TryTable { catches, .. } => catches_reads(catches@),
        _ => Set::empty(),
    }
}

/// The variables `s` writes itself (not its nested statements).
pub open spec fn stmt_writes(s: Stmt) -> Set<Var> {
    match s {
        Stmt::Assign { dst, .. } | Stmt::MemoryGrow { dst, .. } => set![Var::Temp(dst)],
        Stmt::LocalSet { idx, .. } => set![Var::Local(idx)],
        Stmt::Call { results, .. } | Stmt::CallIndirect { results, .. } => temp_vars(results@),
        Stmt::Br(t) => target_writes(t),
        Stmt::BrIf { target, .. } => target_writes(target),
        Stmt::BrTable { targets, default, .. } => targets_writes(targets@).union(target_writes(default)),
        Stmt::TryTable { catches, .. } => catches_writes(catches@),
        _ => Set::empty(),
    }
}

/// The variables `s` and its nested statements read.
pub open spec fn subtree_reads(s: Stmt) -> Set<Var>
    decreases s,
{
    let own = exprs_reads(direct_exprs(s)).union(branch_reads(s));
    match s {
        Stmt::Block { body, .. } | Stmt::Loop { body, .. } | Stmt::TryTable { body, .. } => own.union(seq_reads(body@)),
        Stmt::If { then, els, .. } => own.union(seq_reads(then@)).union(seq_reads(els@)),
        _ => own,
    }
}

/// The variables `stmts` read, at any depth.
pub open spec fn seq_reads(stmts: Seq<Stmt>) -> Set<Var>
    decreases stmts,
{
    if stmts.len() == 0 {
        Set::empty()
    } else {
        seq_reads(stmts.subrange(0, stmts.len() - 1)).union(subtree_reads(stmts[stmts.len() - 1]))
    }
}

/// The variables `s` and its nested statements write.
pub open spec fn subtree_writes(s: Stmt) -> Set<Var>
    decreases s,
{
    match s {
        Stmt::Block { body, .. } | Stmt::Loop { body, .. } | Stmt::TryTable { body, .. } => stmt_writes(s).union(
            seq_writes(body@),
        ),
        Stmt::If { then, els, .. } => stmt_writes(s).union(seq_writes(then@)).union(seq_writes(els@)),
        _ => stmt_writes(s),
    }
}

/// The variables `stmts` write, at any depth.
pub open spec fn seq_writes(stmts: Seq<Stmt>) -> Set<Var>
    decreases stmts,
{
    if stmts.len() == 0 {
        Set::empty()
    } else {
        seq_writes(stmts.subrange(0, stmts.len() - 1)).union(subtree_writes(stmts[stmts.len() - 1]))
    }
}

pub(crate) fn add_expr_reads(e: &Expr, out: &mut VarSet)
    ensures
        final(out)@ == old(out)@.union(expr_reads(*e)),
    decreases e,
{
    match e {
        Expr::Temp(t) => {
            out.insert(Var::Temp(*t));
            assert(out@ =~= old(out)@.union(set![Var::Temp(*t)]));
        },
        Expr::LocalGet(i) => {
            out.insert(Var::Local(*i));
            assert(out@ =~= old(out)@.union(set![Var::Local(*i)]));
        },
        Expr::Un(_, a) => add_expr_reads(a, out),
        Expr::Bin(_, a, b) => {
            add_expr_reads(a, out);
            add_expr_reads(b, out);
            assert(out@ =~= old(out)@.union(expr_reads(*e)));
        },
        Expr::Load { addr, .. } => add_expr_reads(addr, out),
        Expr::Select { cond, then, els } => {
            add_expr_reads(cond, out);
            add_expr_reads(then, out);
            add_expr_reads(els, out);
            assert(out@ =~= old(out)@.union(expr_reads(*e)));
        },
        _ => {
            assert(out@ =~= old(out)@.union(expr_reads(*e)));
        },
    }
}

pub(crate) fn add_exprs_reads(es: &[Expr], out: &mut VarSet)
    ensures
        final(out)@ == old(out)@.union(exprs_reads(es@)),
{
    let ghost start = out@;
    let mut i: usize = 0;
    assert(exprs_reads(es@.subrange(0, 0)) =~= Set::<Var>::empty());
    while i < es.len()
        invariant
            i <= es@.len(),
            out@ == start.union(exprs_reads(es@.subrange(0, i as int))),
        decreases es@.len() - i,
    {
        add_expr_reads(&es[i], out);
        proof {
            let t = es@.subrange(0, i + 1);
            assert(t.subrange(0, t.len() - 1) == es@.subrange(0, i as int));
            assert(out@ =~= start.union(exprs_reads(t)));
        }
        i = i + 1;
    }
    assert(es@.subrange(0, es@.len() as int) == es@);
}

pub(crate) proof fn lemma_exprs_reads_concat(a: Seq<Expr>, b: Seq<Expr>)
    ensures
        exprs_reads(a + b) == exprs_reads(a).union(exprs_reads(b)),
    decreases b.len(),
{
    if b.len() == 0 {
        assert(a + b == a);
        assert(exprs_reads(a).union(Set::empty()) =~= exprs_reads(a));
    } else {
        let c = a + b;
        assert(c.subrange(0, c.len() - 1) == a + b.subrange(0, b.len() - 1));
        lemma_exprs_reads_concat(a, b.subrange(0, b.len() - 1));
        assert(exprs_reads(c) =~= exprs_reads(a).union(exprs_reads(b)));
    }
}

pub(crate) proof fn lemma_exprs_reads_single(e: Expr)
    ensures
        exprs_reads(seq![e]) == expr_reads(e),
{
    assert(seq![e].subrange(0, 0).len() == 0);
    assert(exprs_reads(seq![e].subrange(0, 0)) =~= Set::<Var>::empty());
    assert(exprs_reads(seq![e]) =~= expr_reads(e));
}

fn add_target_value_reads(t: &BrTarget, out: &mut VarSet)
    ensures
        final(out)@ == old(out)@.union(exprs_reads(target_values(*t))),
{
    match t {
        BrTarget::Return { values } => add_exprs_reads(values.as_slice(), out),
        _ => {
            assert(out@ =~= old(out)@.union(exprs_reads(target_values(*t))));
        },
    }
}

fn add_targets_value_reads(ts: &[BrTarget], out: &mut VarSet)
    ensures
        final(out)@ == old(out)@.union(exprs_reads(targets_values(ts@))),
{
    let ghost start = out@;
    let mut i: usize = 0;
    assert(exprs_reads(targets_values(ts@.subrange(0, 0))) =~= Set::<Var>::empty());
    while i < ts.len()
        invariant
            i <= ts@.len(),
            out@ == start.union(exprs_reads(targets_values(ts@.subrange(0, i as int)))),
        decreases ts@.len() - i,
    {
        add_target_value_reads(&ts[i], out);
        proof {
            let t = ts@.subrange(0, i + 1);
            assert(t.subrange(0, t.len() - 1) == ts@.subrange(0, i as int));
            lemma_exprs_reads_concat(targets_values(ts@.subrange(0, i as int)), target_values(ts@[i as int]));
            assert(out@ =~= start.union(exprs_reads(targets_values(t))));
        }
        i = i + 1;
    }
    assert(ts@.subrange(0, ts@.len() as int) == ts@);
}

/// Adds what the expressions `s` holds directly read.
fn add_direct_reads(s: &Stmt, out: &mut VarSet)
    ensures
        final(out)@ == old(out)@.union(exprs_reads(direct_exprs(*s))),
{
    let ghost start = out@;
    match s {
        Stmt::Assign { expr, .. } | Stmt::LocalSet { expr, .. } | Stmt::GlobalSet { expr, .. } | Stmt::If {
            cond: expr,
            ..
        } | Stmt::MemoryGrow { delta: expr, .. } | Stmt::ThrowRef { exn: expr } => {
            proof {
                lemma_exprs_reads_single(*expr);
            }
            add_expr_reads(expr, out);
        },
        Stmt::Store { addr, value, .. } => {
            proof {
                lemma_exprs_reads_concat(seq![*addr], seq![*value]);
                lemma_exprs_reads_single(*addr);
                lemma_exprs_reads_single(*value);
                assert(seq![*addr] + seq![*value] == seq![*addr, *value]);
            }
            add_expr_reads(addr, out);
            add_expr_reads(value, out);
            assert(out@ =~= start.union(exprs_reads(direct_exprs(*s))));
        },
        Stmt::Br(t) => add_target_value_reads(t, out),
        Stmt::BrIf { cond, target } => {
            proof {
                lemma_exprs_reads_concat(seq![*cond], target_values(*target));
                lemma_exprs_reads_single(*cond);
            }
            add_expr_reads(cond, out);
            add_target_value_reads(target, out);
            assert(out@ =~= start.union(exprs_reads(direct_exprs(*s))));
        },
        Stmt::BrTable { index, targets, default } => {
            proof {
                lemma_exprs_reads_concat(seq![*index] + targets_values(targets@), target_values(*default));
                lemma_exprs_reads_concat(seq![*index], targets_values(targets@));
                lemma_exprs_reads_single(*index);
            }
            add_expr_reads(index, out);
            add_targets_value_reads(targets.as_slice(), out);
            add_target_value_reads(default, out);
            assert(out@ =~= start.union(exprs_reads(direct_exprs(*s))));
        },
        Stmt::Return { values } => add_exprs_reads(values.as_slice(), out),
        Stmt::Call { args, .. } | Stmt::Throw { args, .. } => add_exprs_reads(args.as_slice(), out),
        Stmt::CallIndirect { index, args, .. } => {
            proof {
                lemma_exprs_reads_concat(seq![*index], args@);
                lemma_exprs_reads_single(*index);
            }
            add_expr_reads(index, out);
            add_exprs_reads(args.as_slice(), out);
            assert(out@ =~= start.union(exprs_reads(direct_exprs(*s))));
        },
        Stmt::MemoryCopy { dst, src, len } | Stmt::MemoryInit { dst, src, len, .. } | Stmt::TableInit {
            dst,
            src,
            len,
            ..
        } | Stmt::TableCopy { dst, src, len, .. } | Stmt::MemoryFill { dst, val: src, len } => {
            proof {
                lemma_exprs_reads_concat(seq![*dst, *src], seq![*len]);
                lemma_exprs_reads_concat(seq![*dst], seq![*src]);
                lemma_exprs_reads_single(*dst);
                lemma_exprs_reads_single(*src);
                lemma_exprs_reads_single(*len);
                assert(seq![*dst] + seq![*src] == seq![*dst, *src]);
                assert(seq![*dst, *src] + seq![*len] == seq![*dst, *src, *len]);
            }
            add_expr_reads(dst, out);
            add_expr_reads(src, out);
            add_expr_reads(len, out);
            assert(out@ =~= start.union(exprs_reads(direct_exprs(*s))));
        },
        _ => {
            assert(out@ =~= start.union(exprs_reads(direct_exprs(*s))));
        },
    }
}

pub(crate) proof fn lemma_temp_vars_push(ts: Seq<Temp>, i: int)
    requires
        0 <= i < ts.len(),
    ensures
        temp_vars(ts.subrange(0, i + 1)) == temp_vars(ts.subrange(0, i)).insert(Var::Temp(ts[i])),
{
    let a = ts.subrange(0, i + 1);
    let b = ts.subrange(0, i);
    assert forall|v: Var| temp_vars(a).contains(v) <==> (temp_vars(b).contains(v) || v == Var::Temp(ts[i])) by {
        if temp_vars(a).contains(v) {
            let k = choose|k: int| 0 <= k < a.len() && v == Var::Temp(#[trigger] a[k]);
            if k < i {
                assert(b[k] == a[k]);
            }
        }
        if temp_vars(b).contains(v) {
            let k = choose|k: int| 0 <= k < b.len() && v == Var::Temp(#[trigger] b[k]);
            assert(a[k] == b[k]);
        }
        if v == Var::Temp(ts[i]) {
            assert(a[i] == ts[i]);
        }
    }
    assert(temp_vars(a) =~= temp_vars(b).insert(Var::Temp(ts[i])));
}

fn add_temps(ts: &[Temp], out: &mut VarSet)
    ensures
        final(out)@ == old(out)@.union(temp_vars(ts@)),
{
    let ghost start = out@;
    let mut i: usize = 0;
    assert(temp_vars(ts@.subrange(0, 0)) =~= Set::<Var>::empty());
    while i < ts.len()
        invariant
            i <= ts@.len(),
            out@ == start.union(temp_vars(ts@.subrange(0, i as int))),
        decreases ts@.len() - i,
    {
        out.insert(Var::Temp(ts[i]));
        proof {
            lemma_temp_vars_push(ts@, i as int);
            assert(out@ =~= start.union(temp_vars(ts@.subrange(0, i + 1))));
        }
        i = i + 1;
    }
    assert(ts@.subrange(0, ts@.len() as int) == ts@);
}

fn add_assign_ends(assigns: &[(Temp, Temp)], sources: bool, out: &mut VarSet)
    ensures
        final(out)@ == old(out)@.union(if sources { assign_sources(assigns@) } else { assign_dests(assigns@) }),
{
    let ghost start = out@;
    let ghost ends = if sources { assign_sources(assigns@) } else { assign_dests(assigns@) };
    let mut i: usize = 0;
    while i < assigns.len()
        invariant
            i <= assigns@.len(),
            ends == if sources { assign_sources(assigns@) } else { assign_dests(assigns@) },
            forall|v: Var| #[trigger] out@.contains(v) <==> start.contains(v) || exists|k: int| 0 <= k < i && v
                == Var::Temp(if sources { assigns@[k].1 } else { assigns@[k].0 }),
        decreases assigns@.len() - i,
    {
        let (d, src) = assigns[i];
        let t = if sources { src } else { d };
        let ghost before = out@;
        out.insert(Var::Temp(t));
        proof {
            assert forall|v: Var| #[trigger] out@.contains(v) <==> start.contains(v) || exists|k: int| 0 <= k < i + 1
                && v == Var::Temp(if sources { assigns@[k].1 } else { assigns@[k].0 }) by {
                if v == Var::Temp(t) {
                    assert(v == Var::Temp(if sources { assigns@[i as int].1 } else { assigns@[i as int].0 }));
                }
                if exists|k: int| 0 <= k < i + 1 && v == Var::Temp(if sources { assigns@[k].1 } else { assigns@[k].0 }) {
                    let k = choose|k: int| 0 <= k < i + 1 && v == Var::Temp(
                        if sources { assigns@[k].1 } else { assigns@[k].0 },
                    );
                    if k < i {
                        assert(before.contains(v));
                    }
                }
            }
        }
        i = i + 1;
    }
    proof {
        assert forall|v: Var| out@.contains(v) <==> start.union(ends).contains(v) by {
            if sources {
                if exists|k: int| 0 <= k < assigns@.len() && v == Var::Temp(assigns@[k].1) {
                    let k = choose|k: int| 0 <= k < assigns@.len() && v == Var::Temp(assigns@[k].1);
                    assert(assign_sources(assigns@).contains(v));
                }
                if assign_sources(assigns@).contains(v) {
                    let k = choose|k: int| 0 <= k < assigns@.len() && v == Var::Temp(#[trigger] assigns@[k].1);
                }
            } else {
                if exists|k: int| 0 <= k < assigns@.len() && v == Var::Temp(assigns@[k].0) {
                    let k = choose|k: int| 0 <= k < assigns@.len() && v == Var::Temp(assigns@[k].0);
                    assert(assign_dests(assigns@).contains(v));
                }
                if assign_dests(assigns@).contains(v) {
                    let k = choose|k: int| 0 <= k < assigns@.len() && v == Var::Temp(#[trigger] assigns@[k].0);
                }
            }
        }
        assert(out@ =~= start.union(ends));
    }
}

fn add_target_reads(t: &BrTarget, out: &mut VarSet)
    ensures
        final(out)@ == old(out)@.union(target_reads(*t)),
{
    match t {
        BrTarget::Return { values } => add_exprs_reads(values.as_slice(), out),
        BrTarget::Label { assigns, .. } => add_assign_ends(assigns.as_slice(), true, out),
    }
}

fn add_target_writes(t: &BrTarget, out: &mut VarSet)
    ensures
        final(out)@ == old(out)@.union(target_writes(*t)),
{
    match t {
        BrTarget::Label { assigns, .. } => add_assign_ends(assigns.as_slice(), false, out),
        _ => {
            assert(out@ =~= old(out)@.union(target_writes(*t)));
        },
    }
}

fn add_targets_rw(ts: &[BrTarget], writes: bool, out: &mut VarSet)
    ensures
        final(out)@ == old(out)@.union(if writes { targets_writes(ts@) } else { targets_reads(ts@) }),
{
    let ghost start = out@;
    let mut i: usize = 0;
    assert(targets_writes(ts@.subrange(0, 0)) =~= Set::<Var>::empty());
    assert(targets_reads(ts@.subrange(0, 0)) =~= Set::<Var>::empty());
    while i < ts.len()
        invariant
            i <= ts@.len(),
            out@ == start.union(if writes { targets_writes(ts@.subrange(0, i as int)) } else { targets_reads(ts@.subrange(0, i as int)) }),
        decreases ts@.len() - i,
    {
        if writes {
            add_target_writes(&ts[i], out);
        } else {
            add_target_reads(&ts[i], out);
        }
        proof {
            let t = ts@.subrange(0, i + 1);
            assert(t.subrange(0, t.len() - 1) == ts@.subrange(0, i as int));
            assert(out@ =~= start.union(if writes { targets_writes(t) } else { targets_reads(t) }));
        }
        i = i + 1;
    }
    assert(ts@.subrange(0, ts@.len() as int) == ts@);
}

fn add_catches_rw(cs: &[CatchClause], writes: bool, out: &mut VarSet)
    ensures
        final(out)@ == old(out)@.union(if writes { catches_writes(cs@) } else { catches_reads(cs@) }),
{
    let ghost start = out@;
    let mut i: usize = 0;
    assert(catches_writes(cs@.subrange(0, 0)) =~= Set::<Var>::empty());
    assert(catches_reads(cs@.subrange(0, 0)) =~= Set::<Var>::empty());
    while i < cs.len()
        invariant
            i <= cs@.len(),
            out@ == start.union(if writes { catches_writes(cs@.subrange(0, i as int)) } else { catches_reads(cs@.subrange(0, i as int)) }),
        decreases cs@.len() - i,
    {
        if writes {
            add_temps(cs[i].value_temps.as_slice(), out);
            add_target_writes(&cs[i].target, out);
        } else {
            add_target_reads(&cs[i].target, out);
        }
        proof {
            let t = cs@.subrange(0, i + 1);
            assert(t.subrange(0, t.len() - 1) == cs@.subrange(0, i as int));
            assert(out@ =~= start.union(if writes { catches_writes(t) } else { catches_reads(t) }));
        }
        i = i + 1;
    }
    assert(cs@.subrange(0, cs@.len() as int) == cs@);
}

fn add_branch_reads(s: &Stmt, out: &mut VarSet)
    ensures
        final(out)@ == old(out)@.union(branch_reads(*s)),
{
    match s {
        Stmt::Br(t) => add_target_reads(t, out),
        Stmt::BrIf { target, .. } => add_target_reads(target, out),
        Stmt::BrTable { targets, default, .. } => {
            add_targets_rw(targets.as_slice(), false, out);
            add_target_reads(default, out);
            assert(out@ =~= old(out)@.union(branch_reads(*s)));
        },
        Stmt::TryTable { catches, .. } => add_catches_rw(catches.as_slice(), false, out),
        _ => {
            assert(out@ =~= old(out)@.union(branch_reads(*s)));
        },
    }
}

/// Adds the variables `s` writes itself (not its nested statements).
fn add_stmt_writes(s: &Stmt, out: &mut VarSet)
    ensures
        final(out)@ == old(out)@.union(stmt_writes(*s)),
{
    match s {
        Stmt::Assign { dst, .. } | Stmt::MemoryGrow { dst, .. } => {
            out.insert(Var::Temp(*dst));
            assert(out@ =~= old(out)@.union(stmt_writes(*s)));
        },
        Stmt::LocalSet { idx, .. } => {
            out.insert(Var::Local(*idx));
            assert(out@ =~= old(out)@.union(stmt_writes(*s)));
        },
        Stmt::Call { results, .. } | Stmt::CallIndirect { results, .. } => add_temps(results.as_slice(), out),
        Stmt::Br(t) => add_target_writes(t, out),
        Stmt::BrIf { target, .. } => add_target_writes(target, out),
        Stmt::BrTable { targets, default, .. } => {
            add_targets_rw(targets.as_slice(), true, out);
            add_target_writes(default, out);
            assert(out@ =~= old(out)@.union(stmt_writes(*s)));
        },
        Stmt::TryTable { catches, .. } => add_catches_rw(catches.as_slice(), true, out),
        _ => {
            assert(out@ =~= old(out)@.union(stmt_writes(*s)));
        },
    }
}

fn collect_stmt(s: &Stmt, reads: &mut VarSet, writes: &mut VarSet)
    ensures
        final(reads)@ == old(reads)@.union(subtree_reads(*s)),
        final(writes)@ == old(writes)@.union(subtree_writes(*s)),
    decreases s,
{
    let ghost r0 = reads@;
    let ghost w0 = writes@;
    add_direct_reads(s, reads);
    add_branch_reads(s, reads);
    add_stmt_writes(s, writes);
    let ghost own = exprs_reads(direct_exprs(*s)).union(branch_reads(*s));
    assert(reads@ =~= r0.union(own));
    match s {
        Stmt::Block { body, .. } | Stmt::Loop { body, .. } | Stmt::TryTable { body, .. } => {
            collect_seq(body.as_slice(), reads, writes);
        },
        Stmt::If { then, els, .. } => {
            collect_seq(then.as_slice(), reads, writes);
            collect_seq(els.as_slice(), reads, writes);
        },
        _ => {},
    }
    assert(reads@ =~= r0.union(subtree_reads(*s)));
    assert(writes@ =~= w0.union(subtree_writes(*s)));
}

/// Adds what `stmts` read and write, at any depth.
pub fn collect_seq(stmts: &[Stmt], reads: &mut VarSet, writes: &mut VarSet)
    ensures
        final(reads)@ == old(reads)@.union(seq_reads(stmts@)),
        final(writes)@ == old(writes)@.union(seq_writes(stmts@)),
    decreases stmts@,
{
    let ghost r0 = reads@;
    let ghost w0 = writes@;
    let mut i: usize = 0;
    assert(seq_reads(stmts@.subrange(0, 0)) =~= Set::<Var>::empty());
    assert(seq_writes(stmts@.subrange(0, 0)) =~= Set::<Var>::empty());
    while i < stmts.len()
        invariant
            i <= stmts@.len(),
            reads@ == r0.union(seq_reads(stmts@.subrange(0, i as int))),
            writes@ == w0.union(seq_writes(stmts@.subrange(0, i as int))),
        decreases stmts@.len() - i,
    {
        collect_stmt(&stmts[i], reads, writes);
        proof {
            let t = stmts@.subrange(0, i + 1);
            assert(t.subrange(0, t.len() - 1) == stmts@.subrange(0, i as int));
            assert(reads@ =~= r0.union(seq_reads(t)));
            assert(writes@ =~= w0.union(seq_writes(t)));
        }
        i = i + 1;
    }
    assert(stmts@.subrange(0, stmts@.len() as int) == stmts@);
}

// ---------------------------------------------------------------------------------------------
// Reads before writes.

/// What `s` assigns on every path through it, at its top level: a temp, local or call result.
pub open spec fn straight_writes(s: Stmt) -> Set<Var> {
    match s {
        Stmt::Assign { dst, .. } | Stmt::MemoryGrow { dst, .. } => set![Var::Temp(dst)],
        Stmt::LocalSet { idx, .. } => set![Var::Local(idx)],
        Stmt::Call { results, .. } | Stmt::CallIndirect { results, .. } => temp_vars(results@),
        _ => Set::empty(),
    }
}

/// Walking `stmts` in order: the variables possibly read before assignment, and those
/// definitely assigned by straight-line statements. Anything read inside nested control flow
/// counts as possibly read first, and nothing written there counts as definite.
pub open spec fn first_reads(stmts: Seq<Stmt>) -> (Set<Var>, Set<Var>)
    decreases stmts.len(),
{
    if stmts.len() == 0 {
        (Set::empty(), Set::empty())
    } else {
        let (m, d) = first_reads(stmts.subrange(0, stmts.len() - 1));
        let s = stmts[stmts.len() - 1];
        (m.union(subtree_reads(s).difference(d)), d.union(straight_writes(s)))
    }
}

/// The variables `stmts` possibly read before assigning them, and those its straight-line
/// statements definitely assign (see [`first_reads`]).
pub fn first_read_scan(stmts: &[Stmt]) -> (r: (VarSet, VarSet))
    ensures
        (r.0@, r.1@) == first_reads(stmts@),
{
    let mut maybe = VarSet::new();
    let mut definite = VarSet::new();
    let mut i: usize = 0;
    assert(first_reads(stmts@.subrange(0, 0)) == (Set::<Var>::empty(), Set::<Var>::empty()));
    while i < stmts.len()
        invariant
            i <= stmts@.len(),
            (maybe@, definite@) == first_reads(stmts@.subrange(0, i as int)),
        decreases stmts@.len() - i,
    {
        let s = &stmts[i];
        let mut reads = VarSet::new();
        let mut nested = VarSet::new();
        collect_stmt(s, &mut reads, &mut nested);
        assert(reads@ =~= subtree_reads(*s));
        let ghost m0 = maybe@;
        let mut k: usize = 0;
        while k < reads.count()
            invariant
                k <= reads.elems().len(),
                forall|v: Var| #[trigger] maybe@.contains(v) <==> m0.contains(v) || (reads.elems().subrange(
                    0,
                    k as int,
                ).contains(v) && !definite@.contains(v)),
            decreases reads.elems().len() - k,
        {
            let v = reads.get(k);
            let ghost before = maybe@;
            if !definite.contains(v) {
                maybe.insert(v);
            }
            proof {
                let a = reads.elems().subrange(0, k + 1);
                let b = reads.elems().subrange(0, k as int);
                assert forall|x: Var| a.contains(x) <==> (b.contains(x) || x == v) by {
                    if a.contains(x) {
                        let j = choose|j: int| 0 <= j < a.len() && a[j] == x;
                        if j < k {
                            assert(b[j] == x);
                        }
                    }
                    if b.contains(x) {
                        let j = choose|j: int| 0 <= j < b.len() && b[j] == x;
                        assert(a[j] == x);
                    }
                    if x == v {
                        assert(a[k as int] == x);
                    }
                }
                assert forall|x: Var| #[trigger] maybe@.contains(x) <==> m0.contains(x) || (a.contains(x)
                    && !definite@.contains(x)) by {
                    assert(before.contains(x) <==> m0.contains(x) || (b.contains(x) && !definite@.contains(x)));
                }
            }
            k = k + 1;
        }
        proof {
            reads.lemma_finite();
            assert(reads.elems().subrange(0, reads.elems().len() as int) == reads.elems());
            assert(maybe@ =~= m0.union(subtree_reads(*s).difference(definite@)));
        }
        match s {
            Stmt::Assign { dst, .. } | Stmt::MemoryGrow { dst, .. } => definite.insert(Var::Temp(*dst)),
            Stmt::LocalSet { idx, .. } => definite.insert(Var::Local(*idx)),
            Stmt::Call { results, .. } | Stmt::CallIndirect { results, .. } => add_temps(results.as_slice(), &mut definite),
            _ => {},
        }
        proof {
            let t = stmts@.subrange(0, i + 1);
            assert(t.subrange(0, t.len() - 1) == stmts@.subrange(0, i as int));
            assert(t[t.len() - 1] == *s);
            assert(definite@ =~= first_reads(t).1);
        }
        i = i + 1;
    }
    assert(stmts@.subrange(0, stmts@.len() as int) == stmts@);
    (maybe, definite)
}

// ---------------------------------------------------------------------------------------------
// Branch closure.

/// Whether taking `t` stays inside the frames `scope`: it lands on one of them, never out of
/// the function.
pub open spec fn target_in(t: BrTarget, scope: Set<u32>) -> bool {
    match t {
        BrTarget::Return { .. } => false,
        BrTarget::Label { label, .. } => scope.contains(label),
    }
}

/// Whether every target of `ts` stays inside `scope`.
pub open spec fn targets_in(ts: Seq<BrTarget>, scope: Set<u32>) -> bool {
    forall|i: int| 0 <= i < ts.len() ==> target_in(#[trigger] ts[i], scope)
}

/// Whether every catch target of `cs` stays inside `scope`.
pub open spec fn catches_in(cs: Seq<CatchClause>, scope: Set<u32>) -> bool {
    forall|i: int| 0 <= i < cs.len() ==> target_in(#[trigger] cs[i].target, scope)
}

/// The label a frame opens, if `s` is one.
pub open spec fn frame_label(s: Stmt) -> Option<u32> {
    match s {
        Stmt::Block { label, .. } | Stmt::Loop { label, .. } | Stmt::If { label, .. } | Stmt::TryTable { label, .. } =>
            Some(label.id),
        _ => None,
    }
}

/// Whether every branch of `s` and its nested statements lands on a frame of `scope` or one
/// opened inside `s`, and nothing in it returns. Catch targets are resolved outside their
/// `try_table`'s own frame.
pub open spec fn closed_in(s: Stmt, scope: Set<u32>) -> bool
    decreases s,
{
    let own = match s {
        Stmt::Br(t) => target_in(t, scope),
        Stmt::BrIf { target, .. } => target_in(target, scope),
        Stmt::BrTable { targets, default, .. } => targets_in(targets@, scope) && target_in(default, scope),
        Stmt::Return { .. } => false,
        Stmt::TryTable { catches, .. } => catches_in(catches@, scope),
        _ => true,
    };
    let inner = match frame_label(s) {
        Some(l) => scope.insert(l),
        None => scope,
    };
    own && match s {
        Stmt::Block { body, .. } | Stmt::Loop { body, .. } | Stmt::TryTable { body, .. } => seq_closed_in(body@, inner),
        Stmt::If { then, els, .. } => seq_closed_in(then@, inner) && seq_closed_in(els@, inner),
        _ => true,
    }
}

/// Whether every statement of `stmts` is closed in `scope`.
pub open spec fn seq_closed_in(stmts: Seq<Stmt>, scope: Set<u32>) -> bool
    decreases stmts,
{
    if stmts.len() == 0 {
        true
    } else {
        seq_closed_in(stmts.subrange(0, stmts.len() - 1), scope) && closed_in(stmts[stmts.len() - 1], scope)
    }
}

fn scope_has(scope: &Vec<u32>, l: u32) -> (r: bool)
    ensures
        r == scope@.contains(l),
{
    let mut i: usize = 0;
    while i < scope.len()
        invariant
            i <= scope@.len(),
            forall|j: int| 0 <= j < i ==> scope@[j] != l,
        decreases scope@.len() - i,
    {
        if scope[i] == l {
            assert(scope@[i as int] == l);
            return true;
        }
        i = i + 1;
    }
    false
}

fn target_in_exec(t: &BrTarget, scope: &Vec<u32>) -> (r: bool)
    ensures
        r == target_in(*t, scope@.to_set()),
{
    match t {
        BrTarget::Return { .. } => false,
        BrTarget::Label { label, .. } => scope_has(scope, *label),
    }
}

fn closed_go(s: &Stmt, scope: &mut Vec<u32>) -> (r: bool)
    ensures
        r == closed_in(*s, old(scope)@.to_set()),
        final(scope)@ == old(scope)@,
    decreases s,
{
    let ghost sc = scope@.to_set();
    let own = match s {
        Stmt::Br(t) => target_in_exec(t, scope),
        Stmt::BrIf { target, .. } => target_in_exec(target, scope),
        Stmt::BrTable { targets, default, .. } => {
            let mut ok = true;
            let mut i: usize = 0;
            while i < targets.len()
                invariant
                    i <= targets@.len(),
                    sc == scope@.to_set(),
                    ok == forall|j: int| 0 <= j < i ==> target_in(#[trigger] targets@[j], sc),
                decreases targets@.len() - i,
            {
                if !target_in_exec(&targets[i], scope) {
                    ok = false;
                }
                i = i + 1;
            }
            ok && target_in_exec(default, scope)
        },
        Stmt::Return { .. } => false,
        Stmt::TryTable { catches, .. } => {
            let mut ok = true;
            let mut i: usize = 0;
            while i < catches.len()
                invariant
                    i <= catches@.len(),
                    sc == scope@.to_set(),
                    ok == forall|j: int| 0 <= j < i ==> target_in(#[trigger] catches@[j].target, sc),
                decreases catches@.len() - i,
            {
                if !target_in_exec(&catches[i].target, scope) {
                    ok = false;
                }
                i = i + 1;
            }
            ok
        },
        _ => true,
    };
    if !own {
        return false;
    }
    let label = match s {
        Stmt::Block { label, .. } | Stmt::Loop { label, .. } | Stmt::If { label, .. } | Stmt::TryTable { label, .. } =>
            Some(label.id),
        _ => None,
    };
    let ghost before = scope@;
    match label {
        Some(id) => {
            scope.push(id);
            assert(sc == before.to_set());
            proof {
                assert forall|x: u32| scope@.contains(x) <==> (before.contains(x) || x == id) by {
                    if scope@.contains(x) {
                        let k = choose|k: int| 0 <= k < scope@.len() && scope@[k] == x;
                        if k < before.len() {
                            assert(before[k] == x);
                        }
                    }
                    if before.contains(x) {
                        let k = choose|k: int| 0 <= k < before.len() && before[k] == x;
                        assert(scope@[k] == x);
                    }
                    if x == id {
                        assert(scope@[before.len() as int] == x);
                    }
                }
                assert forall|x: u32| scope@.to_set().contains(x) <==> sc.insert(id).contains(x) by {
                    assert(scope@.to_set().contains(x) == scope@.contains(x));
                    assert(before.to_set().contains(x) == before.contains(x));
                }
                assert(scope@.to_set() =~= sc.insert(id));
            }
        },
        None => {},
    }
    let ok = match s {
        Stmt::Block { body, .. } | Stmt::Loop { body, .. } | Stmt::TryTable { body, .. } => seq_closed(body.as_slice(), scope),
        Stmt::If { then, els, .. } => seq_closed(then.as_slice(), scope) && seq_closed(els.as_slice(), scope),
        _ => true,
    };
    match label {
        Some(_) => {
            scope.pop();
            assert(scope@ =~= before);
        },
        None => {},
    }
    ok
}

fn seq_closed(stmts: &[Stmt], scope: &mut Vec<u32>) -> (r: bool)
    ensures
        r == seq_closed_in(stmts@, old(scope)@.to_set()),
        final(scope)@ == old(scope)@,
    decreases stmts@,
{
    let ghost sc = scope@;
    let mut i: usize = 0;
    let mut ok = true;
    while i < stmts.len()
        invariant
            i <= stmts@.len(),
            scope@ == sc,
            ok == seq_closed_in(stmts@.subrange(0, i as int), sc.to_set()),
        decreases stmts@.len() - i,
    {
        let c = closed_go(&stmts[i], scope);
        proof {
            let t = stmts@.subrange(0, i + 1);
            assert(t.subrange(0, t.len() - 1) == stmts@.subrange(0, i as int));
        }
        ok = ok && c;
        i = i + 1;
    }
    assert(stmts@.subrange(0, stmts@.len() as int) == stmts@);
    ok
}

/// Whether every branch inside `stmt` lands on a frame opened inside `stmt` itself, and nothing
/// in it returns: a statement that is not pins an extraction boundary in front of it.
pub fn closed(stmt: &Stmt) -> (r: bool)
    ensures
        r == closed_in(*stmt, Set::empty()),
{
    let mut scope: Vec<u32> = Vec::new();
    assert(scope@.to_set() =~= Set::<u32>::empty());
    closed_go(stmt, &mut scope)
}

// ---------------------------------------------------------------------------------------------
// Size.

/// The number of IR nodes of `e`.
pub open spec fn expr_weight(e: Expr) -> nat
    decreases e,
{
    1 + match e {
        Expr::Un(_, a) => expr_weight(*a),
        Expr::Bin(_, a, b) => expr_weight(*a) + expr_weight(*b),
        Expr::Load { addr, .. } => expr_weight(*addr),
        Expr::Select { cond, then, els } => expr_weight(*cond) + expr_weight(*then) + expr_weight(*els),
        _ => 0,
    }
}

/// The number of IR nodes of the expressions `es`.
pub open spec fn exprs_weight(es: Seq<Expr>) -> nat
    decreases es.len(),
{
    if es.len() == 0 {
        0
    } else {
        exprs_weight(es.subrange(0, es.len() - 1)) + expr_weight(es[es.len() - 1])
    }
}

/// The number of IR nodes of `s`: itself, the expressions it holds directly, and its nested
/// statements.
pub open spec fn stmt_weight(s: Stmt) -> nat
    decreases s,
{
    1 + exprs_weight(direct_exprs(s)) + match s {
        Stmt::Block { body, .. } | Stmt::Loop { body, .. } | Stmt::TryTable { body, .. } => seq_weight(body@),
        Stmt::If { then, els, .. } => seq_weight(then@) + seq_weight(els@),
        _ => 0,
    }
}

/// The number of IR nodes of `stmts`.
pub open spec fn seq_weight(stmts: Seq<Stmt>) -> nat
    decreases stmts,
{
    if stmts.len() == 0 {
        0
    } else {
        seq_weight(stmts.subrange(0, stmts.len() - 1)) + stmt_weight(stmts[stmts.len() - 1])
    }
}

// ---------------------------------------------------------------------------------------------
// Exceptions.

/// Whether running `s` can raise a wasm exception: it is or holds a call or a throw.
pub open spec fn stmt_may_throw(s: Stmt) -> bool
    decreases s,
{
    match s {
        Stmt::Call { .. } | Stmt::CallIndirect { .. } | Stmt::Throw { .. } | Stmt::ThrowRef { .. } => true,
        Stmt::Block { body, .. } | Stmt::Loop { body, .. } | Stmt::TryTable { body, .. } => seq_may_throw(body@),
        Stmt::If { then, els, .. } => seq_may_throw(then@) || seq_may_throw(els@),
        _ => false,
    }
}

/// Whether any statement of `stmts` can raise a wasm exception.
pub open spec fn seq_may_throw(stmts: Seq<Stmt>) -> bool
    decreases stmts,
{
    if stmts.len() == 0 {
        false
    } else {
        seq_may_throw(stmts.subrange(0, stmts.len() - 1)) || stmt_may_throw(stmts[stmts.len() - 1])
    }
}

fn stmt_may_throw_exec(s: &Stmt) -> (r: bool)
    ensures
        r == stmt_may_throw(*s),
    decreases s,
{
    match s {
        Stmt::Call { .. } | Stmt::CallIndirect { .. } | Stmt::Throw { .. } | Stmt::ThrowRef { .. } => true,
        Stmt::Block { body, .. } | Stmt::Loop { body, .. } | Stmt::TryTable { body, .. } => may_throw(body.as_slice()),
        Stmt::If { then, els, .. } => may_throw(then.as_slice()) || may_throw(els.as_slice()),
        _ => false,
    }
}

/// Whether executing `stmts` can raise a wasm exception (not a trap: traps unwind the whole
/// program and expose no locals).
pub fn may_throw(stmts: &[Stmt]) -> (r: bool)
    ensures
        r == seq_may_throw(stmts@),
    decreases stmts@,
{
    let mut i: usize = 0;
    let mut found = false;
    while i < stmts.len()
        invariant
            i <= stmts@.len(),
            found == seq_may_throw(stmts@.subrange(0, i as int)),
        decreases stmts@.len() - i,
    {
        let u = stmt_may_throw_exec(&stmts[i]);
        proof {
            let t = stmts@.subrange(0, i + 1);
            assert(t.subrange(0, t.len() - 1) == stmts@.subrange(0, i as int));
        }
        found = found || u;
        i = i + 1;
    }
    assert(stmts@.subrange(0, stmts@.len() as int) == stmts@);
    found
}

// ---------------------------------------------------------------------------------------------
// Finiteness.

proof fn lemma_expr_reads_finite(e: Expr)
    ensures
        expr_reads(e).finite(),
    decreases e,
{
    match e {
        Expr::Un(_, a) => lemma_expr_reads_finite(*a),
        Expr::Bin(_, a, b) => {
            lemma_expr_reads_finite(*a);
            lemma_expr_reads_finite(*b);
        },
        Expr::Load { addr, .. } => lemma_expr_reads_finite(*addr),
        Expr::Select { cond, then, els } => {
            lemma_expr_reads_finite(*cond);
            lemma_expr_reads_finite(*then);
            lemma_expr_reads_finite(*els);
        },
        _ => {},
    }
}

proof fn lemma_exprs_reads_finite(es: Seq<Expr>)
    ensures
        exprs_reads(es).finite(),
    decreases es.len(),
{
    if es.len() > 0 {
        lemma_exprs_reads_finite(es.subrange(0, es.len() - 1));
        lemma_expr_reads_finite(es[es.len() - 1]);
    }
}

proof fn lemma_temp_vars_finite(ts: Seq<Temp>)
    ensures
        temp_vars(ts).finite(),
{
    let all = ts.map_values(|t: Temp| Var::Temp(t)).to_set();
    vstd::seq_lib::seq_to_set_is_finite(ts.map_values(|t: Temp| Var::Temp(t)));
    assert forall|v: Var| temp_vars(ts).contains(v) implies all.contains(v) by {
        let k = choose|k: int| 0 <= k < ts.len() && v == Var::Temp(#[trigger] ts[k]);
        assert(ts.map_values(|t: Temp| Var::Temp(t))[k] == v);
    }
    vstd::set_lib::lemma_set_subset_finite(all, temp_vars(ts));
}

proof fn lemma_assign_sources_finite(assigns: Seq<(Temp, Temp)>)
    ensures
        assign_sources(assigns).finite(),
{
    let all = assigns.map_values(|p: (Temp, Temp)| Var::Temp(p.1)).to_set();
    vstd::seq_lib::seq_to_set_is_finite(assigns.map_values(|p: (Temp, Temp)| Var::Temp(p.1)));
    assert forall|v: Var| assign_sources(assigns).contains(v) implies all.contains(v) by {
        let k = choose|k: int| 0 <= k < assigns.len() && v == Var::Temp(#[trigger] assigns[k].1);
        assert(assigns.map_values(|p: (Temp, Temp)| Var::Temp(p.1))[k] == v);
    }
    vstd::set_lib::lemma_set_subset_finite(all, assign_sources(assigns));
}

proof fn lemma_target_reads_finite(t: BrTarget)
    ensures
        target_reads(t).finite(),
{
    match t {
        BrTarget::Return { values } => lemma_exprs_reads_finite(values@),
        BrTarget::Label { assigns, .. } => lemma_assign_sources_finite(assigns@),
    }
}

proof fn lemma_targets_reads_finite(ts: Seq<BrTarget>)
    ensures
        targets_reads(ts).finite(),
    decreases ts.len(),
{
    if ts.len() > 0 {
        lemma_targets_reads_finite(ts.subrange(0, ts.len() - 1));
        lemma_target_reads_finite(ts[ts.len() - 1]);
    }
}

proof fn lemma_catches_reads_finite(cs: Seq<CatchClause>)
    ensures
        catches_reads(cs).finite(),
    decreases cs.len(),
{
    if cs.len() > 0 {
        lemma_catches_reads_finite(cs.subrange(0, cs.len() - 1));
        lemma_target_reads_finite(cs[cs.len() - 1].target);
    }
}

/// What a statement reads, at any depth, is finite.
pub proof fn lemma_subtree_reads_finite(s: Stmt)
    ensures
        subtree_reads(s).finite(),
    decreases s,
{
    lemma_exprs_reads_finite(direct_exprs(s));
    match s {
        Stmt::Br(t) => lemma_target_reads_finite(t),
        Stmt::BrIf { target, .. } => lemma_target_reads_finite(target),
        Stmt::BrTable { targets, default, .. } => {
            lemma_targets_reads_finite(targets@);
            lemma_target_reads_finite(default);
        },
        Stmt::TryTable { catches, body, .. } => {
            lemma_catches_reads_finite(catches@);
            lemma_seq_reads_finite(body@);
        },
        Stmt::Block { body, .. } | Stmt::Loop { body, .. } => lemma_seq_reads_finite(body@),
        Stmt::If { then, els, .. } => {
            lemma_seq_reads_finite(then@);
            lemma_seq_reads_finite(els@);
        },
        _ => {},
    }
}

/// What a sequence reads, at any depth, is finite.
pub proof fn lemma_seq_reads_finite(stmts: Seq<Stmt>)
    ensures
        seq_reads(stmts).finite(),
    decreases stmts,
{
    if stmts.len() > 0 {
        lemma_seq_reads_finite(stmts.subrange(0, stmts.len() - 1));
        lemma_subtree_reads_finite(stmts[stmts.len() - 1]);
    }
}

// ---------------------------------------------------------------------------------------------
// Size, computed.

/// `n`, or `u32::MAX` when it does not fit.
pub open spec fn sat(n: nat) -> u32 {
    if n <= u32::MAX {
        n as u32
    } else {
        u32::MAX
    }
}

proof fn lemma_exprs_weight_concat(a: Seq<Expr>, b: Seq<Expr>)
    ensures
        exprs_weight(a + b) == exprs_weight(a) + exprs_weight(b),
    decreases b.len(),
{
    if b.len() == 0 {
        assert(a + b =~= a);
    } else {
        let c = a + b;
        assert(c.subrange(0, c.len() - 1) =~= a + b.subrange(0, b.len() - 1));
        assert(c[c.len() - 1] == b[b.len() - 1]);
        lemma_exprs_weight_concat(a, b.subrange(0, b.len() - 1));
    }
}

proof fn lemma_exprs_weight_single(e: Expr)
    ensures
        exprs_weight(seq![e]) == expr_weight(e),
{
    assert(seq![e].subrange(0, 0) =~= Seq::<Expr>::empty());
    assert(exprs_weight(seq![e].subrange(0, 0)) == 0);
    assert(seq![e][0] == e);
}

fn expr_weight_exec(e: &Expr) -> (r: u32)
    ensures
        r == sat(expr_weight(*e)),
    decreases e,
{
    match e {
        Expr::Un(_, a) => 1u32.saturating_add(expr_weight_exec(a)),
        Expr::Bin(_, a, b) => 1u32.saturating_add(expr_weight_exec(a).saturating_add(expr_weight_exec(b))),
        Expr::Load { addr, .. } => 1u32.saturating_add(expr_weight_exec(addr)),
        Expr::Select { cond, then, els } => 1u32.saturating_add(
            expr_weight_exec(cond).saturating_add(expr_weight_exec(then)).saturating_add(expr_weight_exec(els)),
        ),
        _ => 1,
    }
}

fn exprs_weight_exec(es: &[Expr]) -> (r: u32)
    ensures
        r == sat(exprs_weight(es@)),
{
    let mut w: u32 = 0;
    let mut i: usize = 0;
    while i < es.len()
        invariant
            i <= es@.len(),
            w == sat(exprs_weight(es@.subrange(0, i as int))),
        decreases es@.len() - i,
    {
        let x = expr_weight_exec(&es[i]);
        proof {
            let t = es@.subrange(0, i + 1);
            assert(t.subrange(0, t.len() - 1) =~= es@.subrange(0, i as int));
        }
        w = w.saturating_add(x);
        i = i + 1;
    }
    assert(es@.subrange(0, es@.len() as int) =~= es@);
    w
}

fn target_weight_exec(t: &BrTarget) -> (r: u32)
    ensures
        r == sat(exprs_weight(target_values(*t))),
{
    match t {
        BrTarget::Return { values } => exprs_weight_exec(values.as_slice()),
        _ => 0,
    }
}

fn targets_weight_exec(ts: &[BrTarget]) -> (r: u32)
    ensures
        r == sat(exprs_weight(targets_values(ts@))),
{
    let mut w: u32 = 0;
    let mut i: usize = 0;
    assert(targets_values(ts@.subrange(0, 0)) =~= Seq::<Expr>::empty());
    while i < ts.len()
        invariant
            i <= ts@.len(),
            w == sat(exprs_weight(targets_values(ts@.subrange(0, i as int)))),
        decreases ts@.len() - i,
    {
        let x = target_weight_exec(&ts[i]);
        proof {
            let t = ts@.subrange(0, i + 1);
            assert(t.subrange(0, t.len() - 1) =~= ts@.subrange(0, i as int));
            lemma_exprs_weight_concat(targets_values(ts@.subrange(0, i as int)), target_values(ts@[i as int]));
        }
        w = w.saturating_add(x);
        i = i + 1;
    }
    assert(ts@.subrange(0, ts@.len() as int) =~= ts@);
    w
}

/// The weight of the expressions `s` holds directly.
fn direct_weight_exec(s: &Stmt) -> (r: u32)
    ensures
        r == sat(exprs_weight(direct_exprs(*s))),
{
    match s {
        Stmt::Assign { expr, .. } | Stmt::LocalSet { expr, .. } | Stmt::GlobalSet { expr, .. } | Stmt::If {
            cond: expr,
            ..
        } | Stmt::MemoryGrow { delta: expr, .. } | Stmt::ThrowRef { exn: expr } => {
            proof {
                lemma_exprs_weight_single(*expr);
            }
            expr_weight_exec(expr)
        },
        Stmt::Store { addr, value, .. } => {
            proof {
                lemma_exprs_weight_concat(seq![*addr], seq![*value]);
                lemma_exprs_weight_single(*addr);
                lemma_exprs_weight_single(*value);
                assert(seq![*addr] + seq![*value] =~= seq![*addr, *value]);
            }
            expr_weight_exec(addr).saturating_add(expr_weight_exec(value))
        },
        Stmt::Br(t) => target_weight_exec(t),
        Stmt::BrIf { cond, target } => {
            proof {
                lemma_exprs_weight_concat(seq![*cond], target_values(*target));
                lemma_exprs_weight_single(*cond);
            }
            expr_weight_exec(cond).saturating_add(target_weight_exec(target))
        },
        Stmt::BrTable { index, targets, default } => {
            proof {
                lemma_exprs_weight_concat(seq![*index] + targets_values(targets@), target_values(*default));
                lemma_exprs_weight_concat(seq![*index], targets_values(targets@));
                lemma_exprs_weight_single(*index);
            }
            expr_weight_exec(index).saturating_add(targets_weight_exec(targets.as_slice())).saturating_add(
                target_weight_exec(default),
            )
        },
        Stmt::Return { values } => exprs_weight_exec(values.as_slice()),
        Stmt::Call { args, .. } | Stmt::Throw { args, .. } => exprs_weight_exec(args.as_slice()),
        Stmt::CallIndirect { index, args, .. } => {
            proof {
                lemma_exprs_weight_concat(seq![*index], args@);
                lemma_exprs_weight_single(*index);
            }
            expr_weight_exec(index).saturating_add(exprs_weight_exec(args.as_slice()))
        },
        Stmt::MemoryCopy { dst, src, len } | Stmt::MemoryInit { dst, src, len, .. } | Stmt::TableInit {
            dst,
            src,
            len,
            ..
        } | Stmt::TableCopy { dst, src, len, .. } | Stmt::MemoryFill { dst, val: src, len } => {
            proof {
                lemma_exprs_weight_concat(seq![*dst, *src], seq![*len]);
                lemma_exprs_weight_concat(seq![*dst], seq![*src]);
                lemma_exprs_weight_single(*dst);
                lemma_exprs_weight_single(*src);
                lemma_exprs_weight_single(*len);
                assert(seq![*dst] + seq![*src] =~= seq![*dst, *src]);
                assert(seq![*dst, *src] + seq![*len] =~= seq![*dst, *src, *len]);
            }
            expr_weight_exec(dst).saturating_add(expr_weight_exec(src)).saturating_add(expr_weight_exec(len))
        },
        _ => {
            assert(direct_exprs(*s) =~= Seq::<Expr>::empty());
            0
        },
    }
}

/// The size of `s` in IR nodes, saturating at `u32::MAX`.
pub fn stmt_weight_exec(s: &Stmt) -> (r: u32)
    ensures
        r == sat(stmt_weight(*s)),
    decreases s,
{
    let own = 1u32.saturating_add(direct_weight_exec(s));
    match s {
        Stmt::Block { body, .. } | Stmt::Loop { body, .. } | Stmt::TryTable { body, .. } => own.saturating_add(
            seq_weight_exec(body.as_slice()),
        ),
        Stmt::If { then, els, .. } => own.saturating_add(seq_weight_exec(then.as_slice())).saturating_add(
            seq_weight_exec(els.as_slice()),
        ),
        _ => own,
    }
}

/// The size of `stmts` in IR nodes, saturating at `u32::MAX`.
pub fn seq_weight_exec(stmts: &[Stmt]) -> (r: u32)
    ensures
        r == sat(seq_weight(stmts@)),
    decreases stmts@,
{
    let mut w: u32 = 0;
    let mut i: usize = 0;
    while i < stmts.len()
        invariant
            i <= stmts@.len(),
            w == sat(seq_weight(stmts@.subrange(0, i as int))),
        decreases stmts@.len() - i,
    {
        let x = stmt_weight_exec(&stmts[i]);
        proof {
            let t = stmts@.subrange(0, i + 1);
            assert(t.subrange(0, t.len() - 1) =~= stmts@.subrange(0, i as int));
        }
        w = w.saturating_add(x);
        i = i + 1;
    }
    assert(stmts@.subrange(0, stmts@.len() as int) =~= stmts@);
    w
}

} // verus!
