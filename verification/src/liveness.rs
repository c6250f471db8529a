//! Backward may-liveness over a structured function body.
//!
//! A variable is live at a point when some path from there reads it before writing it. Branches
//! continue at their label's live set (after the frame for blocks, ifs and try_tables, at the
//! head for loops); a loop's head is the least fixpoint of its body's liveness; a call or a throw
//! keeps live whatever an enclosing catch handler needs. For every loop body the analysis also
//! records the live set at each leading top-level boundary, the only program points loop-body
//! outlining asks about.
use vstd::prelude::*;

use crate::ir::{BrTarget, CatchClause, Func, Stmt, Temp};
use crate::regions::{
    assign_sources, catches_reads, direct_exprs, exprs_reads, expr_reads, seq_reads, subtree_reads, target_reads,
    targets_reads, temp_vars, branch_reads, lemma_temp_vars_push, lemma_exprs_reads_concat, lemma_exprs_reads_single,
    target_values, targets_values, add_expr_reads, add_exprs_reads, lemma_subtree_reads_finite,
};
use crate::varset::{Var, VarSet};

verus! {

/// The label environment: the live set at each enclosing frame's continuation, innermost last.
pub type Env = Seq<(u32, Set<Var>)>;

/// The live set bound to `id`, the innermost binding; empty when none is.
pub open spec fn lookup(env: Env, id: u32) -> Set<Var>
    decreases env.len(),
{
    if env.len() == 0 {
        Set::empty()
    } else if env.last().0 == id {
        env.last().1
    } else {
        lookup(env.drop_last(), id)
    }
}

/// The live set before a branch's temp moves, given `l` live at its target: each move, last
/// first, kills its destination and reads its source.
pub open spec fn before_moves(assigns: Seq<(Temp, Temp)>, l: Set<Var>) -> Set<Var>
    decreases assigns.len(),
{
    if assigns.len() == 0 {
        l
    } else {
        let (dst, src) = assigns.last();
        before_moves(assigns.drop_last(), l.remove(Var::Temp(dst)).insert(Var::Temp(src)))
    }
}

/// What is live where the branch `t` is taken.
pub open spec fn target_live(t: BrTarget, env: Env) -> Set<Var> {
    match t {
        BrTarget::Return { values } => exprs_reads(values@),
        BrTarget::Label { label, assigns, .. } => before_moves(assigns@, lookup(env, label)),
    }
}

/// The union of `target_live` over `ts`.
pub open spec fn targets_live(ts: Seq<BrTarget>, env: Env) -> Set<Var>
    decreases ts.len(),
{
    if ts.len() == 0 {
        Set::empty()
    } else {
        targets_live(ts.subrange(0, ts.len() - 1), env).union(target_live(ts[ts.len() - 1], env))
    }
}

/// What the catch clauses `cs` need live: each target's live set without the temps the clause
/// itself fills.
pub open spec fn catches_live(cs: Seq<CatchClause>, env: Env) -> Set<Var>
    decreases cs.len(),
{
    if cs.len() == 0 {
        Set::empty()
    } else {
        let c = cs[cs.len() - 1];
        catches_live(cs.subrange(0, cs.len() - 1), env).union(target_live(c.target, env).difference(
            temp_vars(c.value_temps@),
        ))
    }
}

/// The live set before `s`, given `live` after it, the label environment `env`, and `c` what an
/// exception thrown here may expose.
pub open spec fn live_stmt(s: Stmt, env: Env, c: Set<Var>, live: Set<Var>) -> Set<Var>
    decreases s, 0int,
{
    match s {
        Stmt::Assign { dst, expr } => live.remove(Var::Temp(dst)).union(expr_reads(expr)),
        Stmt::LocalSet { idx, expr } => live.remove(Var::Local(idx)).union(expr_reads(expr)),
        Stmt::GlobalSet { expr, .. } => live.union(expr_reads(expr)),
        Stmt::Store { addr, value, .. } => live.union(expr_reads(addr)).union(expr_reads(value)),
        Stmt::Call { args, results, .. } => live.difference(temp_vars(results@)).union(c).union(exprs_reads(args@)),
        Stmt::CallIndirect { index, args, results, .. } => live.difference(temp_vars(results@)).union(c).union(
            expr_reads(index),
        ).union(exprs_reads(args@)),
        Stmt::MemoryGrow { dst, delta } => live.remove(Var::Temp(dst)).union(expr_reads(delta)),
        Stmt::MemoryCopy { dst, src, len } | Stmt::MemoryInit { dst, src, len, .. } | Stmt::TableInit {
            dst,
            src,
            len,
            ..
        } | Stmt::TableCopy { dst, src, len, .. } | Stmt::MemoryFill { dst, val: src, len } => live.union(
            expr_reads(dst),
        ).union(expr_reads(src)).union(expr_reads(len)),
        Stmt::Block { label, body } => live_seq(body@, env.push((label.id, live)), c, live),
        Stmt::Loop { label, body } => loop_head(label.id, body@, env, c, live),
        Stmt::If { label, cond, then, els } => {
            let inner = env.push((label.id, live));
            live_seq(then@, inner, c, live).union(live_seq(els@, inner, c, live)).union(expr_reads(cond))
        },
        Stmt::Br(t) => target_live(t, env),
        Stmt::BrIf { cond, target } => live.union(target_live(target, env)).union(expr_reads(cond)),
        Stmt::BrTable { index, targets, default } => targets_live(targets@, env).union(target_live(default, env)).union(
            expr_reads(index),
        ),
        Stmt::Return { values } => exprs_reads(values@),
        Stmt::TryTable { label, catches, body } => {
            let inner = env.push((label.id, live));
            live_seq(body@, inner, c.union(catches_live(catches@, inner)), live)
        },
        Stmt::Throw { args, .. } => c.union(exprs_reads(args@)),
        Stmt::ThrowRef { exn } => c.union(expr_reads(exn)),
        Stmt::Unreachable => Set::empty(),
        _ => live,
    }
}

/// The live set before `stmts`, given `after` live at their fall-through exit: the first
/// statement's live set before it, given the rest's.
pub open spec fn live_seq(stmts: Seq<Stmt>, env: Env, c: Set<Var>, after: Set<Var>) -> Set<Var>
    decreases stmts, 0int,
{
    if stmts.len() == 0 {
        after
    } else {
        live_stmt(stmts[0], env, c, live_seq(stmts.subrange(1, stmts.len() as int), env, c, after))
    }
}

/// The loop body's liveness as a function of the live set `g` assumed at the loop head.
pub open spec fn head_step(label: u32, body: Seq<Stmt>, env: Env, c: Set<Var>, live: Set<Var>, g: Set<Var>) -> Set<Var> {
    live_seq(body, env.push((label, g)), c, live)
}

/// The live set at a loop's head: the least fixpoint of [`head_step`], the intersection of
/// every set it maps into itself.
pub open spec fn loop_head(label: u32, body: Seq<Stmt>, env: Env, c: Set<Var>, live: Set<Var>) -> Set<Var>
    decreases body, 1int,
{
    Set::new(
        |x: Var|
            forall|g: Set<Var>| live_seq(body, env.push((label, g)), c, live).subset_of(g) ==> #[trigger] g.contains(x),
    )
}

/// Membership in the loop head, unfolded.
proof fn lemma_loop_head_contains(label: u32, body: Seq<Stmt>, env: Env, c: Set<Var>, live: Set<Var>, x: Var)
    ensures
        loop_head(label, body, env, c, live).contains(x) <==> (forall|g: Set<Var>|
            head_step(label, body, env, c, live, g).subset_of(g) ==> #[trigger] g.contains(x)),
{
}

// ---------------------------------------------------------------------------------------------
// Monotonicity.

/// Whether `e1` binds the same labels as `e2`, in the same order, to subsets.
pub open spec fn env_le(e1: Env, e2: Env) -> bool {
    &&& e1.len() == e2.len()
    &&& forall|i: int| 0 <= i < e1.len() ==> (#[trigger] e1[i]).0 == e2[i].0 && e1[i].1.subset_of(e2[i].1)
}

proof fn lemma_lookup_le(e1: Env, e2: Env, id: u32)
    requires
        env_le(e1, e2),
    ensures
        lookup(e1, id).subset_of(lookup(e2, id)),
    decreases e1.len(),
{
    if e1.len() > 0 {
        assert(e1.last() == e1[e1.len() - 1]);
        assert(env_le(e1.drop_last(), e2.drop_last()));
        lemma_lookup_le(e1.drop_last(), e2.drop_last(), id);
    }
}

proof fn lemma_before_moves_le(assigns: Seq<(Temp, Temp)>, l1: Set<Var>, l2: Set<Var>)
    requires
        l1.subset_of(l2),
    ensures
        before_moves(assigns, l1).subset_of(before_moves(assigns, l2)),
    decreases assigns.len(),
{
    if assigns.len() > 0 {
        let (dst, src) = assigns.last();
        lemma_before_moves_le(
            assigns.drop_last(),
            l1.remove(Var::Temp(dst)).insert(Var::Temp(src)),
            l2.remove(Var::Temp(dst)).insert(Var::Temp(src)),
        );
    }
}

proof fn lemma_target_live_le(t: BrTarget, e1: Env, e2: Env)
    requires
        env_le(e1, e2),
    ensures
        target_live(t, e1).subset_of(target_live(t, e2)),
{
    match t {
        BrTarget::Label { label, assigns, .. } => {
            lemma_lookup_le(e1, e2, label);
            lemma_before_moves_le(assigns@, lookup(e1, label), lookup(e2, label));
        },
        _ => {},
    }
}

proof fn lemma_targets_live_le(ts: Seq<BrTarget>, e1: Env, e2: Env)
    requires
        env_le(e1, e2),
    ensures
        targets_live(ts, e1).subset_of(targets_live(ts, e2)),
    decreases ts.len(),
{
    if ts.len() > 0 {
        lemma_targets_live_le(ts.subrange(0, ts.len() - 1), e1, e2);
        lemma_target_live_le(ts[ts.len() - 1], e1, e2);
    }
}

proof fn lemma_catches_live_le(cs: Seq<CatchClause>, e1: Env, e2: Env)
    requires
        env_le(e1, e2),
    ensures
        catches_live(cs, e1).subset_of(catches_live(cs, e2)),
    decreases cs.len(),
{
    if cs.len() > 0 {
        lemma_catches_live_le(cs.subrange(0, cs.len() - 1), e1, e2);
        lemma_target_live_le(cs[cs.len() - 1].target, e1, e2);
    }
}

proof fn lemma_env_push_le(e1: Env, e2: Env, id: u32, a: Set<Var>, b: Set<Var>)
    requires
        env_le(e1, e2),
        a.subset_of(b),
    ensures
        env_le(e1.push((id, a)), e2.push((id, b))),
{
    assert forall|i: int| 0 <= i < e1.len() + 1 implies (#[trigger] e1.push((id, a))[i]).0 == e2.push((id, b))[i].0
        && e1.push((id, a))[i].1.subset_of(e2.push((id, b))[i].1) by {
        if i < e1.len() {
            assert(e1.push((id, a))[i] == e1[i]);
            assert(e2.push((id, b))[i] == e2[i]);
        }
    }
}

/// Liveness only grows with what is live after, at the labels, and at the handlers.
pub proof fn lemma_live_stmt_monotone(s: Stmt, e1: Env, e2: Env, c1: Set<Var>, c2: Set<Var>, l1: Set<Var>, l2: Set<Var>)
    requires
        env_le(e1, e2),
        c1.subset_of(c2),
        l1.subset_of(l2),
    ensures
        live_stmt(s, e1, c1, l1).subset_of(live_stmt(s, e2, c2, l2)),
    decreases s,
{
    match s {
        Stmt::Block { label, body } => {
            lemma_env_push_le(e1, e2, label.id, l1, l2);
            lemma_live_seq_monotone(body@, e1.push((label.id, l1)), e2.push((label.id, l2)), c1, c2, l1, l2);
        },
        Stmt::Loop { label, body } => {
            let h1 = loop_head(label.id, body@, e1, c1, l1);
            let h2 = loop_head(label.id, body@, e2, c2, l2);
            assert forall|x: Var| h1.contains(x) implies h2.contains(x) by {
                lemma_loop_head_contains(label.id, body@, e1, c1, l1, x);
                lemma_loop_head_contains(label.id, body@, e2, c2, l2, x);
                assert forall|g: Set<Var>| head_step(label.id, body@, e2, c2, l2, g).subset_of(g) implies #[trigger] g.contains(x) by {
                    lemma_env_push_le(e1, e2, label.id, g, g);
                    lemma_live_seq_monotone(body@, e1.push((label.id, g)), e2.push((label.id, g)), c1, c2, l1, l2);
                    assert(head_step(label.id, body@, e1, c1, l1, g).subset_of(g));
                }
            }
        },
        Stmt::If { label, then, els, .. } => {
            lemma_env_push_le(e1, e2, label.id, l1, l2);
            lemma_live_seq_monotone(then@, e1.push((label.id, l1)), e2.push((label.id, l2)), c1, c2, l1, l2);
            lemma_live_seq_monotone(els@, e1.push((label.id, l1)), e2.push((label.id, l2)), c1, c2, l1, l2);
        },
        Stmt::Br(t) => lemma_target_live_le(t, e1, e2),
        Stmt::BrIf { target, .. } => lemma_target_live_le(target, e1, e2),
        Stmt::BrTable { targets, default, .. } => {
            lemma_targets_live_le(targets@, e1, e2);
            lemma_target_live_le(default, e1, e2);
        },
        Stmt::TryTable { label, catches, body } => {
            lemma_env_push_le(e1, e2, label.id, l1, l2);
            let i1 = e1.push((label.id, l1));
            let i2 = e2.push((label.id, l2));
            lemma_catches_live_le(catches@, i1, i2);
            lemma_live_seq_monotone(body@, i1, i2, c1.union(catches_live(catches@, i1)), c2.union(
                catches_live(catches@, i2),
            ), l1, l2);
        },
        _ => {},
    }
}

/// `lemma_live_stmt_monotone` over a sequence.
pub proof fn lemma_live_seq_monotone(
    stmts: Seq<Stmt>,
    e1: Env,
    e2: Env,
    c1: Set<Var>,
    c2: Set<Var>,
    l1: Set<Var>,
    l2: Set<Var>,
)
    requires
        env_le(e1, e2),
        c1.subset_of(c2),
        l1.subset_of(l2),
    ensures
        live_seq(stmts, e1, c1, l1).subset_of(live_seq(stmts, e2, c2, l2)),
    decreases stmts,
{
    if stmts.len() > 0 {
        let rest = stmts.subrange(1, stmts.len() as int);
        lemma_live_seq_monotone(rest, e1, e2, c1, c2, l1, l2);
        lemma_live_stmt_monotone(stmts[0], e1, e2, c1, c2, live_seq(rest, e1, c1, l1), live_seq(rest, e2, c2, l2));
    }
}

proof fn lemma_env_le_refl(e: Env)
    ensures
        env_le(e, e),
{
}

/// The loop head is a fixpoint of the body's liveness, and the least set the body maps into
/// itself.
pub proof fn lemma_loop_head(label: u32, body: Seq<Stmt>, env: Env, c: Set<Var>, live: Set<Var>)
    ensures
        head_step(label, body, env, c, live, loop_head(label, body, env, c, live)) == loop_head(label, body, env, c, live),
        forall|g: Set<Var>| #[trigger] head_step(label, body, env, c, live, g).subset_of(g) ==> loop_head(
            label,
            body,
            env,
            c,
            live,
        ).subset_of(g),
{
    let h = loop_head(label, body, env, c, live);
    assert forall|g: Set<Var>| #[trigger] head_step(label, body, env, c, live, g).subset_of(g) implies h.subset_of(g) by {
        assert forall|x: Var| h.contains(x) implies g.contains(x) by {
            lemma_loop_head_contains(label, body, env, c, live, x);
        }
    }
    lemma_env_le_refl(env);
    // The head maps into itself: every set the body maps into itself holds the head, hence the
    // body's image of the head.
    let fh = head_step(label, body, env, c, live, h);
    assert forall|x: Var| fh.contains(x) implies h.contains(x) by {
        lemma_loop_head_contains(label, body, env, c, live, x);
        assert forall|g: Set<Var>| head_step(label, body, env, c, live, g).subset_of(g) implies #[trigger] g.contains(x) by {
            assert(h.subset_of(g));
            lemma_env_push_le(env, env, label, h, g);
            lemma_live_seq_monotone(body, env.push((label, h)), env.push((label, g)), c, c, live, live);
        }
    }
    // And the body's image of the head is itself a set the body maps into itself.
    lemma_env_push_le(env, env, label, fh, h);
    lemma_live_seq_monotone(body, env.push((label, fh)), env.push((label, h)), c, c, live, live);
    assert(head_step(label, body, env, c, live, fh).subset_of(fh));
    assert(h.subset_of(fh));
    assert(fh =~= h);
}


// ---------------------------------------------------------------------------------------------
// Bounds: liveness only ever holds what the code reads or what flows in.

/// Every variable bound anywhere in `env`.
pub open spec fn env_vars(env: Env) -> Set<Var>
    decreases env.len(),
{
    if env.len() == 0 {
        Set::empty()
    } else {
        env_vars(env.drop_last()).union(env.last().1)
    }
}

proof fn lemma_env_vars_push(env: Env, id: u32, g: Set<Var>)
    ensures
        env_vars(env.push((id, g))) == env_vars(env).union(g),
{
    assert(env.push((id, g)).drop_last() =~= env);
}

proof fn lemma_lookup_in_env(env: Env, id: u32)
    ensures
        lookup(env, id).subset_of(env_vars(env)),
    decreases env.len(),
{
    if env.len() > 0 {
        lemma_lookup_in_env(env.drop_last(), id);
    }
}

proof fn lemma_before_moves_bound(assigns: Seq<(Temp, Temp)>, l: Set<Var>)
    ensures
        before_moves(assigns, l).subset_of(l.union(assign_sources(assigns))),
    decreases assigns.len(),
{
    if assigns.len() > 0 {
        let n = assigns.len() - 1;
        let (dst, src) = assigns.last();
        let front = assigns.drop_last();
        lemma_before_moves_bound(front, l.remove(Var::Temp(dst)).insert(Var::Temp(src)));
        assert(assigns[n].1 == src);
        assert(assign_sources(assigns).contains(Var::Temp(src)));
        assert forall|v: Var| assign_sources(front).contains(v) implies assign_sources(assigns).contains(v) by {
            let k = choose|k: int| 0 <= k < front.len() && v == Var::Temp(#[trigger] front[k].1);
            assert(assigns[k] == front[k]);
        }
    }
}

proof fn lemma_target_live_bound(t: BrTarget, env: Env)
    ensures
        target_live(t, env).subset_of(target_reads(t).union(env_vars(env))),
{
    match t {
        BrTarget::Label { label, assigns, .. } => {
            lemma_lookup_in_env(env, label);
            lemma_before_moves_bound(assigns@, lookup(env, label));
        },
        _ => {},
    }
}

proof fn lemma_targets_live_bound(ts: Seq<BrTarget>, env: Env)
    ensures
        targets_live(ts, env).subset_of(targets_reads(ts).union(env_vars(env))),
    decreases ts.len(),
{
    if ts.len() > 0 {
        lemma_targets_live_bound(ts.subrange(0, ts.len() - 1), env);
        lemma_target_live_bound(ts[ts.len() - 1], env);
    }
}

proof fn lemma_catches_live_bound(cs: Seq<CatchClause>, env: Env)
    ensures
        catches_live(cs, env).subset_of(catches_reads(cs).union(env_vars(env))),
    decreases cs.len(),
{
    if cs.len() > 0 {
        lemma_catches_live_bound(cs.subrange(0, cs.len() - 1), env);
        lemma_target_live_bound(cs[cs.len() - 1].target, env);
    }
}

/// `seq_reads` peeled from the front.
pub proof fn lemma_seq_reads_front(stmts: Seq<Stmt>)
    requires
        stmts.len() > 0,
    ensures
        seq_reads(stmts) == subtree_reads(stmts[0]).union(seq_reads(stmts.subrange(1, stmts.len() as int))),
    decreases stmts.len(),
{
    let n = stmts.len() as int;
    let rest = stmts.subrange(1, n);
    if n == 1 {
        assert(seq_reads(stmts.subrange(0, 0)) == Set::<Var>::empty());
        assert(seq_reads(rest) == Set::<Var>::empty());
        assert(seq_reads(stmts) =~= subtree_reads(stmts[0]).union(seq_reads(rest)));
    } else {
        let front = stmts.subrange(0, n - 1);
        lemma_seq_reads_front(front);
        assert(front[0] == stmts[0]);
        assert(front.subrange(1, front.len() as int) =~= rest.subrange(0, rest.len() - 1));
        assert(rest[rest.len() - 1] == stmts[n - 1]);
        assert(stmts.subrange(0, n - 1) == front);
        assert(seq_reads(stmts) == seq_reads(front).union(subtree_reads(stmts[n - 1])));
        assert(seq_reads(rest) == seq_reads(rest.subrange(0, rest.len() - 1)).union(subtree_reads(rest[rest.len() - 1])));
        assert(seq_reads(stmts) =~= subtree_reads(stmts[0]).union(seq_reads(rest)));
    }
}

/// What the expressions `s` holds directly read, grouped as liveness adds them.
pub open spec fn own_reads(s: Stmt) -> Set<Var> {
    match s {
        Stmt::Assign { expr, .. } | Stmt::LocalSet { expr, .. } | Stmt::GlobalSet { expr, .. } => expr_reads(expr),
        Stmt::Store { addr, value, .. } => expr_reads(addr).union(expr_reads(value)),
        Stmt::If { cond, .. } => expr_reads(cond),
        Stmt::BrIf { cond, target } => expr_reads(cond).union(exprs_reads(target_values(target))),
        Stmt::BrTable { index, targets, default } => expr_reads(index).union(exprs_reads(targets_values(targets@))).union(
            exprs_reads(target_values(default)),
        ),
        Stmt::CallIndirect { index, args, .. } => expr_reads(index).union(exprs_reads(args@)),
        Stmt::MemoryGrow { delta, .. } => expr_reads(delta),
        Stmt::MemoryCopy { dst, src, len } | Stmt::MemoryInit { dst, src, len, .. } | Stmt::TableInit {
            dst,
            src,
            len,
            ..
        } | Stmt::TableCopy { dst, src, len, .. } | Stmt::MemoryFill { dst, val: src, len } => expr_reads(dst).union(
            expr_reads(src),
        ).union(expr_reads(len)),
        Stmt::ThrowRef { exn } => expr_reads(exn),
        _ => exprs_reads(direct_exprs(s)),
    }
}

proof fn lemma_own_reads(s: Stmt)
    ensures
        own_reads(s) == exprs_reads(direct_exprs(s)),
{
    match s {
        Stmt::Assign { expr, .. } | Stmt::LocalSet { expr, .. } | Stmt::GlobalSet { expr, .. } | Stmt::If {
            cond: expr,
            ..
        } | Stmt::MemoryGrow { delta: expr, .. } | Stmt::ThrowRef { exn: expr } => lemma_exprs_reads_single(expr),
        Stmt::Store { addr, value, .. } => {
            assert(seq![addr, value] =~= seq![addr] + seq![value]);
            lemma_exprs_reads_concat(seq![addr], seq![value]);
            lemma_exprs_reads_single(addr);
            lemma_exprs_reads_single(value);
        },
        Stmt::BrIf { cond, target } => {
            lemma_exprs_reads_concat(seq![cond], target_values(target));
            lemma_exprs_reads_single(cond);
        },
        Stmt::BrTable { index, targets, default } => {
            lemma_exprs_reads_concat(seq![index] + targets_values(targets@), target_values(default));
            lemma_exprs_reads_concat(seq![index], targets_values(targets@));
            lemma_exprs_reads_single(index);
        },
        Stmt::CallIndirect { index, args, .. } => {
            lemma_exprs_reads_concat(seq![index], args@);
            lemma_exprs_reads_single(index);
        },
        Stmt::MemoryCopy { dst, src, len } | Stmt::MemoryInit { dst, src, len, .. } | Stmt::TableInit {
            dst,
            src,
            len,
            ..
        } | Stmt::TableCopy { dst, src, len, .. } | Stmt::MemoryFill { dst, val: src, len } => {
            assert(seq![dst, src, len] =~= seq![dst] + seq![src] + seq![len]);
            lemma_exprs_reads_concat(seq![dst] + seq![src], seq![len]);
            lemma_exprs_reads_concat(seq![dst], seq![src]);
            lemma_exprs_reads_single(dst);
            lemma_exprs_reads_single(src);
            lemma_exprs_reads_single(len);
        },
        _ => {},
    }
}

/// What is live before `s` is read by `s`, live after it, exposed to a handler, or live at a label.
pub proof fn lemma_live_stmt_bound(s: Stmt, env: Env, c: Set<Var>, live: Set<Var>)
    ensures
        live_stmt(s, env, c, live).subset_of(subtree_reads(s).union(live).union(c).union(env_vars(env))),
    decreases s,
{
    lemma_own_reads(s);
    match s {
        Stmt::Block { label, body } => {
            lemma_env_vars_push(env, label.id, live);
            lemma_live_seq_bound(body@, env.push((label.id, live)), c, live);
            let bound = subtree_reads(s).union(live).union(c).union(env_vars(env));
            assert forall|x: Var| live_stmt(s, env, c, live).contains(x) implies bound.contains(x) by {
                assert(seq_reads(body@).union(live).union(c).union(env_vars(env.push((label.id, live)))).contains(x));
            }
        },
        Stmt::Loop { label, body } => {
            let u = seq_reads(body@).union(live).union(c).union(env_vars(env));
            lemma_env_vars_push(env, label.id, u);
            lemma_live_seq_bound(body@, env.push((label.id, u)), c, live);
            assert(head_step(label.id, body@, env, c, live, u).subset_of(u));
            lemma_loop_head(label.id, body@, env, c, live);
            assert(seq_reads(body@).subset_of(subtree_reads(s)));
        },
        Stmt::If { label, cond, then, els } => {
            lemma_env_vars_push(env, label.id, live);
            lemma_live_seq_bound(then@, env.push((label.id, live)), c, live);
            lemma_live_seq_bound(els@, env.push((label.id, live)), c, live);
            assert(seq_reads(then@).subset_of(subtree_reads(s)));
            assert(seq_reads(els@).subset_of(subtree_reads(s)));
        },
        Stmt::Br(t) => lemma_target_live_bound(t, env),
        Stmt::BrIf { target, .. } => lemma_target_live_bound(target, env),
        Stmt::BrTable { targets, default, .. } => {
            lemma_targets_live_bound(targets@, env);
            lemma_target_live_bound(default, env);
        },
        Stmt::TryTable { label, catches, body } => {
            let inner = env.push((label.id, live));
            lemma_env_vars_push(env, label.id, live);
            lemma_catches_live_bound(catches@, inner);
            lemma_live_seq_bound(body@, inner, c.union(catches_live(catches@, inner)), live);
            assert(seq_reads(body@).subset_of(subtree_reads(s)));
            assert(catches_reads(catches@).subset_of(subtree_reads(s)));
        },
        _ => {},
    }
}

/// `lemma_live_stmt_bound` over a sequence.
pub proof fn lemma_live_seq_bound(stmts: Seq<Stmt>, env: Env, c: Set<Var>, after: Set<Var>)
    ensures
        live_seq(stmts, env, c, after).subset_of(seq_reads(stmts).union(after).union(c).union(env_vars(env))),
    decreases stmts,
{
    if stmts.len() > 0 {
        let rest = stmts.subrange(1, stmts.len() as int);
        lemma_live_seq_bound(rest, env, c, after);
        lemma_live_stmt_bound(stmts[0], env, c, live_seq(rest, env, c, after));
        lemma_seq_reads_front(stmts);
    }
}

// ---------------------------------------------------------------------------------------------
// Boundary records.

/// Boundaries are recorded for at most this many leading statements of a loop body; a longer
/// prefix is never an outlining candidate.
pub const BOUNDARY_CAP: usize = 256;

/// Per loop label, the live set at each recorded leading boundary of its body.
pub type Records = Map<u32, Seq<Set<Var>>>;

/// The live sets just before each of the first statements of `body` (and after the last one,
/// when the body is short enough): `[k]` is what is live before statement `k`.
pub open spec fn boundary_record(body: Seq<Stmt>, env: Env, c: Set<Var>, live: Set<Var>) -> Seq<Set<Var>> {
    let n = body.len() as int;
    let m = if n < BOUNDARY_CAP { n + 1 } else { BOUNDARY_CAP + 1 };
    Seq::new(m as nat, |k: int| live_seq(body.subrange(k, n), env, c, live))
}

/// What one pass over a loop body with `g` live at its head records: the body's own records
/// and its boundary record.
pub open spec fn pass_records(label: u32, body: Seq<Stmt>, env: Env, c: Set<Var>, live: Set<Var>, g: Set<Var>) -> Records
    decreases body, 1int,
{
    let inner = env.push((label, g));
    bounds_seq(body, inner, c, live).insert(label, boundary_record(body, inner, c, live))
}

/// The boundary records of every loop inside `s`, taken at the loops' fixpoints; where two loops
/// share a label, the one visited last (the outer one, the earlier one) wins.
pub open spec fn bounds_stmt(s: Stmt, env: Env, c: Set<Var>, live: Set<Var>) -> Records
    decreases s, 0int,
{
    match s {
        Stmt::Block { label, body } => bounds_seq(body@, env.push((label.id, live)), c, live),
        Stmt::Loop { label, body } => pass_records(label.id, body@, env, c, live, loop_head(label.id, body@, env, c, live)),
        Stmt::If { label, then, els, .. } => {
            let inner = env.push((label.id, live));
            bounds_seq(then@, inner, c, live).union_prefer_right(bounds_seq(els@, inner, c, live))
        },
        Stmt::TryTable { label, catches, body } => {
            let inner = env.push((label.id, live));
            bounds_seq(body@, inner, c.union(catches_live(catches@, inner)), live)
        },
        _ => Map::empty(),
    }
}

/// `bounds_stmt` over a sequence, walked last statement first.
pub open spec fn bounds_seq(stmts: Seq<Stmt>, env: Env, c: Set<Var>, after: Set<Var>) -> Records
    decreases stmts, 0int,
{
    if stmts.len() == 0 {
        Map::empty()
    } else {
        let rest = stmts.subrange(1, stmts.len() as int);
        bounds_seq(rest, env, c, after).union_prefer_right(bounds_stmt(stmts[0], env, c, live_seq(rest, env, c, after)))
    }
}

/// Which labels get a record does not depend on the live sets.
proof fn lemma_bounds_stmt_dom(s: Stmt, e1: Env, c1: Set<Var>, l1: Set<Var>, e2: Env, c2: Set<Var>, l2: Set<Var>)
    ensures
        bounds_stmt(s, e1, c1, l1).dom() == bounds_stmt(s, e2, c2, l2).dom(),
    decreases s,
{
    match s {
        Stmt::Block { label, body } => lemma_bounds_seq_dom(body@, e1.push((label.id, l1)), c1, l1, e2.push((label.id, l2)), c2, l2),
        Stmt::Loop { label, body } => {
            lemma_bounds_seq_dom(
                body@,
                e1.push((label.id, loop_head(label.id, body@, e1, c1, l1))),
                c1,
                l1,
                e2.push((label.id, loop_head(label.id, body@, e2, c2, l2))),
                c2,
                l2,
            );
            assert(bounds_stmt(s, e1, c1, l1).dom() =~= bounds_stmt(s, e2, c2, l2).dom());
        },
        Stmt::If { label, then, els, .. } => {
            lemma_bounds_seq_dom(then@, e1.push((label.id, l1)), c1, l1, e2.push((label.id, l2)), c2, l2);
            lemma_bounds_seq_dom(els@, e1.push((label.id, l1)), c1, l1, e2.push((label.id, l2)), c2, l2);
            assert(bounds_stmt(s, e1, c1, l1).dom() =~= bounds_stmt(s, e2, c2, l2).dom());
        },
        Stmt::TryTable { label, catches, body } => {
            let i1 = e1.push((label.id, l1));
            let i2 = e2.push((label.id, l2));
            lemma_bounds_seq_dom(body@, i1, c1.union(catches_live(catches@, i1)), l1, i2, c2.union(catches_live(catches@, i2)), l2);
        },
        _ => {},
    }
}

proof fn lemma_bounds_seq_dom(stmts: Seq<Stmt>, e1: Env, c1: Set<Var>, l1: Set<Var>, e2: Env, c2: Set<Var>, l2: Set<Var>)
    ensures
        bounds_seq(stmts, e1, c1, l1).dom() == bounds_seq(stmts, e2, c2, l2).dom(),
    decreases stmts,
{
    if stmts.len() > 0 {
        let rest = stmts.subrange(1, stmts.len() as int);
        lemma_bounds_seq_dom(rest, e1, c1, l1, e2, c2, l2);
        lemma_bounds_stmt_dom(stmts[0], e1, c1, live_seq(rest, e1, c1, l1), e2, c2, live_seq(rest, e2, c2, l2));
        assert(bounds_seq(stmts, e1, c1, l1).dom() =~= bounds_seq(stmts, e2, c2, l2).dom());
    }
}

/// A later pass over the same loop overrides everything an earlier one recorded.
proof fn lemma_pass_records_override(
    r: Records,
    label: u32,
    body: Seq<Stmt>,
    env: Env,
    c: Set<Var>,
    live: Set<Var>,
    g1: Set<Var>,
    g2: Set<Var>,
)
    ensures
        r.union_prefer_right(pass_records(label, body, env, c, live, g1)).union_prefer_right(
            pass_records(label, body, env, c, live, g2),
        ) == r.union_prefer_right(pass_records(label, body, env, c, live, g2)),
{
    lemma_bounds_seq_dom(body, env.push((label, g1)), c, live, env.push((label, g2)), c, live);
    assert(pass_records(label, body, env, c, live, g1).dom() =~= pass_records(label, body, env, c, live, g2).dom());
    assert(r.union_prefer_right(pass_records(label, body, env, c, live, g1)).union_prefer_right(
        pass_records(label, body, env, c, live, g2),
    ) =~= r.union_prefer_right(pass_records(label, body, env, c, live, g2)));
}

proof fn lemma_union_prefer_right_assoc(a: Records, b: Records, c: Records)
    ensures
        a.union_prefer_right(b).union_prefer_right(c) == a.union_prefer_right(b.union_prefer_right(c)),
{
    assert(a.union_prefer_right(b).union_prefer_right(c) =~= a.union_prefer_right(b.union_prefer_right(c)));
}

// ---------------------------------------------------------------------------------------------
// The analysis.

/// The label environment a stack of label bindings stands for.
pub open spec fn env_of(labels: Seq<(u32, VarSet)>) -> Env {
    Seq::new(labels.len(), |i: int| (labels[i].0, labels[i].1@))
}

/// The sets a vector of variable sets holds.
pub open spec fn sets_of(v: Seq<VarSet>) -> Seq<Set<Var>> {
    Seq::new(v.len(), |i: int| v[i]@)
}

/// The records a list of (label, boundary sets) entries stands for; a later entry for a label
/// replaces an earlier one.
pub open spec fn records_of(r: Seq<(u32, Vec<VarSet>)>) -> Records
    decreases r.len(),
{
    if r.len() == 0 {
        Map::empty()
    } else {
        records_of(r.drop_last()).insert(r.last().0, sets_of(r.last().1@))
    }
}

/// The state of a backward walk over a function body: the live set at each enclosing label,
/// what enclosing catch handlers need, and the boundary records gathered so far.
pub struct Liveness {
    labels: Vec<(u32, VarSet)>,
    catch_live: VarSet,
    records: Vec<(u32, Vec<VarSet>)>,
}

impl Liveness {
    /// The label environment.
    pub closed spec fn env(&self) -> Env {
        env_of(self.labels@)
    }

    /// What an exception thrown here may expose.
    pub closed spec fn handlers(&self) -> Set<Var> {
        self.catch_live@
    }

    /// The boundary records gathered so far.
    pub closed spec fn recorded(&self) -> Records {
        records_of(self.records@)
    }

    proof fn lemma_env_vars_finite(&self)
        ensures
            env_vars(self.env()).finite(),
    {
        lemma_env_of_vars_finite(self.labels@);
    }

    fn push_label(&mut self, id: u32, set: VarSet)
        ensures
            final(self).env() == old(self).env().push((id, set@)),
            final(self).handlers() == old(self).handlers(),
            final(self).recorded() == old(self).recorded(),
    {
        self.labels.push((id, set));
        assert(env_of(self.labels@) =~= env_of(old(self).labels@).push((id, set@)));
    }

    fn pop_label(&mut self)
        requires
            old(self).env().len() > 0,
        ensures
            final(self).env() == old(self).env().drop_last(),
            final(self).handlers() == old(self).handlers(),
            final(self).recorded() == old(self).recorded(),
    {
        let _ = self.labels.pop();
        assert(env_of(self.labels@) =~= env_of(old(self).labels@).drop_last());
    }

    fn push_record(&mut self, key: u32, sets: Vec<VarSet>)
        ensures
            final(self).env() == old(self).env(),
            final(self).handlers() == old(self).handlers(),
            final(self).recorded() == old(self).recorded().insert(key, sets_of(sets@)),
    {
        let ghost before = self.records@;
        self.records.push((key, sets));
        assert(self.records@.drop_last() =~= before);
    }

    /// The live set bound to label `id`.
    fn label_live(&self, id: u32) -> (r: VarSet)
        ensures
            r@ == lookup(self.env(), id),
    {
        let mut i: usize = self.labels.len();
        assert(self.labels@.subrange(0, i as int) =~= self.labels@);
        while i > 0
            invariant
                i <= self.labels@.len(),
                lookup(self.env(), id) == lookup(env_of(self.labels@.subrange(0, i as int)), id),
            decreases i,
        {
            let ghost e = env_of(self.labels@.subrange(0, i as int));
            assert(e.drop_last() =~= env_of(self.labels@.subrange(0, i - 1)));
            if self.labels[i - 1].0 == id {
                return self.labels[i - 1].1.copy();
            }
            i = i - 1;
        }
        VarSet::new()
    }

    /// What is live where the branch `t` is taken.
    fn target_live(&self, t: &BrTarget) -> (r: VarSet)
        ensures
            r@ == target_live(*t, self.env()),
    {
        match t {
            BrTarget::Return { values } => {
                let mut l = VarSet::new();
                add_exprs_reads(values.as_slice(), &mut l);
                assert(l@ =~= exprs_reads(values@));
                l
            },
            BrTarget::Label { label, assigns, .. } => {
                let ghost start = lookup(self.env(), *label);
                let mut l = self.label_live(*label);
                let mut j: usize = assigns.len();
                assert(assigns@.subrange(0, j as int) =~= assigns@);
                while j > 0
                    invariant
                        j <= assigns@.len(),
                        before_moves(assigns@, start) == before_moves(assigns@.subrange(0, j as int), l@),
                    decreases j,
                {
                    let (d, src) = assigns[j - 1];
                    proof {
                        let a = assigns@.subrange(0, j as int);
                        assert(a.drop_last() =~= assigns@.subrange(0, j - 1));
                        assert(a.last() == (d, src));
                    }
                    l.remove(Var::Temp(d));
                    l.insert(Var::Temp(src));
                    j = j - 1;
                }
                l
            },
        }
    }

    /// Removes the temporaries `ts` from `l`.
    fn remove_temps(l: &mut VarSet, ts: &Vec<Temp>)
        ensures
            final(l)@ == old(l)@.difference(temp_vars(ts@)),
    {
        let ghost start = l@;
        let mut j: usize = 0;
        assert(temp_vars(ts@.subrange(0, 0)) =~= Set::<Var>::empty());
        while j < ts.len()
            invariant
                j <= ts@.len(),
                l@ == start.difference(temp_vars(ts@.subrange(0, j as int))),
            decreases ts@.len() - j,
        {
            l.remove(Var::Temp(ts[j]));
            proof {
                lemma_temp_vars_push(ts@, j as int);
                assert(l@ =~= start.difference(temp_vars(ts@.subrange(0, j + 1))));
            }
            j = j + 1;
        }
        assert(ts@.subrange(0, ts@.len() as int) =~= ts@);
    }
}

impl Liveness {
    /// The boundary records of every loop in `func`'s body, taken at the loops' fixpoints (see
    /// [`bounds_seq`]), nothing being live at the body's end.
    pub fn run(func: &Func) -> (r: Vec<(u32, Vec<VarSet>)>)
        ensures
            records_of(r@) == bounds_seq(func.body@, Seq::empty(), Set::empty(), Set::empty()),
    {
        let mut lv = Liveness { labels: Vec::new(), catch_live: VarSet::new(), records: Vec::new() };
        assert(lv.env() =~= Seq::<(u32, Set<Var>)>::empty());
        let _ = lv.seq(func.body.as_slice(), VarSet::new(), false, 0);
        let ghost b = bounds_seq(func.body@, Seq::empty(), Set::empty(), Set::empty());
        assert(Map::<u32, Seq<Set<Var>>>::empty().union_prefer_right(b) =~= b);
        lv.records
    }

    /// The live set before `s`, given `live` after it; records the boundaries of the loops
    /// inside `s`.
    fn stmt(&mut self, s: &Stmt, live: VarSet) -> (r: VarSet)
        ensures
            final(self).env() == old(self).env(),
            final(self).handlers() == old(self).handlers(),
            r@ == live_stmt(*s, old(self).env(), old(self).handlers(), live@),
            final(self).recorded() == old(self).recorded().union_prefer_right(
                bounds_stmt(*s, old(self).env(), old(self).handlers(), live@),
            ),
        decreases s, 1int,
    {
        let ghost env = self.env();
        let ghost c = self.handlers();
        let ghost rec0 = self.recorded();
        let ghost l0 = live@;
        let mut live = live;
        let r = match s {
            Stmt::Assign { dst, expr } | Stmt::MemoryGrow { dst, delta: expr } => {
                live.remove(Var::Temp(*dst));
                add_expr_reads(expr, &mut live);
                live
            },
            Stmt::LocalSet { idx, expr } => {
                live.remove(Var::Local(*idx));
                add_expr_reads(expr, &mut live);
                live
            },
            Stmt::GlobalSet { expr, .. } => {
                add_expr_reads(expr, &mut live);
                live
            },
            Stmt::Store { addr, value, .. } => {
                add_expr_reads(addr, &mut live);
                add_expr_reads(value, &mut live);
                live
            },
            Stmt::Call { args, results, .. } => {
                Self::remove_temps(&mut live, results);
                live.extend(&self.catch_live);
                add_exprs_reads(args.as_slice(), &mut live);
                live
            },
            Stmt::CallIndirect { index, args, results, .. } => {
                Self::remove_temps(&mut live, results);
                live.extend(&self.catch_live);
                add_expr_reads(index, &mut live);
                add_exprs_reads(args.as_slice(), &mut live);
                live
            },
            Stmt::MemoryCopy { dst, src, len } | Stmt::MemoryInit { dst, src, len, .. } | Stmt::TableInit {
                dst,
                src,
                len,
                ..
            } | Stmt::TableCopy { dst, src, len, .. } | Stmt::MemoryFill { dst, val: src, len } => {
                add_expr_reads(dst, &mut live);
                add_expr_reads(src, &mut live);
                add_expr_reads(len, &mut live);
                live
            },
            Stmt::Block { label, body } => {
                self.push_label(label.id, live.copy());
                let l = self.seq(body.as_slice(), live, false, 0);
                self.pop_label();
                assert(self.env() =~= env);
                l
            },
            Stmt::Loop { label, body } => self.loop_head(label.id, body.as_slice(), live),
            Stmt::If { label, cond, then, els } => {
                self.push_label(label.id, live.copy());
                let ghost r1 = self.recorded();
                let mut l = self.seq(then.as_slice(), live.copy(), false, 0);
                let l2 = self.seq(els.as_slice(), live, false, 0);
                proof {
                    let inner = env.push((label.id, l0));
                    lemma_union_prefer_right_assoc(rec0, bounds_seq(then@, inner, c, l0), bounds_seq(els@, inner, c, l0));
                }
                l.extend(&l2);
                add_expr_reads(cond, &mut l);
                self.pop_label();
                assert(self.env() =~= env);
                l
            },
            Stmt::Br(t) => self.target_live(t),
            Stmt::BrIf { cond, target } => {
                let tl = self.target_live(target);
                live.extend(&tl);
                add_expr_reads(cond, &mut live);
                live
            },
            Stmt::BrTable { index, targets, default } => {
                let mut l = VarSet::new();
                let mut i: usize = 0;
                assert(targets_live(targets@.subrange(0, 0), env) =~= Set::<Var>::empty());
                while i < targets.len()
                    invariant
                        i <= targets@.len(),
                        self.env() == env,
                        l@ == targets_live(targets@.subrange(0, i as int), env),
                    decreases targets@.len() - i,
                {
                    let tl = self.target_live(&targets[i]);
                    l.extend(&tl);
                    proof {
                        let t = targets@.subrange(0, i + 1);
                        assert(t.subrange(0, t.len() - 1) =~= targets@.subrange(0, i as int));
                        assert(t[t.len() - 1] == targets@[i as int]);
                    }
                    i = i + 1;
                }
                assert(targets@.subrange(0, targets@.len() as int) =~= targets@);
                let dl = self.target_live(default);
                l.extend(&dl);
                add_expr_reads(index, &mut l);
                l
            },
            Stmt::Return { values } => {
                let mut l = VarSet::new();
                add_exprs_reads(values.as_slice(), &mut l);
                assert(l@ =~= exprs_reads(values@));
                l
            },
            Stmt::TryTable { label, catches, body } => {
                self.push_label(label.id, live.copy());
                let ghost inner = self.env();
                let saved = self.catch_live.copy();
                let mut i: usize = 0;
                assert(catches_live(catches@.subrange(0, 0), inner) =~= Set::<Var>::empty());
                while i < catches.len()
                    invariant
                        i <= catches@.len(),
                        self.env() == inner,
                        self.recorded() == rec0,
                        saved@ == c,
                        self.handlers() == c.union(catches_live(catches@.subrange(0, i as int), inner)),
                    decreases catches@.len() - i,
                {
                    let clause = &catches[i];
                    let mut cl = self.target_live(&clause.target);
                    Self::remove_temps(&mut cl, &clause.value_temps);
                    self.catch_live.extend(&cl);
                    proof {
                        let t = catches@.subrange(0, i + 1);
                        assert(t.subrange(0, t.len() - 1) =~= catches@.subrange(0, i as int));
                        assert(t[t.len() - 1] == catches@[i as int]);
                        assert(self.handlers() =~= c.union(catches_live(t, inner)));
                    }
                    i = i + 1;
                }
                assert(catches@.subrange(0, catches@.len() as int) =~= catches@);
                let l = self.seq(body.as_slice(), live, false, 0);
                self.catch_live = saved;
                self.pop_label();
                assert(self.env() =~= env);
                l
            },
            Stmt::Throw { args, .. } => {
                let mut l = self.catch_live.copy();
                add_exprs_reads(args.as_slice(), &mut l);
                l
            },
            Stmt::ThrowRef { exn } => {
                let mut l = self.catch_live.copy();
                add_expr_reads(exn, &mut l);
                l
            },
            Stmt::Unreachable => VarSet::new(),
            _ => live,
        };
        proof {
            if bounds_stmt(*s, env, c, l0) =~= Map::<u32, Seq<Set<Var>>>::empty() {
                assert(rec0.union_prefer_right(bounds_stmt(*s, env, c, l0)) =~= rec0);
            }
        }
        r
    }

    /// The live set before `stmts`, given `after` at their fall-through exit; with `record`,
    /// also records the leading boundaries under `key`.
    fn seq(&mut self, stmts: &[Stmt], after: VarSet, record: bool, key: u32) -> (r: VarSet)
        ensures
            final(self).env() == old(self).env(),
            final(self).handlers() == old(self).handlers(),
            r@ == live_seq(stmts@, old(self).env(), old(self).handlers(), after@),
            !record ==> final(self).recorded() == old(self).recorded().union_prefer_right(
                bounds_seq(stmts@, old(self).env(), old(self).handlers(), after@),
            ),
            record ==> final(self).recorded() == old(self).recorded().union_prefer_right(
                bounds_seq(stmts@, old(self).env(), old(self).handlers(), after@),
            ).insert(key, boundary_record(stmts@, old(self).env(), old(self).handlers(), after@)),
        decreases stmts@, 0int,
    {
        let ghost env = self.env();
        let ghost c = self.handlers();
        let ghost rec0 = self.recorded();
        let ghost a0 = after@;
        let n = stmts.len();
        let mut live = after;
        let mut rev: Vec<VarSet> = Vec::new();
        if record {
            rev.push(live.copy());
        }
        let mut i: usize = n;
        assert(stmts@.subrange(n as int, n as int).len() == 0);
        assert(bounds_seq(stmts@.subrange(n as int, n as int), env, c, a0) =~= Map::<u32, Seq<Set<Var>>>::empty());
        assert(rec0.union_prefer_right(Map::<u32, Seq<Set<Var>>>::empty()) =~= rec0);
        while i > 0
            invariant
                i <= n,
                n == stmts@.len(),
                self.env() == env,
                self.handlers() == c,
                live@ == live_seq(stmts@.subrange(i as int, n as int), env, c, a0),
                self.recorded() == rec0.union_prefer_right(bounds_seq(stmts@.subrange(i as int, n as int), env, c, a0)),
                record ==> rev@.len() == n - i + 1,
                record ==> forall|k: int|
                    0 <= k < rev@.len() ==> (#[trigger] rev@[k])@ == live_seq(stmts@.subrange(n - k, n as int), env, c, a0),
            decreases i,
        {
            i = i - 1;
            let ghost tail = stmts@.subrange(i + 1, n as int);
            let ghost prev = live@;
            live = self.stmt(&stmts[i], live);
            proof {
                let whole = stmts@.subrange(i as int, n as int);
                assert(whole.subrange(1, whole.len() as int) =~= tail);
                assert(whole[0] == stmts@[i as int]);
                lemma_union_prefer_right_assoc(
                    rec0,
                    bounds_seq(tail, env, c, a0),
                    bounds_stmt(stmts@[i as int], env, c, prev),
                );
            }
            if record {
                rev.push(live.copy());
            }
        }
        assert(stmts@.subrange(0, n as int) =~= stmts@);
        if record {
            let m: usize = if n < BOUNDARY_CAP {
                n + 1
            } else {
                BOUNDARY_CAP + 1
            };
            let mut bounds: Vec<VarSet> = Vec::new();
            let mut k: usize = 0;
            while k < m
                invariant
                    k <= m,
                    m <= n + 1,
                    m == boundary_record(stmts@, env, c, a0).len(),
                    rev@.len() == n + 1,
                    forall|j: int| 0 <= j < rev@.len() ==> (#[trigger] rev@[j])@ == live_seq(stmts@.subrange(n - j, n as int), env, c, a0),
                    bounds@.len() == k,
                    forall|j: int| 0 <= j < k ==> (#[trigger] bounds@[j])@ == live_seq(stmts@.subrange(j, n as int), env, c, a0),
                decreases m - k,
            {
                let b = rev[n - k].copy();
                bounds.push(b);
                k = k + 1;
            }
            let ghost bs = bounds@;
            self.push_record(key, bounds);
            assert(sets_of(bs) =~= boundary_record(stmts@, env, c, a0));
        }
        live
    }

    /// One pass over a loop body with `head` assumed live at its head; records the body's
    /// boundaries.
    fn loop_pass(&mut self, label: u32, body: &[Stmt], head: &VarSet, live: &VarSet) -> (r: VarSet)
        ensures
            final(self).env() == old(self).env(),
            final(self).handlers() == old(self).handlers(),
            r@ == head_step(label, body@, old(self).env(), old(self).handlers(), live@, head@),
            final(self).recorded() == old(self).recorded().union_prefer_right(
                pass_records(label, body@, old(self).env(), old(self).handlers(), live@, head@),
            ),
        decreases body@, 1int,
    {
        let ghost env = self.env();
        let ghost c = self.handlers();
        let ghost rec0 = self.recorded();
        self.push_label(label, head.copy());
        let r = self.seq(body, live.copy(), true, label);
        self.pop_label();
        assert(self.env() =~= env);
        let ghost inner = env.push((label, head@));
        assert(rec0.union_prefer_right(bounds_seq(body@, inner, c, live@)).insert(label, boundary_record(body@, inner, c, live@))
            =~= rec0.union_prefer_right(pass_records(label, body@, env, c, live@, head@)));
        r
    }

    /// The live set at a loop's head: the body's liveness iterated from nothing to its least
    /// fixpoint. The final pass's boundary records are the ones that stay.
    fn loop_head(&mut self, label: u32, body: &[Stmt], live: VarSet) -> (r: VarSet)
        ensures
            final(self).env() == old(self).env(),
            final(self).handlers() == old(self).handlers(),
            r@ == loop_head(label, body@, old(self).env(), old(self).handlers(), live@),
            final(self).recorded() == old(self).recorded().union_prefer_right(
                pass_records(label, body@, old(self).env(), old(self).handlers(), live@, r@),
            ),
        decreases body@, 2int,
    {
        let ghost env = self.env();
        let ghost c = self.handlers();
        let ghost rec0 = self.recorded();
        let ghost lfp = loop_head(label, body@, env, c, live@);
        proof {
            lemma_loop_head(label, body@, env, c, live@);
            let u = seq_reads(body@).union(live@).union(c).union(env_vars(env));
            lemma_env_vars_push(env, label, u);
            lemma_live_seq_bound(body@, env.push((label, u)), c, live@);
            assert(head_step(label, body@, env, c, live@, u).subset_of(u));
            crate::regions::lemma_seq_reads_finite(body@);
            live.lemma_finite();
            self.catch_live.lemma_finite();
            self.lemma_env_vars_finite();
            vstd::set_lib::lemma_set_subset_finite(u, lfp);
        }
        let mut head = VarSet::new();
        let mut next = self.loop_pass(label, body, &head, &live);
        proof {
            lemma_env_le_refl(env);
            lemma_env_push_le(env, env, label, head@, lfp);
            lemma_live_seq_monotone(body@, env.push((label, head@)), env.push((label, lfp)), c, c, live@, live@);
        }
        while !next.same(&head)
            invariant
                self.env() == env,
                self.handlers() == c,
                lfp == loop_head(label, body@, env, c, live@),
                lfp.finite(),
                head_step(label, body@, env, c, live@, lfp) == lfp,
                forall|g: Set<Var>| #[trigger] head_step(label, body@, env, c, live@, g).subset_of(g) ==> lfp.subset_of(g),
                env_le(env, env),
                next@ == head_step(label, body@, env, c, live@, head@),
                head@.subset_of(next@),
                next@.subset_of(lfp),
                self.recorded() == rec0.union_prefer_right(pass_records(label, body@, env, c, live@, head@)),
            decreases lfp.len() - head@.len(),
        {
            proof {
                assert(exists|x: Var| next@.contains(x) && !head@.contains(x)) by {
                    if forall|x: Var| next@.contains(x) ==> head@.contains(x) {
                        assert(next@ =~= head@);
                    }
                }
                let x = choose|x: Var| next@.contains(x) && !head@.contains(x);
                vstd::set_lib::lemma_set_subset_finite(lfp, next@);
                vstd::set_lib::lemma_len_subset(head@, next@.remove(x));
                vstd::set_lib::lemma_len_subset(next@, lfp);
            }
            let ghost old_head = head@;
            head = next;
            next = self.loop_pass(label, body, &head, &live);
            proof {
                lemma_env_push_le(env, env, label, old_head, head@);
                lemma_live_seq_monotone(body@, env.push((label, old_head)), env.push((label, head@)), c, c, live@, live@);
                lemma_env_push_le(env, env, label, head@, lfp);
                lemma_live_seq_monotone(body@, env.push((label, head@)), env.push((label, lfp)), c, c, live@, live@);
                lemma_pass_records_override(rec0, label, body@, env, c, live@, old_head, head@);
            }
        }
        proof {
            assert(head_step(label, body@, env, c, live@, head@).subset_of(head@));
            assert(head@ =~= lfp);
        }
        head
    }
}

proof fn lemma_env_of_vars_finite(labels: Seq<(u32, VarSet)>)
    ensures
        env_vars(env_of(labels)).finite(),
    decreases labels.len(),
{
    if labels.len() > 0 {
        let e = env_of(labels);
        assert(e.drop_last() =~= env_of(labels.drop_last()));
        lemma_env_of_vars_finite(labels.drop_last());
        labels.last().1.lemma_finite();
    }
}

} // verus!
