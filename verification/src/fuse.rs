//! Byte-scatter fusion: a loop that stores a 32-bit word one byte at a time, shifting it by
//! eight each trip, becomes one word store when the four bytes land in one aligned pass. The
//! fast path is guarded by the conditions under which it is the same as running the loop from
//! its first trip (the loop's own flag set, index and shift at zero, the base inside memory),
//! and the loop as written stays as the fallback.
use vstd::prelude::*;

use crate::eval::{eval_i32, flag, lemma_flag_and, run_locals, step_locals, stored_byte, wrap_add};
use crate::ir::{BinOp, BrTarget, Expr, Func, Label, Stmt, StoreOp, Temp};

verus! {

/// The locals a byte-scatter loop works with.
#[derive(Clone, Copy, PartialEq, Eq, Debug, Structural)]
pub struct Scatter {
    pub base: u32,
    pub idx: u32,
    pub word: u32,
    pub shift: u32,
    pub done: u32,
    pub next_idx: u32,
    pub flag: u32,
}

// ---------------------------------------------------------------------------------------------
// The idiom.

/// The local `e` reads, if it is a plain local read.
pub open spec fn local_of(e: Expr) -> Option<u32> {
    match e {
        Expr::LocalGet(i) => Some(i),
        _ => None,
    }
}

/// The value of `e`, if it is an i32 constant.
pub open spec fn const_of(e: Expr) -> Option<u32> {
    match e {
        Expr::I32Const(c) => Some(c),
        _ => None,
    }
}

/// Whether `a` and `b` are the local `l` and the constant `c`, in either order.
pub open spec fn local_and_const(a: Expr, b: Expr, l: u32, c: u32) -> bool {
    (local_of(a) == Some(l) && const_of(b) == Some(c)) || (local_of(b) == Some(l) && const_of(a) == Some(c))
}

/// Whether `e` is `op` over the local `l` and the constant `c`, in either order.
pub open spec fn bin_local_const(e: Expr, op: BinOp, l: u32, c: u32) -> bool {
    match e {
        Expr::Bin(o, a, b) => o == op && local_and_const(*a, *b, l, c),
        _ => false,
    }
}

/// Whether `e` is `op` over the locals `x` and `y`, in either order.
pub open spec fn bin_locals(e: Expr, op: BinOp, x: u32, y: u32) -> bool {
    match e {
        Expr::Bin(o, a, b) => o == op && ((local_of(*a) == Some(x) && local_of(*b) == Some(y)) || (local_of(*a)
            == Some(y) && local_of(*b) == Some(x))),
        _ => false,
    }
}

/// Whether `e` is a shift count reading `shift`: the bare local, or it masked by 31.
pub open spec fn is_shift_count(e: Expr, shift: u32) -> bool {
    local_of(e) == Some(shift) || bin_local_const(e, BinOp::I32And, shift, 31)
}

/// Whether `e` is the loop's continue test: `(flag & done) != 1`, either operand order.
pub open spec fn is_continue_test(e: Expr, flag: u32, done: u32) -> bool {
    match e {
        Expr::Bin(o, a, b) => o == BinOp::I32Ne && ((bin_locals(*a, BinOp::I32And, flag, done) && const_of(*b)
            == Some(1u32)) || (const_of(*a) == Some(1u32) && bin_locals(*b, BinOp::I32And, flag, done))),
        _ => false,
    }
}

/// Whether `s` is `local[idx] = e` for an `e` that `p` accepts.
pub open spec fn sets_local(s: Stmt, idx: u32) -> bool {
    s matches Stmt::LocalSet { idx: i, .. } && i == idx
}

/// The expression a `LocalSet` stores.
pub open spec fn set_expr(s: Stmt) -> Expr
    recommends
        s is LocalSet,
{
    match s {
        Stmt::LocalSet { expr, .. } => expr,
        _ => Expr::MemorySize,
    }
}

/// Whether the locals the loop writes are pairwise distinct and none of them is one it only
/// reads.
pub open spec fn scatter_locals_distinct(m: Scatter) -> bool {
    let w = seq![m.shift, m.done, m.next_idx, m.idx];
    &&& forall|i: int, j: int| 0 <= i < j < 4 ==> w[i] != w[j]
    &&& forall|i: int| 0 <= i < 4 ==> w[i] != m.base && w[i] != m.word && w[i] != m.flag
}

/// Whether `s` is `store8 [base + idx] (word >> count)` with `count` reading `shift`.
pub open spec fn is_scatter_store(s: Stmt, m: Scatter) -> bool {
    match s {
        Stmt::Store { op, addr, value, offset } => {
            &&& op == StoreOp::I32Store8
            &&& offset == 0
            &&& bin_locals(addr, BinOp::I32Add, m.base, m.idx)
            &&& match value {
                Expr::Bin(vop, w, count) => vop == BinOp::I32ShrU && local_of(*w) == Some(m.word) && is_shift_count(
                    *count,
                    m.shift,
                ),
                _ => false,
            }
        },
        _ => false,
    }
}

/// Whether `s` is the loop's exit: a `br_if` back to `loop_label`, moving nothing, on the
/// continue test.
pub open spec fn is_scatter_exit(s: Stmt, loop_label: u32, m: Scatter) -> bool {
    match s {
        Stmt::BrIf { cond, target } => match target {
            BrTarget::Label { label, is_loop, assigns } => label == loop_label && is_loop && assigns@.len() == 0
                && is_continue_test(cond, m.flag, m.done),
            _ => false,
        },
        _ => false,
    }
}

/// Whether `body` is the byte-scatter loop body over the locals `m`, its exit branching back to
/// `loop_label`:
///
/// ```text
/// store8 [base + idx] (word >> (shift & 31))
/// shift = shift + 8
/// done = idx == 3
/// next_idx = idx + 1
/// idx = next_idx
/// br_if loop_label ((flag & done) != 1)
/// ```
pub open spec fn scatter_ok(loop_label: u32, body: Seq<Stmt>, m: Scatter) -> bool {
    &&& body.len() == 6
    &&& is_scatter_store(body[0], m)
    &&& sets_local(body[1], m.shift) && bin_local_const(set_expr(body[1]), BinOp::I32Add, m.shift, 8)
    &&& sets_local(body[2], m.done) && bin_local_const(set_expr(body[2]), BinOp::I32Eq, m.idx, 3)
    &&& sets_local(body[3], m.next_idx) && bin_local_const(set_expr(body[3]), BinOp::I32Add, m.idx, 1)
    &&& sets_local(body[4], m.idx) && local_of(set_expr(body[4])) == Some(m.next_idx)
    &&& is_scatter_exit(body[5], loop_label, m)
    &&& scatter_locals_distinct(m)
}

fn local(e: &Expr) -> (r: Option<u32>)
    ensures
        r == local_of(*e),
{
    match e {
        Expr::LocalGet(i) => Some(*i),
        _ => None,
    }
}

fn konst(e: &Expr) -> (r: Option<u32>)
    ensures
        r == const_of(*e),
{
    match e {
        Expr::I32Const(c) => Some(*c),
        _ => None,
    }
}

/// Whether `a` and `b` are the local `l` and the constant `c`, in either order.
fn is_local_and_const(a: &Expr, b: &Expr, l: u32, c: u32) -> (r: bool)
    ensures
        r == local_and_const(*a, *b, l, c),
{
    (local(a) == Some(l) && konst(b) == Some(c)) || (local(b) == Some(l) && konst(a) == Some(c))
}

/// The local of `a` or `b` that the other pairs with the constant `c`.
fn local_beside_const(a: &Expr, b: &Expr, c: u32) -> (r: Option<u32>)
    ensures
        match r {
            Some(l) => local_and_const(*a, *b, l, c),
            None => forall|l: u32| !local_and_const(*a, *b, l, c),
        },
{
    match (local(a), konst(b)) {
        (Some(l), Some(k)) => {
            if k == c {
                return Some(l);
            }
        },
        _ => {},
    }
    match (local(b), konst(a)) {
        (Some(l), Some(k)) => {
            if k == c {
                return Some(l);
            }
        },
        _ => {},
    }
    None
}

/// The other operand of an `i32.add`, `and`, `eq`... `op` over `l` and a constant, if `e` has
/// that shape: `Some(l)` where `e` is `op(local l, c)` in either order.
fn bin_local_beside_const(e: &Expr, op: BinOp, c: u32) -> (r: Option<u32>)
    ensures
        match r {
            Some(l) => bin_local_const(*e, op, l, c),
            None => forall|l: u32| !bin_local_const(*e, op, l, c),
        },
{
    match e {
        Expr::Bin(o, a, b) => {
            if *o == op {
                local_beside_const(a, b, c)
            } else {
                None
            }
        },
        _ => None,
    }
}

/// The partner of `known` in `op(local x, local y)`, either order.
fn partner_local(e: &Expr, op: BinOp, known: u32) -> (r: Option<u32>)
    ensures
        match r {
            Some(x) => bin_locals(*e, op, x, known),
            None => forall|x: u32| !bin_locals(*e, op, x, known),
        },
{
    match e {
        Expr::Bin(o, a, b) => {
            if *o != op {
                return None;
            }
            match (local(a), local(b)) {
                (Some(x), Some(y)) => {
                    if y == known {
                        Some(x)
                    } else if x == known {
                        Some(y)
                    } else {
                        None
                    }
                },
                _ => None,
            }
        },
        _ => None,
    }
}

/// The locals of a byte-scatter loop body whose exit targets `loop_label`, if `body` is one
/// (see [`scatter_ok`]).
pub fn match_scatter(loop_label: u32, body: &[Stmt]) -> (r: Option<Scatter>)
    ensures
        match r {
            Some(m) => scatter_ok(loop_label, body@, m),
            None => forall|m: Scatter| !scatter_ok(loop_label, body@, m),
        },
{
    if body.len() != 6 {
        return None;
    }
    let (s2, e_shift) = match &body[1] {
        Stmt::LocalSet { idx, expr } => (*idx, expr),
        _ => return None,
    };
    let (s3, e_done) = match &body[2] {
        Stmt::LocalSet { idx, expr } => (*idx, expr),
        _ => return None,
    };
    let (s4, e_next) = match &body[3] {
        Stmt::LocalSet { idx, expr } => (*idx, expr),
        _ => return None,
    };
    let (s5, e_copy) = match &body[4] {
        Stmt::LocalSet { idx, expr } => (*idx, expr),
        _ => return None,
    };
    let shift = s2;
    match bin_local_beside_const(e_shift, BinOp::I32Add, 8) {
        Some(l) => {
            if l != shift {
                proof {
                    assert forall|m: Scatter| !scatter_ok(loop_label, body@, m) by {
                        if scatter_ok(loop_label, body@, m) {
                            assert(bin_local_const(*e_shift, BinOp::I32Add, shift, 8));
                            assert(bin_local_const(*e_shift, BinOp::I32Add, l, 8));
                        }
                    }
                }
                return None;
            }
        },
        None => return None,
    }
    let done = s3;
    let idx = match bin_local_beside_const(e_done, BinOp::I32Eq, 3) {
        Some(i) => i,
        None => return None,
    };
    let next_idx = s4;
    match bin_local_beside_const(e_next, BinOp::I32Add, 1) {
        Some(l) => {
            if l != idx {
                proof {
                    assert forall|m: Scatter| !scatter_ok(loop_label, body@, m) by {
                        if scatter_ok(loop_label, body@, m) {
                            assert(bin_local_const(*e_done, BinOp::I32Eq, m.idx, 3));
                            assert(bin_local_const(*e_done, BinOp::I32Eq, idx, 3));
                            assert(m.idx == idx);
                        }
                    }
                }
                return None;
            }
        },
        None => return None,
    }
    if s5 != idx || local(e_copy) != Some(next_idx) {
        proof {
            assert forall|m: Scatter| !scatter_ok(loop_label, body@, m) by {
                if scatter_ok(loop_label, body@, m) {
                    assert(bin_local_const(*e_done, BinOp::I32Eq, m.idx, 3));
                    assert(bin_local_const(*e_done, BinOp::I32Eq, idx, 3));
                }
            }
        }
        return None;
    }
    let (base, word, count) = match &body[0] {
        Stmt::Store { op: StoreOp::I32Store8, addr, value, offset } => {
            if *offset != 0 {
                return None;
            }
            let base = match partner_local(addr, BinOp::I32Add, idx) {
                Some(b) => b,
                None => {
                    proof {
                        assert forall|m: Scatter| !scatter_ok(loop_label, body@, m) by {
                            if scatter_ok(loop_label, body@, m) {
                                assert(bin_local_const(*e_done, BinOp::I32Eq, m.idx, 3));
                                assert(bin_local_const(*e_done, BinOp::I32Eq, idx, 3));
                            }
                        }
                    }
                    return None;
                },
            };
            match value {
                Expr::Bin(BinOp::I32ShrU, w, count) => {
                    let word = match local(w) {
                        Some(x) => x,
                        None => return None,
                    };
                    (base, word, count)
                },
                _ => return None,
            }
        },
        _ => return None,
    };
    let count_local = match &**count {
        Expr::LocalGet(l) => *l,
        _ => match bin_local_beside_const(count, BinOp::I32And, 31) {
            Some(l) => l,
            None => return None,
        },
    };
    if count_local != shift {
        proof {
            assert forall|m: Scatter| !scatter_ok(loop_label, body@, m) by {
                if scatter_ok(loop_label, body@, m) {
                    assert(m.shift == shift);
                    if local_of(**count) == Some(shift) {
                    } else {
                        assert(bin_local_const(**count, BinOp::I32And, shift, 31));
                    }
                }
            }
        }
        return None;
    }
    let (cond, target) = match &body[5] {
        Stmt::BrIf { cond, target } => (cond, target),
        _ => return None,
    };
    match target {
        BrTarget::Label { label, is_loop, assigns } => {
            if *label != loop_label || !*is_loop || assigns.len() != 0 {
                return None;
            }
        },
        _ => return None,
    }
    let flag = match cond {
        Expr::Bin(BinOp::I32Ne, a, b) => {
            let masked = if konst(b) == Some(1) {
                a
            } else if konst(a) == Some(1) {
                b
            } else {
                return None;
            };
            match partner_local(masked, BinOp::I32And, done) {
                Some(f) => f,
                None => {
                    proof {
                        assert forall|m: Scatter| !scatter_ok(loop_label, body@, m) by {
                            if scatter_ok(loop_label, body@, m) {
                                assert(m.done == done);
                                assert(scatter_locals_distinct(m));
                                if const_of(**b) == Some(1u32) {
                                    assert(bin_locals(**a, BinOp::I32And, m.flag, done) || const_of(**a) == Some(1u32));
                                }
                            }
                        }
                    }
                    return None;
                },
            }
        },
        _ => return None,
    };
    let m = Scatter { base, idx, word, shift, done, next_idx, flag };
    if shift == done || shift == next_idx || shift == idx || done == next_idx || done == idx || next_idx == idx
        || shift == base || shift == word || shift == flag || done == base || done == word || done == flag
        || next_idx == base || next_idx == word || next_idx == flag || idx == base || idx == word || idx == flag {
        proof {
            assert forall|mm: Scatter| !scatter_ok(loop_label, body@, mm) by {
                if scatter_ok(loop_label, body@, mm) {
                    assert(bin_local_const(*e_done, BinOp::I32Eq, mm.idx, 3));
                    assert(mm.idx == idx);
                    assert(mm.shift == shift && mm.done == done && mm.next_idx == next_idx);
                    assert(mm.base == base);
                    assert(mm.word == word);
                    assert(scatter_locals_distinct(mm));
                    let w = seq![mm.shift, mm.done, mm.next_idx, mm.idx];
                    assert(w[0] != w[1] && w[0] != w[2] && w[0] != w[3] && w[1] != w[2] && w[1] != w[3] && w[2] != w[3]);
                    assert(w[0] != mm.base && w[1] != mm.base && w[2] != mm.base && w[3] != mm.base);
                    assert(w[0] != mm.word && w[1] != mm.word && w[2] != mm.word && w[3] != mm.word);
                    assert(w[0] != mm.flag && w[1] != mm.flag && w[2] != mm.flag && w[3] != mm.flag);
                }
            }
        }
        return None;
    }
    Some(m)
}

// ---------------------------------------------------------------------------------------------
// The rewrite.

/// `a & b` on i32.
pub open spec fn and_expr(a: Expr, b: Expr) -> Expr {
    Expr::Bin(BinOp::I32And, Box::new(a), Box::new(b))
}

/// `a == c` on i32.
pub open spec fn eq_const_expr(a: Expr, c: u32) -> Expr {
    Expr::Bin(BinOp::I32Eq, Box::new(a), Box::new(Expr::I32Const(c)))
}

/// When the fast path is the same as the loop run from its first trip: the loop's flag set, the
/// index and the shift at zero, and the base's 64 KiB page inside memory.
pub open spec fn fast_guard(m: Scatter) -> Expr {
    and_expr(
        and_expr(
            eq_const_expr(and_expr(Expr::LocalGet(m.flag), Expr::I32Const(1)), 1),
            eq_const_expr(Expr::LocalGet(m.idx), 0),
        ),
        and_expr(
            eq_const_expr(Expr::LocalGet(m.shift), 0),
            Expr::Bin(
                BinOp::I32LtU,
                Box::new(Expr::Bin(BinOp::I32ShrU, Box::new(Expr::LocalGet(m.base)), Box::new(Expr::I32Const(16)))),
                Box::new(Expr::MemorySize),
            ),
        ),
    )
}

/// The fast path: one word store, then the loop's locals as its last trip leaves them.
pub open spec fn fast_path(m: Scatter) -> Seq<Stmt> {
    seq![
        Stmt::Store { op: StoreOp::I32Store, addr: Expr::LocalGet(m.base), value: Expr::LocalGet(m.word), offset: 0 },
        Stmt::LocalSet { idx: m.shift, expr: Expr::I32Const(32) },
        Stmt::LocalSet { idx: m.done, expr: Expr::I32Const(1) },
        Stmt::LocalSet { idx: m.next_idx, expr: Expr::I32Const(4) },
        Stmt::LocalSet { idx: m.idx, expr: Expr::I32Const(4) },
    ]
}

/// The scatter a loop body is, if any.
pub open spec fn scatter_of(loop_label: u32, body: Seq<Stmt>) -> Option<Scatter> {
    if exists|m: Scatter| scatter_ok(loop_label, body, m) {
        Some(choose|m: Scatter| scatter_ok(loop_label, body, m))
    } else {
        None
    }
}

/// The number of scatter loops of `s`, itself included, at any depth.
pub open spec fn stmt_fuse_count(s: Stmt) -> nat
    decreases s,
{
    match s {
        Stmt::Block { body, .. } | Stmt::TryTable { body, .. } => seq_fuse_count(body@),
        Stmt::Loop { label, body } => seq_fuse_count(body@) + if scatter_of(label.id, body@) is Some {
            1nat
        } else {
            0nat
        },
        Stmt::If { then, els, .. } => seq_fuse_count(then@) + seq_fuse_count(els@),
        _ => 0,
    }
}

/// The number of scatter loops of `stmts`, at any depth.
pub open spec fn seq_fuse_count(stmts: Seq<Stmt>) -> nat
    decreases stmts,
{
    if stmts.len() == 0 {
        0
    } else {
        seq_fuse_count(stmts.subrange(0, stmts.len() - 1)) + stmt_fuse_count(stmts[stmts.len() - 1])
    }
}

/// Whether `r` is `s` with every scatter loop fused, bottom-up, the guarding `if`s labelled
/// from `next` in walk order: such a loop becomes `if guard { fast path } else { loop }`.
pub open spec fn stmt_fused(s: Stmt, r: Stmt, next: int) -> bool
    decreases s,
{
    match s {
        Stmt::Block { label, body } => match r {
            Stmt::Block { label: l2, body: b2 } => l2 == label && seq_fused(body@, b2@, next),
            _ => false,
        },
        Stmt::TryTable { label, catches, body } => match r {
            Stmt::TryTable { label: l2, catches: c2, body: b2 } => l2 == label && c2 == catches && seq_fused(
                body@,
                b2@,
                next,
            ),
            _ => false,
        },
        Stmt::Loop { label, body } => match scatter_of(label.id, body@) {
            Some(m) => match r {
                Stmt::If { label: l2, cond, then, els } => {
                    &&& l2 == Label { id: (next + seq_fuse_count(body@)) as u32, referenced: false }
                    &&& cond == fast_guard(m)
                    &&& then@ == fast_path(m)
                    &&& els@.len() == 1
                    &&& match els@[0] {
                        Stmt::Loop { label: l3, body: b3 } => l3 == label && seq_fused(body@, b3@, next),
                        _ => false,
                    }
                },
                _ => false,
            },
            None => match r {
                Stmt::Loop { label: l2, body: b2 } => l2 == label && seq_fused(body@, b2@, next),
                _ => false,
            },
        },
        Stmt::If { label, cond, then, els } => match r {
            Stmt::If { label: l2, cond: c2, then: t2, els: e2 } => l2 == label && c2 == cond && seq_fused(then@, t2@, next)
                && seq_fused(els@, e2@, next + seq_fuse_count(then@)),
            _ => false,
        },
        _ => r == s,
    }
}

/// `stmt_fused` over a sequence, the labels threaded in order.
pub open spec fn seq_fused(ins: Seq<Stmt>, outs: Seq<Stmt>, next: int) -> bool
    decreases ins,
{
    if ins.len() == 0 {
        outs.len() == 0
    } else {
        &&& outs.len() == ins.len()
        &&& seq_fused(ins.subrange(0, ins.len() - 1), outs.subrange(0, outs.len() - 1), next)
        &&& stmt_fused(ins[ins.len() - 1], outs[outs.len() - 1], next + seq_fuse_count(ins.subrange(0, ins.len() - 1)))
    }
}

proof fn lemma_scatter_unique(l: u32, body: Seq<Stmt>, m1: Scatter, m2: Scatter)
    requires
        scatter_ok(l, body, m1),
        scatter_ok(l, body, m2),
    ensures
        m1 == m2,
{
    assert(m1.shift == m2.shift && m1.done == m2.done && m1.next_idx == m2.next_idx && m1.idx == m2.idx);
    assert(scatter_locals_distinct(m1));
    assert(scatter_locals_distinct(m2));
    let w1 = seq![m1.shift, m1.done, m1.next_idx, m1.idx];
    let w2 = seq![m2.shift, m2.done, m2.next_idx, m2.idx];
    assert(w1[3] != m1.base && w2[3] != m2.base);
    assert(w1[1] != m1.flag && w2[1] != m2.flag);
}

proof fn lemma_seq_fused_at(ins: Seq<Stmt>, outs: Seq<Stmt>, next: int, k: int)
    requires
        seq_fused(ins, outs, next),
        0 <= k < ins.len(),
    ensures
        outs.len() == ins.len(),
        stmt_fused(ins[k], outs[k], next + seq_fuse_count(ins.subrange(0, k))),
    decreases ins.len(),
{
    let n = ins.len() as int;
    if k < n - 1 {
        lemma_seq_fused_at(ins.subrange(0, n - 1), outs.subrange(0, n - 1), next, k);
        assert(ins.subrange(0, n - 1).subrange(0, k) == ins.subrange(0, k));
    }
}

/// Fusing inside a loop body never makes or breaks the scatter shape: its statements are no
/// frames, and fusing leaves everything but frames as it is.
proof fn lemma_fused_keeps_scatter(l: u32, body: Seq<Stmt>, b2: Seq<Stmt>, next: int, m: Scatter)
    requires
        seq_fused(body, b2, next),
    ensures
        scatter_ok(l, body, m) <==> scatter_ok(l, b2, m),
{
    if body.len() == 6 {
        assert forall|k: int| 0 <= k < 6 implies (body[k] is Store || body[k] is LocalSet || body[k] is BrIf
            || b2[k] is Store || b2[k] is LocalSet || b2[k] is BrIf) ==> body[k] == b2[k] by {
            lemma_seq_fused_at(body, b2, next, k);
        }
        if scatter_ok(l, body, m) || scatter_ok(l, b2, m) {
            assert(body[0] == b2[0] && body[1] == b2[1] && body[2] == b2[2]);
            assert(body[3] == b2[3] && body[4] == b2[4] && body[5] == b2[5]);
        }
    } else if body.len() > 0 {
        lemma_seq_fused_at(body, b2, next, 0);
    }
}

proof fn lemma_count_prefix(stmts: Seq<Stmt>, j: int)
    requires
        0 <= j <= stmts.len(),
    ensures
        seq_fuse_count(stmts.subrange(0, j)) <= seq_fuse_count(stmts),
    decreases stmts.len() - j,
{
    if j < stmts.len() {
        lemma_count_prefix(stmts, j + 1);
        let t = stmts.subrange(0, j + 1);
        assert(t.subrange(0, t.len() - 1) == stmts.subrange(0, j));
    } else {
        assert(stmts.subrange(0, j) == stmts);
    }
}

fn fast_guard_exec(m: Scatter) -> (e: Expr)
    ensures
        e == fast_guard(m),
{
    let flag_set = Expr::Bin(
        BinOp::I32Eq,
        Box::new(Expr::Bin(BinOp::I32And, Box::new(Expr::LocalGet(m.flag)), Box::new(Expr::I32Const(1)))),
        Box::new(Expr::I32Const(1)),
    );
    let idx_zero = Expr::Bin(BinOp::I32Eq, Box::new(Expr::LocalGet(m.idx)), Box::new(Expr::I32Const(0)));
    let shift_zero = Expr::Bin(BinOp::I32Eq, Box::new(Expr::LocalGet(m.shift)), Box::new(Expr::I32Const(0)));
    let in_memory = Expr::Bin(
        BinOp::I32LtU,
        Box::new(Expr::Bin(BinOp::I32ShrU, Box::new(Expr::LocalGet(m.base)), Box::new(Expr::I32Const(16)))),
        Box::new(Expr::MemorySize),
    );
    Expr::Bin(
        BinOp::I32And,
        Box::new(Expr::Bin(BinOp::I32And, Box::new(flag_set), Box::new(idx_zero))),
        Box::new(Expr::Bin(BinOp::I32And, Box::new(shift_zero), Box::new(in_memory))),
    )
}

fn fast_path_exec(m: Scatter) -> (v: Vec<Stmt>)
    ensures
        v@ == fast_path(m),
{
    let mut v: Vec<Stmt> = Vec::new();
    v.push(Stmt::Store { op: StoreOp::I32Store, addr: Expr::LocalGet(m.base), value: Expr::LocalGet(m.word), offset: 0 });
    v.push(Stmt::LocalSet { idx: m.shift, expr: Expr::I32Const(32) });
    v.push(Stmt::LocalSet { idx: m.done, expr: Expr::I32Const(1) });
    v.push(Stmt::LocalSet { idx: m.next_idx, expr: Expr::I32Const(4) });
    v.push(Stmt::LocalSet { idx: m.idx, expr: Expr::I32Const(4) });
    v
}

fn fuse_stmt(s: Stmt, next: &mut u32) -> (r: Stmt)
    requires
        *old(next) + stmt_fuse_count(s) <= u32::MAX,
    ensures
        stmt_fused(s, r, *old(next) as int),
        *final(next) == *old(next) + stmt_fuse_count(s),
    decreases s,
{
    let ghost n0 = *next as int;
    match s {
        Stmt::Block { label, body } => {
            let b = fuse_seq(body, next);
            Stmt::Block { label, body: b }
        },
        Stmt::TryTable { label, catches, body } => {
            let b = fuse_seq(body, next);
            Stmt::TryTable { label, catches, body: b }
        },
        Stmt::Loop { label, body } => {
            let ghost orig = body@;
            proof {
                if scatter_of(label.id, orig) is Some {
                } else {
                }
            }
            let b = fuse_seq(body, next);
            match match_scatter(label.id, b.as_slice()) {
                Some(m) => {
                    proof {
                        lemma_fused_keeps_scatter(label.id, orig, b@, n0, m);
                        lemma_scatter_unique(label.id, orig, m, choose|mm: Scatter| scatter_ok(label.id, orig, mm));
                    }
                    let id = *next;
                    *next = *next + 1;
                    let mut els: Vec<Stmt> = Vec::new();
                    els.push(Stmt::Loop { label, body: b });
                    Stmt::If { label: Label { id, referenced: false }, cond: fast_guard_exec(m), then: fast_path_exec(m), els }
                },
                None => {
                    proof {
                        assert forall|mm: Scatter| !scatter_ok(label.id, orig, mm) by {
                            lemma_fused_keeps_scatter(label.id, orig, b@, n0, mm);
                        }
                    }
                    Stmt::Loop { label, body: b }
                },
            }
        },
        Stmt::If { label, cond, then, els } => {
            let t = fuse_seq(then, next);
            let e = fuse_seq(els, next);
            Stmt::If { label, cond, then: t, els: e }
        },
        other => other,
    }
}

fn fuse_seq(stmts: Vec<Stmt>, next: &mut u32) -> (r: Vec<Stmt>)
    requires
        *old(next) + seq_fuse_count(stmts@) <= u32::MAX,
    ensures
        seq_fused(stmts@, r@, *old(next) as int),
        *final(next) == *old(next) + seq_fuse_count(stmts@),
    decreases stmts@,
{
    let ghost orig = stmts@;
    let ghost n = orig.len() as int;
    let ghost start = *next as int;
    let mut src = stmts;
    let mut rev: Vec<Stmt> = Vec::new();
    while src.len() > 0
        invariant
            orig.len() == n,
            src@.len() + rev@.len() == n,
            src@ == orig.subrange(0, src@.len() as int),
            forall|k: int| 0 <= k < rev@.len() ==> rev@[k] == orig[n - 1 - k],
        decreases src@.len(),
    {
        let ghost before = src@;
        match src.pop() {
            Some(x) => {
                rev.push(x);
            },
            None => {},
        }
    }
    let mut out: Vec<Stmt> = Vec::new();
    proof {
        assert(orig.subrange(0, 0).len() == 0);
    }
    while rev.len() > 0
        invariant
            orig.len() == n,
            orig == stmts@,
            start + seq_fuse_count(orig) <= u32::MAX,
            rev@.len() <= n,
            forall|k: int| 0 <= k < rev@.len() ==> rev@[k] == orig[n - 1 - k],
            out@.len() == n - rev@.len(),
            seq_fused(orig.subrange(0, n - rev@.len()), out@, start),
            *next == start + seq_fuse_count(orig.subrange(0, n - rev@.len())),
        decreases rev@.len(),
    {
        let ghost j = n - rev@.len();
        let s = match rev.pop() {
            Some(x) => x,
            None => Stmt::Unreachable,
        };
        assert(s == orig[j]);
        proof {
            lemma_count_prefix(orig, j + 1);
            let t = orig.subrange(0, j + 1);
            assert(t.subrange(0, t.len() - 1) == orig.subrange(0, j));
            assert(t[t.len() - 1] == orig[j]);
        }
        let ghost before = out@;
        proof {
            assert(decreases_to!(orig => orig[j]));
        }
        let f = fuse_stmt(s, next);
        out.push(f);
        proof {
            let t = orig.subrange(0, j + 1);
            assert(out@.subrange(0, out@.len() - 1) == before);
        }
    }
    proof {
        assert(orig.subrange(0, n) == orig);
    }
    out
}

/// The largest frame label of `s`, itself included, at any depth; 0 for none.
pub open spec fn stmt_max_label(s: Stmt) -> nat
    decreases s,
{
    match s {
        Stmt::Block { label, body } | Stmt::Loop { label, body } | Stmt::TryTable { label, body, .. } => {
            let m = seq_max_label(body@);
            if label.id > m { label.id as nat } else { m }
        },
        Stmt::If { label, then, els, .. } => {
            let a = seq_max_label(then@);
            let b = seq_max_label(els@);
            let m = if a > b { a } else { b };
            if label.id > m { label.id as nat } else { m }
        },
        _ => 0,
    }
}

/// The largest frame label of `stmts`, at any depth; 0 for none.
pub open spec fn seq_max_label(stmts: Seq<Stmt>) -> nat
    decreases stmts,
{
    if stmts.len() == 0 {
        0
    } else {
        let a = seq_max_label(stmts.subrange(0, stmts.len() - 1));
        let b = stmt_max_label(stmts[stmts.len() - 1]);
        if a > b { a } else { b }
    }
}

pub(crate) proof fn lemma_max_label_bounded(stmts: Seq<Stmt>)
    ensures
        seq_max_label(stmts) <= u32::MAX,
    decreases stmts,
{
    if stmts.len() > 0 {
        lemma_max_label_bounded(stmts.subrange(0, stmts.len() - 1));
        lemma_stmt_max_label_bounded(stmts[stmts.len() - 1]);
    }
}

proof fn lemma_stmt_max_label_bounded(s: Stmt)
    ensures
        stmt_max_label(s) <= u32::MAX,
    decreases s,
{
    match s {
        Stmt::Block { body, .. } | Stmt::Loop { body, .. } | Stmt::TryTable { body, .. } => lemma_max_label_bounded(body@),
        Stmt::If { then, els, .. } => {
            lemma_max_label_bounded(then@);
            lemma_max_label_bounded(els@);
        },
        _ => {},
    }
}

fn stmt_max_label_exec(s: &Stmt) -> (r: u32)
    ensures
        r == stmt_max_label(*s),
    decreases s,
{
    match s {
        Stmt::Block { label, body } | Stmt::Loop { label, body } | Stmt::TryTable { label, body, .. } => {
            let m = max_label_id(body.as_slice());
            if label.id > m { label.id } else { m }
        },
        Stmt::If { label, then, els, .. } => {
            let a = max_label_id(then.as_slice());
            let b = max_label_id(els.as_slice());
            let m = if a > b { a } else { b };
            if label.id > m { label.id } else { m }
        },
        _ => 0,
    }
}

/// The largest frame label of `stmts`, at any depth; 0 for none.
pub fn max_label_id(stmts: &[Stmt]) -> (r: u32)
    ensures
        r == seq_max_label(stmts@),
    decreases stmts@,
{
    let mut best: u32 = 0;
    let mut i: usize = 0;
    while i < stmts.len()
        invariant
            i <= stmts@.len(),
            best == seq_max_label(stmts@.subrange(0, i as int)),
        decreases stmts@.len() - i,
    {
        let m = stmt_max_label_exec(&stmts[i]);
        proof {
            let t = stmts@.subrange(0, i + 1);
            assert(t.subrange(0, t.len() - 1) == stmts@.subrange(0, i as int));
        }
        if m > best {
            best = m;
        }
        i = i + 1;
    }
    assert(stmts@.subrange(0, stmts@.len() as int) == stmts@);
    best
}

/// Whether `f2` is `f` with its scatter loops fused, the guarding `if`s labelled past the
/// function's largest label.
pub open spec fn func_fused(f: Func, f2: Func) -> bool {
    &&& f2.type_idx == f.type_idx
    &&& f2.locals == f.locals
    &&& f2.temps == f.temps
    &&& seq_fused(f.body@, f2.body@, (seq_max_label(f.body@) + 1) as int)
}

/// Fuses every byte-scatter loop of every function (see [`stmt_fused`]). The new labels start
/// past each function's largest one, so they must fit in 32 bits.
pub fn fuse_byte_scatter(funcs: &mut Vec<Func>)
    requires
        forall|i: int| 0 <= i < old(funcs)@.len() ==> seq_max_label(#[trigger] old(funcs)@[i].body@) + 1
            + seq_fuse_count(old(funcs)@[i].body@) <= u32::MAX,
    ensures
        final(funcs)@.len() == old(funcs)@.len(),
        forall|i: int| 0 <= i < final(funcs)@.len() ==> func_fused(#[trigger] old(funcs)@[i], final(funcs)@[i]),
{
    let ghost orig = funcs@;
    let ghost n = orig.len() as int;
    let mut src: Vec<Func> = Vec::new();
    std::mem::swap(&mut src, funcs);
    let mut rev: Vec<Func> = Vec::new();
    while src.len() > 0
        invariant
            orig.len() == n,
            src@.len() + rev@.len() == n,
            src@ == orig.subrange(0, src@.len() as int),
            forall|k: int| 0 <= k < rev@.len() ==> rev@[k] == orig[n - 1 - k],
        decreases src@.len(),
    {
        match src.pop() {
            Some(x) => {
                rev.push(x);
            },
            None => {},
        }
    }
    while rev.len() > 0
        invariant
            orig.len() == n,
            forall|i: int| 0 <= i < n ==> seq_max_label(#[trigger] orig[i].body@) + 1 + seq_fuse_count(orig[i].body@)
                <= u32::MAX,
            rev@.len() <= n,
            forall|k: int| 0 <= k < rev@.len() ==> rev@[k] == orig[n - 1 - k],
            funcs@.len() == n - rev@.len(),
            forall|i: int| 0 <= i < funcs@.len() ==> func_fused(#[trigger] orig[i], funcs@[i]),
        decreases rev@.len(),
    {
        let ghost j = n - rev@.len();
        let f = match rev.pop() {
            Some(x) => x,
            None => Func { type_idx: 0, locals: Vec::new(), temps: Vec::new(), body: Vec::new() },
        };
        assert(f == orig[j]);
        let Func { type_idx, locals, temps, body } = f;
        let top = max_label_id(body.as_slice());
        proof {
            lemma_max_label_bounded(body@);
        }
        let mut next: u32 = top + 1;
        let fused = fuse_seq(body, &mut next);
        funcs.push(Func { type_idx, locals, temps, body: fused });
    }
}

// ---------------------------------------------------------------------------------------------
// What the fast path writes.

/// The locals as the loop's trip `k` (counting from 0) reads them, when its first trip starts
/// from `locals` with the index and the shift at zero: each trip adds 8 to the shift and 1 to
/// the index.
pub open spec fn trip_locals(locals: spec_fn(u32) -> u32, m: Scatter, k: u32) -> spec_fn(u32) -> u32 {
    |i: u32|
        if i == m.idx {
            k
        } else if i == m.shift {
            (8 * k) as u32
        } else {
            locals(i)
        }
}

proof fn lemma_byte_of_shifted(w: u32, k: u32)
    requires
        k < 4,
    ensures
        ((w >> (((8 * k) as u32 & 31) & 31)) >> 0u32) & 0xff == (w >> ((8 * k) as u32)) & 0xff,
        ((8 * k) as u32 & 31u32) == (31u32 & (8 * k) as u32),
{
    assert(((w >> (((8 * k) as u32 & 31) & 31)) >> 0u32) & 0xff == (w >> ((8 * k) as u32)) & 0xff) by (bit_vector)
        requires
            k < 4,
    ;
    assert(((8 * k) as u32 & 31u32) == (31u32 & (8 * k) as u32)) by (bit_vector);
}

/// Whenever the guard admits the fast path, its word store writes, at every address, exactly the
/// byte the loop's four trips write there when run from that state: trip `k` stores byte `k` of
/// the word at `base + k`, and nothing lands outside those four bytes. (The word store is taken
/// to stay inside memory, where it does not trap.)
pub proof fn law_fast_path_writes_what_four_trips_write(
    loop_label: u32,
    body: Seq<Stmt>,
    m: Scatter,
    locals: spec_fn(u32) -> u32,
    temps: spec_fn(Temp) -> u32,
    pages: u32,
    at: int,
)
    requires
        scatter_ok(loop_label, body, m),
        eval_i32(fast_guard(m), locals, temps, pages) == 1,
        pages <= 0x1_0000,
        locals(m.base) as int + 4 <= pages as int * 0x1_0000,
    ensures
        stored_byte(fast_path(m)[0], locals, temps, pages, at) == (if locals(m.base) <= at < locals(m.base) + 4 {
            stored_byte(body[0], trip_locals(locals, m, (at - locals(m.base)) as u32), temps, pages, at)
        } else {
            None
        }),
{
    lemma_guard_admits(m, locals, temps, pages);
    reveal_with_fuel(eval_i32, 3);
    let b = locals(m.base);
    if b <= at < b + 4 {
        let k = (at - b) as u32;
        let tl = trip_locals(locals, m, k);
        let w = locals(m.word);
        let ws = seq![m.shift, m.done, m.next_idx, m.idx];
        assert(ws[0] != m.base && ws[3] != m.base && ws[0] != m.word && ws[3] != m.word);
        assert(tl(m.base) == b && tl(m.word) == w && tl(m.idx) == k && tl(m.shift) == (8 * k) as u32);
        match body[0] {
            Stmt::Store { op, addr, value, offset } => {
                assert(eval_i32(addr, tl, temps, pages) == wrap_add(b, k) || eval_i32(addr, tl, temps, pages) == wrap_add(k, b));
                assert(eval_i32(addr, tl, temps, pages) as int == at);
                match value {
                    Expr::Bin(vop, we, count) => {
                        assert(eval_i32(*we, tl, temps, pages) == w);
                        lemma_byte_of_shifted(w, k);
                        let c = eval_i32(*count, tl, temps, pages);
                        assert(c == (8 * k) as u32 || c == ((8 * k) as u32 & 31u32)) by {
                            if local_of(*count) != Some(m.shift) {
                                match *count {
                                    Expr::Bin(o, x, y) => {
                                        if local_of(*x) == Some(m.shift) {
                                            assert(c == ((8 * k) as u32 & 31u32));
                                        } else {
                                            assert(c == (31u32 & (8 * k) as u32));
                                        }
                                    },
                                    _ => {},
                                }
                            }
                        }
                        assert(((8 * k) as u32 & 31u32) & 31u32 == (8 * k) as u32 & 31u32) by (bit_vector);
                        assert((((8 * k) as u32) & 31u32) == ((8 * k) as u32)) by (bit_vector)
                            requires
                                k < 4,
                        ;
                        assert(eval_i32(value, tl, temps, pages) == w >> (((8 * k) as u32 & 31) & 31));
                        assert((8 * (at - at)) as u32 == 0u32);
                    },
                    _ => {},
                }
            },
            _ => {},
        }
    }
}

/// The guard admits only a state where the loop's flag is set and its index and shift are zero.
proof fn lemma_guard_admits(m: Scatter, locals: spec_fn(u32) -> u32, temps: spec_fn(Temp) -> u32, pages: u32)
    requires
        eval_i32(fast_guard(m), locals, temps, pages) == 1,
    ensures
        locals(m.flag) & 1 == 1,
        locals(m.idx) == 0,
        locals(m.shift) == 0,
{
    reveal_with_fuel(eval_i32, 5);
    let c1 = locals(m.flag) & 1 == 1;
    let c2 = locals(m.idx) == 0;
    let c3 = locals(m.shift) == 0;
    let c4 = (locals(m.base) >> 16) < pages;
    let g1 = eq_const_expr(and_expr(Expr::LocalGet(m.flag), Expr::I32Const(1)), 1);
    let g2 = eq_const_expr(Expr::LocalGet(m.idx), 0);
    let g3 = eq_const_expr(Expr::LocalGet(m.shift), 0);
    let g4 = Expr::Bin(
        BinOp::I32LtU,
        Box::new(Expr::Bin(BinOp::I32ShrU, Box::new(Expr::LocalGet(m.base)), Box::new(Expr::I32Const(16)))),
        Box::new(Expr::MemorySize),
    );
    assert(eval_i32(and_expr(Expr::LocalGet(m.flag), Expr::I32Const(1)), locals, temps, pages) == locals(m.flag) & 1);
    assert(eval_i32(g1, locals, temps, pages) == flag(c1));
    assert(eval_i32(g2, locals, temps, pages) == flag(c2));
    assert(eval_i32(g3, locals, temps, pages) == flag(c3));
    assert((16u32 & 31u32) == 16u32) by (bit_vector);
    assert(eval_i32(g4, locals, temps, pages) == flag(c4));
    lemma_flag_and(c1, c2);
    lemma_flag_and(c3, c4);
    lemma_flag_and(c1 && c2, c3 && c4);
    assert(eval_i32(and_expr(g1, g2), locals, temps, pages) == flag(c1 && c2));
    assert(eval_i32(and_expr(g3, g4), locals, temps, pages) == flag(c3 && c4));
    assert(fast_guard(m) == and_expr(and_expr(g1, g2), and_expr(g3, g4)));
}

/// The locals after `n` trips of the loop body from `locals`.
pub open spec fn trips(body: Seq<Stmt>, locals: spec_fn(u32) -> u32, temps: spec_fn(Temp) -> u32, pages: u32, n: nat) -> spec_fn(
    u32,
) -> u32
    decreases n,
{
    if n == 0 {
        locals
    } else {
        run_locals(body, trips(body, locals, temps, pages, (n - 1) as nat), temps, pages)
    }
}

/// One trip from index `k` and shift `8k` moves the index and `next_idx` to `k + 1` and the shift
/// to `8(k + 1)`, sets `done` to whether `k` was 3, and leaves every other local alone.
proof fn lemma_one_trip(
    loop_label: u32,
    body: Seq<Stmt>,
    m: Scatter,
    locals: spec_fn(u32) -> u32,
    temps: spec_fn(Temp) -> u32,
    pages: u32,
    k: u32,
)
    requires
        scatter_ok(loop_label, body, m),
        k < 4,
        locals(m.idx) == k,
        locals(m.shift) == (8 * k) as u32,
    ensures
        ({
            let after = run_locals(body, locals, temps, pages);
            &&& after(m.idx) == k + 1
            &&& after(m.next_idx) == k + 1
            &&& after(m.shift) == (8 * (k + 1)) as u32
            &&& after(m.done) == flag(k == 3)
            &&& forall|v: u32| v != m.idx && v != m.next_idx && v != m.shift && v != m.done ==> #[trigger] after(v) == locals(v)
        }),
{
    reveal_with_fuel(run_locals, 7);
    reveal_with_fuel(eval_i32, 2);
    let ws = seq![m.shift, m.done, m.next_idx, m.idx];
    assert(ws[0] != ws[1] && ws[0] != ws[2] && ws[0] != ws[3] && ws[1] != ws[2] && ws[1] != ws[3] && ws[2] != ws[3]);
    let l1 = step_locals(body[0], locals, temps, pages);
    let l2 = step_locals(body[1], l1, temps, pages);
    let l3 = step_locals(body[2], l2, temps, pages);
    let l4 = step_locals(body[3], l3, temps, pages);
    let l5 = step_locals(body[4], l4, temps, pages);
    let l6 = step_locals(body[5], l5, temps, pages);
    assert(l1 == locals);
    assert(l2(m.shift) == (8 * (k + 1)) as u32);
    assert(forall|v: u32| v != m.shift ==> #[trigger] l2(v) == locals(v));
    assert(l3(m.done) == flag(k == 3));
    assert(forall|v: u32| v != m.done ==> #[trigger] l3(v) == l2(v));
    assert(l4(m.next_idx) == k + 1);
    assert(forall|v: u32| v != m.next_idx ==> #[trigger] l4(v) == l3(v));
    assert(l5(m.idx) == k + 1);
    assert(forall|v: u32| v != m.idx ==> #[trigger] l5(v) == l4(v));
    assert(l6 == l5);
    let b1 = body.drop_first();
    let b2 = b1.drop_first();
    let b3 = b2.drop_first();
    let b4 = b3.drop_first();
    let b5 = b4.drop_first();
    let b6 = b5.drop_first();
    assert(b1[0] == body[1] && b2[0] == body[2] && b3[0] == body[3] && b4[0] == body[4] && b5[0] == body[5]);
    assert(b6.len() == 0);
    assert(run_locals(body, locals, temps, pages) == l6);
}

/// Whenever the guard admits the fast path, it leaves each local the loop writes (shift, done,
/// next index, index) with the value the loop's four trips leave it, and every other local as
/// the four trips leave it too.
pub proof fn law_fast_path_leaves_what_four_trips_leave(
    loop_label: u32,
    body: Seq<Stmt>,
    m: Scatter,
    locals: spec_fn(u32) -> u32,
    temps: spec_fn(Temp) -> u32,
    pages: u32,
    v: u32,
)
    requires
        scatter_ok(loop_label, body, m),
        eval_i32(fast_guard(m), locals, temps, pages) == 1,
    ensures
        run_locals(fast_path(m), locals, temps, pages)(v) == trips(body, locals, temps, pages, 4)(v),
{
    lemma_guard_admits(m, locals, temps, pages);
    reveal_with_fuel(trips, 5);
    let t0 = trips(body, locals, temps, pages, 0);
    lemma_one_trip(loop_label, body, m, t0, temps, pages, 0);
    let t1 = trips(body, locals, temps, pages, 1);
    lemma_one_trip(loop_label, body, m, t1, temps, pages, 1);
    let t2 = trips(body, locals, temps, pages, 2);
    lemma_one_trip(loop_label, body, m, t2, temps, pages, 2);
    let t3 = trips(body, locals, temps, pages, 3);
    lemma_one_trip(loop_label, body, m, t3, temps, pages, 3);
    let t4 = trips(body, locals, temps, pages, 4);
    reveal_with_fuel(run_locals, 6);
    reveal_with_fuel(eval_i32, 1);
    let fp = fast_path(m);
    let ws = seq![m.shift, m.done, m.next_idx, m.idx];
    assert(ws[0] != ws[1] && ws[0] != ws[2] && ws[0] != ws[3] && ws[1] != ws[2] && ws[1] != ws[3] && ws[2] != ws[3]);
    let f1 = step_locals(fp[0], locals, temps, pages);
    let f2 = step_locals(fp[1], f1, temps, pages);
    let f3 = step_locals(fp[2], f2, temps, pages);
    let f4 = step_locals(fp[3], f3, temps, pages);
    let f5 = step_locals(fp[4], f4, temps, pages);
    let c1 = fp.drop_first();
    let c2 = c1.drop_first();
    let c3 = c2.drop_first();
    let c4 = c3.drop_first();
    let c5 = c4.drop_first();
    assert(c1[0] == fp[1] && c2[0] == fp[2] && c3[0] == fp[3] && c4[0] == fp[4] && c5.len() == 0);
    assert(run_locals(fp, locals, temps, pages) == f5);
}

} // verus!
