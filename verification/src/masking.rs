//! Mask elision inside one expression tree, for the backends that store integers
//! masked-unsigned.
//!
//! The stored representation masks every integer to its width, and each wrapping operation
//! re-masks its result. Inside a single [`Expr`] tree that is often double work: a consumer
//! that reads its operand only modulo 2^32 or 2^64 cannot observe the high bits its own mask
//! throws away. [`MaskContext`] names the consumption contexts, [`bin_operand_context`] and
//! [`un_operand_context`] are the table of which operands an operation reads modularly, and
//! [`elides_mask`] is the guard: a site's own result mask may be skipped exactly when the
//! consumer's context and the interval bound allow it. [`fold_and_chain`] folds the constants of
//! an AND chain, [`eq_const_rewrite`] drops the mask of a site compared for equality against a
//! constant when the interval pins a unique raw preimage, and [`shift_count_mode`] decides how a
//! shift count is rendered.
use vstd::prelude::*;
use vstd::arithmetic::power2::{pow2, lemma2_to64, lemma_pow2_adds, lemma_pow2_pos,
    lemma_pow2_strictly_increases};
use vstd::arithmetic::div_mod::{lemma_fundamental_div_mod, lemma_mod_bound};

use crate::compare::{comparison, is_comparison};
use crate::ir::{BinOp, Expr, LoadOp, UnOp};

verus! {

/// How a consumer reads an integer operand: `Masked` when it observes the exact stored value,
/// `Modular` when it reads only the value's congruence class modulo the type width, and
/// `Reducing` when it additionally reduces what it is handed at least as strongly as the
/// operand's own mask would.
#[derive(Clone, Copy, PartialEq, Eq, Debug, Structural)]
pub enum MaskContext {
    Masked,
    Modular,
    Reducing,
}

/// How a backend renders a shift count.
#[derive(Clone, Copy, PartialEq, Eq, Debug, Structural)]
pub enum ShiftCountMode {
    /// A constant count, already reduced modulo the width: emit the value bare.
    Constant(u32),
    /// The count's `Masked` rendering provably sits in `0..bits`: emit that rendering bare.
    InRange,
    /// Emit the count's `Modular` rendering under `& (bits - 1)`.
    Masked,
}

/// Everything the interval analysis tracks is clamped to this magnitude (2^100).
pub const CEILING: i128 = 0x10000000000000000000000000;

/// A closed interval `[lo, hi]` of exact integer values.
#[derive(Clone, Copy, Debug)]
pub struct Bound {
    pub lo: i128,
    pub hi: i128,
}

// ---------------------------------------------------------------------------------------------
// The analysis, as mathematics.

pub open spec fn ceiling() -> int {
    0x10000000000000000000000000
}

/// `v` clamped into `[-2^100, 2^100]`.
pub open spec fn clamp_spec(v: int) -> int {
    if v < -ceiling() {
        -ceiling()
    } else if v > ceiling() {
        ceiling()
    } else {
        v
    }
}

/// The interval `[lo, hi]` with both ends clamped.
pub open spec fn bound_new(lo: int, hi: int) -> Bound {
    Bound { lo: clamp_spec(lo) as i128, hi: clamp_spec(hi) as i128 }
}

/// The full masked range of a `bits`-wide value: `[0, 2^bits)`.
pub open spec fn masked_spec(bits: nat) -> Bound {
    Bound { lo: 0, hi: (pow2(bits) - 1) as i128 }
}

pub open spec fn min_int(a: int, b: int) -> int {
    if a <= b { a } else { b }
}

pub open spec fn max_int(a: int, b: int) -> int {
    if a >= b { a } else { b }
}

/// The smallest interval holding both.
pub open spec fn union_spec(a: Bound, b: Bound) -> Bound {
    Bound { lo: min_int(a.lo as int, b.lo as int) as i128, hi: max_int(a.hi as int, b.hi as int) as i128 }
}

/// Whether every value of `b` sits in `[-limit, limit)`.
pub open spec fn within_spec(b: Bound, limit: int) -> bool {
    b.lo >= -limit && b.hi < limit
}

/// Whether every value of `b` sits in `[0, 2^bits)`, where a `bits`-wide mask is the identity.
pub open spec fn is_masked_range_spec(b: Bound, bits: nat) -> bool {
    b.lo >= 0 && b.hi < pow2(bits)
}

/// Whether a site with raw interval `raw` under a `bits`-wide mask may render unmasked when
/// consumed in `ctx`.
pub open spec fn may_skip_spec(raw: Bound, bits: nat, ctx: MaskContext, limit: int) -> bool {
    is_masked_range_spec(raw, bits) || match ctx {
        MaskContext::Masked => false,
        MaskContext::Modular => within_spec(raw, limit),
        MaskContext::Reducing => true,
    }
}

/// The value of an integer constant, in its stored masked-unsigned form.
pub open spec fn int_const_spec(e: Expr) -> Option<u64> {
    match e {
        Expr::I32Const(v) => Some(v as u64),
        Expr::I64Const(v) => Some(v),
        _ => None,
    }
}

/// The context in which `op` consumes its operand `k`, whose sibling operand is `sibling`,
/// given that `op`'s own result is consumed in `ctx`.
pub open spec fn bin_operand_context_spec(op: BinOp, k: int, sibling: Expr, ctx: MaskContext) -> MaskContext {
    match op {
        BinOp::I32Add | BinOp::I32Sub | BinOp::I32Mul | BinOp::I64Add | BinOp::I64Sub
        | BinOp::I64Mul | BinOp::I32Shl | BinOp::I64Shl => MaskContext::Modular,
        BinOp::I32ShrU | BinOp::I32ShrS | BinOp::I64ShrU | BinOp::I64ShrS => if k == 1 {
            MaskContext::Modular
        } else {
            MaskContext::Masked
        },
        BinOp::I32And | BinOp::I64And => if int_const_spec(sibling) is Some {
            MaskContext::Reducing
        } else {
            match ctx {
                MaskContext::Reducing => MaskContext::Modular,
                _ => ctx,
            }
        },
        BinOp::I32Or | BinOp::I32Xor | BinOp::I64Or | BinOp::I64Xor => match ctx {
            MaskContext::Reducing => MaskContext::Modular,
            _ => ctx,
        },
        _ => MaskContext::Masked,
    }
}

/// The context in which unary `op` consumes its operand.
pub open spec fn un_operand_context_spec(op: UnOp) -> MaskContext {
    match op {
        UnOp::I32WrapI64 => MaskContext::Modular,
        _ => MaskContext::Masked,
    }
}

/// The values a shift count takes after its semantic `& (bits - 1)`: exact for a constant,
/// the full `0..bits` otherwise.
pub open spec fn count_bound_spec(b: Expr, bits: u32) -> (u32, u32) {
    match b {
        Expr::I32Const(v) => {
            let c = v & ((bits - 1) as u32);
            (c, c)
        },
        Expr::I64Const(v) => {
            let c = (v & ((bits - 1) as u64)) as u32;
            (c, c)
        },
        _ => (0, (bits - 1) as u32),
    }
}

/// The interval of the signed view of a masked interval.
pub open spec fn signed_view_spec(a: Bound, bits: nat) -> Bound {
    let half = pow2((bits - 1) as nat);
    if a.lo >= 0 && a.hi < half {
        a
    } else {
        bound_new(-half, half - 1)
    }
}

/// The number of binary digits of `h`.
pub open spec fn bit_len(h: nat) -> nat
    decreases h,
{
    if h == 0 {
        0
    } else {
        1 + bit_len(h / 2)
    }
}

/// Whether the two's-complement range `[-2^k, 2^k)` misses part of `a` or `b`.
pub open spec fn escapes(a: Bound, b: Bound, k: nat) -> bool {
    let p = pow2(k) as int;
    a.lo < -p || a.hi >= p || b.lo < -p || b.hi >= p
}

/// The exponent of the smallest power of two, from `2^k` up to `2^100`, whose two's-complement
/// range covers both `a` and `b`.
pub open spec fn cover_exp(a: Bound, b: Bound, k: nat) -> nat
    decreases 100 - k,
{
    if k < 100 && escapes(a, b, k) {
        cover_exp(a, b, k + 1)
    } else {
        k
    }
}

/// The interval of `&` (`is_and`), `|` or `^` applied to values of `a` and `b`.
pub open spec fn bitwise_bound_spec(is_and: bool, a: Bound, b: Bound) -> Bound {
    if is_and && a.lo >= 0 && b.lo >= 0 {
        bound_new(0, min_int(a.hi as int, b.hi as int))
    } else if is_and && a.lo >= 0 {
        bound_new(0, a.hi as int)
    } else if is_and && b.lo >= 0 {
        bound_new(0, b.hi as int)
    } else if !is_and && a.lo >= 0 && b.lo >= 0 {
        let h = max_int(a.hi as int, b.hi as int);
        let n: nat = if h < 0 { 128 } else { bit_len(h as nat) };
        if n >= 100 {
            bound_new(0, ceiling())
        } else {
            bound_new(0, pow2(n) - 1)
        }
    } else {
        let p = pow2(cover_exp(a, b, 0)) as int;
        bound_new(-p, p - 1)
    }
}

/// The masked range a load produces.
pub open spec fn load_bound_spec(op: LoadOp, bits: nat) -> Bound {
    match op {
        LoadOp::I32Load8U | LoadOp::I64Load8U => bound_new(0, 0xff),
        LoadOp::I32Load16U | LoadOp::I64Load16U => bound_new(0, 0xffff),
        LoadOp::I64Load32U => bound_new(0, 0xffff_ffff),
        LoadOp::I32Load => masked_spec(32),
        LoadOp::I64Load => masked_spec(64),
        _ => masked_spec(bits),
    }
}

/// `x >> c` on an exact integer: floor division by `2^c`.
pub open spec fn shr_spec(x: int, c: nat) -> int {
    x / (pow2(c) as int)
}

/// The mask width of the wrapping operation `op` carries, if it carries one.
pub open spec fn mask_bits_spec(op: BinOp) -> Option<u32> {
    match op {
        BinOp::I32Add | BinOp::I32Sub | BinOp::I32Mul | BinOp::I32Shl | BinOp::I32ShrS => Some(32),
        BinOp::I64Add | BinOp::I64Sub | BinOp::I64Mul | BinOp::I64Shl | BinOp::I64ShrS => Some(64),
        _ => None,
    }
}

pub open spec fn min4(a: int, b: int, c: int, d: int) -> int {
    min_int(min_int(a, b), min_int(c, d))
}

pub open spec fn max4(a: int, b: int, c: int, d: int) -> int {
    max_int(max_int(a, b), max_int(c, d))
}

/// The interval of the raw (unmasked) value of a wrapping binary operation, given the
/// intervals `ba` of its left operand and the rendering of its right operand `b`.
pub open spec fn raw_bin_spec(op: BinOp, bits: u32, ba: Bound, b: Expr, bb: Bound) -> Bound {
    match op {
        BinOp::I32Add | BinOp::I64Add => bound_new(ba.lo + bb.lo, ba.hi + bb.hi),
        BinOp::I32Sub | BinOp::I64Sub => bound_new(ba.lo - bb.hi, ba.hi - bb.lo),
        BinOp::I32Mul | BinOp::I64Mul => {
            let c1 = clamp_spec(ba.lo * bb.lo);
            let c2 = clamp_spec(ba.lo * bb.hi);
            let c3 = clamp_spec(ba.hi * bb.lo);
            let c4 = clamp_spec(ba.hi * bb.hi);
            bound_new(min4(c1, c2, c3, c4), max4(c1, c2, c3, c4))
        },
        BinOp::I32Shl | BinOp::I64Shl => {
            let (cmin, cmax) = count_bound_spec(b, bits);
            let c1 = clamp_spec(ba.lo * pow2(cmin as nat));
            let c2 = clamp_spec(ba.lo * pow2(cmax as nat));
            let c3 = clamp_spec(ba.hi * pow2(cmin as nat));
            let c4 = clamp_spec(ba.hi * pow2(cmax as nat));
            bound_new(min4(c1, c2, c3, c4), max4(c1, c2, c3, c4))
        },
        _ => {
            let s = signed_view_spec(ba, bits as nat);
            let (cmin, cmax) = count_bound_spec(b, bits);
            let c1 = shr_spec(s.lo as int, cmin as nat);
            let c2 = shr_spec(s.lo as int, cmax as nat);
            let c3 = shr_spec(s.hi as int, cmin as nat);
            let c4 = shr_spec(s.hi as int, cmax as nat);
            bound_new(min4(c1, c2, c3, c4), max4(c1, c2, c3, c4))
        },
    }
}

/// The interval of the value `e`'s rendering takes when consumed in `ctx`, where `bits` is the
/// width of `e`'s integer type and `limit` the elision bound.
pub open spec fn bound_spec(e: Expr, bits: u32, ctx: MaskContext, limit: int) -> Bound
    decreases e, 1int,
{
    match raw_bound_spec(e, limit) {
        Some((raw, _)) => if may_skip_spec(raw, bits as nat, ctx, limit) {
            raw
        } else {
            masked_spec(bits as nat)
        },
        None => match e {
            Expr::I32Const(v) => bound_new(v as int, v as int),
            Expr::I64Const(v) => bound_new(v as int, v as int),
            Expr::MemorySize => bound_new(0, 0x10000),
            Expr::Load { op, .. } => load_bound_spec(op, bits as nat),
            Expr::Select { then, els, .. } => union_spec(
                bound_spec(*then, bits, MaskContext::Masked, limit),
                bound_spec(*els, bits, MaskContext::Masked, limit),
            ),
            Expr::Un(op, a) => match op {
                UnOp::I32Eqz | UnOp::I64Eqz => bound_new(0, 1),
                UnOp::I32Clz | UnOp::I32Ctz | UnOp::I32Popcnt => bound_new(0, 32),
                UnOp::I64Clz | UnOp::I64Ctz | UnOp::I64Popcnt => bound_new(0, 64),
                UnOp::I64ExtendI32U => bound_spec(*a, 32, MaskContext::Masked, limit),
                _ => masked_spec(bits as nat),
            },
            Expr::Bin(op, a, b) => if is_comparison(op) {
                bound_new(0, 1)
            } else {
                match op {
                    BinOp::I32And | BinOp::I64And | BinOp::I32Or | BinOp::I64Or | BinOp::I32Xor
                    | BinOp::I64Xor => bitwise_bound_spec(
                        op == BinOp::I32And || op == BinOp::I64And,
                        bound_spec(*a, bits, bin_operand_context_spec(op, 0, *b, ctx), limit),
                        bound_spec(*b, bits, bin_operand_context_spec(op, 1, *a, ctx), limit),
                    ),
                    BinOp::I32ShrU | BinOp::I64ShrU => {
                        let ba = bound_spec(*a, bits, MaskContext::Masked, limit);
                        let (cmin, cmax) = count_bound_spec(*b, bits);
                        bound_new(
                            min_int(shr_spec(ba.lo as int, cmin as nat), shr_spec(ba.lo as int, cmax as nat)),
                            max_int(shr_spec(ba.hi as int, cmin as nat), shr_spec(ba.hi as int, cmax as nat)),
                        )
                    },
                    _ => masked_spec(bits as nat),
                }
            },
            _ => masked_spec(bits as nat),
        },
    }
}

/// The interval of `e`'s value rendered without its own result mask and the width of that
/// mask, or `None` when `e` carries no mask of its own.
pub open spec fn raw_bound_spec(e: Expr, limit: int) -> Option<(Bound, u32)>
    decreases e, 0int,
{
    match e {
        Expr::Un(UnOp::I32WrapI64, a) => Some((bound_spec(*a, 64, MaskContext::Modular, limit), 32)),
        Expr::Bin(op, a, b) => match mask_bits_spec(op) {
            Some(bits) => {
                let ba = bound_spec(*a, bits, bin_operand_context_spec(op, 0, *b, MaskContext::Modular), limit);
                let bb = bound_spec(*b, bits, MaskContext::Modular, limit);
                Some((raw_bin_spec(op, bits, ba, *b, bb), bits))
            },
            None => None,
        },
        _ => None,
    }
}

/// Whether `e`'s own result mask may be skipped when its consumer reads it in `ctx`.
pub open spec fn elides_spec(e: Expr, ctx: MaskContext, limit: int) -> bool {
    match raw_bound_spec(e, limit) {
        Some((raw, bits)) => may_skip_spec(raw, bits as nat, ctx, limit),
        None => false,
    }
}

/// How a `bits`-wide shift's count `e` is rendered.
pub open spec fn shift_count_mode_spec(e: Expr, bits: u32, limit: int) -> ShiftCountMode {
    match e {
        Expr::I32Const(_) | Expr::I64Const(_) => ShiftCountMode::Constant(count_bound_spec(e, bits).0),
        _ => {
            let b = bound_spec(e, bits, MaskContext::Masked, limit);
            if b.lo >= 0 && b.hi < bits {
                ShiftCountMode::InRange
            } else {
                ShiftCountMode::Masked
            }
        },
    }
}

/// The width `op` reduces its shift count modulo, for the shifts whose count reduction sits at
/// the call site.
pub open spec fn shift_width_spec(op: BinOp) -> Option<u32> {
    match op {
        BinOp::I32Shl | BinOp::I32ShrS | BinOp::I32ShrU => Some(32),
        BinOp::I64Shl | BinOp::I64ShrS | BinOp::I64ShrU => Some(64),
        _ => None,
    }
}

/// The well-formedness every interval the analysis produces at width `bits` satisfies.
pub open spec fn bound_ok(b: Bound, bits: nat) -> bool {
    let m = max_int(ceiling(), pow2(bits) - 1);
    &&& -ceiling() <= b.lo <= m
    &&& -ceiling() <= b.hi <= m
}

/// An interval clamped to the ceiling.
pub open spec fn clamped_ok(b: Bound) -> bool {
    &&& -ceiling() <= b.lo <= ceiling()
    &&& -ceiling() <= b.hi <= ceiling()
}

/// The non-constant operand of an AND and its constant sibling, when exactly one operand is
/// an integer constant.
pub open spec fn and_split_spec(a: Expr, b: Expr) -> Option<(Expr, u64)> {
    match (int_const_spec(a), int_const_spec(b)) {
        (Some(c), None) => Some((b, c)),
        (None, Some(c)) => Some((a, c)),
        _ => None,
    }
}

/// Whether `op` is an integer AND.
pub open spec fn is_and(op: BinOp) -> bool {
    op == BinOp::I32And || op == BinOp::I64And
}

/// Folding continued from the residual `e` with accumulated constant `c`: the expression left
/// once no AND-with-one-constant layer remains, the constant `c` folded with every layer's
/// constant, and whether any layer was folded.
pub open spec fn chain_rest_spec(e: Expr, c: u64) -> (Expr, u64, bool)
    decreases e,
{
    match e {
        Expr::Bin(op, x, y) => if is_and(op) {
            match (int_const_spec(*x), int_const_spec(*y)) {
                (Some(c2), None) => {
                    let r = chain_rest_spec(*y, c & c2);
                    (r.0, r.1, true)
                },
                (None, Some(c2)) => {
                    let r = chain_rest_spec(*x, c & c2);
                    (r.0, r.1, true)
                },
                _ => (e, c, false),
            }
        } else {
            (e, c, false)
        },
        _ => (e, c, false),
    }
}

/// The fold of a constant AND chain whose outermost AND has operands `a` and `b`: the residual
/// expression and the AND of every constant in the chain, when at least two constants fold.
pub open spec fn fold_and_chain_spec(a: Expr, b: Expr) -> Option<(Expr, u64)> {
    match and_split_spec(a, b) {
        None => None,
        Some((e, c)) => {
            let r = chain_rest_spec(e, c);
            if r.2 {
                Some((r.0, r.1))
            } else {
                None
            }
        },
    }
}

/// The height of an expression tree.
pub open spec fn expr_depth(e: Expr) -> nat
    decreases e,
{
    match e {
        Expr::Un(_, a) => 1 + expr_depth(*a),
        Expr::Bin(_, a, b) => 1 + max_int(expr_depth(*a) as int, expr_depth(*b) as int) as nat,
        Expr::Load { addr, .. } => 1 + expr_depth(*addr),
        Expr::Select { cond, then, els } => 1 + max_int(
            expr_depth(*cond) as int,
            max_int(expr_depth(*then) as int, expr_depth(*els) as int),
        ) as nat,
        _ => 1,
    }
}

/// The constant's migration across the raw add/sub-by-constant layers of `e`, compared against
/// `target` in `ctx`: a wrap peels away, `x + c1 == t` becomes `x == t - c1`, `x - c1 == t`
/// becomes `x == t + c1`, `c1 - x == t` becomes `x == c1 - t`; migration stops below the first
/// layer whose own mask stays, or at the first layer that does not peel.
pub open spec fn peel_spec(e: Expr, target: int, ctx: MaskContext, limit: int) -> (Expr, MaskContext, int)
    decreases e,
{
    match e {
        Expr::Un(UnOp::I32WrapI64, x) => if elides_spec(*x, MaskContext::Modular, limit) {
            peel_spec(*x, target, MaskContext::Modular, limit)
        } else {
            (*x, MaskContext::Modular, target)
        },
        Expr::Bin(op, x, y) => if op == BinOp::I32Add || op == BinOp::I64Add {
            match (int_const_spec(*x), int_const_spec(*y)) {
                (Some(c1), None) => if elides_spec(*y, MaskContext::Modular, limit) {
                    peel_spec(*y, target - c1, MaskContext::Modular, limit)
                } else {
                    (*y, MaskContext::Modular, target - c1)
                },
                (None, Some(c1)) => if elides_spec(*x, MaskContext::Modular, limit) {
                    peel_spec(*x, target - c1, MaskContext::Modular, limit)
                } else {
                    (*x, MaskContext::Modular, target - c1)
                },
                _ => (e, ctx, target),
            }
        } else if op == BinOp::I32Sub || op == BinOp::I64Sub {
            match (int_const_spec(*x), int_const_spec(*y)) {
                (Some(c1), None) => if elides_spec(*y, MaskContext::Modular, limit) {
                    peel_spec(*y, c1 - target, MaskContext::Modular, limit)
                } else {
                    (*y, MaskContext::Modular, c1 - target)
                },
                (None, Some(c1)) => if elides_spec(*x, MaskContext::Modular, limit) {
                    peel_spec(*x, target + c1, MaskContext::Modular, limit)
                } else {
                    (*x, MaskContext::Modular, target + c1)
                },
                _ => (e, ctx, target),
            }
        } else {
            (e, ctx, target)
        },
        _ => (e, ctx, target),
    }
}

/// The unique raw candidate `c + k * 2^bits` inside `raw`, if `raw` meets exactly one; `None`
/// also when `raw` touches the ceiling, which may have hidden candidates beyond it.
pub open spec fn pinned_candidate(raw: Bound, bits: nat, c: int) -> Option<int> {
    if raw.lo <= -ceiling() || raw.hi >= ceiling() {
        None
    } else {
        let m = pow2(bits) as int;
        let k_min = (raw.lo - c + m - 1) / m;
        let k_max = (raw.hi - c) / m;
        if k_min != k_max {
            None
        } else {
            Some(c + k_min * m)
        }
    }
}

/// The unmasked form of an integer equality between the mask site `e` and the constant `c`:
/// the expression to render, the context to render it in, and the exact comparison constant.
pub open spec fn eq_const_rewrite_spec(e: Expr, c: u64, limit: int) -> Option<(Expr, MaskContext, int)> {
    match raw_bound_spec(e, limit) {
        None => None,
        Some((raw, bits)) => match pinned_candidate(raw, bits as nat, c as int) {
            None => None,
            Some(t) => Some(peel_spec(e, t, MaskContext::Reducing, limit)),
        },
    }
}

// ---------------------------------------------------------------------------------------------
// Arithmetic facts.

proof fn lemma_pow2_facts()
    ensures
        pow2(32) == 0x1_0000_0000,
        pow2(64) == 0x1_0000_0000_0000_0000,
        pow2(126) == 0x4000_0000_0000_0000_0000_0000_0000_0000,
        pow2(64) < ceiling(),
{
    lemma2_to64();
    lemma_pow2_adds(64, 32);
    lemma_pow2_adds(96, 30);
    lemma_pow2_adds(64, 36);
    lemma_pow2_adds(32, 4);
    let a = pow2(64);
    let b = pow2(32);
    let c = pow2(30);
    assert(a * b == 0x1_0000_0000_0000_0000_0000_0000) by (nonlinear_arith)
        requires
            a == 0x1_0000_0000_0000_0000,
            b == 0x1_0000_0000;
    let d = pow2(96);
    assert(d * c == 0x4000_0000_0000_0000_0000_0000_0000_0000) by (nonlinear_arith)
        requires
            d == 0x1_0000_0000_0000_0000_0000_0000,
            c == 0x4000_0000;
}

proof fn lemma_pow2_le(a: nat, b: nat)
    requires
        a <= b,
    ensures
        pow2(a) <= pow2(b),
{
    if a < b {
        lemma_pow2_strictly_increases(a, b);
    }
}

/// `2^n` as an `i128`.
fn pow2_i128(n: u32) -> (r: i128)
    requires
        n <= 126,
    ensures
        r as int == pow2(n as nat),
        r >= 1,
{
    proof {
        lemma_pow2_facts();
        lemma_pow2_le(n as nat, 126);
    }
    let mut r: i128 = 1;
    let mut i: u32 = 0;
    proof {
        lemma2_to64();
    }
    while i < n
        invariant
            i <= n <= 126,
            r as int == pow2(i as nat),
            pow2(n as nat) <= 0x4000_0000_0000_0000_0000_0000_0000_0000,
        decreases n - i,
    {
        proof {
            lemma_pow2_succ(i as nat);
            lemma_pow2_le((i + 1) as nat, n as nat);
        }
        r = r * 2;
        i = i + 1;
    }
    proof {
        lemma_pow2_pos(n as nat);
    }
    r
}

/// `v` clamped into `[-2^100, 2^100]`.
fn clamp(v: i128) -> (r: i128)
    ensures
        r as int == clamp_spec(v as int),
{
    if v < -CEILING {
        -CEILING
    } else if v > CEILING {
        CEILING
    } else {
        v
    }
}

/// The product `x * y`, clamped: a saturating multiplication followed by the
/// clamp, which agree on every pair of `i128` values.
fn clamped_mul(x: i128, y: i128) -> (r: i128)
    ensures
        r as int == clamp_spec(x * y),
{
    match x.checked_mul(y) {
        Some(p) => clamp(p),
        None => {
            if (x < 0) != (y < 0) {
                proof {
                    if x < 0 {
                        assert(x * y <= 0) by (nonlinear_arith)
                            requires x < 0, y >= 0;
                    } else {
                        assert(x * y <= 0) by (nonlinear_arith)
                            requires x >= 0, y < 0;
                    }
                }
                -CEILING
            } else {
                proof {
                    if x < 0 {
                        assert(x * y >= 0) by (nonlinear_arith)
                            requires x < 0, y < 0;
                    } else {
                        assert(x * y >= 0) by (nonlinear_arith)
                            requires x >= 0, y >= 0;
                    }
                }
                CEILING
            }
        },
    }
}

/// `x >> c`: floor division by `2^c`.
fn shr_floor(x: i128, c: u32) -> (r: i128)
    requires
        c <= 126,
    ensures
        r as int == shr_spec(x as int, c as nat),
{
    let d = pow2_i128(c);
    proof {
        let q = x as int / d as int;
        lemma_fundamental_div_mod(x as int, d as int);
        lemma_mod_bound(x as int, d as int);
        if x >= 0 {
            assert(0 <= q <= x) by (nonlinear_arith)
                requires
                    x >= 0,
                    d >= 1,
                    x == d * q + x % d,
                    0 <= x % d < d;
        } else {
            assert(x <= q < 0) by (nonlinear_arith)
                requires
                    x < 0,
                    d >= 1,
                    x == d * q + x % d,
                    0 <= x % d < d;
        }
    }
    match x.checked_div_euclid(d) {
        Some(q) => q,
        None => 0,
    }
}

fn min_i128(a: i128, b: i128) -> (r: i128)
    ensures
        r as int == min_int(a as int, b as int),
{
    if a <= b { a } else { b }
}

fn max_i128(a: i128, b: i128) -> (r: i128)
    ensures
        r as int == max_int(a as int, b as int),
{
    if a >= b { a } else { b }
}

// ---------------------------------------------------------------------------------------------
// Intervals.

impl Bound {
    /// The interval `[lo, hi]`, clamped.
    pub fn new(lo: i128, hi: i128) -> (r: Bound)
        ensures
            r == bound_new(lo as int, hi as int),
            clamped_ok(r),
    {
        Bound { lo: clamp(lo), hi: clamp(hi) }
    }

    /// The single value `v`.
    pub fn exact(v: i128) -> (r: Bound)
        ensures
            r == bound_new(v as int, v as int),
            clamped_ok(r),
    {
        Bound::new(v, v)
    }

    /// The full masked range of a `bits`-wide value: `[0, 2^bits)`.
    pub fn masked(bits: u32) -> (r: Bound)
        requires
            bits <= 126,
        ensures
            r == masked_spec(bits as nat),
            bound_ok(r, bits as nat),
    {
        proof {
            lemma_pow2_pos(bits as nat);
        }
        Bound { lo: 0, hi: pow2_i128(bits) - 1 }
    }

    /// The smallest interval holding both.
    pub fn union(self, o: Bound) -> (r: Bound)
        ensures
            r == union_spec(self, o),
    {
        Bound { lo: min_i128(self.lo, o.lo), hi: max_i128(self.hi, o.hi) }
    }

    /// Whether every value sits in `[-limit, limit)`.
    pub fn within(self, limit: i128) -> (r: bool)
        requires
            limit > i128::MIN,
        ensures
            r == within_spec(self, limit as int),
    {
        self.lo >= -limit && self.hi < limit
    }

    /// Whether every value sits in `[0, 2^bits)`.
    pub fn is_masked_range(self, bits: u32) -> (r: bool)
        requires
            bits <= 126,
        ensures
            r == is_masked_range_spec(self, bits as nat),
    {
        self.lo >= 0 && self.hi < pow2_i128(bits)
    }
}

/// Whether a site with raw interval `raw` under a `bits`-wide mask may render unmasked when
/// consumed in `ctx`: an interval inside `[0, 2^bits)` makes the mask the identity, a modular
/// consumer needs the exposed value inside `[-limit, limit)`, a reducing one needs nothing.
fn may_skip_mask(raw: Bound, bits: u32, ctx: MaskContext, limit: i128) -> (r: bool)
    requires
        bits <= 126,
        limit > i128::MIN,
    ensures
        r == may_skip_spec(raw, bits as nat, ctx, limit as int),
{
    raw.is_masked_range(bits) || match ctx {
        MaskContext::Masked => false,
        MaskContext::Modular => raw.within(limit),
        MaskContext::Reducing => true,
    }
}

/// The interval of the signed view (`s32`/`s64`) of a masked interval: the identity below the
/// sign bit, the full signed range once the interval reaches it.
fn signed_view(a: Bound, bits: u32) -> (r: Bound)
    requires
        1 <= bits <= 126,
    ensures
        r == signed_view_spec(a, bits as nat),
{
    let half = pow2_i128(bits - 1);
    if a.lo >= 0 && a.hi < half {
        a
    } else {
        Bound::new(-half, half - 1)
    }
}

/// The number of binary digits of `h`.
fn bit_length(h: i128) -> (r: u32)
    requires
        h >= 0,
    ensures
        r as nat == bit_len(h as nat),
        r <= 127,
{
    proof {
        lemma_pow2_facts();
        lemma_pow2_succ(126);
        lemma_bit_len_le(h as nat, 127);
    }
    let mut v = h;
    let mut n: u32 = 0;
    while v > 0
        invariant
            v >= 0,
            n as nat + bit_len(v as nat) == bit_len(h as nat),
            bit_len(h as nat) <= 127,
        decreases v,
    {
        v = v / 2;
        n = n + 1;
    }
    n
}

proof fn lemma_pow2_succ(e: nat)
    ensures
        pow2(e + 1) == 2 * pow2(e),
{
    vstd::arithmetic::power2::lemma_pow2_unfold(e + 1);
}

proof fn lemma_bit_len_le(h: nat, k: nat)
    requires
        h < pow2(k),
    ensures
        bit_len(h) <= k,
    decreases h,
{
    if h > 0 {
        lemma2_to64();
        assert(k > 0);
        lemma_pow2_succ((k - 1) as nat);
        lemma_bit_len_le(h / 2, (k - 1) as nat);
    }
}

/// Bitwise `&`, `|`, `^` on two's-complement integers. `x & y` with a non-negative `y` never
/// sets a bit `y` lacks: `0 <= x & y <= y`. `|` and `^` of non-negative operands stay inside the
/// operands' bit envelope; with a possibly negative operand, anything representable in the
/// covering two's-complement width can come out.
fn bitwise_bound(is_and: bool, a: Bound, b: Bound) -> (r: Bound)
    ensures
        r == bitwise_bound_spec(is_and, a, b),
        clamped_ok(r),
{
    if is_and {
        if a.lo >= 0 && b.lo >= 0 {
            return Bound::new(0, min_i128(a.hi, b.hi));
        } else if a.lo >= 0 {
            return Bound::new(0, a.hi);
        } else if b.lo >= 0 {
            return Bound::new(0, b.hi);
        }
    } else if a.lo >= 0 && b.lo >= 0 {
        let h = max_i128(a.hi, b.hi);
        let bits: u32 = if h < 0 { 128 } else { bit_length(h) };
        if bits >= 100 {
            return Bound::new(0, CEILING);
        } else {
            let p = pow2_i128(bits);
            return Bound::new(0, p - 1);
        }
    }
    let mut p: i128 = 1;
    let ghost mut k: nat = 0;
    proof {
        lemma2_to64();
    }
    while p < CEILING && (a.lo < -p || a.hi >= p || b.lo < -p || b.hi >= p)
        invariant
            k <= 100,
            p as int == pow2(k),
            p <= CEILING,
            cover_exp(a, b, k) == cover_exp(a, b, 0),
        decreases 100 - k,
    {
        proof {
            lemma_pow2_100();
            if k >= 100 {
                lemma_pow2_le(100, k);
            }
            lemma_pow2_succ(k);
            lemma_pow2_le(k + 1, 100);
        }
        p = p * 2;
        proof {
            k = k + 1;
        }
    }
    proof {
        lemma_pow2_100();
        if k < 100 {
            lemma_pow2_strictly_increases(k, 100);
        }
    }
    Bound::new(-p, p - 1)
}

proof fn lemma_pow2_100()
    ensures
        pow2(100) == ceiling(),
{
    lemma2_to64();
    lemma_pow2_adds(64, 36);
    lemma_pow2_adds(32, 4);
    let a = pow2(64);
    let b0 = pow2(32);
    let b1 = pow2(4);
    assert(b0 * b1 == 0x10_0000_0000) by (nonlinear_arith)
        requires
            b0 == 0x1_0000_0000,
            b1 == 0x10;
    let b = pow2(36);
    assert(a * b == 0x10000000000000000000000000) by (nonlinear_arith)
        requires
            a == 0x1_0000_0000_0000_0000,
            b == 0x10_0000_0000;
}

/// The masked range a load produces, exact for the zero-extending narrow loads.
fn load_bound(op: LoadOp, bits: u32) -> (r: Bound)
    requires
        bits <= 126,
    ensures
        r == load_bound_spec(op, bits as nat),
        bound_ok(r, bits as nat),
{
    proof {
        lemma_pow2_facts();
        lemma_pow2_pos(bits as nat);
    }
    match op {
        LoadOp::I32Load8U | LoadOp::I64Load8U => Bound::new(0, 0xff),
        LoadOp::I32Load16U | LoadOp::I64Load16U => Bound::new(0, 0xffff),
        LoadOp::I64Load32U => Bound::new(0, 0xffff_ffff),
        LoadOp::I32Load => Bound::masked(32),
        LoadOp::I64Load => Bound::masked(64),
        _ => Bound::masked(bits),
    }
}


// ---------------------------------------------------------------------------------------------
// Operand contexts.

/// The value of an integer constant, in its stored masked-unsigned form.
fn int_const(e: &Expr) -> (r: Option<u64>)
    ensures
        r == int_const_spec(*e),
{
    match e {
        Expr::I32Const(v) => Some(*v as u64),
        Expr::I64Const(v) => Some(*v),
        _ => None,
    }
}

/// The context in which `op` consumes its operand `k` (0-based), whose sibling operand is
/// `sibling`, given that `op`'s own result is consumed in `ctx`.
///
/// An operation with its own result mask reads its operands modularly regardless of `ctx`. A
/// shift count is modular for every shift. An AND with a constant sibling reduces its other
/// operand itself. The other maskless bitwise operators pass `ctx` through, except that a
/// reducing consumer weakens to `Modular`. Everything else observes the exact value.
pub fn bin_operand_context(op: BinOp, k: usize, sibling: &Expr, ctx: MaskContext) -> (r: MaskContext)
    ensures
        r == bin_operand_context_spec(op, k as int, *sibling, ctx),
{
    match op {
        BinOp::I32Add | BinOp::I32Sub | BinOp::I32Mul | BinOp::I64Add | BinOp::I64Sub
        | BinOp::I64Mul | BinOp::I32Shl | BinOp::I64Shl => MaskContext::Modular,
        BinOp::I32ShrU | BinOp::I32ShrS | BinOp::I64ShrU | BinOp::I64ShrS => {
            if k == 1 {
                MaskContext::Modular
            } else {
                MaskContext::Masked
            }
        },
        BinOp::I32And | BinOp::I64And => {
            if int_const(sibling).is_some() {
                MaskContext::Reducing
            } else {
                match ctx {
                    MaskContext::Reducing => MaskContext::Modular,
                    _ => ctx,
                }
            }
        },
        BinOp::I32Or | BinOp::I32Xor | BinOp::I64Or | BinOp::I64Xor => match ctx {
            MaskContext::Reducing => MaskContext::Modular,
            _ => ctx,
        },
        _ => MaskContext::Masked,
    }
}

/// The [`bin_operand_context`] counterpart for unary operations: only the wrap consumes
/// modularly.
pub fn un_operand_context(op: UnOp) -> (r: MaskContext)
    ensures
        r == un_operand_context_spec(op),
{
    match op {
        UnOp::I32WrapI64 => MaskContext::Modular,
        _ => MaskContext::Masked,
    }
}

/// The values a shift count takes after its semantic `& (bits - 1)`.
fn count_bound(b: &Expr, bits: u32) -> (r: (u32, u32))
    requires
        1 <= bits,
    ensures
        r == count_bound_spec(*b, bits),
        r.0 <= r.1 < bits,
{
    let m = bits - 1;
    match b {
        Expr::I32Const(v) => {
            let c = *v & m;
            assert(c <= m) by (bit_vector)
                requires c == *v & m;
            (c, c)
        },
        Expr::I64Const(v) => {
            let m64 = m as u64;
            let c64 = *v & m64;
            assert(c64 <= m64) by (bit_vector)
                requires c64 == *v & m64;
            (c64 as u32, c64 as u32)
        },
        _ => (0, m),
    }
}

/// The width of the wrapping operation's own result mask, if `op` carries one.
fn mask_bits(op: BinOp) -> (r: Option<u32>)
    ensures
        r == mask_bits_spec(op),
{
    match op {
        BinOp::I32Add | BinOp::I32Sub | BinOp::I32Mul | BinOp::I32Shl | BinOp::I32ShrS => Some(32),
        BinOp::I64Add | BinOp::I64Sub | BinOp::I64Mul | BinOp::I64Shl | BinOp::I64ShrS => Some(64),
        _ => None,
    }
}

// ---------------------------------------------------------------------------------------------
// The interval analysis.

/// The interval of the value `e`'s rendering takes when consumed in `ctx`, under the elision
/// policy of [`elides_mask`] with the same `limit`.
fn bound(e: &Expr, bits: u32, ctx: MaskContext, limit: i128) -> (r: Bound)
    requires
        1 <= bits <= 126,
        limit > i128::MIN,
    ensures
        r == bound_spec(*e, bits, ctx, limit as int),
        bound_ok(r, bits as nat),
    decreases e, 1int,
{
    proof {
        lemma_pow2_facts();
        lemma_pow2_pos(bits as nat);
    }
    match raw_bound(e, limit) {
        Some((raw, _)) => {
            return if may_skip_mask(raw, bits, ctx, limit) {
                raw
            } else {
                Bound::masked(bits)
            };
        },
        None => {},
    }
    match e {
        Expr::I32Const(v) => Bound::exact(*v as i128),
        Expr::I64Const(v) => Bound::exact(*v as i128),
        Expr::MemorySize => Bound::new(0, 0x10000),
        Expr::Load { op, .. } => load_bound(*op, bits),
        Expr::Select { then, els, .. } => {
            let bt = bound(then, bits, MaskContext::Masked, limit);
            let be = bound(els, bits, MaskContext::Masked, limit);
            bt.union(be)
        },
        Expr::Un(op, a) => match op {
            UnOp::I32Eqz | UnOp::I64Eqz => Bound::new(0, 1),
            UnOp::I32Clz | UnOp::I32Ctz | UnOp::I32Popcnt => Bound::new(0, 32),
            UnOp::I64Clz | UnOp::I64Ctz | UnOp::I64Popcnt => Bound::new(0, 64),
            UnOp::I64ExtendI32U => {
                let r = bound(a, 32, MaskContext::Masked, limit);
                r
            },
            _ => Bound::masked(bits),
        },
        Expr::Bin(op, a, b) => {
            if comparison(*op).is_some() {
                return Bound::new(0, 1);
            }
            match op {
                BinOp::I32And | BinOp::I64And | BinOp::I32Or | BinOp::I64Or | BinOp::I32Xor
                | BinOp::I64Xor => {
                    let ca = bin_operand_context(*op, 0, b, ctx);
                    let cb = bin_operand_context(*op, 1, a, ctx);
                    let ba = bound(a, bits, ca, limit);
                    let bb = bound(b, bits, cb, limit);
                    bitwise_bound(*op == BinOp::I32And || *op == BinOp::I64And, ba, bb)
                },
                BinOp::I32ShrU | BinOp::I64ShrU => {
                    let ba = bound(a, bits, MaskContext::Masked, limit);
                    let (cmin, cmax) = count_bound(b, bits);
                    Bound::new(
                        min_i128(shr_floor(ba.lo, cmin), shr_floor(ba.lo, cmax)),
                        max_i128(shr_floor(ba.hi, cmin), shr_floor(ba.hi, cmax)),
                    )
                },
                _ => Bound::masked(bits),
            }
        },
        _ => Bound::masked(bits),
    }
}

/// The interval of `e`'s value rendered without its own result mask and the width of that
/// mask, or `None` when `e` carries no mask of its own.
fn raw_bound(e: &Expr, limit: i128) -> (r: Option<(Bound, u32)>)
    requires
        limit > i128::MIN,
    ensures
        r == raw_bound_spec(*e, limit as int),
        match r {
            Some((b, w)) => clamped_ok(b) && (w == 32 || w == 64),
            None => true,
        },
    decreases e, 0int,
{
    proof {
        lemma_pow2_facts();
    }
    match e {
        Expr::Un(UnOp::I32WrapI64, a) => {
            let b = bound(a, 64, MaskContext::Modular, limit);
            Some((b, 32))
        },
        Expr::Bin(op, a, b) => {
            let bits = match mask_bits(*op) {
                Some(w) => w,
                None => return None,
            };
            let ca = bin_operand_context(*op, 0, b, MaskContext::Modular);
            let ba = bound(a, bits, ca, limit);
            let bb = bound(b, bits, MaskContext::Modular, limit);
            let raw = match op {
                BinOp::I32Add | BinOp::I64Add => Bound::new(ba.lo + bb.lo, ba.hi + bb.hi),
                BinOp::I32Sub | BinOp::I64Sub => Bound::new(ba.lo - bb.hi, ba.hi - bb.lo),
                BinOp::I32Mul | BinOp::I64Mul => {
                    let c1 = clamped_mul(ba.lo, bb.lo);
                    let c2 = clamped_mul(ba.lo, bb.hi);
                    let c3 = clamped_mul(ba.hi, bb.lo);
                    let c4 = clamped_mul(ba.hi, bb.hi);
                    Bound::new(
                        min_i128(min_i128(c1, c2), min_i128(c3, c4)),
                        max_i128(max_i128(c1, c2), max_i128(c3, c4)),
                    )
                },
                BinOp::I32Shl | BinOp::I64Shl => {
                    let (cmin, cmax) = count_bound(b, bits);
                    let pmin = pow2_i128(cmin);
                    let pmax = pow2_i128(cmax);
                    let c1 = clamped_mul(ba.lo, pmin);
                    let c2 = clamped_mul(ba.lo, pmax);
                    let c3 = clamped_mul(ba.hi, pmin);
                    let c4 = clamped_mul(ba.hi, pmax);
                    Bound::new(
                        min_i128(min_i128(c1, c2), min_i128(c3, c4)),
                        max_i128(max_i128(c1, c2), max_i128(c3, c4)),
                    )
                },
                _ => {
                    let s = signed_view(ba, bits);
                    let (cmin, cmax) = count_bound(b, bits);
                    let c1 = shr_floor(s.lo, cmin);
                    let c2 = shr_floor(s.lo, cmax);
                    let c3 = shr_floor(s.hi, cmin);
                    let c4 = shr_floor(s.hi, cmax);
                    Bound::new(
                        min_i128(min_i128(c1, c2), min_i128(c3, c4)),
                        max_i128(max_i128(c1, c2), max_i128(c3, c4)),
                    )
                },
            };
            Some((raw, bits))
        },
        _ => None,
    }
}

/// Whether `e`'s own result mask may be skipped when its consumer reads it in `ctx`: `e` must
/// carry a mask of its own, and the interval of the value it exposes unmasked decides.
/// `limit` is the backend's unboxed-integer bound.
pub fn elides_mask(e: &Expr, ctx: MaskContext, limit: i128) -> (r: bool)
    requires
        limit > i128::MIN,
    ensures
        r == elides_spec(*e, ctx, limit as int),
{
    match raw_bound(e, limit) {
        Some((raw, bits)) => may_skip_mask(raw, bits, ctx, limit),
        None => false,
    }
}

/// [`ShiftCountMode`] for the count `e` of a `bits`-wide shift, under the elision policy of
/// [`elides_mask`] with the same `limit`.
pub fn shift_count_mode(e: &Expr, bits: u32, limit: i128) -> (r: ShiftCountMode)
    requires
        1 <= bits <= 126,
        limit > i128::MIN,
    ensures
        r == shift_count_mode_spec(*e, bits, limit as int),
{
    match e {
        Expr::I32Const(_) | Expr::I64Const(_) => {
            let (c, _) = count_bound(e, bits);
            return ShiftCountMode::Constant(c);
        },
        _ => {},
    }
    let b = bound(e, bits, MaskContext::Masked, limit);
    if b.lo >= 0 && b.hi < bits as i128 {
        ShiftCountMode::InRange
    } else {
        ShiftCountMode::Masked
    }
}

/// The width `op` reduces its shift count modulo, for the shifts whose count reduction sits at
/// the call site (`rotl`/`rotr` reduce inside their runtime helpers).
pub fn shift_width(op: BinOp) -> (r: Option<u32>)
    ensures
        r == shift_width_spec(op),
{
    match op {
        BinOp::I32Shl | BinOp::I32ShrS | BinOp::I32ShrU => Some(32),
        BinOp::I64Shl | BinOp::I64ShrS | BinOp::I64ShrU => Some(64),
        _ => None,
    }
}

// ---------------------------------------------------------------------------------------------
// Conversion-time rewrites.

/// The non-constant operand of an AND and its constant sibling, when exactly one operand is an
/// integer constant.
fn and_const_split<'a>(a: &'a Expr, b: &'a Expr) -> (r: Option<(&'a Expr, u64)>)
    ensures
        match (r, and_split_spec(*a, *b)) {
            (Some((e, c)), Some((se, sc))) => *e == se && c == sc,
            (None, None) => true,
            _ => false,
        },
{
    match (int_const(a), int_const(b)) {
        (Some(c), None) => Some((b, c)),
        (None, Some(c)) => Some((a, c)),
        _ => None,
    }
}

/// Continues an AND-chain fold from the residual `e` with accumulated constant `c`.
fn fold_rest<'a>(e: &'a Expr, c: u64) -> (r: (&'a Expr, u64, bool))
    ensures
        (*r.0, r.1, r.2) == chain_rest_spec(*e, c),
    decreases e,
{
    match e {
        Expr::Bin(op, x, y) => {
            if *op == BinOp::I32And || *op == BinOp::I64And {
                match (int_const(x), int_const(y)) {
                    (Some(c2), None) => {
                        let r = fold_rest(y, c & c2);
                        (r.0, r.1, true)
                    },
                    (None, Some(c2)) => {
                        let r = fold_rest(x, c & c2);
                        (r.0, r.1, true)
                    },
                    _ => (e, c, false),
                }
            } else {
                (e, c, false)
            }
        },
        _ => (e, c, false),
    }
}

/// The conversion-time fold of a constant AND chain: in `x & c1 & c2` the two constants meet in
/// one `c1 & c2`, by associativity. `a` and `b` are the operands of the outermost AND; `Some`
/// only when at least two constants fold. The residual expression is consumed in
/// [`MaskContext::Reducing`], like the non-constant operand of any AND with a constant.
pub fn fold_and_chain<'a>(a: &'a Expr, b: &'a Expr) -> (r: Option<(&'a Expr, u64)>)
    ensures
        match (r, fold_and_chain_spec(*a, *b)) {
            (Some((e, c)), Some((se, sc))) => *e == se && c == sc,
            (None, None) => true,
            _ => false,
        },
{
    match and_const_split(a, b) {
        None => None,
        Some((e, c)) => {
            let r = fold_rest(e, c);
            if r.2 {
                Some((r.0, r.1))
            } else {
                None
            }
        },
    }
}

/// The magnitude the migrated comparison constant stays within while peeling an expression of
/// depth at most `2^32`.
pub open spec fn target_room(e: Expr) -> int {
    ceiling() + 0x4_0000_0000_0000_0000 * (0x1_0000_0000 - expr_depth(e))
}

proof fn lemma_room(e: Expr, inner: Expr)
    requires
        expr_depth(inner) < expr_depth(e) < 0x1_0000_0000,
    ensures
        target_room(e) + 0x1_0000_0000_0000_0000 <= target_room(inner),
        target_room(inner) <= ceiling() + 0x4_0000_0000_0000_0000 * 0x1_0000_0000,
{
    let d1 = expr_depth(e) as int;
    let d2 = expr_depth(inner) as int;
    assert(0x4_0000_0000_0000_0000 * (0x1_0000_0000 - d1) + 0x4_0000_0000_0000_0000 <= 0x4_0000_0000_0000_0000 * (0x1_0000_0000 - d2)) by (nonlinear_arith)
        requires d2 < d1;
    assert(0x4_0000_0000_0000_0000 * (0x1_0000_0000 - d2) <= 0x4_0000_0000_0000_0000 * 0x1_0000_0000) by (nonlinear_arith)
        requires d2 >= 0;
}

/// Continues peeling `e` once the layer above has moved `target` onto it.
fn peel<'a>(e: &'a Expr, target: i128, ctx: MaskContext, limit: i128) -> (r: (&'a Expr, MaskContext, i128))
    requires
        limit > i128::MIN,
        expr_depth(*e) < 0x1_0000_0000,
        -target_room(*e) <= target <= target_room(*e),
    ensures
        (*r.0, r.1, r.2 as int) == peel_spec(*e, target as int, ctx, limit as int),
    decreases e,
{
    match e {
        Expr::Un(UnOp::I32WrapI64, x) => {
            proof {
                lemma_room(*e, **x);
            }
            if elides_mask(x, MaskContext::Modular, limit) {
                peel(x, target, MaskContext::Modular, limit)
            } else {
                (x, MaskContext::Modular, target)
            }
        },
        Expr::Bin(op, x, y) => {
            proof {
                lemma_room(*e, **x);
                lemma_room(*e, **y);
            }
            if *op == BinOp::I32Add || *op == BinOp::I64Add {
                match (int_const(x), int_const(y)) {
                    (Some(c1), None) => {
                        let t = target - c1 as i128;
                        if elides_mask(y, MaskContext::Modular, limit) {
                            peel(y, t, MaskContext::Modular, limit)
                        } else {
                            (y, MaskContext::Modular, t)
                        }
                    },
                    (None, Some(c1)) => {
                        let t = target - c1 as i128;
                        if elides_mask(x, MaskContext::Modular, limit) {
                            peel(x, t, MaskContext::Modular, limit)
                        } else {
                            (x, MaskContext::Modular, t)
                        }
                    },
                    _ => (e, ctx, target),
                }
            } else if *op == BinOp::I32Sub || *op == BinOp::I64Sub {
                match (int_const(x), int_const(y)) {
                    (Some(c1), None) => {
                        let t = c1 as i128 - target;
                        if elides_mask(y, MaskContext::Modular, limit) {
                            peel(y, t, MaskContext::Modular, limit)
                        } else {
                            (y, MaskContext::Modular, t)
                        }
                    },
                    (None, Some(c1)) => {
                        let t = target + c1 as i128;
                        if elides_mask(x, MaskContext::Modular, limit) {
                            peel(x, t, MaskContext::Modular, limit)
                        } else {
                            (x, MaskContext::Modular, t)
                        }
                    },
                    _ => (e, ctx, target),
                }
            } else {
                (e, ctx, target)
            }
        },
        _ => (e, ctx, target),
    }
}

/// The unmasked form of an integer equality between a mask site `e` and the constant `c`
/// (given in its stored masked form): `wrap(v) == c` holds exactly when raw `v` lands on
/// `c + k * 2^bits`, so when the raw interval of `v` meets exactly one such candidate, the mask
/// drops and `v` compares against that candidate directly. The constant then migrates across the
/// raw add/sub-by-constant layers the rendering exposes, stopping at the first layer whose own
/// mask stays. `None` keeps the mask: when `e` carries none, when several candidates fit the
/// interval, and also when none does.
pub fn eq_const_rewrite(e: &Expr, c: u64, limit: i128) -> (r: Option<(&Expr, MaskContext, i128)>)
    requires
        limit > i128::MIN,
        expr_depth(*e) < 0x1_0000_0000,
    ensures
        match (r, eq_const_rewrite_spec(*e, c, limit as int)) {
            (Some((re, rc, rt)), Some((se, sc, st))) => *re == se && rc == sc && rt as int == st,
            (None, None) => true,
            _ => false,
        },
{
    let (raw, bits) = match raw_bound(e, limit) {
        Some(x) => x,
        None => return None,
    };
    if raw.lo <= -CEILING || raw.hi >= CEILING {
        return None;
    }
    let module = pow2_i128(bits);
    let ci = c as i128;
    proof {
        lemma_pow2_facts();
    }
    let x_min = raw.lo - ci + module - 1;
    let x_max = raw.hi - ci;
    let k_min = match x_min.checked_div_euclid(module) {
        Some(k) => k,
        None => {
            proof {
                lemma_div_in_range(x_min as int, module as int);
            }
            return None;
        },
    };
    let k_max = match x_max.checked_div_euclid(module) {
        Some(k) => k,
        None => {
            proof {
                lemma_div_in_range(x_max as int, module as int);
            }
            return None;
        },
    };
    if k_min != k_max {
        return None;
    }
    proof {
        lemma_pinned_in_raw(raw.lo as int, raw.hi as int, c as int, module as int);
        lemma_room_top(*e);
    }
    let target = ci + k_min * module;
    let r = peel(e, target, MaskContext::Reducing, limit);
    Some(r)
}

proof fn lemma_div_in_range(x: int, d: int)
    requires
        d >= 1,
        -0x100_0000_0000_0000_0000_0000_0000 <= x <= 0x100_0000_0000_0000_0000_0000_0000,
    ensures
        -0x100_0000_0000_0000_0000_0000_0000 <= x / d <= 0x100_0000_0000_0000_0000_0000_0000,
{
    let q = x / d;
    lemma_fundamental_div_mod(x, d);
    lemma_mod_bound(x, d);
    if x >= 0 {
        assert(0 <= q <= x) by (nonlinear_arith)
            requires
                x >= 0,
                d >= 1,
                x == d * q + x % d,
                0 <= x % d < d;
    } else {
        assert(x <= q < 0) by (nonlinear_arith)
            requires
                x < 0,
                d >= 1,
                x == d * q + x % d,
                0 <= x % d < d;
    }
}

/// When both ends of `[lo, hi]` agree on the candidate index, the candidate lies in `[lo, hi]`.
proof fn lemma_pinned_in_raw(lo: int, hi: int, c: int, m: int)
    requires
        m >= 1,
        (lo - c + m - 1) / m == (hi - c) / m,
    ensures
        lo <= c + ((hi - c) / m) * m <= hi,
{
    let x1 = lo - c + m - 1;
    let x2 = hi - c;
    let k = x2 / m;
    lemma_fundamental_div_mod(x1, m);
    lemma_mod_bound(x1, m);
    lemma_fundamental_div_mod(x2, m);
    lemma_mod_bound(x2, m);
    assert(k * m == m * k) by (nonlinear_arith);
    assert(m * k >= x1 - (m - 1));
    assert(m * k <= x2);
}

proof fn lemma_room_top(e: Expr)
    requires
        expr_depth(e) < 0x1_0000_0000,
    ensures
        target_room(e) >= ceiling(),
{
    let d = expr_depth(e) as int;
    assert(0x4_0000_0000_0000_0000 * (0x1_0000_0000 - d) >= 0) by (nonlinear_arith)
        requires d < 0x1_0000_0000;
}

// ---------------------------------------------------------------------------------------------
// Laws.

/// A mask whose raw interval already sits inside `[0, 2^bits)` is the identity on the exact
/// value, so it drops in every context.
pub proof fn law_identity_mask_drops_everywhere(e: Expr, ctx: MaskContext, limit: int)
    requires
        raw_bound_spec(e, limit) matches Some((raw, bits)) && is_masked_range_spec(raw, bits as nat),
    ensures
        elides_spec(e, ctx, limit),
{
}

/// A reducing consumer drops the mask of every mask site, with no bound guard; a site that
/// carries no mask of its own has nothing to drop in any context.
pub proof fn law_reducing_drops_exactly_the_mask_sites(e: Expr, ctx: MaskContext, limit: int)
    ensures
        elides_spec(e, MaskContext::Reducing, limit) == (raw_bound_spec(e, limit) is Some),
        raw_bound_spec(e, limit) is None ==> !elides_spec(e, ctx, limit),
{
}

/// The contexts are ordered by how much they tolerate: a mask a `Masked` consumer may skip, a
/// `Modular` one may skip, and a mask a `Modular` consumer may skip, a `Reducing` one may skip.
pub proof fn law_contexts_are_ordered(e: Expr, limit: int)
    ensures
        elides_spec(e, MaskContext::Masked, limit) ==> elides_spec(e, MaskContext::Modular, limit),
        elides_spec(e, MaskContext::Modular, limit) ==> elides_spec(e, MaskContext::Reducing, limit),
{
}

/// An operation with its own result mask (wrapping add, sub, mul, and `shl`) reads both of its
/// operands modularly whatever its consumer's context; an AND with a constant sibling reduces
/// its other operand in every context; a shift count is always read modularly.
pub proof fn law_operand_contexts(op: BinOp, k: int, sibling: Expr, ctx: MaskContext)
    ensures
        (op == BinOp::I32Add || op == BinOp::I32Sub || op == BinOp::I32Mul || op == BinOp::I64Add
            || op == BinOp::I64Sub || op == BinOp::I64Mul || op == BinOp::I32Shl
            || op == BinOp::I64Shl) ==> bin_operand_context_spec(op, k, sibling, ctx)
            == MaskContext::Modular,
        is_and(op) && int_const_spec(sibling) is Some ==> bin_operand_context_spec(op, k, sibling, ctx)
            == MaskContext::Reducing,
        shift_width_spec(op) is Some && k == 1 ==> bin_operand_context_spec(op, k, sibling, ctx)
            == MaskContext::Modular,
{
}

/// When the equality rewrite pins a candidate, it is the one value of the raw interval whose
/// residue modulo `2^bits` is the compared constant's: `wrap(v) == c` holds for a raw `v` in
/// the interval exactly when `v` is that candidate.
pub proof fn law_pinned_candidate_is_the_unique_preimage(raw: Bound, bits: nat, c: int, t: int, v: int)
    requires
        pinned_candidate(raw, bits, c) == Some(t),
        raw.lo <= v <= raw.hi,
    ensures
        raw.lo <= t <= raw.hi,
        (t - c) % (pow2(bits) as int) == 0,
        (v - c) % (pow2(bits) as int) == 0 <==> v == t,
{
    let m = pow2(bits) as int;
    lemma_pow2_pos(bits);
    let k = (raw.hi - c) / m;
    lemma_pinned_in_raw(raw.lo as int, raw.hi as int, c, m);
    assert(t == c + k * m);
    vstd::arithmetic::div_mod::lemma_mod_multiples_basic(k, m);
    assert((t - c) % m == 0);
    if (v - c) % m == 0 {
        let j = (v - c) / m;
        lemma_fundamental_div_mod(v - c, m);
        assert(v == c + m * j);
        let x1 = raw.lo - c + m - 1;
        let x2 = raw.hi - c;
        lemma_fundamental_div_mod(x1, m);
        lemma_mod_bound(x1, m);
        lemma_fundamental_div_mod(x2, m);
        lemma_mod_bound(x2, m);
        // j * m >= lo - c > x1 - m  and  j * m <= hi - c, so j is squeezed onto k.
        assert(v >= raw.lo);
        assert(m * j >= m * k - m + 1 + x1 % m);
        assert(m * j <= m * k + x2 % m);
        assert(m * (k - 1) == m * k - m) by (nonlinear_arith);
        assert(m * (k + 1) == m * k + m) by (nonlinear_arith);
        assert(m * j > m * (k - 1));
        assert(m * j < m * (k + 1));
        assert(j > k - 1) by (nonlinear_arith)
            requires m * j > m * (k - 1), m >= 1;
        assert(j < k + 1) by (nonlinear_arith)
            requires m * j < m * (k + 1), m >= 1;
        assert(j == k);
        assert(m * j == k * m) by (nonlinear_arith) requires j == k;
    }
    if v == t {
        assert((v - c) % m == 0);
    }
}

/// A constant shift count of a 32- or 64-bit shift renders as the count reduced modulo the
/// width, and a count rendered bare without its reduction provably lies in `0..bits`.
pub proof fn law_shift_count_in_range(e: Expr, bits: u32, limit: int)
    requires
        bits == 32 || bits == 64,
    ensures
        shift_count_mode_spec(e, bits, limit) matches ShiftCountMode::Constant(c) ==> c < bits && match e {
            Expr::I32Const(v) => c as int == v as int % (bits as int),
            Expr::I64Const(v) => c as int == v as int % (bits as int),
            _ => false,
        },
        shift_count_mode_spec(e, bits, limit) == ShiftCountMode::InRange ==> {
            let b = bound_spec(e, bits, MaskContext::Masked, limit);
            0 <= b.lo && b.hi < bits
        },
{
    match e {
        Expr::I32Const(v) => {
            let m = (bits - 1) as u32;
            if bits == 32 {
                assert(v & 31u32 == v % 32u32) by (bit_vector);
            } else {
                assert(v & 63u32 == v % 64u32) by (bit_vector);
            }
            assert(v & m <= m) by (bit_vector);
        },
        Expr::I64Const(v) => {
            let m = (bits - 1) as u64;
            if bits == 32 {
                assert(v & 31u64 == v % 32u64) by (bit_vector);
            } else {
                assert(v & 63u64 == v % 64u64) by (bit_vector);
            }
            assert(v & m <= m) by (bit_vector);
        },
        _ => {},
    }
}

/// The union of two intervals holds every value of either.
pub proof fn law_union_holds_both(a: Bound, b: Bound, v: int)
    requires
        (a.lo <= v <= a.hi) || (b.lo <= v <= b.hi),
    ensures
        union_spec(a, b).lo <= v <= union_spec(a, b).hi,
{
}

/// `x & y` with a non-negative `y` never sets a bit `y` lacks, whatever `x`'s sign.
pub proof fn law_and_with_non_negative(x: i128, y: i128)
    requires
        y >= 0,
    ensures
        0 <= x & y <= y,
{
    assert(0 <= x & y <= y) by (bit_vector)
        requires y >= 0;
}


// ---------------------------------------------------------------------------------------------
// Soundness on the wrapping arithmetic.

/// The expressions the soundness law covers: `bits`-wide constants, leaves read from storage
/// (locals, temps, globals, integer loads, `memory.size`), wrapping add, sub and mul, the shifts
/// `shl`, `shr_s` and `shr_u`, the bitwise `and`, `or` and `xor`, the i64-to-i32 wrap and
/// i32-to-i64 zero extension between the widths, and `select`; every other integer operation
/// (a comparison, `eqz`, a bit count, a division, remainder or rotation, a sign extension, a
/// truncation or reinterpretation) enters as a leaf whose value lies in its result range.
pub open spec fn arith_expr(e: Expr, bits: nat) -> bool
    decreases e,
{
    match e {
        Expr::I32Const(_) => bits == 32,
        Expr::I64Const(_) => bits == 64,
        Expr::LocalGet(_) | Expr::Temp(_) | Expr::GlobalGet(_) => bits == 32 || bits == 64,
        Expr::Un(UnOp::I32WrapI64, a) => bits == 32 && arith_expr(*a, 64),
        Expr::Un(UnOp::I64ExtendI32U, a) => bits == 64 && arith_expr(*a, 32),
        Expr::Select { cond, then, els } => (bits == 32 || bits == 64) && arith_expr(*cond, 32) && arith_expr(*then, bits)
            && arith_expr(*els, bits),
        Expr::Load { op, .. } => load_width(op) == Some(bits),
        Expr::MemorySize => bits == 32,
        Expr::Un(op, _) => opaque_un_width(op) == Some(bits),
        Expr::Bin(op, a, b) => if is_comparison(op) {
            bits == 32
        } else if opaque_bin_width(op) is Some {
            opaque_bin_width(op) == Some(bits)
        } else {
            &&& (bits == 32 || bits == 64)
            &&& ((is_arith_op(op) && mask_bits_spec(op) == Some(bits as u32)) || shift_width_spec(op) == Some(
                bits as u32,
            ) || (is_bitwise_op(op) && bitwise_width(op) == bits))
            &&& arith_expr(*a, bits)
            &&& arith_expr(*b, bits)
        },
        _ => false,
    }
}

/// The width of the integer value the load `op` produces, if it produces one.
pub open spec fn load_width(op: LoadOp) -> Option<nat> {
    match op {
        LoadOp::F32Load | LoadOp::F64Load => None,
        LoadOp::I32Load | LoadOp::I32Load8S | LoadOp::I32Load8U | LoadOp::I32Load16S | LoadOp::I32Load16U => Some(
            32,
        ),
        _ => Some(64),
    }
}

/// The width of the integer result of the unary `op` other than the wrap and the zero extension
/// between the widths; `None` for those two and for the operations with a float result.
pub open spec fn opaque_un_width(op: UnOp) -> Option<nat> {
    match op {
        UnOp::I32Eqz | UnOp::I64Eqz | UnOp::I32Clz | UnOp::I32Ctz | UnOp::I32Popcnt | UnOp::I32TruncF32S
        | UnOp::I32TruncF64S | UnOp::I32TruncF32U | UnOp::I32TruncF64U | UnOp::I32TruncSatF32S
        | UnOp::I32TruncSatF64S | UnOp::I32TruncSatF32U | UnOp::I32TruncSatF64U | UnOp::I32ReinterpretF32
        | UnOp::I32Extend8S | UnOp::I32Extend16S => Some(32),
        UnOp::I64Clz | UnOp::I64Ctz | UnOp::I64Popcnt | UnOp::I64TruncF32S | UnOp::I64TruncF64S
        | UnOp::I64TruncF32U | UnOp::I64TruncF64U | UnOp::I64TruncSatF32S | UnOp::I64TruncSatF64S
        | UnOp::I64TruncSatF32U | UnOp::I64TruncSatF64U | UnOp::I64ExtendI32S | UnOp::I64ReinterpretF64
        | UnOp::I64Extend8S | UnOp::I64Extend16S | UnOp::I64Extend32S => Some(64),
        _ => None,
    }
}

/// The width of the division, remainder or rotation `op`; `None` for every other binary
/// operation.
pub open spec fn opaque_bin_width(op: BinOp) -> Option<nat> {
    match op {
        BinOp::I32DivS | BinOp::I32DivU | BinOp::I32RemS | BinOp::I32RemU | BinOp::I32Rotl | BinOp::I32Rotr => Some(
            32,
        ),
        BinOp::I64DivS | BinOp::I64DivU | BinOp::I64RemS | BinOp::I64RemU | BinOp::I64Rotl | BinOp::I64Rotr => Some(
            64,
        ),
        _ => None,
    }
}

/// How many values, from 0 up, the leaf `e` of a `bits`-wide expression takes: a narrow
/// unsigned load those of its width, `memory.size` a page count, a test a boolean, a bit count
/// the width and one more, anything else those of the full width.
pub open spec fn leaf_span(e: Expr, bits: nat) -> int {
    match e {
        Expr::Load { op, .. } => match op {
            LoadOp::I32Load8U | LoadOp::I64Load8U => 0x100,
            LoadOp::I32Load16U | LoadOp::I64Load16U => 0x1_0000,
            LoadOp::I64Load32U => 0x1_0000_0000,
            _ => pow2(bits) as int,
        },
        Expr::MemorySize => 0x1_0001,
        Expr::Un(op, _) => if op == UnOp::I32Eqz || op == UnOp::I64Eqz {
            2
        } else if op == UnOp::I32Clz || op == UnOp::I32Ctz || op == UnOp::I32Popcnt || op == UnOp::I64Clz || op
            == UnOp::I64Ctz || op == UnOp::I64Popcnt {
            (bits + 1) as int
        } else {
            pow2(bits) as int
        },
        Expr::Bin(op, _, _) => if is_comparison(op) {
            2
        } else {
            pow2(bits) as int
        },
        _ => pow2(bits) as int,
    }
}

/// The width a bitwise `op` works at.
pub open spec fn bitwise_width(op: BinOp) -> nat {
    if op == BinOp::I32And || op == BinOp::I32Or || op == BinOp::I32Xor {
        32
    } else {
        64
    }
}

/// Whether `op` is a wrapping add, sub or mul.
pub open spec fn is_arith_op(op: BinOp) -> bool {
    op == BinOp::I32Add || op == BinOp::I32Sub || op == BinOp::I32Mul || op == BinOp::I64Add || op == BinOp::I64Sub
        || op == BinOp::I64Mul
}

/// The signed reading of the `bits`-wide stored value `x`.
pub open spec fn signed_of(x: int, bits: nat) -> int {
    if x < pow2((bits - 1) as nat) {
        x
    } else {
        x - pow2(bits)
    }
}

/// The wasm result of the shift `op` on the `bits`-wide stored value `x` and the count `c`,
/// already reduced modulo the width.
pub open spec fn wasm_shift(op: BinOp, x: int, c: nat, bits: nat) -> int {
    match op {
        BinOp::I32Shl | BinOp::I64Shl => (x * pow2(c)) % (pow2(bits) as int),
        BinOp::I32ShrS | BinOp::I64ShrS => shr_spec(signed_of(x, bits), c) % (pow2(bits) as int),
        _ => shr_spec(x, c),
    }
}

/// The exact result of the raw (unmasked) operation `op` on `x` and `y`.
pub open spec fn raw_op(op: BinOp, x: int, y: int) -> int {
    match op {
        BinOp::I32Add | BinOp::I64Add => x + y,
        BinOp::I32Sub | BinOp::I64Sub => x - y,
        _ => x * y,
    }
}

/// The wasm value of `e`, a `bits`-wide [`arith_expr`], when each leaf stores `env(leaf)`
/// reduced to the width.
pub open spec fn wasm_value(e: Expr, env: spec_fn(Expr) -> int, bits: nat) -> int
    decreases e,
{
    match e {
        Expr::I32Const(c) => c as int,
        Expr::I64Const(c) => c as int,
        Expr::Un(UnOp::I32WrapI64, a) => wasm_value(*a, env, 64) % (pow2(32) as int),
        Expr::Un(UnOp::I64ExtendI32U, a) => wasm_value(*a, env, 32),
        Expr::Select { cond, then, els } => if wasm_value(*cond, env, 32) != 0 {
            wasm_value(*then, env, bits)
        } else {
            wasm_value(*els, env, bits)
        },
        Expr::Bin(op, a, b) => if is_bitwise_op(op) {
            int_bitop(op, wasm_value(*a, env, bits), wasm_value(*b, env, bits))
        } else if shift_width_spec(op) is Some {
            wasm_shift(op, wasm_value(*a, env, bits), (wasm_value(*b, env, bits) % (bits as int)) as nat, bits)
        } else if is_comparison(op) || opaque_bin_width(op) is Some {
            env(e) % leaf_span(e, bits)
        } else {
            raw_op(op, wasm_value(*a, env, bits), wasm_value(*b, env, bits)) % (pow2(bits) as int)
        },
        _ => env(e) % leaf_span(e, bits),
    }
}

/// The value the rendering of `e` evaluates to when consumed in `ctx`, exactly as integers of
/// unbounded width: each operation's own result mask is applied unless [`elides_spec`] drops it,
/// and its operands are rendered in the contexts [`bin_operand_context_spec`] gives them.
pub open spec fn rendered_value(e: Expr, env: spec_fn(Expr) -> int, bits: nat, ctx: MaskContext, limit: int) -> int
    decreases e,
{
    match e {
        Expr::I32Const(c) => c as int,
        Expr::I64Const(c) => c as int,
        Expr::Un(UnOp::I32WrapI64, a) => {
            let raw = rendered_value(*a, env, 64, MaskContext::Modular, limit);
            if elides_spec(e, ctx, limit) {
                raw
            } else {
                raw % (pow2(32) as int)
            }
        },
        Expr::Un(UnOp::I64ExtendI32U, a) => rendered_value(*a, env, 32, MaskContext::Masked, limit),
        Expr::Select { cond, then, els } => if rendered_value(*cond, env, 32, MaskContext::Masked, limit) != 0 {
            rendered_value(*then, env, bits, MaskContext::Masked, limit)
        } else {
            rendered_value(*els, env, bits, MaskContext::Masked, limit)
        },
        Expr::Bin(op, a, b) => if is_bitwise_op(op) {
            int_bitop(
                op,
                rendered_value(*a, env, bits, bin_operand_context_spec(op, 0, *b, ctx), limit),
                rendered_value(*b, env, bits, bin_operand_context_spec(op, 1, *a, ctx), limit),
            )
        } else if shift_width_spec(op) is Some {
            // The count is rendered as `shift_count_mode` decides; `x & (bits - 1)` on an integer of
            // any sign is `x` modulo `bits`.
            let cnt: int = match shift_count_mode_spec(*b, bits as u32, limit) {
                ShiftCountMode::Constant(c) => c as int,
                ShiftCountMode::InRange => rendered_value(*b, env, bits, MaskContext::Masked, limit),
                ShiftCountMode::Masked => rendered_value(*b, env, bits, MaskContext::Modular, limit) % (bits as int),
            };
            let va = rendered_value(*a, env, bits, bin_operand_context_spec(op, 0, *b, MaskContext::Modular), limit);
            match op {
                BinOp::I32ShrU | BinOp::I64ShrU => shr_spec(va, cnt as nat),
                _ => {
                    let raw = match op {
                        BinOp::I32Shl | BinOp::I64Shl => va * pow2(cnt as nat),
                        _ => shr_spec(signed_of(va, bits), cnt as nat),
                    };
                    if elides_spec(e, ctx, limit) {
                        raw
                    } else {
                        raw % (pow2(bits) as int)
                    }
                },
            }
        } else if is_comparison(op) || opaque_bin_width(op) is Some {
            env(e) % leaf_span(e, bits)
        } else {
            let va = rendered_value(*a, env, bits, bin_operand_context_spec(op, 0, *b, MaskContext::Modular), limit);
            let vb = rendered_value(*b, env, bits, MaskContext::Modular, limit);
            let raw = raw_op(op, va, vb);
            if elides_spec(e, ctx, limit) {
                raw
            } else {
                raw % (pow2(bits) as int)
            }
        },
        _ => env(e) % leaf_span(e, bits),
    }
}

proof fn lemma_neg_div(y: int, d: int)
    requires
        y < 0,
        d > 0,
    ensures
        y / d == -((-y - 1) / d) - 1,
{
    let q = (-y - 1) / d;
    let r = (-y - 1) % d;
    lemma_fundamental_div_mod(-y - 1, d);
    lemma_mod_bound(-y - 1, d);
    assert((-q - 1) * d == -(d * q) - d) by (nonlinear_arith);
    assert(y == (-q - 1) * d + (d - r - 1));
    vstd::arithmetic::div_mod::lemma_fundamental_div_mod_converse_div(y, d, -q - 1, d - r - 1);
}

/// Dividing by a larger divisor moves a quotient toward `0` from above and toward `-1` from below.
proof fn lemma_div_by_larger(y: int, d1: int, d2: int)
    requires
        1 <= d1 <= d2,
    ensures
        y >= 0 ==> 0 <= y / d2 <= y / d1,
        y < 0 ==> y / d1 <= y / d2 < 0,
{
    if y >= 0 {
        vstd::arithmetic::div_mod::lemma_div_is_ordered_by_denominator(y, d1, d2);
        vstd::arithmetic::div_mod::lemma_div_pos_is_pos(y, d2);
    } else {
        lemma_neg_div(y, d1);
        lemma_neg_div(y, d2);
        vstd::arithmetic::div_mod::lemma_div_is_ordered_by_denominator(-y - 1, d1, d2);
        vstd::arithmetic::div_mod::lemma_div_pos_is_pos(-y - 1, d2);
    }
}

proof fn lemma_shr_exp_between(y: int, c0: nat, c: nat, c1: nat)
    requires
        c0 <= c <= c1,
    ensures
        min_int(shr_spec(y, c0), shr_spec(y, c1)) <= shr_spec(y, c) <= max_int(shr_spec(y, c0), shr_spec(y, c1)),
{
    vstd::arithmetic::power2::lemma_pow2_pos(c0);
    if c0 < c {
        vstd::arithmetic::power2::lemma_pow2_strictly_increases(c0, c);
    }
    if c < c1 {
        vstd::arithmetic::power2::lemma_pow2_strictly_increases(c, c1);
    }
    lemma_div_by_larger(y, pow2(c0) as int, pow2(c) as int);
    lemma_div_by_larger(y, pow2(c) as int, pow2(c1) as int);
}

/// A shift result lies between the shifts of the corners of its operands' intervals.
proof fn lemma_shr_between(x: int, c: nat, p: int, q: int, c0: nat, c1: nat)
    requires
        p <= x <= q,
        c0 <= c <= c1,
    ensures
        min_int(shr_spec(p, c0), shr_spec(p, c1)) <= shr_spec(x, c) <= max_int(shr_spec(q, c0), shr_spec(q, c1)),
{
    vstd::arithmetic::power2::lemma_pow2_pos(c);
    vstd::arithmetic::div_mod::lemma_div_is_ordered(p, x, pow2(c) as int);
    vstd::arithmetic::div_mod::lemma_div_is_ordered(x, q, pow2(c) as int);
    lemma_shr_exp_between(p, c0, c, c1);
    lemma_shr_exp_between(q, c0, c, c1);
}

proof fn lemma_pow2_between(c0: nat, c: nat, c1: nat)
    requires
        c0 <= c <= c1,
    ensures
        pow2(c0) <= pow2(c) <= pow2(c1),
{
    if c0 < c {
        vstd::arithmetic::power2::lemma_pow2_strictly_increases(c0, c);
    }
    if c < c1 {
        vstd::arithmetic::power2::lemma_pow2_strictly_increases(c, c1);
    }
}

proof fn lemma_mod_of_raw(op: BinOp, x: int, y: int, wx: int, wy: int, m: int)
    requires
        m > 0,
        x % m == wx % m,
        y % m == wy % m,
    ensures
        raw_op(op, x, y) % m == raw_op(op, wx, wy) % m,
{
    match op {
        BinOp::I32Add | BinOp::I64Add => {
            vstd::arithmetic::div_mod::lemma_add_mod_noop(x, y, m);
            vstd::arithmetic::div_mod::lemma_add_mod_noop(wx, wy, m);
        },
        BinOp::I32Sub | BinOp::I64Sub => {
            vstd::arithmetic::div_mod::lemma_sub_mod_noop(x, y, m);
            vstd::arithmetic::div_mod::lemma_sub_mod_noop(wx, wy, m);
        },
        _ => {
            vstd::arithmetic::div_mod::lemma_mul_mod_noop(x, y, m);
            vstd::arithmetic::div_mod::lemma_mul_mod_noop(wx, wy, m);
        },
    }
}

proof fn lemma_scale_between(p: int, y: int, r: int, s: int)
    requires
        r <= y <= s,
    ensures
        min_int(p * r, p * s) <= p * y <= max_int(p * r, p * s),
{
    if p >= 0 {
        assert(p * r <= p * y && p * y <= p * s) by (nonlinear_arith)
            requires p >= 0, r <= y <= s;
    } else {
        assert(p * s <= p * y && p * y <= p * r) by (nonlinear_arith)
            requires p < 0, r <= y <= s;
    }
}

/// A value between the least and greatest of four corners lies, up to clamping, in the interval
/// built from the clamped corners.
proof fn lemma_clamped_corners(v: int, c1: int, c2: int, c3: int, c4: int)
    requires
        min4(c1, c2, c3, c4) <= v <= max4(c1, c2, c3, c4),
    ensures
        ({
            let b = bound_new(
                min4(clamp_spec(c1), clamp_spec(c2), clamp_spec(c3), clamp_spec(c4)),
                max4(clamp_spec(c1), clamp_spec(c2), clamp_spec(c3), clamp_spec(c4)),
            );
            &&& b.lo <= v || b.lo == -ceiling()
            &&& v <= b.hi || b.hi == ceiling()
        }),
{
    let m = min4(c1, c2, c3, c4);
    let mm = max4(c1, c2, c3, c4);
    let (k1, k2, k3, k4) = (clamp_spec(c1), clamp_spec(c2), clamp_spec(c3), clamp_spec(c4));
    assert(min4(k1, k2, k3, k4) == clamp_spec(m));
    assert(max4(k1, k2, k3, k4) == clamp_spec(mm));
    assert(clamp_spec(clamp_spec(m)) == clamp_spec(m));
    assert(clamp_spec(clamp_spec(mm)) == clamp_spec(mm));
}

/// A product lies between the products of the corners of its factors' intervals.
proof fn lemma_mul_between(x: int, y: int, p: int, q: int, r: int, s: int)
    requires
        p <= x <= q,
        r <= y <= s,
    ensures
        min4(p * r, p * s, q * r, q * s) <= x * y <= max4(p * r, p * s, q * r, q * s),
{
    lemma_scale_between(p, y, r, s);
    lemma_scale_between(q, y, r, s);
    let m = min4(p * r, p * s, q * r, q * s);
    let mm = max4(p * r, p * s, q * r, q * s);
    if p == q {
        assert(x == p);
    } else {
        assert((q - p) * (x * y) == (q - x) * (p * y) + (x - p) * (q * y)) by (nonlinear_arith);
        assert((q - x) * (p * y) + (x - p) * (q * y) >= (q - x) * m + (x - p) * m) by (nonlinear_arith)
            requires q - x >= 0, x - p >= 0, p * y >= m, q * y >= m;
        assert((q - x) * (p * y) + (x - p) * (q * y) <= (q - x) * mm + (x - p) * mm) by (nonlinear_arith)
            requires q - x >= 0, x - p >= 0, p * y <= mm, q * y <= mm;
        assert(x * y >= m && x * y <= mm) by (nonlinear_arith)
            requires
                q - p > 0,
                (q - p) * (x * y) >= (q - x) * m + (x - p) * m,
                (q - p) * (x * y) <= (q - x) * mm + (x - p) * mm;
    }
}

/// What the soundness induction keeps of `e` rendered in `ctx`: the wasm value is a `bits`-wide
/// stored value and the rendering agrees with it modulo the width; the analysis interval holds
/// the rendering up to clamping, and, for a consumer that does not reduce, holds it exactly and
/// lies inside a quarter of the analysis range; a masked consumer's interval is inside the
/// masked range.
pub open spec fn sound_at(e: Expr, env: spec_fn(Expr) -> int, bits: nat, ctx: MaskContext, limit: int) -> bool {
    let v = rendered_value(e, env, bits, ctx, limit);
    let b = bound_spec(e, bits as u32, ctx, limit);
    &&& 0 <= wasm_value(e, env, bits) < pow2(bits)
    &&& v % (pow2(bits) as int) == wasm_value(e, env, bits)
    &&& b.lo <= v || b.lo == -ceiling()
    &&& v <= b.hi || b.hi == ceiling()
    &&& ctx != MaskContext::Reducing ==> b.lo <= v <= b.hi && -(ceiling() / 4) <= b.lo && b.hi < ceiling() / 4
    &&& ctx == MaskContext::Masked ==> 0 <= b.lo && b.hi < pow2(bits)
}

proof fn lemma_rendered_sound(e: Expr, env: spec_fn(Expr) -> int, bits: nat, ctx: MaskContext, limit: int)
    requires
        arith_expr(e, bits),
        0 < limit <= ceiling() / 4,
    ensures
        sound_at(e, env, bits, ctx, limit),
    decreases e, 2nat,
{
    lemma2_to64();
    let m = pow2(bits) as int;
    assert(m == 0x1_0000_0000 || m == 0x1_0000_0000_0000_0000);
    let v = rendered_value(e, env, bits, ctx, limit);
    match e {
        Expr::I32Const(c) => {
            assert(v % m == v) by {
                vstd::arithmetic::div_mod::lemma_small_mod(v as nat, m as nat);
            }
        },
        Expr::I64Const(c) => {
            assert(v % m == v) by {
                vstd::arithmetic::div_mod::lemma_small_mod(v as nat, m as nat);
            }
        },
        Expr::Un(UnOp::I32WrapI64, a) => {
            lemma_rendered_sound(*a, env, 64, MaskContext::Modular, limit);
            let raw = rendered_value(*a, env, 64, MaskContext::Modular, limit);
            let wa = wasm_value(*a, env, 64);
            assert(pow2(64) == pow2(32) * pow2(32));
            vstd::arithmetic::div_mod::lemma_mod_mod(raw, pow2(32) as int, pow2(32) as int);
            vstd::arithmetic::div_mod::lemma_mod_twice(raw, m);
            lemma_mod_bound(raw, m);
            lemma_mod_bound(wa, m);
            assert(raw_bound_spec(e, limit) == Some((bound_spec(*a, 64, MaskContext::Modular, limit), 32u32)));
        },
        Expr::Un(UnOp::I64ExtendI32U, a) => {
            lemma_rendered_sound(*a, env, 32, MaskContext::Masked, limit);
            let va = rendered_value(*a, env, 32, MaskContext::Masked, limit);
            assert(va % m == va) by {
                vstd::arithmetic::div_mod::lemma_small_mod(va as nat, m as nat);
            }
        },
        Expr::Select { cond, then, els } => {
            lemma_rendered_sound(*cond, env, 32, MaskContext::Masked, limit);
            lemma_rendered_sound(*then, env, bits, MaskContext::Masked, limit);
            lemma_rendered_sound(*els, env, bits, MaskContext::Masked, limit);
            assert(v % m == v) by {
                vstd::arithmetic::div_mod::lemma_small_mod(v as nat, m as nat);
            }
        },
        Expr::Bin(op, a, b) => if is_bitwise_op(op) {
            lemma_bitwise_sound(e, env, bits, ctx, limit);
        } else if shift_width_spec(op) is Some {
            lemma_shift_sound(e, env, bits, ctx, limit);
        } else if is_comparison(op) || opaque_bin_width(op) is Some {
            lemma_leaf_sound(e, env, bits, ctx, limit);
        } else {
            let ca = bin_operand_context_spec(op, 0, *b, MaskContext::Modular);
            assert(ca == MaskContext::Modular);
            lemma_rendered_sound(*a, env, bits, MaskContext::Modular, limit);
            lemma_rendered_sound(*b, env, bits, MaskContext::Modular, limit);
            let va = rendered_value(*a, env, bits, MaskContext::Modular, limit);
            let vb = rendered_value(*b, env, bits, MaskContext::Modular, limit);
            let wa = wasm_value(*a, env, bits);
            let wb = wasm_value(*b, env, bits);
            let raw = raw_op(op, va, vb);
            lemma_mod_bound(raw, m);
            assert(wa % m == wa && wb % m == wb) by {
                vstd::arithmetic::div_mod::lemma_small_mod(wa as nat, m as nat);
                vstd::arithmetic::div_mod::lemma_small_mod(wb as nat, m as nat);
            }
            lemma_mod_of_raw(op, va, vb, wa, wb, m);
            lemma_mod_bound(raw_op(op, wa, wb), m);
            vstd::arithmetic::div_mod::lemma_mod_twice(raw, m);
            let ba = bound_spec(*a, bits as u32, MaskContext::Modular, limit);
            let bb = bound_spec(*b, bits as u32, MaskContext::Modular, limit);
            let rb = raw_bin_spec(op, bits as u32, ba, *b, bb);
            assert(raw_bound_spec(e, limit) == Some((rb, bits as u32)));
            // The raw interval holds `raw` up to clamping; a guard that lets it through leaves it
            // unclamped.
            match op {
                BinOp::I32Add | BinOp::I64Add => {},
                BinOp::I32Sub | BinOp::I64Sub => {},
                _ => {
                    let (p, q, r, s) = (ba.lo as int, ba.hi as int, bb.lo as int, bb.hi as int);
                    lemma_mul_between(va, vb, p, q, r, s);
                    lemma_clamped_corners(raw, p * r, p * s, q * r, q * s);
                },
            }
        },
        _ => lemma_leaf_sound(e, env, bits, ctx, limit),
    }
}

/// A leaf (a storage read, a load, `memory.size`, or an operation taken as a value in its result
/// range) is rendered as the value it reads, inside its interval.
proof fn lemma_leaf_sound(e: Expr, env: spec_fn(Expr) -> int, bits: nat, ctx: MaskContext, limit: int)
    requires
        arith_expr(e, bits),
        0 < limit <= ceiling() / 4,
        match e {
            Expr::I32Const(_) | Expr::I64Const(_) | Expr::Select { .. } => false,
            Expr::Un(op, _) => opaque_un_width(op) is Some,
            Expr::Bin(op, _, _) => is_comparison(op) || opaque_bin_width(op) is Some,
            _ => true,
        },
    ensures
        sound_at(e, env, bits, ctx, limit),
{
    lemma2_to64();
    let m = pow2(bits) as int;
    let sp = leaf_span(e, bits);
    assert(bits == 32 || bits == 64);
    assert(m == 0x1_0000_0000 || m == 0x1_0000_0000_0000_0000);
    assert(0 < sp <= m);
    assert(raw_bound_spec(e, limit) is None);
    lemma_mod_bound(env(e), sp);
    let w = env(e) % sp;
    assert(wasm_value(e, env, bits) == w);
    assert(rendered_value(e, env, bits, ctx, limit) == w);
    vstd::arithmetic::div_mod::lemma_small_mod(w as nat, m as nat);
    let b = bound_spec(e, bits as u32, ctx, limit);
    assert(b.lo == 0 && b.hi == sp - 1);
}

/// The count a shift's rendering uses is the wasm count reduced modulo the width, and lies in
/// the range [`count_bound_spec`] gives.
proof fn lemma_count_sound(b: Expr, env: spec_fn(Expr) -> int, bits: nat, limit: int)
    requires
        arith_expr(b, bits),
        0 < limit <= ceiling() / 4,
    ensures
        ({
            let cnt: int = match shift_count_mode_spec(b, bits as u32, limit) {
                ShiftCountMode::Constant(c) => c as int,
                ShiftCountMode::InRange => rendered_value(b, env, bits, MaskContext::Masked, limit),
                ShiftCountMode::Masked => rendered_value(b, env, bits, MaskContext::Modular, limit) % (bits as int),
            };
            let (cmin, cmax) = count_bound_spec(b, bits as u32);
            &&& cnt == wasm_value(b, env, bits) % (bits as int)
            &&& cmin <= cnt <= cmax
            &&& cmax < bits
        }),
    decreases b, 3nat,
{
    lemma2_to64();
    let m = pow2(bits) as int;
    assert(bits == 32 || bits == 64) by {
        match b {
            Expr::Bin(..) | Expr::Select { .. } | Expr::LocalGet(_) | Expr::Temp(_) | Expr::GlobalGet(_) => {},
            _ => {},
        }
    }
    lemma_rendered_sound(b, env, bits, MaskContext::Masked, limit);
    lemma_rendered_sound(b, env, bits, MaskContext::Modular, limit);
    let wb = wasm_value(b, env, bits);
    match b {
        Expr::I32Const(v) => {
            assert((v & 31u32) == v % 32) by (bit_vector);
            assert(((32 - 1) as u32) == 31u32);
        },
        Expr::I64Const(v) => {
            assert((v & 63u64) == v % 64) by (bit_vector);
            assert(((64 - 1) as u64) == 63u64);
        },
        _ => {
            let bb = bound_spec(b, bits as u32, MaskContext::Masked, limit);
            let vm = rendered_value(b, env, bits, MaskContext::Masked, limit);
            let vo = rendered_value(b, env, bits, MaskContext::Modular, limit);
            vstd::arithmetic::div_mod::lemma_small_mod(vm as nat, m as nat);
            if bb.lo >= 0 && bb.hi < bits {
                vstd::arithmetic::div_mod::lemma_small_mod(vm as nat, bits);
            } else {
                if bits == 32 {
                    vstd::arithmetic::div_mod::lemma_mod_mod(vo, 32, 0x800_0000);
                } else {
                    vstd::arithmetic::div_mod::lemma_mod_mod(vo, 64, 0x400_0000_0000_0000);
                }
                lemma_mod_bound(vo, bits as int);
            }
        },
    }
}

/// The soundness of a shift site: its rendering agrees with the wasm shift.
#[verifier::spinoff_prover]
#[verifier::rlimit(100)]
proof fn lemma_shift_sound(e: Expr, env: spec_fn(Expr) -> int, bits: nat, ctx: MaskContext, limit: int)
    requires
        arith_expr(e, bits),
        e matches Expr::Bin(op, _, _) && shift_width_spec(op) is Some,
        0 < limit <= ceiling() / 4,
    ensures
        sound_at(e, env, bits, ctx, limit),
    decreases e, 0nat,
{
    lemma2_to64();
    let m = pow2(bits) as int;
    match e {
        Expr::Bin(op, a, b) => {
        assert(bits == 32 || bits == 64);
        assert(m == 0x1_0000_0000 || m == 0x1_0000_0000_0000_0000);
        lemma_count_sound(*b, env, bits, limit);
        let cnt: int = match shift_count_mode_spec(*b, bits as u32, limit) {
            ShiftCountMode::Constant(c) => c as int,
            ShiftCountMode::InRange => rendered_value(*b, env, bits, MaskContext::Masked, limit),
            ShiftCountMode::Masked => rendered_value(*b, env, bits, MaskContext::Modular, limit) % (bits as int),
        };
        let (cmin, cmax) = count_bound_spec(*b, bits as u32);
        let c = cnt as nat;
        let wa = wasm_value(*a, env, bits);
        let v = rendered_value(e, env, bits, ctx, limit);
        match op {
            BinOp::I32Shl | BinOp::I64Shl => {
                lemma_rendered_sound(*a, env, bits, MaskContext::Modular, limit);
                let va = rendered_value(*a, env, bits, MaskContext::Modular, limit);
                let p2 = pow2(c) as int;
                vstd::arithmetic::power2::lemma_pow2_pos(c);
                vstd::arithmetic::div_mod::lemma_small_mod(wa as nat, m as nat);
                lemma_mod_of_raw(BinOp::I32Mul, va, p2, wa, p2, m);
                let raw = va * p2;
                lemma_mod_bound(raw, m);
                vstd::arithmetic::div_mod::lemma_mod_twice(raw, m);
                let ba = bound_spec(*a, bits as u32, MaskContext::Modular, limit);
                let bb = bound_spec(*b, bits as u32, MaskContext::Modular, limit);
                let rb = raw_bin_spec(op, bits as u32, ba, *b, bb);
                assert(raw_bound_spec(e, limit) == Some((rb, bits as u32)));
                lemma_pow2_between(cmin as nat, c, cmax as nat);
                let (p, q, r, s) = (ba.lo as int, ba.hi as int, pow2(cmin as nat) as int, pow2(cmax as nat) as int);
                lemma_mul_between(va, p2, p, q, r, s);
                lemma_clamped_corners(raw, p * r, p * s, q * r, q * s);
            },
            BinOp::I32ShrS | BinOp::I64ShrS => {
                lemma_rendered_sound(*a, env, bits, MaskContext::Masked, limit);
                let va = rendered_value(*a, env, bits, MaskContext::Masked, limit);
                vstd::arithmetic::div_mod::lemma_small_mod(va as nat, m as nat);
                assert(va == wa);
                let half = pow2((bits - 1) as nat) as int;
                if bits == 32 {
                    assert(half == 0x8000_0000);
                } else {
                    vstd::arithmetic::power2::lemma2_to64_rest();
                    assert(half == 0x8000_0000_0000_0000);
                }
                let sv = signed_of(va, bits);
                let raw = shr_spec(sv, c);
                lemma_mod_bound(raw, m);
                vstd::arithmetic::div_mod::lemma_mod_twice(raw, m);
                let ba = bound_spec(*a, bits as u32, MaskContext::Masked, limit);
                let bb = bound_spec(*b, bits as u32, MaskContext::Modular, limit);
                let rb = raw_bin_spec(op, bits as u32, ba, *b, bb);
                assert(raw_bound_spec(e, limit) == Some((rb, bits as u32)));
                let sb = signed_view_spec(ba, bits as nat);
                assert(sb.lo <= sv <= sb.hi);
                lemma_shr_between(sv, c, sb.lo as int, sb.hi as int, cmin as nat, cmax as nat);
            },
            _ => {
                lemma_rendered_sound(*a, env, bits, MaskContext::Masked, limit);
                let va = rendered_value(*a, env, bits, MaskContext::Masked, limit);
                vstd::arithmetic::div_mod::lemma_small_mod(va as nat, m as nat);
                assert(va == wa);
                vstd::arithmetic::power2::lemma_pow2_pos(c);
                lemma_div_by_larger(va, 1, pow2(c) as int);
                vstd::arithmetic::div_mod::lemma_small_mod(shr_spec(va, c) as nat, m as nat);
                let ba = bound_spec(*a, bits as u32, MaskContext::Masked, limit);
                lemma_shr_between(va, c, ba.lo as int, ba.hi as int, cmin as nat, cmax as nat);
                lemma_div_by_larger(ba.hi as int, 1, pow2(cmin as nat) as int);
                vstd::arithmetic::power2::lemma_pow2_pos(cmin as nat);
                vstd::arithmetic::power2::lemma_pow2_pos(cmax as nat);
                lemma_div_by_larger(ba.lo as int, 1, pow2(cmax as nat) as int);
                lemma_div_by_larger(ba.hi as int, 1, pow2(cmax as nat) as int);
                lemma_div_by_larger(ba.lo as int, 1, pow2(cmin as nat) as int);
            },
        }
        },
        _ => {},
    }
}

proof fn lemma_cover_exp_le(a: Bound, b: Bound, k: nat, j: nat)
    requires
        k <= j <= 100,
        !escapes(a, b, j),
    ensures
        cover_exp(a, b, k) <= j,
    decreases j - k,
{
    if k < j && escapes(a, b, k) {
        lemma_cover_exp_le(a, b, k + 1, j);
    }
}

/// The bitwise interval of operands inside `[-2^98, 2^98)` stays inside it; of operands inside
/// the masked range of `bits`, inside that range.
proof fn lemma_bitwise_bound_range(is_and: bool, a: Bound, b: Bound, bits: nat)
    requires
        -(ceiling() / 4) <= a.lo <= a.hi < ceiling() / 4,
        -(ceiling() / 4) <= b.lo <= b.hi < ceiling() / 4,
        bits == 32 || bits == 64,
    ensures
        -(ceiling() / 4) <= bitwise_bound_spec(is_and, a, b).lo,
        bitwise_bound_spec(is_and, a, b).hi < ceiling() / 4,
        0 <= a.lo && a.hi < pow2(bits) && 0 <= b.lo && b.hi < pow2(bits) ==> 0 <= bitwise_bound_spec(is_and, a, b).lo
            && bitwise_bound_spec(is_and, a, b).hi < pow2(bits),
{
    lemma2_to64();
    vstd::arithmetic::power2::lemma2_to64_rest();
    lemma_pow2_is_shift(98);
    assert((1i128 << 98u32) == 0x4000000000000000000000000i128) by (bit_vector);
    lemma_pow2_is_shift(100);
    assert((1i128 << 100u32) == 0x10000000000000000000000000i128) by (bit_vector);
    if !is_and && a.lo >= 0 && b.lo >= 0 {
        let h = max_int(a.hi as int, b.hi as int);
        lemma_bit_len_le(h as nat, 98);
        vstd::arithmetic::power2::lemma_pow2_strictly_increases(98, 100);
        if bit_len(h as nat) < 98 {
            vstd::arithmetic::power2::lemma_pow2_strictly_increases(bit_len(h as nat), 98);
        }
        if h < pow2(bits) {
            lemma_bit_len_le(h as nat, bits);
            if bit_len(h as nat) < bits {
                vstd::arithmetic::power2::lemma_pow2_strictly_increases(bit_len(h as nat), bits);
            }
        }
    } else if !(is_and && (a.lo >= 0 || b.lo >= 0)) {
        assert(!escapes(a, b, 98));
        lemma_cover_exp_le(a, b, 0, 98);
        let c = cover_exp(a, b, 0);
        if c < 98 {
            vstd::arithmetic::power2::lemma_pow2_strictly_increases(c, 98);
        }
    }
}

/// A constant renders as itself, and its interval is exactly its value.
proof fn lemma_const_sound(e: Expr, env: spec_fn(Expr) -> int, bits: nat, ctx: MaskContext, limit: int)
    requires
        int_const_spec(e) is Some,
    ensures
        rendered_value(e, env, bits, ctx, limit) == int_const_spec(e)->0,
        bound_spec(e, bits as u32, ctx, limit).lo == int_const_spec(e)->0,
        bound_spec(e, bits as u32, ctx, limit).hi == int_const_spec(e)->0,
{
    assert(raw_bound_spec(e, limit) is None);
}

/// The soundness of a bitwise site: its rendering is the bitwise operation on its operands'
/// renderings, which agrees with the wasm result modulo the width.
#[verifier::spinoff_prover]
#[verifier::rlimit(60)]
proof fn lemma_bitwise_sound(e: Expr, env: spec_fn(Expr) -> int, bits: nat, ctx: MaskContext, limit: int)
    requires
        arith_expr(e, bits),
        e matches Expr::Bin(op, _, _) && is_bitwise_op(op),
        0 < limit <= ceiling() / 4,
    ensures
        sound_at(e, env, bits, ctx, limit),
    decreases e, 0nat,
{
    lemma2_to64();
    let m = pow2(bits) as int;
    match e {
        Expr::Bin(op, a, b) => {
            assert(bits == 32 || bits == 64);
            assert(m == 0x1_0000_0000 || m == 0x1_0000_0000_0000_0000);
            let ca = bin_operand_context_spec(op, 0, *b, ctx);
            let cb = bin_operand_context_spec(op, 1, *a, ctx);
            lemma_rendered_sound(*a, env, bits, ca, limit);
            lemma_rendered_sound(*b, env, bits, cb, limit);
            let va = rendered_value(*a, env, bits, ca, limit);
            let vb = rendered_value(*b, env, bits, cb, limit);
            let wa = wasm_value(*a, env, bits);
            let wb = wasm_value(*b, env, bits);
            let v = int_bitop(op, va, vb);
            assert(rendered_value(e, env, bits, ctx, limit) == v);
            // Agreement modulo the width, and the wasm result is a stored value.
            lemma_bitop_mod(op, va, vb, bits);
            lemma_bitop_width(op, wa, wb, bits);
            // The interval.
            let ba = bound_spec(*a, bits as u32, ca, limit);
            let bb = bound_spec(*b, bits as u32, cb, limit);
            let r = bitwise_bound_spec(is_and(op), ba, bb);
            assert(!is_comparison(op));
            assert(raw_bound_spec(e, limit) is None);
            assert(bound_spec(e, bits as u32, ctx, limit) == r);
            if ca != MaskContext::Reducing && cb != MaskContext::Reducing {
                lemma_pow2_is_shift(100);
                assert((1i128 << 100u32) == 0x10000000000000000000000000i128) by (bit_vector);
                law_bitwise_bound_encloses_every_integer(op, ba, bb, va, vb);
                lemma_bitwise_bound_range(is_and(op), ba, bb, bits);
                assert(r.lo <= v <= r.hi);
            } else if ca == MaskContext::Reducing && cb == MaskContext::Reducing {
                // Both operands are constants: the result is exact.
                lemma_const_sound(*a, env, bits, ca, limit);
                lemma_const_sound(*b, env, bits, cb, limit);
                assert(is_and(op));
                lemma_and_nonneg(op, va, vb);
                lemma_bitop_comm(op, va, vb);
                lemma_and_nonneg(op, vb, va);
            } else if ca == MaskContext::Reducing {
                // `a & c` with the constant `c`.
                assert(int_const_spec(*b) is Some);
                lemma_const_sound(*b, env, bits, cb, limit);
                assert(vb >= 0 && bb.lo == vb && bb.hi == vb);
                assert(is_and(op));
                lemma_and_nonneg(op, va, vb);
                if va >= 0 {
                    lemma_bitop_comm(op, va, vb);
                    lemma_and_nonneg(op, vb, va);
                }
                assert(r.lo <= v <= r.hi);
            } else {
                // `c & b` with the constant `c`.
                assert(int_const_spec(*a) is Some);
                lemma_const_sound(*a, env, bits, ca, limit);
                assert(va >= 0 && ba.lo == va && ba.hi == va);
                assert(is_and(op));
                lemma_bitop_comm(op, va, vb);
                lemma_and_nonneg(op, vb, va);
                if vb >= 0 {
                    lemma_and_nonneg(op, va, vb);
                }
                assert(r.lo <= v <= r.hi);
            }
            assert(0 <= wasm_value(e, env, bits) < m);
            assert(v % m == wasm_value(e, env, bits));
            assert(r.lo <= v <= r.hi);
            assert(ctx != MaskContext::Reducing ==> -(ceiling() / 4) <= r.lo && r.hi < ceiling() / 4);
            assert(ctx == MaskContext::Masked ==> 0 <= r.lo && r.hi < m);
        },
        _ => {},
    }
}

/// Dropping a mask never changes a value: on every integer expression [`arith_expr`] admits
/// (wrapping arithmetic, shifts with their counts rendered as [`shift_count_mode_spec`] decides,
/// bitwise operators, wrap, extend, `select`, loads and the other operations as leaves), the
/// rendering with every mask the guard drops agrees with
/// the wasm value modulo the width; a consumer that observes the exact value (`Masked`) reads
/// exactly the wasm value; and a `Modular` consumer is handed a value inside a quarter of the
/// analysis range.
pub proof fn law_elision_keeps_the_value(e: Expr, env: spec_fn(Expr) -> int, bits: nat, ctx: MaskContext, limit: int)
    requires
        arith_expr(e, bits),
        0 < limit <= ceiling() / 4,
    ensures
        rendered_value(e, env, bits, ctx, limit) % (pow2(bits) as int) == wasm_value(e, env, bits),
        ctx == MaskContext::Masked ==> rendered_value(e, env, bits, ctx, limit) == wasm_value(e, env, bits),
        ctx == MaskContext::Modular ==> -(ceiling() / 4) <= rendered_value(e, env, bits, ctx, limit) < ceiling()
            / 4,
{
    lemma_rendered_sound(e, env, bits, ctx, limit);
    if ctx == MaskContext::Masked {
        let v = rendered_value(e, env, bits, ctx, limit);
        vstd::arithmetic::div_mod::lemma_small_mod(v as nat, pow2(bits));
    }
}


// ---------------------------------------------------------------------------------------------
// The bitwise enclosure.

proof fn lemma_pow2_is_shift(k: u32)
    requires
        k <= 126,
    ensures
        pow2(k as nat) == (1i128 << k) as int,
    decreases k,
{
    if k == 0 {
        assert((1i128 << 0u32) == 1i128) by (bit_vector);
        vstd::arithmetic::power2::lemma_pow2(0);
        vstd::arithmetic::power::lemma_pow0(2);
    } else {
        let j: u32 = (k - 1) as u32;
        lemma_pow2_is_shift(j);
        assert(j < 126 ==> (1i128 << (j + 1) as u32) == 2 * (1i128 << j)) by (bit_vector);
        lemma_pow2_succ(j as nat);
    }
}

proof fn lemma_below_bit_len(h: nat)
    ensures
        h < pow2(bit_len(h)),
    decreases h,
{
    if h == 0 {
        vstd::arithmetic::power2::lemma_pow2_pos(0);
    } else {
        lemma_below_bit_len(h / 2);
        lemma_pow2_succ(bit_len(h / 2));
    }
}

proof fn lemma_cover_exp(a: Bound, b: Bound, k: nat)
    requires
        k <= 100,
        -ceiling() <= a.lo,
        a.hi < ceiling(),
        -ceiling() <= b.lo,
        b.hi < ceiling(),
    ensures
        k <= cover_exp(a, b, k) <= 100,
        !escapes(a, b, cover_exp(a, b, k)),
    decreases 100 - k,
{
    if k < 100 && escapes(a, b, k) {
        lemma_cover_exp(a, b, k + 1);
    } else if k == 100 {
        lemma_pow2_is_shift(100);
        assert((1i128 << 100u32) == 0x10000000000000000000000000i128) by (bit_vector);
    }
}

/// The interval [`bitwise_bound_spec`] gives encloses every result of the operation on values
/// of its operands' intervals: `x & y` for `is_and`, and both `x | y` and `x ^ y` otherwise.
/// Intervals reaching the top of the analysis range, where clamping has already lost values,
/// are left out.
pub proof fn law_bitwise_bound_encloses(is_and: bool, a: Bound, b: Bound, x: i128, y: i128)
    requires
        a.lo <= x <= a.hi,
        b.lo <= y <= b.hi,
        -ceiling() <= a.lo,
        a.hi < ceiling(),
        -ceiling() <= b.lo,
        b.hi < ceiling(),
    ensures
        is_and ==> bitwise_bound_spec(is_and, a, b).lo <= (x & y) <= bitwise_bound_spec(is_and, a, b).hi,
        !is_and ==> bitwise_bound_spec(is_and, a, b).lo <= (x | y) <= bitwise_bound_spec(is_and, a, b).hi,
        !is_and ==> bitwise_bound_spec(is_and, a, b).lo <= (x ^ y) <= bitwise_bound_spec(is_and, a, b).hi,
{
    let r = bitwise_bound_spec(is_and, a, b);
    if is_and && a.lo >= 0 && b.lo >= 0 {
        assert(x >= 0 && y >= 0 ==> (x & y) >= 0 && (x & y) <= x && (x & y) <= y) by (bit_vector);
    } else if is_and && a.lo >= 0 {
        assert(x >= 0 ==> (x & y) >= 0 && (x & y) <= x) by (bit_vector);
    } else if is_and && b.lo >= 0 {
        assert(y >= 0 ==> (x & y) >= 0 && (x & y) <= y) by (bit_vector);
    } else if !is_and && a.lo >= 0 && b.lo >= 0 {
        let h = max_int(a.hi as int, b.hi as int);
        let n = bit_len(h as nat);
        lemma_below_bit_len(h as nat);
        lemma_pow2_is_shift(100);
        assert((1i128 << 100u32) == 0x10000000000000000000000000i128) by (bit_vector);
        assert(pow2(100) == ceiling());
        lemma_bit_len_le(h as nat, 100);
        let k = n as u32;
        lemma_pow2_is_shift(k);
        let p = 1i128 << k;
        assert(x < p && y < p);
        assert(k <= 100 && 0 <= x && 0 <= y && x < (1i128 << k) && y < (1i128 << k) ==> 0 <= (x | y) && (x | y) < (
        1i128 << k) && 0 <= (x ^ y) && (x ^ y) < (1i128 << k)) by (bit_vector);
        assert(x <= h && y <= h);
        assert((x | y) < pow2(n) && (x ^ y) < pow2(n));
        if n < 100 {
            vstd::arithmetic::power2::lemma_pow2_strictly_increases(n, 100);
            assert(r == bound_new(0, pow2(n) - 1));
        } else {
            assert(r == bound_new(0, ceiling()));
        }
    } else {
        lemma_cover_exp(a, b, 0);
        let c = cover_exp(a, b, 0);
        let k = c as u32;
        lemma_pow2_is_shift(k);
        lemma_pow2_is_shift(100);
        assert((1i128 << 100u32) == 0x10000000000000000000000000i128) by (bit_vector);
        if c < 100 {
            vstd::arithmetic::power2::lemma_pow2_strictly_increases(c, 100);
        }
        let p = pow2(c) as int;
        assert(p <= ceiling());
        assert(-p <= x < p && -p <= y < p);
        assert(r.lo == -p && r.hi == p - 1);
        assert(k <= 100 && -(1i128 << k) <= x && x < (1i128 << k) && -(1i128 << k) <= y && y < (1i128 << k) ==> (
        -(1i128 << k) <= (x & y) && (x & y) < (1i128 << k) && -(1i128 << k) <= (x | y) && (x | y) < (1i128 << k) && -(
        1i128 << k) <= (x ^ y) && (x ^ y) < (1i128 << k))) by (bit_vector);
    }
}


// ---------------------------------------------------------------------------------------------
// Bitwise operations on integers of unbounded width, two's complement.

/// Whether `op` is a bitwise `and`, `or` or `xor`.
pub open spec fn is_bitwise_op(op: BinOp) -> bool {
    op == BinOp::I32And || op == BinOp::I64And || op == BinOp::I32Or || op == BinOp::I64Or || op == BinOp::I32Xor
        || op == BinOp::I64Xor
}

/// The bitwise operation `op` on the single bits `a` and `b`.
pub open spec fn bit_op(op: BinOp, a: int, b: int) -> int {
    if is_and(op) {
        a * b
    } else if op == BinOp::I32Or || op == BinOp::I64Or {
        a + b - a * b
    } else {
        a + b - 2 * a * b
    }
}

pub open spec fn abs_int(x: int) -> int {
    if x < 0 {
        -x
    } else {
        x
    }
}

pub proof fn lemma_half(x: int)
    ensures
        x / 2 == x ==> (x == 0 || x == -1),
        (x == 0 || x == -1) ==> x / 2 == x && x % 2 == -x,
        abs_int(x / 2) <= abs_int(x),
        !(x == 0 || x == -1) ==> abs_int(x / 2) < abs_int(x),
        x == 2 * (x / 2) + x % 2,
        0 <= x % 2 < 2,
{
    lemma_fundamental_div_mod(x, 2);
    lemma_mod_bound(x, 2);
}

/// `op` on two's-complement integers of unbounded width: bit by bit, an integer being `0` or
/// `-1` in all its bits from some position on.
pub open spec fn int_bitop(op: BinOp, x: int, y: int) -> int
    decreases abs_int(x) + abs_int(y),
{
    if (x == 0 || x == -1) && (y == 0 || y == -1) {
        -bit_op(op, -x, -y)
    } else {
        proof {
            lemma_half(x);
            lemma_half(y);
        }
        2 * int_bitop(op, x / 2, y / 2) + bit_op(op, x % 2, y % 2)
    }
}

proof fn lemma_bitop_unfold(op: BinOp, x: int, y: int)
    ensures
        int_bitop(op, x, y) == 2 * int_bitop(op, x / 2, y / 2) + bit_op(op, x % 2, y % 2),
        0 <= bit_op(op, x % 2, y % 2) <= 1,
{
    lemma_half(x);
    lemma_half(y);
    let (a, b) = (x % 2, y % 2);
    assert(0 <= bit_op(op, a, b) <= 1 && (a == 0 && b == 0 ==> bit_op(op, a, b) == 0)) by (nonlinear_arith)
        requires
            0 <= a < 2,
            0 <= b < 2,
    {
        if a == 0 {
        } else {
        }
    }
}

proof fn lemma_bitop_comm(op: BinOp, x: int, y: int)
    ensures
        int_bitop(op, x, y) == int_bitop(op, y, x),
    decreases abs_int(x) + abs_int(y),
{
    lemma_half(x);
    lemma_half(y);
    if !((x == 0 || x == -1) && (y == 0 || y == -1)) {
        lemma_bitop_comm(op, x / 2, y / 2);
    }
    assert(bit_op(op, x % 2, y % 2) == bit_op(op, y % 2, x % 2)) by (nonlinear_arith);
    assert(bit_op(op, -x, -y) == bit_op(op, -y, -x)) by (nonlinear_arith);
}

/// The low `w` bits of a bitwise result depend only on the low `w` bits of its operands.
proof fn lemma_bitop_mod(op: BinOp, x: int, y: int, w: nat)
    ensures
        int_bitop(op, x, y) % (pow2(w) as int) == int_bitop(op, x % (pow2(w) as int), y % (pow2(w) as int)),
    decreases w,
{
    lemma2_to64();
    if w == 0 {
        assert(x % 1 == 0 && y % 1 == 0 && int_bitop(op, x, y) % 1 == 0);
        assert(bit_op(op, 0, 0) == 0);
    } else {
        let k = (w - 1) as nat;
        let m = pow2(k) as int;
        lemma_pow2_succ(k);
        vstd::arithmetic::power2::lemma_pow2_pos(k);
        lemma_bitop_mod(op, x / 2, y / 2, k);
        lemma_bitop_unfold(op, x, y);
        let xx = x % (2 * m);
        let yy = y % (2 * m);
        lemma_bitop_unfold(op, xx, yy);
        lemma_mod_halves(x, m);
        lemma_mod_halves(y, m);
        let r = int_bitop(op, x / 2, y / 2);
        let bt = bit_op(op, x % 2, y % 2);
        lemma_double_mod(r, bt, m);
    }
}

/// `(2 * r + b) % (2 * m) == 2 * (r % m) + b` for a bit `b`.
proof fn lemma_double_mod(r: int, b: int, m: int)
    requires
        m > 0,
        0 <= b <= 1,
    ensures
        (2 * r + b) % (2 * m) == 2 * (r % m) + b,
{
    lemma_fundamental_div_mod(r, m);
    lemma_mod_bound(r, m);
    let q = r / m;
    assert(2 * r + b == q * (2 * m) + (2 * (r % m) + b)) by (nonlinear_arith)
        requires r == m * q + r % m;
    vstd::arithmetic::div_mod::lemma_fundamental_div_mod_converse_mod(2 * r + b, 2 * m, q, 2 * (r % m) + b);
}

/// Reducing modulo `2 * m` keeps the low bit and reduces the rest modulo `m`.
proof fn lemma_mod_halves(x: int, m: int)
    requires
        m > 0,
    ensures
        (x % (2 * m)) % 2 == x % 2,
        (x % (2 * m)) / 2 == (x / 2) % m,
{
    lemma_half(x);
    let h = x / 2;
    let b = x % 2;
    lemma_double_mod(h, b, m);
    lemma_mod_bound(h, m);
    let xx = x % (2 * m);
    assert(xx == 2 * (h % m) + b);
    vstd::arithmetic::div_mod::lemma_fundamental_div_mod_converse_div(xx, 2, h % m, b);
    vstd::arithmetic::div_mod::lemma_fundamental_div_mod_converse_mod(xx, 2, h % m, b);
}

/// `x & c` with a non-negative `c` lies in `[0, c]`.
proof fn lemma_and_nonneg(op: BinOp, x: int, c: int)
    requires
        is_and(op),
        c >= 0,
    ensures
        0 <= int_bitop(op, x, c) <= c,
    decreases abs_int(x) + abs_int(c),
{
    lemma_half(x);
    lemma_half(c);
    lemma_bitop_unfold(op, x, c);
    if (x == 0 || x == -1) && (c == 0 || c == -1) {
        assert(c == 0);
        assert(bit_op(op, -x, -c) == (-x) * 0);
        assert((-x) * 0 == 0) by (nonlinear_arith);
    } else {
        lemma_and_nonneg(op, x / 2, c / 2);
        assert(bit_op(op, x % 2, c % 2) == (x % 2) * (c % 2));
        assert(bit_op(op, x % 2, c % 2) <= c % 2) by (nonlinear_arith)
            requires 0 <= x % 2 < 2, 0 <= c % 2 < 2, bit_op(op, x % 2, c % 2) == (x % 2) * (c % 2);
    }
}

/// Operands in `[-2^k, 2^k)` give a result in `[-2^k, 2^k)`; non-negative operands below `2^k`
/// give a non-negative result below `2^k`.
proof fn lemma_bitop_width(op: BinOp, x: int, y: int, k: nat)
    requires
        -(pow2(k) as int) <= x < pow2(k),
        -(pow2(k) as int) <= y < pow2(k),
    ensures
        -(pow2(k) as int) <= int_bitop(op, x, y) < pow2(k),
        x >= 0 && y >= 0 ==> int_bitop(op, x, y) >= 0,
    decreases k,
{
    lemma2_to64();
    lemma_half(x);
    lemma_half(y);
    lemma_bitop_unfold(op, x, y);
    if k == 0 {
        assert(x == 0 || x == -1);
        assert(y == 0 || y == -1);
        assert(0 <= bit_op(op, -x, -y) <= 1) by (nonlinear_arith)
            requires 0 <= -x <= 1, 0 <= -y <= 1;
        assert(x == 0 && y == 0 ==> bit_op(op, -x, -y) == 0);
    } else {
        let j = (k - 1) as nat;
        lemma_pow2_succ(j);
        lemma_bitop_width(op, x / 2, y / 2, j);
    }
}


/// The interval [`bitwise_bound_spec`] gives encloses every result of the bitwise operation `op`
/// on integers of any width drawn from its operands' intervals. Intervals reaching the top of
/// the analysis range, where clamping has already lost values, are left out.
pub proof fn law_bitwise_bound_encloses_every_integer(op: BinOp, a: Bound, b: Bound, x: int, y: int)
    requires
        is_bitwise_op(op),
        a.lo <= x <= a.hi,
        b.lo <= y <= b.hi,
        -ceiling() <= a.lo,
        a.hi < ceiling(),
        -ceiling() <= b.lo,
        b.hi < ceiling(),
    ensures
        bitwise_bound_spec(is_and(op), a, b).lo <= int_bitop(op, x, y) <= bitwise_bound_spec(is_and(op), a, b).hi,
{
    let r = bitwise_bound_spec(is_and(op), a, b);
    lemma_pow2_is_shift(100);
    assert((1i128 << 100u32) == 0x10000000000000000000000000i128) by (bit_vector);
    assert(pow2(100) == ceiling());
    if is_and(op) && a.lo >= 0 && b.lo >= 0 {
        lemma_and_nonneg(op, x, y);
        lemma_and_nonneg(op, y, x);
        lemma_bitop_comm(op, x, y);
    } else if is_and(op) && a.lo >= 0 {
        lemma_and_nonneg(op, y, x);
        lemma_bitop_comm(op, x, y);
    } else if is_and(op) && b.lo >= 0 {
        lemma_and_nonneg(op, x, y);
    } else if !is_and(op) && a.lo >= 0 && b.lo >= 0 {
        let h = max_int(a.hi as int, b.hi as int);
        let n = bit_len(h as nat);
        lemma_below_bit_len(h as nat);
        lemma_bit_len_le(h as nat, 100);
        vstd::arithmetic::power2::lemma_pow2_pos(n);
        lemma_bitop_width(op, x, y, n);
        if n < 100 {
            vstd::arithmetic::power2::lemma_pow2_strictly_increases(n, 100);
            assert(r == bound_new(0, pow2(n) - 1));
        } else {
            assert(r == bound_new(0, ceiling()));
        }
    } else {
        lemma_cover_exp(a, b, 0);
        let c = cover_exp(a, b, 0);
        if c < 100 {
            vstd::arithmetic::power2::lemma_pow2_strictly_increases(c, 100);
        }
        let p = pow2(c) as int;
        assert(-p <= x < p && -p <= y < p);
        lemma_bitop_width(op, x, y, c);
        assert(r.lo == -p && r.hi == p - 1);
    }
}

// ---------------------------------------------------------------------------------------------
// Soundness of the equality rewrite.

/// The width the expression [`peel_spec`] ends on is rendered at, starting from a `bits`-wide
/// `e`: peeling a wrap moves to the i64 operand.
pub open spec fn peel_bits(e: Expr, target: int, ctx: MaskContext, limit: int, bits: nat) -> nat
    decreases e,
{
    match e {
        Expr::Un(UnOp::I32WrapI64, x) => if elides_spec(*x, MaskContext::Modular, limit) {
            peel_bits(*x, target, MaskContext::Modular, limit, 64)
        } else {
            64
        },
        Expr::Bin(op, x, y) => if op == BinOp::I32Add || op == BinOp::I64Add {
            match (int_const_spec(*x), int_const_spec(*y)) {
                (Some(c1), None) => if elides_spec(*y, MaskContext::Modular, limit) {
                    peel_bits(*y, target - c1, MaskContext::Modular, limit, bits)
                } else {
                    bits
                },
                (None, Some(c1)) => if elides_spec(*x, MaskContext::Modular, limit) {
                    peel_bits(*x, target - c1, MaskContext::Modular, limit, bits)
                } else {
                    bits
                },
                _ => bits,
            }
        } else if op == BinOp::I32Sub || op == BinOp::I64Sub {
            match (int_const_spec(*x), int_const_spec(*y)) {
                (Some(c1), None) => if elides_spec(*y, MaskContext::Modular, limit) {
                    peel_bits(*y, c1 - target, MaskContext::Modular, limit, bits)
                } else {
                    bits
                },
                (None, Some(c1)) => if elides_spec(*x, MaskContext::Modular, limit) {
                    peel_bits(*x, target + c1, MaskContext::Modular, limit, bits)
                } else {
                    bits
                },
                _ => bits,
            }
        } else {
            bits
        },
        _ => bits,
    }
}

/// Peeling constant adds, subs and elided wraps off a site whose own mask is elided keeps the
/// comparison: the site's rendering equals `target` exactly when the peeled expression's
/// rendering equals the peeled target.
proof fn lemma_peel_sound(e: Expr, env: spec_fn(Expr) -> int, bits: nat, target: int, ctx: MaskContext, limit: int)
    requires
        arith_expr(e, bits),
        elides_spec(e, ctx, limit),
    ensures
        ({
            let (x, cx, tx) = peel_spec(e, target, ctx, limit);
            let xb = peel_bits(e, target, ctx, limit, bits);
            &&& arith_expr(x, xb)
            &&& (rendered_value(e, env, bits, ctx, limit) == target) == (rendered_value(x, env, xb, cx, limit) == tx)
        }),
    decreases e,
{
    match e {
        Expr::Un(UnOp::I32WrapI64, x) => {
            if elides_spec(*x, MaskContext::Modular, limit) {
                lemma_peel_sound(*x, env, 64, target, MaskContext::Modular, limit);
            }
        },
        Expr::Bin(op, x, y) => {
            if op == BinOp::I32Add || op == BinOp::I64Add || op == BinOp::I32Sub || op == BinOp::I64Sub {
                assert(shift_width_spec(op) is None && !is_bitwise_op(op));
                match (int_const_spec(*x), int_const_spec(*y)) {
                    (Some(c1), None) => {
                        lemma_const_sound(*x, env, bits, MaskContext::Modular, limit);
                        if elides_spec(*y, MaskContext::Modular, limit) {
                            let t2 = if op == BinOp::I32Add || op == BinOp::I64Add { target - c1 } else { c1 - target };
                            lemma_peel_sound(*y, env, bits, t2, MaskContext::Modular, limit);
                        }
                    },
                    (None, Some(c1)) => {
                        lemma_const_sound(*y, env, bits, MaskContext::Modular, limit);
                        if elides_spec(*x, MaskContext::Modular, limit) {
                            let t2 = if op == BinOp::I32Add || op == BinOp::I64Add { target - c1 } else { target + c1 };
                            lemma_peel_sound(*x, env, bits, t2, MaskContext::Modular, limit);
                        }
                    },
                    _ => {},
                }
            }
        },
        _ => {},
    }
}

/// The equality rewrite never changes a comparison: when [`eq_const_rewrite_spec`] rewrites
/// `e == c` to comparing the peeled expression `x`, rendered in `ctx`, against `t`, that
/// comparison holds exactly when the wasm value of `e` is `c`.
pub proof fn law_eq_rewrite_keeps_the_comparison(
    e: Expr,
    env: spec_fn(Expr) -> int,
    bits: nat,
    c: u64,
    limit: int,
)
    requires
        arith_expr(e, bits),
        0 < limit <= ceiling() / 4,
        c < pow2(bits),
        eq_const_rewrite_spec(e, c, limit) is Some,
    ensures
        ({
            let (x, ctx, t) = eq_const_rewrite_spec(e, c, limit)->0;
            let xb = peel_bits(e, pinned_candidate((raw_bound_spec(e, limit)->0).0, bits, c as int)->0, MaskContext::Reducing,
                limit, bits);
            &&& arith_expr(x, xb)
            &&& (rendered_value(x, env, xb, ctx, limit) == t) == (wasm_value(e, env, bits) == c)
        }),
{
    let (raw, rb) = raw_bound_spec(e, limit)->0;
    lemma_rendered_sound(e, env, bits, MaskContext::Reducing, limit);
    lemma_mask_width(e, bits, limit);
    let t = pinned_candidate(raw, bits, c as int)->0;
    let m = pow2(bits) as int;
    vstd::arithmetic::power2::lemma_pow2_pos(bits);
    let r = rendered_value(e, env, bits, MaskContext::Reducing, limit);
    assert(elides_spec(e, MaskContext::Reducing, limit));
    assert(bound_spec(e, bits as u32, MaskContext::Reducing, limit) == raw);
    assert(raw.lo <= r <= raw.hi);
    law_pinned_candidate_is_the_unique_preimage(raw, bits, c as int, t, r);
    lemma_peel_sound(e, env, bits, t, MaskContext::Reducing, limit);
    // `r` meets `c` modulo the width exactly when it is `t`.
    lemma_fundamental_div_mod(r, m);
    lemma_mod_bound(r, m);
    if r % m == c {
        assert(r - c == (r / m) * m) by (nonlinear_arith)
            requires r == m * (r / m) + r % m, r % m == c;
        vstd::arithmetic::div_mod::lemma_fundamental_div_mod_converse_mod(r - c, m, r / m, 0);
    }
    if (r - c) % m == 0 {
        lemma_fundamental_div_mod(r - c, m);
        let q = (r - c) / m;
        assert(r == q * m + c) by (nonlinear_arith)
            requires r - c == m * q + (r - c) % m, (r - c) % m == 0;
        vstd::arithmetic::div_mod::lemma_fundamental_div_mod_converse_mod(r, m, q, c as int);
    }
}

/// A site with a mask of its own has it at its width.
proof fn lemma_mask_width(e: Expr, bits: nat, limit: int)
    requires
        arith_expr(e, bits),
        raw_bound_spec(e, limit) is Some,
    ensures
        (raw_bound_spec(e, limit)->0).1 == bits,
{
}

} // verus!
