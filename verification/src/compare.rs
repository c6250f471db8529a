//! The comparison table every backend shares: which binary operations compare, with which
//! operator spelling, and under which view of their operands.
use vstd::prelude::*;

use vstd::arithmetic::power2::pow2;

use crate::ir::{BinOp, Expr, UnOp};

verus! {

/// The view a wasm comparison imposes on its operands: what the stored representation must be
/// read as before the target language's own operator answers the way wasm does. Integer
/// `eq`/`ne` and every float comparison impose none.
#[derive(Clone, Copy, PartialEq, Eq, Debug, Structural)]
pub enum CompareOperands {
    Float,
    IntEq,
    Signed32,
    Signed64,
    Unsigned32,
    Unsigned64,
}

/// The operator spelling and operand view of the comparison `op` performs, `None` for every
/// other binary operation.
pub open spec fn comparison_spec(op: BinOp) -> Option<(Seq<char>, CompareOperands)> {
    match op {
        BinOp::I32Eq | BinOp::I64Eq => Some(("=="@, CompareOperands::IntEq)),
        BinOp::I32Ne | BinOp::I64Ne => Some(("!="@, CompareOperands::IntEq)),
        BinOp::F32Eq | BinOp::F64Eq => Some(("=="@, CompareOperands::Float)),
        BinOp::F32Ne | BinOp::F64Ne => Some(("!="@, CompareOperands::Float)),
        BinOp::F32Lt | BinOp::F64Lt => Some(("<"@, CompareOperands::Float)),
        BinOp::F32Gt | BinOp::F64Gt => Some((">"@, CompareOperands::Float)),
        BinOp::F32Le | BinOp::F64Le => Some(("<="@, CompareOperands::Float)),
        BinOp::F32Ge | BinOp::F64Ge => Some((">="@, CompareOperands::Float)),
        BinOp::I32LtS => Some(("<"@, CompareOperands::Signed32)),
        BinOp::I32GtS => Some((">"@, CompareOperands::Signed32)),
        BinOp::I32LeS => Some(("<="@, CompareOperands::Signed32)),
        BinOp::I32GeS => Some((">="@, CompareOperands::Signed32)),
        BinOp::I64LtS => Some(("<"@, CompareOperands::Signed64)),
        BinOp::I64GtS => Some((">"@, CompareOperands::Signed64)),
        BinOp::I64LeS => Some(("<="@, CompareOperands::Signed64)),
        BinOp::I64GeS => Some((">="@, CompareOperands::Signed64)),
        BinOp::I32LtU => Some(("<"@, CompareOperands::Unsigned32)),
        BinOp::I32GtU => Some((">"@, CompareOperands::Unsigned32)),
        BinOp::I32LeU => Some(("<="@, CompareOperands::Unsigned32)),
        BinOp::I32GeU => Some((">="@, CompareOperands::Unsigned32)),
        BinOp::I64LtU => Some(("<"@, CompareOperands::Unsigned64)),
        BinOp::I64GtU => Some((">"@, CompareOperands::Unsigned64)),
        BinOp::I64LeU => Some(("<="@, CompareOperands::Unsigned64)),
        BinOp::I64GeU => Some((">="@, CompareOperands::Unsigned64)),
        _ => None,
    }
}

/// Whether `op` is one of the comparisons.
pub open spec fn is_comparison(op: BinOp) -> bool {
    comparison_spec(op) is Some
}

/// The comparison `op` performs, as the operator spelling every target language shares and the
/// view its operands need; `None` for any other binary operation.
pub fn comparison(op: BinOp) -> (r: Option<(&'static str, CompareOperands)>)
    ensures
        match r {
            Some((s, k)) => comparison_spec(op) == Some((s@, k)),
            None => comparison_spec(op) is None,
        },
{
    match op {
        BinOp::I32Eq | BinOp::I64Eq => Some(("==", CompareOperands::IntEq)),
        BinOp::I32Ne | BinOp::I64Ne => Some(("!=", CompareOperands::IntEq)),
        BinOp::F32Eq | BinOp::F64Eq => Some(("==", CompareOperands::Float)),
        BinOp::F32Ne | BinOp::F64Ne => Some(("!=", CompareOperands::Float)),
        BinOp::F32Lt | BinOp::F64Lt => Some(("<", CompareOperands::Float)),
        BinOp::F32Gt | BinOp::F64Gt => Some((">", CompareOperands::Float)),
        BinOp::F32Le | BinOp::F64Le => Some(("<=", CompareOperands::Float)),
        BinOp::F32Ge | BinOp::F64Ge => Some((">=", CompareOperands::Float)),
        BinOp::I32LtS => Some(("<", CompareOperands::Signed32)),
        BinOp::I32GtS => Some((">", CompareOperands::Signed32)),
        BinOp::I32LeS => Some(("<=", CompareOperands::Signed32)),
        BinOp::I32GeS => Some((">=", CompareOperands::Signed32)),
        BinOp::I64LtS => Some(("<", CompareOperands::Signed64)),
        BinOp::I64GtS => Some((">", CompareOperands::Signed64)),
        BinOp::I64LeS => Some(("<=", CompareOperands::Signed64)),
        BinOp::I64GeS => Some((">=", CompareOperands::Signed64)),
        BinOp::I32LtU => Some(("<", CompareOperands::Unsigned32)),
        BinOp::I32GtU => Some((">", CompareOperands::Unsigned32)),
        BinOp::I32LeU => Some(("<=", CompareOperands::Unsigned32)),
        BinOp::I32GeU => Some((">=", CompareOperands::Unsigned32)),
        BinOp::I64LtU => Some(("<", CompareOperands::Unsigned64)),
        BinOp::I64GtU => Some((">", CompareOperands::Unsigned64)),
        BinOp::I64LeU => Some(("<=", CompareOperands::Unsigned64)),
        BinOp::I64GeU => Some((">=", CompareOperands::Unsigned64)),
        _ => None,
    }
}

/// The runtime helper name of the signed view `operands` need on a backend whose integers are
/// stored masked-unsigned: `s32`/`s64` for the signed comparisons, none otherwise.
pub open spec fn signed_helper_spec(operands: CompareOperands) -> Option<Seq<char>> {
    match operands {
        CompareOperands::Signed32 => Some("s32"@),
        CompareOperands::Signed64 => Some("s64"@),
        _ => None,
    }
}

/// The operator from [`comparison`] paired with the runtime helper (`s32`/`s64`) the operands
/// must go through, or `None` wherever the stored representation already compares correctly;
/// `None` for a non-comparison.
pub fn signed_view_rel_op(op: BinOp) -> (r: Option<(&'static str, Option<&'static str>)>)
    ensures
        match (r, comparison_spec(op)) {
            (Some((s, h)), Some((cs, k))) => s@ == cs && match (h, signed_helper_spec(k)) {
                (Some(hs), Some(ss)) => hs@ == ss,
                (None, None) => true,
                _ => false,
            },
            (None, None) => true,
            _ => false,
        },
{
    match comparison(op) {
        None => None,
        Some((r, operands)) => {
            let h = match operands {
                CompareOperands::Signed32 => Some("s32"),
                CompareOperands::Signed64 => Some("s64"),
                _ => None,
            };
            Some((r, h))
        },
    }
}

/// Whether `e` is a comparison or an `eqz`: the expressions a backend renders as a native
/// boolean rather than as a `!= 0` test of a materialized 0/1.
pub open spec fn is_boolean_spec(e: Expr) -> bool {
    match e {
        Expr::Un(UnOp::I32Eqz, _) | Expr::Un(UnOp::I64Eqz, _) => true,
        Expr::Bin(op, _, _) => is_comparison(op),
        _ => false,
    }
}

/// Whether `e` is a comparison or an `eqz`.
pub fn is_boolean(e: &Expr) -> (r: bool)
    ensures
        r == is_boolean_spec(*e),
{
    match e {
        Expr::Un(UnOp::I32Eqz, _) | Expr::Un(UnOp::I64Eqz, _) => true,
        Expr::Bin(op, _, _) => comparison(*op).is_some(),
        _ => false,
    }
}

// ---------------------------------------------------------------------------------------------
// What a comparison answers.

/// Whether the operator `s` holds between the integers `x` and `y`, as every target language
/// reads `==`, `!=`, `<`, `>`, `<=` and `>=`; any other spelling holds nowhere.
pub open spec fn operator_holds(s: Seq<char>, x: int, y: int) -> bool {
    if s == "=="@ {
        x == y
    } else if s == "!="@ {
        x != y
    } else if s == "<"@ {
        x < y
    } else if s == ">"@ {
        x > y
    } else if s == "<="@ {
        x <= y
    } else if s == ">="@ {
        x >= y
    } else {
        false
    }
}

/// The two's-complement reading of the `bits`-wide pattern `a`.
pub open spec fn signed_reading(a: int, bits: nat) -> int {
    if a < pow2((bits - 1) as nat) {
        a
    } else {
        a - pow2(bits)
    }
}

/// The integer the stored pattern `a` is read as under the view `k`.
pub open spec fn operand_read(k: CompareOperands, a: int) -> int {
    match k {
        CompareOperands::Signed32 => signed_reading(a, 32),
        CompareOperands::Signed64 => signed_reading(a, 64),
        _ => a,
    }
}

/// The width of the operands of the integer comparison `op`; `None` for everything else.
pub open spec fn int_compare_width(op: BinOp) -> Option<nat> {
    match op {
        BinOp::I32Eq | BinOp::I32Ne | BinOp::I32LtS | BinOp::I32GtS | BinOp::I32LeS | BinOp::I32GeS | BinOp::I32LtU
        | BinOp::I32GtU | BinOp::I32LeU | BinOp::I32GeU => Some(32),
        BinOp::I64Eq | BinOp::I64Ne | BinOp::I64LtS | BinOp::I64GtS | BinOp::I64LeS | BinOp::I64GeS | BinOp::I64LtU
        | BinOp::I64GtU | BinOp::I64LeU | BinOp::I64GeU => Some(64),
        _ => None,
    }
}

/// What the wasm integer comparison `op` answers on the stored patterns `a` and `b`: `eq`/`ne`
/// on the patterns, `_u` on them as unsigned numbers, `_s` on their two's-complement readings.
pub open spec fn wasm_compares(op: BinOp, a: int, b: int) -> bool {
    let (sa, sb) = (signed_reading(a, 32), signed_reading(b, 32));
    let (la, lb) = (signed_reading(a, 64), signed_reading(b, 64));
    match op {
        BinOp::I32Eq | BinOp::I64Eq => a == b,
        BinOp::I32Ne | BinOp::I64Ne => a != b,
        BinOp::I32LtU | BinOp::I64LtU => a < b,
        BinOp::I32GtU | BinOp::I64GtU => a > b,
        BinOp::I32LeU | BinOp::I64LeU => a <= b,
        BinOp::I32GeU | BinOp::I64GeU => a >= b,
        BinOp::I32LtS => sa < sb,
        BinOp::I32GtS => sa > sb,
        BinOp::I32LeS => sa <= sb,
        BinOp::I32GeS => sa >= sb,
        BinOp::I64LtS => la < lb,
        BinOp::I64GtS => la > lb,
        BinOp::I64LeS => la <= lb,
        BinOp::I64GeS => la >= lb,
        _ => false,
    }
}

/// Every integer comparison is a comparison, and its operator, applied to its operands read in
/// the view it names, answers what wasm answers, for every pair of stored operand values.
pub proof fn law_comparison_answers_as_wasm(op: BinOp, a: int, b: int)
    requires
        int_compare_width(op) is Some,
        0 <= a < pow2(int_compare_width(op)->0),
        0 <= b < pow2(int_compare_width(op)->0),
    ensures
        comparison_spec(op) is Some,
        ({
            let (s, k) = comparison_spec(op)->0;
            operator_holds(s, operand_read(k, a), operand_read(k, b)) == wasm_compares(op, a, b)
        }),
{
    let k = (comparison_spec(op)->0).1;
    lemma_operator_meanings(operand_read(k, a), operand_read(k, b));
}

proof fn lemma_operator_meanings(x: int, y: int)
    ensures
        operator_holds("=="@, x, y) == (x == y),
        operator_holds("!="@, x, y) == (x != y),
        operator_holds("<"@, x, y) == (x < y),
        operator_holds(">"@, x, y) == (x > y),
        operator_holds("<="@, x, y) == (x <= y),
        operator_holds(">="@, x, y) == (x >= y),
{
    reveal_strlit("==");
    reveal_strlit("!=");
    reveal_strlit("<");
    reveal_strlit(">");
    reveal_strlit("<=");
    reveal_strlit(">=");
    assert("!="@[0] != "=="@[0]);
    assert("<"@.len() != "=="@.len() && "<"@.len() != "!="@.len());
    assert(">"@.len() != "=="@.len() && ">"@.len() != "!="@.len() && ">"@[0] != "<"@[0]);
    assert("<="@[0] != "=="@[0] && "<="@[0] != "!="@[0] && "<="@.len() != "<"@.len() && "<="@.len() != ">"@.len());
    assert(">="@[0] != "=="@[0] && ">="@[0] != "!="@[0] && ">="@.len() != "<"@.len() && ">="@.len() != ">"@.len()
        && ">="@[0] != "<="@[0]);
}

/// The integer comparison of the same relation as the float comparison `op`: `eq`, `ne`, and
/// the unsigned `lt`, `gt`, `le`, `ge`; `None` for everything else.
pub open spec fn float_counterpart(op: BinOp) -> Option<BinOp> {
    match op {
        BinOp::F32Eq | BinOp::F64Eq => Some(BinOp::I32Eq),
        BinOp::F32Ne | BinOp::F64Ne => Some(BinOp::I32Ne),
        BinOp::F32Lt | BinOp::F64Lt => Some(BinOp::I32LtU),
        BinOp::F32Gt | BinOp::F64Gt => Some(BinOp::I32GtU),
        BinOp::F32Le | BinOp::F64Le => Some(BinOp::I32LeU),
        BinOp::F32Ge | BinOp::F64Ge => Some(BinOp::I32GeU),
        _ => None,
    }
}

/// A float comparison is spelled with the operator of the integer comparison of the same
/// relation, and reads its operands as floats: the native float operators answer as wasm does.
pub proof fn law_float_comparisons_share_the_integer_operator(op: BinOp)
    requires
        float_counterpart(op) is Some,
    ensures
        comparison_spec(op) == Some(((comparison_spec(float_counterpart(op)->0)->0).0, CompareOperands::Float)),
{
}

} // verus!
