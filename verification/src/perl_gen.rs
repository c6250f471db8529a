//! The Perl lowering of function bodies: every expression and statement of the IR spelled as the
//! Perl the generated package runs, with the runtime units each spelling references.
//!
//! Integers stay masked unsigned; a `br` is a `last`/`next` on the target frame's label, a
//! referenced block is a labelled bare block and a referenced loop a labelled `while (1)`. Float
//! constants are spelled from texts the caller supplies (see [`FloatTexts`]).
use vstd::prelude::*;

use crate::bundler::{is_sorted_closure, sorted_distinct, strictly_sorted, views, RuntimeBundler};
use crate::ir::{BinOp, BrTarget, Data, Elem, ElemItem, ElemKind, Export, ExportKind, Expr, Func, FuncType, Global, Import, ImportedFunc, Module, Stmt, Table, Temp, UnOp, ValType};
use crate::perl::{PerlBackend, check_module_name, is_package_name, perl_grammar, hex_bytes, assign_results, assign_results_spec, perl_escapes, perl_string, seq_has_br_table, seq_has_br_table_spec, temp};
use crate::support::{BackendError, GenOptions, Mode, OutputFile, RuntimeLinkage, check_module_support, module_support_refusal, is_wasi_module, is_wasi_module_spec, default_value, load_method, load_method_spec, names_joined, store_method, store_method_spec, type_key};
use crate::text::{replace_all, replace_str, hex_spec, decimal, hex_num, push_decimal, push_hex_num, push_str, to_owned};
use crate::outline::{height, hmax, lemma_hmax_elem};
use crate::writer::CodeWriter;
use vstd::utf8::encode_utf8;
use vstd::arithmetic::power2::{pow2, lemma2_to64};
use crate::compare::{int_compare_width, signed_reading, wasm_compares};

verus! {

/// How Perl spells each finite float constant of a module, keyed by the constant's bits: the
/// shortest decimal that reads back as the same double. Floating point is computed where it is
/// available, so the texts come in with the module.
pub struct FloatTexts {
    pub f32s: Vec<(u32, String)>,
    pub f64s: Vec<(u64, String)>,
}

/// What lowers one module's functions: the module, the runtime package name generated code
/// spells (`Rt` or `<Package>::Rt`), and the float texts.
pub struct PerlGen<'a> {
    pub module: &'a Module,
    pub rt_name: String,
    pub floats: &'a FloatTexts,
    /// The runtime's units, for the bundled WASI fallbacks.
    pub bundler: &'a RuntimeBundler,
    /// Whether WASI imports the embedder leaves out fall back to the bundled implementation.
    pub default_wasi: bool,
    /// Whether data segments live in a sidecar blob, read once into `$DATA_BLOB`.
    pub data_file: bool,
    /// Where each data segment starts in the sidecar blob.
    pub data_offsets: Vec<usize>,
}

/// The text `fs` gives for the `f32` bits `bits`: the first entry's; empty when none has them.
pub open spec fn text_for32(fs: Seq<(u32, String)>, bits: u32) -> Seq<char>
    decreases fs.len(),
{
    if fs.len() == 0 {
        seq![]
    } else if fs[0].0 == bits {
        fs[0].1@
    } else {
        text_for32(fs.drop_first(), bits)
    }
}

/// The text `fs` gives for the `f64` bits `bits`: the first entry's; empty when none has them.
pub open spec fn text_for64(fs: Seq<(u64, String)>, bits: u64) -> Seq<char>
    decreases fs.len(),
{
    if fs.len() == 0 {
        seq![]
    } else if fs[0].0 == bits {
        fs[0].1@
    } else {
        text_for64(fs.drop_first(), bits)
    }
}

/// Whether the `f32` with bits `bits` is finite: its exponent is not all ones.
pub open spec fn f32_finite(bits: u32) -> bool {
    (bits >> 23u32) & 0xffu32 != 0xffu32
}

/// Whether the `f64` with bits `bits` is finite: its exponent is not all ones.
pub open spec fn f64_finite(bits: u64) -> bool {
    (bits >> 52u64) & 0x7ffu64 != 0x7ffu64
}

/// A runtime helper as generated code names it.
pub open spec fn rt_text(rt: Seq<char>, name: Seq<char>) -> Seq<char> {
    rt + "::"@ + name
}

/// The runtime unit that defines the helper `name`.
pub open spec fn rt_unit(name: Seq<char>) -> Seq<char> {
    "rt/"@ + name
}

/// `inner` passed to the helper `o`, or `inner` itself for none.
pub open spec fn call_wrap(rt: Seq<char>, o: Option<&'static str>, inner: Seq<char>) -> Seq<char> {
    match o {
        Some(n) => rt_text(rt, n@) + "("@ + inner + ")"@,
        None => inner,
    }
}

/// The unit of the helper `o`, if any.
pub open spec fn opt_units(o: Option<&'static str>) -> Seq<Seq<char>> {
    match o {
        Some(n) => seq![rt_unit(n@)],
        None => seq![],
    }
}

/// A unary operation's spelling around its operand `a`: `outer(pre inner(a) post)`, each helper
/// optional.
pub open spec fn un_shape_spec(op: UnOp) -> (Option<&'static str>, &'static str, Option<&'static str>, &'static str) {
    match op {
        UnOp::I32Eqz | UnOp::I64Eqz => (None, "((", None, ") == 0 ? 1 : 0)"),
        UnOp::I32Clz => (Some("i32_clz"), "", None, ""),
        UnOp::I32Ctz => (Some("i32_ctz"), "", None, ""),
        UnOp::I64Clz => (Some("i64_clz"), "", None, ""),
        UnOp::I64Ctz => (Some("i64_ctz"), "", None, ""),
        UnOp::I32Popcnt | UnOp::I64Popcnt => (Some("popcnt"), "", None, ""),
        UnOp::F32Abs => (Some("f32_abs"), "", None, ""),
        UnOp::F32Neg => (Some("f32_neg"), "", None, ""),
        UnOp::F64Abs => (Some("f64_abs"), "", None, ""),
        UnOp::F64Neg => (Some("f64_neg"), "", None, ""),
        UnOp::F32Ceil | UnOp::F64Ceil => (Some("fceil"), "", None, ""),
        UnOp::F32Floor | UnOp::F64Floor => (Some("ffloor"), "", None, ""),
        UnOp::F32Trunc | UnOp::F64Trunc => (Some("ftrunc"), "", None, ""),
        UnOp::F32Nearest | UnOp::F64Nearest => (Some("fnearest"), "", None, ""),
        UnOp::F32Sqrt => (Some("f32"), "", Some("fsqrt"), ""),
        UnOp::F64Sqrt => (Some("fsqrt"), "", None, ""),
        UnOp::I32WrapI64 => (None, "((", None, ") & 0xFFFFFFFF)"),
        UnOp::I32TruncF32S | UnOp::I32TruncF64S => (Some("i32_trunc_s"), "", None, ""),
        UnOp::I32TruncF32U | UnOp::I32TruncF64U => (Some("i32_trunc_u"), "", None, ""),
        UnOp::I64TruncF32S | UnOp::I64TruncF64S => (Some("i64_trunc_s"), "", None, ""),
        UnOp::I64TruncF32U | UnOp::I64TruncF64U => (Some("i64_trunc_u"), "", None, ""),
        UnOp::I32TruncSatF32S | UnOp::I32TruncSatF64S => (Some("i32_trunc_sat_s"), "", None, ""),
        UnOp::I32TruncSatF32U | UnOp::I32TruncSatF64U => (Some("i32_trunc_sat_u"), "", None, ""),
        UnOp::I64TruncSatF32S | UnOp::I64TruncSatF64S => (Some("i64_trunc_sat_s"), "", None, ""),
        UnOp::I64TruncSatF32U | UnOp::I64TruncSatF64U => (Some("i64_trunc_sat_u"), "", None, ""),
        UnOp::I64ExtendI32S => (Some("i64_extend_i32_s"), "", None, ""),
        UnOp::I64ExtendI32U => (None, "", None, ""),
        UnOp::F32ConvertI32S => (Some("f32"), "0.0 + ", Some("s32"), ""),
        UnOp::F32ConvertI32U => (Some("f32"), "0.0 + ", None, ""),
        UnOp::F32ConvertI64S => (Some("cvt_f32_i"), "", Some("s64"), ""),
        UnOp::F32ConvertI64U => (Some("cvt_f32_i"), "", None, ""),
        UnOp::F64ConvertI32S => (None, "(0.0 + ", Some("s32"), ")"),
        UnOp::F64ConvertI32U => (None, "(0.0 + ", None, ")"),
        UnOp::F64ConvertI64S => (Some("cvt_f64_i"), "", Some("s64"), ""),
        UnOp::F64ConvertI64U => (Some("cvt_f64_i"), "", None, ""),
        UnOp::F32DemoteF64 => (Some("f32_demote"), "", None, ""),
        UnOp::F64PromoteF32 => (Some("f64_promote"), "", None, ""),
        UnOp::I32ReinterpretF32 => (Some("i32_reinterpret_f32"), "", None, ""),
        UnOp::I64ReinterpretF64 => (Some("i64_reinterpret_f64"), "", None, ""),
        UnOp::F32ReinterpretI32 => (Some("f32_reinterpret_i32"), "", None, ""),
        UnOp::F64ReinterpretI64 => (Some("f64_reinterpret_i64"), "", None, ""),
        UnOp::I32Extend8S => (Some("i32_extend8_s"), "", None, ""),
        UnOp::I32Extend16S => (Some("i32_extend16_s"), "", None, ""),
        UnOp::I64Extend8S => (Some("i64_extend8_s"), "", None, ""),
        UnOp::I64Extend16S => (Some("i64_extend16_s"), "", None, ""),
        UnOp::I64Extend32S => (Some("i64_extend32_s"), "", None, ""),
    }
}

/// A binary operation's spelling around its operands `a`, `b`:
/// `outer(pre pair(each(a) mid each(b)) post)`, each helper optional.
pub open spec fn bin_shape_spec(op: BinOp) -> (
    Option<&'static str>,
    Option<&'static str>,
    Option<&'static str>,
    &'static str,
    &'static str,
    &'static str,
) {
    match op {
        BinOp::I32Add => (None, None, None, "(((", ") + (", ")) & 0xFFFFFFFF)"),
        BinOp::I32Sub => (None, None, None, "(((", ") - (", ")) & 0xFFFFFFFF)"),
        BinOp::I32Mul => (Some("i32_mul"), None, None, "", ", ", ""),
        BinOp::I64Add => (Some("i64_add"), None, None, "", ", ", ""),
        BinOp::I64Sub => (Some("i64_sub"), None, None, "", ", ", ""),
        BinOp::I64Mul => (Some("i64_mul"), None, None, "", ", ", ""),
        BinOp::I32DivS => (Some("i32_div_s"), None, None, "", ", ", ""),
        BinOp::I32DivU => (Some("i32_div_u"), None, None, "", ", ", ""),
        BinOp::I32RemS => (Some("i32_rem_s"), None, None, "", ", ", ""),
        BinOp::I32RemU => (Some("i32_rem_u"), None, None, "", ", ", ""),
        BinOp::I64DivS => (Some("i64_div_s"), None, None, "", ", ", ""),
        BinOp::I64DivU => (Some("i64_div_u"), None, None, "", ", ", ""),
        BinOp::I64RemS => (Some("i64_rem_s"), None, None, "", ", ", ""),
        BinOp::I64RemU => (Some("i64_rem_u"), None, None, "", ", ", ""),
        BinOp::I32And | BinOp::I64And => (None, None, None, "((", ") & (", "))"),
        BinOp::I32Or | BinOp::I64Or => (None, None, None, "((", ") | (", "))"),
        BinOp::I32Xor | BinOp::I64Xor => (None, None, None, "((", ") ^ (", "))"),
        BinOp::I32Shl => (None, None, None, "(((", ") << ((", ") & 31)) & 0xFFFFFFFF)"),
        BinOp::I32ShrU => (None, None, None, "((", ") >> ((", ") & 31))"),
        BinOp::I32ShrS => (Some("i32_shr_s"), None, None, "", ", ", ""),
        BinOp::I64Shl => (None, None, None, "(((", ") << ((", ") & 63)) & 0xFFFFFFFFFFFFFFFF)"),
        BinOp::I64ShrU => (None, None, None, "((", ") >> ((", ") & 63))"),
        BinOp::I64ShrS => (Some("i64_shr_s"), None, None, "", ", ", ""),
        BinOp::I32Rotl => (Some("i32_rotl"), None, None, "", ", ", ""),
        BinOp::I32Rotr => (Some("i32_rotr"), None, None, "", ", ", ""),
        BinOp::I64Rotl => (Some("i64_rotl"), None, None, "", ", ", ""),
        BinOp::I64Rotr => (Some("i64_rotr"), None, None, "", ", ", ""),
        BinOp::I32Eq | BinOp::I64Eq | BinOp::F32Eq | BinOp::F64Eq => (None, None, None, "((", ") == (", ") ? 1 : 0)"),
        BinOp::I32Ne | BinOp::I64Ne | BinOp::F32Ne | BinOp::F64Ne => (None, None, None, "((", ") != (", ") ? 1 : 0)"),
        BinOp::I32LtU | BinOp::I64LtU | BinOp::F32Lt | BinOp::F64Lt => (None, None, None, "((", ") < (", ") ? 1 : 0)"),
        BinOp::I32GtU | BinOp::I64GtU | BinOp::F32Gt | BinOp::F64Gt => (None, None, None, "((", ") > (", ") ? 1 : 0)"),
        BinOp::I32LeU | BinOp::I64LeU | BinOp::F32Le | BinOp::F64Le => (None, None, None, "((", ") <= (", ") ? 1 : 0)"),
        BinOp::I32GeU | BinOp::I64GeU | BinOp::F32Ge | BinOp::F64Ge => (None, None, None, "((", ") >= (", ") ? 1 : 0)"),
        BinOp::I32LtS => (None, None, Some("s32"), "(", " < ", " ? 1 : 0)"),
        BinOp::I32GtS => (None, None, Some("s32"), "(", " > ", " ? 1 : 0)"),
        BinOp::I32LeS => (None, None, Some("s32"), "(", " <= ", " ? 1 : 0)"),
        BinOp::I32GeS => (None, None, Some("s32"), "(", " >= ", " ? 1 : 0)"),
        BinOp::I64LtS => (None, None, Some("s64"), "(", " < ", " ? 1 : 0)"),
        BinOp::I64GtS => (None, None, Some("s64"), "(", " > ", " ? 1 : 0)"),
        BinOp::I64LeS => (None, None, Some("s64"), "(", " <= ", " ? 1 : 0)"),
        BinOp::I64GeS => (None, None, Some("s64"), "(", " >= ", " ? 1 : 0)"),
        BinOp::F32Add => (Some("f32"), Some("fadd"), None, "", ", ", ""),
        BinOp::F32Sub => (Some("f32"), Some("fsub"), None, "", ", ", ""),
        BinOp::F32Mul => (Some("f32"), Some("fmul"), None, "", ", ", ""),
        BinOp::F32Div => (Some("f32"), Some("fdiv"), None, "", ", ", ""),
        BinOp::F64Add => (Some("fadd"), None, None, "", ", ", ""),
        BinOp::F64Sub => (Some("fsub"), None, None, "", ", ", ""),
        BinOp::F64Mul => (Some("fmul"), None, None, "", ", ", ""),
        BinOp::F64Div => (Some("fdiv"), None, None, "", ", ", ""),
        BinOp::F32Min | BinOp::F64Min => (Some("fmin"), None, None, "", ", ", ""),
        BinOp::F32Max | BinOp::F64Max => (Some("fmax"), None, None, "", ", ", ""),
        BinOp::F32Copysign => (Some("f32_copysign"), None, None, "", ", ", ""),
        BinOp::F64Copysign => (Some("f64_copysign"), None, None, "", ", ", ""),
    }
}

/// The spelling of `op` applied to the operand text `a`.
pub open spec fn un_text(rt: Seq<char>, op: UnOp, a: Seq<char>) -> Seq<char> {
    let (o, pre, i, post) = un_shape_spec(op);
    call_wrap(rt, o, pre@ + call_wrap(rt, i, a) + post@)
}

/// The units the spelling of `op` references.
pub open spec fn un_units(op: UnOp) -> Seq<Seq<char>> {
    let (o, pre, i, post) = un_shape_spec(op);
    opt_units(i) + opt_units(o)
}

/// The spelling of `op` applied to the operand texts `a` and `b`.
pub open spec fn bin_text(rt: Seq<char>, op: BinOp, a: Seq<char>, b: Seq<char>) -> Seq<char> {
    let (o, p, e, pre, mid, post) = bin_shape_spec(op);
    call_wrap(rt, o, pre@ + call_wrap(rt, p, call_wrap(rt, e, a) + mid@ + call_wrap(rt, e, b)) + post@)
}

/// The units the spelling of `op` references.
pub open spec fn bin_units(op: BinOp) -> Seq<Seq<char>> {
    let (o, p, e, pre, mid, post) = bin_shape_spec(op);
    opt_units(e) + opt_units(p) + opt_units(o)
}

/// The Perl spelling of `e`.
pub open spec fn expr_text(g: PerlGen, e: Expr) -> Seq<char>
    decreases e, 0nat,
{
    let rt = g.rt_name@;
    match e {
        Expr::I32Const(v) => decimal(v as nat),
        Expr::I64Const(v) => decimal(v as nat),
        Expr::F32Const(bits) => if f32_finite(bits) {
            text_for32(g.floats.f32s@, bits)
        } else {
            rt_text(rt, "f32_from_bits"@) + "(0x"@ + hex_num(bits as nat) + ")"@
        },
        Expr::F64Const(bits) => if f64_finite(bits) {
            text_for64(g.floats.f64s@, bits)
        } else {
            rt_text(rt, "f64_from_bits"@) + "(0x"@ + hex_num(bits as nat) + ")"@
        },
        Expr::Temp(t) => "$s"@ + decimal(t.depth as nat),
        Expr::LocalGet(i) => "$l"@ + decimal(i as nat),
        Expr::GlobalGet(i) => "$self->{g"@ + decimal(i as nat) + "}{value}"@,
        Expr::Un(op, a) => un_text(rt, op, expr_text(g, *a)),
        Expr::Bin(op, a, b) => bin_text(rt, op, expr_text(g, *a), expr_text(g, *b)),
        Expr::Load { op, addr, offset } => "$self->{memory}->"@ + load_method_spec(op) + "("@ + addr_text(g, *addr, offset)
            + ")"@,
        Expr::Select { cond, then, els } => "(("@ + expr_text(g, *cond) + ") != 0 ? "@ + expr_text(g, *then) + " : "@
            + expr_text(g, *els) + ")"@,
        Expr::MemorySize => "$self->{memory}->size()"@,
    }
}

/// The Perl spelling of the address `addr` plus `offset`.
pub open spec fn addr_text(g: PerlGen, addr: Expr, offset: u64) -> Seq<char>
    decreases addr, 1nat,
{
    if offset == 0 {
        expr_text(g, addr)
    } else {
        expr_text(g, addr) + " + "@ + decimal(offset as nat)
    }
}

/// The runtime units the spelling of `e` references, in the order it references them.
pub open spec fn expr_units(e: Expr) -> Seq<Seq<char>>
    decreases e,
{
    match e {
        Expr::F32Const(bits) => if f32_finite(bits) {
            seq![]
        } else {
            seq![rt_unit("f32_from_bits"@)]
        },
        Expr::F64Const(bits) => if f64_finite(bits) {
            seq![]
        } else {
            seq![rt_unit("f64_from_bits"@)]
        },
        Expr::Un(op, a) => expr_units(*a) + un_units(op),
        Expr::Bin(op, a, b) => expr_units(*a) + expr_units(*b) + bin_units(op),
        Expr::Load { op, addr, .. } => seq!["memory/"@ + load_method_spec(op)] + expr_units(*addr),
        Expr::Select { cond, then, els } => expr_units(*cond) + expr_units(*then) + expr_units(*els),
        Expr::MemorySize => seq!["memory/size"@],
        _ => seq![],
    }
}

fn un_shape(op: UnOp) -> (r: (Option<&'static str>, &'static str, Option<&'static str>, &'static str))
    ensures
        r == un_shape_spec(op),
{
    match op {
        UnOp::I32Eqz | UnOp::I64Eqz => (None, "((", None, ") == 0 ? 1 : 0)"),
        UnOp::I32Clz => (Some("i32_clz"), "", None, ""),
        UnOp::I32Ctz => (Some("i32_ctz"), "", None, ""),
        UnOp::I64Clz => (Some("i64_clz"), "", None, ""),
        UnOp::I64Ctz => (Some("i64_ctz"), "", None, ""),
        UnOp::I32Popcnt | UnOp::I64Popcnt => (Some("popcnt"), "", None, ""),
        UnOp::F32Abs => (Some("f32_abs"), "", None, ""),
        UnOp::F32Neg => (Some("f32_neg"), "", None, ""),
        UnOp::F64Abs => (Some("f64_abs"), "", None, ""),
        UnOp::F64Neg => (Some("f64_neg"), "", None, ""),
        UnOp::F32Ceil | UnOp::F64Ceil => (Some("fceil"), "", None, ""),
        UnOp::F32Floor | UnOp::F64Floor => (Some("ffloor"), "", None, ""),
        UnOp::F32Trunc | UnOp::F64Trunc => (Some("ftrunc"), "", None, ""),
        UnOp::F32Nearest | UnOp::F64Nearest => (Some("fnearest"), "", None, ""),
        UnOp::F32Sqrt => (Some("f32"), "", Some("fsqrt"), ""),
        UnOp::F64Sqrt => (Some("fsqrt"), "", None, ""),
        UnOp::I32WrapI64 => (None, "((", None, ") & 0xFFFFFFFF)"),
        UnOp::I32TruncF32S | UnOp::I32TruncF64S => (Some("i32_trunc_s"), "", None, ""),
        UnOp::I32TruncF32U | UnOp::I32TruncF64U => (Some("i32_trunc_u"), "", None, ""),
        UnOp::I64TruncF32S | UnOp::I64TruncF64S => (Some("i64_trunc_s"), "", None, ""),
        UnOp::I64TruncF32U | UnOp::I64TruncF64U => (Some("i64_trunc_u"), "", None, ""),
        UnOp::I32TruncSatF32S | UnOp::I32TruncSatF64S => (Some("i32_trunc_sat_s"), "", None, ""),
        UnOp::I32TruncSatF32U | UnOp::I32TruncSatF64U => (Some("i32_trunc_sat_u"), "", None, ""),
        UnOp::I64TruncSatF32S | UnOp::I64TruncSatF64S => (Some("i64_trunc_sat_s"), "", None, ""),
        UnOp::I64TruncSatF32U | UnOp::I64TruncSatF64U => (Some("i64_trunc_sat_u"), "", None, ""),
        UnOp::I64ExtendI32S => (Some("i64_extend_i32_s"), "", None, ""),
        UnOp::I64ExtendI32U => (None, "", None, ""),
        UnOp::F32ConvertI32S => (Some("f32"), "0.0 + ", Some("s32"), ""),
        UnOp::F32ConvertI32U => (Some("f32"), "0.0 + ", None, ""),
        UnOp::F32ConvertI64S => (Some("cvt_f32_i"), "", Some("s64"), ""),
        UnOp::F32ConvertI64U => (Some("cvt_f32_i"), "", None, ""),
        UnOp::F64ConvertI32S => (None, "(0.0 + ", Some("s32"), ")"),
        UnOp::F64ConvertI32U => (None, "(0.0 + ", None, ")"),
        UnOp::F64ConvertI64S => (Some("cvt_f64_i"), "", Some("s64"), ""),
        UnOp::F64ConvertI64U => (Some("cvt_f64_i"), "", None, ""),
        UnOp::F32DemoteF64 => (Some("f32_demote"), "", None, ""),
        UnOp::F64PromoteF32 => (Some("f64_promote"), "", None, ""),
        UnOp::I32ReinterpretF32 => (Some("i32_reinterpret_f32"), "", None, ""),
        UnOp::I64ReinterpretF64 => (Some("i64_reinterpret_f64"), "", None, ""),
        UnOp::F32ReinterpretI32 => (Some("f32_reinterpret_i32"), "", None, ""),
        UnOp::F64ReinterpretI64 => (Some("f64_reinterpret_i64"), "", None, ""),
        UnOp::I32Extend8S => (Some("i32_extend8_s"), "", None, ""),
        UnOp::I32Extend16S => (Some("i32_extend16_s"), "", None, ""),
        UnOp::I64Extend8S => (Some("i64_extend8_s"), "", None, ""),
        UnOp::I64Extend16S => (Some("i64_extend16_s"), "", None, ""),
        UnOp::I64Extend32S => (Some("i64_extend32_s"), "", None, ""),
    }
}

fn bin_shape(op: BinOp) -> (r: (
    Option<&'static str>,
    Option<&'static str>,
    Option<&'static str>,
    &'static str,
    &'static str,
    &'static str,
))
    ensures
        r == bin_shape_spec(op),
{
    match op {
        BinOp::I32Add => (None, None, None, "(((", ") + (", ")) & 0xFFFFFFFF)"),
        BinOp::I32Sub => (None, None, None, "(((", ") - (", ")) & 0xFFFFFFFF)"),
        BinOp::I32Mul => (Some("i32_mul"), None, None, "", ", ", ""),
        BinOp::I64Add => (Some("i64_add"), None, None, "", ", ", ""),
        BinOp::I64Sub => (Some("i64_sub"), None, None, "", ", ", ""),
        BinOp::I64Mul => (Some("i64_mul"), None, None, "", ", ", ""),
        BinOp::I32DivS => (Some("i32_div_s"), None, None, "", ", ", ""),
        BinOp::I32DivU => (Some("i32_div_u"), None, None, "", ", ", ""),
        BinOp::I32RemS => (Some("i32_rem_s"), None, None, "", ", ", ""),
        BinOp::I32RemU => (Some("i32_rem_u"), None, None, "", ", ", ""),
        BinOp::I64DivS => (Some("i64_div_s"), None, None, "", ", ", ""),
        BinOp::I64DivU => (Some("i64_div_u"), None, None, "", ", ", ""),
        BinOp::I64RemS => (Some("i64_rem_s"), None, None, "", ", ", ""),
        BinOp::I64RemU => (Some("i64_rem_u"), None, None, "", ", ", ""),
        BinOp::I32And | BinOp::I64And => (None, None, None, "((", ") & (", "))"),
        BinOp::I32Or | BinOp::I64Or => (None, None, None, "((", ") | (", "))"),
        BinOp::I32Xor | BinOp::I64Xor => (None, None, None, "((", ") ^ (", "))"),
        BinOp::I32Shl => (None, None, None, "(((", ") << ((", ") & 31)) & 0xFFFFFFFF)"),
        BinOp::I32ShrU => (None, None, None, "((", ") >> ((", ") & 31))"),
        BinOp::I32ShrS => (Some("i32_shr_s"), None, None, "", ", ", ""),
        BinOp::I64Shl => (None, None, None, "(((", ") << ((", ") & 63)) & 0xFFFFFFFFFFFFFFFF)"),
        BinOp::I64ShrU => (None, None, None, "((", ") >> ((", ") & 63))"),
        BinOp::I64ShrS => (Some("i64_shr_s"), None, None, "", ", ", ""),
        BinOp::I32Rotl => (Some("i32_rotl"), None, None, "", ", ", ""),
        BinOp::I32Rotr => (Some("i32_rotr"), None, None, "", ", ", ""),
        BinOp::I64Rotl => (Some("i64_rotl"), None, None, "", ", ", ""),
        BinOp::I64Rotr => (Some("i64_rotr"), None, None, "", ", ", ""),
        BinOp::I32Eq | BinOp::I64Eq | BinOp::F32Eq | BinOp::F64Eq => (None, None, None, "((", ") == (", ") ? 1 : 0)"),
        BinOp::I32Ne | BinOp::I64Ne | BinOp::F32Ne | BinOp::F64Ne => (None, None, None, "((", ") != (", ") ? 1 : 0)"),
        BinOp::I32LtU | BinOp::I64LtU | BinOp::F32Lt | BinOp::F64Lt => (None, None, None, "((", ") < (", ") ? 1 : 0)"),
        BinOp::I32GtU | BinOp::I64GtU | BinOp::F32Gt | BinOp::F64Gt => (None, None, None, "((", ") > (", ") ? 1 : 0)"),
        BinOp::I32LeU | BinOp::I64LeU | BinOp::F32Le | BinOp::F64Le => (None, None, None, "((", ") <= (", ") ? 1 : 0)"),
        BinOp::I32GeU | BinOp::I64GeU | BinOp::F32Ge | BinOp::F64Ge => (None, None, None, "((", ") >= (", ") ? 1 : 0)"),
        BinOp::I32LtS => (None, None, Some("s32"), "(", " < ", " ? 1 : 0)"),
        BinOp::I32GtS => (None, None, Some("s32"), "(", " > ", " ? 1 : 0)"),
        BinOp::I32LeS => (None, None, Some("s32"), "(", " <= ", " ? 1 : 0)"),
        BinOp::I32GeS => (None, None, Some("s32"), "(", " >= ", " ? 1 : 0)"),
        BinOp::I64LtS => (None, None, Some("s64"), "(", " < ", " ? 1 : 0)"),
        BinOp::I64GtS => (None, None, Some("s64"), "(", " > ", " ? 1 : 0)"),
        BinOp::I64LeS => (None, None, Some("s64"), "(", " <= ", " ? 1 : 0)"),
        BinOp::I64GeS => (None, None, Some("s64"), "(", " >= ", " ? 1 : 0)"),
        BinOp::F32Add => (Some("f32"), Some("fadd"), None, "", ", ", ""),
        BinOp::F32Sub => (Some("f32"), Some("fsub"), None, "", ", ", ""),
        BinOp::F32Mul => (Some("f32"), Some("fmul"), None, "", ", ", ""),
        BinOp::F32Div => (Some("f32"), Some("fdiv"), None, "", ", ", ""),
        BinOp::F64Add => (Some("fadd"), None, None, "", ", ", ""),
        BinOp::F64Sub => (Some("fsub"), None, None, "", ", ", ""),
        BinOp::F64Mul => (Some("fmul"), None, None, "", ", ", ""),
        BinOp::F64Div => (Some("fdiv"), None, None, "", ", ", ""),
        BinOp::F32Min | BinOp::F64Min => (Some("fmin"), None, None, "", ", ", ""),
        BinOp::F32Max | BinOp::F64Max => (Some("fmax"), None, None, "", ", ", ""),
        BinOp::F32Copysign => (Some("f32_copysign"), None, None, "", ", ", ""),
        BinOp::F64Copysign => (Some("f64_copysign"), None, None, "", ", ", ""),
    }
}

fn lookup32(fs: &Vec<(u32, String)>, bits: u32) -> (r: String)
    ensures
        r@ == text_for32(fs@, bits),
{
    let mut i: usize = 0;
    assert(fs@.subrange(0, fs@.len() as int) =~= fs@);
    while i < fs.len()
        invariant
            i <= fs@.len(),
            text_for32(fs@, bits) == text_for32(fs@.subrange(i as int, fs@.len() as int), bits),
        decreases fs@.len() - i,
    {
        let ghost rest = fs@.subrange(i as int, fs@.len() as int);
        assert(rest.drop_first() =~= fs@.subrange(i + 1, fs@.len() as int));
        if fs[i].0 == bits {
            return to_owned(fs[i].1.as_str());
        }
        i = i + 1;
    }
    String::new()
}

fn lookup64(fs: &Vec<(u64, String)>, bits: u64) -> (r: String)
    ensures
        r@ == text_for64(fs@, bits),
{
    let mut i: usize = 0;
    assert(fs@.subrange(0, fs@.len() as int) =~= fs@);
    while i < fs.len()
        invariant
            i <= fs@.len(),
            text_for64(fs@, bits) == text_for64(fs@.subrange(i as int, fs@.len() as int), bits),
        decreases fs@.len() - i,
    {
        let ghost rest = fs@.subrange(i as int, fs@.len() as int);
        assert(rest.drop_first() =~= fs@.subrange(i + 1, fs@.len() as int));
        if fs[i].0 == bits {
            return to_owned(fs[i].1.as_str());
        }
        i = i + 1;
    }
    String::new()
}

/// Records the unit `unit` as referenced.
fn note(uses: &mut Vec<String>, unit: String)
    ensures
        views(final(uses)@) == views(old(uses)@).push(unit@),
{
    uses.push(unit);
    assert(views(uses@) =~= views(old(uses)@).push(unit@));
}

/// `a` followed by `b`.
fn cat(a: String, b: &str) -> (r: String)
    ensures
        r@ == a@ + b@,
{
    let mut a = a;
    push_str(&mut a, b);
    a
}

/// `a` followed by the decimal spelling of `v`.
fn cat_dec(a: String, v: u64) -> (r: String)
    ensures
        r@ == a@ + decimal(v as nat),
{
    let mut a = a;
    push_decimal(&mut a, v as u128);
    a
}

impl<'a> PerlGen<'a> {
    /// A runtime helper as generated code names it, recording its unit.
    fn rt(&self, name: &'static str, uses: &mut Vec<String>) -> (r: String)
        ensures
            r@ == rt_text(self.rt_name@, name@),
            views(final(uses)@) == views(old(uses)@).push(rt_unit(name@)),
    {
        note(uses, cat(to_owned("rt/"), name));
        cat(cat(to_owned(self.rt_name.as_str()), "::"), name)
    }

    /// `inner` passed to the helper `o`, if any, recording its unit.
    fn wrap(&self, o: Option<&'static str>, inner: String, uses: &mut Vec<String>) -> (r: String)
        ensures
            r@ == call_wrap(self.rt_name@, o, inner@),
            views(final(uses)@) == views(old(uses)@) + opt_units(o),
    {
        match o {
            Some(n) => {
                let f = self.rt(n, uses);
                cat(cat(cat(f, "("), inner.as_str()), ")")
            },
            None => {
                assert(views(uses@) + opt_units(o) =~= views(uses@));
                inner
            },
        }
    }

    fn un(&self, op: UnOp, a: String, uses: &mut Vec<String>) -> (r: String)
        ensures
            r@ == un_text(self.rt_name@, op, a@),
            views(final(uses)@) == views(old(uses)@) + un_units(op),
    {
        let (o, pre, i, post) = un_shape(op);
        let inner = self.wrap(i, a, uses);
        let mid = cat(cat(to_owned(pre), inner.as_str()), post);
        self.wrap(o, mid, uses)
    }

    fn bin(&self, op: BinOp, a: String, b: String, uses: &mut Vec<String>) -> (r: String)
        ensures
            r@ == bin_text(self.rt_name@, op, a@, b@),
            views(final(uses)@) == views(old(uses)@) + bin_units(op),
    {
        let (o, p, e, pre, mid, post) = bin_shape(op);
        let ghost u0 = views(uses@);
        let ea = self.wrap(e, a, uses);
        let eb = self.rt_name_free_wrap(e, b);
        let pair = self.wrap(p, cat(cat(ea, mid), eb.as_str()), uses);
        self.wrap(o, cat(cat(to_owned(pre), pair.as_str()), post), uses)
    }

    /// `inner` passed to the helper `o`, if any, recording nothing (its unit is already
    /// recorded).
    fn rt_name_free_wrap(&self, o: Option<&'static str>, inner: String) -> (r: String)
        ensures
            r@ == call_wrap(self.rt_name@, o, inner@),
    {
        match o {
            Some(n) => {
                let f = cat(cat(to_owned(self.rt_name.as_str()), "::"), n);
                cat(cat(cat(f, "("), inner.as_str()), ")")
            },
            None => inner,
        }
    }

    /// The Perl spelling of `e`, recording the units it references.
    pub fn expr(&self, e: &Expr, uses: &mut Vec<String>) -> (r: String)
        ensures
            r@ == expr_text(*self, *e),
            views(final(uses)@) == views(old(uses)@) + expr_units(*e),
        decreases e, 0nat,
    {
        let ghost u0 = views(uses@);
        match e {
            Expr::I32Const(v) => {
                assert(u0 + expr_units(*e) =~= u0);
                cat_dec(String::new(), *v as u64)
            },
            Expr::I64Const(v) => {
                assert(u0 + expr_units(*e) =~= u0);
                cat_dec(String::new(), *v)
            },
            Expr::F32Const(bits) => {
                if (*bits >> 23u32) & 0xffu32 != 0xffu32 {
                    assert(u0 + expr_units(*e) =~= u0);
                    lookup32(&self.floats.f32s, *bits)
                } else {
                    let f = self.rt("f32_from_bits", uses);
                    let mut s = cat(f, "(0x");
                    push_hex_num(&mut s, *bits as u64);
                    cat(s, ")")
                }
            },
            Expr::F64Const(bits) => {
                if (*bits >> 52u64) & 0x7ffu64 != 0x7ffu64 {
                    assert(u0 + expr_units(*e) =~= u0);
                    lookup64(&self.floats.f64s, *bits)
                } else {
                    let f = self.rt("f64_from_bits", uses);
                    let mut s = cat(f, "(0x");
                    push_hex_num(&mut s, *bits);
                    cat(s, ")")
                }
            },
            Expr::Temp(t) => {
                assert(u0 + expr_units(*e) =~= u0);
                cat_dec(to_owned("$s"), t.depth as u64)
            },
            Expr::LocalGet(i) => {
                assert(u0 + expr_units(*e) =~= u0);
                cat_dec(to_owned("$l"), *i as u64)
            },
            Expr::GlobalGet(i) => {
                assert(u0 + expr_units(*e) =~= u0);
                cat(cat_dec(to_owned("$self->{g"), *i as u64), "}{value}")
            },
            Expr::Un(op, a) => {
                let at = self.expr(a, uses);
                self.un(*op, at, uses)
            },
            Expr::Bin(op, a, b) => {
                let at = self.expr(a, uses);
                let bt = self.expr(b, uses);
                self.bin(*op, at, bt, uses)
            },
            Expr::Load { op, addr, offset } => {
                let m = load_method(*op);
                note(uses, cat(to_owned("memory/"), m));
                let at = self.addr(addr, *offset, uses);
                cat(cat(cat(cat(to_owned("$self->{memory}->"), m), "("), at.as_str()), ")")
            },
            Expr::Select { cond, then, els } => {
                let c = self.expr(cond, uses);
                let t = self.expr(then, uses);
                let f = self.expr(els, uses);
                cat(cat(cat(cat(cat(cat(to_owned("(("), c.as_str()), ") != 0 ? "), t.as_str()), " : "), f.as_str()), ")")
            },
            Expr::MemorySize => {
                note(uses, to_owned("memory/size"));
                to_owned("$self->{memory}->size()")
            },
        }
    }

    /// The Perl spelling of the address `addr` plus `offset`.
    fn addr(&self, addr: &Expr, offset: u64, uses: &mut Vec<String>) -> (r: String)
        ensures
            r@ == addr_text(*self, *addr, offset),
            views(final(uses)@) == views(old(uses)@) + expr_units(*addr),
        decreases addr, 1nat,
    {
        let a = self.expr(addr, uses);
        if offset == 0 {
            a
        } else {
            cat_dec(cat(a, " + "), offset)
        }
    }
}


// ---------------------------------------------------------------------------------------------
// Statements.

/// One line of generated code at depth `d`, as the writer lays it out.
pub open spec fn lt(u: Seq<char>, d: nat, s: Seq<char>) -> Seq<char> {
    CodeWriter::line_text(u, d, s)
}

/// A temporary's variable.
pub open spec fn temp_text(t: Temp) -> Seq<char> {
    "$s"@ + decimal(t.depth as nat)
}

/// `xs` joined by `, `.
pub open spec fn joined(xs: Seq<Seq<char>>) -> Seq<char>
    decreases xs.len(),
{
    if xs.len() == 0 {
        seq![]
    } else if xs.len() == 1 {
        xs[0]
    } else {
        joined(xs.drop_last()) + ", "@ + xs.last()
    }
}

/// The spellings of the expressions `es`.
pub open spec fn exprs_texts(g: PerlGen, es: Seq<Expr>) -> Seq<Seq<char>> {
    es.map_values(|e: Expr| expr_text(g, e))
}

/// The units the spellings of `es` reference, in order.
pub open spec fn exprs_units(es: Seq<Expr>) -> Seq<Seq<char>>
    decreases es.len(),
{
    if es.len() == 0 {
        seq![]
    } else {
        exprs_units(es.drop_last()) + expr_units(es.last())
    }
}

/// Whether the Perl lowering covers every statement of `s` in the module `m`: no
/// exception-handling statement, every source position naming one of the module's files, and
/// every indirect call naming one of its types.
pub open spec fn emittable(m: Module, s: Stmt) -> bool
    decreases s,
{
    match s {
        Stmt::SourceLine(pos) => (pos.file as int) < m.debug_files@.len(),
        Stmt::CallIndirect { type_idx, .. } => (type_idx as int) < m.types@.len(),
        Stmt::Throw { .. } | Stmt::ThrowRef { .. } | Stmt::TryTable { .. } => false,
        Stmt::Block { body, .. } | Stmt::Loop { body, .. } => seq_emittable(m, body@),
        Stmt::If { then, els, .. } => seq_emittable(m, then@) && seq_emittable(m, els@),
        _ => true,
    }
}

/// [`emittable`] of every statement of `stmts`.
pub open spec fn seq_emittable(m: Module, stmts: Seq<Stmt>) -> bool
    decreases stmts,
{
    if stmts.len() == 0 {
        true
    } else {
        seq_emittable(m, stmts.drop_last()) && emittable(m, stmts.last())
    }
}

/// The `assigns` of a branch: each destination temporary set from its source.
pub open spec fn assigns_text(u: Seq<char>, d: nat, a: Seq<(Temp, Temp)>) -> Seq<char>
    decreases a.len(),
{
    if a.len() == 0 {
        seq![]
    } else {
        assigns_text(u, d, a.drop_last()) + lt(u, d, temp_text(a.last().0) + " = "@ + temp_text(a.last().1) + ";"@)
    }
}

/// A `return` of the values `vs`.
pub open spec fn return_text(g: PerlGen, u: Seq<char>, d: nat, vs: Seq<Expr>) -> Seq<char> {
    if vs.len() == 0 {
        lt(u, d, "return;"@)
    } else if vs.len() == 1 {
        lt(u, d, "return "@ + expr_text(g, vs[0]) + ";"@)
    } else {
        lt(u, d, "return ("@ + joined(exprs_texts(g, vs)) + ");"@)
    }
}

/// A branch to `t`: the frame's result temporaries set, then `last` out of a block or `next`
/// into a loop head; or a return.
pub open spec fn branch_text(g: PerlGen, u: Seq<char>, d: nat, t: BrTarget) -> Seq<char> {
    match t {
        BrTarget::Return { values } => return_text(g, u, d, values@),
        BrTarget::Label { label, is_loop, assigns } => assigns_text(u, d, assigns@) + lt(
            u,
            d,
            (if is_loop {
                "next"@
            } else {
                "last"@
            }) + " L"@ + decimal(label as nat) + ";"@,
        ),
    }
}

/// The units a branch to `t` references.
pub open spec fn branch_units(t: BrTarget) -> Seq<Seq<char>> {
    match t {
        BrTarget::Return { values } => exprs_units(values@),
        _ => seq![],
    }
}

/// The `if`/`elsif` arms of a `br_table` over the targets `ts`.
pub open spec fn table_arms_text(g: PerlGen, u: Seq<char>, d: nat, ts: Seq<BrTarget>) -> Seq<char>
    decreases ts.len(),
{
    if ts.len() == 0 {
        seq![]
    } else {
        let k = (ts.len() - 1) as nat;
        table_arms_text(g, u, d, ts.drop_last()) + lt(
            u,
            d,
            (if k == 0 {
                "if"@
            } else {
                "} elsif"@
            }) + " ($_bt == "@ + decimal(k) + ") {"@,
        ) + branch_text(g, u, d + 1, ts.last())
    }
}

/// The units the branches to `ts` reference, in order.
pub open spec fn targets_units(ts: Seq<BrTarget>) -> Seq<Seq<char>>
    decreases ts.len(),
{
    if ts.len() == 0 {
        seq![]
    } else {
        targets_units(ts.drop_last()) + branch_units(ts.last())
    }
}

/// A direct call of function `func` with the argument texts `args`: an imported function through
/// its coderef, a defined one as a method.
pub open spec fn call_text(m: Module, func: u32, args: Seq<Seq<char>>) -> Seq<char> {
    if (func as int) < m.imported_funcs@.len() {
        "$self->{if"@ + decimal(func as nat) + "}->("@ + joined(args) + ")"@
    } else {
        "$self->_f"@ + decimal(func as nat) + "("@ + joined(args) + ")"@
    }
}

/// A function type as the tables key it: its structural spelling, quoted.
pub open spec fn type_symbol_text(m: Module, type_idx: u32) -> Seq<char> {
    let ty = m.types@[type_idx as int];
    seq!['\''] + perl_escapes(names_joined(ty.params@) + "->"@ + names_joined(ty.results@)) + seq!['\'']
}

/// A memory method called with the argument texts `a`, `b`, `c`, as a statement.
pub open spec fn mem3(method: Seq<char>, a: Seq<char>, b: Seq<char>, c: Seq<char>) -> Seq<char> {
    "$self->{memory}->"@ + method + "("@ + a + ", "@ + b + ", "@ + c + ");"@
}

/// The Perl lines of the statement `s`, which holds no body, at depth `d`.
pub open spec fn simple_text(g: PerlGen, u: Seq<char>, d: nat, s: Stmt) -> Seq<char> {
    let rt = g.rt_name@;
    match s {
        Stmt::Assign { dst, expr } => lt(u, d, temp_text(dst) + " = "@ + expr_text(g, expr) + ";"@),
        Stmt::LocalSet { idx, expr } => lt(u, d, "$l"@ + decimal(idx as nat) + " = "@ + expr_text(g, expr) + ";"@),
        Stmt::GlobalSet { idx, expr } => lt(
            u,
            d,
            "$self->{g"@ + decimal(idx as nat) + "}{value} = "@ + expr_text(g, expr) + ";"@,
        ),
        Stmt::Store { op, addr, value, offset } => lt(
            u,
            d,
            "$self->{memory}->"@ + store_method_spec(op) + "("@ + addr_text(g, addr, offset) + ", "@ + expr_text(g, value)
                + ");"@,
        ),
        Stmt::Br(t) => branch_text(g, u, d, t),
        Stmt::BrIf { cond, target } => lt(u, d, "if (("@ + expr_text(g, cond) + ") != 0) {"@) + branch_text(
            g,
            u,
            d + 1,
            target,
        ) + lt(u, d, "}"@),
        Stmt::BrTable { index, targets, default } => if targets@.len() == 0 {
            branch_text(g, u, d, default)
        } else {
            lt(u, d, "$_bt = "@ + expr_text(g, index) + ";"@) + table_arms_text(g, u, d, targets@) + lt(u, d, "} else {"@)
                + branch_text(g, u, d + 1, default) + lt(u, d, "}"@)
        },
        Stmt::Return { values } => return_text(g, u, d, values@),
        Stmt::Call { func, args, results } => lt(
            u,
            d,
            assign_results_spec(results@, call_text(*g.module, func, exprs_texts(g, args@))),
        ),
        Stmt::CallIndirect { type_idx, table_index, index, args, results } => lt(
            u,
            d,
            assign_results_spec(
                results@,
                "$self->{t"@ + decimal(table_index as nat) + "}->call("@ + joined(
                    seq![expr_text(g, index), type_symbol_text(*g.module, type_idx)] + exprs_texts(g, args@),
                ) + ")"@,
            ),
        ),
        Stmt::MemoryGrow { dst, delta } => lt(
            u,
            d,
            temp_text(dst) + " = $self->{memory}->grow("@ + expr_text(g, delta) + ");"@,
        ),
        Stmt::MemoryCopy { dst, src, len } => lt(
            u,
            d,
            mem3("copy"@, expr_text(g, dst), expr_text(g, src), expr_text(g, len)),
        ),
        Stmt::MemoryFill { dst, val, len } => lt(
            u,
            d,
            mem3("fill"@, expr_text(g, dst), expr_text(g, val), expr_text(g, len)),
        ),
        Stmt::MemoryInit { seg, dst, src, len } => lt(
            u,
            d,
            mem3(
                "init"@,
                expr_text(g, dst) + ", $self->{data"@ + decimal(seg as nat) + "}"@,
                expr_text(g, src),
                expr_text(g, len),
            ),
        ),
        Stmt::DataDrop { seg } => lt(u, d, "$self->{data"@ + decimal(seg as nat) + "} = '';"@),
        Stmt::Unreachable => lt(u, d, rt_text(rt, "trap"@) + "('unreachable');"@),
        Stmt::SourceLine(pos) => lt(
            u,
            d,
            "# "@ + g.module.debug_files@[pos.file as int]@ + ":"@ + decimal(pos.line as nat),
        ),
        Stmt::TableInit { seg, table_index, dst, src, len } => lt(
            u,
            d,
            "$self->{t"@ + decimal(table_index as nat) + "}->init("@ + expr_text(g, dst) + ", $self->{elem"@ + decimal(
                seg as nat,
            ) + "}, "@ + expr_text(g, src) + ", "@ + expr_text(g, len) + ");"@,
        ),
        Stmt::TableCopy { dst_table, src_table, dst, src, len } => lt(
            u,
            d,
            "$self->{t"@ + decimal(dst_table as nat) + "}->copy("@ + expr_text(g, dst) + ", $self->{t"@ + decimal(
                src_table as nat,
            ) + "}, "@ + expr_text(g, src) + ", "@ + expr_text(g, len) + ");"@,
        ),
        Stmt::ElemDrop { seg } => lt(u, d, "$self->{elem"@ + decimal(seg as nat) + "} = [];"@),
        _ => seq![],
    }
}

/// The units the lines of the statement `s`, which holds no body, reference, in order.
pub open spec fn simple_units(s: Stmt) -> Seq<Seq<char>> {
    match s {
        Stmt::Assign { expr, .. } | Stmt::LocalSet { expr, .. } | Stmt::GlobalSet { expr, .. } => expr_units(expr),
        Stmt::Store { op, addr, value, .. } => seq!["memory/"@ + store_method_spec(op)] + expr_units(addr) + expr_units(
            value,
        ),
        Stmt::Br(t) => branch_units(t),
        Stmt::BrIf { cond, target } => expr_units(cond) + branch_units(target),
        Stmt::BrTable { index, targets, default } => if targets@.len() == 0 {
            branch_units(default)
        } else {
            expr_units(index) + targets_units(targets@) + branch_units(default)
        },
        Stmt::Return { values } => exprs_units(values@),
        Stmt::Call { args, .. } => exprs_units(args@),
        Stmt::CallIndirect { index, args, .. } => seq!["table/call"@] + expr_units(index) + exprs_units(args@),
        Stmt::MemoryGrow { delta, .. } => seq!["memory/grow"@] + expr_units(delta),
        Stmt::MemoryCopy { dst, src, len } => seq!["memory/copy"@] + expr_units(dst) + expr_units(src) + expr_units(len),
        Stmt::MemoryFill { dst, val, len } => seq!["memory/fill"@] + expr_units(dst) + expr_units(val) + expr_units(len),
        Stmt::MemoryInit { dst, src, len, .. } => seq!["memory/init"@] + expr_units(dst) + expr_units(src) + expr_units(
            len,
        ),
        Stmt::Unreachable => seq![rt_unit("trap"@)],
        Stmt::TableInit { dst, src, len, .. } => seq!["table/init"@] + expr_units(dst) + expr_units(src) + expr_units(len),
        Stmt::TableCopy { dst, src, len, .. } => seq!["table/copy"@] + expr_units(dst) + expr_units(src) + expr_units(len),
        _ => seq![],
    }
}

/// The Perl lines of `s` at depth `d`: a referenced block is a labelled bare block, a referenced
/// loop a labelled `while (1)` that leaves at the end of its body, a referenced `if` is wrapped in
/// a labelled block, and an unreferenced frame is no frame at all.
pub open spec fn stmt_text(g: PerlGen, u: Seq<char>, d: nat, s: Stmt) -> Seq<char>
    decreases s, 1nat,
{
    match s {
        Stmt::Block { label, body } => if label.referenced {
            lt(u, d, "L"@ + decimal(label.id as nat) + ": {"@) + seq_text(g, u, d + 1, body@) + lt(u, d, "}"@)
        } else {
            seq_text(g, u, d, body@)
        },
        Stmt::Loop { label, body } => if label.referenced {
            lt(u, d, "L"@ + decimal(label.id as nat) + ": while (1) {"@) + seq_text(g, u, d + 1, body@) + lt(
                u,
                d + 1,
                "last L"@ + decimal(label.id as nat) + ";"@,
            ) + lt(u, d, "}"@)
        } else {
            seq_text(g, u, d, body@)
        },
        Stmt::If { label, .. } => if label.referenced {
            lt(u, d, "L"@ + decimal(label.id as nat) + ": {"@) + if_inner_text(g, u, d + 1, s) + lt(u, d, "}"@)
        } else {
            if_inner_text(g, u, d, s)
        },
        _ => simple_text(g, u, d, s),
    }
}

/// The lines of the `if` statement `s` at depth `d`, without the labelled block a referenced one
/// sits in: the test, the then-arm, and the else-arm where there is one.
pub open spec fn if_inner_text(g: PerlGen, u: Seq<char>, d: nat, s: Stmt) -> Seq<char>
    decreases s, 0nat,
{
    match s {
        Stmt::If { cond, then, els, .. } => lt(u, d, "if (("@ + expr_text(g, cond) + ") != 0) {"@) + seq_text(
            g,
            u,
            d + 1,
            then@,
        ) + if els@.len() == 0 {
            lt(u, d, "}"@)
        } else {
            lt(u, d, "} else {"@) + seq_text(g, u, d + 1, els@) + lt(u, d, "}"@)
        },
        _ => seq![],
    }
}

/// The Perl lines of the statements `stmts` at depth `d`, in order.
pub open spec fn seq_text(g: PerlGen, u: Seq<char>, d: nat, stmts: Seq<Stmt>) -> Seq<char>
    decreases stmts, 2nat,
{
    if stmts.len() == 0 {
        seq![]
    } else {
        seq_text(g, u, d, stmts.drop_last()) + stmt_text(g, u, d, stmts.last())
    }
}

/// The units the lines of `s` reference, in order.
pub open spec fn stmt_units(s: Stmt) -> Seq<Seq<char>>
    decreases s,
{
    match s {
        Stmt::Block { body, .. } | Stmt::Loop { body, .. } => seq_units(body@),
        Stmt::If { cond, then, els, .. } => expr_units(cond) + seq_units(then@) + seq_units(els@),
        _ => simple_units(s),
    }
}

/// The units the lines of `stmts` reference, in order.
pub open spec fn seq_units(stmts: Seq<Stmt>) -> Seq<Seq<char>>
    decreases stmts,
{
    if stmts.len() == 0 {
        seq![]
    } else {
        seq_units(stmts.drop_last()) + stmt_units(stmts.last())
    }
}

proof fn lemma_seq_emittable_elem(m: Module, ss: Seq<Stmt>, i: int)
    requires
        seq_emittable(m, ss),
        0 <= i < ss.len(),
    ensures
        emittable(m, ss[i]),
    decreases ss.len(),
{
    if i < ss.len() - 1 {
        lemma_seq_emittable_elem(m, ss.drop_last(), i);
        assert(ss.drop_last()[i] == ss[i]);
    }
}

/// `parts` joined by `, `.
fn join(parts: &Vec<String>) -> (r: String)
    ensures
        r@ == joined(views(parts@)),
{
    let mut out = String::new();
    let mut i: usize = 0;
    assert(views(parts@.subrange(0, 0)) =~= Seq::<Seq<char>>::empty());
    while i < parts.len()
        invariant
            i <= parts@.len(),
            out@ == joined(views(parts@.subrange(0, i as int))),
        decreases parts@.len() - i,
    {
        proof {
            let t = views(parts@.subrange(0, i + 1));
            assert(t.drop_last() =~= views(parts@.subrange(0, i as int)));
            assert(t.last() == parts@[i as int]@);
            assert(t.len() == i + 1);
            if i == 0 {
                assert(t[0] == parts@[0]@);
            }
        }
        if i > 0 {
            push_str(&mut out, ", ");
        }
        push_str(&mut out, parts[i].as_str());
        i = i + 1;
    }
    assert(parts@.subrange(0, parts@.len() as int) =~= parts@);
    out
}

impl<'a> PerlGen<'a> {
    /// The spellings of `es`, recording the units they reference.
    fn exprs(&self, es: &Vec<Expr>, uses: &mut Vec<String>) -> (r: Vec<String>)
        ensures
            views(r@) == exprs_texts(*self, es@),
            views(final(uses)@) == views(old(uses)@) + exprs_units(es@),
    {
        let ghost u0 = views(uses@);
        let mut r: Vec<String> = Vec::new();
        let mut i: usize = 0;
        assert(es@.subrange(0, 0) =~= Seq::<Expr>::empty());
        assert(u0 + exprs_units(Seq::<Expr>::empty()) =~= u0);
        assert(views(r@) =~= exprs_texts(*self, es@.subrange(0, 0)));
        while i < es.len()
            invariant
                i <= es@.len(),
                views(r@) == exprs_texts(*self, es@.subrange(0, i as int)),
                views(uses@) == u0 + exprs_units(es@.subrange(0, i as int)),
            decreases es@.len() - i,
        {
            let ghost t = es@.subrange(0, i + 1);
            let ghost r0 = r@;
            let x = self.expr(&es[i], uses);
            r.push(x);
            proof {
                assert(t.drop_last() =~= es@.subrange(0, i as int));
                assert(t.last() == es@[i as int]);
                assert(views(r@) =~= views(r0).push(x@));
                assert(views(r@) =~= exprs_texts(*self, t));
            }
            i = i + 1;
        }
        assert(es@.subrange(0, es@.len() as int) =~= es@);
        r
    }

    /// Writes the `assigns` of a branch.
    fn assigns(&self, w: &mut CodeWriter, a: &Vec<(Temp, Temp)>)
        ensures
            final(w).text() == old(w).text() + assigns_text(old(w).unit(), old(w).depth(), a@),
            final(w).depth() == old(w).depth(),
            final(w).unit() == old(w).unit(),
    {
        let ghost t0 = w.text();
        let mut i: usize = 0;
        assert(a@.subrange(0, 0) =~= Seq::<(Temp, Temp)>::empty());
        while i < a.len()
            invariant
                i <= a@.len(),
                w.depth() == old(w).depth(),
                w.unit() == old(w).unit(),
                w.text() == t0 + assigns_text(old(w).unit(), old(w).depth(), a@.subrange(0, i as int)),
            decreases a@.len() - i,
        {
            let ghost t = a@.subrange(0, i + 1);
            let line = cat(cat(cat(temp(a[i].0), " = "), temp(a[i].1).as_str()), ";");
            w.line(line.as_str());
            proof {
                assert(t.drop_last() =~= a@.subrange(0, i as int));
                assert(t.last() == a@[i as int]);
            }
            i = i + 1;
        }
        assert(a@.subrange(0, a@.len() as int) =~= a@);
    }

    /// Writes a `return` of `vs`.
    fn return_stmt(&self, w: &mut CodeWriter, vs: &Vec<Expr>, uses: &mut Vec<String>)
        ensures
            final(w).text() == old(w).text() + return_text(*self, old(w).unit(), old(w).depth(), vs@),
            final(w).depth() == old(w).depth(),
            final(w).unit() == old(w).unit(),
            views(final(uses)@) == views(old(uses)@) + exprs_units(vs@),
    {
        let ghost u0 = views(uses@);
        if vs.len() == 0 {
            assert(u0 + exprs_units(vs@) =~= u0);
            w.line("return;");
        } else if vs.len() == 1 {
            let e = self.expr(&vs[0], uses);
            proof {
                assert(vs@.drop_last() =~= Seq::<Expr>::empty());
                assert(vs@.last() == vs@[0]);
                assert(exprs_units(vs@.drop_last()) =~= Seq::<Seq<char>>::empty());
                assert(exprs_units(vs@) =~= expr_units(vs@[0]));
            }
            w.line(cat(cat(to_owned("return "), e.as_str()), ";").as_str());
        } else {
            let es = self.exprs(vs, uses);
            let j = join(&es);
            w.line(cat(cat(to_owned("return ("), j.as_str()), ");").as_str());
        }
    }

    /// Writes a branch to `t`.
    fn branch(&self, w: &mut CodeWriter, t: &BrTarget, uses: &mut Vec<String>)
        ensures
            final(w).text() == old(w).text() + branch_text(*self, old(w).unit(), old(w).depth(), *t),
            final(w).depth() == old(w).depth(),
            final(w).unit() == old(w).unit(),
            views(final(uses)@) == views(old(uses)@) + branch_units(*t),
    {
        match t {
            BrTarget::Return { values } => self.return_stmt(w, values, uses),
            BrTarget::Label { label, is_loop, assigns } => {
                assert(views(uses@) + branch_units(*t) =~= views(uses@));
                self.assigns(w, assigns);
                let kw = if *is_loop {
                    "next"
                } else {
                    "last"
                };
                w.line(cat(cat_dec(cat(to_owned(kw), " L"), *label as u64), ";").as_str());
            },
        }
    }
}

impl<'a> PerlGen<'a> {
    /// Writes the `if`/`elsif` arms of a `br_table` over `ts`.
    fn table_arms(&self, w: &mut CodeWriter, ts: &Vec<BrTarget>, uses: &mut Vec<String>)
        requires
            old(w).depth() < usize::MAX,
        ensures
            final(w).text() == old(w).text() + table_arms_text(*self, old(w).unit(), old(w).depth(), ts@),
            final(w).depth() == old(w).depth(),
            final(w).unit() == old(w).unit(),
            views(final(uses)@) == views(old(uses)@) + targets_units(ts@),
    {
        let ghost t0 = w.text();
        let ghost u0 = views(uses@);
        let ghost d = w.depth();
        let ghost u = w.unit();
        let mut n: usize = 0;
        assert(ts@.subrange(0, 0) =~= Seq::<BrTarget>::empty());
        assert(u0 + targets_units(Seq::<BrTarget>::empty()) =~= u0);
        while n < ts.len()
            invariant
                n <= ts@.len(),
                d == old(w).depth(),
                d < usize::MAX,
                w.depth() == d,
                w.unit() == u,
                w.text() == t0 + table_arms_text(*self, u, d, ts@.subrange(0, n as int)),
                views(uses@) == u0 + targets_units(ts@.subrange(0, n as int)),
            decreases ts@.len() - n,
        {
            let ghost t = ts@.subrange(0, n + 1);
            let kw = if n == 0 {
                "if"
            } else {
                "} elsif"
            };
            w.line(cat(cat_dec(cat(to_owned(kw), " ($_bt == "), n as u64), ") {").as_str());
            w.indent();
            self.branch(w, &ts[n], uses);
            w.dedent();
            proof {
                assert(t.drop_last() =~= ts@.subrange(0, n as int));
                assert(t.last() == ts@[n as int]);
                assert(t.len() - 1 == n);
            }
            n = n + 1;
        }
        assert(ts@.subrange(0, ts@.len() as int) =~= ts@);
    }

    /// A function type as the tables key it.
    fn type_symbol(&self, type_idx: u32) -> (r: String)
        requires
            (type_idx as int) < self.module.types@.len(),
        ensures
            r@ == type_symbol_text(*self.module, type_idx),
    {
        let k = type_key(&self.module.types[type_idx as usize]);
        perl_string(k.as_str())
    }

    /// A direct call of `func` with the argument texts `args`.
    fn call_string(&self, func: u32, args: &Vec<String>) -> (r: String)
        ensures
            r@ == call_text(*self.module, func, views(args@)),
    {
        let j = join(args);
        if (func as usize) < self.module.imported_funcs.len() {
            cat(cat(cat(cat_dec(to_owned("$self->{if"), func as u64), "}->("), j.as_str()), ")")
        } else {
            cat(cat(cat(cat_dec(to_owned("$self->_f"), func as u64), "("), j.as_str()), ")")
        }
    }
}

/// `"$self->{memory}->method(a, b, c);"`.
fn mem3_exec(method: &str, a: &str, b: &str, c: &str) -> (r: String)
    ensures
        r@ == mem3(method@, a@, b@, c@),
{
    cat(cat(cat(cat(cat(cat(cat(cat(to_owned("$self->{memory}->"), method), "("), a), ", "), b), ", "), c), ");")
}

impl<'a> PerlGen<'a> {
    /// Writes a statement that holds no body.
    #[verifier::spinoff_prover]
    #[verifier::rlimit(50)]
    pub fn simple_stmt(&self, w: &mut CodeWriter, s: &Stmt, uses: &mut Vec<String>)
        requires
            emittable(*self.module, *s),
            !(s is Block || s is Loop || s is If),
            old(w).depth() < usize::MAX,
        ensures
            final(w).text() == old(w).text() + simple_text(*self, old(w).unit(), old(w).depth(), *s),
            final(w).depth() == old(w).depth(),
            final(w).unit() == old(w).unit(),
            views(final(uses)@) == views(old(uses)@) + simple_units(*s),
    {
        let ghost u0 = views(uses@);
        match s {
            Stmt::Assign { dst, expr } => {
                let e = self.expr(expr, uses);
                w.line(cat(cat(cat(temp(*dst), " = "), e.as_str()), ";").as_str());
            },
            Stmt::LocalSet { idx, expr } => {
                let e = self.expr(expr, uses);
                w.line(cat(cat(cat(cat_dec(to_owned("$l"), *idx as u64), " = "), e.as_str()), ";").as_str());
            },
            Stmt::GlobalSet { idx, expr } => {
                let e = self.expr(expr, uses);
                w.line(cat(cat(cat(cat_dec(to_owned("$self->{g"), *idx as u64), "}{value} = "), e.as_str()), ";").as_str());
            },
            Stmt::Store { op, addr, value, offset } => {
                let m = store_method(*op);
                note(uses, cat(to_owned("memory/"), m));
                let a = self.addr(addr, *offset, uses);
                let v = self.expr(value, uses);
                w.line(
                    cat(cat(cat(cat(cat(cat(to_owned("$self->{memory}->"), m), "("), a.as_str()), ", "), v.as_str()), ");").as_str(),
                );
            },
            Stmt::Br(t) => self.branch(w, t, uses),
            Stmt::BrIf { cond, target } => {
                let c = self.expr(cond, uses);
                w.line(cat(cat(to_owned("if (("), c.as_str()), ") != 0) {").as_str());
                w.indent();
                self.branch(w, target, uses);
                w.dedent();
                w.line("}");
            },
            Stmt::BrTable { index, targets, default } => {
                if targets.len() == 0 {
                    self.branch(w, default, uses);
                } else {
                    let x = self.expr(index, uses);
                    w.line(cat(cat(to_owned("$_bt = "), x.as_str()), ";").as_str());
                    self.table_arms(w, targets, uses);
                    w.line("} else {");
                    w.indent();
                    self.branch(w, default, uses);
                    w.dedent();
                    w.line("}");
                }
            },
            Stmt::Return { values } => self.return_stmt(w, values, uses),
            Stmt::Call { func, args, results } => {
                let a = self.exprs(args, uses);
                let call = self.call_string(*func, &a);
                w.line(assign_results(results.as_slice(), call.as_str()).as_str());
            },
            Stmt::CallIndirect { type_idx, table_index, index, args, results } => {
                note(uses, to_owned("table/call"));
                let x = self.expr(index, uses);
                let sym = self.type_symbol(*type_idx);
                let a = self.exprs(args, uses);
                let mut parts: Vec<String> = Vec::new();
                parts.push(x);
                parts.push(sym);
                let mut k: usize = 0;
                let ghost p0 = views(parts@);
                while k < a.len()
                    invariant
                        k <= a@.len(),
                        views(parts@) == p0 + views(a@).subrange(0, k as int),
                    decreases a@.len() - k,
                {
                    let ghost before = parts@;
                    parts.push(to_owned(a[k].as_str()));
                    proof {
                        assert(views(parts@) =~= views(before).push(a@[k as int]@));
                        assert(views(a@).subrange(0, k + 1) =~= views(a@).subrange(0, k as int).push(a@[k as int]@));
                    }
                    k = k + 1;
                }
                proof {
                    assert(views(a@).subrange(0, a@.len() as int) =~= views(a@));
                    assert(p0 =~= seq![expr_text(*self, *index), type_symbol_text(*self.module, *type_idx)]);
                }
                let j = join(&parts);
                let call = cat(cat(cat(cat_dec(to_owned("$self->{t"), *table_index as u64), "}->call("), j.as_str()), ")");
                w.line(assign_results(results.as_slice(), call.as_str()).as_str());
            },
            Stmt::MemoryGrow { dst, delta } => {
                note(uses, to_owned("memory/grow"));
                let e = self.expr(delta, uses);
                w.line(cat(cat(cat(temp(*dst), " = $self->{memory}->grow("), e.as_str()), ");").as_str());
            },
            Stmt::MemoryCopy { dst, src, len } => {
                note(uses, to_owned("memory/copy"));
                let a = self.expr(dst, uses);
                let b = self.expr(src, uses);
                let c = self.expr(len, uses);
                w.line(mem3_exec("copy", a.as_str(), b.as_str(), c.as_str()).as_str());
            },
            Stmt::MemoryFill { dst, val, len } => {
                note(uses, to_owned("memory/fill"));
                let a = self.expr(dst, uses);
                let b = self.expr(val, uses);
                let c = self.expr(len, uses);
                w.line(mem3_exec("fill", a.as_str(), b.as_str(), c.as_str()).as_str());
            },
            Stmt::MemoryInit { seg, dst, src, len } => {
                note(uses, to_owned("memory/init"));
                let a = self.expr(dst, uses);
                let b = self.expr(src, uses);
                let c = self.expr(len, uses);
                let a2 = cat(cat_dec(cat(a, ", $self->{data"), *seg as u64), "}");
                w.line(mem3_exec("init", a2.as_str(), b.as_str(), c.as_str()).as_str());
            },
            Stmt::DataDrop { seg } => {
                assert(u0 + simple_units(*s) =~= u0);
                w.line(cat(cat_dec(to_owned("$self->{data"), *seg as u64), "} = '';").as_str());
            },
            Stmt::Unreachable => {
                let f = self.rt("trap", uses);
                w.line(cat(f, "('unreachable');").as_str());
            },
            Stmt::SourceLine(pos) => {
                assert(u0 + simple_units(*s) =~= u0);
                let file = &self.module.debug_files[pos.file as usize];
                w.line(cat_dec(cat(cat(to_owned("# "), file.as_str()), ":"), pos.line as u64).as_str());
            },
            Stmt::TableInit { seg, table_index, dst, src, len } => {
                note(uses, to_owned("table/init"));
                let a = self.expr(dst, uses);
                let b = self.expr(src, uses);
                let c = self.expr(len, uses);
                let head = cat(cat(cat_dec(to_owned("$self->{t"), *table_index as u64), "}->init("), a.as_str());
                let mid = cat(cat(cat_dec(cat(head, ", $self->{elem"), *seg as u64), "}, "), b.as_str());
                w.line(cat(cat(cat(mid, ", "), c.as_str()), ");").as_str());
            },
            Stmt::TableCopy { dst_table, src_table, dst, src, len } => {
                note(uses, to_owned("table/copy"));
                let a = self.expr(dst, uses);
                let b = self.expr(src, uses);
                let c = self.expr(len, uses);
                let head = cat(cat(cat_dec(to_owned("$self->{t"), *dst_table as u64), "}->copy("), a.as_str());
                let mid = cat(cat(cat_dec(cat(head, ", $self->{t"), *src_table as u64), "}, "), b.as_str());
                w.line(cat(cat(cat(mid, ", "), c.as_str()), ");").as_str());
            },
            Stmt::ElemDrop { seg } => {
                assert(u0 + simple_units(*s) =~= u0);
                w.line(cat(cat_dec(to_owned("$self->{elem"), *seg as u64), "} = [];").as_str());
            },
            _ => {
                assert(false);
            },
        }
    }
}

/// `prefix`, the decimal `id`, then `suffix`.
fn labelled(prefix: &str, id: u32, suffix: &str) -> (r: String)
    ensures
        r@ == prefix@ + decimal(id as nat) + suffix@,
{
    cat(cat_dec(to_owned(prefix), id as u64), suffix)
}

impl<'a> PerlGen<'a> {
    /// Writes `s`, recording the units it references.
    pub fn emit_stmt(&self, w: &mut CodeWriter, s: &Stmt, uses: &mut Vec<String>)
        requires
            emittable(*self.module, *s),
            old(w).depth() + 2 * height(*s) + 2 <= usize::MAX,
        ensures
            final(w).text() == old(w).text() + stmt_text(*self, old(w).unit(), old(w).depth(), *s),
            final(w).depth() == old(w).depth(),
            final(w).unit() == old(w).unit(),
            views(final(uses)@) == views(old(uses)@) + stmt_units(*s),
        decreases s, 2nat,
    {
        match s {
            Stmt::Block { .. } | Stmt::Loop { .. } => self.emit_frame(w, s, uses),
            Stmt::If { .. } => self.emit_if(w, s, uses),
            _ => self.simple_stmt(w, s, uses),
        }
    }

    /// Writes a block or a loop.
    #[verifier::spinoff_prover]
    fn emit_frame(&self, w: &mut CodeWriter, s: &Stmt, uses: &mut Vec<String>)
        requires
            s is Block || s is Loop,
            emittable(*self.module, *s),
            old(w).depth() + 2 * height(*s) + 2 <= usize::MAX,
        ensures
            final(w).text() == old(w).text() + stmt_text(*self, old(w).unit(), old(w).depth(), *s),
            final(w).depth() == old(w).depth(),
            final(w).unit() == old(w).unit(),
            views(final(uses)@) == views(old(uses)@) + stmt_units(*s),
        decreases s, 1nat,
    {
        match s {
            Stmt::Block { label, body } => {
                if label.referenced {
                    w.line(labelled("L", label.id, ": {").as_str());
                    w.indent();
                    self.emit_seq(w, body, uses);
                    w.dedent();
                    w.line("}");
                } else {
                    self.emit_seq(w, body, uses);
                }
            },
            Stmt::Loop { label, body } => {
                if label.referenced {
                    w.line(labelled("L", label.id, ": while (1) {").as_str());
                    w.indent();
                    self.emit_seq(w, body, uses);
                    w.line(labelled("last L", label.id, ";").as_str());
                    w.dedent();
                    w.line("}");
                } else {
                    self.emit_seq(w, body, uses);
                }
            },
            _ => {},
        }
    }

    /// Writes an `if`.
    #[verifier::spinoff_prover]
    fn emit_if(&self, w: &mut CodeWriter, s: &Stmt, uses: &mut Vec<String>)
        requires
            s is If,
            emittable(*self.module, *s),
            old(w).depth() + 2 * height(*s) + 2 <= usize::MAX,
        ensures
            final(w).text() == old(w).text() + stmt_text(*self, old(w).unit(), old(w).depth(), *s),
            final(w).depth() == old(w).depth(),
            final(w).unit() == old(w).unit(),
            views(final(uses)@) == views(old(uses)@) + stmt_units(*s),
        decreases s, 1nat,
    {
        match s {
            Stmt::If { label, .. } => {
                if label.referenced {
                    w.line(labelled("L", label.id, ": {").as_str());
                    w.indent();
                    self.emit_if_inner(w, s, uses);
                    w.dedent();
                    w.line("}");
                } else {
                    self.emit_if_inner(w, s, uses);
                }
            },
            _ => {},
        }
    }

    /// Writes an `if` without the labelled block a referenced one sits in.
    #[verifier::spinoff_prover]
    fn emit_if_inner(&self, w: &mut CodeWriter, s: &Stmt, uses: &mut Vec<String>)
        requires
            s is If,
            emittable(*self.module, *s),
            old(w).depth() + 2 * height(*s) + 1 <= usize::MAX,
        ensures
            final(w).text() == old(w).text() + if_inner_text(*self, old(w).unit(), old(w).depth(), *s),
            final(w).depth() == old(w).depth(),
            final(w).unit() == old(w).unit(),
            views(final(uses)@) == views(old(uses)@) + stmt_units(*s),
        decreases s, 0nat,
    {
        match s {
            Stmt::If { cond, then, els, .. } => {
                let c = self.expr(cond, uses);
                w.line(cat(cat(to_owned("if (("), c.as_str()), ") != 0) {").as_str());
                w.indent();
                self.emit_seq(w, then, uses);
                w.dedent();
                if els.len() == 0 {
                    w.line("}");
                } else {
                    w.line("} else {");
                    w.indent();
                    self.emit_seq(w, els, uses);
                    w.dedent();
                    w.line("}");
                }
            },
            _ => {},
        }
    }

    /// Writes the statements `stmts` in order, recording the units they reference.
    pub fn emit_seq(&self, w: &mut CodeWriter, stmts: &Vec<Stmt>, uses: &mut Vec<String>)
        requires
            seq_emittable(*self.module, stmts@),
            old(w).depth() + 2 * hmax(stmts@) + 2 <= usize::MAX,
        ensures
            final(w).text() == old(w).text() + seq_text(*self, old(w).unit(), old(w).depth(), stmts@),
            final(w).depth() == old(w).depth(),
            final(w).unit() == old(w).unit(),
            views(final(uses)@) == views(old(uses)@) + seq_units(stmts@),
        decreases stmts@, 3nat,
    {
        let ghost t0 = w.text();
        let ghost u0 = views(uses@);
        let ghost d = w.depth();
        let ghost u = w.unit();
        let mut i: usize = 0;
        assert(stmts@.subrange(0, 0) =~= Seq::<Stmt>::empty());
        assert(u0 + seq_units(Seq::<Stmt>::empty()) =~= u0);
        while i < stmts.len()
            invariant
                i <= stmts@.len(),
                d == old(w).depth(),
                seq_emittable(*self.module, stmts@),
                d + 2 * hmax(stmts@) + 2 <= usize::MAX,
                w.depth() == d,
                w.unit() == u,
                w.text() == t0 + seq_text(*self, u, d, stmts@.subrange(0, i as int)),
                views(uses@) == u0 + seq_units(stmts@.subrange(0, i as int)),
            decreases stmts@.len() - i,
        {
            let ghost t = stmts@.subrange(0, i + 1);
            proof {
                lemma_seq_emittable_elem(*self.module, stmts@, i as int);
                lemma_hmax_elem(stmts@, i as int);
                assert(decreases_to!(stmts@ => stmts@[i as int]));
            }
            self.emit_stmt(w, &stmts[i], uses);
            proof {
                assert(t.drop_last() =~= stmts@.subrange(0, i as int));
                assert(t.last() == stmts@[i as int]);
            }
            i = i + 1;
        }
        assert(stmts@.subrange(0, stmts@.len() as int) =~= stmts@);
    }
}

// ---------------------------------------------------------------------------------------------
// Functions.

/// The parameter list after `$self`: `, $l0, $l1, …` for `n` parameters.
pub open spec fn params_text(n: nat) -> Seq<char>
    decreases n,
{
    if n == 0 {
        seq![]
    } else {
        params_text((n - 1) as nat) + ", $l"@ + decimal((n - 1) as nat)
    }
}

/// A declared local's initial value.
pub open spec fn default_text(ty: ValType) -> Seq<char> {
    match ty {
        ValType::I32 | ValType::I64 => "0"@,
        ValType::F32 | ValType::F64 => "0.0"@,
        ValType::FuncRef => "undef"@,
    }
}

/// The declarations of the locals `ls`, numbered from `np`.
pub open spec fn locals_text(u: Seq<char>, d: nat, np: nat, ls: Seq<ValType>) -> Seq<char>
    decreases ls.len(),
{
    if ls.len() == 0 {
        seq![]
    } else {
        locals_text(u, d, np, ls.drop_last()) + lt(
            u,
            d,
            "my $l"@ + decimal((np + ls.len() - 1) as nat) + " = "@ + default_text(ls.last()) + ";"@,
        )
    }
}

/// The depths of the temps `ts`, with each run of equal neighbours kept once.
pub open spec fn dedup_depths(ts: Seq<Temp>) -> Seq<u32>
    decreases ts.len(),
{
    if ts.len() == 0 {
        seq![]
    } else {
        let r = dedup_depths(ts.drop_last());
        if r.len() > 0 && r.last() == ts.last().depth {
            r
        } else {
            r.push(ts.last().depth)
        }
    }
}

/// The declarations of the temporaries of the depths `ds`.
pub open spec fn temps_text(u: Seq<char>, d: nat, ds: Seq<u32>) -> Seq<char>
    decreases ds.len(),
{
    if ds.len() == 0 {
        seq![]
    } else {
        temps_text(u, d, ds.drop_last()) + lt(u, d, "my $s"@ + decimal(ds.last() as nat) + " = 0;"@)
    }
}

/// The Perl method for the function `f` of index `idx` at depth `d`: its parameters, the
/// call-depth cutoff, its locals and temporaries at their initial values, the `br_table`
/// selector where it needs one, its body, and a final bare `return`.
#[verifier::opaque]
pub open spec fn function_text(g: PerlGen, u: Seq<char>, d: nat, idx: u32, f: Func) -> Seq<char> {
    let np = g.module.types@[f.type_idx as int].params@.len();
    lt(u, d, "sub _f"@ + decimal(idx as nat) + " {"@) + prologue_text(g, u, d + 1, np) + locals_text(u, d + 1, np, f.locals@)
        + temps_text(u, d + 1, dedup_depths(f.temps@)) + (if seq_has_br_table_spec(f.body@) {
        lt(u, d + 1, "my $_bt = 0;"@)
    } else {
        seq![]
    }) + seq_text(g, u, d + 1, f.body@) + lt(u, d + 1, "return;"@) + lt(u, d, "}"@)
}

/// A method's first lines: its `np` parameters unpacked, and the call-depth cutoff.
pub open spec fn prologue_text(g: PerlGen, u: Seq<char>, d: nat, np: nat) -> Seq<char> {
    let rt = g.rt_name@;
    lt(u, d, "my ($self"@ + params_text(np) + ") = @_;"@) + lt(u, d, "local $"@ + rt + "::DEPTH = $"@ + rt + "::DEPTH + 1;"@)
        + lt(u, d, rt_text(rt, "exhausted"@) + "() if $"@ + rt + "::DEPTH > $"@ + rt + "::LIMIT;"@)
}

/// The units the method for `f` references, in order.
pub open spec fn function_units(f: Func) -> Seq<Seq<char>> {
    seq![rt_unit("exhausted"@), rt_unit("exhausted"@)] + seq_units(f.body@)
}

/// Whether the Perl lowering covers the function `f` of the module `m`: its type is one of the
/// module's and every statement of its body is [`emittable`].
pub open spec fn function_emittable(m: Module, f: Func) -> bool {
    &&& (f.type_idx as int) < m.types@.len()
    &&& seq_emittable(m, f.body@)
    &&& m.types@[f.type_idx as int].params@.len() + f.locals@.len() <= u64::MAX
}

impl<'a> PerlGen<'a> {
    /// Writes the locals' declarations.
    fn locals(&self, w: &mut CodeWriter, np: usize, ls: &Vec<ValType>)
        requires
            np + ls@.len() <= u64::MAX,
        ensures
            final(w).text() == old(w).text() + locals_text(old(w).unit(), old(w).depth(), np as nat, ls@),
            final(w).depth() == old(w).depth(),
            final(w).unit() == old(w).unit(),
    {
        let ghost t0 = w.text();
        let mut i: usize = 0;
        assert(ls@.subrange(0, 0) =~= Seq::<ValType>::empty());
        while i < ls.len()
            invariant
                i <= ls@.len(),
                np + ls@.len() <= u64::MAX,
                w.depth() == old(w).depth(),
                w.unit() == old(w).unit(),
                w.text() == t0 + locals_text(old(w).unit(), old(w).depth(), np as nat, ls@.subrange(0, i as int)),
            decreases ls@.len() - i,
        {
            let ghost t = ls@.subrange(0, i + 1);
            let v = default_value(ls[i], "undef");
            w.line(cat(cat(cat(cat_dec(to_owned("my $l"), (np as u64) + (i as u64)), " = "), v), ";").as_str());
            proof {
                assert(t.drop_last() =~= ls@.subrange(0, i as int));
                assert(t.last() == ls@[i as int]);
            }
            i = i + 1;
        }
        assert(ls@.subrange(0, ls@.len() as int) =~= ls@);
    }

    /// Writes the temporaries' declarations, one per run of equal depths.
    fn temps(&self, w: &mut CodeWriter, ts: &Vec<Temp>)
        ensures
            final(w).text() == old(w).text() + temps_text(old(w).unit(), old(w).depth(), dedup_depths(ts@)),
            final(w).depth() == old(w).depth(),
            final(w).unit() == old(w).unit(),
    {
        let ghost t0 = w.text();
        let mut i: usize = 0;
        let mut last: Option<u32> = None;
        assert(ts@.subrange(0, 0) =~= Seq::<Temp>::empty());
        while i < ts.len()
            invariant
                i <= ts@.len(),
                w.depth() == old(w).depth(),
                w.unit() == old(w).unit(),
                w.text() == t0 + temps_text(old(w).unit(), old(w).depth(), dedup_depths(ts@.subrange(0, i as int))),
                match last {
                    Some(x) => dedup_depths(ts@.subrange(0, i as int)).len() > 0 && dedup_depths(
                        ts@.subrange(0, i as int),
                    ).last() == x,
                    None => dedup_depths(ts@.subrange(0, i as int)).len() == 0,
                },
            decreases ts@.len() - i,
        {
            let ghost t = ts@.subrange(0, i + 1);
            let ghost r0 = dedup_depths(ts@.subrange(0, i as int));
            proof {
                assert(t.drop_last() =~= ts@.subrange(0, i as int));
                assert(t.last() == ts@[i as int]);
            }
            let dep = ts[i].depth;
            let same = match last {
                Some(x) => x == dep,
                None => false,
            };
            if !same {
                w.line(cat(cat_dec(to_owned("my $s"), dep as u64), " = 0;").as_str());
                proof {
                    assert(r0.push(dep).drop_last() =~= r0);
                }
                last = Some(dep);
            }
            i = i + 1;
        }
        assert(ts@.subrange(0, ts@.len() as int) =~= ts@);
    }

    /// Writes the method for the function `func` of index `idx`, recording the units it
    /// references.
    #[verifier::spinoff_prover]
    #[verifier::rlimit(60)]
    pub fn function(&self, w: &mut CodeWriter, idx: u32, func: &Func, uses: &mut Vec<String>)
        requires
            function_emittable(*self.module, *func),
            old(w).depth() + 2 * hmax(func.body@) + 4 <= usize::MAX,
        ensures
            final(w).text() == old(w).text() + function_text(*self, old(w).unit(), old(w).depth(), idx, *func),
            final(w).depth() == old(w).depth(),
            final(w).unit() == old(w).unit(),
            views(final(uses)@) == views(old(uses)@) + function_units(*func),
    {
        proof {
            reveal(function_text);
        }
        let np = self.module.types[func.type_idx as usize].params.len();
        let ghost u = w.unit();
        let ghost d = w.depth();
        let ghost t0 = w.text();
        w.line(labelled("sub _f", idx, " {").as_str());
        w.indent();
        self.prologue(w, np, uses);
        self.locals(w, np, &func.locals);
        self.temps(w, &func.temps);
        let bt = seq_has_br_table(func.body.as_slice());
        if bt {
            w.line("my $_bt = 0;");
        }
        let ghost t1 = w.text();
        assert(t1 == t0 + lt(u, d, "sub _f"@ + decimal(idx as nat) + " {"@) + prologue_text(*self, u, d + 1, np as nat)
            + locals_text(u, d + 1, np as nat, func.locals@) + temps_text(u, d + 1, dedup_depths(func.temps@)) + (if bt {
            lt(u, d + 1, "my $_bt = 0;"@)
        } else {
            seq![]
        }));
        self.emit_seq(w, &func.body, uses);
        w.line("return;");
        w.dedent();
        w.line("}");
    }

    /// Writes a method's first lines for `np` parameters.
    fn prologue(&self, w: &mut CodeWriter, np: usize, uses: &mut Vec<String>)
        ensures
            final(w).text() == old(w).text() + prologue_text(*self, old(w).unit(), old(w).depth(), np as nat),
            final(w).depth() == old(w).depth(),
            final(w).unit() == old(w).unit(),
            views(final(uses)@) == views(old(uses)@) + seq![rt_unit("exhausted"@), rt_unit("exhausted"@)],
    {
        let mut params = String::new();
        let mut i: usize = 0;
        while i < np
            invariant
                i <= np,
                params@ == params_text(i as nat),
            decreases np - i,
        {
            params = cat_dec(cat(params, ", $l"), i as u64);
            i = i + 1;
        }
        w.line(cat(cat(to_owned("my ($self"), params.as_str()), ") = @_;").as_str());
        let ghost u0 = views(uses@);
        note(uses, cat(to_owned("rt/"), "exhausted"));
        let rt = self.rt_name.as_str();
        w.line(cat(cat(cat(cat(to_owned("local $"), rt), "::DEPTH = $"), rt), "::DEPTH + 1;").as_str());
        let ex = self.rt("exhausted", uses);
        w.line(cat(cat(cat(cat(cat(ex, "() if $"), rt), "::DEPTH > $"), rt), "::LIMIT;").as_str());
        assert(views(uses@) =~= u0 + seq![rt_unit("exhausted"@), rt_unit("exhausted"@)]);
    }
}


// ---------------------------------------------------------------------------------------------
// The constructor.

/// `s` as a Perl single-quoted string.
pub open spec fn q(s: Seq<char>) -> Seq<char> {
    seq!['\''] + perl_escapes(s) + seq!['\'']
}

/// The lookup of the import `module`.`name` of the kind `kind` in `$imports`, checked for its kind.
pub open spec fn resolve_text(rt: Seq<char>, kind: Seq<char>, module: Seq<char>, name: Seq<char>) -> Seq<char> {
    rt_text(rt, "check_import_kind"@) + "("@ + rt_text(rt, "resolve_import"@) + "($imports, "@ + q(module) + ", "@ + q(name)
        + "), "@ + q(kind) + ", "@ + q(module) + ", "@ + q(name) + ")"@
}

/// The units an import lookup references.
pub open spec fn resolve_units() -> Seq<Seq<char>> {
    seq![rt_unit("check_import_kind"@), rt_unit("resolve_import"@)]
}

/// The call that reports the import `module`.`name` missing.
pub open spec fn missing_text(module: Seq<char>, name: Seq<char>) -> Seq<char> {
    "$self->_missing("@ + q(module) + ", "@ + q(name) + ")"@
}

/// An import that must be provided: its slot set from the lookup, else reported missing.
pub open spec fn required_import_text(rt: Seq<char>, slot: Seq<char>, kind: Seq<char>, module: Seq<char>, name: Seq<char>) -> Seq<char> {
    "$self->{"@ + slot + "} = "@ + resolve_text(rt, kind, module, name) + " // "@ + missing_text(module, name) + ";"@
}

/// A callable for the function `f`: an imported coderef, or a closure over the method.
pub open spec fn func_closure_text(m: Module, f: u32) -> Seq<char> {
    if (f as int) < m.imported_funcs@.len() {
        "$self->{if"@ + decimal(f as nat) + "}"@
    } else {
        "sub { return $self->_f"@ + decimal(f as nat) + "(@_); }"@
    }
}

/// The type index of the function `f`.
pub open spec fn func_type_idx(m: Module, f: u32) -> u32 {
    let n = m.imported_funcs@.len();
    if (f as int) < n {
        m.imported_funcs@[f as int].type_idx
    } else {
        m.funcs@[f - n].type_idx
    }
}

/// Whether `f` names a function of `m` whose type is one of `m`'s.
pub open spec fn func_resolves(m: Module, f: u32) -> bool {
    &&& (f as int) < m.imported_funcs@.len() + m.funcs@.len()
    &&& (func_type_idx(m, f) as int) < m.types@.len()
}

/// A funcref value: the type key and the callable.
pub open spec fn func_pair_text(m: Module, f: u32) -> Seq<char> {
    "["@ + type_symbol_text(m, func_type_idx(m, f)) + ", "@ + func_closure_text(m, f) + "]"@
}

/// An element item's value.
pub open spec fn item_text(m: Module, it: ElemItem) -> Seq<char> {
    match it {
        ElemItem::Func(f) => func_pair_text(m, f),
        ElemItem::Null => "undef"@,
        ElemItem::Global(i) => "$self->{g"@ + decimal(i as nat) + "}{value}"@,
    }
}

/// The values of the items `its`.
pub open spec fn items_texts(m: Module, its: Seq<ElemItem>) -> Seq<Seq<char>> {
    its.map_values(|it: ElemItem| item_text(m, it))
}

/// Whether the items `its` name functions of `m` whose types are `m`'s.
pub open spec fn items_resolve(m: Module, its: Seq<ElemItem>) -> bool {
    forall|k: int| 0 <= k < its.len() ==> (#[trigger] its[k] matches ElemItem::Func(f) ==> func_resolves(m, f))
}

/// An optional limit: its decimal, or `undef`.
pub open spec fn limit_text(l: Option<u64>) -> Seq<char> {
    match l {
        Some(v) => decimal(v as nat),
        None => "undef"@,
    }
}

impl<'a> PerlGen<'a> {
    /// A runtime class name, recording the scope's prelude unit.
    fn rt_class(&self, scope: &'static str, class: &'static str, uses: &mut Vec<String>) -> (r: String)
        ensures
            r@ == rt_text(self.rt_name@, class@),
            views(final(uses)@) == views(old(uses)@).push(scope@ + "/_package"@),
    {
        note(uses, cat(to_owned(scope), "/_package"));
        cat(cat(to_owned(self.rt_name.as_str()), "::"), class)
    }

    /// The lookup of an import, recording its units.
    fn resolve(&self, kind: &'static str, module: &str, name: &str, uses: &mut Vec<String>) -> (r: String)
        ensures
            r@ == resolve_text(self.rt_name@, kind@, module@, name@),
            views(final(uses)@) == views(old(uses)@) + resolve_units(),
    {
        let ghost u0 = views(uses@);
        let a = self.rt("check_import_kind", uses);
        let b = self.rt("resolve_import", uses);
        let qm = perl_string(module);
        let qn = perl_string(name);
        let qk = perl_string(kind);
        let r = cat(cat(cat(cat(cat(cat(cat(cat(cat(cat(cat(cat(a, "("), b.as_str()), "($imports, "), qm.as_str()), ", "), qn.as_str()), "), "), qk.as_str()), ", "), qm.as_str()), ", "), qn.as_str());
        assert(views(uses@) =~= u0 + resolve_units());
        cat(r, ")")
    }

    /// An import that must be provided, recording the lookup's units.
    fn required_import(&self, slot: String, kind: &'static str, module: &str, name: &str, uses: &mut Vec<String>) -> (r: String)
        ensures
            r@ == required_import_text(self.rt_name@, slot@, kind@, module@, name@),
            views(final(uses)@) == views(old(uses)@) + resolve_units(),
    {
        let res = self.resolve(kind, module, name, uses);
        let m = missing(module, name);
        cat(cat(cat(cat(cat(cat(to_owned("$self->{"), slot.as_str()), "} = "), res.as_str()), " // "), m.as_str()), ";")
    }

    fn func_closure(&self, f: u32) -> (r: String)
        ensures
            r@ == func_closure_text(*self.module, f),
    {
        if (f as usize) < self.module.imported_funcs.len() {
            labelled("$self->{if", f, "}")
        } else {
            labelled("sub { return $self->_f", f, "(@_); }")
        }
    }

    fn func_pair(&self, f: u32) -> (r: String)
        requires
            func_resolves(*self.module, f),
        ensures
            r@ == func_pair_text(*self.module, f),
    {
        let n = self.module.imported_funcs.len();
        let ty = if (f as usize) < n {
            self.module.imported_funcs[f as usize].type_idx
        } else {
            self.module.funcs[f as usize - n].type_idx
        };
        let sym = self.type_symbol(ty);
        let c = self.func_closure(f);
        cat(cat(cat(cat(to_owned("["), sym.as_str()), ", "), c.as_str()), "]")
    }

    fn items(&self, its: &Vec<ElemItem>) -> (r: String)
        requires
            items_resolve(*self.module, its@),
        ensures
            r@ == joined(items_texts(*self.module, its@)),
    {
        let mut parts: Vec<String> = Vec::new();
        let mut k: usize = 0;
        while k < its.len()
            invariant
                k <= its@.len(),
                items_resolve(*self.module, its@),
                views(parts@) == items_texts(*self.module, its@.subrange(0, k as int)),
            decreases its@.len() - k,
        {
            let ghost before = parts@;
            let t = match &its[k] {
                ElemItem::Func(f) => {
                    assert(its@[k as int] matches ElemItem::Func(f) ==> func_resolves(*self.module, f));
                    self.func_pair(*f)
                },
                ElemItem::Null => to_owned("undef"),
                ElemItem::Global(i) => labelled("$self->{g", *i, "}{value}"),
            };
            parts.push(t);
            proof {
                assert(views(parts@) =~= views(before).push(t@));
                assert(its@.subrange(0, k + 1) =~= its@.subrange(0, k as int).push(its@[k as int]));
                assert(items_texts(*self.module, its@.subrange(0, k + 1)) =~= items_texts(
                    *self.module,
                    its@.subrange(0, k as int),
                ).push(item_text(*self.module, its@[k as int])));
            }
            k = k + 1;
        }
        assert(its@.subrange(0, its@.len() as int) =~= its@);
        join(&parts)
    }
}

fn missing(module: &str, name: &str) -> (r: String)
    ensures
        r@ == missing_text(module@, name@),
{
    let qm = perl_string(module);
    let qn = perl_string(name);
    cat(cat(cat(cat(to_owned("$self->_missing("), qm.as_str()), ", "), qn.as_str()), ")")
}

fn limit(l: Option<u64>) -> (r: String)
    ensures
        r@ == limit_text(l),
{
    match l {
        Some(v) => cat_dec(String::new(), v),
        None => to_owned("undef"),
    }
}

/// The line that sets up the memory: imported, created with its limits, or none.
pub open spec fn memory_text(g: PerlGen, u: Seq<char>, d: nat) -> Seq<char> {
    let rt = g.rt_name@;
    match g.module.imported_memory {
        Some(imp) => lt(u, d, required_import_text(rt, "memory"@, "memory"@, imp.module@, imp.name@)),
        None => match g.module.memory {
            Some(mem) => lt(
                u,
                d,
                "$self->{memory} = "@ + rt_text(rt, "Memory"@) + "->new("@ + decimal(mem.min_pages as nat) + ", "@ + limit_text(
                    mem.max_pages,
                ) + ");"@,
            ),
            None => lt(u, d, "$self->{memory} = undef;"@),
        },
    }
}

/// The units the memory line references.
pub open spec fn memory_units(m: Module) -> Seq<Seq<char>> {
    match m.imported_memory {
        Some(_) => resolve_units(),
        None => match m.memory {
            Some(_) => seq!["memory"@ + "/_package"@],
            None => seq![],
        },
    }
}

/// `n` copies of `x`, concatenated.
pub open spec fn repeat_units(n: nat, x: Seq<Seq<char>>) -> Seq<Seq<char>>
    decreases n,
{
    if n == 0 {
        seq![]
    } else {
        repeat_units((n - 1) as nat, x) + x
    }
}

/// The lines that take the imports `its` of kind `kind` into the slots `prefix0`, `prefix1`, ….
pub open spec fn imports_text(g: PerlGen, u: Seq<char>, d: nat, prefix: Seq<char>, kind: Seq<char>, its: Seq<Import>) -> Seq<char>
    decreases its.len(),
{
    if its.len() == 0 {
        seq![]
    } else {
        imports_text(g, u, d, prefix, kind, its.drop_last()) + lt(
            u,
            d,
            required_import_text(g.rt_name@, prefix + decimal((its.len() - 1) as nat), kind, its.last().module@, its.last().name@),
        )
    }
}

/// The lines that create the defined tables `ts`, numbered from `base`.
pub open spec fn tables_text(g: PerlGen, u: Seq<char>, d: nat, base: nat, ts: Seq<Table>) -> Seq<char>
    decreases ts.len(),
{
    if ts.len() == 0 {
        seq![]
    } else {
        tables_text(g, u, d, base, ts.drop_last()) + lt(
            u,
            d,
            "$self->{t"@ + decimal((base + ts.len() - 1) as nat) + "} = "@ + rt_text(g.rt_name@, "Table"@) + "->new("@ + decimal(
                ts.last().min as nat,
            ) + ", "@ + limit_text(ts.last().max) + ");"@,
        )
    }
}

/// What an imported function falls back to when the embedder leaves it out: the bundled WASI
/// implementation where there is one, a not-implemented stub for another WASI function, else a
/// link error.
pub open spec fn fallback_text(g: PerlGen, imp: ImportedFunc) -> Seq<char> {
    if is_wasi_module_spec(imp.module@) && g.default_wasi {
        if g.bundler.known("wasi/"@ + imp.name@) {
            "$self->_wasi_import("@ + q(imp.name@) + ")"@
        } else {
            "sub { return 52 }"@
        }
    } else {
        missing_text(imp.module@, imp.name@)
    }
}

/// The units a fallback references.
pub open spec fn fallback_units(g: PerlGen, imp: ImportedFunc) -> Seq<Seq<char>> {
    if is_wasi_module_spec(imp.module@) && g.default_wasi {
        if g.bundler.known("wasi/"@ + imp.name@) {
            seq!["wasi/"@ + imp.name@]
        } else {
            seq![]
        }
    } else {
        seq![rt_unit("link_error"@)]
    }
}

/// The lines that take the imported functions `fs`.
pub open spec fn func_imports_text(g: PerlGen, u: Seq<char>, d: nat, fs: Seq<ImportedFunc>) -> Seq<char>
    decreases fs.len(),
{
    if fs.len() == 0 {
        seq![]
    } else {
        let imp = fs.last();
        func_imports_text(g, u, d, fs.drop_last()) + lt(
            u,
            d,
            "$self->{if"@ + decimal((fs.len() - 1) as nat) + "} = "@ + resolve_text(g.rt_name@, "func"@, imp.module@, imp.name@)
                + " // "@ + fallback_text(g, imp) + ";"@,
        )
    }
}

/// The units the imported functions' lines reference, in order.
pub open spec fn func_imports_units(g: PerlGen, fs: Seq<ImportedFunc>) -> Seq<Seq<char>>
    decreases fs.len(),
{
    if fs.len() == 0 {
        seq![]
    } else {
        func_imports_units(g, fs.drop_last()) + fallback_units(g, fs.last()) + resolve_units()
    }
}

/// The lines that create the defined globals `gs`, numbered from `base`.
pub open spec fn globals_text(g: PerlGen, u: Seq<char>, d: nat, base: nat, gs: Seq<Global>) -> Seq<char>
    decreases gs.len(),
{
    if gs.len() == 0 {
        seq![]
    } else {
        globals_text(g, u, d, base, gs.drop_last()) + lt(
            u,
            d,
            "$self->{g"@ + decimal((base + gs.len() - 1) as nat) + "} = "@ + rt_text(g.rt_name@, "Global"@) + "->new("@
                + expr_text(g, gs.last().init) + ");"@,
        )
    }
}

/// The units the globals' lines reference, in order.
pub open spec fn globals_units(gs: Seq<Global>) -> Seq<Seq<char>>
    decreases gs.len(),
{
    if gs.len() == 0 {
        seq![]
    } else {
        globals_units(gs.drop_last()) + seq!["global"@ + "/_package"@] + expr_units(gs.last().init)
    }
}

/// The lines of the element segment `e` of index `k`: its items as a list, and for an active one
/// their copy into the table, after which the segment is dropped.
pub open spec fn elem_text(g: PerlGen, u: Seq<char>, d: nat, k: nat, e: Elem) -> Seq<char> {
    let slot = "$self->{elem"@ + decimal(k) + "}"@;
    let list = lt(u, d, slot + " = ["@ + joined(items_texts(*g.module, e.items@)) + "];"@);
    match e.kind {
        ElemKind::Declared => lt(u, d, slot + " = [];"@),
        ElemKind::Passive => list,
        ElemKind::Active { table_index, offset } => list + lt(
            u,
            d,
            "$self->{t"@ + decimal(table_index as nat) + "}->init("@ + expr_text(g, offset) + ", "@ + slot + ", 0, "@ + decimal(
                e.items@.len(),
            ) + ");"@,
        ) + lt(u, d, slot + " = [];"@),
    }
}

/// The units the element segment's lines reference.
pub open spec fn elem_units(e: Elem) -> Seq<Seq<char>> {
    match e.kind {
        ElemKind::Active { offset, .. } => seq!["table/init"@] + expr_units(offset),
        _ => seq![],
    }
}

/// The lines of the element segments `es`.
pub open spec fn elems_text(g: PerlGen, u: Seq<char>, d: nat, es: Seq<Elem>) -> Seq<char>
    decreases es.len(),
{
    if es.len() == 0 {
        seq![]
    } else {
        elems_text(g, u, d, es.drop_last()) + elem_text(g, u, d, (es.len() - 1) as nat, es.last())
    }
}

/// The units the element segments' lines reference, in order.
pub open spec fn elems_units(es: Seq<Elem>) -> Seq<Seq<char>>
    decreases es.len(),
{
    if es.len() == 0 {
        seq![]
    } else {
        elems_units(es.drop_last()) + elem_units(es.last())
    }
}

/// The bytes of the data segment `k`: a slice of the sidecar blob, or an inline literal.
pub open spec fn data_expr_text(g: PerlGen, k: nat, data: Seq<u8>) -> Seq<char> {
    if g.data_file {
        "substr($DATA_BLOB, "@ + decimal(g.data_offsets@[k as int] as nat) + ", "@ + decimal(data.len()) + ")"@
    } else {
        "pack('H*', '"@ + hex_spec(data) + "')"@
    }
}

/// The lines of the data segment `dt` of index `k`: an active one copied into memory and then
/// dropped, a passive one kept.
pub open spec fn data_text(g: PerlGen, u: Seq<char>, d: nat, k: nat, dt: Data) -> Seq<char> {
    match dt.offset {
        Some(off) => lt(
            u,
            d,
            "$self->{memory}->init("@ + expr_text(g, off) + ", "@ + data_expr_text(g, k, dt.data@) + ", 0, "@ + decimal(
                dt.data@.len(),
            ) + ");"@,
        ) + lt(u, d, "$self->{data"@ + decimal(k) + "} = '';"@),
        None => lt(u, d, "$self->{data"@ + decimal(k) + "} = "@ + data_expr_text(g, k, dt.data@) + ";"@),
    }
}

/// The units the data segment's lines reference.
pub open spec fn data_units(dt: Data) -> Seq<Seq<char>> {
    match dt.offset {
        Some(off) => seq!["memory/init"@] + expr_units(off),
        None => seq![],
    }
}

/// The lines of the data segments `ds`.
pub open spec fn datas_text(g: PerlGen, u: Seq<char>, d: nat, ds: Seq<Data>) -> Seq<char>
    decreases ds.len(),
{
    if ds.len() == 0 {
        seq![]
    } else {
        datas_text(g, u, d, ds.drop_last()) + data_text(g, u, d, (ds.len() - 1) as nat, ds.last())
    }
}

/// The units the data segments' lines reference, in order.
pub open spec fn datas_units(ds: Seq<Data>) -> Seq<Seq<char>>
    decreases ds.len(),
{
    if ds.len() == 0 {
        seq![]
    } else {
        datas_units(ds.drop_last()) + data_units(ds.last())
    }
}

/// The entries of the exported functions among `es`: name and callable.
pub open spec fn func_export_entries(m: Module, es: Seq<Export>) -> Seq<Seq<char>>
    decreases es.len(),
{
    if es.len() == 0 {
        seq![]
    } else {
        let rest = func_export_entries(m, es.drop_last());
        match es.last().kind {
            ExportKind::Func(f) => rest.push(q(es.last().name@) + " => "@ + func_closure_text(m, f)),
            _ => rest,
        }
    }
}

/// Whether every function an element segment of `m` lists resolves, and the sidecar offsets
/// cover every data segment.
pub open spec fn init_emittable(g: PerlGen) -> bool {
    let m = *g.module;
    &&& forall|k: int| 0 <= k < m.elems@.len() ==> items_resolve(m, (#[trigger] m.elems@[k]).items@)
    &&& g.data_file ==> g.data_offsets@.len() >= m.datas@.len()
    &&& m.imported_tables@.len() + m.tables@.len() <= u64::MAX
    &&& m.imported_globals@.len() + m.globals@.len() <= u64::MAX
}

/// The constructor's first lines: the instance blessed, memory and tables set up, and the
/// imported functions taken.
#[verifier::opaque]
pub open spec fn init_first_text(g: PerlGen, u: Seq<char>, e: nat) -> Seq<char> {
    let m = *g.module;
    lt(u, e, "my ($class, $imports) = @_;"@) + lt(u, e, "$imports = {} unless defined $imports;"@) + lt(
        u,
        e,
        "my $self = bless({}, $class);"@,
    ) + memory_text(g, u, e) + imports_text(g, u, e, "t"@, "table"@, m.imported_tables@) + tables_text(
        g,
        u,
        e,
        m.imported_tables@.len(),
        m.tables@,
    ) + func_imports_text(g, u, e, m.imported_funcs@)
}

/// The constructor's remaining lines: globals, element and data segments, the exported
/// functions, the start function, and the instance returned.
#[verifier::opaque]
pub open spec fn init_rest_text(g: PerlGen, u: Seq<char>, e: nat) -> Seq<char> {
    init_segments_text(g, u, e) + init_tail_text(g, u, e)
}

/// The constructor's globals and segments.
#[verifier::opaque]
pub open spec fn init_segments_text(g: PerlGen, u: Seq<char>, e: nat) -> Seq<char> {
    let m = *g.module;
    imports_text(g, u, e, "g"@, "global"@, m.imported_globals@) + globals_text(g, u, e, m.imported_globals@.len(), m.globals@)
        + elems_text(g, u, e, m.elems@) + datas_text(g, u, e, m.datas@)
}

/// The constructor's last lines: the exported functions, the start function, and the instance
/// returned.
#[verifier::opaque]
pub open spec fn init_tail_text(g: PerlGen, u: Seq<char>, e: nat) -> Seq<char> {
    let m = *g.module;
    lt(u, e, "$self->{exports} = {"@ + joined(func_export_entries(m, m.exports@)) + "};"@) + (match m.start {
        Some(st) => lt(u, e, call_text(m, st, seq![]) + ";"@),
        None => seq![],
    }) + lt(u, e, "return $self;"@)
}

/// The constructor `new`: the imports taken (or their fallbacks), memory, tables and globals
/// created, element and data segments applied, the exported functions listed, and the start
/// function run.
#[verifier::opaque]
pub open spec fn init_text(g: PerlGen, u: Seq<char>, d: nat) -> Seq<char> {
    lt(u, d, "sub new {"@) + init_first_text(g, u, d + 1) + init_rest_text(g, u, d + 1) + lt(u, d, "}"@)
}

/// The units the constructor's first lines reference, in order.
#[verifier::opaque]
pub open spec fn init_first_units(g: PerlGen) -> Seq<Seq<char>> {
    let m = *g.module;
    memory_units(m) + repeat_units(m.imported_tables@.len(), resolve_units()) + repeat_units(
        m.tables@.len(),
        seq!["table"@ + "/_package"@],
    ) + func_imports_units(g, m.imported_funcs@)
}

/// The units the constructor's remaining lines reference, in order.
#[verifier::opaque]
pub open spec fn init_rest_units(g: PerlGen) -> Seq<Seq<char>> {
    let m = *g.module;
    repeat_units(m.imported_globals@.len(), resolve_units()) + globals_units(m.globals@) + elems_units(m.elems@)
        + datas_units(m.datas@)
}

/// The units the constructor references, in order.
pub open spec fn init_units(g: PerlGen) -> Seq<Seq<char>> {
    init_first_units(g) + init_rest_units(g)
}

impl<'a> PerlGen<'a> {
    fn emit_memory(&self, w: &mut CodeWriter, uses: &mut Vec<String>)
        ensures
            final(w).text() == old(w).text() + memory_text(*self, old(w).unit(), old(w).depth()),
            final(w).depth() == old(w).depth(),
            final(w).unit() == old(w).unit(),
            views(final(uses)@) == views(old(uses)@) + memory_units(*self.module),
    {
        match &self.module.imported_memory {
            Some(imp) => {
                let l = self.required_import(to_owned("memory"), "memory", imp.module.as_str(), imp.name.as_str(), uses);
                w.line(l.as_str());
            },
            None => match &self.module.memory {
                Some(mem) => {
                    let c = self.rt_class("memory", "Memory", uses);
                    let mx = limit(mem.max_pages);
                    w.line(
                        cat(cat(cat(cat_dec(cat(cat(to_owned("$self->{memory} = "), c.as_str()), "->new("), mem.min_pages), ", "), mx.as_str()), ");").as_str(),
                    );
                },
                None => {
                    assert(views(uses@) + memory_units(*self.module) =~= views(uses@));
                    w.line("$self->{memory} = undef;");
                },
            },
        }
    }

    fn emit_imports(&self, w: &mut CodeWriter, prefix: &'static str, kind: &'static str, its: &Vec<Import>, uses: &mut Vec<String>)
        ensures
            final(w).text() == old(w).text() + imports_text(*self, old(w).unit(), old(w).depth(), prefix@, kind@, its@),
            final(w).depth() == old(w).depth(),
            final(w).unit() == old(w).unit(),
            views(final(uses)@) == views(old(uses)@) + repeat_units(its@.len(), resolve_units()),
    {
        let ghost t0 = w.text();
        let ghost u0 = views(uses@);
        let mut k: usize = 0;
        assert(its@.subrange(0, 0) =~= Seq::<Import>::empty());
        assert(u0 + repeat_units(0, resolve_units()) =~= u0);
        while k < its.len()
            invariant
                k <= its@.len(),
                w.depth() == old(w).depth(),
                w.unit() == old(w).unit(),
                w.text() == t0 + imports_text(*self, old(w).unit(), old(w).depth(), prefix@, kind@, its@.subrange(0, k as int)),
                views(uses@) == u0 + repeat_units(k as nat, resolve_units()),
            decreases its@.len() - k,
        {
            let ghost t = its@.subrange(0, k + 1);
            let slot = cat_dec(to_owned(prefix), k as u64);
            let l = self.required_import(slot, kind, its[k].module.as_str(), its[k].name.as_str(), uses);
            w.line(l.as_str());
            proof {
                assert(t.drop_last() =~= its@.subrange(0, k as int));
                assert(t.last() == its@[k as int]);
            }
            k = k + 1;
        }
        assert(its@.subrange(0, its@.len() as int) =~= its@);
    }

    fn emit_tables(&self, w: &mut CodeWriter, uses: &mut Vec<String>)
        requires
            self.module.imported_tables@.len() + self.module.tables@.len() <= u64::MAX,
        ensures
            final(w).text() == old(w).text() + tables_text(
                *self,
                old(w).unit(),
                old(w).depth(),
                self.module.imported_tables@.len(),
                self.module.tables@,
            ),
            final(w).depth() == old(w).depth(),
            final(w).unit() == old(w).unit(),
            views(final(uses)@) == views(old(uses)@) + repeat_units(self.module.tables@.len(), seq!["table"@ + "/_package"@]),
    {
        let ghost t0 = w.text();
        let ghost u0 = views(uses@);
        let ts = &self.module.tables;
        let base = self.module.imported_tables.len();
        let mut k: usize = 0;
        assert(ts@.subrange(0, 0) =~= Seq::<Table>::empty());
        assert(u0 + repeat_units(0, seq!["table"@ + "/_package"@]) =~= u0);
        while k < ts.len()
            invariant
                k <= ts@.len(),
                ts == &self.module.tables,
                base == self.module.imported_tables@.len(),
                base + ts@.len() <= u64::MAX,
                w.depth() == old(w).depth(),
                w.unit() == old(w).unit(),
                w.text() == t0 + tables_text(*self, old(w).unit(), old(w).depth(), base as nat, ts@.subrange(0, k as int)),
                views(uses@) == u0 + repeat_units(k as nat, seq!["table"@ + "/_package"@]),
            decreases ts@.len() - k,
        {
            let ghost t = ts@.subrange(0, k + 1);
            let c = self.rt_class("table", "Table", uses);
            let mx = limit(ts[k].max);
            let head = cat(cat(cat_dec(to_owned("$self->{t"), (base as u64) + (k as u64)), "} = "), c.as_str());
            w.line(cat(cat(cat(cat_dec(cat(head, "->new("), ts[k].min), ", "), mx.as_str()), ");").as_str());
            proof {
                assert(t.drop_last() =~= ts@.subrange(0, k as int));
                assert(t.last() == ts@[k as int]);
            }
            k = k + 1;
        }
        assert(ts@.subrange(0, ts@.len() as int) =~= ts@);
    }

    fn fallback(&self, imp: &ImportedFunc, uses: &mut Vec<String>) -> (r: String)
        ensures
            r@ == fallback_text(*self, *imp),
            views(final(uses)@) == views(old(uses)@) + fallback_units(*self, *imp),
    {
        if is_wasi_module(imp.module.as_str()) && self.default_wasi {
            let unit = cat(to_owned("wasi/"), imp.name.as_str());
            if self.bundler.has_unit(unit.as_str()) {
                note(uses, unit);
                let qn = perl_string(imp.name.as_str());
                cat(cat(to_owned("$self->_wasi_import("), qn.as_str()), ")")
            } else {
                assert(views(uses@) + fallback_units(*self, *imp) =~= views(uses@));
                to_owned("sub { return 52 }")
            }
        } else {
            note(uses, cat(to_owned("rt/"), "link_error"));
            missing(imp.module.as_str(), imp.name.as_str())
        }
    }

    fn emit_func_imports(&self, w: &mut CodeWriter, uses: &mut Vec<String>)
        ensures
            final(w).text() == old(w).text() + func_imports_text(*self, old(w).unit(), old(w).depth(), self.module.imported_funcs@),
            final(w).depth() == old(w).depth(),
            final(w).unit() == old(w).unit(),
            views(final(uses)@) == views(old(uses)@) + func_imports_units(*self, self.module.imported_funcs@),
    {
        let ghost t0 = w.text();
        let ghost u0 = views(uses@);
        let fs = &self.module.imported_funcs;
        let mut k: usize = 0;
        assert(fs@.subrange(0, 0) =~= Seq::<ImportedFunc>::empty());
        assert(u0 + func_imports_units(*self, Seq::<ImportedFunc>::empty()) =~= u0);
        while k < fs.len()
            invariant
                k <= fs@.len(),
                fs == &self.module.imported_funcs,
                w.depth() == old(w).depth(),
                w.unit() == old(w).unit(),
                w.text() == t0 + func_imports_text(*self, old(w).unit(), old(w).depth(), fs@.subrange(0, k as int)),
                views(uses@) == u0 + func_imports_units(*self, fs@.subrange(0, k as int)),
            decreases fs@.len() - k,
        {
            let ghost t = fs@.subrange(0, k + 1);
            let fb = self.fallback(&fs[k], uses);
            let res = self.resolve("func", fs[k].module.as_str(), fs[k].name.as_str(), uses);
            let head = cat(cat_dec(to_owned("$self->{if"), k as u64), "} = ");
            w.line(cat(cat(cat(cat(head, res.as_str()), " // "), fb.as_str()), ";").as_str());
            proof {
                assert(t.drop_last() =~= fs@.subrange(0, k as int));
                assert(t.last() == fs@[k as int]);
            }
            k = k + 1;
        }
        assert(fs@.subrange(0, fs@.len() as int) =~= fs@);
    }
}

impl<'a> PerlGen<'a> {
    fn emit_globals(&self, w: &mut CodeWriter, uses: &mut Vec<String>)
        requires
            self.module.imported_globals@.len() + self.module.globals@.len() <= u64::MAX,
        ensures
            final(w).text() == old(w).text() + globals_text(
                *self,
                old(w).unit(),
                old(w).depth(),
                self.module.imported_globals@.len(),
                self.module.globals@,
            ),
            final(w).depth() == old(w).depth(),
            final(w).unit() == old(w).unit(),
            views(final(uses)@) == views(old(uses)@) + globals_units(self.module.globals@),
    {
        let ghost t0 = w.text();
        let ghost u0 = views(uses@);
        let gs = &self.module.globals;
        let base = self.module.imported_globals.len();
        let mut k: usize = 0;
        assert(gs@.subrange(0, 0) =~= Seq::<Global>::empty());
        assert(u0 + globals_units(Seq::<Global>::empty()) =~= u0);
        while k < gs.len()
            invariant
                k <= gs@.len(),
                gs == &self.module.globals,
                base == self.module.imported_globals@.len(),
                base + gs@.len() <= u64::MAX,
                w.depth() == old(w).depth(),
                w.unit() == old(w).unit(),
                w.text() == t0 + globals_text(*self, old(w).unit(), old(w).depth(), base as nat, gs@.subrange(0, k as int)),
                views(uses@) == u0 + globals_units(gs@.subrange(0, k as int)),
            decreases gs@.len() - k,
        {
            let ghost t = gs@.subrange(0, k + 1);
            let c = self.rt_class("global", "Global", uses);
            let e = self.expr(&gs[k].init, uses);
            let head = cat(cat(cat_dec(to_owned("$self->{g"), (base as u64) + (k as u64)), "} = "), c.as_str());
            w.line(cat(cat(cat(head, "->new("), e.as_str()), ");").as_str());
            proof {
                assert(t.drop_last() =~= gs@.subrange(0, k as int));
                assert(t.last() == gs@[k as int]);
            }
            k = k + 1;
        }
        assert(gs@.subrange(0, gs@.len() as int) =~= gs@);
    }

    fn emit_elem(&self, w: &mut CodeWriter, k: usize, e: &Elem, uses: &mut Vec<String>)
        requires
            items_resolve(*self.module, e.items@),
        ensures
            final(w).text() == old(w).text() + elem_text(*self, old(w).unit(), old(w).depth(), k as nat, *e),
            final(w).depth() == old(w).depth(),
            final(w).unit() == old(w).unit(),
            views(final(uses)@) == views(old(uses)@) + elem_units(*e),
    {
        let slot = cat(cat_dec(to_owned("$self->{elem"), k as u64), "}");
        match &e.kind {
            ElemKind::Declared => {
                assert(views(uses@) + elem_units(*e) =~= views(uses@));
                w.line(cat(slot, " = [];").as_str());
            },
            ElemKind::Passive => {
                assert(views(uses@) + elem_units(*e) =~= views(uses@));
                let its = self.items(&e.items);
                w.line(cat(cat(cat(slot, " = ["), its.as_str()), "];").as_str());
            },
            ElemKind::Active { table_index, offset } => {
                note(uses, to_owned("table/init"));
                let its = self.items(&e.items);
                w.line(cat(cat(cat(to_owned(slot.as_str()), " = ["), its.as_str()), "];").as_str());
                let off = self.expr(offset, uses);
                let head = cat(cat(cat(cat_dec(to_owned("$self->{t"), *table_index as u64), "}->init("), off.as_str()), ", ");
                w.line(cat(cat_dec(cat(cat(head, slot.as_str()), ", 0, "), e.items.len() as u64), ");").as_str());
                w.line(cat(slot, " = [];").as_str());
            },
        }
    }

    fn emit_elems(&self, w: &mut CodeWriter, uses: &mut Vec<String>)
        requires
            forall|k: int| 0 <= k < self.module.elems@.len() ==> items_resolve(*self.module, (#[trigger] self.module.elems@[k]).items@),
        ensures
            final(w).text() == old(w).text() + elems_text(*self, old(w).unit(), old(w).depth(), self.module.elems@),
            final(w).depth() == old(w).depth(),
            final(w).unit() == old(w).unit(),
            views(final(uses)@) == views(old(uses)@) + elems_units(self.module.elems@),
    {
        let ghost t0 = w.text();
        let ghost u0 = views(uses@);
        let es = &self.module.elems;
        let mut k: usize = 0;
        assert(es@.subrange(0, 0) =~= Seq::<Elem>::empty());
        assert(u0 + elems_units(Seq::<Elem>::empty()) =~= u0);
        while k < es.len()
            invariant
                k <= es@.len(),
                es == &self.module.elems,
                forall|j: int| 0 <= j < es@.len() ==> items_resolve(*self.module, (#[trigger] es@[j]).items@),
                w.depth() == old(w).depth(),
                w.unit() == old(w).unit(),
                w.text() == t0 + elems_text(*self, old(w).unit(), old(w).depth(), es@.subrange(0, k as int)),
                views(uses@) == u0 + elems_units(es@.subrange(0, k as int)),
            decreases es@.len() - k,
        {
            let ghost t = es@.subrange(0, k + 1);
            assert(items_resolve(*self.module, es@[k as int].items@));
            self.emit_elem(w, k, &es[k], uses);
            proof {
                assert(t.drop_last() =~= es@.subrange(0, k as int));
                assert(t.last() == es@[k as int]);
            }
            k = k + 1;
        }
        assert(es@.subrange(0, es@.len() as int) =~= es@);
    }

    fn data_expr(&self, k: usize, data: &Vec<u8>) -> (r: String)
        requires
            self.data_file ==> k < self.data_offsets@.len(),
        ensures
            r@ == data_expr_text(*self, k as nat, data@),
    {
        if self.data_file {
            let o = self.data_offsets[k];
            cat(cat_dec(cat(cat_dec(to_owned("substr($DATA_BLOB, "), o as u64), ", "), data.len() as u64), ")")
        } else {
            hex_bytes(data.as_slice())
        }
    }

    #[verifier::spinoff_prover]
    fn emit_datas(&self, w: &mut CodeWriter, uses: &mut Vec<String>)
        requires
            self.data_file ==> self.data_offsets@.len() >= self.module.datas@.len(),
        ensures
            final(w).text() == old(w).text() + datas_text(*self, old(w).unit(), old(w).depth(), self.module.datas@),
            final(w).depth() == old(w).depth(),
            final(w).unit() == old(w).unit(),
            views(final(uses)@) == views(old(uses)@) + datas_units(self.module.datas@),
    {
        let ghost t0 = w.text();
        let ghost u0 = views(uses@);
        let ds = &self.module.datas;
        let mut k: usize = 0;
        assert(ds@.subrange(0, 0) =~= Seq::<Data>::empty());
        assert(u0 + datas_units(Seq::<Data>::empty()) =~= u0);
        while k < ds.len()
            invariant
                k <= ds@.len(),
                ds == &self.module.datas,
                self.data_file ==> self.data_offsets@.len() >= ds@.len(),
                w.depth() == old(w).depth(),
                w.unit() == old(w).unit(),
                w.text() == t0 + datas_text(*self, old(w).unit(), old(w).depth(), ds@.subrange(0, k as int)),
                views(uses@) == u0 + datas_units(ds@.subrange(0, k as int)),
            decreases ds@.len() - k,
        {
            let ghost t = ds@.subrange(0, k + 1);
            let dt = &ds[k];
            match &dt.offset {
                Some(off) => {
                    note(uses, to_owned("memory/init"));
                    let o = self.expr(off, uses);
                    let de = self.data_expr(k, &dt.data);
                    let head = cat(cat(cat(cat(to_owned("$self->{memory}->init("), o.as_str()), ", "), de.as_str()), ", 0, ");
                    w.line(cat(cat_dec(head, dt.data.len() as u64), ");").as_str());
                    w.line(cat(cat_dec(to_owned("$self->{data"), k as u64), "} = '';").as_str());
                },
                None => {
                    let de = self.data_expr(k, &dt.data);
                    w.line(cat(cat(cat(cat_dec(to_owned("$self->{data"), k as u64), "} = "), de.as_str()), ";").as_str());
                },
            }
            proof {
                assert(t.drop_last() =~= ds@.subrange(0, k as int));
                assert(t.last() == ds@[k as int]);
            }
            k = k + 1;
        }
        assert(ds@.subrange(0, ds@.len() as int) =~= ds@);
    }

    fn emit_exports(&self, w: &mut CodeWriter)
        ensures
            final(w).text() == old(w).text() + lt(
                old(w).unit(),
                old(w).depth(),
                "$self->{exports} = {"@ + joined(func_export_entries(*self.module, self.module.exports@)) + "};"@,
            ),
            final(w).depth() == old(w).depth(),
            final(w).unit() == old(w).unit(),
    {
        let es = &self.module.exports;
        let mut parts: Vec<String> = Vec::new();
        let mut k: usize = 0;
        assert(es@.subrange(0, 0) =~= Seq::<Export>::empty());
        while k < es.len()
            invariant
                k <= es@.len(),
                es == &self.module.exports,
                views(parts@) == func_export_entries(*self.module, es@.subrange(0, k as int)),
            decreases es@.len() - k,
        {
            let ghost t = es@.subrange(0, k + 1);
            let ghost before = parts@;
            proof {
                assert(t.drop_last() =~= es@.subrange(0, k as int));
                assert(t.last() == es@[k as int]);
            }
            match &es[k].kind {
                ExportKind::Func(f) => {
                    let qn = perl_string(es[k].name.as_str());
                    let c = self.func_closure(*f);
                    let x = cat(cat(qn, " => "), c.as_str());
                    parts.push(x);
                    assert(views(parts@) =~= views(before).push(x@));
                },
                _ => {},
            }
            k = k + 1;
        }
        assert(es@.subrange(0, es@.len() as int) =~= es@);
        let j = join(&parts);
        w.line(cat(cat(to_owned("$self->{exports} = {"), j.as_str()), "};").as_str());
    }
}

impl<'a> PerlGen<'a> {
    /// Writes the constructor `new`, recording the units it references.
    pub fn initialize(&self, w: &mut CodeWriter, uses: &mut Vec<String>)
        requires
            init_emittable(*self),
            old(w).depth() + 1 < usize::MAX,
        ensures
            final(w).text() == old(w).text() + init_text(*self, old(w).unit(), old(w).depth()),
            final(w).depth() == old(w).depth(),
            final(w).unit() == old(w).unit(),
            views(final(uses)@) == views(old(uses)@) + init_units(*self),
    {
        proof {
            reveal(init_text);
        }
        w.line("sub new {");
        w.indent();
        self.init_first(w, uses);
        self.init_rest(w, uses);
        w.dedent();
        w.line("}");
    }

    #[verifier::spinoff_prover]
    #[verifier::rlimit(100)]
    fn init_first(&self, w: &mut CodeWriter, uses: &mut Vec<String>)
        requires
            init_emittable(*self),
        ensures
            final(w).text() == old(w).text() + init_first_text(*self, old(w).unit(), old(w).depth()),
            final(w).depth() == old(w).depth(),
            final(w).unit() == old(w).unit(),
            views(final(uses)@) == views(old(uses)@) + init_first_units(*self),
    {
        proof {
            reveal(init_first_text);
            reveal(init_first_units);
        }
        w.line("my ($class, $imports) = @_;");
        w.line("$imports = {} unless defined $imports;");
        w.line("my $self = bless({}, $class);");
        self.emit_memory(w, uses);
        self.emit_imports(w, "t", "table", &self.module.imported_tables, uses);
        self.emit_tables(w, uses);
        self.emit_func_imports(w, uses);
    }

    fn init_rest(&self, w: &mut CodeWriter, uses: &mut Vec<String>)
        requires
            init_emittable(*self),
        ensures
            final(w).text() == old(w).text() + init_rest_text(*self, old(w).unit(), old(w).depth()),
            final(w).depth() == old(w).depth(),
            final(w).unit() == old(w).unit(),
            views(final(uses)@) == views(old(uses)@) + init_rest_units(*self),
    {
        proof {
            reveal(init_rest_text);
        }
        self.init_segments(w, uses);
        self.init_tail(w);
    }

    #[verifier::spinoff_prover]
    #[verifier::rlimit(100)]
    fn init_segments(&self, w: &mut CodeWriter, uses: &mut Vec<String>)
        requires
            init_emittable(*self),
        ensures
            final(w).text() == old(w).text() + init_segments_text(*self, old(w).unit(), old(w).depth()),
            final(w).depth() == old(w).depth(),
            final(w).unit() == old(w).unit(),
            views(final(uses)@) == views(old(uses)@) + init_rest_units(*self),
    {
        proof {
            reveal(init_segments_text);
            reveal(init_rest_units);
        }
        self.emit_imports(w, "g", "global", &self.module.imported_globals, uses);
        self.emit_globals(w, uses);
        self.emit_elems(w, uses);
        self.emit_datas(w, uses);
    }

    #[verifier::spinoff_prover]
    fn init_tail(&self, w: &mut CodeWriter)
        ensures
            final(w).text() == old(w).text() + init_tail_text(*self, old(w).unit(), old(w).depth()),
            final(w).depth() == old(w).depth(),
            final(w).unit() == old(w).unit(),
    {
        proof {
            reveal(init_tail_text);
        }
        self.emit_exports(w);
        match self.module.start {
            Some(st) => {
                let empty: Vec<String> = Vec::new();
                assert(views(empty@) =~= Seq::<Seq<char>>::empty());
                let c = self.call_string(st, &empty);
                w.line(cat(c, ";").as_str());
            },
            None => {},
        }
        w.line("return $self;");
    }
}


// ---------------------------------------------------------------------------------------------
// The package.

/// The `invoke` helper method's lines.
#[verifier::opaque]
pub open spec fn helper_invoke_text(g: PerlGen, u: Seq<char>, d: nat) -> Seq<char> {
    lt(u, d, "sub invoke {"@)
        + lt(u, d + 1, "my ($self, $name, @args) = @_;"@)
        + lt(u, d + 1, "return $self->{exports}{$name}->(@args);"@)
        + lt(u, d, "}"@)
        + lt(u, d, ""@)
}

/// The `global_get` helper method's lines.
#[verifier::opaque]
pub open spec fn helper_global_get_text(g: PerlGen, u: Seq<char>, d: nat) -> Seq<char> {
    lt(u, d, "sub global_get {"@)
        + lt(u, d + 1, "my ($self, $name) = @_;"@)
        + lt(u, d + 1, "return $self->{$GLOBAL_EXPORTS{$name}}{value};"@)
        + lt(u, d, "}"@)
        + lt(u, d, ""@)
}

/// The `global_export` helper method's lines.
#[verifier::opaque]
pub open spec fn helper_global_export_text(g: PerlGen, u: Seq<char>, d: nat) -> Seq<char> {
    lt(u, d, "sub global_export {"@)
        + lt(u, d + 1, "my ($self, $name) = @_;"@)
        + lt(u, d + 1, "return $self->{$GLOBAL_EXPORTS{$name}};"@)
        + lt(u, d, "}"@)
        + lt(u, d, ""@)
}

/// The `table_export` helper method's lines.
#[verifier::opaque]
pub open spec fn helper_table_export_text(g: PerlGen, u: Seq<char>, d: nat) -> Seq<char> {
    lt(u, d, "sub table_export {"@)
        + lt(u, d + 1, "my ($self, $name) = @_;"@)
        + lt(u, d + 1, "return $self->{$TABLE_EXPORTS{$name}};"@)
        + lt(u, d, "}"@)
        + lt(u, d, ""@)
}

/// The `wasm_import` helper method's lines.
#[verifier::opaque]
pub open spec fn helper_wasm_import_text(g: PerlGen, u: Seq<char>, d: nat) -> Seq<char> {
    lt(u, d, "sub wasm_import {"@)
        + lt(u, d + 1, "my ($self, $name) = @_;"@)
        + lt(u, d + 1, "return $self->{exports}{$name} if exists $self->{exports}{$name};"@)
        + lt(u, d + 1, "return $self->{$GLOBAL_EXPORTS{$name}} if exists $GLOBAL_EXPORTS{$name};"@)
        + lt(u, d + 1, "return $self->{$TABLE_EXPORTS{$name}} if exists $TABLE_EXPORTS{$name};"@)
        + lt(u, d + 1, "return $self->{memory} if exists $MEMORY_EXPORTS{$name};"@)
        + lt(u, d + 1, "return undef;"@)
        + lt(u, d, "}"@)
        + lt(u, d, ""@)
}

/// The `missing` helper method's lines.
#[verifier::opaque]
pub open spec fn helper_missing_text(g: PerlGen, u: Seq<char>, d: nat) -> Seq<char> {
    lt(u, d, "sub _missing {"@)
        + lt(u, d + 1, "my ($self, $mod, $name) = @_;"@)
        + lt(u, d + 1, rt_text(g.rt_name@, "link_error"@) + "(\"missing import $mod.$name\");"@)
        + lt(u, d, "}"@)
}

/// The instance methods every package has: `invoke`, the export accessors, the import-provider
/// protocol, and the missing-import report.
#[verifier::opaque]
pub open spec fn helpers_text(g: PerlGen, u: Seq<char>, d: nat) -> Seq<char> {
    helper_invoke_text(g, u, d) + helper_global_get_text(g, u, d) + helper_global_export_text(g, u, d) + helper_table_export_text(g, u, d) + helper_wasm_import_text(g, u, d) + helper_missing_text(g, u, d)
}

/// The export-table entries of the exports among `es` of one kind (`kind_of` gives the index an
/// export of that kind names), each mapping the export's name to its slot `prefix<index>`.
pub open spec fn slot_entries(es: Seq<Export>, table: bool) -> Seq<Seq<char>>
    decreases es.len(),
{
    if es.len() == 0 {
        seq![]
    } else {
        let rest = slot_entries(es.drop_last(), table);
        let name = es.last().name@;
        match es.last().kind {
            ExportKind::Global(i) => if !table {
                rest.push(q(name) + " => "@ + q("g"@ + decimal(i as nat)))
            } else {
                rest
            },
            ExportKind::Table(i) => if table {
                rest.push(q(name) + " => "@ + q("t"@ + decimal(i as nat)))
            } else {
                rest
            },
            _ => rest,
        }
    }
}

/// The entries of the exported memories among `es`.
pub open spec fn memory_entries(es: Seq<Export>) -> Seq<Seq<char>>
    decreases es.len(),
{
    if es.len() == 0 {
        seq![]
    } else {
        let rest = memory_entries(es.drop_last());
        match es.last().kind {
            ExportKind::Memory => rest.push(q(es.last().name@) + " => 1"@),
            _ => rest,
        }
    }
}

/// The package's export tables: globals, tables and memories by export name.
#[verifier::opaque]
pub open spec fn constants_text(g: PerlGen, u: Seq<char>, d: nat) -> Seq<char> {
    let es = g.module.exports@;
    lt(u, d, "our %GLOBAL_EXPORTS = ("@ + joined(slot_entries(es, false)) + ");"@) + lt(
        u,
        d,
        "our %TABLE_EXPORTS = ("@ + joined(slot_entries(es, true)) + ");"@,
    ) + lt(u, d, "our %MEMORY_EXPORTS = ("@ + joined(memory_entries(es)) + ");"@)
}

impl<'a> PerlGen<'a> {
    /// Writes the instance methods every package has.
    #[verifier::spinoff_prover]
    fn helpers(&self, w: &mut CodeWriter, uses: &mut Vec<String>)
        requires
            old(w).depth() + 1 < usize::MAX,
        ensures
            final(w).text() == old(w).text() + helpers_text(*self, old(w).unit(), old(w).depth()),
            final(w).depth() == old(w).depth(),
            final(w).unit() == old(w).unit(),
            views(final(uses)@) == views(old(uses)@).push(rt_unit("link_error"@)),
    {
        proof {
            reveal(helpers_text);
        }
        self.helper_invoke(w);
        self.helper_global_get(w);
        self.helper_global_export(w);
        self.helper_table_export(w);
        self.helper_wasm_import(w);
        self.helper_missing(w, uses);
    }

    #[verifier::spinoff_prover]
    #[verifier::rlimit(40)]
    fn helper_invoke(&self, w: &mut CodeWriter)
        requires
            old(w).depth() + 1 < usize::MAX,
        ensures
            final(w).text() == old(w).text() + helper_invoke_text(*self, old(w).unit(), old(w).depth()),
            final(w).depth() == old(w).depth(),
            final(w).unit() == old(w).unit(),
    {
        proof {
            reveal(helper_invoke_text);
        }
        w.line("sub invoke {");
        w.indent();
        w.line("my ($self, $name, @args) = @_;");
        w.line("return $self->{exports}{$name}->(@args);");
        w.dedent();
        w.line("}");
        w.line("");
    }

    #[verifier::spinoff_prover]
    #[verifier::rlimit(40)]
    fn helper_global_get(&self, w: &mut CodeWriter)
        requires
            old(w).depth() + 1 < usize::MAX,
        ensures
            final(w).text() == old(w).text() + helper_global_get_text(*self, old(w).unit(), old(w).depth()),
            final(w).depth() == old(w).depth(),
            final(w).unit() == old(w).unit(),
    {
        proof {
            reveal(helper_global_get_text);
        }
        w.line("sub global_get {");
        w.indent();
        w.line("my ($self, $name) = @_;");
        w.line("return $self->{$GLOBAL_EXPORTS{$name}}{value};");
        w.dedent();
        w.line("}");
        w.line("");
    }

    #[verifier::spinoff_prover]
    #[verifier::rlimit(40)]
    fn helper_global_export(&self, w: &mut CodeWriter)
        requires
            old(w).depth() + 1 < usize::MAX,
        ensures
            final(w).text() == old(w).text() + helper_global_export_text(*self, old(w).unit(), old(w).depth()),
            final(w).depth() == old(w).depth(),
            final(w).unit() == old(w).unit(),
    {
        proof {
            reveal(helper_global_export_text);
        }
        w.line("sub global_export {");
        w.indent();
        w.line("my ($self, $name) = @_;");
        w.line("return $self->{$GLOBAL_EXPORTS{$name}};");
        w.dedent();
        w.line("}");
        w.line("");
    }

    #[verifier::spinoff_prover]
    #[verifier::rlimit(40)]
    fn helper_table_export(&self, w: &mut CodeWriter)
        requires
            old(w).depth() + 1 < usize::MAX,
        ensures
            final(w).text() == old(w).text() + helper_table_export_text(*self, old(w).unit(), old(w).depth()),
            final(w).depth() == old(w).depth(),
            final(w).unit() == old(w).unit(),
    {
        proof {
            reveal(helper_table_export_text);
        }
        w.line("sub table_export {");
        w.indent();
        w.line("my ($self, $name) = @_;");
        w.line("return $self->{$TABLE_EXPORTS{$name}};");
        w.dedent();
        w.line("}");
        w.line("");
    }

    #[verifier::spinoff_prover]
    #[verifier::rlimit(40)]
    fn helper_wasm_import(&self, w: &mut CodeWriter)
        requires
            old(w).depth() + 1 < usize::MAX,
        ensures
            final(w).text() == old(w).text() + helper_wasm_import_text(*self, old(w).unit(), old(w).depth()),
            final(w).depth() == old(w).depth(),
            final(w).unit() == old(w).unit(),
    {
        proof {
            reveal(helper_wasm_import_text);
        }
        w.line("sub wasm_import {");
        w.indent();
        w.line("my ($self, $name) = @_;");
        w.line("return $self->{exports}{$name} if exists $self->{exports}{$name};");
        w.line("return $self->{$GLOBAL_EXPORTS{$name}} if exists $GLOBAL_EXPORTS{$name};");
        w.line("return $self->{$TABLE_EXPORTS{$name}} if exists $TABLE_EXPORTS{$name};");
        w.line("return $self->{memory} if exists $MEMORY_EXPORTS{$name};");
        w.line("return undef;");
        w.dedent();
        w.line("}");
        w.line("");
    }

    #[verifier::spinoff_prover]
    #[verifier::rlimit(40)]
    fn helper_missing(&self, w: &mut CodeWriter, uses: &mut Vec<String>)
        requires
            old(w).depth() + 1 < usize::MAX,
        ensures
            final(w).text() == old(w).text() + helper_missing_text(*self, old(w).unit(), old(w).depth()),
            final(w).depth() == old(w).depth(),
            final(w).unit() == old(w).unit(),
            views(final(uses)@) == views(old(uses)@).push(rt_unit("link_error"@)),
    {
        proof {
            reveal(helper_missing_text);
        }
        w.line("sub _missing {");
        w.indent();
        w.line("my ($self, $mod, $name) = @_;");
        let f = self.rt("link_error", uses);
        w.line(cat(f, "(\"missing import $mod.$name\");").as_str());
        w.dedent();
        w.line("}");
    }

    /// Writes the export tables.
    fn constants(&self, w: &mut CodeWriter)
        ensures
            final(w).text() == old(w).text() + constants_text(*self, old(w).unit(), old(w).depth()),
            final(w).depth() == old(w).depth(),
            final(w).unit() == old(w).unit(),
    {
        proof {
            reveal(constants_text);
        }
        let es = &self.module.exports;
        let mut gl: Vec<String> = Vec::new();
        let mut tb: Vec<String> = Vec::new();
        let mut me: Vec<String> = Vec::new();
        let mut k: usize = 0;
        assert(es@.subrange(0, 0) =~= Seq::<Export>::empty());
        while k < es.len()
            invariant
                k <= es@.len(),
                es == &self.module.exports,
                views(gl@) == slot_entries(es@.subrange(0, k as int), false),
                views(tb@) == slot_entries(es@.subrange(0, k as int), true),
                views(me@) == memory_entries(es@.subrange(0, k as int)),
            decreases es@.len() - k,
        {
            let ghost t = es@.subrange(0, k + 1);
            let ghost (g0, t0, m0) = (gl@, tb@, me@);
            proof {
                assert(t.drop_last() =~= es@.subrange(0, k as int));
                assert(t.last() == es@[k as int]);
            }
            let qn = perl_string(es[k].name.as_str());
            match &es[k].kind {
                ExportKind::Global(i) => {
                    let slot = perl_string(cat_dec(to_owned("g"), *i as u64).as_str());
                    let x = cat(cat(qn, " => "), slot.as_str());
                    gl.push(x);
                    assert(views(gl@) =~= views(g0).push(x@));
                },
                ExportKind::Table(i) => {
                    let slot = perl_string(cat_dec(to_owned("t"), *i as u64).as_str());
                    let x = cat(cat(qn, " => "), slot.as_str());
                    tb.push(x);
                    assert(views(tb@) =~= views(t0).push(x@));
                },
                ExportKind::Memory => {
                    let x = cat(qn, " => 1");
                    me.push(x);
                    assert(views(me@) =~= views(m0).push(x@));
                },
                ExportKind::Func(_) => {},
            }
            k = k + 1;
        }
        assert(es@.subrange(0, es@.len() as int) =~= es@);
        let jg = join(&gl);
        let jt = join(&tb);
        let jm = join(&me);
        w.line(cat(cat(to_owned("our %GLOBAL_EXPORTS = ("), jg.as_str()), ");").as_str());
        w.line(cat(cat(to_owned("our %TABLE_EXPORTS = ("), jt.as_str()), ");").as_str());
        w.line(cat(cat(to_owned("our %MEMORY_EXPORTS = ("), jm.as_str()), ");").as_str());
    }
}

/// The methods for the defined functions `fs`, numbered from `base`, each after a blank line.
pub open spec fn funcs_text(g: PerlGen, u: Seq<char>, d: nat, base: nat, fs: Seq<Func>) -> Seq<char>
    decreases fs.len(),
{
    if fs.len() == 0 {
        seq![]
    } else {
        funcs_text(g, u, d, base, fs.drop_last()) + lt(u, d, ""@) + function_text(
            g,
            u,
            d,
            (base + fs.len() - 1) as u32,
            fs.last(),
        )
    }
}

/// The units the methods for `fs` reference, in order.
pub open spec fn funcs_units(fs: Seq<Func>) -> Seq<Seq<char>>
    decreases fs.len(),
{
    if fs.len() == 0 {
        seq![]
    } else {
        funcs_units(fs.drop_last()) + function_units(fs.last())
    }
}

/// Whether the Perl lowering covers the whole module at depth `d`: the constructor's element
/// segments and data offsets, and every defined function (see [`function_emittable`]).
pub open spec fn package_emittable(g: PerlGen, d: nat) -> bool {
    let m = *g.module;
    &&& init_emittable(g)
    &&& m.imported_funcs@.len() + m.funcs@.len() <= usize::MAX
    &&& d + 2 < usize::MAX
    &&& forall|k: int|
        0 <= k < m.funcs@.len() ==> function_emittable(m, #[trigger] m.funcs@[k]) && d + 1 + 2 * hmax(m.funcs@[k].body@)
            + 4 <= usize::MAX
}

/// The package `name`: its export tables, constructor, helper methods, and a method per defined
/// function.
pub open spec fn package_text(g: PerlGen, u: Seq<char>, d: nat, name: Seq<char>) -> Seq<char> {
    let m = *g.module;
    lt(u, d, "package "@ + name + " {"@) + constants_text(g, u, d + 1) + lt(u, d + 1, ""@) + init_text(g, u, d + 1) + lt(
        u,
        d + 1,
        ""@,
    ) + helpers_text(g, u, d + 1) + funcs_text(g, u, d + 1, m.imported_funcs@.len(), m.funcs@) + lt(u, d, "}"@)
}

/// The units the package references, in order.
pub open spec fn package_units(g: PerlGen) -> Seq<Seq<char>> {
    init_units(g) + seq![rt_unit("link_error"@)] + funcs_units(g.module.funcs@)
}

impl<'a> PerlGen<'a> {
    #[verifier::spinoff_prover]
    fn emit_funcs(&self, w: &mut CodeWriter, uses: &mut Vec<String>)
        requires
            package_emittable(*self, (old(w).depth() - 1) as nat),
            old(w).depth() >= 1,
        ensures
            final(w).text() == old(w).text() + funcs_text(
                *self,
                old(w).unit(),
                old(w).depth(),
                self.module.imported_funcs@.len(),
                self.module.funcs@,
            ),
            final(w).depth() == old(w).depth(),
            final(w).unit() == old(w).unit(),
            views(final(uses)@) == views(old(uses)@) + funcs_units(self.module.funcs@),
    {
        let ghost t0 = w.text();
        let ghost u0 = views(uses@);
        let fs = &self.module.funcs;
        let n = self.module.imported_funcs.len();
        let mut k: usize = 0;
        assert(fs@.subrange(0, 0) =~= Seq::<Func>::empty());
        assert(u0 + funcs_units(Seq::<Func>::empty()) =~= u0);
        while k < fs.len()
            invariant
                k <= fs@.len(),
                fs == &self.module.funcs,
                n == self.module.imported_funcs@.len(),
                old(w).depth() >= 1,
                package_emittable(*self, (old(w).depth() - 1) as nat),
                w.depth() == old(w).depth(),
                w.unit() == old(w).unit(),
                w.text() == t0 + funcs_text(*self, old(w).unit(), old(w).depth(), n as nat, fs@.subrange(0, k as int)),
                views(uses@) == u0 + funcs_units(fs@.subrange(0, k as int)),
            decreases fs@.len() - k,
        {
            let ghost t = fs@.subrange(0, k + 1);
            proof {
                assert(t.drop_last() =~= fs@.subrange(0, k as int));
                assert(t.last() == fs@[k as int]);
                assert(function_emittable(*self.module, fs@[k as int]));
            }
            w.line("");
            let idx = (n + k) as u32;
            self.function(w, idx, &fs[k], uses);
            k = k + 1;
        }
        assert(fs@.subrange(0, fs@.len() as int) =~= fs@);
    }

    /// Writes the package `name`, recording the units it references.
    #[verifier::spinoff_prover]
    pub fn package(&self, w: &mut CodeWriter, name: &str, uses: &mut Vec<String>)
        requires
            package_emittable(*self, old(w).depth()),
        ensures
            final(w).text() == old(w).text() + package_text(*self, old(w).unit(), old(w).depth(), name@),
            final(w).depth() == old(w).depth(),
            final(w).unit() == old(w).unit(),
            views(final(uses)@) == views(old(uses)@) + package_units(*self),
    {
        w.line(cat(cat(to_owned("package "), name), " {").as_str());
        w.indent();
        self.constants(w);
        w.line("");
        self.initialize(w, uses);
        w.line("");
        self.helpers(w, uses);
        self.emit_funcs(w, uses);
        w.dedent();
        w.line("}");
    }
}

// ---------------------------------------------------------------------------------------------
// Generation.

/// The total length of the first `k` data segments of `ds`.
pub open spec fn data_offset(ds: Seq<Data>, k: int) -> int
    decreases k,
{
    if k <= 0 {
        0
    } else {
        data_offset(ds, k - 1) + ds[k - 1].data@.len()
    }
}

/// The runtime package name generated code spells: nested under the package for an embedded
/// runtime, the shared `Rt` otherwise.
pub open spec fn rt_name_for(linkage: RuntimeLinkage, name: Seq<char>) -> Seq<char> {
    match linkage {
        RuntimeLinkage::Embedded => name + "::Rt"@,
        RuntimeLinkage::Alias(_) => "Rt"@,
    }
}

/// An embedded runtime's text: the bundle with its `Rt` package moved under the package `name`.
pub open spec fn nested_runtime(bundle: Seq<char>, name: Seq<char>) -> Seq<char> {
    replace_all(replace_all(bundle, "Rt::"@, name + "::Rt::"@), "package Rt;"@, "package "@ + name + "::Rt;"@) + "package main;\n\n"@
}

/// Whether `g` is the generator for the package `name` of `module`: its runtime name, float texts,
/// bundler, WASI fallback choice, and sidecar offsets.
pub open spec fn gen_for(
    g: PerlGen,
    module: Module,
    name: Seq<char>,
    linkage: RuntimeLinkage,
    default_wasi: bool,
    data_file: bool,
    bundler: RuntimeBundler,
    floats: FloatTexts,
) -> bool {
    &&& *g.module == module
    &&& g.rt_name@ == rt_name_for(linkage, name)
    &&& *g.floats == floats
    &&& *g.bundler == bundler
    &&& g.default_wasi == default_wasi
    &&& g.data_file == data_file
    &&& g.data_offsets@.len() == module.datas@.len()
    &&& forall|k: int| 0 <= k < module.datas@.len() ==> #[trigger] g.data_offsets@[k] == data_offset(module.datas@, k)
}

/// What the package source for `module` starts with: the embedded runtime for the units `uses`
/// (bundled as `cl`, their sorted closure), or the alias of a shared runtime named otherwise
/// than `Rt`.
pub open spec fn runtime_prefix(linkage: RuntimeLinkage, name: Seq<char>, uses: Seq<Seq<char>>, bundler: RuntimeBundler, cl: Seq<Seq<char>>) -> Seq<char> {
    match linkage {
        RuntimeLinkage::Embedded => if uses.len() == 0 {
            seq![]
        } else {
            nested_runtime(bundler.bundle_text(cl, 0), name)
        },
        RuntimeLinkage::Alias(path) => if path@ != "Rt"@ {
            "BEGIN { *Rt:: = \\%"@ + path@ + "::; }\n\n"@
        } else {
            seq![]
        },
    }
}

/// Whether every statement and segment of `module` is one the Perl lowering covers at the top
/// level of a package: see [`package_emittable`].
pub open spec fn module_emittable(module: Module, data_file: bool) -> bool {
    &&& forall|k: int| 0 <= k < module.elems@.len() ==> items_resolve(module, (#[trigger] module.elems@[k]).items@)
    &&& module.imported_tables@.len() + module.tables@.len() <= u64::MAX
    &&& module.imported_globals@.len() + module.globals@.len() <= u64::MAX
    &&& module.imported_funcs@.len() + module.funcs@.len() <= usize::MAX
    &&& data_offset(module.datas@, module.datas@.len() as int) <= usize::MAX
    &&& forall|k: int|
        0 <= k < module.funcs@.len() ==> function_emittable(module, #[trigger] module.funcs@[k]) && 1 + 2 * hmax(
            module.funcs@[k].body@,
        ) + 4 <= usize::MAX
}

proof fn lemma_data_offset_mono(ds: Seq<Data>, j: int, k: int)
    requires
        0 <= j <= k <= ds.len(),
    ensures
        data_offset(ds, j) <= data_offset(ds, k),
    decreases k - j,
{
    if j < k {
        lemma_data_offset_mono(ds, j, k - 1);
    }
}

/// Where each data segment of `ds` starts in the concatenated sidecar blob.
fn data_offsets(ds: &Vec<Data>) -> (r: Vec<usize>)
    requires
        data_offset(ds@, ds@.len() as int) <= usize::MAX,
    ensures
        r@.len() == ds@.len(),
        forall|k: int| 0 <= k < ds@.len() ==> #[trigger] r@[k] == data_offset(ds@, k),
{
    let mut r: Vec<usize> = Vec::new();
    let mut acc: usize = 0;
    let mut k: usize = 0;
    while k < ds.len()
        invariant
            k <= ds@.len(),
            data_offset(ds@, ds@.len() as int) <= usize::MAX,
            acc == data_offset(ds@, k as int),
            r@.len() == k,
            forall|j: int| 0 <= j < k ==> #[trigger] r@[j] == data_offset(ds@, j),
        decreases ds@.len() - k,
    {
        r.push(acc);
        proof {
            lemma_data_offset_mono(ds@, k + 1, ds@.len() as int);
        }
        acc = acc + ds[k].data.len();
        k = k + 1;
    }
    r
}

/// Generates the package `name` for `module`: the package source, preceded by the runtime it
/// needs (embedded, with its `Rt` package moved under `name`, or aliased), and the runtime units
/// it references after the seeds `extra_seeds`. Refused when `module` needs a feature Perl does
/// not support, or when a unit it references has no definition.
pub fn generate_package(
    module: &Module,
    name: &str,
    linkage: &RuntimeLinkage,
    default_wasi: bool,
    extra_seeds: Vec<String>,
    data_file: bool,
    bundler: &RuntimeBundler,
    floats: &FloatTexts,
) -> (r: Result<(String, Vec<String>), BackendError>)
    requires
        bundler.wf(),
        module_emittable(*module, data_file),
    ensures
        module_support_refusal(&PerlBackend, *module) matches Some((f, d)) ==> (r matches Err(
            BackendError::Unsupported { feature, detail },
        ) && feature == f && detail@ == d),
        module_support_refusal(&PerlBackend, *module) is None ==> exists|g: PerlGen|
            #![trigger gen_for(g, *module, name@, *linkage, default_wasi, data_file, *bundler, *floats)]
            {
                let uses = views(extra_seeds@) + package_units(g);
                &&& gen_for(g, *module, name@, *linkage, default_wasi, data_file, *bundler, *floats)
                &&& match r {
                    Ok((src, used)) => views(used@) == uses && exists|cl: Seq<Seq<char>>|
                        #![trigger runtime_prefix(*linkage, name@, uses, *bundler, cl)]
                        (linkage is Embedded && uses.len() > 0 ==> is_sorted_closure(*bundler, uses, cl)) && src@
                            == runtime_prefix(*linkage, name@, uses, *bundler, cl) + package_text(g, "    "@, 0, name@),
                    Err(BackendError::UnknownUnit { id }) => linkage is Embedded && !bundler.known(id@) && bundler.in_closure(
                        uses,
                        id@,
                    ),
                    Err(_) => false,
                }
            },
{
    match check_module_support(&PerlBackend, module) {
        Err(e) => {
            return Err(e);
        },
        Ok(()) => {},
    }
    let offsets = data_offsets(&module.datas);
    let rt_name = match linkage {
        RuntimeLinkage::Embedded => cat(to_owned(name), "::Rt"),
        RuntimeLinkage::Alias(_) => to_owned("Rt"),
    };
    let g = PerlGen { module, rt_name, floats, bundler, default_wasi, data_file, data_offsets: offsets };
    let mut uses = extra_seeds;
    let ghost u0 = views(uses@);
    let mut wb = CodeWriter::new("    ");
    assert(package_emittable(g, 0)) by {
        assert(init_emittable(g));
    }
    g.package(&mut wb, name, &mut uses);
    let body = wb.finish();
    assert(gen_for(g, *module, name@, *linkage, default_wasi, data_file, *bundler, *floats));
    let ghost us = views(uses@);
    assert(us == views(extra_seeds@) + package_units(g));
    let mut out = String::new();
    let ghost mut cl: Seq<Seq<char>> = Seq::empty();
    match linkage {
        RuntimeLinkage::Embedded => {
            if uses.len() > 0 {
                let b = match bundler.bundle(uses.as_slice(), 0) {
                    Ok(b) => b,
                    Err(e) => {
                        return Err(e);
                    },
                };
                proof {
                    cl = choose|c: Seq<Seq<char>>| is_sorted_closure(*bundler, us, c) && b@ == bundler.bundle_text(c, 0);
                    reveal_strlit("Rt::");
                    reveal_strlit("package Rt;");
                }
                let b1 = replace_str(b.as_str(), "Rt::", cat(to_owned(name), "::Rt::").as_str());
                let b2 = replace_str(b1.as_str(), "package Rt;", cat(cat(to_owned("package "), name), "::Rt;").as_str());
                push_str(&mut out, b2.as_str());
                push_str(&mut out, "package main;\n\n");
            }
        },
        RuntimeLinkage::Alias(path) => {
            if !crate::text::str_eq(path.as_str(), "Rt") {
                push_str(&mut out, "BEGIN { *Rt:: = \\%");
                push_str(&mut out, path.as_str());
                push_str(&mut out, "::; }\n\n");
            }
        },
    }
    assert(out@ == runtime_prefix(*linkage, name@, us, *bundler, cl));
    push_str(&mut out, body.as_str());
    assert(linkage is Embedded && us.len() > 0 ==> is_sorted_closure(*bundler, us, cl));
    assert(body@ == package_text(g, "    "@, 0, name@));
    assert(out@ == runtime_prefix(*linkage, name@, us, *bundler, cl) + package_text(g, "    "@, 0, name@));
    Ok((out, uses))
}

/// Generates the package `name` for `module`, its data embedded and no runtime unit seeded: the
/// package source, preceded by the runtime it needs, and the distinct runtime units it
/// references, sorted.
pub fn generate_package_with_units(
    module: &Module,
    name: &str,
    linkage: &RuntimeLinkage,
    default_wasi: bool,
    bundler: &RuntimeBundler,
    floats: &FloatTexts,
) -> (r: Result<(String, Vec<String>), BackendError>)
    requires
        bundler.wf(),
        module_emittable(*module, false),
    ensures
        module_support_refusal(&PerlBackend, *module) matches Some((f, d)) ==> (r matches Err(
            BackendError::Unsupported { feature, detail },
        ) && feature == f && detail@ == d),
        module_support_refusal(&PerlBackend, *module) is None ==> exists|g: PerlGen|
            #![trigger gen_for(g, *module, name@, *linkage, default_wasi, false, *bundler, *floats)]
            {
                let uses = package_units(g);
                &&& gen_for(g, *module, name@, *linkage, default_wasi, false, *bundler, *floats)
                &&& match r {
                    Ok((src, units)) => {
                        &&& strictly_sorted(views(units@))
                        &&& forall|x: Seq<char>| views(units@).contains(x) <==> uses.contains(x)
                        &&& exists|cl: Seq<Seq<char>>|
                            #![trigger runtime_prefix(*linkage, name@, uses, *bundler, cl)]
                            (linkage is Embedded && uses.len() > 0 ==> is_sorted_closure(*bundler, uses, cl)) && src@
                                == runtime_prefix(*linkage, name@, uses, *bundler, cl) + package_text(g, "    "@, 0, name@)
                    },
                    Err(BackendError::UnknownUnit { id }) => linkage is Embedded && !bundler.known(id@) && bundler.in_closure(
                        uses,
                        id@,
                    ),
                    Err(_) => false,
                }
            },
{
    let r = generate_package(module, name, linkage, default_wasi, Vec::new(), false, bundler, floats);
    proof {
        assert forall|g: PerlGen| #[trigger] gen_for(g, *module, name@, *linkage, default_wasi, false, *bundler, *floats)
            implies views(Seq::<String>::empty()) + package_units(g) == package_units(g) by {
            assert(views(Seq::<String>::empty()) + package_units(g) =~= package_units(g));
        }
    }
    match r {
        Ok((src, used)) => {
            let units = sorted_distinct(&used);
            Ok((src, units))
        },
        Err(e) => Err(e),
    }
}

// ---------------------------------------------------------------------------------------------
// The generated script.

/// The prelude that reads the data sidecar `sidecar` into `$DATA_BLOB` at load time.
pub open spec fn blob_prelude_text(sidecar: Seq<char>) -> Seq<char> {
    "use File::Basename ();\nmy $DATA_BLOB = do {\n"@
        + "    open(my $fh, '<:raw', File::Basename::dirname(__FILE__) . '/' . "@
        + (seq!['\''] + perl_escapes(sidecar) + seq!['\''])
        + ") or die \"dewasm: cannot open data sidecar: $!\\n\";\n"@
        + "    local $/;\n    scalar <$fh>;\n};\n"@
}

/// Whether a script for `module` under `opts` reads its data from a sidecar: only when one is
/// configured and the module has data segments.
pub open spec fn uses_sidecar(module: Module, opts: GenOptions) -> bool {
    opts.data_file is Some && module.datas@.len() > 0
}

/// The main program of a standalone script: instantiate the package `pkg`, call `_start`, and
/// turn the runtime `rt`'s exit and trap exceptions into the process status.
pub open spec fn standalone_main_text(pkg: Seq<char>, rt: Seq<char>) -> Seq<char> {
    "\npackage main;\n\nmy $_inst = "@ + pkg + "->new({});\n"@
        + "eval { $_inst->invoke('_start'); };\nif (my $_e = $@) {\n"@
        + "    exit($_e->{code}) if ref($_e) && $_e->isa('"@ + rt + "::Exit');\n"@
        + "    if (ref($_e) && $_e->isa('"@ + rt
        + "::Trap')) { print STDERR \"trap: $_e->{message}\\n\"; exit(134); }\n"@
        + "    die $_e;\n}\nexit(0);\n"@
}

/// The whole script around the package source `src`: the interpreter line and header, the
/// sidecar prelude when there is one, a blank line, the package, then the standalone main or
/// the library's true value.
pub open spec fn script_text(module: Module, opts: GenOptions, pkg: Seq<char>, src: Seq<char>) -> Seq<char> {
    "#!/usr/bin/env perl\n# Generated by dewasm. Do not edit.\n"@
        + (if uses_sidecar(module, opts) {
            blob_prelude_text(opts.data_file->0.sidecar_name@)
        } else {
            seq![]
        })
        + "\n"@
        + src
        + (match opts.mode {
            Mode::Standalone => standalone_main_text(pkg, rt_name_for(opts.runtime, pkg)),
            Mode::Library => "\n1;\n"@,
        })
}

/// Every data segment's bytes, concatenated in segment order.
pub open spec fn blob_spec(ds: Seq<Data>) -> Seq<u8>
    decreases ds.len(),
{
    if ds.len() == 0 {
        seq![]
    } else {
        blob_spec(ds.drop_last()) + ds.last().data@
    }
}

/// The runtime units a script for `mode` seeds its bundle with: a standalone main handles the
/// runtime's exit and trap exceptions.
pub open spec fn mode_seeds(mode: Mode) -> Seq<Seq<char>> {
    match mode {
        Mode::Standalone => seq!["rt/trap"@, "rt/exit"@],
        Mode::Library => seq![],
    }
}

fn blob(ds: &Vec<Data>) -> (r: Vec<u8>)
    ensures
        r@ == blob_spec(ds@),
{
    let mut out: Vec<u8> = Vec::new();
    let mut k: usize = 0;
    while k < ds.len()
        invariant
            k <= ds@.len(),
            out@ == blob_spec(ds@.subrange(0, k as int)),
        decreases ds@.len() - k,
    {
        let bytes = &ds[k].data;
        let ghost start = out@;
        let mut j: usize = 0;
        while j < bytes.len()
            invariant
                j <= bytes@.len(),
                out@ == start + bytes@.subrange(0, j as int),
            decreases bytes@.len() - j,
        {
            out.push(bytes[j]);
            proof {
                assert(bytes@.subrange(0, j + 1) == bytes@.subrange(0, j as int).push(bytes@[j as int]));
            }
            j = j + 1;
        }
        proof {
            let t = ds@.subrange(0, k + 1);
            assert(t.drop_last() == ds@.subrange(0, k as int));
            assert(bytes@.subrange(0, bytes@.len() as int) == bytes@);
        }
        k = k + 1;
    }
    assert(ds@.subrange(0, ds@.len() as int) == ds@);
    out
}

fn seeds_for(mode: Mode) -> (r: Vec<String>)
    ensures
        views(r@) == mode_seeds(mode),
{
    let mut r: Vec<String> = Vec::new();
    match mode {
        Mode::Standalone => {
            r.push(to_owned("rt/trap"));
            r.push(to_owned("rt/exit"));
            assert(views(r@) == seq!["rt/trap"@, "rt/exit"@]);
        },
        Mode::Library => {
            assert(views(r@) == Seq::<Seq<char>>::empty());
        },
    }
    r
}

fn push_blob_prelude(out: &mut String, sidecar: &str)
    ensures
        final(out)@ == old(out)@ + blob_prelude_text(sidecar@),
{
    push_str(out, "use File::Basename ();\nmy $DATA_BLOB = do {\n");
    push_str(out, "    open(my $fh, '<:raw', File::Basename::dirname(__FILE__) . '/' . ");
    let q = perl_string(sidecar);
    push_str(out, q.as_str());
    push_str(out, ") or die \"dewasm: cannot open data sidecar: $!\\n\";\n");
    push_str(out, "    local $/;\n    scalar <$fh>;\n};\n");
}

fn push_standalone_main(out: &mut String, pkg: &str, rt: &str)
    ensures
        final(out)@ == old(out)@ + standalone_main_text(pkg@, rt@),
{
    push_str(out, "\npackage main;\n\nmy $_inst = ");
    push_str(out, pkg);
    push_str(out, "->new({});\n");
    push_str(out, "eval { $_inst->invoke('_start'); };\nif (my $_e = $@) {\n");
    push_str(out, "    exit($_e->{code}) if ref($_e) && $_e->isa('");
    push_str(out, rt);
    push_str(out, "::Exit');\n");
    push_str(out, "    if (ref($_e) && $_e->isa('");
    push_str(out, rt);
    push_str(out, "::Trap')) { print STDERR \"trap: $_e->{message}\\n\"; exit(134); }\n");
    push_str(out, "    die $_e;\n}\nexit(0);\n");
}

fn script(module: &Module, opts: &GenOptions, pkg: &str, src: &str) -> (r: String)
    ensures
        r@ == script_text(*module, *opts, pkg@, src@),
{
    let mut out = String::new();
    push_str(&mut out, "#!/usr/bin/env perl\n# Generated by dewasm. Do not edit.\n");
    let ghost a = out@;
    match &opts.data_file {
        Some(cfg) => {
            if module.datas.len() > 0 {
                push_blob_prelude(&mut out, cfg.sidecar_name.as_str());
            }
        },
        None => {},
    }
    assert(out@ == a + (if uses_sidecar(*module, *opts) {
        blob_prelude_text(opts.data_file->0.sidecar_name@)
    } else {
        seq![]
    }));
    push_str(&mut out, "\n");
    push_str(&mut out, src);
    match opts.mode {
        Mode::Standalone => {
            let rt = match &opts.runtime {
                RuntimeLinkage::Embedded => cat(to_owned(pkg), "::Rt"),
                RuntimeLinkage::Alias(_) => to_owned("Rt"),
            };
            push_standalone_main(&mut out, pkg, rt.as_str());
        },
        Mode::Library => {
            push_str(&mut out, "\n1;\n");
        },
    }
    out
}

/// The package a script for `opts` defines: the library-mode module name verbatim, or the fixed
/// `Program` of a standalone program.
pub open spec fn package_for(opts: GenOptions) -> Seq<char> {
    match opts.mode {
        Mode::Library => opts.module_name@,
        Mode::Standalone => "Program"@,
    }
}

/// Whether `opts` names an invalid library-mode package.
pub open spec fn invalid_library_name(opts: GenOptions) -> bool {
    opts.mode is Library && !is_package_name(opts.module_name@)
}

impl PerlBackend {
    /// Generates the files for `module`: the script (the package, its runtime, and a standalone
    /// main or a library's true value) and, when data segments go to a sidecar, the sidecar with
    /// every segment's bytes. A library's package is its module name, taken verbatim and refused
    /// when it is no Perl package name; a standalone program's is `Program`. Also refused when
    /// `module` needs a feature Perl does not support, or when a runtime unit it references has
    /// no definition.
    pub fn generate(&self, module: &Module, opts: &GenOptions, bundler: &RuntimeBundler, floats: &FloatTexts) -> (r: Result<
        Vec<OutputFile>,
        BackendError,
    >)
        requires
            bundler.wf(),
            module_emittable(*module, opts.data_file is Some),
        ensures
            invalid_library_name(*opts) ==> (r matches Err(BackendError::InvalidModuleName { language, name, grammar })
                && language@ == "perl"@ && name@ == opts.module_name@ && grammar@ == perl_grammar()),
            !invalid_library_name(*opts) ==> (module_support_refusal(&PerlBackend, *module) matches Some((f, d)) ==> (r matches Err(
                BackendError::Unsupported { feature, detail },
            ) && feature == f && detail@ == d)),
            !invalid_library_name(*opts) && module_support_refusal(&PerlBackend, *module) is None ==> exists|g: PerlGen|
                #![trigger gen_for(g, *module, package_for(*opts), opts.runtime, opts.default_wasi, opts.data_file is Some, *bundler, *floats)]
                {
                    let pkg = package_for(*opts);
                    let uses = mode_seeds(opts.mode) + package_units(g);
                    &&& gen_for(g, *module, pkg, opts.runtime, opts.default_wasi, opts.data_file is Some, *bundler, *floats)
                    &&& match r {
                        Ok(files) => exists|cl: Seq<Seq<char>>|
                            #![trigger runtime_prefix(opts.runtime, pkg, uses, *bundler, cl)]
                            {
                                &&& opts.runtime is Embedded && uses.len() > 0 ==> is_sorted_closure(*bundler, uses, cl)
                                &&& files@.len() == if uses_sidecar(*module, *opts) { 2int } else { 1int }
                                &&& files@[0].name@ == opts.module_name@ + ".pl"@
                                &&& files@[0].contents@ == encode_utf8(script_text(*module, *opts, pkg,
                                    runtime_prefix(opts.runtime, pkg, uses, *bundler, cl) + package_text(g, "    "@, 0, pkg)))
                                &&& uses_sidecar(*module, *opts) ==> files@[1].name@ == opts.data_file->0.sidecar_name@
                                    && files@[1].contents@ == blob_spec(module.datas@)
                            },
                        Err(BackendError::UnknownUnit { id }) => opts.runtime is Embedded && !bundler.known(id@)
                            && bundler.in_closure(uses, id@),
                        Err(_) => false,
                    }
                },
    {
        let pkg = match opts.mode {
            Mode::Library => {
                match check_module_name(opts.module_name.as_str()) {
                    Ok(()) => {},
                    Err(e) => {
                        return Err(e);
                    },
                }
                opts.module_name.clone()
            },
            Mode::Standalone => to_owned("Program"),
        };
        assert(pkg@ == package_for(*opts));
        let seeds = seeds_for(opts.mode);
        let data_file = opts.data_file.is_some();
        let (src, _used) = match generate_package(module, pkg.as_str(), &opts.runtime, opts.default_wasi, seeds, data_file, bundler, floats) {
            Ok(p) => p,
            Err(e) => {
                return Err(e);
            },
        };
        let text = script(module, opts, pkg.as_str(), src.as_str());
        let mut files: Vec<OutputFile> = Vec::new();
        files.push(OutputFile { name: cat(opts.module_name.clone(), ".pl"), contents: text.as_str().as_bytes_vec() });
        match &opts.data_file {
            Some(cfg) => {
                if module.datas.len() > 0 {
                    files.push(OutputFile { name: cfg.sidecar_name.clone(), contents: blob(&module.datas) });
                }
            },
            None => {},
        }
        Ok(files)
    }
}

// ---------------------------------------------------------------------------------------------
// Deciding whether a module can be lowered.

/// `v` capped at `cap`.
pub open spec fn capped(v: nat, cap: nat) -> nat {
    if v < cap {
        v
    } else {
        cap
    }
}

fn stmt_height_capped(s: &Stmt, cap: u64) -> (r: u64)
    ensures
        r == capped(height(*s), cap as nat),
    decreases s,
{
    match s {
        Stmt::Block { body, .. } | Stmt::Loop { body, .. } | Stmt::TryTable { body, .. } => {
            let h = stmts_hmax_capped(body.as_slice(), cap);
            if h < cap {
                h + 1
            } else {
                cap
            }
        },
        Stmt::If { then, els, .. } => {
            let a = stmts_hmax_capped(then.as_slice(), cap);
            let b = stmts_hmax_capped(els.as_slice(), cap);
            let h = if a >= b {
                a
            } else {
                b
            };
            if h < cap {
                h + 1
            } else {
                cap
            }
        },
        _ => 0,
    }
}

fn stmts_hmax_capped(stmts: &[Stmt], cap: u64) -> (r: u64)
    ensures
        r == capped(hmax(stmts@), cap as nat),
    decreases stmts@,
{
    let mut i: usize = 0;
    let mut h: u64 = 0;
    while i < stmts.len()
        invariant
            i <= stmts@.len(),
            h == capped(hmax(stmts@.subrange(0, i as int)), cap as nat),
        decreases stmts@.len() - i,
    {
        let x = stmt_height_capped(&stmts[i], cap);
        proof {
            let t = stmts@.subrange(0, i + 1);
            assert(t.drop_last() == stmts@.subrange(0, i as int));
            assert(t.last() == stmts@[i as int]);
        }
        if x > h {
            h = x;
        }
        i = i + 1;
    }
    assert(stmts@.subrange(0, stmts@.len() as int) == stmts@);
    h
}

fn stmt_emittable_exec(m: &Module, s: &Stmt) -> (r: bool)
    ensures
        r == emittable(*m, *s),
    decreases s,
{
    match s {
        Stmt::SourceLine(pos) => (pos.file as usize) < m.debug_files.len(),
        Stmt::CallIndirect { type_idx, .. } => (*type_idx as usize) < m.types.len(),
        Stmt::Throw { .. } | Stmt::ThrowRef { .. } | Stmt::TryTable { .. } => false,
        Stmt::Block { body, .. } | Stmt::Loop { body, .. } => stmts_emittable(m, body.as_slice()),
        Stmt::If { then, els, .. } => stmts_emittable(m, then.as_slice()) && stmts_emittable(m, els.as_slice()),
        _ => true,
    }
}

/// Whether every statement of `stmts` is one the Perl lowering covers.
pub fn stmts_emittable(m: &Module, stmts: &[Stmt]) -> (r: bool)
    ensures
        r == seq_emittable(*m, stmts@),
    decreases stmts@,
{
    let mut i: usize = 0;
    let mut ok = true;
    while i < stmts.len()
        invariant
            i <= stmts@.len(),
            ok == seq_emittable(*m, stmts@.subrange(0, i as int)),
        decreases stmts@.len() - i,
    {
        let e = stmt_emittable_exec(m, &stmts[i]);
        proof {
            let t = stmts@.subrange(0, i + 1);
            assert(t.drop_last() == stmts@.subrange(0, i as int));
            assert(t.last() == stmts@[i as int]);
        }
        ok = ok && e;
        i = i + 1;
    }
    assert(stmts@.subrange(0, stmts@.len() as int) == stmts@);
    ok
}

fn func_resolves_exec(m: &Module, f: u32) -> (r: bool)
    ensures
        r == func_resolves(*m, f),
{
    let n = m.imported_funcs.len();
    if (f as usize) < n {
        (m.imported_funcs[f as usize].type_idx as usize) < m.types.len()
    } else if (f as usize) - n < m.funcs.len() {
        (m.funcs[(f as usize) - n].type_idx as usize) < m.types.len()
    } else {
        false
    }
}

fn items_resolve_exec(m: &Module, its: &Vec<ElemItem>) -> (r: bool)
    ensures
        r == items_resolve(*m, its@),
{
    let mut i: usize = 0;
    while i < its.len()
        invariant
            i <= its@.len(),
            forall|k: int| 0 <= k < i ==> (#[trigger] its@[k] matches ElemItem::Func(f) ==> func_resolves(*m, f)),
        decreases its@.len() - i,
    {
        match its[i] {
            ElemItem::Func(f) => {
                if !func_resolves_exec(m, f) {
                    assert(!(its@[i as int] matches ElemItem::Func(f) ==> func_resolves(*m, f)));
                    return false;
                }
            },
            _ => {},
        }
        i = i + 1;
    }
    true
}

/// Whether the Perl lowering covers `module`, with its data segments in a sidecar when
/// `data_file`: every element item resolves, every function's statements are covered, and the
/// module's counts, nesting and data fit the machine.
pub fn perl_emittable(m: &Module, data_file: bool) -> (r: bool)
    ensures
        r == module_emittable(*m, data_file),
{
    let mut k: usize = 0;
    while k < m.elems.len()
        invariant
            k <= m.elems@.len(),
            forall|j: int| 0 <= j < k ==> items_resolve(*m, (#[trigger] m.elems@[j]).items@),
        decreases m.elems@.len() - k,
    {
        if !items_resolve_exec(m, &m.elems[k].items) {
            assert(!items_resolve(*m, m.elems@[k as int].items@));
            return false;
        }
        k = k + 1;
    }
    if m.imported_tables.len() as u128 + m.tables.len() as u128 > u64::MAX as u128 {
        return false;
    }
    if m.imported_globals.len() as u128 + m.globals.len() as u128 > u64::MAX as u128 {
        return false;
    }
    if m.imported_funcs.len() as u128 + m.funcs.len() as u128 > usize::MAX as u128 {
        return false;
    }
    let mut acc: usize = 0;
    let mut d: usize = 0;
    while d < m.datas.len()
        invariant
            d <= m.datas@.len(),
            acc == data_offset(m.datas@, d as int),
        decreases m.datas@.len() - d,
    {
        let n = m.datas[d].data.len();
        if acc > usize::MAX - n {
            proof {
                assert(data_offset(m.datas@, d + 1) == acc + n);
                lemma_data_offset_mono(m.datas@, d + 1, m.datas@.len() as int);
            }
            return false;
        }
        acc = acc + n;
        d = d + 1;
    }
    let mut f: usize = 0;
    while f < m.funcs.len()
        invariant
            f <= m.funcs@.len(),
            forall|j: int|
                0 <= j < f ==> function_emittable(*m, #[trigger] m.funcs@[j]) && 1 + 2 * hmax(m.funcs@[j].body@) + 4
                    <= usize::MAX,
        decreases m.funcs@.len() - f,
    {
        let func = &m.funcs[f];
        if (func.type_idx as usize) >= m.types.len() {
            assert(!function_emittable(*m, m.funcs@[f as int]));
            return false;
        }
        if !stmts_emittable(m, func.body.as_slice()) {
            assert(!function_emittable(*m, m.funcs@[f as int]));
            return false;
        }
        if m.types[func.type_idx as usize].params.len() as u128 + func.locals.len() as u128 > u64::MAX as u128 {
            return false;
        }
        let cap: u64 = ((usize::MAX - 5) / 2) as u64 + 1;
        let h = stmts_hmax_capped(func.body.as_slice(), cap);
        if h >= cap {
            return false;
        }
        f = f + 1;
    }
    true
}
// ---------------------------------------------------------------------------------------------
// What the inline integer operators compute.

/// What Perl's integer operator spelled `sym` gives on the non-negative integers `x` and `y`
/// (below 2^64): `+`, `-`, the bitwise `&`, `|`, `^`, and the comparisons as 1 or 0; `None`
/// for any other spelling.
pub open spec fn perl_int_op(sym: Seq<char>, x: int, y: int) -> Option<int> {
    if sym.len() == 1 {
        if sym[0] == '+' {
            Some(x + y)
        } else if sym[0] == '-' {
            Some(x - y)
        } else if sym[0] == '&' {
            Some(((x as u64) & (y as u64)) as int)
        } else if sym[0] == '|' {
            Some(((x as u64) | (y as u64)) as int)
        } else if sym[0] == '^' {
            Some(((x as u64) ^ (y as u64)) as int)
        } else if sym[0] == '<' {
            Some(if x < y { 1 } else { 0 })
        } else if sym[0] == '>' {
            Some(if x > y { 1 } else { 0 })
        } else {
            None
        }
    } else if sym.len() == 2 && sym[1] == '=' {
        if sym[0] == '=' {
            Some(if x == y { 1 } else { 0 })
        } else if sym[0] == '!' {
            Some(if x != y { 1 } else { 0 })
        } else if sym[0] == '<' {
            Some(if x <= y { 1 } else { 0 })
        } else if sym[0] == '>' {
            Some(if x >= y { 1 } else { 0 })
        } else {
            None
        }
    } else {
        None
    }
}

/// The value Perl computes for a binary shape that calls no helper, `pre a mid b post`, on
/// operand values `x` and `y`: `mid` is `) op (`; the operator's result is masked to 32 bits
/// by `(((` … `)) & 0xFFFFFFFF)`, taken as is by `((` … `))`, or turned into 1 or 0 by `((` …
/// `) ? 1 : 0)`. `None` for a shape that calls a helper or has another form.
pub open spec fn perl_inline_value(
    shape: (Option<&'static str>, Option<&'static str>, Option<&'static str>, &'static str, &'static str, &'static str),
    x: int,
    y: int,
) -> Option<int> {
    let (o, p, e, pre, mid, post) = shape;
    let m = mid@;
    if o is Some || p is Some || e is Some || m.len() < 5 || m[0] != ')' || m[1] != ' ' || m[m.len() - 2] != ' '
        || m[m.len() - 1] != '(' {
        None
    } else {
        match perl_int_op(m.subrange(2, m.len() - 2), x, y) {
            None => None,
            Some(v) => if pre@ == "((("@ && post@ == ")) & 0xFFFFFFFF)"@ {
                Some(v % 0x1_0000_0000)
            } else if pre@ == "(("@ && post@ == "))"@ {
                Some(v)
            } else if pre@ == "(("@ && post@ == ") ? 1 : 0)"@ {
                Some(if v != 0 { 1int } else { 0int })
            } else {
                None
            },
        }
    }
}

/// The value Perl computes for a shift shape `pre a mid b post` with no helper: `mid` is
/// `) << ((` or `) >> ((`, the count `b` is masked by `) & 31)` or `) & 63)`, and a left shift,
/// which Perl computes on 64-bit unsigned integers, is masked back to 32 bits by
/// `) & 0xFFFFFFFF)` (or to 64 by `) & 0xFFFFFFFFFFFFFFFF)`). `None` for another form.
pub open spec fn perl_shift_value(
    shape: (Option<&'static str>, Option<&'static str>, Option<&'static str>, &'static str, &'static str, &'static str),
    x: int,
    y: int,
) -> Option<int> {
    let (o, p, e, pre, mid, post) = shape;
    let count_mask: Option<u64> = if post@ == ") & 31)) & 0xFFFFFFFF)"@ || post@ == ") & 31))"@ {
        Some(31)
    } else if post@ == ") & 63)) & 0xFFFFFFFFFFFFFFFF)"@ || post@ == ") & 63))"@ {
        Some(63)
    } else {
        None
    };
    let result_mod: int = if post@ == ") & 31)) & 0xFFFFFFFF)"@ {
        0x1_0000_0000
    } else {
        0x1_0000_0000_0000_0000
    };
    let masked = post@ == ") & 31)) & 0xFFFFFFFF)"@ || post@ == ") & 63)) & 0xFFFFFFFFFFFFFFFF)"@;
    if o is Some || p is Some || e is Some || count_mask is None || (masked && pre@ != "((("@) || (!masked && pre@
        != "(("@) {
        None
    } else {
        let c = ((y as u64) & count_mask->0) as nat;
        if mid@ == ") << (("@ {
            Some(((x * pow2(c)) % 0x1_0000_0000_0000_0000) % result_mod)
        } else if mid@ == ") >> (("@ && !masked {
            Some(x / (pow2(c) as int))
        } else {
            None
        }
    }
}

/// The value Perl computes for a signed comparison shape `(h(a) op h(b) ? 1 : 0)`, where the
/// helper `h` is `s32` or `s64`, reading a stored pattern as its two's complement value.
pub open spec fn perl_signed_compare_value(
    shape: (Option<&'static str>, Option<&'static str>, Option<&'static str>, &'static str, &'static str, &'static str),
    x: int,
    y: int,
) -> Option<int> {
    let (o, p, e, pre, mid, post) = shape;
    let m = mid@;
    let bits: nat = match e {
        Some(h) => if h@ == "s32"@ {
            32
        } else if h@ == "s64"@ {
            64
        } else {
            0
        },
        None => 0,
    };
    if o is Some || p is Some || bits == 0 || pre@ != "("@ || post@ != " ? 1 : 0)"@ || m.len() < 3 || m[0] != ' '
        || m[m.len() - 1] != ' ' {
        None
    } else {
        match perl_int_op(m.subrange(1, m.len() - 1), signed_reading(x, bits), signed_reading(y, bits)) {
            None => None,
            Some(v) => Some(if v != 0 { 1int } else { 0int }),
        }
    }
}

/// The value Perl computes for any of the binary shapes above, on operand values `x`, `y`.
pub open spec fn perl_bin_value(
    shape: (Option<&'static str>, Option<&'static str>, Option<&'static str>, &'static str, &'static str, &'static str),
    x: int,
    y: int,
) -> Option<int> {
    if perl_inline_value(shape, x, y) is Some {
        perl_inline_value(shape, x, y)
    } else if perl_shift_value(shape, x, y) is Some {
        perl_shift_value(shape, x, y)
    } else {
        perl_signed_compare_value(shape, x, y)
    }
}

/// The width of the integer operations Perl spells without an arithmetic helper: i32 `add` and
/// `sub`, the bitwise operators, `shl` and `shr_u`, and every integer comparison, of both
/// widths where wasm has them.
pub open spec fn inline_int_width(op: BinOp) -> Option<nat> {
    match op {
        BinOp::I32Add | BinOp::I32Sub | BinOp::I32And | BinOp::I32Or | BinOp::I32Xor | BinOp::I32Shl
        | BinOp::I32ShrU => Some(32),
        BinOp::I64And | BinOp::I64Or | BinOp::I64Xor | BinOp::I64Shl | BinOp::I64ShrU => Some(64),
        _ => int_compare_width(op),
    }
}

/// The wasm result of `op` on the stored operand values `x` and `y`.
pub open spec fn wasm_int_result(op: BinOp, x: int, y: int) -> int {
    match op {
        BinOp::I32Add => (x + y) % 0x1_0000_0000,
        BinOp::I32Sub => (x - y) % 0x1_0000_0000,
        BinOp::I32And | BinOp::I64And => ((x as u64) & (y as u64)) as int,
        BinOp::I32Or | BinOp::I64Or => ((x as u64) | (y as u64)) as int,
        BinOp::I32Xor | BinOp::I64Xor => ((x as u64) ^ (y as u64)) as int,
        BinOp::I32Shl => (x * pow2((y % 32) as nat)) % 0x1_0000_0000,
        BinOp::I64Shl => (x * pow2((y % 64) as nat)) % 0x1_0000_0000_0000_0000,
        BinOp::I32ShrU => x / (pow2((y % 32) as nat) as int),
        BinOp::I64ShrU => x / (pow2((y % 64) as nat) as int),
        _ => if wasm_compares(op, x, y) {
            1
        } else {
            0
        },
    }
}

/// Every integer operation Perl spells without an arithmetic helper computes what wasm
/// computes: its operator, count and result masks and boolean conversion, as Perl evaluates
/// them, give the wasm result for every pair of stored operand values.
pub proof fn law_perl_inline_ops_compute_wasm(op: BinOp, x: int, y: int)
    requires
        inline_int_width(op) is Some,
        0 <= x < pow2(inline_int_width(op)->0),
        0 <= y < pow2(inline_int_width(op)->0),
    ensures
        perl_bin_value(bin_shape_spec(op), x, y) == Some(wasm_int_result(op, x, y)),
{
    if op == BinOp::I32Shl || op == BinOp::I32ShrU || op == BinOp::I64Shl || op == BinOp::I64ShrU {
        lemma_perl_shift(op, x, y);
    } else {
        lemma_perl_non_shift(op, x, y);
    }
}

proof fn lemma_perl_non_shift(op: BinOp, x: int, y: int)
    requires
        inline_int_width(op) is Some,
        !(op == BinOp::I32Shl || op == BinOp::I32ShrU || op == BinOp::I64Shl || op == BinOp::I64ShrU),
        0 <= x < pow2(inline_int_width(op)->0),
        0 <= y < pow2(inline_int_width(op)->0),
    ensures
        perl_bin_value(bin_shape_spec(op), x, y) == Some(wasm_int_result(op, x, y)),
{
    assert(inline_int_width(op) == Some(32nat) || inline_int_width(op) == Some(64nat));
    lemma2_to64();

    reveal_strlit("(((");
    reveal_strlit("((");
    reveal_strlit("(");
    reveal_strlit(")) & 0xFFFFFFFF)");
    reveal_strlit("))");
    reveal_strlit(") ? 1 : 0)");
    reveal_strlit(" ? 1 : 0)");
    reveal_strlit(") & 31)) & 0xFFFFFFFF)");
    reveal_strlit(") & 31))");
    reveal_strlit(") & 63)) & 0xFFFFFFFFFFFFFFFF)");
    reveal_strlit(") & 63))");
    reveal_strlit(") << ((");
    reveal_strlit(") >> ((");
    reveal_strlit("s32");
    reveal_strlit("s64");
    reveal_strlit(") + (");
    reveal_strlit(") - (");
    reveal_strlit(") & (");
    reveal_strlit(") | (");
    reveal_strlit(") ^ (");
    reveal_strlit(") == (");
    reveal_strlit(") != (");
    reveal_strlit(") < (");
    reveal_strlit(") > (");
    reveal_strlit(") <= (");
    reveal_strlit(") >= (");
    reveal_strlit(" < ");
    reveal_strlit(" > ");
    reveal_strlit(" <= ");
    reveal_strlit(" >= ");
    let (o, p, e, pre, mid, post) = bin_shape_spec(op);
    let m = mid@;
    match op {
        BinOp::I32LtS | BinOp::I32GtS | BinOp::I32LeS | BinOp::I32GeS | BinOp::I64LtS | BinOp::I64GtS
        | BinOp::I64LeS | BinOp::I64GeS => {
            assert(m.len() >= 3 && m[0] == ' ' && m[m.len() - 1] == ' ');
            let sym = m.subrange(1, m.len() - 1);
            assert(sym[0] == m[1]);
            if m.len() == 4 {
                assert(sym[1] == m[2]);
            }
            assert("s32"@[1] == '3' && "s64"@[1] == '6');
            assert(" ? 1 : 0)"@.len() == 9 && "("@.len() == 1);
            assert(perl_inline_value(bin_shape_spec(op), x, y) is None);
            assert(perl_shift_value(bin_shape_spec(op), x, y) is None);
            let bits: nat = if op == BinOp::I32LtS || op == BinOp::I32GtS || op == BinOp::I32LeS || op == BinOp::I32GeS {
                32
            } else {
                64
            };
            assert(e is Some);
            assert(o is None && p is None && pre@ == "("@ && post@ == " ? 1 : 0)"@);
            assert(bits == 32 ==> (e->0)@ == "s32"@);
            assert(bits == 64 ==> (e->0)@ == "s64"@);
            let sx = signed_reading(x, bits);
            let sy = signed_reading(y, bits);
            assert(perl_int_op(sym, sx, sy) == Some(if wasm_compares(op, x, y) { 1int } else { 0int }));
            assert(perl_signed_compare_value(bin_shape_spec(op), x, y) == Some(if wasm_compares(op, x, y) { 1int } else { 0int }));
            assert(perl_bin_value(bin_shape_spec(op), x, y) == perl_signed_compare_value(bin_shape_spec(op), x, y));
            assert(wasm_int_result(op, x, y) == (if wasm_compares(op, x, y) { 1int } else { 0int }));
            assert(perl_bin_value(bin_shape_spec(op), x, y) == Some(wasm_int_result(op, x, y)));
        },
        _ => {
            assert(m.len() >= 5 && m[0] == ')' && m[1] == ' ' && m[m.len() - 2] == ' ' && m[m.len() - 1] == '(');
            let sym = m.subrange(2, m.len() - 2);
            assert(sym.len() == m.len() - 4);
            assert(sym[0] == m[2]);
            if m.len() == 6 {
                assert(sym[1] == m[3]);
            }
            assert("((("@.len() == 3 && "(("@.len() == 2);
            assert(")) & 0xFFFFFFFF)"@.len() == 16 && "))"@.len() == 2 && ") ? 1 : 0)"@.len() == 10);
            assert(perl_inline_value(bin_shape_spec(op), x, y) == Some(wasm_int_result(op, x, y)));
        },
    }
}


proof fn lemma_perl_shift(op: BinOp, x: int, y: int)
    requires
        op == BinOp::I32Shl || op == BinOp::I32ShrU || op == BinOp::I64Shl || op == BinOp::I64ShrU,
        0 <= x < pow2(inline_int_width(op)->0),
        0 <= y < pow2(inline_int_width(op)->0),
    ensures
        perl_bin_value(bin_shape_spec(op), x, y) == Some(wasm_int_result(op, x, y)),
{
    lemma2_to64();

    reveal_strlit("(((");
    reveal_strlit("((");
    reveal_strlit("(");
    reveal_strlit(")) & 0xFFFFFFFF)");
    reveal_strlit("))");
    reveal_strlit(") ? 1 : 0)");
    reveal_strlit(" ? 1 : 0)");
    reveal_strlit(") & 31)) & 0xFFFFFFFF)");
    reveal_strlit(") & 31))");
    reveal_strlit(") & 63)) & 0xFFFFFFFFFFFFFFFF)");
    reveal_strlit(") & 63))");
    reveal_strlit(") << ((");
    reveal_strlit(") >> ((");
    reveal_strlit("s32");
    reveal_strlit("s64");
    reveal_strlit(") + (");
    reveal_strlit(") - (");
    reveal_strlit(") & (");
    reveal_strlit(") | (");
    reveal_strlit(") ^ (");
    reveal_strlit(") == (");
    reveal_strlit(") != (");
    reveal_strlit(") < (");
    reveal_strlit(") > (");
    reveal_strlit(") <= (");
    reveal_strlit(") >= (");
    reveal_strlit(" < ");
    reveal_strlit(" > ");
    reveal_strlit(" <= ");
    reveal_strlit(" >= ");
    let yy = y as u64;
    assert(yy & 31 == yy % 32) by (bit_vector);
    assert(yy & 63 == yy % 64) by (bit_vector);
    assert(")) & 0xFFFFFFFF)"@.len() == 16 && "))"@.len() == 2 && ") ? 1 : 0)"@.len() == 10);
    assert(") & 31)) & 0xFFFFFFFF)"@.len() == 22 && ") & 31))"@.len() == 8);
    assert(") & 63)) & 0xFFFFFFFFFFFFFFFF)"@.len() == 30 && ") & 63))"@.len() == 8);
    assert(") & 31))"@[4] == '3' && ") & 63))"@[4] == '6');
    assert("((("@.len() == 3 && "(("@.len() == 2);
    assert(") << (("@[2] == '<' && ") >> (("@[2] == '>');
    let (o, p, e, pre, mid, post) = bin_shape_spec(op);
    assert(mid@[mid@.len() - 2] == '(');
    assert(perl_inline_value(bin_shape_spec(op), x, y) is None);
    let c: nat = if op == BinOp::I32Shl || op == BinOp::I32ShrU {
        (y % 32) as nat
    } else {
        (y % 64) as nat
    };
    vstd::arithmetic::power2::lemma_pow2_pos(c);
    assert(x * pow2(c) >= 0) by (nonlinear_arith)
        requires
            x >= 0,
            pow2(c) > 0,
    ;
    if op == BinOp::I32Shl {
        vstd::arithmetic::div_mod::lemma_mod_mod(x * pow2(c), 0x1_0000_0000, 0x1_0000_0000);
        assert(perl_shift_value(bin_shape_spec(op), x, y) == Some(((x * pow2(c)) % 0x1_0000_0000_0000_0000)
            % 0x1_0000_0000));
    } else if op == BinOp::I64Shl {
        vstd::arithmetic::div_mod::lemma_mod_twice(x * pow2(c), 0x1_0000_0000_0000_0000);
        assert(perl_shift_value(bin_shape_spec(op), x, y) == Some(((x * pow2(c)) % 0x1_0000_0000_0000_0000)
            % 0x1_0000_0000_0000_0000));
    } else {
        assert(perl_shift_value(bin_shape_spec(op), x, y) == Some(x / (pow2(c) as int)));
    }
}

/// The value Perl computes for a unary shape that calls no helper, `pre a post`, on the operand
/// value `x`: `((` … `) == 0 ? 1 : 0)` tests for zero, `((` … `) & 0xFFFFFFFF)` keeps the low 32
/// bits, and an empty `pre` and `post` pass the value through. `None` for another form.
pub open spec fn perl_un_value(shape: (Option<&'static str>, &'static str, Option<&'static str>, &'static str), x: int) -> Option<
    int,
> {
    let (o, pre, i, post) = shape;
    if o is Some || i is Some {
        None
    } else if pre@ == "(("@ && post@ == ") == 0 ? 1 : 0)"@ {
        Some(if x == 0 { 1int } else { 0int })
    } else if pre@ == "(("@ && post@ == ") & 0xFFFFFFFF)"@ {
        Some(x % 0x1_0000_0000)
    } else if pre@.len() == 0 && post@.len() == 0 {
        Some(x)
    } else {
        None
    }
}

/// The width of the operand of the unary integer operations Perl spells without a helper:
/// `eqz` of both widths, the i64-to-i32 wrap and the i32-to-i64 zero extension.
pub open spec fn inline_un_width(op: UnOp) -> Option<nat> {
    match op {
        UnOp::I32Eqz | UnOp::I64ExtendI32U => Some(32),
        UnOp::I64Eqz | UnOp::I32WrapI64 => Some(64),
        _ => None,
    }
}

/// The wasm result of the unary `op` on the stored operand value `x`.
pub open spec fn wasm_un_result(op: UnOp, x: int) -> int {
    match op {
        UnOp::I32Eqz | UnOp::I64Eqz => if x == 0 { 1 } else { 0 },
        UnOp::I32WrapI64 => x % 0x1_0000_0000,
        _ => x,
    }
}

/// Every unary integer operation Perl spells without a helper computes what wasm computes on
/// every stored operand value: `eqz` answers 1 exactly on zero, the wrap keeps the low 32 bits
/// and the zero extension keeps the value.
pub proof fn law_perl_inline_unary_ops_compute_wasm(op: UnOp, x: int)
    requires
        inline_un_width(op) is Some,
        0 <= x < pow2(inline_un_width(op)->0),
    ensures
        perl_un_value(un_shape_spec(op), x) == Some(wasm_un_result(op, x)),
{
    reveal_strlit("((");
    reveal_strlit("");
    reveal_strlit(") == 0 ? 1 : 0)");
    reveal_strlit(") & 0xFFFFFFFF)");
    assert("(("@.len() == 2 && ""@.len() == 0);
    assert(") == 0 ? 1 : 0)"@.len() == 15 && ") & 0xFFFFFFFF)"@.len() == 15 && ") == 0 ? 1 : 0)"@[2] == '='
        && ") & 0xFFFFFFFF)"@[2] == '&');
}

} // verus!
