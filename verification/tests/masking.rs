use dewasm_backend::ir::{BinOp, Expr, LoadOp, UnOp};
use dewasm_backend::masking::{
    bin_operand_context, elides_mask, eq_const_rewrite, fold_and_chain, shift_count_mode, un_operand_context,
    MaskContext, ShiftCountMode,
};

const LIMIT: i128 = 1 << 62;

fn local(idx: u32) -> Expr {
    Expr::LocalGet(idx)
}

fn bin(op: BinOp, a: Expr, b: Expr) -> Expr {
    Expr::Bin(op, Box::new(a), Box::new(b))
}

fn load8u() -> Expr {
    Expr::Load { op: LoadOp::I64Load8U, addr: Box::new(local(0)), offset: 0 }
}

fn elides_modular(e: &Expr) -> bool {
    elides_mask(e, MaskContext::Modular, LIMIT)
}

#[test]
fn i32_add_and_sub_of_full_range_operands_elide() {
    assert!(elides_modular(&bin(BinOp::I32Add, local(0), local(1))));
    assert!(elides_modular(&bin(BinOp::I32Sub, local(0), local(1))));
}

#[test]
fn i32_mul_of_full_range_operands_keeps_its_mask() {
    assert!(!elides_modular(&bin(BinOp::I32Mul, local(0), local(1))));
}

#[test]
fn i32_mul_of_narrowed_operands_elides() {
    let byte = |idx| bin(BinOp::I32And, local(idx), Expr::I32Const(0xff));
    assert!(elides_modular(&bin(BinOp::I32Mul, byte(0), byte(1))));
}

#[test]
fn and_bounds_by_a_non_negative_operand_alone() {
    let byte_of_diff = |i, j| bin(BinOp::I32And, bin(BinOp::I32Sub, local(i), local(j)), Expr::I32Const(0xff));
    assert!(elides_modular(&bin(BinOp::I32Mul, byte_of_diff(0, 1), byte_of_diff(2, 3))));
}

#[test]
fn i32_shr_s_always_elides() {
    assert!(elides_modular(&bin(BinOp::I32ShrS, local(0), local(1))));
}

#[test]
fn shl_elides_only_under_a_small_count_or_operand() {
    assert!(!elides_modular(&bin(BinOp::I32Shl, local(0), local(1))));
    assert!(elides_modular(&bin(BinOp::I32Shl, local(0), Expr::I32Const(4))));
}

#[test]
fn wrap_elides_only_for_a_narrow_i64() {
    let wrap = |e: Expr| Expr::Un(UnOp::I32WrapI64, Box::new(e));
    assert!(!elides_modular(&wrap(local(0))));
    assert!(elides_modular(&wrap(load8u())));
    assert!(elides_modular(&wrap(bin(BinOp::I64ShrU, local(0), Expr::I64Const(32)))));
}

#[test]
fn i64_arithmetic_elides_only_with_provably_narrow_operands() {
    assert!(!elides_modular(&bin(BinOp::I64Add, local(0), local(1))));
    assert!(!elides_modular(&bin(BinOp::I64ShrS, local(0), local(1))));
    assert!(elides_modular(&bin(BinOp::I64Add, load8u(), Expr::I64Const(1))));
}

#[test]
fn nested_elision_bounds_compose() {
    let inner = bin(BinOp::I32Add, local(0), local(1));
    assert!(elides_modular(&bin(BinOp::I32Add, inner, local(2))));
    let inner = bin(BinOp::I32Add, local(0), local(1));
    assert!(!elides_modular(&bin(BinOp::I32Mul, inner, local(2))));
}

#[test]
fn shift_count_folds_a_constant_reduced_modulo_the_width() {
    assert_eq!(shift_count_mode(&Expr::I32Const(2), 32, LIMIT), ShiftCountMode::Constant(2));
    assert_eq!(shift_count_mode(&Expr::I32Const(32), 32, LIMIT), ShiftCountMode::Constant(0));
    assert_eq!(shift_count_mode(&Expr::I64Const(32), 64, LIMIT), ShiftCountMode::Constant(32));
    assert_eq!(shift_count_mode(&Expr::I64Const(63), 64, LIMIT), ShiftCountMode::Constant(63));
    assert_eq!(shift_count_mode(&Expr::I32Const(-3i32 as u32), 32, LIMIT), ShiftCountMode::Constant(29));
}

#[test]
fn shift_count_drops_the_reduction_only_for_a_provably_in_range_count() {
    assert_eq!(shift_count_mode(&bin(BinOp::I64And, local(0), Expr::I64Const(63)), 64, LIMIT), ShiftCountMode::InRange);
    assert_eq!(shift_count_mode(&local(0), 64, LIMIT), ShiftCountMode::Masked);
    assert_eq!(shift_count_mode(&Expr::Un(UnOp::I32Clz, Box::new(local(0))), 32, LIMIT), ShiftCountMode::Masked);
    assert_eq!(shift_count_mode(&bin(BinOp::I32Sub, local(0), local(1)), 32, LIMIT), ShiftCountMode::Masked);
}

#[test]
fn operand_contexts_follow_the_table() {
    let l = local(1);
    assert_eq!(bin_operand_context(BinOp::I32Add, 0, &l, MaskContext::Masked), MaskContext::Modular);
    assert_eq!(bin_operand_context(BinOp::I32ShrU, 0, &l, MaskContext::Modular), MaskContext::Masked);
    assert_eq!(bin_operand_context(BinOp::I32ShrU, 1, &l, MaskContext::Masked), MaskContext::Modular);
    assert_eq!(bin_operand_context(BinOp::I32And, 0, &l, MaskContext::Modular), MaskContext::Modular);
    assert_eq!(bin_operand_context(BinOp::I32And, 0, &l, MaskContext::Masked), MaskContext::Masked);
    assert_eq!(bin_operand_context(BinOp::I32DivU, 0, &l, MaskContext::Modular), MaskContext::Masked);
    assert_eq!(un_operand_context(UnOp::I32WrapI64), MaskContext::Modular);
    assert_eq!(un_operand_context(UnOp::I64ExtendI32U), MaskContext::Masked);
}

#[test]
fn a_constant_and_sibling_makes_the_operand_context_reducing() {
    let c = Expr::I32Const(0xff);
    let c64 = Expr::I64Const(0xff);
    let l = local(1);
    assert_eq!(bin_operand_context(BinOp::I32And, 0, &c, MaskContext::Masked), MaskContext::Reducing);
    assert_eq!(bin_operand_context(BinOp::I64And, 0, &c64, MaskContext::Masked), MaskContext::Reducing);
    assert_eq!(bin_operand_context(BinOp::I32Or, 0, &c, MaskContext::Masked), MaskContext::Masked);
    assert_eq!(bin_operand_context(BinOp::I32Xor, 0, &c, MaskContext::Masked), MaskContext::Masked);
    assert_eq!(bin_operand_context(BinOp::I32Xor, 0, &l, MaskContext::Reducing), MaskContext::Modular);
    assert_eq!(bin_operand_context(BinOp::I32And, 0, &l, MaskContext::Reducing), MaskContext::Modular);
}

#[test]
fn a_reducing_consumer_drops_the_mask_with_no_bound_guard() {
    let mul = bin(BinOp::I32Mul, local(0), local(1));
    assert!(!elides_mask(&mul, MaskContext::Modular, LIMIT));
    assert!(elides_mask(&mul, MaskContext::Reducing, LIMIT));
    let wrap = Expr::Un(UnOp::I32WrapI64, Box::new(local(0)));
    assert!(!elides_mask(&wrap, MaskContext::Modular, LIMIT));
    assert!(elides_mask(&wrap, MaskContext::Reducing, LIMIT));
    assert!(!elides_mask(&local(0), MaskContext::Reducing, LIMIT));
}

#[test]
fn an_identity_mask_drops_in_every_context() {
    let wrap = Expr::Un(UnOp::I32WrapI64, Box::new(bin(BinOp::I64ShrU, local(0), Expr::I64Const(32))));
    assert!(elides_mask(&wrap, MaskContext::Masked, LIMIT));
    let add = bin(BinOp::I32Add, local(0), local(1));
    assert!(!elides_mask(&add, MaskContext::Masked, LIMIT));
    let sub = bin(BinOp::I32Sub, local(0), Expr::I32Const(1));
    assert!(!elides_mask(&sub, MaskContext::Masked, LIMIT));
    let narrow_add = bin(BinOp::I32Add, load8u(), Expr::I32Const(1));
    assert!(elides_mask(&narrow_add, MaskContext::Masked, LIMIT));
}

#[test]
fn and_chains_fold_their_constants() {
    let chain = bin(BinOp::I32And, bin(BinOp::I32And, local(0), Expr::I32Const(0xff00)), Expr::I32Const(0x0ff0));
    let (a, b) = match &chain {
        Expr::Bin(_, a, b) => (a, b),
        _ => unreachable!(),
    };
    let (e, c) = fold_and_chain(a, b).expect("two constants fold");
    assert!(matches!(e, Expr::LocalGet(0)));
    assert_eq!(c, 0x0f00);
    let chain = bin(BinOp::I64And, Expr::I64Const(0xff), bin(BinOp::I64And, Expr::I64Const(0x0f), local(0)));
    let (a, b) = match &chain {
        Expr::Bin(_, a, b) => (a, b),
        _ => unreachable!(),
    };
    let (e, c) = fold_and_chain(a, b).expect("two constants fold");
    assert!(matches!(e, Expr::LocalGet(0)));
    assert_eq!(c, 0x0f);
}

#[test]
fn and_chain_folding_needs_two_constants() {
    assert!(fold_and_chain(&local(0), &Expr::I32Const(0xff)).is_none());
    let inner = bin(BinOp::I32And, local(0), Expr::I32Const(0xff));
    assert!(fold_and_chain(&inner, &local(1)).is_none());
}

#[test]
fn eq_rewrite_pins_a_unique_preimage_and_migrates_the_constant() {
    let sub = bin(BinOp::I32Sub, local(0), Expr::I32Const(5));
    let (e, ctx, t) = eq_const_rewrite(&sub, 7, LIMIT).expect("unique preimage");
    assert!(matches!(e, Expr::LocalGet(0)));
    assert_eq!(ctx, MaskContext::Modular);
    assert_eq!(t, 12);
    let rsub = bin(BinOp::I32Sub, Expr::I32Const(5), local(0));
    let (e, _, t) = eq_const_rewrite(&rsub, 7, LIMIT).expect("unique preimage");
    assert!(matches!(e, Expr::LocalGet(0)));
    assert_eq!(t, 5 - (7 - (1i128 << 32)));
    let nested = bin(BinOp::I32Sub, bin(BinOp::I32Add, local(0), Expr::I32Const(3)), Expr::I32Const(5));
    let (e, _, t) = eq_const_rewrite(&nested, 7, LIMIT).expect("unique preimage");
    assert!(matches!(e, Expr::LocalGet(0)));
    assert_eq!(t, 9);
    let wrap = Expr::Un(UnOp::I32WrapI64, Box::new(load8u()));
    let (e, ctx, t) = eq_const_rewrite(&wrap, 7, LIMIT).expect("unique preimage");
    assert!(matches!(e, Expr::Load { .. }));
    assert_eq!(ctx, MaskContext::Modular);
    assert_eq!(t, 7);
    let shr = bin(BinOp::I64ShrS, local(0), local(1));
    let (e, ctx, t) = eq_const_rewrite(&shr, 7, LIMIT).expect("unique preimage");
    assert!(matches!(e, Expr::Bin(BinOp::I64ShrS, ..)));
    assert_eq!(ctx, MaskContext::Reducing);
    assert_eq!(t, 7);
}

#[test]
fn eq_rewrite_against_zero_pins_a_two_sided_sub() {
    let sub = bin(BinOp::I32Sub, local(0), local(1));
    let (e, ctx, t) = eq_const_rewrite(&sub, 0, LIMIT).expect("unique preimage");
    assert!(matches!(e, Expr::Bin(BinOp::I32Sub, ..)));
    assert_eq!(ctx, MaskContext::Reducing);
    assert_eq!(t, 0);
}

#[test]
fn eq_rewrite_keeps_the_mask_without_a_unique_preimage() {
    let sub = bin(BinOp::I32Sub, local(0), local(1));
    assert!(eq_const_rewrite(&sub, 7, LIMIT).is_none());
    let narrow = bin(BinOp::I32Add, load8u(), Expr::I32Const(1));
    assert!(eq_const_rewrite(&narrow, 500, LIMIT).is_none());
    assert!(eq_const_rewrite(&local(0), 7, LIMIT).is_none());
}
