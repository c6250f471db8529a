//! What wasm computes for the small fragment of i32 expressions and stores the rewriting passes
//! build: the yardstick their laws measure a rewrite against.
use vstd::prelude::*;

use crate::ir::{BinOp, Expr, Stmt, StoreOp, Temp};

verus! {

/// `x + y` wrapped to 32 bits.
pub open spec fn wrap_add(x: u32, y: u32) -> u32 {
    ((x as int + y as int) % 0x1_0000_0000) as u32
}

/// 1 for `true`, 0 for `false`: a wasm comparison's result.
pub open spec fn flag(b: bool) -> u32 {
    if b {
        1
    } else {
        0
    }
}

/// The wasm value of the i32 expression `e` when local `i` holds `locals(i)`, temp `t` holds
/// `temps(t)` and memory has `pages` pages: constants, local and temp reads, `memory.size`,
/// wrapping `add`/`sub`, the bitwise operators,
/// the shifts (count taken modulo 32) and the unsigned and equality comparisons. Any other
/// expression lies outside this fragment and is read as 0.
pub open spec fn eval_i32(e: Expr, locals: spec_fn(u32) -> u32, temps: spec_fn(Temp) -> u32, pages: u32) -> u32
    decreases e,
{
    match e {
        Expr::I32Const(c) => c,
        Expr::LocalGet(i) => locals(i),
        Expr::Temp(t) => temps(t),
        Expr::MemorySize => pages,
        Expr::Bin(op, a, b) => {
            let x = eval_i32(*a, locals, temps, pages);
            let y = eval_i32(*b, locals, temps, pages);
            match op {
                BinOp::I32Add => wrap_add(x, y),
                BinOp::I32Sub => ((x as int - y as int) % 0x1_0000_0000) as u32,
                BinOp::I32And => x & y,
                BinOp::I32Or => x | y,
                BinOp::I32Xor => x ^ y,
                BinOp::I32ShrU => x >> (y & 31),
                BinOp::I32Shl => x << (y & 31),
                BinOp::I32Eq => flag(x == y),
                BinOp::I32Ne => flag(x != y),
                BinOp::I32LtU => flag(x < y),
                BinOp::I32GtU => flag(x > y),
                BinOp::I32LeU => flag(x <= y),
                BinOp::I32GeU => flag(x >= y),
                _ => 0,
            }
        },
        _ => 0,
    }
}

/// The bytes an i32 store of `op` writes; 0 for the stores of other types.
pub open spec fn i32_store_width(op: StoreOp) -> int {
    match op {
        StoreOp::I32Store8 => 1,
        StoreOp::I32Store16 => 2,
        StoreOp::I32Store => 4,
        _ => 0,
    }
}

/// The byte the i32 store `s` writes at the address `at` (little-endian, at the effective
/// address `addr + offset`), or `None` where it writes none.
pub open spec fn stored_byte(
    s: Stmt,
    locals: spec_fn(u32) -> u32,
    temps: spec_fn(Temp) -> u32,
    pages: u32,
    at: int,
) -> Option<u8> {
    match s {
        Stmt::Store { op, addr, value, offset } => {
            let a = eval_i32(addr, locals, temps, pages) as int + offset as int;
            if a <= at < a + i32_store_width(op) {
                Some(((eval_i32(value, locals, temps, pages) >> ((8 * (at - a)) as u32)) & 0xff) as u8)
            } else {
                None
            }
        },
        _ => None,
    }
}

/// Bitwise `and` of two comparison results is their conjunction.
pub proof fn lemma_flag_and(a: bool, b: bool)
    ensures
        flag(a) & flag(b) == flag(a && b),
{
    let x = flag(a);
    let y = flag(b);
    assert(x & y == (if x == 1 && y == 1 { 1u32 } else { 0u32 })) by (bit_vector)
        requires
            x == 0 || x == 1,
            y == 0 || y == 1,
    ;
}

/// The locals after the statement `s` runs from `locals`: a `local.set` updates its local with
/// its expression's value; every other statement leaves the locals alone.
pub open spec fn step_locals(s: Stmt, locals: spec_fn(u32) -> u32, temps: spec_fn(Temp) -> u32, pages: u32) -> spec_fn(
    u32,
) -> u32 {
    match s {
        Stmt::LocalSet { idx, expr } => {
            let v = eval_i32(expr, locals, temps, pages);
            |i: u32| if i == idx { v } else { locals(i) }
        },
        _ => locals,
    }
}

/// The locals after the statements `stmts` run in order from `locals` (see [`step_locals`]).
pub open spec fn run_locals(stmts: Seq<Stmt>, locals: spec_fn(u32) -> u32, temps: spec_fn(Temp) -> u32, pages: u32) -> spec_fn(
    u32,
) -> u32
    decreases stmts.len(),
{
    if stmts.len() == 0 {
        locals
    } else {
        run_locals(stmts.drop_first(), step_locals(stmts[0], locals, temps, pages), temps, pages)
    }
}

} // verus!
