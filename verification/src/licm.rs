//! Hoisting constant-address loads out of loops, with a run-time store guard in place of an alias
//! proof.
//!
//! Compiled code re-reads memory-resident globals every iteration because its compiler could not
//! prove the loop's stores leave them alone, and neither can this pass. What it can check is the
//! address at run time: each constant-address load moves into a local before the loop, and after
//! every store inside the loop the store's address is compared against the hoisted window; an
//! overlap reloads the locals. Only loads that can never trap are hoisted: the constant address
//! plus the access width must fit inside the memory's minimum size.
use vstd::prelude::*;

use crate::ir::{BinOp, Expr, Func, FuncType, Label, LoadOp, Module, Stmt, StoreOp, Temp, ValType};
use crate::regions::{direct_exprs, target_values, targets_values};
use crate::ir::BrTarget;
use crate::eval::{eval_i32, flag, lemma_flag_and, wrap_add};
use crate::fuse::{max_label_id, seq_max_label, lemma_max_label_bounded};
use crate::outline::{max_depth, max_depth_exec, result_temp, sort_temps, temps_ascending};

verus! {

/// Hoisting thresholds; each backend picks its own.
#[derive(Clone, Copy, Debug)]
pub struct Params {
    /// The least number of distinct hoistable loads worth guarding every store of a loop for. A
    /// loop without stores needs no guards and hoists from one load up.
    pub min_hoisted_with_stores: usize,
}

/// The bytes a load reads.
pub open spec fn load_width(op: LoadOp) -> u8 {
    match op {
        LoadOp::I32Load8S | LoadOp::I32Load8U | LoadOp::I64Load8S | LoadOp::I64Load8U => 1,
        LoadOp::I32Load16S | LoadOp::I32Load16U | LoadOp::I64Load16S | LoadOp::I64Load16U => 2,
        LoadOp::I32Load | LoadOp::F32Load | LoadOp::I64Load32S | LoadOp::I64Load32U => 4,
        LoadOp::I64Load | LoadOp::F64Load => 8,
    }
}

fn load_width_exec(op: LoadOp) -> (r: u8)
    ensures
        r == load_width(op),
{
    match op {
        LoadOp::I32Load8S | LoadOp::I32Load8U | LoadOp::I64Load8S | LoadOp::I64Load8U => 1,
        LoadOp::I32Load16S | LoadOp::I32Load16U | LoadOp::I64Load16S | LoadOp::I64Load16U => 2,
        LoadOp::I32Load | LoadOp::F32Load | LoadOp::I64Load32S | LoadOp::I64Load32U => 4,
        LoadOp::I64Load | LoadOp::F64Load => 8,
    }
}

/// The bytes a store writes.
pub open spec fn store_width(op: StoreOp) -> u8 {
    match op {
        StoreOp::I32Store8 | StoreOp::I64Store8 => 1,
        StoreOp::I32Store16 | StoreOp::I64Store16 => 2,
        StoreOp::I32Store | StoreOp::F32Store | StoreOp::I64Store32 => 4,
        StoreOp::I64Store | StoreOp::F64Store => 8,
    }
}

fn store_width_exec(op: StoreOp) -> (r: u8)
    ensures
        r == store_width(op),
{
    match op {
        StoreOp::I32Store8 | StoreOp::I64Store8 => 1,
        StoreOp::I32Store16 | StoreOp::I64Store16 => 2,
        StoreOp::I32Store | StoreOp::F32Store | StoreOp::I64Store32 => 4,
        StoreOp::I64Store | StoreOp::F64Store => 8,
    }
}

/// The type of the value a load produces.
pub open spec fn load_ty(op: LoadOp) -> ValType {
    match op {
        LoadOp::I32Load | LoadOp::I32Load8S | LoadOp::I32Load8U | LoadOp::I32Load16S | LoadOp::I32Load16U => ValType::I32,
        LoadOp::I64Load | LoadOp::I64Load8S | LoadOp::I64Load8U | LoadOp::I64Load16S | LoadOp::I64Load16U
        | LoadOp::I64Load32S | LoadOp::I64Load32U => ValType::I64,
        LoadOp::F32Load => ValType::F32,
        LoadOp::F64Load => ValType::F64,
    }
}

fn load_ty_exec(op: LoadOp) -> (r: ValType)
    ensures
        r == load_ty(op),
{
    match op {
        LoadOp::I32Load | LoadOp::I32Load8S | LoadOp::I32Load8U | LoadOp::I32Load16S | LoadOp::I32Load16U => ValType::I32,
        LoadOp::I64Load | LoadOp::I64Load8S | LoadOp::I64Load8U | LoadOp::I64Load16S | LoadOp::I64Load16U
        | LoadOp::I64Load32S | LoadOp::I64Load32U => ValType::I64,
        LoadOp::F32Load => ValType::F32,
        LoadOp::F64Load => ValType::F64,
    }
}

/// The position of a load operation in declaration order.
pub open spec fn load_rank(op: LoadOp) -> nat {
    match op {
        LoadOp::I32Load => 0,
        LoadOp::I64Load => 1,
        LoadOp::F32Load => 2,
        LoadOp::F64Load => 3,
        LoadOp::I32Load8S => 4,
        LoadOp::I32Load8U => 5,
        LoadOp::I32Load16S => 6,
        LoadOp::I32Load16U => 7,
        LoadOp::I64Load8S => 8,
        LoadOp::I64Load8U => 9,
        LoadOp::I64Load16S => 10,
        LoadOp::I64Load16U => 11,
        LoadOp::I64Load32S => 12,
        LoadOp::I64Load32U => 13,
    }
}

fn load_rank_exec(op: LoadOp) -> (r: u8)
    ensures
        r == load_rank(op),
{
    match op {
        LoadOp::I32Load => 0,
        LoadOp::I64Load => 1,
        LoadOp::F32Load => 2,
        LoadOp::F64Load => 3,
        LoadOp::I32Load8S => 4,
        LoadOp::I32Load8U => 5,
        LoadOp::I32Load16S => 6,
        LoadOp::I32Load16U => 7,
        LoadOp::I64Load8S => 8,
        LoadOp::I64Load8U => 9,
        LoadOp::I64Load16S => 10,
        LoadOp::I64Load16U => 11,
        LoadOp::I64Load32S => 12,
        LoadOp::I64Load32U => 13,
    }
}

proof fn lemma_load_rank_injective(a: LoadOp, b: LoadOp)
    requires
        load_rank(a) == load_rank(b),
    ensures
        a == b,
{
}

/// A constant-address load: its address, its static offset and its operation.
pub type LoadKey = (u32, u64, LoadOp);

/// The order hoisted loads are numbered in: by address, then offset, then operation.
pub open spec fn key_before(a: LoadKey, b: LoadKey) -> bool {
    ||| a.0 < b.0
    ||| a.0 == b.0 && a.1 < b.1
    ||| a.0 == b.0 && a.1 == b.1 && load_rank(a.2) < load_rank(b.2)
}

fn key_before_exec(a: LoadKey, b: LoadKey) -> (r: bool)
    ensures
        r == key_before(a, b),
{
    a.0 < b.0 || (a.0 == b.0 && a.1 < b.1) || (a.0 == b.0 && a.1 == b.1 && load_rank_exec(a.2) < load_rank_exec(b.2))
}

/// Whether `ks` strictly ascends in [`key_before`] order.
pub open spec fn keys_ascending(ks: Seq<LoadKey>) -> bool {
    forall|i: int, j: int| 0 <= i < j < ks.len() ==> key_before(#[trigger] ks[i], #[trigger] ks[j])
}

/// One past the last byte the load reads.
pub open spec fn key_end(k: LoadKey) -> int {
    k.0 + k.1 + load_width(k.2)
}

/// Whether the load can run early: it stays inside the memory's minimum size, comfortably below
/// the 4 GiB edge so the guard arithmetic cannot wrap.
pub open spec fn hoistable(k: LoadKey, mem_min: u64) -> bool {
    key_end(k) <= mem_min && key_end(k) <= 0x1_0000_0000 - 8
}

/// The key of `e` when it is a constant-address load.
pub open spec fn const_load(e: Expr) -> Option<LoadKey> {
    match e {
        Expr::Load { op, addr, offset } => match *addr {
            Expr::I32Const(a) => Some((a, offset, op)),
            _ => None,
        },
        _ => None,
    }
}

/// The hoistable loads in `e`, at any depth.
pub open spec fn expr_loads(e: Expr, mem_min: u64) -> Set<LoadKey>
    decreases e,
{
    let own: Set<LoadKey> = match const_load(e) {
        Some(k) => if hoistable(k, mem_min) {
            set![k]
        } else {
            Set::empty()
        },
        None => Set::empty(),
    };
    own.union(
        match e {
            Expr::Un(_, a) => expr_loads(*a, mem_min),
            Expr::Bin(_, a, b) => expr_loads(*a, mem_min).union(expr_loads(*b, mem_min)),
            Expr::Load { addr, .. } => expr_loads(*addr, mem_min),
            Expr::Select { cond, then, els } => expr_loads(*cond, mem_min).union(expr_loads(*then, mem_min)).union(
                expr_loads(*els, mem_min),
            ),
            _ => Set::empty(),
        },
    )
}

/// The hoistable loads in the expressions `es`.
pub open spec fn exprs_loads(es: Seq<Expr>, mem_min: u64) -> Set<LoadKey>
    decreases es.len(),
{
    if es.len() == 0 {
        Set::empty()
    } else {
        exprs_loads(es.subrange(0, es.len() - 1), mem_min).union(expr_loads(es[es.len() - 1], mem_min))
    }
}

/// The hoistable loads in `s`, at any depth.
pub open spec fn stmt_loads(s: Stmt, mem_min: u64) -> Set<LoadKey>
    decreases s,
{
    let own = exprs_loads(direct_exprs(s), mem_min);
    match s {
        Stmt::Block { body, .. } | Stmt::Loop { body, .. } | Stmt::TryTable { body, .. } => own.union(
            seq_loads(body@, mem_min),
        ),
        Stmt::If { then, els, .. } => own.union(seq_loads(then@, mem_min)).union(seq_loads(els@, mem_min)),
        _ => own,
    }
}

/// The hoistable loads in `stmts`, at any depth.
pub open spec fn seq_loads(stmts: Seq<Stmt>, mem_min: u64) -> Set<LoadKey>
    decreases stmts,
{
    if stmts.len() == 0 {
        Set::empty()
    } else {
        seq_loads(stmts.subrange(0, stmts.len() - 1), mem_min).union(stmt_loads(stmts[stmts.len() - 1], mem_min))
    }
}

/// Whether `s` can write memory beyond a plain store, or run code that does.
pub open spec fn stmt_barrier(s: Stmt) -> bool
    decreases s,
{
    match s {
        Stmt::Call { .. } | Stmt::CallIndirect { .. } | Stmt::MemoryGrow { .. } | Stmt::MemoryCopy { .. }
        | Stmt::MemoryFill { .. } | Stmt::MemoryInit { .. } => true,
        Stmt::Block { body, .. } | Stmt::Loop { body, .. } | Stmt::TryTable { body, .. } => seq_barrier(body@),
        Stmt::If { then, els, .. } => seq_barrier(then@) || seq_barrier(els@),
        _ => false,
    }
}

/// Whether any statement of `stmts` is a barrier, at any depth.
pub open spec fn seq_barrier(stmts: Seq<Stmt>) -> bool
    decreases stmts,
{
    if stmts.len() == 0 {
        false
    } else {
        seq_barrier(stmts.subrange(0, stmts.len() - 1)) || stmt_barrier(stmts[stmts.len() - 1])
    }
}

/// The number of stores in `s`, at any depth.
pub open spec fn stmt_stores(s: Stmt) -> nat
    decreases s,
{
    match s {
        Stmt::Store { .. } => 1,
        Stmt::Block { body, .. } | Stmt::Loop { body, .. } | Stmt::TryTable { body, .. } => seq_stores(body@),
        Stmt::If { then, els, .. } => seq_stores(then@) + seq_stores(els@),
        _ => 0,
    }
}

/// The number of stores in `stmts`, at any depth.
pub open spec fn seq_stores(stmts: Seq<Stmt>) -> nat
    decreases stmts,
{
    if stmts.len() == 0 {
        0
    } else {
        seq_stores(stmts.subrange(0, stmts.len() - 1)) + stmt_stores(stmts[stmts.len() - 1])
    }
}

/// Whether the loop body `body` gets its loads hoisted: no barrier, and enough distinct loads
/// (one when there is no store to guard).
pub open spec fn hoists(body: Seq<Stmt>, mem_min: u64, p: Params) -> bool {
    let n = seq_loads(body, mem_min).len();
    &&& !seq_barrier(body)
    &&& n > 0
    &&& n >= (if seq_stores(body) == 0 { 1 } else { p.min_hoisted_with_stores })
}

// ---------------------------------------------------------------------------------------------
// Finding the loads.

fn hoistable_exec(k: LoadKey, mem_min: u64) -> (r: bool)
    ensures
        r == hoistable(k, mem_min),
{
    let aw: u64 = k.0 as u64 + load_width_exec(k.2) as u64;
    if k.1 > u64::MAX - aw {
        false
    } else {
        let end = aw + k.1;
        end <= mem_min && end <= 0xFFFF_FFF8
    }
}

/// Adds `k` to the ascending keys `ks`, keeping them ascending and each once.
fn insert_key(ks: &mut Vec<LoadKey>, k: LoadKey)
    requires
        keys_ascending(old(ks)@),
    ensures
        keys_ascending(final(ks)@),
        final(ks)@.to_set() == old(ks)@.to_set().insert(k),
{
    let mut p: usize = 0;
    while p < ks.len() && key_before_exec(ks[p], k)
        invariant
            p <= ks@.len(),
            forall|q: int| 0 <= q < p ==> key_before(#[trigger] ks@[q], k),
        decreases ks@.len() - p,
    {
        p = p + 1;
    }
    if p < ks.len() && ks[p].0 == k.0 && ks[p].1 == k.1 && ks[p].2 == k.2 {
        assert(ks@.to_set().contains(k)) by {
            assert(ks@[p as int] == k);
        }
        assert(ks@.to_set() =~= old(ks)@.to_set().insert(k));
    } else {
        let ghost before = ks@;
        proof {
            if p < before.len() {
                let b = before[p as int];
                assert(!key_before(b, k));
                assert(b != k);
                if b.0 == k.0 && b.1 == k.1 && load_rank(b.2) == load_rank(k.2) {
                    lemma_load_rank_injective(b.2, k.2);
                }
                assert(key_before(k, b));
            }
        }
        ks.insert(p, k);
        proof {
            assert forall|a: int, b: int| 0 <= a < b < ks@.len() implies key_before(#[trigger] ks@[a], #[trigger] ks@[b]) by {
                if b < p {
                } else if b == p {
                } else if a < p {
                    assert(ks@[b] == before[b - 1]);
                    if b - 1 > p {
                        assert(key_before(before[p as int], before[b - 1]));
                    }
                } else if a == p {
                    assert(ks@[b] == before[b - 1]);
                    if b - 1 > p {
                        assert(key_before(before[p as int], before[b - 1]));
                    }
                } else {
                    assert(ks@[a] == before[a - 1]);
                    assert(ks@[b] == before[b - 1]);
                }
            }
            assert forall|x: LoadKey| ks@.to_set().contains(x) <==> before.to_set().insert(k).contains(x) by {
                if ks@.contains(x) {
                    let q = choose|q: int| 0 <= q < ks@.len() && ks@[q] == x;
                    if q < p {
                        assert(before[q] == x);
                    } else if q > p {
                        assert(before[q - 1] == x);
                    }
                }
                if before.contains(x) {
                    let q = choose|q: int| 0 <= q < before.len() && before[q] == x;
                    if q < p {
                        assert(ks@[q] == x);
                    } else {
                        assert(ks@[q + 1] == x);
                    }
                }
                if x == k {
                    assert(ks@[p as int] == x);
                }
            }
            assert(ks@.to_set() =~= before.to_set().insert(k));
        }
    }
}

fn collect_expr(e: &Expr, mem_min: u64, ks: &mut Vec<LoadKey>)
    requires
        keys_ascending(old(ks)@),
    ensures
        keys_ascending(final(ks)@),
        final(ks)@.to_set() == old(ks)@.to_set().union(expr_loads(*e, mem_min)),
    decreases e,
{
    let ghost start = ks@.to_set();
    match e {
        Expr::Load { op, addr, offset } => {
            match **addr {
                Expr::I32Const(a) => {
                    if hoistable_exec((a, *offset, *op), mem_min) {
                        insert_key(ks, (a, *offset, *op));
                    }
                },
                _ => {},
            }
            let ghost mid = ks@.to_set();
            collect_expr(addr, mem_min, ks);
            assert(ks@.to_set() =~= start.union(expr_loads(*e, mem_min)));
        },
        Expr::Un(_, a) => {
            collect_expr(a, mem_min, ks);
            assert(ks@.to_set() =~= start.union(expr_loads(*e, mem_min)));
        },
        Expr::Bin(_, a, b) => {
            collect_expr(a, mem_min, ks);
            collect_expr(b, mem_min, ks);
            assert(ks@.to_set() =~= start.union(expr_loads(*e, mem_min)));
        },
        Expr::Select { cond, then, els } => {
            collect_expr(cond, mem_min, ks);
            collect_expr(then, mem_min, ks);
            collect_expr(els, mem_min, ks);
            assert(ks@.to_set() =~= start.union(expr_loads(*e, mem_min)));
        },
        _ => {
            assert(ks@.to_set() =~= start.union(expr_loads(*e, mem_min)));
        },
    }
}

proof fn lemma_exprs_loads_concat(a: Seq<Expr>, b: Seq<Expr>, m: u64)
    ensures
        exprs_loads(a + b, m) == exprs_loads(a, m).union(exprs_loads(b, m)),
    decreases b.len(),
{
    if b.len() == 0 {
        assert(a + b =~= a);
        assert(exprs_loads(a, m).union(Set::empty()) =~= exprs_loads(a, m));
    } else {
        let c = a + b;
        assert(c.subrange(0, c.len() - 1) =~= a + b.subrange(0, b.len() - 1));
        assert(c[c.len() - 1] == b[b.len() - 1]);
        lemma_exprs_loads_concat(a, b.subrange(0, b.len() - 1), m);
        assert(exprs_loads(c, m) =~= exprs_loads(a, m).union(exprs_loads(b, m)));
    }
}

proof fn lemma_exprs_loads_single(e: Expr, m: u64)
    ensures
        exprs_loads(seq![e], m) == expr_loads(e, m),
{
    assert(seq![e].subrange(0, 0) =~= Seq::<Expr>::empty());
    assert(exprs_loads(seq![e].subrange(0, 0), m) == Set::<LoadKey>::empty());
    assert(seq![e][0] == e);
    assert(exprs_loads(seq![e], m) =~= expr_loads(e, m));
}

fn collect_exprs(es: &[Expr], mem_min: u64, ks: &mut Vec<LoadKey>)
    requires
        keys_ascending(old(ks)@),
    ensures
        keys_ascending(final(ks)@),
        final(ks)@.to_set() == old(ks)@.to_set().union(exprs_loads(es@, mem_min)),
{
    let ghost start = ks@.to_set();
    let mut i: usize = 0;
    assert(exprs_loads(es@.subrange(0, 0), mem_min) =~= Set::<LoadKey>::empty());
    assert(start.union(Set::empty()) =~= start);
    while i < es.len()
        invariant
            i <= es@.len(),
            keys_ascending(ks@),
            ks@.to_set() == start.union(exprs_loads(es@.subrange(0, i as int), mem_min)),
        decreases es@.len() - i,
    {
        collect_expr(&es[i], mem_min, ks);
        proof {
            let t = es@.subrange(0, i + 1);
            assert(t.subrange(0, t.len() - 1) =~= es@.subrange(0, i as int));
            assert(ks@.to_set() =~= start.union(exprs_loads(t, mem_min)));
        }
        i = i + 1;
    }
    assert(es@.subrange(0, es@.len() as int) =~= es@);
}

fn collect_target(t: &crate::ir::BrTarget, mem_min: u64, ks: &mut Vec<LoadKey>)
    requires
        keys_ascending(old(ks)@),
    ensures
        keys_ascending(final(ks)@),
        final(ks)@.to_set() == old(ks)@.to_set().union(exprs_loads(target_values(*t), mem_min)),
{
    match t {
        crate::ir::BrTarget::Return { values } => collect_exprs(values.as_slice(), mem_min, ks),
        _ => {
            assert(ks@.to_set().union(Set::empty()) =~= ks@.to_set());
        },
    }
}

fn collect_targets(ts: &[crate::ir::BrTarget], mem_min: u64, ks: &mut Vec<LoadKey>)
    requires
        keys_ascending(old(ks)@),
    ensures
        keys_ascending(final(ks)@),
        final(ks)@.to_set() == old(ks)@.to_set().union(exprs_loads(targets_values(ts@), mem_min)),
{
    let ghost start = ks@.to_set();
    let mut i: usize = 0;
    assert(targets_values(ts@.subrange(0, 0)) =~= Seq::<Expr>::empty());
    assert(exprs_loads(Seq::<Expr>::empty(), mem_min) == Set::<LoadKey>::empty());
    assert(start.union(Set::empty()) =~= start);
    while i < ts.len()
        invariant
            i <= ts@.len(),
            keys_ascending(ks@),
            ks@.to_set() == start.union(exprs_loads(targets_values(ts@.subrange(0, i as int)), mem_min)),
        decreases ts@.len() - i,
    {
        collect_target(&ts[i], mem_min, ks);
        proof {
            let t = ts@.subrange(0, i + 1);
            assert(t.subrange(0, t.len() - 1) =~= ts@.subrange(0, i as int));
            lemma_exprs_loads_concat(targets_values(ts@.subrange(0, i as int)), target_values(ts@[i as int]), mem_min);
            assert(ks@.to_set() =~= start.union(exprs_loads(targets_values(t), mem_min)));
        }
        i = i + 1;
    }
    assert(ts@.subrange(0, ts@.len() as int) =~= ts@);
}

fn collect_direct(s: &Stmt, mem_min: u64, ks: &mut Vec<LoadKey>)
    requires
        keys_ascending(old(ks)@),
    ensures
        keys_ascending(final(ks)@),
        final(ks)@.to_set() == old(ks)@.to_set().union(exprs_loads(direct_exprs(*s), mem_min)),
{
    let ghost start = ks@.to_set();
    match s {
        Stmt::Assign { expr, .. } | Stmt::LocalSet { expr, .. } | Stmt::GlobalSet { expr, .. } | Stmt::If {
            cond: expr,
            ..
        } | Stmt::MemoryGrow { delta: expr, .. } | Stmt::ThrowRef { exn: expr } => {
            proof {
                lemma_exprs_loads_single(*expr, mem_min);
            }
            collect_expr(expr, mem_min, ks);
        },
        Stmt::Store { addr, value, .. } => {
            proof {
                lemma_exprs_loads_concat(seq![*addr], seq![*value], mem_min);
                lemma_exprs_loads_single(*addr, mem_min);
                lemma_exprs_loads_single(*value, mem_min);
                assert(seq![*addr] + seq![*value] =~= seq![*addr, *value]);
            }
            collect_expr(addr, mem_min, ks);
            collect_expr(value, mem_min, ks);
            assert(ks@.to_set() =~= start.union(exprs_loads(direct_exprs(*s), mem_min)));
        },
        Stmt::Br(t) => collect_target(t, mem_min, ks),
        Stmt::BrIf { cond, target } => {
            proof {
                lemma_exprs_loads_concat(seq![*cond], target_values(*target), mem_min);
                lemma_exprs_loads_single(*cond, mem_min);
            }
            collect_expr(cond, mem_min, ks);
            collect_target(target, mem_min, ks);
            assert(ks@.to_set() =~= start.union(exprs_loads(direct_exprs(*s), mem_min)));
        },
        Stmt::BrTable { index, targets, default } => {
            proof {
                lemma_exprs_loads_concat(seq![*index] + targets_values(targets@), target_values(*default), mem_min);
                lemma_exprs_loads_concat(seq![*index], targets_values(targets@), mem_min);
                lemma_exprs_loads_single(*index, mem_min);
            }
            collect_expr(index, mem_min, ks);
            collect_targets(targets.as_slice(), mem_min, ks);
            collect_target(default, mem_min, ks);
            assert(ks@.to_set() =~= start.union(exprs_loads(direct_exprs(*s), mem_min)));
        },
        Stmt::Return { values } => collect_exprs(values.as_slice(), mem_min, ks),
        Stmt::Call { args, .. } | Stmt::Throw { args, .. } => collect_exprs(args.as_slice(), mem_min, ks),
        Stmt::CallIndirect { index, args, .. } => {
            proof {
                lemma_exprs_loads_concat(seq![*index], args@, mem_min);
                lemma_exprs_loads_single(*index, mem_min);
            }
            collect_expr(index, mem_min, ks);
            collect_exprs(args.as_slice(), mem_min, ks);
            assert(ks@.to_set() =~= start.union(exprs_loads(direct_exprs(*s), mem_min)));
        },
        Stmt::MemoryCopy { dst, src, len } | Stmt::MemoryInit { dst, src, len, .. } | Stmt::TableInit {
            dst,
            src,
            len,
            ..
        } | Stmt::TableCopy { dst, src, len, .. } | Stmt::MemoryFill { dst, val: src, len } => {
            proof {
                lemma_exprs_loads_concat(seq![*dst, *src], seq![*len], mem_min);
                lemma_exprs_loads_concat(seq![*dst], seq![*src], mem_min);
                lemma_exprs_loads_single(*dst, mem_min);
                lemma_exprs_loads_single(*src, mem_min);
                lemma_exprs_loads_single(*len, mem_min);
                assert(seq![*dst] + seq![*src] =~= seq![*dst, *src]);
                assert(seq![*dst, *src] + seq![*len] =~= seq![*dst, *src, *len]);
            }
            collect_expr(dst, mem_min, ks);
            collect_expr(src, mem_min, ks);
            collect_expr(len, mem_min, ks);
            assert(ks@.to_set() =~= start.union(exprs_loads(direct_exprs(*s), mem_min)));
        },
        _ => {
            assert(direct_exprs(*s) =~= Seq::<Expr>::empty());
            assert(exprs_loads(Seq::<Expr>::empty(), mem_min) == Set::<LoadKey>::empty());
            assert(ks@.to_set() =~= start.union(exprs_loads(direct_exprs(*s), mem_min)));
        },
    }
}

fn collect_stmt(s: &Stmt, mem_min: u64, ks: &mut Vec<LoadKey>)
    requires
        keys_ascending(old(ks)@),
    ensures
        keys_ascending(final(ks)@),
        final(ks)@.to_set() == old(ks)@.to_set().union(stmt_loads(*s, mem_min)),
    decreases s,
{
    let ghost start = ks@.to_set();
    collect_direct(s, mem_min, ks);
    match s {
        Stmt::Block { body, .. } | Stmt::Loop { body, .. } | Stmt::TryTable { body, .. } => {
            collect_seq(body.as_slice(), mem_min, ks);
        },
        Stmt::If { then, els, .. } => {
            collect_seq(then.as_slice(), mem_min, ks);
            collect_seq(els.as_slice(), mem_min, ks);
        },
        _ => {},
    }
    assert(ks@.to_set() =~= start.union(stmt_loads(*s, mem_min)));
}

/// Adds the hoistable loads of `stmts` to the ascending keys `ks`.
fn collect_seq(stmts: &[Stmt], mem_min: u64, ks: &mut Vec<LoadKey>)
    requires
        keys_ascending(old(ks)@),
    ensures
        keys_ascending(final(ks)@),
        final(ks)@.to_set() == old(ks)@.to_set().union(seq_loads(stmts@, mem_min)),
    decreases stmts@,
{
    let ghost start = ks@.to_set();
    let mut i: usize = 0;
    assert(seq_loads(stmts@.subrange(0, 0), mem_min) =~= Set::<LoadKey>::empty());
    assert(start.union(Set::empty()) =~= start);
    while i < stmts.len()
        invariant
            i <= stmts@.len(),
            keys_ascending(ks@),
            ks@.to_set() == start.union(seq_loads(stmts@.subrange(0, i as int), mem_min)),
        decreases stmts@.len() - i,
    {
        collect_stmt(&stmts[i], mem_min, ks);
        proof {
            let t = stmts@.subrange(0, i + 1);
            assert(t.subrange(0, t.len() - 1) =~= stmts@.subrange(0, i as int));
            assert(ks@.to_set() =~= start.union(seq_loads(t, mem_min)));
        }
        i = i + 1;
    }
    assert(stmts@.subrange(0, stmts@.len() as int) =~= stmts@);
}

fn stmt_barrier_exec(s: &Stmt) -> (r: bool)
    ensures
        r == stmt_barrier(*s),
    decreases s,
{
    match s {
        Stmt::Call { .. } | Stmt::CallIndirect { .. } | Stmt::MemoryGrow { .. } | Stmt::MemoryCopy { .. }
        | Stmt::MemoryFill { .. } | Stmt::MemoryInit { .. } => true,
        Stmt::Block { body, .. } | Stmt::Loop { body, .. } | Stmt::TryTable { body, .. } => has_barrier(body.as_slice()),
        Stmt::If { then, els, .. } => has_barrier(then.as_slice()) || has_barrier(els.as_slice()),
        _ => false,
    }
}

/// Whether `stmts` can write memory beyond a plain store, or run code that does, at any depth: a
/// loop holding one is not hoisted from.
fn has_barrier(stmts: &[Stmt]) -> (r: bool)
    ensures
        r == seq_barrier(stmts@),
    decreases stmts@,
{
    let mut i: usize = 0;
    let mut found = false;
    while i < stmts.len()
        invariant
            i <= stmts@.len(),
            found == seq_barrier(stmts@.subrange(0, i as int)),
        decreases stmts@.len() - i,
    {
        let u = stmt_barrier_exec(&stmts[i]);
        proof {
            let t = stmts@.subrange(0, i + 1);
            assert(t.subrange(0, t.len() - 1) =~= stmts@.subrange(0, i as int));
        }
        found = found || u;
        i = i + 1;
    }
    assert(stmts@.subrange(0, stmts@.len() as int) =~= stmts@);
    found
}

fn stmt_has_store(s: &Stmt) -> (r: bool)
    ensures
        r == (stmt_stores(*s) > 0),
    decreases s,
{
    match s {
        Stmt::Store { .. } => true,
        Stmt::Block { body, .. } | Stmt::Loop { body, .. } | Stmt::TryTable { body, .. } => has_store(body.as_slice()),
        Stmt::If { then, els, .. } => has_store(then.as_slice()) || has_store(els.as_slice()),
        _ => false,
    }
}

/// Whether `stmts` holds a store, at any depth.
fn has_store(stmts: &[Stmt]) -> (r: bool)
    ensures
        r == (seq_stores(stmts@) > 0),
    decreases stmts@,
{
    let mut i: usize = 0;
    let mut found = false;
    while i < stmts.len()
        invariant
            i <= stmts@.len(),
            found == (seq_stores(stmts@.subrange(0, i as int)) > 0),
        decreases stmts@.len() - i,
    {
        let u = stmt_has_store(&stmts[i]);
        proof {
            let t = stmts@.subrange(0, i + 1);
            assert(t.subrange(0, t.len() - 1) =~= stmts@.subrange(0, i as int));
        }
        found = found || u;
        i = i + 1;
    }
    assert(stmts@.subrange(0, stmts@.len() as int) =~= stmts@);
    found
}

// ---------------------------------------------------------------------------------------------
// Rewriting a hoisted loop's body.

/// What hoisting out of one loop decided: the loads, ascending, each read into local `base + i`;
/// the window `[lo, hi)` they cover; and the temp a guarded store's address spills to.
pub struct Hoist {
    pub keys: Vec<LoadKey>,
    pub base: u32,
    pub lo: u64,
    pub hi: u64,
    pub spill: Temp,
}

/// Whether `h` is usable: its keys ascend, its locals and window fit in 32 bits.
pub open spec fn hoist_wf(h: Hoist) -> bool {
    &&& keys_ascending(h.keys@)
    &&& h.base + h.keys@.len() <= u32::MAX
    &&& h.lo < 0x1_0000_0000
    &&& h.hi < 0x1_0000_0000
}

/// The local load `k` is hoisted into.
pub open spec fn local_for(h: Hoist, k: LoadKey) -> u32 {
    (h.base + choose|i: int| 0 <= i < h.keys@.len() && h.keys@[i] == k) as u32
}

/// `e` with every hoisted load read from its local instead.
pub open spec fn replace_expr(e: Expr, h: Hoist) -> Expr
    decreases e,
{
    if const_load(e) is Some && h.keys@.contains(const_load(e).unwrap()) {
        Expr::LocalGet(local_for(h, const_load(e).unwrap()))
    } else {
        match e {
            Expr::Un(op, a) => Expr::Un(op, Box::new(replace_expr(*a, h))),
            Expr::Bin(op, a, b) => Expr::Bin(op, Box::new(replace_expr(*a, h)), Box::new(replace_expr(*b, h))),
            Expr::Load { op, addr, offset } => Expr::Load { op, addr: Box::new(replace_expr(*addr, h)), offset },
            Expr::Select { cond, then, els } => Expr::Select {
                cond: Box::new(replace_expr(*cond, h)),
                then: Box::new(replace_expr(*then, h)),
                els: Box::new(replace_expr(*els, h)),
            },
            _ => e,
        }
    }
}

/// Whether `b` is `a` with each expression's hoisted loads replaced.
pub open spec fn exprs_replaced(a: Seq<Expr>, b: Seq<Expr>, h: Hoist) -> bool {
    a.len() == b.len() && forall|i: int| 0 <= i < a.len() ==> b[i] == replace_expr(#[trigger] a[i], h)
}

/// Whether `r` is the branch target `t` with the values it returns rewritten.
pub open spec fn target_replaced(t: BrTarget, r: BrTarget, h: Hoist) -> bool {
    match t {
        BrTarget::Return { values } => match r {
            BrTarget::Return { values: v2 } => exprs_replaced(values@, v2@, h),
            _ => false,
        },
        _ => r == t,
    }
}

/// The statement that (re)loads the hoisted load `k` into `local`.
pub open spec fn reload(k: LoadKey, local: u32) -> Stmt {
    Stmt::LocalSet { idx: local, expr: Expr::Load { op: k.2, addr: Box::new(Expr::I32Const(k.0)), offset: k.1 } }
}

/// Whether `rs` reloads every hoisted load, in key order.
pub open spec fn reloads_of(rs: Seq<Stmt>, h: Hoist) -> bool {
    rs.len() == h.keys@.len() && forall|i: int| 0 <= i < rs.len() ==> rs[i] == reload(#[trigger] h.keys@[i], (h.base + i) as u32)
}

/// The effective address of a store through the spilled address, wrapped to 32 bits.
pub open spec fn effective(spill: Temp, offset: u64) -> Expr {
    let base = Expr::Bin(BinOp::I32And, Box::new(Expr::Temp(spill)), Box::new(Expr::I32Const(u32::MAX)));
    if offset == 0 {
        base
    } else {
        Expr::Bin(BinOp::I32Add, Box::new(base), Box::new(Expr::I32Const(offset as u32)))
    }
}

/// Whether a store of `op` at `offset` overlaps the hoisted window.
pub open spec fn overlap(h: Hoist, op: StoreOp, offset: u64) -> Expr {
    let eff = effective(h.spill, offset);
    Expr::Bin(
        BinOp::I32And,
        Box::new(
            Expr::Bin(
                BinOp::I32GtU,
                Box::new(Expr::Bin(BinOp::I32Add, Box::new(eff), Box::new(Expr::I32Const(store_width(op) as u32)))),
                Box::new(Expr::I32Const(h.lo as u32)),
            ),
        ),
        Box::new(Expr::Bin(BinOp::I32LtU, Box::new(eff), Box::new(Expr::I32Const(h.hi as u32)))),
    )
}

/// Whether `g` is the guard after a store of `op` at `offset`: an `if` labelled `label` that
/// reloads every hoisted load on overlap.
pub open spec fn guard_of(g: Stmt, h: Hoist, op: StoreOp, offset: u64, label: int) -> bool {
    match g {
        Stmt::If { label: l, cond, then, els } => l == (Label { id: label as u32, referenced: false }) && cond == overlap(
            h,
            op,
            offset,
        ) && reloads_of(then@, h) && els@.len() == 0,
        _ => false,
    }
}

/// How many statements `s` becomes: three for a store (spill, store, guard), one otherwise.
pub open spec fn out_len(s: Stmt) -> int {
    if s is Store {
        3
    } else {
        1
    }
}

/// Whether `r` is the non-store statement `s` with its hoisted loads replaced and its nested
/// stores guarded, the guards labelled from `next` in order.
pub open spec fn hoisted_stmt(s: Stmt, r: Stmt, h: Hoist, next: int) -> bool
    decreases s, 1int,
{
    match s {
        Stmt::Assign { dst, expr } => r == Stmt::Assign { dst, expr: replace_expr(expr, h) },
        Stmt::LocalSet { idx, expr } => r == Stmt::LocalSet { idx, expr: replace_expr(expr, h) },
        Stmt::GlobalSet { idx, expr } => r == Stmt::GlobalSet { idx, expr: replace_expr(expr, h) },
        Stmt::Block { label, body } => match r {
            Stmt::Block { label: l2, body: b2 } => l2 == label && hoisted_seq(body@, b2@, h, next),
            _ => false,
        },
        Stmt::Loop { label, body } => match r {
            Stmt::Loop { label: l2, body: b2 } => l2 == label && hoisted_seq(body@, b2@, h, next),
            _ => false,
        },
        Stmt::If { label, cond, then, els } => match r {
            Stmt::If { label: l2, cond: c2, then: t2, els: e2 } => l2 == label && c2 == replace_expr(cond, h)
                && hoisted_seq(then@, t2@, h, next) && hoisted_seq(els@, e2@, h, next + seq_stores(then@)),
            _ => false,
        },
        Stmt::Br(t) => match r {
            Stmt::Br(t2) => target_replaced(t, t2, h),
            _ => false,
        },
        Stmt::BrIf { cond, target } => match r {
            Stmt::BrIf { cond: c2, target: t2 } => c2 == replace_expr(cond, h) && target_replaced(target, t2, h),
            _ => false,
        },
        Stmt::BrTable { index, targets, default } => match r {
            Stmt::BrTable { index: i2, targets: ts2, default: d2 } => i2 == replace_expr(index, h) && targets@.len()
                == ts2@.len() && (forall|i: int| 0 <= i < targets@.len() ==> target_replaced(#[trigger] targets@[i], ts2@[i], h))
                && target_replaced(default, d2, h),
            _ => false,
        },
        Stmt::Return { values } => match r {
            Stmt::Return { values: v2 } => exprs_replaced(values@, v2@, h),
            _ => false,
        },
        Stmt::Call { func, args, results } => match r {
            Stmt::Call { func: f2, args: a2, results: r2 } => f2 == func && exprs_replaced(args@, a2@, h) && r2 == results,
            _ => false,
        },
        Stmt::CallIndirect { type_idx, table_index, index, args, results } => match r {
            Stmt::CallIndirect { type_idx: t2, table_index: ti2, index: i2, args: a2, results: r2 } => t2 == type_idx
                && ti2 == table_index && i2 == replace_expr(index, h) && exprs_replaced(args@, a2@, h) && r2 == results,
            _ => false,
        },
        Stmt::MemoryGrow { dst, delta } => r == Stmt::MemoryGrow { dst, delta: replace_expr(delta, h) },
        Stmt::MemoryCopy { dst, src, len } => r == Stmt::MemoryCopy {
            dst: replace_expr(dst, h),
            src: replace_expr(src, h),
            len: replace_expr(len, h),
        },
        Stmt::MemoryFill { dst, val, len } => r == Stmt::MemoryFill {
            dst: replace_expr(dst, h),
            val: replace_expr(val, h),
            len: replace_expr(len, h),
        },
        Stmt::MemoryInit { seg, dst, src, len } => r == Stmt::MemoryInit {
            seg,
            dst: replace_expr(dst, h),
            src: replace_expr(src, h),
            len: replace_expr(len, h),
        },
        Stmt::TableInit { seg, table_index, dst, src, len } => r == Stmt::TableInit {
            seg,
            table_index,
            dst: replace_expr(dst, h),
            src: replace_expr(src, h),
            len: replace_expr(len, h),
        },
        Stmt::TableCopy { dst_table, src_table, dst, src, len } => r == Stmt::TableCopy {
            dst_table,
            src_table,
            dst: replace_expr(dst, h),
            src: replace_expr(src, h),
            len: replace_expr(len, h),
        },
        Stmt::Throw { tag, args } => match r {
            Stmt::Throw { tag: t2, args: a2 } => t2 == tag && exprs_replaced(args@, a2@, h),
            _ => false,
        },
        Stmt::ThrowRef { exn } => r == Stmt::ThrowRef { exn: replace_expr(exn, h) },
        Stmt::TryTable { label, catches, body } => match r {
            Stmt::TryTable { label: l2, catches: c2, body: b2 } => l2 == label && c2 == catches && hoisted_seq(
                body@,
                b2@,
                h,
                next,
            ),
            _ => false,
        },
        _ => r == s,
    }
}

/// Whether `rs` is what `s` becomes: for a store, the address spilled, the store through the
/// spill (its value rewritten) and the guard labelled `next`; otherwise `s` rewritten.
pub open spec fn hoisted_out(s: Stmt, rs: Seq<Stmt>, h: Hoist, next: int) -> bool
    decreases s, 2int,
{
    match s {
        Stmt::Store { op, addr, value, offset } => {
            &&& rs.len() == 3
            &&& rs[0] == Stmt::Assign { dst: h.spill, expr: replace_expr(addr, h) }
            &&& rs[1] == Stmt::Store { op, addr: Expr::Temp(h.spill), value: replace_expr(value, h), offset }
            &&& guard_of(rs[2], h, op, offset, next)
        },
        _ => rs.len() == 1 && hoisted_stmt(s, rs[0], h, next),
    }
}

/// `hoisted_out` over a sequence, the guard labels threaded in order.
pub open spec fn hoisted_seq(ins: Seq<Stmt>, outs: Seq<Stmt>, h: Hoist, next: int) -> bool
    decreases ins, 0int,
{
    if ins.len() == 0 {
        outs.len() == 0
    } else {
        let prefix = ins.subrange(0, ins.len() - 1);
        let last = ins[ins.len() - 1];
        let cut = outs.len() - out_len(last);
        &&& cut >= 0
        &&& hoisted_seq(prefix, outs.subrange(0, cut), h, next)
        &&& hoisted_out(last, outs.subrange(cut, outs.len() as int), h, next + seq_stores(prefix))
    }
}

fn find_key(keys: &Vec<LoadKey>, k: LoadKey) -> (r: Option<usize>)
    requires
        keys_ascending(keys@),
    ensures
        r is None <==> !keys@.contains(k),
        r matches Some(q) ==> q < keys@.len() && q as int == (choose|i: int| 0 <= i < keys@.len() && keys@[i] == k),
{
    let mut q: usize = 0;
    while q < keys.len()
        invariant
            q <= keys@.len(),
            keys_ascending(keys@),
            forall|t: int| 0 <= t < q ==> keys@[t] != k,
        decreases keys@.len() - q,
    {
        if keys[q].0 == k.0 && keys[q].1 == k.1 && keys[q].2 == k.2 {
            proof {
                let c = choose|c: int| 0 <= c < keys@.len() && keys@[c] == k;
                if c < q {
                } else if c > q {
                    assert(key_before(keys@[q as int], keys@[c]));
                }
            }
            return Some(q);
        }
        q = q + 1;
    }
    None
}

fn replace_expr_exec(e: Expr, h: &Hoist) -> (r: Expr)
    requires
        hoist_wf(*h),
    ensures
        r == replace_expr(e, *h),
    decreases e,
{
    let hit: Option<usize> = match &e {
        Expr::Load { op, addr, offset } => match **addr {
            Expr::I32Const(a) => find_key(&h.keys, (a, *offset, *op)),
            _ => None,
        },
        _ => None,
    };
    match hit {
        Some(i) => Expr::LocalGet(h.base + i as u32),
        None => match e {
            Expr::Un(op, a) => Expr::Un(op, Box::new(replace_expr_exec(*a, h))),
            Expr::Bin(op, a, b) => {
                let a2 = replace_expr_exec(*a, h);
                let b2 = replace_expr_exec(*b, h);
                Expr::Bin(op, Box::new(a2), Box::new(b2))
            },
            Expr::Load { op, addr, offset } => Expr::Load { op, addr: Box::new(replace_expr_exec(*addr, h)), offset },
            Expr::Select { cond, then, els } => {
                let c2 = replace_expr_exec(*cond, h);
                let t2 = replace_expr_exec(*then, h);
                let e2 = replace_expr_exec(*els, h);
                Expr::Select { cond: Box::new(c2), then: Box::new(t2), els: Box::new(e2) }
            },
            other => other,
        },
    }
}

fn replace_exprs_exec(v: Vec<Expr>, h: &Hoist) -> (r: Vec<Expr>)
    requires
        hoist_wf(*h),
    ensures
        exprs_replaced(v@, r@, *h),
{
    let ghost orig = v@;
    let ghost n = orig.len() as int;
    let mut src = v;
    let mut rev: Vec<Expr> = Vec::new();
    while src.len() > 0
        invariant
            orig.len() == n,
            src@.len() + rev@.len() == n,
            src@ == orig.subrange(0, src@.len() as int),
            forall|k: int| 0 <= k < rev@.len() ==> rev@[k] == orig[n - 1 - k],
        decreases src@.len(),
    {
        match src.pop() {
            Some(x) => rev.push(x),
            None => {},
        }
    }
    let mut out: Vec<Expr> = Vec::new();
    while rev.len() > 0
        invariant
            orig.len() == n,
            hoist_wf(*h),
            rev@.len() <= n,
            forall|k: int| 0 <= k < rev@.len() ==> rev@[k] == orig[n - 1 - k],
            out@.len() == n - rev@.len(),
            forall|i: int| 0 <= i < out@.len() ==> out@[i] == replace_expr(orig[i], *h),
        decreases rev@.len(),
    {
        let e = match rev.pop() {
            Some(x) => x,
            None => Expr::MemorySize,
        };
        out.push(replace_expr_exec(e, h));
    }
    out
}

fn replace_target_exec(t: BrTarget, h: &Hoist) -> (r: BrTarget)
    requires
        hoist_wf(*h),
    ensures
        target_replaced(t, r, *h),
{
    match t {
        BrTarget::Return { values } => BrTarget::Return { values: replace_exprs_exec(values, h) },
        other => other,
    }
}

fn replace_targets_exec(v: Vec<BrTarget>, h: &Hoist) -> (r: Vec<BrTarget>)
    requires
        hoist_wf(*h),
    ensures
        v@.len() == r@.len(),
        forall|i: int| 0 <= i < v@.len() ==> target_replaced(#[trigger] v@[i], r@[i], *h),
{
    let ghost orig = v@;
    let ghost n = orig.len() as int;
    let mut src = v;
    let mut rev: Vec<BrTarget> = Vec::new();
    while src.len() > 0
        invariant
            orig.len() == n,
            src@.len() + rev@.len() == n,
            src@ == orig.subrange(0, src@.len() as int),
            forall|k: int| 0 <= k < rev@.len() ==> rev@[k] == orig[n - 1 - k],
        decreases src@.len(),
    {
        match src.pop() {
            Some(x) => rev.push(x),
            None => {},
        }
    }
    let mut out: Vec<BrTarget> = Vec::new();
    while rev.len() > 0
        invariant
            orig.len() == n,
            hoist_wf(*h),
            rev@.len() <= n,
            forall|k: int| 0 <= k < rev@.len() ==> rev@[k] == orig[n - 1 - k],
            out@.len() == n - rev@.len(),
            forall|i: int| 0 <= i < out@.len() ==> target_replaced(orig[i], out@[i], *h),
        decreases rev@.len(),
    {
        let t = match rev.pop() {
            Some(x) => x,
            None => BrTarget::Return { values: Vec::new() },
        };
        out.push(replace_target_exec(t, h));
    }
    out
}

fn reload_exec(k: LoadKey, local: u32) -> (r: Stmt)
    ensures
        r == reload(k, local),
{
    Stmt::LocalSet { idx: local, expr: Expr::Load { op: k.2, addr: Box::new(Expr::I32Const(k.0)), offset: k.1 } }
}

/// The statements reloading every hoisted load, in key order.
fn reloads_exec(h: &Hoist) -> (r: Vec<Stmt>)
    requires
        hoist_wf(*h),
    ensures
        reloads_of(r@, *h),
{
    let mut out: Vec<Stmt> = Vec::new();
    let mut i: usize = 0;
    while i < h.keys.len()
        invariant
            i <= h.keys@.len(),
            hoist_wf(*h),
            out@.len() == i,
            forall|t: int| 0 <= t < i ==> out@[t] == reload(#[trigger] h.keys@[t], (h.base + t) as u32),
        decreases h.keys@.len() - i,
    {
        out.push(reload_exec(h.keys[i], h.base + i as u32));
        i = i + 1;
    }
    out
}

fn effective_exec(spill: Temp, offset: u64) -> (r: Expr)
    ensures
        r == effective(spill, offset),
{
    let base = Expr::Bin(BinOp::I32And, Box::new(Expr::Temp(spill)), Box::new(Expr::I32Const(u32::MAX)));
    if offset == 0 {
        base
    } else {
        Expr::Bin(BinOp::I32Add, Box::new(base), Box::new(Expr::I32Const(offset as u32)))
    }
}

fn overlap_exec(h: &Hoist, op: StoreOp, offset: u64) -> (r: Expr)
    requires
        hoist_wf(*h),
    ensures
        r == overlap(*h, op, offset),
{
    let w = store_width_exec(op) as u32;
    let above = Expr::Bin(
        BinOp::I32GtU,
        Box::new(Expr::Bin(BinOp::I32Add, Box::new(effective_exec(h.spill, offset)), Box::new(Expr::I32Const(w)))),
        Box::new(Expr::I32Const(h.lo as u32)),
    );
    let below = Expr::Bin(BinOp::I32LtU, Box::new(effective_exec(h.spill, offset)), Box::new(Expr::I32Const(h.hi as u32)));
    Expr::Bin(BinOp::I32And, Box::new(above), Box::new(below))
}

proof fn lemma_stores_prefix(stmts: Seq<Stmt>, j: int)
    requires
        0 <= j <= stmts.len(),
    ensures
        seq_stores(stmts.subrange(0, j)) <= seq_stores(stmts),
    decreases stmts.len() - j,
{
    if j < stmts.len() {
        lemma_stores_prefix(stmts, j + 1);
        let t = stmts.subrange(0, j + 1);
        assert(t.subrange(0, t.len() - 1) =~= stmts.subrange(0, j));
    } else {
        assert(stmts.subrange(0, j) =~= stmts);
    }
}

/// Rewrites a non-store statement of a hoisted loop: hoisted loads read from their locals, nested
/// stores guarded, the guards labelled from `*next` on.
fn hoist_stmt(s: Stmt, h: &Hoist, next: &mut u32) -> (r: Stmt)
    requires
        hoist_wf(*h),
        !(s is Store),
        *old(next) + stmt_stores(s) <= u32::MAX,
    ensures
        hoisted_stmt(s, r, *h, *old(next) as int),
        *final(next) == *old(next) + stmt_stores(s),
    decreases s, 1int,
{
    match s {
        Stmt::Assign { dst, expr } => Stmt::Assign { dst, expr: replace_expr_exec(expr, h) },
        Stmt::LocalSet { idx, expr } => Stmt::LocalSet { idx, expr: replace_expr_exec(expr, h) },
        Stmt::GlobalSet { idx, expr } => Stmt::GlobalSet { idx, expr: replace_expr_exec(expr, h) },
        Stmt::Block { label, body } => Stmt::Block { label, body: hoist_seq(body, h, next) },
        Stmt::Loop { label, body } => Stmt::Loop { label, body: hoist_seq(body, h, next) },
        Stmt::If { label, cond, then, els } => {
            let c2 = replace_expr_exec(cond, h);
            let t2 = hoist_seq(then, h, next);
            let e2 = hoist_seq(els, h, next);
            Stmt::If { label, cond: c2, then: t2, els: e2 }
        },
        Stmt::Br(t) => Stmt::Br(replace_target_exec(t, h)),
        Stmt::BrIf { cond, target } => {
            let c2 = replace_expr_exec(cond, h);
            Stmt::BrIf { cond: c2, target: replace_target_exec(target, h) }
        },
        Stmt::BrTable { index, targets, default } => {
            let i2 = replace_expr_exec(index, h);
            let ts2 = replace_targets_exec(targets, h);
            let d2 = replace_target_exec(default, h);
            Stmt::BrTable { index: i2, targets: ts2, default: d2 }
        },
        Stmt::Return { values } => Stmt::Return { values: replace_exprs_exec(values, h) },
        Stmt::Call { func, args, results } => Stmt::Call { func, args: replace_exprs_exec(args, h), results },
        Stmt::CallIndirect { type_idx, table_index, index, args, results } => {
            let i2 = replace_expr_exec(index, h);
            let a2 = replace_exprs_exec(args, h);
            Stmt::CallIndirect { type_idx, table_index, index: i2, args: a2, results }
        },
        Stmt::MemoryGrow { dst, delta } => Stmt::MemoryGrow { dst, delta: replace_expr_exec(delta, h) },
        Stmt::MemoryCopy { dst, src, len } => {
            let d2 = replace_expr_exec(dst, h);
            let s2 = replace_expr_exec(src, h);
            let l2 = replace_expr_exec(len, h);
            Stmt::MemoryCopy { dst: d2, src: s2, len: l2 }
        },
        Stmt::MemoryFill { dst, val, len } => {
            let d2 = replace_expr_exec(dst, h);
            let v2 = replace_expr_exec(val, h);
            let l2 = replace_expr_exec(len, h);
            Stmt::MemoryFill { dst: d2, val: v2, len: l2 }
        },
        Stmt::MemoryInit { seg, dst, src, len } => {
            let d2 = replace_expr_exec(dst, h);
            let s2 = replace_expr_exec(src, h);
            let l2 = replace_expr_exec(len, h);
            Stmt::MemoryInit { seg, dst: d2, src: s2, len: l2 }
        },
        Stmt::TableInit { seg, table_index, dst, src, len } => {
            let d2 = replace_expr_exec(dst, h);
            let s2 = replace_expr_exec(src, h);
            let l2 = replace_expr_exec(len, h);
            Stmt::TableInit { seg, table_index, dst: d2, src: s2, len: l2 }
        },
        Stmt::TableCopy { dst_table, src_table, dst, src, len } => {
            let d2 = replace_expr_exec(dst, h);
            let s2 = replace_expr_exec(src, h);
            let l2 = replace_expr_exec(len, h);
            Stmt::TableCopy { dst_table, src_table, dst: d2, src: s2, len: l2 }
        },
        Stmt::Throw { tag, args } => Stmt::Throw { tag, args: replace_exprs_exec(args, h) },
        Stmt::ThrowRef { exn } => Stmt::ThrowRef { exn: replace_expr_exec(exn, h) },
        Stmt::TryTable { label, catches, body } => Stmt::TryTable { label, catches, body: hoist_seq(body, h, next) },
        other => other,
    }
}

/// Rewrites the statements of a hoisted loop (see [`hoisted_seq`]).
fn hoist_seq(stmts: Vec<Stmt>, h: &Hoist, next: &mut u32) -> (r: Vec<Stmt>)
    requires
        hoist_wf(*h),
        *old(next) + seq_stores(stmts@) <= u32::MAX,
    ensures
        hoisted_seq(stmts@, r@, *h, *old(next) as int),
        *final(next) == *old(next) + seq_stores(stmts@),
    decreases stmts@, 0int,
{
    let ghost orig = stmts@;
    let ghost n = orig.len() as int;
    let ghost start = *next as int;
    let mut src = stmts;
    let mut rev: Vec<Stmt> = Vec::new();
    while src.len() > 0
        invariant
            orig.len() == n,
            src@.len() + rev@.len() == n,
            src@ == orig.subrange(0, src@.len() as int),
            forall|k: int| 0 <= k < rev@.len() ==> rev@[k] == orig[n - 1 - k],
        decreases src@.len(),
    {
        match src.pop() {
            Some(x) => rev.push(x),
            None => {},
        }
    }
    let mut out: Vec<Stmt> = Vec::new();
    assert(orig.subrange(0, 0).len() == 0);
    while rev.len() > 0
        invariant
            orig.len() == n,
            orig == stmts@,
            hoist_wf(*h),
            start + seq_stores(orig) <= u32::MAX,
            rev@.len() <= n,
            forall|k: int| 0 <= k < rev@.len() ==> rev@[k] == orig[n - 1 - k],
            hoisted_seq(orig.subrange(0, n - rev@.len()), out@, *h, start),
            *next == start + seq_stores(orig.subrange(0, n - rev@.len())),
        decreases rev@.len(),
    {
        let ghost j = n - rev@.len();
        let s = match rev.pop() {
            Some(x) => x,
            None => Stmt::Unreachable,
        };
        assert(s == orig[j]);
        proof {
            lemma_stores_prefix(orig, j + 1);
            let t = orig.subrange(0, j + 1);
            assert(t.subrange(0, t.len() - 1) =~= orig.subrange(0, j));
            assert(t[t.len() - 1] == orig[j]);
            assert(seq_stores(t) == seq_stores(orig.subrange(0, j)) + stmt_stores(orig[j]));
            assert(decreases_to!(orig => orig[j]));
        }
        let ghost before = out@;
        let ghost at = *next as int;
        assert(s is Store ==> stmt_stores(s) == 1);
        match s {
            Stmt::Store { op, addr, value, offset } => {
                let a2 = replace_expr_exec(addr, h);
                let v2 = replace_expr_exec(value, h);
                out.push(Stmt::Assign { dst: h.spill, expr: a2 });
                out.push(Stmt::Store { op, addr: Expr::Temp(h.spill), value: v2, offset });
                let cond = overlap_exec(h, op, offset);
                let then = reloads_exec(h);
                out.push(Stmt::If { label: Label { id: *next, referenced: false }, cond, then, els: Vec::new() });
                *next = *next + 1;
            },
            other => {
                let r = hoist_stmt(other, h, next);
                out.push(r);
            },
        }
        proof {
            let t = orig.subrange(0, j + 1);
            let cut = out@.len() - out_len(orig[j]);
            assert(out@.subrange(0, cut) =~= before);
            assert(hoisted_out(orig[j], out@.subrange(cut, out@.len() as int), *h, at));
        }
    }
    assert(orig.subrange(0, n) =~= orig);
    out
}

// ---------------------------------------------------------------------------------------------
// Choosing the loops.

/// The least start address among the loads `ks`.
pub open spec fn min_start(ks: Seq<LoadKey>) -> int
    decreases ks.len(),
{
    if ks.len() == 0 {
        0
    } else if ks.len() == 1 {
        ks[0].0 + ks[0].1
    } else {
        let m = min_start(ks.drop_last());
        let x = ks.last().0 + ks.last().1;
        if x < m {
            x
        } else {
            m
        }
    }
}

/// The greatest end address among the loads `ks`.
pub open spec fn max_end(ks: Seq<LoadKey>) -> int
    decreases ks.len(),
{
    if ks.len() == 0 {
        0
    } else {
        let m = max_end(ks.drop_last());
        let x = key_end(ks.last());
        if x > m {
            x
        } else {
            m
        }
    }
}

/// Whether `h` is what hoisting out of a loop with body `body` decides, its first local being
/// `nl`: the body's hoistable loads in key order, and the window they span.
pub open spec fn hoist_for(h: Hoist, body: Seq<Stmt>, nl: int, spill: Temp, mem_min: u64) -> bool {
    &&& keys_ascending(h.keys@)
    &&& h.keys@.to_set() == seq_loads(body, mem_min)
    &&& h.base == nl
    &&& h.spill == spill
    &&& h.lo == min_start(h.keys@)
    &&& h.hi == max_end(h.keys@)
}

/// The locals hoisting adds within `s`.
pub open spec fn walk_locals(s: Stmt, m: u64, p: Params) -> nat
    decreases s,
{
    match s {
        Stmt::Loop { body, .. } => if hoists(body@, m, p) {
            seq_loads(body@, m).len()
        } else {
            seq_walk_locals(body@, m, p)
        },
        Stmt::Block { body, .. } | Stmt::TryTable { body, .. } => seq_walk_locals(body@, m, p),
        Stmt::If { then, els, .. } => seq_walk_locals(then@, m, p) + seq_walk_locals(els@, m, p),
        _ => 0,
    }
}

/// `walk_locals` over a sequence.
pub open spec fn seq_walk_locals(stmts: Seq<Stmt>, m: u64, p: Params) -> nat
    decreases stmts,
{
    if stmts.len() == 0 {
        0
    } else {
        seq_walk_locals(stmts.subrange(0, stmts.len() - 1), m, p) + walk_locals(stmts[stmts.len() - 1], m, p)
    }
}

/// The guard labels hoisting uses within `s`: one per store of a hoisted loop.
pub open spec fn walk_labels(s: Stmt, m: u64, p: Params) -> nat
    decreases s,
{
    match s {
        Stmt::Loop { body, .. } => if hoists(body@, m, p) {
            seq_stores(body@)
        } else {
            seq_walk_labels(body@, m, p)
        },
        Stmt::Block { body, .. } | Stmt::TryTable { body, .. } => seq_walk_labels(body@, m, p),
        Stmt::If { then, els, .. } => seq_walk_labels(then@, m, p) + seq_walk_labels(els@, m, p),
        _ => 0,
    }
}

/// `walk_labels` over a sequence.
pub open spec fn seq_walk_labels(stmts: Seq<Stmt>, m: u64, p: Params) -> nat
    decreases stmts,
{
    if stmts.len() == 0 {
        0
    } else {
        seq_walk_labels(stmts.subrange(0, stmts.len() - 1), m, p) + walk_labels(stmts[stmts.len() - 1], m, p)
    }
}

/// Whether hoisting within `s` guards a store, and so spills an address.
pub open spec fn walk_spills(s: Stmt, m: u64, p: Params) -> bool
    decreases s,
{
    match s {
        Stmt::Loop { body, .. } => if hoists(body@, m, p) {
            seq_stores(body@) > 0
        } else {
            seq_walk_spills(body@, m, p)
        },
        Stmt::Block { body, .. } | Stmt::TryTable { body, .. } => seq_walk_spills(body@, m, p),
        Stmt::If { then, els, .. } => seq_walk_spills(then@, m, p) || seq_walk_spills(els@, m, p),
        _ => false,
    }
}

/// `walk_spills` over a sequence.
pub open spec fn seq_walk_spills(stmts: Seq<Stmt>, m: u64, p: Params) -> bool
    decreases stmts,
{
    if stmts.len() == 0 {
        false
    } else {
        seq_walk_spills(stmts.subrange(0, stmts.len() - 1), m, p) || walk_spills(stmts[stmts.len() - 1], m, p)
    }
}

/// How many statements `s` becomes: a hoisted loop gains its preheader.
pub open spec fn walk_out_len(s: Stmt, m: u64, p: Params) -> int {
    match s {
        Stmt::Loop { body, .. } => if hoists(body@, m, p) {
            seq_loads(body@, m).len() + 1int
        } else {
            1
        },
        _ => 1,
    }
}

/// Whether `outs` is what `s` becomes and `tys` the types of the locals it adds, the locals
/// numbered from `nl` and the guard labels from `lab`: a loop that hoists gets its preheader in
/// front and its body rewritten (and is not walked further); any other loop, block, `if` or
/// try_table is walked inside; other statements stay.
pub open spec fn walked_stmt(
    s: Stmt,
    outs: Seq<Stmt>,
    tys: Seq<ValType>,
    nl: int,
    lab: int,
    spill: Temp,
    m: u64,
    p: Params,
) -> bool
    decreases s, 1int,
{
    match s {
        Stmt::Loop { label, body } => if hoists(body@, m, p) {
            exists|h: Hoist|
                #[trigger] hoist_for(h, body@, nl, spill, m) && outs.len() == h.keys@.len() + 1 && reloads_of(
                    outs.subrange(0, outs.len() - 1),
                    h,
                ) && (match outs[outs.len() - 1] {
                    Stmt::Loop { label: l2, body: b2 } => l2 == label && hoisted_seq(body@, b2@, h, lab),
                    _ => false,
                }) && tys == h.keys@.map_values(|k: LoadKey| load_ty(k.2))
        } else {
            outs.len() == 1 && match outs[0] {
                Stmt::Loop { label: l2, body: b2 } => l2 == label && walked_seq(body@, b2@, tys, nl, lab, spill, m, p),
                _ => false,
            }
        },
        Stmt::Block { label, body } => outs.len() == 1 && match outs[0] {
            Stmt::Block { label: l2, body: b2 } => l2 == label && walked_seq(body@, b2@, tys, nl, lab, spill, m, p),
            _ => false,
        },
        Stmt::TryTable { label, catches, body } => outs.len() == 1 && match outs[0] {
            Stmt::TryTable { label: l2, catches: c2, body: b2 } => l2 == label && c2 == catches && walked_seq(
                body@,
                b2@,
                tys,
                nl,
                lab,
                spill,
                m,
                p,
            ),
            _ => false,
        },
        Stmt::If { label, cond, then, els } => {
            let nt = seq_walk_locals(then@, m, p) as int;
            outs.len() == 1 && tys.len() >= nt && match outs[0] {
                Stmt::If { label: l2, cond: c2, then: t2, els: e2 } => l2 == label && c2 == cond && walked_seq(
                    then@,
                    t2@,
                    tys.subrange(0, nt),
                    nl,
                    lab,
                    spill,
                    m,
                    p,
                ) && walked_seq(
                    els@,
                    e2@,
                    tys.subrange(nt, tys.len() as int),
                    nl + nt,
                    lab + seq_walk_labels(then@, m, p),
                    spill,
                    m,
                    p,
                ),
                _ => false,
            }
        },
        _ => outs == seq![s] && tys.len() == 0,
    }
}

/// `walked_stmt` over a sequence, the locals and labels threaded in order.
pub open spec fn walked_seq(
    ins: Seq<Stmt>,
    outs: Seq<Stmt>,
    tys: Seq<ValType>,
    nl: int,
    lab: int,
    spill: Temp,
    m: u64,
    p: Params,
) -> bool
    decreases ins, 0int,
{
    if ins.len() == 0 {
        outs.len() == 0 && tys.len() == 0
    } else {
        let prefix = ins.subrange(0, ins.len() - 1);
        let last = ins[ins.len() - 1];
        let cut = outs.len() - walk_out_len(last, m, p);
        let tcut = tys.len() - walk_locals(last, m, p);
        &&& cut >= 0
        &&& tcut >= 0
        &&& walked_seq(prefix, outs.subrange(0, cut), tys.subrange(0, tcut), nl, lab, spill, m, p)
        &&& walked_stmt(
            last,
            outs.subrange(cut, outs.len() as int),
            tys.subrange(tcut, tys.len() as int),
            nl + seq_walk_locals(prefix, m, p),
            lab + seq_walk_labels(prefix, m, p),
            spill,
            m,
            p,
        )
    }
}

// ---------------------------------------------------------------------------------------------
// Walking the functions.

proof fn lemma_expr_loads_hoistable(e: Expr, m: u64, k: LoadKey)
    requires
        expr_loads(e, m).contains(k),
    ensures
        hoistable(k, m),
    decreases e,
{
    match e {
        Expr::Un(_, a) => if expr_loads(*a, m).contains(k) {
            lemma_expr_loads_hoistable(*a, m, k);
        },
        Expr::Bin(_, a, b) => {
            if expr_loads(*a, m).contains(k) {
                lemma_expr_loads_hoistable(*a, m, k);
            }
            if expr_loads(*b, m).contains(k) {
                lemma_expr_loads_hoistable(*b, m, k);
            }
        },
        Expr::Load { addr, .. } => if expr_loads(*addr, m).contains(k) {
            lemma_expr_loads_hoistable(*addr, m, k);
        },
        Expr::Select { cond, then, els } => {
            if expr_loads(*cond, m).contains(k) {
                lemma_expr_loads_hoistable(*cond, m, k);
            }
            if expr_loads(*then, m).contains(k) {
                lemma_expr_loads_hoistable(*then, m, k);
            }
            if expr_loads(*els, m).contains(k) {
                lemma_expr_loads_hoistable(*els, m, k);
            }
        },
        _ => {},
    }
}

proof fn lemma_exprs_loads_hoistable(es: Seq<Expr>, m: u64, k: LoadKey)
    requires
        exprs_loads(es, m).contains(k),
    ensures
        hoistable(k, m),
    decreases es.len(),
{
    if es.len() > 0 {
        if exprs_loads(es.subrange(0, es.len() - 1), m).contains(k) {
            lemma_exprs_loads_hoistable(es.subrange(0, es.len() - 1), m, k);
        } else {
            lemma_expr_loads_hoistable(es[es.len() - 1], m, k);
        }
    }
}

proof fn lemma_stmt_loads_hoistable(s: Stmt, m: u64, k: LoadKey)
    requires
        stmt_loads(s, m).contains(k),
    ensures
        hoistable(k, m),
    decreases s,
{
    if exprs_loads(direct_exprs(s), m).contains(k) {
        lemma_exprs_loads_hoistable(direct_exprs(s), m, k);
    } else {
        match s {
            Stmt::Block { body, .. } | Stmt::Loop { body, .. } | Stmt::TryTable { body, .. } => lemma_seq_loads_hoistable(
                body@,
                m,
                k,
            ),
            Stmt::If { then, els, .. } => if seq_loads(then@, m).contains(k) {
                lemma_seq_loads_hoistable(then@, m, k);
            } else {
                lemma_seq_loads_hoistable(els@, m, k);
            },
            _ => {},
        }
    }
}

/// Every load a sequence holds that is gathered for hoisting can run early.
proof fn lemma_seq_loads_hoistable(stmts: Seq<Stmt>, m: u64, k: LoadKey)
    requires
        seq_loads(stmts, m).contains(k),
    ensures
        hoistable(k, m),
    decreases stmts,
{
    if stmts.len() > 0 {
        if seq_loads(stmts.subrange(0, stmts.len() - 1), m).contains(k) {
            lemma_seq_loads_hoistable(stmts.subrange(0, stmts.len() - 1), m, k);
        } else {
            lemma_stmt_loads_hoistable(stmts[stmts.len() - 1], m, k);
        }
    }
}

proof fn lemma_ascending_len(ks: Seq<LoadKey>)
    requires
        keys_ascending(ks),
    ensures
        ks.to_set().len() == ks.len(),
{
    assert(ks.no_duplicates()) by {
        assert forall|a: int, b: int| 0 <= a < ks.len() && 0 <= b < ks.len() && a != b implies ks[a] != ks[b] by {
            if a < b {
                assert(key_before(ks[a], ks[b]));
            } else {
                assert(key_before(ks[b], ks[a]));
            }
        }
    }
    ks.unique_seq_to_set();
}

/// The least start and greatest end address among the hoistable loads `ks`.
fn window(ks: &Vec<LoadKey>, Ghost(m): Ghost<u64>) -> (r: (u64, u64))
    requires
        ks@.len() > 0,
        forall|i: int| 0 <= i < ks@.len() ==> hoistable(#[trigger] ks@[i], m),
    ensures
        r.0 == min_start(ks@),
        r.1 == max_end(ks@),
        r.0 < 0x1_0000_0000,
        r.1 < 0x1_0000_0000,
{
    let mut lo: u64 = ks[0].0 as u64 + ks[0].1;
    let mut hi: u64 = lo + load_width_exec(ks[0].2) as u64;
    let mut i: usize = 1;
    assert(ks@.subrange(0, 1).drop_last() =~= Seq::<LoadKey>::empty());
    assert(ks@.subrange(0, 1).last() == ks@[0]);
    assert(max_end(ks@.subrange(0, 1).drop_last()) == 0);
    assert(ks@.subrange(0, 1)[0] == ks@[0]);
    assert(hoistable(ks@[0], m));
    while i < ks.len()
        invariant
            1 <= i <= ks@.len(),
            forall|t: int| 0 <= t < ks@.len() ==> hoistable(#[trigger] ks@[t], m),
            lo == min_start(ks@.subrange(0, i as int)),
            hi == max_end(ks@.subrange(0, i as int)),
            lo < 0x1_0000_0000,
            hi < 0x1_0000_0000,
        decreases ks@.len() - i,
    {
        let k = ks[i];
        assert(hoistable(ks@[i as int], m));
        let x = k.0 as u64 + k.1;
        let y = x + load_width_exec(k.2) as u64;
        proof {
            let t = ks@.subrange(0, i + 1);
            assert(t.drop_last() =~= ks@.subrange(0, i as int));
            assert(t.last() == k);
        }
        if x < lo {
            lo = x;
        }
        if y > hi {
            hi = y;
        }
        i = i + 1;
    }
    assert(ks@.subrange(0, ks@.len() as int) =~= ks@);
    (lo, hi)
}

/// Hoisting through one function: the thresholds, the memory floor, what has been added so far.
struct Walk {
    mem_min: u64,
    params: Params,
    next_local: u32,
    new_locals: Vec<ValType>,
    next_label: u32,
    spill: Temp,
    spill_used: bool,
}

impl Walk {
    /// Hoists out of the loop labelled `label` when it qualifies, appending its preheader and the
    /// rewritten loop to `out`; hands the body back untouched when it does not.
    fn try_hoist(&mut self, label: Label, body: Vec<Stmt>, out: &mut Vec<Stmt>) -> (r: Option<Vec<Stmt>>)
        requires
            old(self).next_local + walk_locals(Stmt::Loop { label, body }, old(self).mem_min, old(self).params) <= u32::MAX,
            old(self).next_label + walk_labels(Stmt::Loop { label, body }, old(self).mem_min, old(self).params) <= u32::MAX,
        ensures
            r matches Some(b) ==> b == body && !hoists(body@, old(self).mem_min, old(self).params) && *final(self)
                == *old(self) && final(out)@ == old(out)@,
            r is None ==> hoists(body@, old(self).mem_min, old(self).params) && ({
                let s = Stmt::Loop { label, body };
                let m = old(self).mem_min;
                let p = old(self).params;
                &&& final(self).mem_min == m
                &&& final(self).params == p
                &&& final(self).spill == old(self).spill
                &&& final(out)@.len() == old(out)@.len() + walk_out_len(s, m, p)
                &&& final(out)@.subrange(0, old(out)@.len() as int) == old(out)@
                &&& final(self).new_locals@.len() == old(self).new_locals@.len() + walk_locals(s, m, p)
                &&& final(self).new_locals@.subrange(0, old(self).new_locals@.len() as int) == old(self).new_locals@
                &&& walked_stmt(
                    s,
                    final(out)@.subrange(old(out)@.len() as int, final(out)@.len() as int),
                    final(self).new_locals@.subrange(old(self).new_locals@.len() as int, final(self).new_locals@.len() as int),
                    old(self).next_local as int,
                    old(self).next_label as int,
                    old(self).spill,
                    m,
                    p,
                )
                &&& final(self).next_local == old(self).next_local + walk_locals(s, m, p)
                &&& final(self).next_label == old(self).next_label + walk_labels(s, m, p)
                &&& final(self).spill_used == (old(self).spill_used || walk_spills(s, m, p))
            }),
    {
        let ghost m = self.mem_min;
        let ghost p = self.params;
        let ghost o0 = out@;
        let ghost t0 = self.new_locals@;
        let ghost nl0 = self.next_local as int;
        let ghost b = body@;
        if has_barrier(body.as_slice()) {
            return Some(body);
        }
        let mut keys: Vec<LoadKey> = Vec::new();
        collect_seq(body.as_slice(), self.mem_min, &mut keys);
        assert(keys@.to_set() =~= seq_loads(b, m));
        proof {
            lemma_ascending_len(keys@);
        }
        let stores = has_store(body.as_slice());
        let needed: usize = if stores {
            self.params.min_hoisted_with_stores
        } else {
            1
        };
        if !(keys.len() > 0 && keys.len() >= needed) {
            return Some(body);
        }
        assert(hoists(b, m, p));
        assert(walk_locals(Stmt::Loop { label, body }, m, p) == keys@.len());
        let ghost kv = keys@;
        proof {
            assert forall|i: int| 0 <= i < keys@.len() implies hoistable(#[trigger] keys@[i], m) by {
                assert(keys@.to_set().contains(keys@[i]));
                lemma_seq_loads_hoistable(b, m, keys@[i]);
            }
        }
        let (lo, hi) = window(&keys, Ghost(m));
        let ghost s0 = *self;
        let mut i: usize = 0;
        while i < keys.len()
            invariant
                i <= keys@.len(),
                self.new_locals@ =~= t0 + keys@.subrange(0, i as int).map_values(|k: LoadKey| load_ty(k.2)),
                self.next_local == s0.next_local,
                self.next_label == s0.next_label,
                self.spill == s0.spill,
                self.spill_used == s0.spill_used,
                self.mem_min == s0.mem_min,
                self.params == s0.params,
            decreases keys@.len() - i,
        {
            self.new_locals.push(load_ty_exec(keys[i].2));
            i = i + 1;
        }
        assert(keys@.subrange(0, keys@.len() as int) =~= keys@);
        let n = keys.len() as u32;
        let h = Hoist { keys, base: self.next_local, lo, hi, spill: self.spill };
        self.next_local = self.next_local + n;
        let mut pre = reloads_exec(&h);
        let ghost pv = pre@;
        let b2 = hoist_seq(body, &h, &mut self.next_label);
        if stores {
            self.spill_used = true;
        }
        out.append(&mut pre);
        out.push(Stmt::Loop { label, body: b2 });
        proof {
            let outs = out@.subrange(o0.len() as int, out@.len() as int);
            assert(outs.subrange(0, outs.len() - 1) =~= pv);
            assert(out@.subrange(0, o0.len() as int) =~= o0);
            assert(self.new_locals@.subrange(0, t0.len() as int) =~= t0);
            assert(self.new_locals@.subrange(t0.len() as int, self.new_locals@.len() as int) =~= h.keys@.map_values(
                |k: LoadKey| load_ty(k.2),
            ));
            assert(h.keys@ == kv);
            assert(keys_ascending(h.keys@));
            assert(h.keys@.to_set() == seq_loads(b, m));
            assert(h.lo == min_start(h.keys@));
            assert(h.hi == max_end(h.keys@));
            assert(hoist_for(h, b, nl0, self.spill, m));
        }
        None
    }

    /// Appends what `s` becomes to `out`.
    fn walk_stmt(&mut self, s: Stmt, out: &mut Vec<Stmt>)
        requires
            old(self).next_local + walk_locals(s, old(self).mem_min, old(self).params) <= u32::MAX,
            old(self).next_label + walk_labels(s, old(self).mem_min, old(self).params) <= u32::MAX,
        ensures
            final(self).mem_min == old(self).mem_min,
            final(self).params == old(self).params,
            final(self).spill == old(self).spill,
            final(out)@.len() == old(out)@.len() + walk_out_len(s, old(self).mem_min, old(self).params),
            final(out)@.subrange(0, old(out)@.len() as int) == old(out)@,
            final(self).new_locals@.len() == old(self).new_locals@.len() + walk_locals(s, old(self).mem_min, old(self).params),
            final(self).new_locals@.subrange(0, old(self).new_locals@.len() as int) == old(self).new_locals@,
            walked_stmt(
                s,
                final(out)@.subrange(old(out)@.len() as int, final(out)@.len() as int),
                final(self).new_locals@.subrange(old(self).new_locals@.len() as int, final(self).new_locals@.len() as int),
                old(self).next_local as int,
                old(self).next_label as int,
                old(self).spill,
                old(self).mem_min,
                old(self).params,
            ),
            final(self).next_local == old(self).next_local + walk_locals(s, old(self).mem_min, old(self).params),
            final(self).next_label == old(self).next_label + walk_labels(s, old(self).mem_min, old(self).params),
            final(self).spill_used == (old(self).spill_used || walk_spills(s, old(self).mem_min, old(self).params)),
        decreases s, 1int,
    {
        let ghost m = self.mem_min;
        let ghost p = self.params;
        let ghost o0 = out@;
        let ghost t0 = self.new_locals@;
        let ghost nl0 = self.next_local as int;
        let ghost lab0 = self.next_label as int;
        match s {
            Stmt::Loop { label, body } => {
                match self.try_hoist(label, body, out) {
                    None => {},
                    Some(body) => {
                        let b2 = self.walk_seq(body);
                        out.push(Stmt::Loop { label, body: b2 });
                        proof {
                            assert(out@.subrange(0, o0.len() as int) =~= o0);
                            assert(out@.subrange(o0.len() as int, out@.len() as int) =~= seq![out@[o0.len() as int]]);
                        }
                    },
                }
            },
            Stmt::Block { label, body } => {
                let b2 = self.walk_seq(body);
                out.push(Stmt::Block { label, body: b2 });
                proof {
                    assert(out@.subrange(0, o0.len() as int) =~= o0);
                    assert(out@.subrange(o0.len() as int, out@.len() as int) =~= seq![out@[o0.len() as int]]);
                }
            },
            Stmt::TryTable { label, catches, body } => {
                let b2 = self.walk_seq(body);
                out.push(Stmt::TryTable { label, catches, body: b2 });
                proof {
                    assert(out@.subrange(0, o0.len() as int) =~= o0);
                    assert(out@.subrange(o0.len() as int, out@.len() as int) =~= seq![out@[o0.len() as int]]);
                }
            },
            Stmt::If { label, cond, then, els } => {
                let t2 = self.walk_seq(then);
                let ghost t1 = self.new_locals@;
                let e2 = self.walk_seq(els);
                out.push(Stmt::If { label, cond, then: t2, els: e2 });
                proof {
                    assert(out@.subrange(0, o0.len() as int) =~= o0);
                    assert(out@.subrange(o0.len() as int, out@.len() as int) =~= seq![out@[o0.len() as int]]);
                    let tys = self.new_locals@.subrange(t0.len() as int, self.new_locals@.len() as int);
                    assert(tys.subrange(0, t1.len() - t0.len()) =~= t1.subrange(t0.len() as int, t1.len() as int));
                    assert(tys.subrange(t1.len() - t0.len(), tys.len() as int) =~= self.new_locals@.subrange(
                        t1.len() as int,
                        self.new_locals@.len() as int,
                    ));
                    assert(self.new_locals@.subrange(0, t0.len() as int) =~= t1.subrange(0, t0.len() as int));
                }
            },
            other => {
                out.push(other);
                proof {
                    assert(out@.subrange(0, o0.len() as int) =~= o0);
                    assert(out@.subrange(o0.len() as int, out@.len() as int) =~= seq![other]);
                    assert(self.new_locals@.subrange(0, t0.len() as int) =~= t0);
                    assert(self.new_locals@.subrange(t0.len() as int, self.new_locals@.len() as int) =~= Seq::<ValType>::empty());
                }
            },
        }
    }

    /// What `stmts` become (see [`walked_seq`]).
    fn walk_seq(&mut self, stmts: Vec<Stmt>) -> (r: Vec<Stmt>)
        requires
            old(self).next_local + seq_walk_locals(stmts@, old(self).mem_min, old(self).params) <= u32::MAX,
            old(self).next_label + seq_walk_labels(stmts@, old(self).mem_min, old(self).params) <= u32::MAX,
        ensures
            final(self).mem_min == old(self).mem_min,
            final(self).params == old(self).params,
            final(self).spill == old(self).spill,
            final(self).new_locals@.len() == old(self).new_locals@.len() + seq_walk_locals(stmts@, old(self).mem_min, old(self).params),
            final(self).new_locals@.subrange(0, old(self).new_locals@.len() as int) == old(self).new_locals@,
            walked_seq(
                stmts@,
                r@,
                final(self).new_locals@.subrange(old(self).new_locals@.len() as int, final(self).new_locals@.len() as int),
                old(self).next_local as int,
                old(self).next_label as int,
                old(self).spill,
                old(self).mem_min,
                old(self).params,
            ),
            final(self).next_local == old(self).next_local + seq_walk_locals(stmts@, old(self).mem_min, old(self).params),
            final(self).next_label == old(self).next_label + seq_walk_labels(stmts@, old(self).mem_min, old(self).params),
            final(self).spill_used == (old(self).spill_used || seq_walk_spills(stmts@, old(self).mem_min, old(self).params)),
        decreases stmts@, 0int,
    {
        let ghost m = self.mem_min;
        let ghost p = self.params;
        let ghost orig = stmts@;
        let ghost n = orig.len() as int;
        let ghost t0 = self.new_locals@;
        let ghost nl0 = self.next_local as int;
        let ghost lab0 = self.next_label as int;
        let ghost sp0 = self.spill_used;
        let mut src = stmts;
        let mut rev: Vec<Stmt> = Vec::new();
        while src.len() > 0
            invariant
                orig.len() == n,
                src@.len() + rev@.len() == n,
                src@ == orig.subrange(0, src@.len() as int),
                forall|k: int| 0 <= k < rev@.len() ==> rev@[k] == orig[n - 1 - k],
            decreases src@.len(),
        {
            match src.pop() {
                Some(x) => rev.push(x),
                None => {},
            }
        }
        let mut out: Vec<Stmt> = Vec::new();
        assert(orig.subrange(0, 0).len() == 0);
        assert(self.new_locals@.subrange(t0.len() as int, t0.len() as int) =~= Seq::<ValType>::empty());
        assert(self.new_locals@.subrange(0, t0.len() as int) =~= t0);
        while rev.len() > 0
            invariant
                orig.len() == n,
                orig == stmts@,
                m == self.mem_min,
                p == self.params,
                nl0 + seq_walk_locals(orig, m, p) <= u32::MAX,
                lab0 + seq_walk_labels(orig, m, p) <= u32::MAX,
                rev@.len() <= n,
                forall|k: int| 0 <= k < rev@.len() ==> rev@[k] == orig[n - 1 - k],
                self.spill == old(self).spill,
                self.new_locals@.len() >= t0.len(),
                self.new_locals@.subrange(0, t0.len() as int) == t0,
                walked_seq(
                    orig.subrange(0, n - rev@.len()),
                    out@,
                    self.new_locals@.subrange(t0.len() as int, self.new_locals@.len() as int),
                    nl0,
                    lab0,
                    self.spill,
                    m,
                    p,
                ),
                self.new_locals@.len() == t0.len() + seq_walk_locals(orig.subrange(0, n - rev@.len()), m, p),
                self.next_local == nl0 + seq_walk_locals(orig.subrange(0, n - rev@.len()), m, p),
                self.next_label == lab0 + seq_walk_labels(orig.subrange(0, n - rev@.len()), m, p),
                self.spill_used == (sp0 || seq_walk_spills(orig.subrange(0, n - rev@.len()), m, p)),
            decreases rev@.len(),
        {
            let ghost j = n - rev@.len();
            let s = match rev.pop() {
                Some(x) => x,
                None => Stmt::Unreachable,
            };
            assert(s == orig[j]);
            proof {
                lemma_walk_prefix(orig, j + 1, m, p);
                let t = orig.subrange(0, j + 1);
                assert(t.subrange(0, t.len() - 1) =~= orig.subrange(0, j));
                assert(t[t.len() - 1] == orig[j]);
                assert(decreases_to!(orig => orig[j]));
            }
            let ghost o1 = out@;
            let ghost tl1 = self.new_locals@;
            self.walk_stmt(s, &mut out);
            proof {
                let t = orig.subrange(0, j + 1);
                let tys = self.new_locals@.subrange(t0.len() as int, self.new_locals@.len() as int);
                let cut = out@.len() - walk_out_len(orig[j], m, p);
                let tcut = tys.len() - walk_locals(orig[j], m, p);
                assert(out@.subrange(0, cut) =~= o1);
                assert(tys.subrange(0, tcut) =~= tl1.subrange(t0.len() as int, tl1.len() as int));
                assert(tys.subrange(tcut, tys.len() as int) =~= self.new_locals@.subrange(tl1.len() as int, self.new_locals@.len() as int));
                assert(self.new_locals@.subrange(0, t0.len() as int) =~= tl1.subrange(0, t0.len() as int));
            }
        }
        assert(orig.subrange(0, n) =~= orig);
        out
    }
}

proof fn lemma_walk_prefix(stmts: Seq<Stmt>, j: int, m: u64, p: Params)
    requires
        0 <= j <= stmts.len(),
    ensures
        seq_walk_locals(stmts.subrange(0, j), m, p) <= seq_walk_locals(stmts, m, p),
        seq_walk_labels(stmts.subrange(0, j), m, p) <= seq_walk_labels(stmts, m, p),
    decreases stmts.len() - j,
{
    if j < stmts.len() {
        lemma_walk_prefix(stmts, j + 1, m, p);
        let t = stmts.subrange(0, j + 1);
        assert(t.subrange(0, t.len() - 1) =~= stmts.subrange(0, j));
    } else {
        assert(stmts.subrange(0, j) =~= stmts);
    }
}

// ---------------------------------------------------------------------------------------------
// The pass.

/// The memory's minimum size in bytes, the floor it never shrinks below, defined or imported;
/// `None` without a memory.
pub open spec fn memory_min_spec(module: Module) -> Option<u64> {
    match module.memory {
        Some(mem) => Some((mem.min_pages * 65536) as u64),
        None => match module.imported_memory {
            Some(imp) => Some((imp.min_pages * 65536) as u64),
            None => None,
        },
    }
}

/// The memory's minimum size in bytes (see [`memory_min_spec`]). The size must fit in 64 bits.
pub fn memory_min_bytes(module: &Module) -> (r: Option<u64>)
    requires
        module.memory matches Some(mem) ==> mem.min_pages * 65536 <= u64::MAX,
        module.imported_memory matches Some(imp) ==> imp.min_pages * 65536 <= u64::MAX,
    ensures
        r == memory_min_spec(*module),
{
    match &module.memory {
        Some(mem) => Some(mem.min_pages * 65536),
        None => match &module.imported_memory {
            Some(imp) => Some(imp.min_pages * 65536),
            None => None,
        },
    }
}

/// Whether hoisting through `f` keeps its new locals and guard labels within 32 bits, and its
/// type is one of `types`.
pub open spec fn hoist_budget(f: Func, types: Seq<FuncType>, m: u64, p: Params) -> bool {
    &&& f.type_idx < types.len()
    &&& types[f.type_idx as int].params@.len() + f.locals@.len() + seq_walk_locals(f.body@, m, p) <= u32::MAX
    &&& seq_max_label(f.body@) + 1 + seq_walk_labels(f.body@, m, p) <= u32::MAX
}

/// Whether `f2` is `f` after hoisting: its loops walked (see [`walked_seq`]) with the new locals
/// numbered after its parameters and locals, the guard labels after its largest label, and a
/// spill temp one deeper than its deepest, which joins its temps (kept ascending, each once) when
/// a store was guarded.
pub open spec fn func_hoisted(f: Func, f2: Func, types: Seq<FuncType>, m: u64, p: Params) -> bool {
    let nl = (types[f.type_idx as int].params@.len() + f.locals@.len()) as int;
    let lab = (seq_max_label(f.body@) + 1) as int;
    let spill = result_temp(f.temps@, ValType::I32);
    let n0 = f.locals@.len() as int;
    &&& f2.type_idx == f.type_idx
    &&& f2.locals@.len() == n0 + seq_walk_locals(f.body@, m, p)
    &&& f2.locals@.subrange(0, n0) == f.locals@
    &&& walked_seq(f.body@, f2.body@, f2.locals@.subrange(n0, f2.locals@.len() as int), nl, lab, spill, m, p)
    &&& if seq_walk_spills(f.body@, m, p) {
        temps_ascending(f2.temps@) && f2.temps@.to_set() == f.temps@.to_set().insert(spill)
    } else {
        f2.temps@ == f.temps@
    }
}

fn hoist_func(f: Func, types: &Vec<FuncType>, mem_min: u64, params: &Params) -> (r: Func)
    requires
        hoist_budget(f, types@, mem_min, *params),
    ensures
        func_hoisted(f, r, types@, mem_min, *params),
{
    let ghost f0 = f;
    let Func { type_idx, locals, temps, body } = f;
    let np = types[type_idx as usize].params.len();
    let nl = (np + locals.len()) as u32;
    proof {
        lemma_max_label_bounded(body@);
    }
    let lab = max_label_id(body.as_slice()) + 1;
    let depth = max_depth_exec(&temps).wrapping_add(1);
    let spill = Temp { depth, ty: ValType::I32 };
    assert(spill == result_temp(temps@, ValType::I32));
    let mut w = Walk {
        mem_min,
        params: *params,
        next_local: nl,
        new_locals: Vec::new(),
        next_label: lab,
        spill,
        spill_used: false,
    };
    let body2 = w.walk_seq(body);
    let ghost added = w.new_locals@;
    let mut locals = locals;
    let ghost l0 = locals@;
    locals.append(&mut w.new_locals);
    assert(locals@.subrange(0, l0.len() as int) =~= l0);
    assert(locals@.subrange(l0.len() as int, locals@.len() as int) =~= added);
    assert(added.subrange(0, added.len() as int) =~= added);
    let temps2 = if w.spill_used {
        let mut t = temps;
        let ghost before = t@;
        t.push(spill);
        assert(t@.to_set() =~= before.to_set().insert(spill)) by {
            assert forall|x: Temp| t@.to_set().contains(x) <==> before.to_set().insert(spill).contains(x) by {
                if t@.contains(x) {
                    let q = choose|q: int| 0 <= q < t@.len() && t@[q] == x;
                    if q < before.len() {
                        assert(before[q] == x);
                    }
                }
                if before.contains(x) {
                    let q = choose|q: int| 0 <= q < before.len() && before[q] == x;
                    assert(t@[q] == x);
                }
                if x == spill {
                    assert(t@[before.len() as int] == x);
                }
            }
        }
        sort_temps(&t)
    } else {
        temps
    };
    Func { type_idx, locals, temps: temps2, body: body2 }
}

/// Hoists the invariant constant-address loads out of every eligible loop of every function of
/// `funcs` (see [`func_hoisted`]). Without a memory (`mem_min_bytes` is `None`) nothing changes.
pub fn hoist(funcs: &mut Vec<Func>, types: &Vec<FuncType>, mem_min_bytes: Option<u64>, params: &Params)
    requires
        mem_min_bytes matches Some(m) ==> forall|i: int| 0 <= i < old(funcs)@.len() ==> hoist_budget(
            #[trigger] old(funcs)@[i],
            types@,
            m,
            *params,
        ),
    ensures
        mem_min_bytes is None ==> final(funcs)@ == old(funcs)@,
        mem_min_bytes matches Some(m) ==> final(funcs)@.len() == old(funcs)@.len() && forall|i: int| 0 <= i < old(funcs)@.len() ==> func_hoisted(
            #[trigger] old(funcs)@[i],
            final(funcs)@[i],
            types@,
            m,
            *params,
        ),
{
    let mem_min = match mem_min_bytes {
        Some(m) => m,
        None => {
            return;
        },
    };
    let ghost orig = funcs@;
    let ghost n = orig.len() as int;
    let mut src: Vec<Func> = Vec::new();
    std::mem::swap(&mut src, funcs);
    let mut rev: Vec<Func> = Vec::new();
    while src.len() > 0
        invariant
            orig.len() == n,
            src@.len() + rev@.len() == n,
            src@ == orig.subrange(0, src@.len() as int),
            forall|k: int| 0 <= k < rev@.len() ==> rev@[k] == orig[n - 1 - k],
        decreases src@.len(),
    {
        match src.pop() {
            Some(x) => rev.push(x),
            None => {},
        }
    }
    while rev.len() > 0
        invariant
            orig.len() == n,
            forall|i: int| 0 <= i < n ==> hoist_budget(#[trigger] orig[i], types@, mem_min, *params),
            rev@.len() <= n,
            forall|k: int| 0 <= k < rev@.len() ==> rev@[k] == orig[n - 1 - k],
            funcs@.len() == n - rev@.len(),
            forall|i: int| 0 <= i < funcs@.len() ==> func_hoisted(#[trigger] orig[i], funcs@[i], types@, mem_min, *params),
        decreases rev@.len(),
    {
        let ghost j = n - rev@.len();
        let f = match rev.pop() {
            Some(x) => x,
            None => Func { type_idx: 0, locals: Vec::new(), temps: Vec::new(), body: Vec::new() },
        };
        assert(f == orig[j]);
        let f2 = hoist_func(f, types, mem_min, params);
        funcs.push(f2);
    }
}

// ---------------------------------------------------------------------------------------------
// What the guard decides.

/// The guard after a store fires exactly when the bytes the store writes, `[eff, eff + width)`
/// at its effective address `eff`, meet the hoisted window `[lo, hi)`; otherwise it evaluates
/// to 0. This holds for every store that does not trap (its bytes lie below 4 GiB) and every
/// window [`hoistable`] loads can make, which ends at least 8 bytes short of 4 GiB.
pub proof fn law_guard_fires_exactly_on_overlap(
    h: Hoist,
    op: StoreOp,
    offset: u64,
    locals: spec_fn(u32) -> u32,
    temps: spec_fn(Temp) -> u32,
    pages: u32,
)
    requires
        hoist_wf(h),
        h.hi <= 0x1_0000_0000 - 8,
        (temps(h.spill) as int + offset as int + store_width(op) as int) <= 0x1_0000_0000,
    ensures
        ({
            let eff = temps(h.spill) as int + offset as int;
            eval_i32(overlap(h, op, offset), locals, temps, pages) == flag((eff < h.hi) && (h.lo < eff + store_width(op)))
        }),
{
    reveal_with_fuel(eval_i32, 6);
    let v = temps(h.spill);
    let eff = v as int + offset as int;
    let w = store_width(op) as u32;
    assert(v & u32::MAX == v) by (bit_vector);
    let e = effective(h.spill, offset);
    assert(eval_i32(e, locals, temps, pages) as int == eff) by {
        if offset != 0 {
            assert(eval_i32(e, locals, temps, pages) == wrap_add(v & u32::MAX, offset as u32));
        }
    }
    let ee = eval_i32(e, locals, temps, pages);
    if eff + store_width(op) < 0x1_0000_0000 {
        assert(wrap_add(ee, w) as int == eff + store_width(op));
    } else {
        assert(wrap_add(ee, w) == 0);
    }
    assert(h.lo as u32 as int == h.lo && h.hi as u32 as int == h.hi);
    lemma_flag_and((wrap_add(ee, w) > h.lo as u32), (ee < h.hi as u32));
}

/// Reloading a hoisted load re-reads exactly the load the loop body had: for every
/// constant-address load, the reload of its key sets the local from that very load.
pub proof fn law_reload_reads_the_hoisted_load(e: Expr, local: u32)
    requires
        const_load(e) is Some,
    ensures
        reload(const_load(e)->0, local) == (Stmt::LocalSet { idx: local, expr: e }),
{
}

/// A hoisted load is read from the local its reload fills: wherever the loop body's
/// constant-address load `e` is replaced by a local read, the reloads set that very local from
/// `e` itself.
pub proof fn law_replaced_load_reads_its_reload(h: Hoist, rs: Seq<Stmt>, e: Expr)
    requires
        hoist_wf(h),
        reloads_of(rs, h),
        const_load(e) is Some,
        h.keys@.contains(const_load(e)->0),
    ensures
        replace_expr(e, h) is LocalGet,
        exists|i: int|
            0 <= i < rs.len() && rs[i] == (Stmt::LocalSet { idx: replace_expr(e, h)->LocalGet_0, expr: e }),
{
    let k = const_load(e)->0;
    let i = choose|i: int| 0 <= i < h.keys@.len() && h.keys@[i] == k;
    assert(0 <= i < h.keys@.len() && h.keys@[i] == k);
    assert(replace_expr(e, h) == Expr::LocalGet(local_for(h, k)));
    assert(local_for(h, k) == (h.base + i) as u32);
    assert(rs[i] == reload(h.keys@[i], (h.base + i) as u32));
}

} // verus!
