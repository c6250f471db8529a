use dewasm_backend::ir::{
    BinOp, BrTarget, Expr, Func, FuncType, ImportedMemory, Label, LoadOp, Memory, Module, Stmt, StoreOp, Temp, ValType,
};
use dewasm_backend::licm::{hoist, memory_min_bytes, Params};

fn module_types() -> Vec<FuncType> {
    vec![FuncType { params: vec![ValType::I32], results: vec![] }]
}

fn load(addr: u32) -> Expr {
    Expr::Load { op: LoadOp::I32Load, addr: Box::new(Expr::I32Const(addr)), offset: 0 }
}

fn loop_func(body: Vec<Stmt>) -> Func {
    Func { type_idx: 0, locals: vec![], temps: vec![], body: vec![Stmt::Loop { label: Label { id: 0, referenced: true }, body }] }
}

const TEST_PARAMS: Params = Params { min_hoisted_with_stores: 2 };

#[test]
fn hoists_and_guards() {
    let mut funcs = vec![loop_func(vec![
        Stmt::Store {
            op: StoreOp::I32Store8,
            addr: Expr::LocalGet(0),
            value: Expr::Bin(BinOp::I32Add, Box::new(load(100)), Box::new(load(200))),
            offset: 0,
        },
        Stmt::Br(BrTarget::Label { label: 0, is_loop: true, assigns: vec![] }),
    ])];
    hoist(&mut funcs, &module_types(), Some(65536), &TEST_PARAMS);
    let f = &funcs[0];
    // Two hoisted locals, a preheader of two loads, and the store rewritten to spill + store + guard.
    assert_eq!(f.locals, vec![ValType::I32, ValType::I32]);
    assert_eq!(f.temps.len(), 1);
    assert!(matches!(f.body[0], Stmt::LocalSet { idx: 1, .. }));
    assert!(matches!(f.body[1], Stmt::LocalSet { idx: 2, .. }));
    let Stmt::Loop { body, .. } = &f.body[2] else {
        panic!("loop expected");
    };
    assert!(matches!(body[0], Stmt::Assign { .. }));
    assert!(matches!(body[1], Stmt::Store { addr: Expr::Temp(_), .. }));
    let Stmt::If { then, .. } = &body[2] else {
        panic!("guard expected, got {:?}", body[2]);
    };
    assert_eq!(then.len(), 2);
}

#[test]
fn skips_loops_with_calls() {
    let mut funcs = vec![loop_func(vec![
        Stmt::LocalSet { idx: 0, expr: load(100) },
        Stmt::Call { func: 0, args: vec![], results: vec![] },
    ])];
    hoist(&mut funcs, &module_types(), Some(65536), &TEST_PARAMS);
    assert!(funcs[0].locals.is_empty());
}

#[test]
fn requires_min_size_coverage() {
    let mut funcs = vec![loop_func(vec![Stmt::LocalSet { idx: 0, expr: load(70000) }])];
    hoist(&mut funcs, &module_types(), Some(65536), &TEST_PARAMS);
    assert!(funcs[0].locals.is_empty());
}

#[test]
fn hoists_without_guards_when_no_store() {
    let mut funcs = vec![loop_func(vec![
        Stmt::LocalSet { idx: 0, expr: load(100) },
        Stmt::Br(BrTarget::Label { label: 0, is_loop: true, assigns: vec![] }),
    ])];
    hoist(&mut funcs, &module_types(), Some(65536), &TEST_PARAMS);
    let f = &funcs[0];
    assert_eq!(f.locals, vec![ValType::I32]);
    assert!(matches!(f.body[0], Stmt::LocalSet { idx: 1, .. }));
    let Stmt::Loop { body, .. } = &f.body[1] else {
        panic!("loop expected");
    };
    assert!(matches!(body[0], Stmt::LocalSet { idx: 0, expr: Expr::LocalGet(1) }));
    assert!(f.temps.is_empty());
}

#[test]
fn the_guard_compares_the_store_against_the_hoisted_window() {
    let mut funcs = vec![Func {
        type_idx: 0,
        locals: vec![],
        temps: vec![Temp { depth: 6, ty: ValType::I64 }],
        body: vec![Stmt::Block {
            label: Label { id: 7, referenced: false },
            body: vec![Stmt::Loop {
                label: Label { id: 3, referenced: true },
                body: vec![
                    Stmt::Store { op: StoreOp::I64Store, addr: Expr::LocalGet(0), value: Expr::I64Const(1), offset: 16 },
                    Stmt::LocalSet { idx: 0, expr: load(300) },
                    Stmt::LocalSet {
                        idx: 0,
                        expr: Expr::Load { op: LoadOp::I64Load8U, addr: Box::new(Expr::I32Const(40)), offset: 4 },
                    },
                ],
            }],
        }],
    }];
    hoist(&mut funcs, &module_types(), Some(65536), &TEST_PARAMS);
    let f = &funcs[0];
    // Keys in address order: (40, 4, i64.load8_u) then (300, 0, i32.load).
    assert_eq!(f.locals, vec![ValType::I64, ValType::I32]);
    // The spill temp is one deeper than the deepest, and joins the temps in order.
    assert_eq!(f.temps, vec![Temp { depth: 6, ty: ValType::I64 }, Temp { depth: 7, ty: ValType::I32 }]);
    let Stmt::Block { body, .. } = &f.body[0] else {
        panic!("block expected");
    };
    assert!(matches!(body[0], Stmt::LocalSet { idx: 1, .. }));
    assert!(matches!(body[1], Stmt::LocalSet { idx: 2, .. }));
    let Stmt::Loop { body, .. } = &body[2] else {
        panic!("loop expected");
    };
    let Stmt::If { label, cond, then, els } = &body[2] else {
        panic!("guard expected");
    };
    // The guard's label comes after the function's largest.
    assert_eq!(label.id, 8);
    assert!(els.is_empty());
    assert_eq!(then.len(), 2);
    // Window [44, 304): the store's effective address plus its width above 44, below 304.
    let Expr::Bin(BinOp::I32And, above, below) = cond else {
        panic!("overlap test expected");
    };
    assert!(matches!(**above, Expr::Bin(BinOp::I32GtU, _, ref lo) if matches!(**lo, Expr::I32Const(44))));
    assert!(matches!(**below, Expr::Bin(BinOp::I32LtU, _, ref hi) if matches!(**hi, Expr::I32Const(304))));
    assert!(matches!(body[3], Stmt::LocalSet { idx: 0, expr: Expr::LocalGet(2) }));
    assert!(matches!(body[4], Stmt::LocalSet { idx: 0, expr: Expr::LocalGet(1) }));
}

#[test]
fn a_single_load_under_a_store_is_not_worth_guarding() {
    let mut funcs = vec![loop_func(vec![
        Stmt::Store { op: StoreOp::I32Store, addr: Expr::LocalGet(0), value: load(8), offset: 0 },
    ])];
    hoist(&mut funcs, &module_types(), Some(65536), &TEST_PARAMS);
    assert!(funcs[0].locals.is_empty());
    assert!(matches!(funcs[0].body[0], Stmt::Loop { .. }));
}

#[test]
fn without_a_memory_nothing_is_hoisted() {
    let mut funcs = vec![loop_func(vec![Stmt::LocalSet { idx: 0, expr: load(100) }])];
    hoist(&mut funcs, &module_types(), None, &TEST_PARAMS);
    assert!(funcs[0].locals.is_empty());
}

#[test]
fn the_memory_floor_comes_from_the_defined_or_imported_memory() {
    let mut m = Module {
        types: vec![],
        imported_funcs: vec![],
        imported_globals: vec![],
        imported_memory: None,
        memory: None,
        imported_tables: vec![],
        tables: vec![],
        elems: vec![],
        funcs: vec![],
        debug_files: vec![],
        globals: vec![],
        datas: vec![],
        exports: vec![],
        start: None,
    };
    assert_eq!(memory_min_bytes(&m), None);
    m.imported_memory = Some(ImportedMemory { module: "env".to_string(), name: "mem".to_string(), min_pages: 2, max_pages: None });
    assert_eq!(memory_min_bytes(&m), Some(131072));
    m.memory = Some(Memory { min_pages: 1, max_pages: Some(4) });
    assert_eq!(memory_min_bytes(&m), Some(65536));
}
