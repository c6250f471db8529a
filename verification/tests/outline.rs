use dewasm_backend::ir::{BinOp, BrTarget, Expr, Func, FuncType, Label, Module, Stmt, Temp, ValType};
use dewasm_backend::liveness::Liveness;
use dewasm_backend::outline::{outline, pick_span, plan_extraction, Params};
use dewasm_backend::varset::{Var, VarSet};

fn module_of(params: Vec<ValType>, locals: Vec<ValType>, body: Vec<Stmt>) -> Module {
    Module {
        types: vec![FuncType { params, results: vec![ValType::I32] }],
        imported_funcs: vec![],
        imported_globals: vec![],
        imported_memory: None,
        memory: None,
        imported_tables: vec![],
        tables: vec![],
        elems: vec![],
        funcs: vec![Func { type_idx: 0, locals, temps: vec![], body }],
        debug_files: vec![],
        globals: vec![],
        datas: vec![],
        exports: vec![],
        start: None,
    }
}

fn local_set(idx: u32, expr: Expr) -> Stmt {
    Stmt::LocalSet { idx, expr }
}

fn bin(op: BinOp, a: Expr, b: Expr) -> Expr {
    Expr::Bin(op, Box::new(a), Box::new(b))
}

fn back_edge(cond: Expr, label: u32) -> Stmt {
    Stmt::BrIf { cond, target: BrTarget::Label { label, is_loop: true, assigns: vec![] } }
}

/// `l1` counts to `l0`; `l2` accumulates `l3 = l1 * l1` per iteration.
fn accumulate_body() -> Vec<Stmt> {
    vec![
        local_set(1, Expr::I32Const(0)),
        local_set(2, Expr::I32Const(0)),
        Stmt::Loop {
            label: Label { id: 0, referenced: true },
            body: vec![
                local_set(3, bin(BinOp::I32Mul, Expr::LocalGet(1), Expr::LocalGet(1))),
                local_set(2, bin(BinOp::I32Add, Expr::LocalGet(2), Expr::LocalGet(3))),
                local_set(1, bin(BinOp::I32Add, Expr::LocalGet(1), Expr::I32Const(1))),
                back_edge(bin(BinOp::I32Ne, Expr::LocalGet(1), Expr::LocalGet(0)), 0),
            ],
        },
        Stmt::Return { values: vec![Expr::LocalGet(2)] },
    ]
}

const TEST_PARAMS: Params = Params { min_weight: 1, max_params: 8, max_results: 1, min_weight_with_temps: 1 };

#[test]
fn extracts_accumulator_loop_body() {
    let module = module_of(vec![ValType::I32], vec![ValType::I32; 3], accumulate_body());
    let out = outline(module, &TEST_PARAMS);
    assert_eq!(out.funcs.len(), 2);

    let synth = &out.funcs[1];
    let ty = &out.types[synth.type_idx as usize];
    // The count local and the accumulator flow in; the accumulator flows back out; the scratch local stays inside.
    assert_eq!(ty.params, vec![ValType::I32, ValType::I32]);
    assert_eq!(ty.results, vec![ValType::I32]);
    assert_eq!(synth.locals, vec![ValType::I32]);
    assert!(matches!(synth.body.last(), Some(Stmt::Return { .. })));

    let Stmt::Loop { body, .. } = &out.funcs[0].body[2] else {
        panic!("loop expected");
    };
    let Stmt::Call { func, args, results } = &body[0] else {
        panic!("call expected, got {:?}", body[0]);
    };
    assert_eq!(*func, 1);
    assert_eq!(args.len(), 2);
    assert_eq!(results.len(), 1);
    assert!(matches!(body[1], Stmt::LocalSet { idx: 2, .. }));
    // The count update and the back edge stay behind.
    assert_eq!(body.len(), 4);
}

#[test]
fn extracts_past_a_leading_exit_branch() {
    let body = vec![
        Stmt::Block {
            label: Label { id: 9, referenced: true },
            body: vec![Stmt::Loop {
                label: Label { id: 0, referenced: true },
                body: vec![
                    Stmt::BrIf {
                        cond: bin(BinOp::I32Eq, Expr::LocalGet(1), Expr::LocalGet(0)),
                        target: BrTarget::Label { label: 9, is_loop: false, assigns: vec![] },
                    },
                    local_set(3, bin(BinOp::I32Mul, Expr::LocalGet(1), Expr::LocalGet(1))),
                    local_set(2, bin(BinOp::I32Add, Expr::LocalGet(2), Expr::LocalGet(3))),
                    local_set(1, bin(BinOp::I32Add, Expr::LocalGet(1), Expr::I32Const(1))),
                    Stmt::Br(BrTarget::Label { label: 0, is_loop: true, assigns: vec![] }),
                ],
            }],
        },
        Stmt::Return { values: vec![Expr::LocalGet(2)] },
    ];
    let module = module_of(vec![ValType::I32], vec![ValType::I32; 3], body);
    let out = outline(module, &TEST_PARAMS);
    assert_eq!(out.funcs.len(), 2);

    let Stmt::Block { body, .. } = &out.funcs[0].body[0] else {
        panic!("block expected");
    };
    let Stmt::Loop { body, .. } = &body[0] else {
        panic!("loop expected");
    };
    assert!(matches!(body[0], Stmt::BrIf { .. }));
    assert!(matches!(body[1], Stmt::Call { .. }));
    assert!(matches!(body[2], Stmt::LocalSet { idx: 2, .. }));
    assert!(matches!(body[4], Stmt::Br(_)));
}

#[test]
fn outward_branch_pins_the_boundary() {
    let body = vec![Stmt::Block {
        label: Label { id: 5, referenced: true },
        body: vec![Stmt::Loop {
            label: Label { id: 0, referenced: true },
            body: vec![
                Stmt::Br(BrTarget::Label { label: 5, is_loop: false, assigns: vec![] }),
                back_edge(Expr::LocalGet(0), 0),
            ],
        }],
    }];
    let module = module_of(vec![ValType::I32], vec![], body);
    let out = outline(module, &TEST_PARAMS);
    assert_eq!(out.funcs.len(), 1);
}

#[test]
fn respects_min_weight() {
    let module = module_of(vec![ValType::I32], vec![ValType::I32; 3], accumulate_body());
    let params = Params { min_weight: 1000, ..TEST_PARAMS };
    let out = outline(module, &params);
    assert_eq!(out.funcs.len(), 1);
}

#[test]
fn skips_unreferenced_loops() {
    let mut body = accumulate_body();
    let Stmt::Loop { label, body: inner } = &mut body[2] else {
        unreachable!();
    };
    label.referenced = false;
    inner.pop();
    let module = module_of(vec![ValType::I32], vec![ValType::I32; 3], body);
    let out = outline(module, &TEST_PARAMS);
    assert_eq!(out.funcs.len(), 1);
}

fn set_of(vars: &[Var]) -> VarSet {
    let mut s = VarSet::new();
    for v in vars {
        s.insert(*v);
    }
    s
}

fn sorted(s: &VarSet) -> Vec<Var> {
    s.sorted()
}

#[test]
fn loop_boundaries_hold_the_fixpoint_live_sets() {
    let func = Func { type_idx: 0, locals: vec![ValType::I32; 3], temps: vec![], body: accumulate_body() };
    let records = Liveness::run(&func);
    // Each pass of the fixpoint records the loop anew; the latest record is the one that counts.
    assert!(records.iter().all(|(label, _)| *label == 0));
    let (_, bounds) = records.last().expect("the loop is recorded");
    // Four statements: five boundaries, the last one after the back edge (the loop's exit).
    assert_eq!(bounds.len(), 5);
    // Before the back edge: its condition's locals, what the head needs, and the accumulator the return reads.
    assert_eq!(sorted(&bounds[3]), vec![Var::Local(0), Var::Local(1), Var::Local(2)]);
    // At the head: the scratch local 3 is written before any read.
    assert_eq!(sorted(&bounds[0]), vec![Var::Local(0), Var::Local(1), Var::Local(2)]);
    // After the back edge, only the return's read stays live.
    assert_eq!(sorted(&bounds[4]), vec![Var::Local(2)]);
}

#[test]
fn two_live_outs_refuse_a_single_result_call() {
    let region = vec![
        local_set(3, bin(BinOp::I32Mul, Expr::LocalGet(1), Expr::LocalGet(1))),
        local_set(2, bin(BinOp::I32Add, Expr::LocalGet(2), Expr::LocalGet(3))),
        local_set(1, bin(BinOp::I32Add, Expr::LocalGet(1), Expr::I32Const(1))),
    ];
    let live = set_of(&[Var::Local(0), Var::Local(1), Var::Local(2)]);
    assert!(plan_extraction(&region, 20, &live, &TEST_PARAMS).is_none());
    let two = Params { max_results: 2, ..TEST_PARAMS };
    let ext = plan_extraction(&region, 20, &live, &two).expect("two results are allowed");
    // The least live-out is the one returned.
    assert_eq!(ext.live_out, Some(Var::Local(1)));
    assert_eq!(ext.arg_locals, vec![1, 2]);
    assert_eq!(ext.inner_locals, vec![3]);
    assert!(ext.arg_temps.is_empty());
}

#[test]
fn incoming_temps_need_the_larger_weight() {
    let t = Temp { depth: 4, ty: ValType::I64 };
    let region = vec![local_set(1, Expr::Temp(t))];
    let live = set_of(&[Var::Local(1)]);
    let strict = Params { min_weight_with_temps: 10, ..TEST_PARAMS };
    assert!(plan_extraction(&region, 3, &live, &strict).is_none());
    let ext = plan_extraction(&region, 10, &live, &strict).expect("heavy enough");
    assert_eq!(ext.arg_temps, vec![t]);
    assert_eq!(ext.live_out, Some(Var::Local(1)));
    assert!(ext.arg_locals.is_empty());
    assert_eq!(ext.temps, vec![t]);
}

#[test]
fn the_heaviest_run_is_tried_first() {
    let loop_body = vec![
        local_set(2, Expr::I32Const(7)),
        back_edge(Expr::LocalGet(0), 0),
        local_set(3, bin(BinOp::I32Mul, Expr::LocalGet(1), Expr::LocalGet(1))),
        local_set(4, bin(BinOp::I32Add, Expr::LocalGet(3), Expr::LocalGet(3))),
        back_edge(Expr::LocalGet(4), 0),
    ];
    let mut rec: Vec<VarSet> = Vec::new();
    for _ in 0..6 {
        rec.push(set_of(&[Var::Local(0), Var::Local(1), Var::Local(4)]));
    }
    let (j, e, k, ext) = pick_span(&loop_body, &rec, &TEST_PARAMS, false).expect("a span");
    assert_eq!((j, e, k), (2, 4, 4));
    assert_eq!(ext.live_out, Some(Var::Local(4)));
    // Inside a try_table nothing that can throw is taken, and these spans cannot.
    assert!(pick_span(&loop_body, &rec, &TEST_PARAMS, true).is_some());
    // With no recorded boundaries there is nothing to choose from.
    assert!(pick_span(&loop_body, &Vec::new(), &TEST_PARAMS, false).is_none());
}
