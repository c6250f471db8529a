use dewasm_backend::fuse::{fuse_byte_scatter, match_scatter, max_label_id, Scatter};
use dewasm_backend::ir::{BinOp, BrTarget, Expr, Func, Label, Stmt, StoreOp, ValType};

fn local(i: u32) -> Box<Expr> {
    Box::new(Expr::LocalGet(i))
}

fn konst(c: u32) -> Box<Expr> {
    Box::new(Expr::I32Const(c))
}

/// Locals: 0 base, 1 idx, 2 word, 3 shift, 4 done, 5 next_idx, 6 flag.
fn scatter_body(label: u32) -> Vec<Stmt> {
    vec![
        Stmt::Store {
            op: StoreOp::I32Store8,
            addr: Expr::Bin(BinOp::I32Add, local(0), local(1)),
            value: Expr::Bin(BinOp::I32ShrU, local(2), Box::new(Expr::Bin(BinOp::I32And, local(3), konst(31)))),
            offset: 0,
        },
        Stmt::LocalSet { idx: 3, expr: Expr::Bin(BinOp::I32Add, local(3), konst(8)) },
        Stmt::LocalSet { idx: 4, expr: Expr::Bin(BinOp::I32Eq, local(1), konst(3)) },
        Stmt::LocalSet { idx: 5, expr: Expr::Bin(BinOp::I32Add, local(1), konst(1)) },
        Stmt::LocalSet { idx: 1, expr: Expr::LocalGet(5) },
        Stmt::BrIf {
            cond: Expr::Bin(BinOp::I32Ne, Box::new(Expr::Bin(BinOp::I32And, local(6), local(4))), konst(1)),
            target: BrTarget::Label { label, is_loop: true, assigns: vec![] },
        },
    ]
}

fn scatter_loop() -> Stmt {
    Stmt::Loop { label: Label { id: 0, referenced: true }, body: scatter_body(0) }
}

fn func(body: Vec<Stmt>) -> Func {
    Func { type_idx: 0, locals: vec![ValType::I32; 7], temps: vec![], body }
}

#[test]
fn fuses_the_scatter_idiom() {
    let mut funcs = vec![func(vec![scatter_loop()])];
    fuse_byte_scatter(&mut funcs);
    let (then, els) = match &funcs[0].body[0] {
        Stmt::If { then, els, .. } => (then, els),
        other => panic!("guarded fast path expected, got {:?}", other),
    };
    assert!(matches!(then[0], Stmt::Store { op: StoreOp::I32Store, .. }));
    assert_eq!(then.len(), 5);
    assert!(matches!(els[0], Stmt::Loop { .. }));
}

#[test]
fn leaves_other_loops_alone() {
    let mut funcs = vec![func(vec![Stmt::Loop {
        label: Label { id: 0, referenced: true },
        body: vec![Stmt::LocalSet { idx: 1, expr: Expr::I32Const(0) }],
    }])];
    fuse_byte_scatter(&mut funcs);
    assert!(matches!(funcs[0].body[0], Stmt::Loop { .. }));
}

#[test]
fn the_locals_of_the_idiom_are_recovered() {
    let m = match_scatter(0, &scatter_body(0)).expect("scatter");
    assert_eq!(m, Scatter { base: 0, idx: 1, word: 2, shift: 3, done: 4, next_idx: 5, flag: 6 });
    // The exit must branch back to this very loop.
    assert!(match_scatter(9, &scatter_body(0)).is_none());
}

#[test]
fn a_local_both_read_and_written_spoils_the_idiom() {
    let mut body = scatter_body(0);
    // The word is now the shift counter itself.
    body[0] = Stmt::Store {
        op: StoreOp::I32Store8,
        addr: Expr::Bin(BinOp::I32Add, local(0), local(1)),
        value: Expr::Bin(BinOp::I32ShrU, local(3), local(3)),
        offset: 0,
    };
    assert!(match_scatter(0, &body).is_none());
}

#[test]
fn nested_loops_are_fused_with_fresh_labels() {
    let inner = Stmt::Loop { label: Label { id: 7, referenced: true }, body: scatter_body(7) };
    let outer = Stmt::Block { label: Label { id: 3, referenced: false }, body: vec![inner, scatter_loop()] };
    assert_eq!(max_label_id(std::slice::from_ref(&outer)), 7);
    let mut funcs = vec![func(vec![outer])];
    fuse_byte_scatter(&mut funcs);
    let body = match &funcs[0].body[0] {
        Stmt::Block { body, .. } => body,
        other => panic!("block expected, got {:?}", other),
    };
    match (&body[0], &body[1]) {
        (Stmt::If { label: a, .. }, Stmt::If { label: b, .. }) => {
            assert_eq!((a.id, a.referenced), (8, false));
            assert_eq!((b.id, b.referenced), (9, false));
        }
        other => panic!("two guarded fast paths expected, got {:?}", other),
    }
}
