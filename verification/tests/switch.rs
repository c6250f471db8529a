use std::collections::BTreeMap;

use dewasm_backend::ir::{BrTarget, Expr, Label, SourcePos, Stmt};
use dewasm_backend::switch::{count_label_refs, recognize, Arm, Reject};

fn to(label: u32) -> BrTarget {
    BrTarget::Label { label, is_loop: false, assigns: vec![] }
}

fn block(id: u32, body: Vec<Stmt>) -> Stmt {
    Stmt::Block { label: Label { id, referenced: true }, body }
}

fn set(idx: u32, c: u32) -> Stmt {
    Stmt::LocalSet { idx, expr: Expr::I32Const(c) }
}

/// The body of block 10: blocks 11 and 12 nested inside it, the innermost dispatching on
/// local 0 after setting local 1.
fn tower(targets: Vec<BrTarget>, default: BrTarget, case0: Vec<Stmt>, case1: Vec<Stmt>) -> Vec<Stmt> {
    let mut level1 = vec![block(
        12,
        vec![set(1, 7), Stmt::BrTable { index: Expr::LocalGet(0), targets, default }],
    )];
    level1.extend(case0);
    let mut level0 = vec![block(11, level1)];
    level0.extend(case1);
    level0
}

fn refs_of(stmts: &[Stmt]) -> BTreeMap<u32, usize> {
    let mut refs = BTreeMap::new();
    count_label_refs(stmts, &mut refs);
    refs
}

fn body_stmts(arm: &Arm) -> Vec<usize> {
    match arm {
        Arm::Body(parts) => parts.iter().map(|p| p.len()).collect(),
        _ => panic!("a body arm expected"),
    }
}

#[test]
fn recognizes_a_three_level_tower() {
    let body = tower(
        vec![to(12), to(11), to(12), BrTarget::Return { values: vec![] }],
        to(10),
        vec![set(2, 1), Stmt::Br(to(10))],
        vec![set(2, 2), set(3, 3), Stmt::Br(to(10))],
    );
    let func = vec![block(10, body)];
    let refs = refs_of(&func);
    let body = match &func[0] {
        Stmt::Block { body, .. } => body,
        _ => unreachable!(),
    };
    let sw = match recognize(10, body, &refs) {
        Ok(sw) => sw,
        Err(e) => panic!("tower refused: {:?}", e),
    };
    assert_eq!(sw.prelude.len(), 1);
    assert!(matches!(sw.index, Expr::LocalGet(0)));
    assert_eq!(sw.arms.len(), 3);
    assert_eq!(sw.arms[0].0, vec![0, 2]);
    assert_eq!(body_stmts(&sw.arms[0].1), vec![2]);
    assert_eq!(sw.arms[1].0, vec![1]);
    assert_eq!(body_stmts(&sw.arms[1].1), vec![3]);
    assert_eq!(sw.arms[2].0, vec![3]);
    assert!(matches!(sw.arms[2].1, Arm::Branch(BrTarget::Return { .. })));
    assert!(matches!(sw.default, Arm::Leave));
}

#[test]
fn an_arm_that_falls_through_runs_on_into_the_next() {
    let body = tower(vec![to(12), to(11)], to(10), vec![set(2, 1)], vec![set(2, 2), Stmt::Br(to(10))]);
    let refs = refs_of(&body);
    let sw = recognize(10, &body, &refs).ok().expect("a tower");
    assert_eq!(body_stmts(&sw.arms[0].1), vec![1, 2]);
    assert_eq!(body_stmts(&sw.arms[1].1), vec![2]);
}

#[test]
fn an_empty_arm_takes_the_next_arms_body() {
    let body = tower(vec![to(12), to(11)], to(10), vec![], vec![set(2, 2), Stmt::Br(to(10))]);
    let refs = refs_of(&body);
    let sw = recognize(10, &body, &refs).ok().expect("a tower");
    assert_eq!(body_stmts(&sw.arms[0].1), vec![0, 2]);
}

#[test]
fn a_branch_out_of_the_tower_stays_a_branch() {
    let body = tower(vec![to(12), to(99)], to(11), vec![Stmt::Unreachable], vec![]);
    let refs = refs_of(&body);
    let sw = recognize(10, &body, &refs).ok().expect("a tower");
    assert!(matches!(sw.arms[1].1, Arm::Branch(BrTarget::Label { label: 99, .. })));
    assert_eq!(body_stmts(&sw.default), vec![0]);
}

#[test]
fn markers_do_not_hide_a_tower() {
    let mark = || Stmt::SourceLine(SourcePos { file: 0, line: 1 });
    let mut body = vec![mark()];
    body.extend(tower(vec![to(12)], to(10), vec![mark(), Stmt::Br(to(10)), mark()], vec![]));
    let refs = refs_of(&body);
    let sw = recognize(10, &body, &refs).ok().expect("a tower");
    assert_eq!(body_stmts(&sw.arms[0].1), vec![3]);
}

#[test]
fn two_levels_are_too_shallow() {
    let body = vec![block(
        11,
        vec![Stmt::BrTable { index: Expr::LocalGet(0), targets: vec![to(11)], default: to(10) }],
    )];
    let refs = refs_of(&body);
    assert_eq!(recognize(10, &body, &refs).err(), Some(Reject::TooShallow(2)));
}

#[test]
fn a_body_without_a_table_is_no_tower() {
    let body = vec![block(11, vec![block(12, vec![set(0, 1)])])];
    let refs = refs_of(&body);
    assert_eq!(recognize(10, &body, &refs).err(), Some(Reject::NotATower));
    let body = vec![block(11, vec![block(12, vec![Stmt::Br(to(10)), Stmt::BrTable {
        index: Expr::LocalGet(0),
        targets: vec![],
        default: to(10),
    }])])];
    assert_eq!(recognize(10, &body, &refs_of(&body)).err(), Some(Reject::NotATower));
}

#[test]
fn an_inner_label_branched_to_from_elsewhere_is_refused() {
    let body = tower(vec![to(12), to(11)], to(10), vec![Stmt::Br(to(11))], vec![Stmt::Br(to(10))]);
    let refs = refs_of(&body);
    assert_eq!(recognize(10, &body, &refs).err(), Some(Reject::ForeignBranch));
}

#[test]
fn the_join_label_may_be_branched_to_from_the_arms() {
    let body = tower(vec![to(12), to(11)], to(10), vec![Stmt::Br(to(10))], vec![Stmt::Br(to(10))]);
    let refs = refs_of(&body);
    assert!(recognize(10, &body, &refs).is_ok());
}

#[test]
fn counts_every_reference_to_each_label() {
    let stmts = vec![
        Stmt::Br(to(1)),
        Stmt::BrIf { cond: Expr::LocalGet(0), target: to(1) },
        Stmt::Loop {
            label: Label { id: 2, referenced: true },
            body: vec![Stmt::BrTable { index: Expr::LocalGet(0), targets: vec![to(2), to(3), to(2)], default: to(1) }],
        },
        Stmt::If {
            label: Label { id: 4, referenced: false },
            cond: Expr::LocalGet(0),
            then: vec![Stmt::Br(to(3))],
            els: vec![Stmt::Br(BrTarget::Return { values: vec![] })],
        },
    ];
    let mut refs = BTreeMap::new();
    refs.insert(1, 5);
    count_label_refs(&stmts, &mut refs);
    let got: Vec<(u32, usize)> = refs.into_iter().collect();
    assert_eq!(got, vec![(1, 8), (2, 2), (3, 2)]);
}

#[test]
fn every_position_lands_in_exactly_one_arm() {
    let ret = || BrTarget::Return { values: vec![] };
    let body = tower(
        vec![to(12), ret(), to(11), to(12), ret(), to(11), to(12)],
        to(10),
        vec![Stmt::Br(to(10))],
        vec![Stmt::Br(to(10))],
    );
    let refs = refs_of(&body);
    let sw = recognize(10, &body, &refs).ok().expect("a tower");
    let values: Vec<Vec<u32>> = sw.arms.iter().map(|(v, _)| v.clone()).collect();
    assert_eq!(values, vec![vec![0, 3, 6], vec![1], vec![2, 5], vec![4]]);
    let mut all: Vec<u32> = values.concat();
    all.sort();
    assert_eq!(all, (0..7).collect::<Vec<u32>>());
}
