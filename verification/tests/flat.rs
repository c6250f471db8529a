use dewasm_backend::flat::{contains_try_table, mark_ancestors, plan, plan_crossed, DEEP_CROSSING};
use dewasm_backend::ir::{BrTarget, Expr, Label, Stmt};
use std::collections::HashSet;

fn label(id: u32) -> Label {
    Label { id, referenced: true }
}

fn block(id: u32, body: Vec<Stmt>) -> Stmt {
    Stmt::Block { label: label(id), body }
}

fn lp(id: u32, body: Vec<Stmt>) -> Stmt {
    Stmt::Loop { label: label(id), body }
}

fn iff(id: u32, then: Vec<Stmt>, els: Vec<Stmt>) -> Stmt {
    Stmt::If { label: label(id), cond: Expr::I32Const(1), then, els }
}

fn br(id: u32) -> Stmt {
    Stmt::Br(BrTarget::Label { label: id, is_loop: false, assigns: vec![] })
}

fn sorted(s: &HashSet<u32>) -> Vec<u32> {
    let mut v: Vec<u32> = s.iter().copied().collect();
    v.sort();
    v
}

#[test]
fn the_backends_share_one_threshold() {
    assert_eq!(DEEP_CROSSING, 16);
}

#[test]
fn no_deep_branch_keeps_the_structured_lowering() {
    let body = vec![block(1, vec![block(2, vec![br(1)])])];
    assert!(plan(&body, &[vec![1, 2]], 3).is_none());
    assert!(plan(&body, &[], 0).is_none());
}

#[test]
fn a_try_table_keeps_the_structured_lowering() {
    let body = vec![block(1, vec![Stmt::TryTable { label: label(2), catches: vec![], body: vec![br(1)] }])];
    assert!(contains_try_table(&body));
    assert!(plan(&body, &[vec![1, 2, 3]], 1).is_none());
}

#[test]
fn a_deep_branch_dissolves_its_path_and_numbers_the_states() {
    let body = vec![
        block(1, vec![lp(2, vec![block(3, vec![br(1)])])]),
        iff(4, vec![block(5, vec![])], vec![]),
    ];
    let p = plan(&body, &[vec![1, 2, 3]], 3).expect("deep enough");
    assert_eq!(sorted(&p.dissolved), vec![1, 2, 3]);
    assert_eq!(p.state_of.get(&2), Some(&1));
    assert_eq!(p.state_of.get(&3), Some(&2));
    assert_eq!(p.after.get(&3), Some(&2));
    assert_eq!(p.after.get(&2), Some(&3));
    assert_eq!(p.state_of.get(&1), Some(&4));
    assert_eq!(p.after.get(&1), Some(&4));
    assert_eq!(p.state_of.get(&4), None);
    assert_eq!(p.nstates, 5);
}

#[test]
fn crossing_a_dissolved_frame_dissolves_the_whole_path_and_its_ancestors() {
    let body = vec![
        block(1, vec![block(2, vec![block(5, vec![br(1)])])]),
        iff(4, vec![block(6, vec![br(2)])], vec![]),
        block(7, vec![]),
    ];
    // Only the first path is deep; the second crosses frame 2, so it dissolves whole, and the
    // `if` holding frame 6 follows as its ancestor.
    let p = plan(&body, &[vec![1, 2, 5], vec![2, 6]], 3).expect("deep enough");
    assert_eq!(sorted(&p.dissolved), vec![1, 2, 4, 5, 6]);
    assert!(!p.dissolved.contains(&7));
    assert_eq!(p.state_of.get(&5), Some(&1));
    assert_eq!(p.state_of.get(&2), Some(&2));
    assert_eq!(p.state_of.get(&1), Some(&3));
    assert_eq!(p.state_of.get(&6), Some(&4));
    assert_eq!(p.state_of.get(&4), Some(&5));
    assert_eq!(p.after.get(&4), Some(&5));
    assert_eq!(p.nstates, 6);
}

#[test]
fn ancestors_of_a_dissolved_frame_are_marked() {
    let body = vec![iff(1, vec![], vec![lp(2, vec![block(3, vec![])])]), block(4, vec![])];
    let mut d: HashSet<u32> = HashSet::new();
    d.insert(3);
    assert!(mark_ancestors(&body, &mut d));
    assert_eq!(sorted(&d), vec![1, 2, 3]);
    let mut none: HashSet<u32> = HashSet::new();
    assert!(!mark_ancestors(&body, &mut none));
    assert!(none.is_empty());
}

#[test]
fn crossed_frames_dissolve_with_their_ancestors() {
    let body = vec![Stmt::Block {
        label: Label { id: 0, referenced: true },
        body: vec![
            Stmt::Loop {
                label: Label { id: 1, referenced: true },
                body: vec![Stmt::Br(BrTarget::Label { label: 0, is_loop: false, assigns: vec![] })],
            },
            Stmt::Block { label: Label { id: 2, referenced: false }, body: vec![] },
        ],
    }];
    let crossed: HashSet<u32> = [1].into_iter().collect();
    let p = plan_crossed(&body, &crossed).expect("a crossed frame dissolves");
    let mut dissolved: Vec<u32> = p.dissolved.iter().copied().collect();
    dissolved.sort();
    assert_eq!(dissolved, vec![0, 1]);
    assert_eq!(p.state_of[&1], 1);
    assert_eq!(p.after[&1], 2);
    assert_eq!(p.state_of[&0], 3);
    assert_eq!(p.after[&0], 3);
    assert_eq!(p.nstates, 4);
}

#[test]
fn nothing_crossed_keeps_the_structured_lowering() {
    let body = vec![Stmt::Loop { label: Label { id: 0, referenced: true }, body: vec![] }];
    assert!(plan_crossed(&body, &HashSet::new()).is_none());
}

#[test]
fn small_bodies_fit_the_state_numbering() {
    let body = vec![block(0, vec![block(1, vec![])])];
    assert!(dewasm_backend::flat::frames_fit(&body));
    assert!(dewasm_backend::flat::frames_fit(&[]));
}
