//! Flat dispatch: give a branch an address instead of a lexical position.
//!
//! A structured lowering reaches a branch target through every frame in between, one test per
//! crossed frame. A dispatch loop over an integer state names the target as a value instead, so
//! a branch costs the same at any depth. Only frames that a deep enough branch crosses are
//! dissolved into states, closed so that no surviving frame captures a jump aimed at the
//! dispatch loop; every other frame keeps its structured lowering.
use std::collections::{HashMap, HashSet};
use vstd::prelude::*;

use crate::ir::Stmt;

verus! {

broadcast use vstd::std_specs::hash::group_hash_axioms;

/// Crossing depth from which a branch is worth a dispatch, as the Python and Ruby backends
/// calibrate it.
pub const DEEP_CROSSING: usize = 16;

/// State numbering for one function's flattened control flow.
pub struct Plan {
    /// Frames that stop being emitted as native scopes.
    pub dissolved: HashSet<u32>,
    /// Where a branch to each dissolved label lands: the state after a block or `if`, the
    /// state at the head of a loop.
    pub state_of: HashMap<u32, u32>,
    /// The state control continues in once a dissolved frame is finished.
    pub after: HashMap<u32, u32>,
    /// The number of states; state 0 is the entry.
    pub nstates: u32,
}

// ---------------------------------------------------------------------------------------------
// Frames.

/// Whether `s` is, or holds at any depth, a `try_table`.
pub open spec fn stmt_has_try_table(s: Stmt) -> bool
    decreases s,
{
    match s {
        Stmt::TryTable { .. } => true,
        Stmt::Block { body, .. } | Stmt::Loop { body, .. } => seq_has_try_table(body@),
        Stmt::If { then, els, .. } => seq_has_try_table(then@) || seq_has_try_table(els@),
        _ => false,
    }
}

/// Whether any statement of `stmts` holds a `try_table`, at any depth.
pub open spec fn seq_has_try_table(stmts: Seq<Stmt>) -> bool
    decreases stmts,
{
    if stmts.len() == 0 {
        false
    } else {
        stmt_has_try_table(stmts[stmts.len() - 1]) || seq_has_try_table(stmts.subrange(0, stmts.len() - 1))
    }
}

/// The labels of the frames (blocks, loops, ifs) of `s`, itself included, at any depth.
pub open spec fn stmt_frames(s: Stmt) -> Set<u32>
    decreases s,
{
    match s {
        Stmt::Block { label, body } | Stmt::Loop { label, body } => seq_frames(body@).insert(label.id),
        Stmt::If { label, then, els, .. } => seq_frames(then@).union(seq_frames(els@)).insert(label.id),
        _ => Set::empty(),
    }
}

/// The labels of the frames of `stmts`, at any depth.
pub open spec fn seq_frames(stmts: Seq<Stmt>) -> Set<u32>
    decreases stmts,
{
    if stmts.len() == 0 {
        Set::empty()
    } else {
        stmt_frames(stmts[0]).union(seq_frames(stmts.subrange(1, stmts.len() as int)))
    }
}

/// The number of frames of `s`, itself included, at any depth.
pub open spec fn stmt_frame_count(s: Stmt) -> nat
    decreases s,
{
    match s {
        Stmt::Block { body, .. } | Stmt::Loop { body, .. } => 1 + seq_frame_count(body@),
        Stmt::If { then, els, .. } => 1 + seq_frame_count(then@) + seq_frame_count(els@),
        _ => 0,
    }
}

/// The number of frames of `stmts`, at any depth.
pub open spec fn seq_frame_count(stmts: Seq<Stmt>) -> nat
    decreases stmts,
{
    if stmts.len() == 0 {
        0
    } else {
        stmt_frame_count(stmts[0]) + seq_frame_count(stmts.subrange(1, stmts.len() as int))
    }
}

proof fn lemma_stmt_frames_finite(s: Stmt)
    ensures
        stmt_frames(s).finite(),
    decreases s,
{
    match s {
        Stmt::Block { body, .. } | Stmt::Loop { body, .. } => lemma_seq_frames_finite(body@),
        Stmt::If { then, els, .. } => {
            lemma_seq_frames_finite(then@);
            lemma_seq_frames_finite(els@);
        },
        _ => {},
    }
}

proof fn lemma_seq_frames_finite(stmts: Seq<Stmt>)
    ensures
        seq_frames(stmts).finite(),
    decreases stmts,
{
    if stmts.len() > 0 {
        lemma_stmt_frames_finite(stmts[0]);
        lemma_seq_frames_finite(stmts.subrange(1, stmts.len() as int));
    }
}

// ---------------------------------------------------------------------------------------------
// Ancestor marking, in the order the statements are walked.

/// Marks every frame of `s` holding a dissolved frame, starting from the dissolved set `d`:
/// the set after the walk, and whether `s` is or holds a dissolved frame.
pub open spec fn mark_stmt(s: Stmt, d: Set<u32>) -> (Set<u32>, bool)
    decreases s,
{
    match s {
        Stmt::Block { label, body } | Stmt::Loop { label, body } => {
            let (d1, inner) = mark_seq(body@, d);
            let d2 = if inner { d1.insert(label.id) } else { d1 };
            (d2, inner || d2.contains(label.id))
        },
        Stmt::If { label, then, els, .. } => {
            let (d1, a) = mark_seq(then@, d);
            let (d2, b) = mark_seq(els@, d1);
            let d3 = if a || b { d2.insert(label.id) } else { d2 };
            (d3, a || b || d3.contains(label.id))
        },
        _ => (d, false),
    }
}

/// `mark_stmt` over `stmts` in order, threading the dissolved set.
pub open spec fn mark_seq(stmts: Seq<Stmt>, d: Set<u32>) -> (Set<u32>, bool)
    decreases stmts,
{
    if stmts.len() == 0 {
        (d, false)
    } else {
        let (d1, x) = mark_stmt(stmts[0], d);
        let (d2, y) = mark_seq(stmts.subrange(1, stmts.len() as int), d1);
        (d2, x || y)
    }
}

proof fn lemma_mark_stmt_bounds(s: Stmt, d: Set<u32>)
    ensures
        d.subset_of(mark_stmt(s, d).0),
        mark_stmt(s, d).0.subset_of(d.union(stmt_frames(s))),
    decreases s,
{
    match s {
        Stmt::Block { label, body } | Stmt::Loop { label, body } => {
            lemma_mark_seq_bounds(body@, d);
        },
        Stmt::If { label, then, els, .. } => {
            lemma_mark_seq_bounds(then@, d);
            lemma_mark_seq_bounds(els@, mark_seq(then@, d).0);
        },
        _ => {},
    }
}

proof fn lemma_mark_seq_bounds(stmts: Seq<Stmt>, d: Set<u32>)
    ensures
        d.subset_of(mark_seq(stmts, d).0),
        mark_seq(stmts, d).0.subset_of(d.union(seq_frames(stmts))),
    decreases stmts,
{
    if stmts.len() > 0 {
        lemma_mark_stmt_bounds(stmts[0], d);
        lemma_mark_seq_bounds(stmts.subrange(1, stmts.len() as int), mark_stmt(stmts[0], d).0);
    }
}

proof fn lemma_mark_stmt_monotone(s: Stmt, d: Set<u32>, e: Set<u32>)
    requires
        d.subset_of(e),
    ensures
        mark_stmt(s, d).0.subset_of(mark_stmt(s, e).0),
        mark_stmt(s, d).1 ==> mark_stmt(s, e).1,
    decreases s,
{
    match s {
        Stmt::Block { label, body } | Stmt::Loop { label, body } => {
            lemma_mark_seq_monotone(body@, d, e);
        },
        Stmt::If { label, then, els, .. } => {
            lemma_mark_seq_monotone(then@, d, e);
            lemma_mark_seq_monotone(els@, mark_seq(then@, d).0, mark_seq(then@, e).0);
        },
        _ => {},
    }
}

proof fn lemma_mark_seq_monotone(stmts: Seq<Stmt>, d: Set<u32>, e: Set<u32>)
    requires
        d.subset_of(e),
    ensures
        mark_seq(stmts, d).0.subset_of(mark_seq(stmts, e).0),
        mark_seq(stmts, d).1 ==> mark_seq(stmts, e).1,
    decreases stmts,
{
    if stmts.len() > 0 {
        lemma_mark_stmt_monotone(stmts[0], d, e);
        lemma_mark_seq_monotone(stmts.subrange(1, stmts.len() as int), mark_stmt(stmts[0], d).0, mark_stmt(stmts[0], e).0);
    }
}

// ---------------------------------------------------------------------------------------------
// Path closure.

/// The frame paths of the outward branches, as sequences.
pub open spec fn path_views(paths: Seq<Vec<u32>>) -> Seq<Seq<u32>> {
    paths.map_values(|p: Vec<u32>| p@)
}

/// Whether `p` crosses a frame of `d`.
pub open spec fn meets(p: Seq<u32>, d: Set<u32>) -> bool {
    exists|j: int| 0 <= j < p.len() && d.contains(#[trigger] p[j])
}

/// Walks the paths in order, dissolving every frame of a path that crosses a dissolved one.
pub open spec fn close_paths(ps: Seq<Seq<u32>>, d: Set<u32>) -> Set<u32>
    decreases ps.len(),
{
    if ps.len() == 0 {
        d
    } else {
        let d1 = if meets(ps[0], d) { d.union(ps[0].to_set()) } else { d };
        close_paths(ps.subrange(1, ps.len() as int), d1)
    }
}

/// The frames of any path.
pub open spec fn path_frames(ps: Seq<Seq<u32>>) -> Set<u32> {
    Set::new(|x: u32| exists|i: int| 0 <= i < ps.len() && #[trigger] ps[i].contains(x))
}

/// The frames of the paths that cross at least `deep` frames: where dissolution starts.
pub open spec fn deep_frames(ps: Seq<Seq<u32>>, deep: nat) -> Set<u32> {
    Set::new(|x: u32| exists|i: int| 0 <= i < ps.len() && ps[i].len() >= deep && #[trigger] ps[i].contains(x))
}

proof fn lemma_close_paths_bounds(ps: Seq<Seq<u32>>, d: Set<u32>)
    ensures
        d.subset_of(close_paths(ps, d)),
        close_paths(ps, d).subset_of(d.union(path_frames(ps))),
    decreases ps.len(),
{
    if ps.len() > 0 {
        let rest = ps.subrange(1, ps.len() as int);
        let d1 = if meets(ps[0], d) { d.union(ps[0].to_set()) } else { d };
        lemma_close_paths_bounds(rest, d1);
        assert forall|x: u32| close_paths(ps, d).contains(x) implies d.union(path_frames(ps)).contains(x) by {
            if !d.contains(x) {
                if d1.contains(x) {
                    assert(ps[0].contains(x));
                } else {
                    assert(path_frames(rest).contains(x));
                    let i = choose|i: int| 0 <= i < rest.len() && #[trigger] rest[i].contains(x);
                    assert(ps[i + 1].contains(x));
                }
            }
        }
    }
}

proof fn lemma_close_paths_monotone(ps: Seq<Seq<u32>>, d: Set<u32>, e: Set<u32>)
    requires
        d.subset_of(e),
    ensures
        close_paths(ps, d).subset_of(close_paths(ps, e)),
    decreases ps.len(),
{
    if ps.len() > 0 {
        let rest = ps.subrange(1, ps.len() as int);
        let d1 = if meets(ps[0], d) { d.union(ps[0].to_set()) } else { d };
        let e1 = if meets(ps[0], e) { e.union(ps[0].to_set()) } else { e };
        if meets(ps[0], d) {
            let j = choose|j: int| 0 <= j < ps[0].len() && d.contains(#[trigger] ps[0][j]);
            assert(e.contains(ps[0][j]));
        }
        lemma_close_paths_monotone(rest, d1, e1);
    }
}

/// One round of the closure: the path closure, then the ancestor marking.
pub open spec fn round(body: Seq<Stmt>, ps: Seq<Seq<u32>>, d: Set<u32>) -> Set<u32> {
    mark_seq(body, close_paths(ps, d)).0
}

/// Whether `t` holds the deep paths' frames and is closed under a round.
pub open spec fn dissolution_closed(body: Seq<Stmt>, ps: Seq<Seq<u32>>, deep: nat, t: Set<u32>) -> bool {
    deep_frames(ps, deep).subset_of(t) && round(body, ps, t).subset_of(t)
}

/// Whether `d` is the least closed set: it is closed, and every closed set holds it.
pub open spec fn least_dissolution(body: Seq<Stmt>, ps: Seq<Seq<u32>>, deep: nat, d: Set<u32>) -> bool {
    &&& dissolution_closed(body, ps, deep, d)
    &&& forall|t: Set<u32>| #[trigger] dissolution_closed(body, ps, deep, t) ==> d.subset_of(t)
}

proof fn lemma_round_monotone(body: Seq<Stmt>, ps: Seq<Seq<u32>>, d: Set<u32>, e: Set<u32>)
    requires
        d.subset_of(e),
    ensures
        round(body, ps, d).subset_of(round(body, ps, e)),
{
    lemma_close_paths_monotone(ps, d, e);
    lemma_mark_seq_monotone(body, close_paths(ps, d), close_paths(ps, e));
}

proof fn lemma_round_bounds(body: Seq<Stmt>, ps: Seq<Seq<u32>>, d: Set<u32>)
    ensures
        d.subset_of(round(body, ps, d)),
        round(body, ps, d).subset_of(d.union(path_frames(ps)).union(seq_frames(body))),
{
    lemma_close_paths_bounds(ps, d);
    lemma_mark_seq_bounds(body, close_paths(ps, d));
}

// ---------------------------------------------------------------------------------------------
// State assignment, in the order the emitter walks the frames.

/// The assignment state: landing states, continuation states, and the next free state.
pub type Assigned = (Map<u32, u32>, Map<u32, u32>, nat);

/// Allocates the landing states of the dissolved frames of `s`.
pub open spec fn assign_stmt(s: Stmt, dis: Set<u32>, st: Assigned) -> Assigned
    decreases s,
{
    match s {
        Stmt::Block { label, body } => {
            let st1 = assign_seq(body@, dis, st);
            if dis.contains(label.id) {
                let a = st1.2;
                (st1.0.insert(label.id, a as u32), st1.1.insert(label.id, a as u32), a + 1)
            } else {
                st1
            }
        },
        Stmt::Loop { label, body } => {
            if dis.contains(label.id) {
                let h = st.2;
                let st1 = assign_seq(body@, dis, (st.0.insert(label.id, h as u32), st.1, h + 1));
                let a = st1.2;
                (st1.0, st1.1.insert(label.id, a as u32), a + 1)
            } else {
                assign_seq(body@, dis, st)
            }
        },
        Stmt::If { label, then, els, .. } => {
            let st1 = assign_seq(then@, dis, st);
            let st2 = assign_seq(els@, dis, st1);
            if dis.contains(label.id) {
                let a = st2.2;
                (st2.0.insert(label.id, a as u32), st2.1.insert(label.id, a as u32), a + 1)
            } else {
                st2
            }
        },
        _ => st,
    }
}

/// `assign_stmt` over `stmts` in order.
pub open spec fn assign_seq(stmts: Seq<Stmt>, dis: Set<u32>, st: Assigned) -> Assigned
    decreases stmts,
{
    if stmts.len() == 0 {
        st
    } else {
        assign_seq(stmts.subrange(1, stmts.len() as int), dis, assign_stmt(stmts[0], dis, st))
    }
}

/// Whether every state in `m` lies in `[lo, hi)`.
pub open spec fn states_within(m: Map<u32, u32>, lo: nat, hi: nat) -> bool {
    forall|k: u32| #[trigger] m.contains_key(k) ==> lo <= m[k] < hi
}

proof fn lemma_assign_stmt_bounds(s: Stmt, dis: Set<u32>, st: Assigned, lo: nat)
    requires
        lo <= st.2,
        st.2 + 2 * stmt_frame_count(s) <= u32::MAX + 1,
        states_within(st.0, lo, st.2),
        states_within(st.1, lo, st.2),
    ensures
        st.2 <= assign_stmt(s, dis, st).2 <= st.2 + 2 * stmt_frame_count(s),
        states_within(assign_stmt(s, dis, st).0, lo, assign_stmt(s, dis, st).2),
        states_within(assign_stmt(s, dis, st).1, lo, assign_stmt(s, dis, st).2),
    decreases s,
{
    match s {
        Stmt::Block { label, body } => {
            lemma_assign_seq_bounds(body@, dis, st, lo);
        },
        Stmt::Loop { label, body } => {
            if dis.contains(label.id) {
                let h = st.2;
                lemma_assign_seq_bounds(body@, dis, (st.0.insert(label.id, h as u32), st.1, h + 1), lo);
            } else {
                lemma_assign_seq_bounds(body@, dis, st, lo);
            }
        },
        Stmt::If { label, then, els, .. } => {
            lemma_assign_seq_bounds(then@, dis, st, lo);
            lemma_assign_seq_bounds(els@, dis, assign_seq(then@, dis, st), lo);
        },
        _ => {},
    }
}

proof fn lemma_assign_seq_bounds(stmts: Seq<Stmt>, dis: Set<u32>, st: Assigned, lo: nat)
    requires
        lo <= st.2,
        st.2 + 2 * seq_frame_count(stmts) <= u32::MAX + 1,
        states_within(st.0, lo, st.2),
        states_within(st.1, lo, st.2),
    ensures
        st.2 <= assign_seq(stmts, dis, st).2 <= st.2 + 2 * seq_frame_count(stmts),
        states_within(assign_seq(stmts, dis, st).0, lo, assign_seq(stmts, dis, st).2),
        states_within(assign_seq(stmts, dis, st).1, lo, assign_seq(stmts, dis, st).2),
    decreases stmts,
{
    if stmts.len() > 0 {
        lemma_assign_stmt_bounds(stmts[0], dis, st, lo);
        lemma_assign_seq_bounds(stmts.subrange(1, stmts.len() as int), dis, assign_stmt(stmts[0], dis, st), lo);
    }
}

proof fn lemma_assign_stmt_count(s: Stmt, dis: Set<u32>, st: Assigned)
    ensures
        st.2 <= assign_stmt(s, dis, st).2 <= st.2 + 2 * stmt_frame_count(s),
    decreases s,
{
    match s {
        Stmt::Block { label, body } => {
            lemma_assign_seq_count(body@, dis, st);
        },
        Stmt::Loop { label, body } => {
            if dis.contains(label.id) {
                let h = st.2;
                lemma_assign_seq_count(body@, dis, (st.0.insert(label.id, h as u32), st.1, h + 1));
            } else {
                lemma_assign_seq_count(body@, dis, st);
            }
        },
        Stmt::If { label, then, els, .. } => {
            lemma_assign_seq_count(then@, dis, st);
            lemma_assign_seq_count(els@, dis, assign_seq(then@, dis, st));
        },
        _ => {},
    }
}

proof fn lemma_assign_seq_count(stmts: Seq<Stmt>, dis: Set<u32>, st: Assigned)
    ensures
        st.2 <= assign_seq(stmts, dis, st).2 <= st.2 + 2 * seq_frame_count(stmts),
    decreases stmts,
{
    if stmts.len() > 0 {
        lemma_assign_stmt_count(stmts[0], dis, st);
        lemma_assign_seq_count(stmts.subrange(1, stmts.len() as int), dis, assign_stmt(stmts[0], dis, st));
    }
}

/// Every landing and continuation state a plan assigns is a state of the plan, other than the
/// entry: it lies in `[1, nstates)`.
pub proof fn law_assigned_states_in_range(body: Seq<Stmt>, dis: Set<u32>)
    requires
        1 + 2 * seq_frame_count(body) <= u32::MAX + 1,
    ensures
        ({
            let st = assign_seq(body, dis, (Map::empty(), Map::empty(), 1));
            states_within(st.0, 1, st.2) && states_within(st.1, 1, st.2)
        }),
{
    lemma_assign_seq_bounds(body, dis, (Map::empty(), Map::empty(), 1), 1);
}

// ---------------------------------------------------------------------------------------------
// Executable planning.

impl Plan {
    /// The next free state.
    fn new_state(&mut self) -> (s: u32)
        requires
            old(self).nstates < u32::MAX,
        ensures
            s == old(self).nstates,
            final(self).nstates == old(self).nstates + 1,
            final(self).dissolved@ == old(self).dissolved@,
            final(self).state_of@ == old(self).state_of@,
            final(self).after@ == old(self).after@,
    {
        let s = self.nstates;
        self.nstates = self.nstates + 1;
        s
    }
}

fn stmt_has_try_table_exec(s: &Stmt) -> (r: bool)
    ensures
        r == stmt_has_try_table(*s),
    decreases s,
{
    match s {
        Stmt::TryTable { .. } => true,
        Stmt::Block { body, .. } | Stmt::Loop { body, .. } => contains_try_table(body.as_slice()),
        Stmt::If { then, els, .. } => contains_try_table(then.as_slice()) || contains_try_table(els.as_slice()),
        _ => false,
    }
}

/// Whether `stmts` holds a `try_table` at any depth.
pub fn contains_try_table(stmts: &[Stmt]) -> (r: bool)
    ensures
        r == seq_has_try_table(stmts@),
    decreases stmts@,
{
    let mut i: usize = 0;
    let mut found = false;
    while i < stmts.len()
        invariant
            i <= stmts@.len(),
            found == seq_has_try_table(stmts@.subrange(0, i as int)),
        decreases stmts@.len() - i,
    {
        let u = stmt_has_try_table_exec(&stmts[i]);
        proof {
            let t = stmts@.subrange(0, i + 1);
            assert(t.subrange(0, t.len() - 1) == stmts@.subrange(0, i as int));
        }
        found = found || u;
        i = i + 1;
    }
    assert(stmts@.subrange(0, stmts@.len() as int) == stmts@);
    found
}

fn mark_stmt_exec(s: &Stmt, dissolved: &mut HashSet<u32>) -> (r: bool)
    ensures
        (final(dissolved)@, r) == mark_stmt(*s, old(dissolved)@),
    decreases s,
{
    match s {
        Stmt::Block { label, body } | Stmt::Loop { label, body } => {
            let inner = mark_ancestors(body.as_slice(), dissolved);
            if inner {
                dissolved.insert(label.id);
            }
            inner || dissolved.contains(&label.id)
        },
        Stmt::If { label, then, els, .. } => {
            let a = mark_ancestors(then.as_slice(), dissolved);
            let b = mark_ancestors(els.as_slice(), dissolved);
            if a || b {
                dissolved.insert(label.id);
            }
            a || b || dissolved.contains(&label.id)
        },
        _ => false,
    }
}

/// Adds every frame that contains a dissolved frame; whether `stmts` holds one.
pub fn mark_ancestors(stmts: &[Stmt], dissolved: &mut HashSet<u32>) -> (r: bool)
    ensures
        (final(dissolved)@, r) == mark_seq(stmts@, old(dissolved)@),
    decreases stmts@,
{
    let ghost d0 = dissolved@;
    let ghost n = stmts@.len() as int;
    let mut any = false;
    let mut i: usize = 0;
    assert(stmts@.subrange(0, n) == stmts@);
    while i < stmts.len()
        invariant
            i <= stmts@.len(),
            n == stmts@.len(),
            mark_seq(stmts@, d0).0 == mark_seq(stmts@.subrange(i as int, n), dissolved@).0,
            mark_seq(stmts@, d0).1 == (any || mark_seq(stmts@.subrange(i as int, n), dissolved@).1),
        decreases stmts@.len() - i,
    {
        proof {
            let t = stmts@.subrange(i as int, n);
            assert(t[0] == stmts@[i as int]);
            assert(t.subrange(1, t.len() as int) == stmts@.subrange(i + 1, n));
        }
        let x = mark_stmt_exec(&stmts[i], dissolved);
        any = any || x;
        i = i + 1;
    }
    any
}

proof fn lemma_to_set_push(p: Seq<u32>, k: int)
    requires
        0 <= k < p.len(),
    ensures
        p.subrange(0, k + 1).to_set() == p.subrange(0, k).to_set().insert(p[k]),
{
    let a = p.subrange(0, k + 1);
    let b = p.subrange(0, k);
    assert forall|x: u32| a.contains(x) <==> b.contains(x) || x == p[k] by {
        if a.contains(x) {
            let j = choose|j: int| 0 <= j < a.len() && a[j] == x;
            if j < k {
                assert(b[j] == x);
            }
        }
        if b.contains(x) {
            let j = choose|j: int| 0 <= j < b.len() && b[j] == x;
            assert(a[j] == x);
        }
        if x == p[k] {
            assert(a[k] == x);
        }
    }
    assert(a.to_set() =~= b.to_set().insert(p[k]));
}

/// Adds every frame of `p` to `dissolved`.
fn dissolve_path(p: &Vec<u32>, dissolved: &mut HashSet<u32>)
    ensures
        final(dissolved)@ == old(dissolved)@.union(p@.to_set()),
{
    let ghost d0 = dissolved@;
    let mut k: usize = 0;
    assert(p@.subrange(0, 0).to_set() =~= Set::<u32>::empty());
    while k < p.len()
        invariant
            k <= p@.len(),
            dissolved@ == d0.union(p@.subrange(0, k as int).to_set()),
        decreases p@.len() - k,
    {
        proof {
            lemma_to_set_push(p@, k as int);
        }
        dissolved.insert(p[k]);
        assert(dissolved@ =~= d0.union(p@.subrange(0, k + 1).to_set()));
        k = k + 1;
    }
    assert(p@.subrange(0, p@.len() as int) == p@);
}

/// Whether `p` crosses a frame of `dissolved`.
fn meets_exec(p: &Vec<u32>, dissolved: &HashSet<u32>) -> (r: bool)
    ensures
        r == meets(p@, dissolved@),
{
    let mut j: usize = 0;
    while j < p.len()
        invariant
            j <= p@.len(),
            forall|jj: int| 0 <= jj < j ==> !dissolved@.contains(#[trigger] p@[jj]),
        decreases p@.len() - j,
    {
        if dissolved.contains(&p[j]) {
            return true;
        }
        j = j + 1;
    }
    false
}

/// The path closure: walks the paths in order, dissolving every frame of a path that crosses a
/// dissolved one.
fn close_paths_exec(paths: &[Vec<u32>], dissolved: &mut HashSet<u32>)
    ensures
        final(dissolved)@ == close_paths(path_views(paths@), old(dissolved)@),
{
    let ghost ps = path_views(paths@);
    let ghost d0 = dissolved@;
    let ghost n = paths@.len() as int;
    let mut i: usize = 0;
    assert(ps.subrange(0, n) == ps);
    while i < paths.len()
        invariant
            i <= paths@.len(),
            n == paths@.len(),
            ps == path_views(paths@),
            close_paths(ps, d0) == close_paths(ps.subrange(i as int, n), dissolved@),
        decreases paths@.len() - i,
    {
        proof {
            let t = ps.subrange(i as int, n);
            assert(t[0] == paths@[i as int]@);
            assert(t.subrange(1, t.len() as int) == ps.subrange(i + 1, n));
        }
        if meets_exec(&paths[i], dissolved) {
            dissolve_path(&paths[i], dissolved);
        }
        i = i + 1;
    }
}

fn assign_stmt_exec(s: &Stmt, plan: &mut Plan)
    requires
        old(plan).nstates + 2 * stmt_frame_count(*s) <= u32::MAX,
    ensures
        (final(plan).state_of@, final(plan).after@, final(plan).nstates as nat) == assign_stmt(*s,
            old(plan).dissolved@, (old(plan).state_of@, old(plan).after@, old(plan).nstates as nat)),
        final(plan).dissolved@ == old(plan).dissolved@,
    decreases s,
{
    let ghost dis = plan.dissolved@;
    let ghost st = (plan.state_of@, plan.after@, plan.nstates as nat);
    match s {
        Stmt::Block { label, body } => {
            proof {
                lemma_assign_seq_count(body@, dis, st);
            }
            assign(body.as_slice(), plan);
            if plan.dissolved.contains(&label.id) {
                let after = plan.new_state();
                plan.state_of.insert(label.id, after);
                plan.after.insert(label.id, after);
            }
        },
        Stmt::Loop { label, body } => {
            if plan.dissolved.contains(&label.id) {
                let head = plan.new_state();
                plan.state_of.insert(label.id, head);
                proof {
                    lemma_assign_seq_count(body@, dis, (plan.state_of@, plan.after@, plan.nstates as nat));
                }
                assign(body.as_slice(), plan);
                let after = plan.new_state();
                plan.after.insert(label.id, after);
            } else {
                assign(body.as_slice(), plan);
            }
        },
        Stmt::If { label, then, els, .. } => {
            proof {
                lemma_assign_seq_count(then@, dis, st);
                lemma_assign_seq_count(els@, dis, assign_seq(then@, dis, st));
            }
            assign(then.as_slice(), plan);
            assign(els.as_slice(), plan);
            if plan.dissolved.contains(&label.id) {
                let after = plan.new_state();
                plan.state_of.insert(label.id, after);
                plan.after.insert(label.id, after);
            }
        },
        _ => {},
    }
}

/// Walks the body in the order the emitter will, allocating each dissolved frame's landing
/// state.
fn assign(stmts: &[Stmt], plan: &mut Plan)
    requires
        old(plan).nstates + 2 * seq_frame_count(stmts@) <= u32::MAX,
    ensures
        (final(plan).state_of@, final(plan).after@, final(plan).nstates as nat) == assign_seq(stmts@,
            old(plan).dissolved@, (old(plan).state_of@, old(plan).after@, old(plan).nstates as nat)),
        final(plan).dissolved@ == old(plan).dissolved@,
    decreases stmts@,
{
    let ghost dis = plan.dissolved@;
    let ghost st0 = (plan.state_of@, plan.after@, plan.nstates as nat);
    let ghost n = stmts@.len() as int;
    let mut i: usize = 0;
    assert(stmts@.subrange(0, n) == stmts@);
    while i < stmts.len()
        invariant
            i <= stmts@.len(),
            n == stmts@.len(),
            plan.dissolved@ == dis,
            assign_seq(stmts@, dis, st0) == assign_seq(stmts@.subrange(i as int, n), dis,
                (plan.state_of@, plan.after@, plan.nstates as nat)),
            plan.nstates + 2 * seq_frame_count(stmts@.subrange(i as int, n)) <= u32::MAX,
        decreases stmts@.len() - i,
    {
        proof {
            let t = stmts@.subrange(i as int, n);
            assert(t[0] == stmts@[i as int]);
            assert(t.subrange(1, t.len() as int) == stmts@.subrange(i + 1, n));
            lemma_assign_stmt_count(t[0], dis, (plan.state_of@, plan.after@, plan.nstates as nat));
        }
        assign_stmt_exec(&stmts[i], plan);
        i = i + 1;
    }
}

proof fn lemma_same_len_subset_eq(a: Set<u32>, b: Set<u32>)
    requires
        b.finite(),
        a.subset_of(b),
        a.len() == b.len(),
    ensures
        a == b,
{
    if !(b.subset_of(a)) {
        let x = choose|x: u32| b.contains(x) && !a.contains(x);
        vstd::set_lib::lemma_len_subset(a, b.remove(x));
    }
    assert(a =~= b);
}

/// Decides which frames to dissolve, and numbers the states. `paths` holds one entry per
/// outward branch: the inclusive frame path from its target down to its innermost frame.
/// Dissolution starts from the frames of the paths crossing at least `deep_crossing` frames and
/// is the least set closed under two rules: a path crossing a dissolved frame is dissolved
/// whole, and a frame holding a dissolved frame is dissolved. `None` when no path is deep
/// enough, and for a body holding a `try_table`, which must stay lexically inside its handler.
pub fn plan(body: &[Stmt], paths: &[Vec<u32>], deep_crossing: usize) -> (r: Option<Plan>)
    requires
        1 + 2 * seq_frame_count(body@) <= u32::MAX,
    ensures
        ({
            let ps = path_views(paths@);
            &&& r is None <==> (seq_has_try_table(body@) || deep_frames(ps, deep_crossing as nat).is_empty())
            &&& r matches Some(p) ==> {
                &&& least_dissolution(body@, ps, deep_crossing as nat, p.dissolved@)
                &&& (p.state_of@, p.after@, p.nstates as nat) == assign_seq(body@, p.dissolved@,
                    (Map::empty(), Map::empty(), 1))
            }
        }),
{
    if contains_try_table(body) {
        return None;
    }
    let ghost ps = path_views(paths@);
    let ghost deep = deep_crossing as nat;
    // The frames of the deep paths, and a finite set holding every frame of every path.
    let mut dissolved: HashSet<u32> = HashSet::new();
    let ghost mut universe: Set<u32> = Set::empty();
    let mut i: usize = 0;
    while i < paths.len()
        invariant
            i <= paths@.len(),
            ps == path_views(paths@),
            deep == deep_crossing as nat,
            universe.finite(),
            dissolved@ == Set::new(|x: u32| exists|ii: int| 0 <= ii < i && ps[ii].len() >= deep
                && #[trigger] ps[ii].contains(x)),
            forall|ii: int, x: u32| 0 <= ii < i && #[trigger] ps[ii].contains(x) ==> universe.contains(x),
        decreases paths@.len() - i,
    {
        let p = &paths[i];
        let ghost d0 = dissolved@;
        let ghost u0 = universe;
        let mut k: usize = 0;
        while k < p.len()
            invariant
                k <= p@.len(),
                *p == paths@[i as int],
                deep == deep_crossing as nat,
                universe.finite(),
                u0.subset_of(universe),
                forall|kk: int| 0 <= kk < k ==> universe.contains(#[trigger] p@[kk]),
                dissolved@ == if p@.len() >= deep { d0.union(p@.subrange(0, k as int).to_set()) } else { d0 },
            decreases p@.len() - k,
        {
            proof {
                universe = universe.insert(p@[k as int]);
                lemma_to_set_push(p@, k as int);
            }
            if p.len() >= deep_crossing {
                dissolved.insert(p[k]);
                assert(dissolved@ =~= d0.union(p@.subrange(0, k + 1).to_set()));
            }
            k = k + 1;
        }
        proof {
            assert(p@.subrange(0, p@.len() as int) == p@);
            assert(ps[i as int] == p@);
            assert(dissolved@ =~= Set::new(|x: u32| exists|ii: int| 0 <= ii < i + 1 && ps[ii].len() >= deep
                && #[trigger] ps[ii].contains(x))) by {
                assert forall|x: u32| dissolved@.contains(x) implies exists|ii: int| 0 <= ii < i + 1
                    && ps[ii].len() >= deep && #[trigger] ps[ii].contains(x) by {
                    if !d0.contains(x) {
                        let j = choose|j: int| 0 <= j < p@.len() && p@[j] == x;
                        assert(ps[i as int].contains(x));
                    }
                }
                assert forall|x: u32| (exists|ii: int| 0 <= ii < i + 1 && ps[ii].len() >= deep
                    && #[trigger] ps[ii].contains(x)) implies dissolved@.contains(x) by {
                    let ii = choose|ii: int| 0 <= ii < i + 1 && ps[ii].len() >= deep && #[trigger] ps[ii].contains(x);
                    if ii == i {
                        let j = choose|j: int| 0 <= j < p@.len() && p@[j] == x;
                        assert(p@.to_set().contains(x));
                    } else {
                        assert(d0.contains(x));
                    }
                }
            }
            assert forall|ii: int, x: u32| 0 <= ii < i + 1 && #[trigger] ps[ii].contains(x) implies universe.contains(x) by {
                if ii == i {
                    let j = choose|j: int| 0 <= j < p@.len() && p@[j] == x;
                    assert(universe.contains(p@[j]));
                } else {
                    assert(u0.contains(x));
                }
            }
        }
        i = i + 1;
    }
    proof {
        assert(ps.len() == paths@.len());
        assert(dissolved@ =~= deep_frames(ps, deep));
    }
    if dissolved.is_empty() {
        return None;
    }
    proof {
        lemma_seq_frames_finite(body@);
        assert(path_frames(ps).subset_of(universe));
        universe = universe.union(seq_frames(body@));
        assert(dissolved@.subset_of(universe)) by {
            assert forall|x: u32| dissolved@.contains(x) implies universe.contains(x) by {
                let ii = choose|ii: int| 0 <= ii < ps.len() && ps[ii].len() >= deep && #[trigger] ps[ii].contains(x);
            }
        }
    }
    // The two closures, to a joint fixpoint.
    loop
        invariant
            ps == path_views(paths@),
            deep == deep_crossing as nat,
            universe.finite(),
            path_frames(ps).union(seq_frames(body@)).subset_of(universe),
            dissolved@.subset_of(universe),
            deep_frames(ps, deep).subset_of(dissolved@),
            forall|t: Set<u32>| #[trigger] dissolution_closed(body@, ps, deep, t) ==> dissolved@.subset_of(t),
        ensures
            dissolved@.subset_of(universe),
            deep_frames(ps, deep).subset_of(dissolved@),
            round(body@, ps, dissolved@) == dissolved@,
            forall|t: Set<u32>| #[trigger] dissolution_closed(body@, ps, deep, t) ==> dissolved@.subset_of(t),
        decreases universe.len() - dissolved@.len(),
    {
        let before = dissolved.len();
        let ghost d0 = dissolved@;
        close_paths_exec(paths, &mut dissolved);
        mark_ancestors(body, &mut dissolved);
        proof {
            lemma_round_bounds(body@, ps, d0);
            assert(dissolved@ == round(body@, ps, d0));
            assert(dissolved@.subset_of(universe));
            vstd::set_lib::lemma_len_subset(dissolved@, universe);
            vstd::set_lib::lemma_len_subset(d0, dissolved@);
            assert forall|t: Set<u32>| #[trigger] dissolution_closed(body@, ps, deep, t) implies dissolved@.subset_of(t) by {
                lemma_round_monotone(body@, ps, d0, t);
            }
        }
        if dissolved.len() == before {
            proof {
                lemma_same_len_subset_eq(d0, dissolved@);
            }
            break;
        }
    }
    let mut p = Plan { dissolved, state_of: HashMap::new(), after: HashMap::new(), nstates: 1 };
    assign(body, &mut p);
    proof {
        assert(dissolution_closed(body@, ps, deep, p.dissolved@));
    }
    Some(p)
}

proof fn lemma_close_paths_whole(ps: Seq<Seq<u32>>, d: Set<u32>, i: int)
    requires
        0 <= i < ps.len(),
        meets(ps[i], d),
    ensures
        ps[i].to_set().subset_of(close_paths(ps, d)),
    decreases ps.len(),
{
    let rest = ps.subrange(1, ps.len() as int);
    let d1 = if meets(ps[0], d) { d.union(ps[0].to_set()) } else { d };
    lemma_close_paths_bounds(rest, d1);
    if i > 0 {
        let j = choose|j: int| 0 <= j < ps[i].len() && d.contains(#[trigger] ps[i][j]);
        assert(d1.contains(ps[i][j]));
        assert(rest[i - 1] == ps[i]);
        lemma_close_paths_whole(rest, d1, i - 1);
    }
}

/// A branch that crosses a dissolved frame has every frame it crosses dissolved, so no
/// surviving frame captures its jump to the dispatch loop.
pub proof fn law_dissolved_paths_whole(body: Seq<Stmt>, ps: Seq<Seq<u32>>, deep: nat, d: Set<u32>, i: int)
    requires
        least_dissolution(body, ps, deep, d),
        0 <= i < ps.len(),
        meets(ps[i], d),
    ensures
        ps[i].to_set().subset_of(d),
{
    lemma_close_paths_whole(ps, d, i);
    lemma_mark_seq_bounds(body, close_paths(ps, d));
}

/// The deep paths' frames are dissolved, and so is every frame the least closed set holds:
/// a round of the closure changes nothing.
pub proof fn law_dissolution_is_fixpoint(body: Seq<Stmt>, ps: Seq<Seq<u32>>, deep: nat, d: Set<u32>)
    requires
        least_dissolution(body, ps, deep, d),
    ensures
        deep_frames(ps, deep).subset_of(d),
        round(body, ps, d) == d,
{
    lemma_round_bounds(body, ps, d);
    assert(round(body, ps, d) =~= d);
}


// ---------------------------------------------------------------------------------------------
// The Ruby backend's plan: dissolution from the crossed frames alone.

/// Whether `t` holds the crossed frames and every frame of `body` holding a frame of `t`.
pub open spec fn ancestor_closed(body: Seq<Stmt>, crossed: Set<u32>, t: Set<u32>) -> bool {
    crossed.subset_of(t) && mark_seq(body, t).0.subset_of(t)
}

/// Whether `d` is the least [`ancestor_closed`] set.
pub open spec fn least_ancestor_closed(body: Seq<Stmt>, crossed: Set<u32>, d: Set<u32>) -> bool {
    &&& ancestor_closed(body, crossed, d)
    &&& forall|t: Set<u32>| #[trigger] ancestor_closed(body, crossed, t) ==> d.subset_of(t)
}

/// Decides which frames to dissolve when `crossed` holds exactly the frames some branch
/// escapes, and numbers the states. Dissolution is the least set holding `crossed` and every
/// frame that holds a dissolved frame: a frame left standing as a loop would capture a jump
/// aimed at the dispatch loop. `None` when nothing is crossed, so the function keeps its
/// structured lowering.
pub fn plan_crossed(body: &[Stmt], crossed: &HashSet<u32>) -> (r: Option<Plan>)
    requires
        1 + 2 * seq_frame_count(body@) <= u32::MAX,
    ensures
        r is None <==> crossed@.is_empty(),
        r matches Some(p) ==> {
            &&& least_ancestor_closed(body@, crossed@, p.dissolved@)
            &&& (p.state_of@, p.after@, p.nstates as nat) == assign_seq(body@, p.dissolved@,
                (Map::empty(), Map::empty(), 1))
        },
{
    if crossed.is_empty() {
        return None;
    }
    broadcast use vstd::std_specs::hash::axiom_spec_hash_keys_iter;

    let mut dissolved: HashSet<u32> = HashSet::new();
    for x in it: crossed.iter()
        invariant
            it.seq().unref().to_set() == crossed@,
            dissolved@.finite(),
            forall|y: u32| #[trigger] dissolved@.contains(y) <==> exists|i: int| 0 <= i < it.index() && *it.seq()[i] == y,
            it.index() == it.seq().len() ==> dissolved@ == crossed@,
    {
        let ghost d0 = dissolved@;
        dissolved.insert(*x);
        proof {
            let n = it.index() + 1;
            assert forall|y: u32| #[trigger] dissolved@.contains(y) <==> exists|i: int| 0 <= i < n && *it.seq()[i] == y by {
                if dissolved@.contains(y) && y != *x {
                    assert(d0.contains(y));
                }
                if y == *x {
                    assert(*it.seq()[it.index() as int] == y);
                }
            }
            let ks = it.seq().unref();
            assert forall|y: u32| #[trigger] crossed@.contains(y) implies exists|i: int| 0 <= i < it.seq().len()
                && *it.seq()[i] == y by {
                assert(ks.to_set().contains(y));
                let i = choose|i: int| 0 <= i < ks.len() && ks[i] == y;
                assert(*it.seq()[i] == y);
            }
            assert forall|y: u32| #[trigger] dissolved@.contains(y) implies crossed@.contains(y) by {
                let i = choose|i: int| 0 <= i < n && *it.seq()[i] == y;
                assert(ks[i] == y);
                assert(ks.contains(y));
            }
            assert(n == it.seq().len() ==> dissolved@ =~= crossed@);
        }
    }
    assert(dissolved@ == crossed@);
    let ghost universe = dissolved@.union(seq_frames(body@));
    proof {
        lemma_seq_frames_finite(body@);
    }
    loop
        invariant
            universe.finite(),
            dissolved@.subset_of(universe),
            seq_frames(body@).subset_of(universe),
            crossed@.subset_of(dissolved@),
            forall|t: Set<u32>| #[trigger] ancestor_closed(body@, crossed@, t) ==> dissolved@.subset_of(t),
        ensures
            crossed@.subset_of(dissolved@),
            mark_seq(body@, dissolved@).0 == dissolved@,
            forall|t: Set<u32>| #[trigger] ancestor_closed(body@, crossed@, t) ==> dissolved@.subset_of(t),
        decreases universe.len() - dissolved@.len(),
    {
        let before = dissolved.len();
        let ghost d0 = dissolved@;
        mark_ancestors(body, &mut dissolved);
        proof {
            lemma_mark_seq_bounds(body@, d0);
            assert(dissolved@.subset_of(universe));
            vstd::set_lib::lemma_len_subset(dissolved@, universe);
            vstd::set_lib::lemma_len_subset(d0, dissolved@);
            assert forall|t: Set<u32>| #[trigger] ancestor_closed(body@, crossed@, t) implies dissolved@.subset_of(t) by {
                lemma_mark_seq_monotone(body@, d0, t);
            }
        }
        if dissolved.len() == before {
            proof {
                lemma_same_len_subset_eq(d0, dissolved@);
            }
            break;
        }
    }
    let mut p = Plan { dissolved, state_of: HashMap::new(), after: HashMap::new(), nstates: 1 };
    assign(body, &mut p);
    proof {
        assert(ancestor_closed(body@, crossed@, p.dissolved@));
    }
    Some(p)
}


/// `v` capped at `cap`.
pub open spec fn at_most(v: nat, cap: nat) -> nat {
    if v < cap {
        v
    } else {
        cap
    }
}

fn stmt_frames_capped(s: &Stmt, cap: u64) -> (r: u64)
    requires
        cap <= u32::MAX,
    ensures
        r == at_most(stmt_frame_count(*s), cap as nat),
    decreases s,
{
    match s {
        Stmt::Block { body, .. } | Stmt::Loop { body, .. } => {
            let h = seq_frames_capped(body.as_slice(), cap);
            if h < cap {
                h + 1
            } else {
                cap
            }
        },
        Stmt::If { then, els, .. } => {
            let a = seq_frames_capped(then.as_slice(), cap);
            let b = seq_frames_capped(els.as_slice(), cap);
            if a + b < cap {
                a + b + 1
            } else {
                cap
            }
        },
        _ => 0,
    }
}

fn seq_frames_capped(stmts: &[Stmt], cap: u64) -> (r: u64)
    requires
        cap <= u32::MAX,
    ensures
        r == at_most(seq_frame_count(stmts@), cap as nat),
    decreases stmts@,
{
    let n = stmts.len();
    let mut i: usize = n;
    let mut acc: u64 = 0;
    assert(stmts@.subrange(n as int, n as int).len() == 0);
    while i > 0
        invariant
            i <= n == stmts@.len(),
            cap <= u32::MAX,
            acc == at_most(seq_frame_count(stmts@.subrange(i as int, n as int)), cap as nat),
        decreases i,
    {
        let x = stmt_frames_capped(&stmts[i - 1], cap);
        proof {
            let t = stmts@.subrange(i - 1, n as int);
            assert(t[0] == stmts@[i - 1]);
            assert(t.subrange(1, t.len() as int) == stmts@.subrange(i as int, n as int));
        }
        acc = if x + acc < cap {
            x + acc
        } else {
            cap
        };
        i = i - 1;
    }
    assert(stmts@.subrange(0, n as int) == stmts@);
    acc
}

/// Whether the states of a plan for `body` can be numbered in a `u32`.
pub fn frames_fit(body: &[Stmt]) -> (r: bool)
    ensures
        r == (1 + 2 * seq_frame_count(body@) <= u32::MAX),
{
    let cap: u64 = 0x8000_0000;
    let c = seq_frames_capped(body, cap);
    c < cap
}

} // verus!
