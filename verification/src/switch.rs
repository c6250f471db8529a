//! Switch recovery: rebuilding a C `switch` from the block tower a compiler lowers it into, so it
//! can come back as a `case`/`when` instead of a ladder of nested scopes.
//!
//! A `switch (x) { case 0: …; case 1: …; }` becomes a tower of nested `block`s whose innermost
//! content is only a `br_table`, each case body sitting just past its own block's `end`. Lowered
//! structurally, a branch out of case *k* relays through *k* frames; recognised, the arms become
//! `when` branches with no relay at all.
use vstd::prelude::*;

use std::collections::BTreeMap;

use crate::ir::{BrTarget, Expr, Stmt};

verus! {

/// Whether `s` is an inert position marker, ignored when matching structure.
pub open spec fn is_mark(s: Stmt) -> bool {
    s is SourceLine
}

/// The index of the first statement of `stmts` that is not a marker; the length when none is.
pub open spec fn first_sig(stmts: Seq<Stmt>) -> int
    decreases stmts.len(),
{
    if stmts.len() == 0 {
        0
    } else if !is_mark(stmts[0]) {
        0
    } else {
        1 + first_sig(stmts.drop_first())
    }
}

/// The index of the last statement of `stmts` that is not a marker; -1 when none is.
pub open spec fn last_sig(stmts: Seq<Stmt>) -> int
    decreases stmts.len(),
{
    if stmts.len() == 0 {
        -1
    } else if !is_mark(stmts.last()) {
        stmts.len() - 1
    } else {
        last_sig(stmts.drop_last())
    }
}

/// Whether `stmts` cannot fall off its end: its last significant statement branches, returns or
/// traps, or is a block (a nested tower) that cannot.
pub open spec fn terminated(stmts: Seq<Stmt>) -> bool
    decreases stmts,
{
    if stmts.len() == 0 {
        false
    } else if is_mark(stmts.last()) {
        terminated(stmts.drop_last())
    } else {
        match stmts.last() {
            Stmt::Br(_) | Stmt::Return { .. } | Stmt::Unreachable => true,
            Stmt::Block { body, .. } => terminated(body@),
            _ => false,
        }
    }
}

/// Whether `s` is straight-line: neither a frame nor a branch nor a return.
pub open spec fn simple(s: Stmt) -> bool {
    !(s is Block || s is Loop || s is If || s is Br || s is BrIf || s is BrTable || s is Return)
}

/// Whether `cur` is a tower's innermost level: straight-line statements, then a `br_table`.
pub open spec fn dispatch_ok(cur: Seq<Stmt>) -> bool {
    let l = last_sig(cur);
    &&& 0 <= l < cur.len()
    &&& cur[l] is BrTable
    &&& forall|i: int| 0 <= i < l ==> simple(#[trigger] cur[i])
}

/// Walking into a tower from `cur`: the nested blocks' labels, each level's trailing arm, and the
/// innermost statements; `None` when `cur` is not a tower.
pub open spec fn tower(cur: Seq<Stmt>) -> Option<(Seq<u32>, Seq<Seq<Stmt>>, Seq<Stmt>)>
    decreases cur,
{
    let f = first_sig(cur);
    if 0 <= f < cur.len() && cur[f] is Block {
        match cur[f] {
            Stmt::Block { label, body } => match tower(body@) {
                Some(t) => Some((seq![label.id] + t.0, seq![cur.subrange(f + 1, cur.len() as int)] + t.1, t.2)),
                None => None,
            },
            _ => None,
        }
    } else if dispatch_ok(cur) {
        Some((seq![], seq![], cur))
    } else {
        None
    }
}

/// How many times the branch target `t` names label `l`.
pub open spec fn target_refs(t: BrTarget, l: u32) -> nat {
    match t {
        BrTarget::Label { label, .. } => if label == l {
            1
        } else {
            0
        },
        _ => 0,
    }
}

/// How many of the targets `ts` name label `l`.
pub open spec fn targets_refs(ts: Seq<BrTarget>, l: u32) -> nat
    decreases ts.len(),
{
    if ts.len() == 0 {
        0
    } else {
        targets_refs(ts.drop_last(), l) + target_refs(ts.last(), l)
    }
}

/// How many branches in `s` name label `l`, looking into blocks, loops and ifs.
pub open spec fn stmt_refs(s: Stmt, l: u32) -> nat
    decreases s,
{
    match s {
        Stmt::Br(t) => target_refs(t, l),
        Stmt::BrIf { target, .. } => target_refs(target, l),
        Stmt::BrTable { targets, default, .. } => targets_refs(targets@, l) + target_refs(default, l),
        Stmt::Block { body, .. } | Stmt::Loop { body, .. } => seq_refs(body@, l),
        Stmt::If { then, els, .. } => seq_refs(then@, l) + seq_refs(els@, l),
        _ => 0,
    }
}

/// How many branches in `stmts` name label `l` (see [`stmt_refs`]).
pub open spec fn seq_refs(stmts: Seq<Stmt>, l: u32) -> nat
    decreases stmts,
{
    if stmts.len() == 0 {
        0
    } else {
        seq_refs(stmts.drop_last(), l) + stmt_refs(stmts.last(), l)
    }
}

/// The count `m` holds for label `l`; 0 when it holds none.
pub open spec fn count_of(m: Map<u32, usize>, l: u32) -> nat {
    if m.contains_key(l) {
        m[l] as nat
    } else {
        0
    }
}

/// Whether `after` is `before` with `stmts`' label references counted in.
pub open spec fn counted(before: Map<u32, usize>, after: Map<u32, usize>, stmts: Seq<Stmt>) -> bool {
    forall|l: u32|
        #![trigger after.contains_key(l)]
        #![trigger count_of(after, l)]
        (after.contains_key(l) <==> before.contains_key(l) || seq_refs(stmts, l) > 0) && count_of(after, l) == count_of(
            before,
            l,
        ) + seq_refs(stmts, l)
}

fn note(t: &BrTarget, out: &mut BTreeMap<u32, usize>)
    requires
        forall|l: u32| count_of(old(out)@, l) + target_refs(*t, l) <= usize::MAX,
    ensures
        forall|l: u32|
            #![trigger final(out)@.contains_key(l)]
            #![trigger count_of(final(out)@, l)]
            (final(out)@.contains_key(l) <==> old(out)@.contains_key(l) || target_refs(*t, l) > 0) && count_of(
                final(out)@,
                l,
            ) == count_of(old(out)@, l) + target_refs(*t, l),
{
    match t {
        BrTarget::Label { label, .. } => {
            let c: usize = match out.get(label) {
                Some(v) => *v,
                None => 0,
            };
            assert(c == count_of(old(out)@, *label));
            assert(count_of(old(out)@, *label) + target_refs(*t, *label) <= usize::MAX);
            out.insert(*label, c + 1);
        },
        _ => {},
    }
}

fn count_stmt(s: &Stmt, out: &mut BTreeMap<u32, usize>)
    requires
        forall|l: u32| count_of(old(out)@, l) + stmt_refs(*s, l) <= usize::MAX,
    ensures
        counted(old(out)@, final(out)@, seq![*s]),
    decreases s,
{
    let ghost m0 = out@;
    proof {
        assert forall|l: u32| seq_refs(seq![*s], l) == stmt_refs(*s, l) by {
            lemma_single_refs(*s, l);
        }
    }
    match s {
        Stmt::Br(t) => {
            assert(forall|l: u32| stmt_refs(*s, l) == target_refs(*t, l));
            note(t, out);
            assert forall|l: u32|
                #![trigger out@.contains_key(l)]
                #![trigger count_of(out@, l)]
                (out@.contains_key(l) <==> m0.contains_key(l) || stmt_refs(*s, l) > 0) && count_of(
                    out@,
                    l,
                ) == count_of(m0, l) + stmt_refs(*s, l) by {
                assert(stmt_refs(*s, l) == target_refs(*t, l));
            }
        },
        Stmt::BrIf { target, .. } => {
            assert(forall|l: u32| stmt_refs(*s, l) == target_refs(*target, l));
            note(target, out);
            assert forall|l: u32|
                #![trigger out@.contains_key(l)]
                #![trigger count_of(out@, l)]
                (out@.contains_key(l) <==> m0.contains_key(l) || stmt_refs(*s, l) > 0) && count_of(
                    out@,
                    l,
                ) == count_of(m0, l) + stmt_refs(*s, l) by {
                assert(stmt_refs(*s, l) == target_refs(*target, l));
            }
        },
        Stmt::BrTable { index, targets, default } => {
            assert(forall|l: u32|
                stmt_refs(*s, l) == targets_refs(targets@, l) + target_refs(*default, l));
            assert forall|l: u32|
                count_of(m0, l) + targets_refs(targets@, l) + target_refs(*default, l)
                    <= usize::MAX by {
                assert(count_of(m0, l) + stmt_refs(*s, l) <= usize::MAX);
            }
            let mut i: usize = 0;
            assert(targets@.subrange(0, 0) =~= Seq::<BrTarget>::empty());
            while i < targets.len()
                invariant
                    i <= targets@.len(),
                    forall|l: u32|
                        count_of(m0, l) + targets_refs(targets@, l) + target_refs(*default, l)
                            <= usize::MAX,
                    forall|l: u32|
                        #![trigger out@.contains_key(l)]
                        #![trigger count_of(out@, l)]
                        (out@.contains_key(l) <==> m0.contains_key(l) || targets_refs(
                            targets@.subrange(0, i as int),
                            l,
                        ) > 0) && count_of(out@, l) == count_of(m0, l) + targets_refs(
                            targets@.subrange(0, i as int),
                            l,
                        ),
                decreases targets@.len() - i,
            {
                let ghost t = targets@.subrange(0, i + 1);
                proof {
                    assert(t.drop_last() =~= targets@.subrange(0, i as int));
                    assert(t.last() == targets@[i as int]);
                    assert forall|l: u32|
                        count_of(out@, l) + target_refs(targets@[i as int], l)
                            <= usize::MAX by {
                        lemma_targets_refs_prefix(targets@, i + 1, l);
                        assert(targets_refs(t, l) == targets_refs(t.drop_last(), l) + target_refs(
                            t.last(),
                            l,
                        ));
                    }
                }
                note(&targets[i], out);
                proof {
                    assert forall|l: u32|
                        #![trigger out@.contains_key(l)]
                        #![trigger count_of(out@, l)]
                        (out@.contains_key(l) <==> m0.contains_key(l) || targets_refs(t, l) > 0)
                            && count_of(out@, l) == count_of(m0, l) + targets_refs(t, l) by {
                        assert(targets_refs(t, l) == targets_refs(t.drop_last(), l) + target_refs(
                            t.last(),
                            l,
                        ));
                    }
                }
                i = i + 1;
            }
            assert(targets@.subrange(0, targets@.len() as int) =~= targets@);
            note(default, out);
            assert forall|l: u32|
                #![trigger out@.contains_key(l)]
                #![trigger count_of(out@, l)]
                (out@.contains_key(l) <==> m0.contains_key(l) || stmt_refs(*s, l) > 0) && count_of(
                    out@,
                    l,
                ) == count_of(m0, l) + stmt_refs(*s, l) by {
                assert(stmt_refs(*s, l) == targets_refs(targets@, l) + target_refs(*default, l));
            }
        },
        Stmt::Block { body, .. } => {
            assert forall|l: u32| count_of(out@, l) + seq_refs(body@, l) <= usize::MAX by {
                assert(count_of(m0, l) + stmt_refs(*s, l) <= usize::MAX);
            }
            count_label_refs(body.as_slice(), out);
            assert forall|l: u32|
                #![trigger out@.contains_key(l)]
                #![trigger count_of(out@, l)]
                (out@.contains_key(l) <==> m0.contains_key(l) || stmt_refs(*s, l) > 0) && count_of(
                    out@,
                    l,
                ) == count_of(m0, l) + stmt_refs(*s, l) by {
                assert(stmt_refs(*s, l) == seq_refs(body@, l));
            }
        },
        Stmt::Loop { body, .. } => {
            assert forall|l: u32| count_of(out@, l) + seq_refs(body@, l) <= usize::MAX by {
                assert(count_of(m0, l) + stmt_refs(*s, l) <= usize::MAX);
            }
            count_label_refs(body.as_slice(), out);
            assert forall|l: u32|
                #![trigger out@.contains_key(l)]
                #![trigger count_of(out@, l)]
                (out@.contains_key(l) <==> m0.contains_key(l) || stmt_refs(*s, l) > 0) && count_of(
                    out@,
                    l,
                ) == count_of(m0, l) + stmt_refs(*s, l) by {
                assert(stmt_refs(*s, l) == seq_refs(body@, l));
            }
        },
        Stmt::If { then, els, .. } => {
            assert forall|l: u32| count_of(out@, l) + seq_refs(then@, l) <= usize::MAX by {
                assert(count_of(m0, l) + stmt_refs(*s, l) <= usize::MAX);
            }
            count_label_refs(then.as_slice(), out);
            let ghost m1 = out@;
            assert(counted(m0, m1, then@));
            assert forall|l: u32| count_of(m1, l) + seq_refs(els@, l) <= usize::MAX by {
                assert(count_of(m0, l) + stmt_refs(*s, l) <= usize::MAX);
                assert(count_of(m1, l) == count_of(m0, l) + seq_refs(then@, l));
            }
            count_label_refs(els.as_slice(), out);
            assert forall|l: u32|
                #![trigger out@.contains_key(l)]
                #![trigger count_of(out@, l)]
                (out@.contains_key(l) <==> m0.contains_key(l) || stmt_refs(*s, l) > 0) && count_of(
                    out@,
                    l,
                ) == count_of(m0, l) + stmt_refs(*s, l) by {
                assert(count_of(m1, l) == count_of(m0, l) + seq_refs(then@, l));
                assert(m1.contains_key(l) <==> m0.contains_key(l) || seq_refs(then@, l) > 0);
                assert(count_of(out@, l) == count_of(m1, l) + seq_refs(els@, l));
                assert(out@.contains_key(l) <==> m1.contains_key(l) || seq_refs(els@, l) > 0);
            }
        },
        _ => {
            assert(forall|l: u32| stmt_refs(*s, l) == 0);
            assert forall|l: u32|
                #![trigger out@.contains_key(l)]
                #![trigger count_of(out@, l)]
                (out@.contains_key(l) <==> m0.contains_key(l) || stmt_refs(*s, l) > 0) && count_of(
                    out@,
                    l,
                ) == count_of(m0, l) + stmt_refs(*s, l) by {
                assert(stmt_refs(*s, l) == 0);
            }
        },
    }
}

/// A one-statement sequence counts what its statement counts.
proof fn lemma_single_refs(s: Stmt, l: u32)
    ensures
        seq_refs(seq![s], l) == stmt_refs(s, l),
{
    let q = seq![s];
    assert(q.drop_last() =~= Seq::<Stmt>::empty());
    assert(q.last() == s);
    reveal_with_fuel(seq_refs, 2);
}

proof fn lemma_targets_refs_prefix(ts: Seq<BrTarget>, j: int, l: u32)
    requires
        0 <= j <= ts.len(),
    ensures
        targets_refs(ts.subrange(0, j), l) <= targets_refs(ts, l),
    decreases ts.len() - j,
{
    if j < ts.len() {
        lemma_targets_refs_prefix(ts, j + 1, l);
        assert(ts.subrange(0, j + 1).drop_last() =~= ts.subrange(0, j));
    } else {
        assert(ts.subrange(0, j) =~= ts);
    }
}

proof fn lemma_refs_prefix(stmts: Seq<Stmt>, j: int, l: u32)
    requires
        0 <= j <= stmts.len(),
    ensures
        seq_refs(stmts.subrange(0, j), l) <= seq_refs(stmts, l),
    decreases stmts.len() - j,
{
    if j < stmts.len() {
        lemma_refs_prefix(stmts, j + 1, l);
        assert(stmts.subrange(0, j + 1).drop_last() =~= stmts.subrange(0, j));
    } else {
        assert(stmts.subrange(0, j) =~= stmts);
    }
}

/// Counts the branches naming each label anywhere in `stmts` (looking into blocks, loops and
/// ifs) into `out`, so that a tower whose labels something else branches to can be rejected.
pub fn count_label_refs(stmts: &[Stmt], out: &mut BTreeMap<u32, usize>)
    requires
        forall|l: u32| count_of(old(out)@, l) + seq_refs(stmts@, l) <= usize::MAX,
    ensures
        counted(old(out)@, final(out)@, stmts@),
    decreases stmts@,
{
    let ghost m0 = out@;
    let mut i: usize = 0;
    assert(stmts@.subrange(0, 0) =~= Seq::<Stmt>::empty());
    while i < stmts.len()
        invariant
            i <= stmts@.len(),
            forall|l: u32| count_of(m0, l) + seq_refs(stmts@, l) <= usize::MAX,
            counted(m0, out@, stmts@.subrange(0, i as int)),
        decreases stmts@.len() - i,
    {
        let ghost mi = out@;
        let ghost t = stmts@.subrange(0, i + 1);
        proof {
            assert(t.drop_last() =~= stmts@.subrange(0, i as int));
            assert(t.last() == stmts@[i as int]);
            assert forall|l: u32| count_of(out@, l) + stmt_refs(stmts@[i as int], l) <= usize::MAX by {
                lemma_refs_prefix(stmts@, i + 1, l);
                assert(seq_refs(t, l) == seq_refs(t.drop_last(), l) + stmt_refs(t.last(), l));
            }
        }
        count_stmt(&stmts[i], out);
        proof {
            assert forall|l: u32|
                #![trigger out@.contains_key(l)]
                #![trigger count_of(out@, l)]
                (out@.contains_key(l) <==> m0.contains_key(l) || seq_refs(t, l) > 0) && count_of(
                    out@,
                    l,
                ) == count_of(m0, l) + seq_refs(t, l) by {
                lemma_single_refs(stmts@[i as int], l);
                assert(seq_refs(t, l) == seq_refs(t.drop_last(), l) + stmt_refs(t.last(), l));
                assert(count_of(mi, l) == count_of(m0, l) + seq_refs(t.drop_last(), l));
                assert(mi.contains_key(l) <==> m0.contains_key(l) || seq_refs(t.drop_last(), l) > 0);
            }
        }
        i = i + 1;
    }
    assert(stmts@.subrange(0, stmts@.len() as int) =~= stmts@);
}


/// The views of a list of borrowed statement runs.
pub open spec fn views(rs: Seq<&[Stmt]>) -> Seq<Seq<Stmt>> {
    rs.map_values(|r: &[Stmt]| r@)
}

proof fn lemma_first_sig(s: Seq<Stmt>, i: int)
    requires
        0 <= i <= s.len(),
        forall|j: int| 0 <= j < i ==> is_mark(#[trigger] s[j]),
        i == s.len() || !is_mark(s[i]),
    ensures
        first_sig(s) == i,
    decreases i,
{
    if i > 0 {
        lemma_first_sig(s.drop_first(), i - 1);
    }
}

proof fn lemma_last_sig(s: Seq<Stmt>, i: int)
    requires
        -1 <= i < s.len(),
        forall|j: int| i < j < s.len() ==> is_mark(#[trigger] s[j]),
        i == -1 || !is_mark(s[i]),
    ensures
        last_sig(s) == i,
    decreases s.len(),
{
    if s.len() > 0 && i < s.len() - 1 {
        lemma_last_sig(s.drop_last(), i);
    }
}

proof fn lemma_last_sig_bounds(s: Seq<Stmt>)
    ensures
        -1 <= last_sig(s) < s.len(),
        last_sig(s) >= 0 ==> !is_mark(s[last_sig(s)]),
    decreases s.len(),
{
    if s.len() > 0 && is_mark(s.last()) {
        lemma_last_sig_bounds(s.drop_last());
    }
}

/// `terminated` read off the last significant statement.
proof fn lemma_terminated_last(s: Seq<Stmt>)
    ensures
        terminated(s) == (last_sig(s) >= 0 && match s[last_sig(s)] {
            Stmt::Br(_) | Stmt::Return { .. } | Stmt::Unreachable => true,
            Stmt::Block { body, .. } => terminated(body@),
            _ => false,
        }),
    decreases s.len(),
{
    if s.len() > 0 && is_mark(s.last()) {
        lemma_terminated_last(s.drop_last());
        lemma_last_sig_bounds(s.drop_last());
        let l = last_sig(s.drop_last());
        if l >= 0 {
            assert(s[l] == s.drop_last()[l]);
        }
    }
}

fn first_significant(cur: &[Stmt]) -> (f: usize)
    ensures
        f == first_sig(cur@),
{
    let mut i: usize = 0;
    while i < cur.len() && matches!(cur[i], Stmt::SourceLine(_))
        invariant
            i <= cur@.len(),
            forall|j: int| 0 <= j < i ==> is_mark(#[trigger] cur@[j]),
        decreases cur@.len() - i,
    {
        i = i + 1;
    }
    proof {
        lemma_first_sig(cur@, i as int);
    }
    i
}

fn last_significant(cur: &[Stmt]) -> (l: Option<usize>)
    ensures
        match l {
            Some(k) => k == last_sig(cur@),
            None => last_sig(cur@) == -1,
        },
{
    let mut i: usize = cur.len();
    while i > 0 && matches!(cur[i - 1], Stmt::SourceLine(_))
        invariant
            i <= cur@.len(),
            forall|j: int| i <= j < cur@.len() ==> is_mark(#[trigger] cur@[j]),
        decreases i,
    {
        i = i - 1;
    }
    proof {
        lemma_last_sig(cur@, i - 1);
    }
    if i == 0 {
        None
    } else {
        Some(i - 1)
    }
}

fn is_simple(s: &Stmt) -> (b: bool)
    ensures
        b == simple(*s),
{
    match s {
        Stmt::Block { .. } | Stmt::Loop { .. } | Stmt::If { .. } | Stmt::Br(_) | Stmt::BrIf { .. }
        | Stmt::BrTable { .. } | Stmt::Return { .. } => false,
        _ => true,
    }
}

fn is_dispatch(cur: &[Stmt]) -> (b: bool)
    ensures
        b == dispatch_ok(cur@),
{
    proof {
        lemma_last_sig_bounds(cur@);
    }
    let l = match last_significant(cur) {
        Some(k) => k,
        None => {
            return false;
        },
    };
    if !matches!(cur[l], Stmt::BrTable { .. }) {
        return false;
    }
    let mut i: usize = 0;
    while i < l
        invariant
            l < cur@.len(),
            l == last_sig(cur@),
            i <= l,
            forall|j: int| 0 <= j < i ==> simple(#[trigger] cur@[j]),
        decreases l - i,
    {
        if !is_simple(&cur[i]) {
            assert(!simple(cur@[i as int]));
            return false;
        }
        i = i + 1;
    }
    true
}

fn terminated_exec(stmts: &[Stmt]) -> (b: bool)
    ensures
        b == terminated(stmts@),
    decreases stmts@,
{
    proof {
        lemma_terminated_last(stmts@);
        lemma_last_sig_bounds(stmts@);
    }
    match last_significant(stmts) {
        None => false,
        Some(k) => match &stmts[k] {
            Stmt::Br(_) | Stmt::Return { .. } | Stmt::Unreachable => true,
            Stmt::Block { body, .. } => terminated_exec(body.as_slice()),
            _ => false,
        },
    }
}

/// Walks into the tower from `cur`, appending each level's label and trailing arm; gives the
/// innermost statements, or `None` when `cur` is not a tower.
fn walk<'a>(cur: &'a [Stmt], labels: &mut Vec<u32>, rests: &mut Vec<&'a [Stmt]>) -> (inner: Option<
    &'a [Stmt],
>)
    ensures
        match tower(cur@) {
            Some(t) => {
                &&& inner is Some
                &&& inner->0@ == t.2
                &&& final(labels)@ == old(labels)@ + t.0
                &&& views(final(rests)@) == views(old(rests)@) + t.1
            },
            None => inner is None,
        },
    decreases cur@,
{
    let f = first_significant(cur);
    if f < cur.len() {
        if let Stmt::Block { label, body } = &cur[f] {
            let ghost l0 = labels@;
            let ghost r0 = rests@;
            labels.push(label.id);
            let rest = vstd::slice::slice_subrange(cur, f + 1, cur.len());
            rests.push(rest);
            let r = walk(body.as_slice(), labels, rests);
            proof {
                assert(views(r0.push(rest)) =~= views(r0).push(rest@));
                match tower(body@) {
                    Some(t) => {
                        assert(l0.push(label.id) + t.0 =~= l0 + (seq![label.id] + t.0));
                        assert(views(r0).push(rest@) + t.1 =~= views(r0) + (seq![rest@] + t.1));
                    },
                    None => {},
                }
            }
            return r;
        }
    }
    if is_dispatch(cur) {
        Some(cur)
    } else {
        None
    }
}


/// What one `br_table` target selects.
pub enum Arm<'a> {
    /// A case body: the arm's own statements, followed by each later arm it falls through into
    /// (up to and including the first that cannot fall off its end), so that each `when` stands
    /// on its own.
    Body(Vec<&'a [Stmt]>),
    /// The tower's own outermost label: control leaves the switch.
    Leave,
    /// A label outside the tower, or a return: the arm is that branch.
    Branch(&'a BrTarget),
}

/// A recovered switch, ready to emit as `case … when …`.
pub struct Switch<'a> {
    /// Statements the innermost block runs before dispatching (typically the one that computes
    /// the index); emitted ahead of the `case`.
    pub prelude: &'a [Stmt],
    /// The value dispatched on.
    pub index: &'a Expr,
    /// `(match values, arm)` in `br_table` target order; repeated targets collapse into one arm
    /// with several values.
    pub arms: Vec<(Vec<u32>, Arm<'a>)>,
    /// What the `br_table` default selects.
    pub default: Arm<'a>,
}

/// Why a tower was not recovered.
#[derive(Debug, PartialEq, Eq, Structural)]
pub enum Reject {
    /// Not the idiom at all (no nested-block chain ending in a `br_table`).
    NotATower,
    /// Fewer levels than it is worth rebuilding.
    TooShallow(usize),
    /// A tower label is branched to by something other than its own `br_table`.
    ForeignBranch,
}

/// Smallest tower worth rebuilding.
pub const MIN_DEPTH: usize = 3;

/// The index of the first occurrence of `x` in `s`.
pub open spec fn first_pos(s: Seq<u32>, x: u32) -> int
    decreases s.len(),
{
    if s.len() == 0 || s[0] == x {
        0
    } else {
        1 + first_pos(s.drop_first(), x)
    }
}

/// The statements a branch to the label of level `k + 1` runs: `rests[k]`, then, while the arm
/// just taken can fall off its end, the arm of the level further out.
pub open spec fn chain(rests: Seq<Seq<Stmt>>, k: int) -> Seq<Seq<Stmt>>
    decreases k + 1,
{
    if k < 0 || k >= rests.len() {
        seq![]
    } else if terminated(rests[k]) {
        seq![rests[k]]
    } else {
        seq![rests[k]] + chain(rests, k - 1)
    }
}

/// Whether `a` is what the target `t` selects in a tower with labels `labels` (outermost first)
/// and trailing arms `rests`.
pub open spec fn classifies(a: Arm, t: BrTarget, labels: Seq<u32>, rests: Seq<Seq<Stmt>>) -> bool {
    let branch = match a {
        Arm::Branch(r) => *r == t,
        _ => false,
    };
    match t {
        BrTarget::Label { label, .. } => if labels.contains(label) {
            let pos = first_pos(labels, label);
            if pos == 0 {
                a is Leave
            } else {
                match a {
                    Arm::Body(b) => views(b@) == chain(rests, pos - 1),
                    _ => false,
                }
            }
        } else {
            branch
        },
        BrTarget::Return { .. } => branch,
    }
}

/// Whether targets `i` and `j` fall in one arm: the same position, or the same label.
pub open spec fn same_group(ts: Seq<BrTarget>, i: int, j: int) -> bool {
    i == j || match ts[i] {
        BrTarget::Label { label: a, .. } => match ts[j] {
            BrTarget::Label { label: b, .. } => a == b,
            _ => false,
        },
        _ => false,
    }
}

/// Whether target `i` is the first of its arm.
pub open spec fn is_leader(ts: Seq<BrTarget>, i: int) -> bool {
    forall|j: int| 0 <= j < i ==> !#[trigger] same_group(ts, j, i)
}

/// The positions among the first `n` targets that begin an arm, in order.
pub open spec fn leaders_upto(ts: Seq<BrTarget>, n: int) -> Seq<int>
    decreases n,
{
    if n <= 0 {
        seq![]
    } else {
        leaders_upto(ts, n - 1) + if is_leader(ts, n - 1) {
            seq![n - 1]
        } else {
            seq![]
        }
    }
}

/// The positions among the first `n` targets that fall in the arm of target `i`, in order.
pub open spec fn group_upto(ts: Seq<BrTarget>, i: int, n: int) -> Seq<u32>
    decreases n,
{
    if n <= 0 {
        seq![]
    } else {
        group_upto(ts, i, n - 1) + if same_group(ts, i, n - 1) {
            seq![(n - 1) as u32]
        } else {
            seq![]
        }
    }
}

/// Whether `arms` are the arms of the targets `ts`: one per arm leader, in order, each with the
/// positions of its arm and what its leader selects.
pub open spec fn grouped(
    arms: Seq<(Vec<u32>, Arm)>,
    ts: Seq<BrTarget>,
    labels: Seq<u32>,
    rests: Seq<Seq<Stmt>>,
) -> bool {
    let ls = leaders_upto(ts, ts.len() as int);
    &&& arms.len() == ls.len()
    &&& forall|k: int|
        0 <= k < arms.len() ==> {
            &&& (#[trigger] arms[k]).0@ == group_upto(ts, ls[k], ts.len() as int)
            &&& classifies(arms[k].1, ts[ls[k]], labels, rests)
        }
}

/// Whether `sw` is the switch read off a tower with labels `labels`, trailing arms `rests` and
/// innermost statements `inner`.
pub open spec fn switch_of(sw: Switch, labels: Seq<u32>, rests: Seq<Seq<Stmt>>, inner: Seq<Stmt>) -> bool {
    let k = last_sig(inner);
    match inner[k] {
        Stmt::BrTable { index, targets, default } => {
            &&& sw.prelude@ == inner.subrange(0, k)
            &&& *sw.index == index
            &&& classifies(sw.default, default, labels, rests)
            &&& grouped(sw.arms@, targets@, labels, rests)
        },
        _ => false,
    }
}

/// Whether some inner label of the tower (every label but the outermost) is branched to, by the
/// counts `refs`, other than by the `br_table` ending `inner`.
pub open spec fn foreign(refs: Map<u32, usize>, labels: Seq<u32>, inner: Seq<Stmt>) -> bool {
    match inner[last_sig(inner)] {
        Stmt::BrTable { targets, default, .. } => exists|m: int|
            1 <= m < labels.len() && count_of(refs, #[trigger] labels[m]) != targets_refs(
                targets@,
                labels[m],
            ) + target_refs(default, labels[m]),
        _ => false,
    }
}

/// What reading `Block { label, body }` as a switch tower gives, given the function's label
/// reference counts `refs`.
pub open spec fn recognized(label: u32, body: Seq<Stmt>, refs: Map<u32, usize>, r: Result<Switch, Reject>) -> bool {
    match tower(body) {
        None => r == Err::<Switch, Reject>(Reject::NotATower),
        Some(t) => {
            let labels = seq![label] + t.0;
            if labels.len() < MIN_DEPTH {
                r matches Err(Reject::TooShallow(n)) && n == labels.len()
            } else if foreign(refs, labels, t.2) {
                r == Err::<Switch, Reject>(Reject::ForeignBranch)
            } else {
                r matches Ok(sw) && switch_of(sw, labels, t.1, t.2)
            }
        },
    }
}


proof fn lemma_tower_shape(cur: Seq<Stmt>)
    ensures
        tower(cur) matches Some(t) ==> t.0.len() == t.1.len() && dispatch_ok(t.2),
    decreases cur,
{
    let f = first_sig(cur);
    if 0 <= f < cur.len() && cur[f] is Block {
        match cur[f] {
            Stmt::Block { body, .. } => lemma_tower_shape(body@),
            _ => {},
        }
    }
}

proof fn lemma_first_pos(s: Seq<u32>, x: u32, p: int)
    requires
        0 <= p < s.len(),
        s[p] == x,
        forall|j: int| 0 <= j < p ==> s[j] != x,
    ensures
        first_pos(s, x) == p,
    decreases p,
{
    if p > 0 {
        lemma_first_pos(s.drop_first(), x, p - 1);
    }
}

/// Where `x` first occurs in `labels`.
fn find_pos(labels: &Vec<u32>, x: u32) -> (p: Option<usize>)
    ensures
        match p {
            Some(k) => labels@.contains(x) && k == first_pos(labels@, x) && k < labels@.len(),
            None => !labels@.contains(x),
        },
{
    let mut k: usize = 0;
    while k < labels.len()
        invariant
            k <= labels@.len(),
            forall|j: int| 0 <= j < k ==> labels@[j] != x,
        decreases labels@.len() - k,
    {
        if labels[k] == x {
            proof {
                lemma_first_pos(labels@, x, k as int);
            }
            return Some(k);
        }
        k = k + 1;
    }
    None
}

/// The arms a branch to the label of level `pos` runs, outward from `rests[pos - 1]`.
fn arm_chain<'a>(rests: &Vec<&'a [Stmt]>, pos: usize) -> (c: Vec<&'a [Stmt]>)
    requires
        1 <= pos <= rests@.len(),
    ensures
        views(c@) == chain(views(rests@), pos - 1),
{
    let ghost rs = views(rests@);
    let mut c: Vec<&'a [Stmt]> = Vec::new();
    let mut k: usize = pos;
    assert(views(c@) =~= Seq::<Seq<Stmt>>::empty());
    while k > 0
        invariant_except_break
            k <= pos <= rests@.len(),
            rs == views(rests@),
            views(c@) + chain(rs, k - 1) == chain(rs, pos - 1),
        ensures
            views(c@) == chain(rs, pos - 1),
        decreases k,
    {
        k = k - 1;
        let r = rests[k];
        let t = terminated_exec(r);
        let ghost c0 = c@;
        c.push(r);
        proof {
            assert(rs[k as int] == r@);
            assert(views(c0.push(r)) =~= views(c0).push(r@));
            if t {
                assert(chain(rs, k as int) == seq![rs[k as int]]);
            } else {
                assert(chain(rs, k as int) == seq![rs[k as int]] + chain(rs, k - 1));
                assert(views(c0).push(r@) + chain(rs, k - 1) =~= views(c0) + (seq![r@] + chain(rs, k - 1)));
            }
        }
        if t {
            break;
        }
    }
    proof {
        if k == 0 {
            assert(views(c@) + chain(rs, -1) =~= views(c@));
        }
    }
    c
}

/// What the target `t` selects in a tower with labels `labels` and trailing arms `rests`.
fn classify<'a>(t: &'a BrTarget, labels: &Vec<u32>, rests: &Vec<&'a [Stmt]>) -> (a: Arm<'a>)
    requires
        labels@.len() == rests@.len() + 1,
    ensures
        classifies(a, *t, labels@, views(rests@)),
{
    match t {
        BrTarget::Label { label, .. } => match find_pos(labels, *label) {
            Some(pos) => if pos == 0 {
                Arm::Leave
            } else {
                Arm::Body(arm_chain(rests, pos))
            },
            None => Arm::Branch(t),
        },
        BrTarget::Return { .. } => Arm::Branch(t),
    }
}

fn same_group_exec(ts: &Vec<BrTarget>, i: usize, j: usize) -> (b: bool)
    requires
        i < ts@.len(),
        j < ts@.len(),
    ensures
        b == same_group(ts@, i as int, j as int),
{
    if i == j {
        return true;
    }
    match (&ts[i], &ts[j]) {
        (BrTarget::Label { label: a, .. }, BrTarget::Label { label: b, .. }) => *a == *b,
        _ => false,
    }
}

fn is_leader_exec(ts: &Vec<BrTarget>, i: usize) -> (b: bool)
    requires
        i < ts@.len(),
    ensures
        b == is_leader(ts@, i as int),
{
    let mut j: usize = 0;
    while j < i
        invariant
            i < ts@.len(),
            j <= i,
            forall|q: int| 0 <= q < j ==> !#[trigger] same_group(ts@, q, i as int),
        decreases i - j,
    {
        if same_group_exec(ts, j, i) {
            return false;
        }
        j = j + 1;
    }
    true
}

/// The positions of `ts` that begin an arm, in order.
fn leaders(ts: &Vec<BrTarget>) -> (r: Vec<usize>)
    ensures
        r@.len() == leaders_upto(ts@, ts@.len() as int).len(),
        forall|k: int| 0 <= k < r@.len() ==> r@[k] as int == leaders_upto(ts@, ts@.len() as int)[k],
{
    let mut r: Vec<usize> = Vec::new();
    let mut i: usize = 0;
    while i < ts.len()
        invariant
            i <= ts@.len(),
            r@.len() == leaders_upto(ts@, i as int).len(),
            forall|k: int| 0 <= k < r@.len() ==> r@[k] as int == leaders_upto(ts@, i as int)[k],
        decreases ts@.len() - i,
    {
        let lead = is_leader_exec(ts, i);
        proof {
            assert(leaders_upto(ts@, i + 1) == leaders_upto(ts@, i as int) + if is_leader(ts@, i as int) {
                seq![i as int]
            } else {
                seq![]
            });
        }
        if lead {
            r.push(i);
        }
        i = i + 1;
    }
    r
}

proof fn lemma_leaders_bounds(ts: Seq<BrTarget>, n: int)
    ensures
        forall|k: int|
            0 <= k < leaders_upto(ts, n).len() ==> 0 <= #[trigger] leaders_upto(ts, n)[k] < n,
    decreases n,
{
    if n > 0 {
        lemma_leaders_bounds(ts, n - 1);
        let a = leaders_upto(ts, n - 1);
        let b: Seq<int> = if is_leader(ts, n - 1) {
            seq![n - 1]
        } else {
            seq![]
        };
        assert forall|k: int| 0 <= k < (a + b).len() implies 0 <= #[trigger] (a + b)[k] < n by {
            if k < a.len() {
                assert((a + b)[k] == a[k]);
            }
        }
    }
}

/// The positions of `ts` in the arm of target `i`, in order.
fn group(ts: &Vec<BrTarget>, i: usize) -> (r: Vec<u32>)
    requires
        i < ts@.len(),
    ensures
        r@ == group_upto(ts@, i as int, ts@.len() as int),
{
    let mut r: Vec<u32> = Vec::new();
    let mut j: usize = 0;
    while j < ts.len()
        invariant
            i < ts@.len(),
            j <= ts@.len(),
            r@ == group_upto(ts@, i as int, j as int),
        decreases ts@.len() - j,
    {
        let same = same_group_exec(ts, i, j);
        proof {
            assert(group_upto(ts@, i as int, j + 1) == group_upto(ts@, i as int, j as int) + if same_group(
                ts@,
                i as int,
                j as int,
            ) {
                seq![j as u32]
            } else {
                seq![]
            });
        }
        if same {
            r.push(j as u32);
        }
        proof {
            assert(r@ =~= group_upto(ts@, i as int, j + 1));
        }
        j = j + 1;
    }
    r
}

proof fn lemma_targets_refs_len(ts: Seq<BrTarget>, l: u32)
    ensures
        targets_refs(ts, l) <= ts.len(),
    decreases ts.len(),
{
    if ts.len() > 0 {
        lemma_targets_refs_len(ts.drop_last(), l);
    }
}

/// How many of `ts` name label `l`.
fn count_in(ts: &Vec<BrTarget>, l: u32) -> (c: usize)
    ensures
        c == targets_refs(ts@, l),
{
    let mut c: usize = 0;
    let mut i: usize = 0;
    assert(ts@.subrange(0, 0) =~= Seq::<BrTarget>::empty());
    while i < ts.len()
        invariant
            i <= ts@.len(),
            c == targets_refs(ts@.subrange(0, i as int), l),
        decreases ts@.len() - i,
    {
        proof {
            let t = ts@.subrange(0, i + 1);
            assert(t.drop_last() =~= ts@.subrange(0, i as int));
            lemma_targets_refs_len(ts@.subrange(0, i as int), l);
        }
        if let BrTarget::Label { label, .. } = &ts[i] {
            if *label == l {
                c = c + 1;
            }
        }
        i = i + 1;
    }
    assert(ts@.subrange(0, ts@.len() as int) =~= ts@);
    c
}

/// Whether `refs` counts a different number of branches to `l` than the table does.
fn mismatch(refs: &BTreeMap<u32, usize>, targets: &Vec<BrTarget>, default: &BrTarget, l: u32) -> (b: bool)
    ensures
        b == (count_of(refs@, l) != targets_refs(targets@, l) + target_refs(*default, l)),
{
    let r: usize = match refs.get(&l) {
        Some(v) => *v,
        None => 0,
    };
    assert(r == count_of(refs@, l));
    let c = count_in(targets, l);
    let d = match default {
        BrTarget::Label { label, .. } => *label == l,
        _ => false,
    };
    if d {
        r == 0 || r - 1 != c
    } else {
        r != c
    }
}

/// Tries to read `Block { label, body }` as a switch tower: a chain of nested blocks, each
/// first in its parent's body, whose innermost holds only straight-line statements and a
/// `br_table`. `refs` must be the whole enclosing function's label reference counts
/// ([`count_label_refs`]); a tower with an inner label that something else branches to is
/// refused, as is one of fewer than [`MIN_DEPTH`] levels.
pub fn recognize<'a>(label: u32, body: &'a [Stmt], refs: &BTreeMap<u32, usize>) -> (r: Result<
    Switch<'a>,
    Reject,
>)
    ensures
        recognized(label, body@, refs@, r),
{
    let mut labels: Vec<u32> = vec![label];
    let mut rests: Vec<&'a [Stmt]> = Vec::new();
    let ghost r0 = rests@;
    proof {
        lemma_tower_shape(body@);
        assert(views(r0) =~= Seq::<Seq<Stmt>>::empty());
    }
    let inner = match walk(body, &mut labels, &mut rests) {
        Some(c) => c,
        None => {
            return Err(Reject::NotATower);
        },
    };
    let ghost t = tower(body@)->0;
    assert(labels@ == seq![label] + t.0);
    assert(views(rests@) =~= t.1);
    if labels.len() < MIN_DEPTH {
        return Err(Reject::TooShallow(labels.len()));
    }
    proof {
        lemma_last_sig_bounds(inner@);
    }
    let k = match last_significant(inner) {
        Some(k) => k,
        None => {
            return Err(Reject::NotATower);
        },
    };
    let (index, targets, default) = match &inner[k] {
        Stmt::BrTable { index, targets, default } => (index, targets, default),
        _ => {
            return Err(Reject::NotATower);
        },
    };
    let mut m: usize = 1;
    while m < labels.len()
        invariant
            1 <= m <= labels@.len(),
            tower(body@) == Some(t),
            labels@.len() >= MIN_DEPTH,
            t.2 == inner@,
            labels@ == seq![label] + t.0,
            views(rests@) == t.1,
            k == last_sig(inner@),
            k < inner@.len(),
            inner@[k as int] == (Stmt::BrTable { index: *index, targets: *targets, default: *default }),
            forall|q: int|
                1 <= q < m ==> count_of(refs@, #[trigger] labels@[q]) == targets_refs(
                    targets@,
                    labels@[q],
                ) + target_refs(*default, labels@[q]),
        decreases labels@.len() - m,
    {
        if mismatch(refs, targets, default, labels[m]) {
            proof {
                assert(count_of(refs@, labels@[m as int]) != targets_refs(targets@, labels@[m as int])
                    + target_refs(*default, labels@[m as int]));
                assert(foreign(refs@, labels@, inner@));
            }
            return Err(Reject::ForeignBranch);
        }
        m = m + 1;
    }
    let lead = leaders(targets);
    let mut arms: Vec<(Vec<u32>, Arm<'a>)> = Vec::new();
    let mut q: usize = 0;
    while q < lead.len()
        invariant
            q <= lead@.len(),
            tower(body@) == Some(t),
            labels@.len() >= MIN_DEPTH,
            t.2 == inner@,
            labels@ == seq![label] + t.0,
            views(rests@) == t.1,
            k == last_sig(inner@),
            k < inner@.len(),
            inner@[k as int] == (Stmt::BrTable { index: *index, targets: *targets, default: *default }),
            labels@.len() == rests@.len() + 1,
            lead@.len() == leaders_upto(targets@, targets@.len() as int).len(),
            forall|k: int|
                0 <= k < lead@.len() ==> lead@[k] as int == leaders_upto(
                    targets@,
                    targets@.len() as int,
                )[k],
            arms@.len() == q,
            forall|j: int|
                0 <= j < q ==> {
                    &&& (#[trigger] arms@[j]).0@ == group_upto(
                        targets@,
                        leaders_upto(targets@, targets@.len() as int)[j],
                        targets@.len() as int,
                    )
                    &&& classifies(
                        arms@[j].1,
                        targets@[leaders_upto(targets@, targets@.len() as int)[j]],
                        labels@,
                        views(rests@),
                    )
                },
        decreases lead@.len() - q,
    {
        let i = lead[q];
        proof {
            lemma_leaders_bounds(targets@, targets@.len() as int);
            assert(leaders_upto(targets@, targets@.len() as int)[q as int] < targets@.len());
        }
        let values = group(targets, i);
        let arm = classify(&targets[i], &labels, &rests);
        arms.push((values, arm));
        q = q + 1;
    }
    let default_arm = classify(default, &labels, &rests);
    let prelude = vstd::slice::slice_subrange(inner, 0, k);
    Ok(Switch { prelude, index, arms, default: default_arm })
}


proof fn lemma_same_group_equiv(ts: Seq<BrTarget>, a: int, b: int, c: int)
    ensures
        same_group(ts, a, b) ==> same_group(ts, b, a),
        same_group(ts, a, b) && same_group(ts, b, c) ==> same_group(ts, a, c),
{
}

/// Every target shares an arm with a leader at or before it.
proof fn lemma_leader_of(ts: Seq<BrTarget>, j: int) -> (i: int)
    requires
        0 <= j < ts.len(),
    ensures
        0 <= i <= j,
        is_leader(ts, i),
        same_group(ts, i, j),
    decreases j,
{
    if is_leader(ts, j) {
        j
    } else {
        let q = choose|q: int| 0 <= q < j && #[trigger] same_group(ts, q, j);
        let i = lemma_leader_of(ts, q);
        lemma_same_group_equiv(ts, i, q, j);
        i
    }
}

proof fn lemma_leaders_members(ts: Seq<BrTarget>, n: int)
    requires
        0 <= n,
    ensures
        forall|i: int| leaders_upto(ts, n).contains(i) <==> 0 <= i < n && is_leader(ts, i),
        forall|k1: int, k2: int|
            0 <= k1 < k2 < leaders_upto(ts, n).len() ==> leaders_upto(ts, n)[k1] < leaders_upto(ts, n)[k2],
    decreases n,
{
    if n > 0 {
        lemma_leaders_members(ts, n - 1);
        lemma_leaders_bounds(ts, n - 1);
        let a = leaders_upto(ts, n - 1);
        let b: Seq<int> = if is_leader(ts, n - 1) {
            seq![n - 1]
        } else {
            seq![]
        };
        assert forall|i: int| (a + b).contains(i) <==> 0 <= i < n && is_leader(ts, i) by {
            if (a + b).contains(i) {
                let k = choose|k: int| 0 <= k < (a + b).len() && (a + b)[k] == i;
                if k < a.len() {
                    assert(a[k] == i);
                    assert(a.contains(i));
                }
            }
            if 0 <= i < n && is_leader(ts, i) {
                if i < n - 1 {
                    assert(a.contains(i));
                    let k = choose|k: int| 0 <= k < a.len() && a[k] == i;
                    assert((a + b)[k] == i);
                } else {
                    assert((a + b)[a.len() as int] == i);
                }
            }
        }
    }
}

proof fn lemma_group_members(ts: Seq<BrTarget>, i: int, n: int)
    requires
        0 <= n <= ts.len(),
        ts.len() <= u32::MAX + 1,
    ensures
        forall|j: int| 0 <= j < n ==> (group_upto(ts, i, n).contains(j as u32) <==> same_group(ts, i, j)),
        forall|x: u32| group_upto(ts, i, n).contains(x) ==> x < n,
    decreases n,
{
    if n > 0 {
        lemma_group_members(ts, i, n - 1);
        let a = group_upto(ts, i, n - 1);
        let b: Seq<u32> = if same_group(ts, i, n - 1) {
            seq![(n - 1) as u32]
        } else {
            seq![]
        };
        assert forall|x: u32| (a + b).contains(x) <==> a.contains(x) || b.contains(x) by {
            if (a + b).contains(x) {
                let k = choose|k: int| 0 <= k < (a + b).len() && (a + b)[k] == x;
                if k < a.len() {
                    assert(a[k] == x);
                }
            }
            if a.contains(x) {
                let k = choose|k: int| 0 <= k < a.len() && a[k] == x;
                assert((a + b)[k] == x);
            }
            if b.contains(x) {
                assert((a + b)[a.len() as int] == x);
            }
        }
        assert(group_upto(ts, i, n) == a + b);
        assert forall|j: int| 0 <= j < n implies (group_upto(ts, i, n).contains(j as u32) <==> same_group(ts, i, j)) by {
            assert((j as u32) as int == j);
            assert((a + b).contains(j as u32) <==> a.contains(j as u32) || b.contains(j as u32));
            if j < n - 1 {
                assert(a.contains(j as u32) <==> same_group(ts, i, j));
                if b.contains(j as u32) {
                    assert(b[0] == j as u32);
                }
            } else {
                if a.contains(j as u32) {
                    assert((j as u32) < n - 1);
                }
                if same_group(ts, i, j) {
                    assert(b[0] == j as u32);
                } else {
                    assert(b.len() == 0);
                }
            }
        }
        assert forall|x: u32| group_upto(ts, i, n).contains(x) implies x < n by {
            if b.contains(x) {
                assert(b[0] == x);
            }
        }
    }
}

/// Every position of a `br_table` with at most 2^32 targets falls in exactly one arm: the arm
/// led by the first target that names the same label (a return target leads an arm of its own).
pub proof fn lemma_arms_partition(ts: Seq<BrTarget>, j: int)
    requires
        0 <= j < ts.len(),
        ts.len() <= u32::MAX + 1,
    ensures
        exists|k: int|
            0 <= k < leaders_upto(ts, ts.len() as int).len() && #[trigger] group_upto(
                ts,
                leaders_upto(ts, ts.len() as int)[k],
                ts.len() as int,
            ).contains(j as u32),
        forall|k1: int, k2: int|
            0 <= k1 < leaders_upto(ts, ts.len() as int).len() && 0 <= k2 < leaders_upto(
                ts,
                ts.len() as int,
            ).len() && group_upto(ts, leaders_upto(ts, ts.len() as int)[k1], ts.len() as int).contains(
                j as u32,
            ) && group_upto(ts, leaders_upto(ts, ts.len() as int)[k2], ts.len() as int).contains(
                j as u32,
            ) ==> k1 == k2,
{
    let n = ts.len() as int;
    let l = leaders_upto(ts, n);
    lemma_leaders_members(ts, n);
    let i = lemma_leader_of(ts, j);
    assert(l.contains(i));
    let k = choose|k: int| 0 <= k < l.len() && l[k] == i;
    lemma_group_members(ts, i, n);
    assert(group_upto(ts, l[k], n).contains(j as u32));
    assert forall|k1: int, k2: int|
        0 <= k1 < l.len() && 0 <= k2 < l.len() && group_upto(ts, l[k1], n).contains(j as u32)
            && group_upto(ts, l[k2], n).contains(j as u32) implies k1 == k2 by {
        lemma_group_members(ts, l[k1], n);
        lemma_group_members(ts, l[k2], n);
        assert(l.contains(l[k1]));
        assert(l.contains(l[k2]));
        lemma_same_group_equiv(ts, l[k1], j, l[k2]);
        lemma_same_group_equiv(ts, l[k2], j, l[k1]);
        lemma_same_group_equiv(ts, j, l[k2], l[k1]);
        lemma_same_group_equiv(ts, j, l[k1], l[k2]);
        lemma_leaders_bounds(ts, n);
        assert(0 <= l[k1] && 0 <= l[k2]);
        assert(same_group(ts, l[k1], j) && same_group(ts, l[k2], j));
        if k1 < k2 {
            assert(l[k1] < l[k2]);
            assert(is_leader(ts, l[k2]));
            assert(!same_group(ts, l[k1], l[k2]));
        } else if k2 < k1 {
            assert(l[k2] < l[k1]);
            assert(is_leader(ts, l[k1]));
            assert(!same_group(ts, l[k2], l[k1]));
        }
    }
}

} // verus!
