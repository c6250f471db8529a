//! Loop-body outlining: a contiguous, branch-closed span of a loop body moves into a function of
//! its own, called once per iteration.
//!
//! A JIT that compiles a method only when it is entered through a call never compiles a hot loop
//! inside a function entered once; split across a call, the loop's work becomes a method invoked
//! every iteration. The extracted span must be branch-closed (every branch inside it lands on a
//! frame opened inside it), must not return, and may leave at most as many values behind for the
//! rest of the function as a call can return. It need not start at the body's first statement: a
//! head-tested loop opens with its own exit branch, which stays behind.
use vstd::prelude::*;

use crate::ir::{BrTarget, Expr, Func, FuncType, Label, Module, Stmt, Temp, ValType};
use crate::regions::{
    first_read_scan, first_reads, collect_seq, seq_reads, seq_writes, closed, closed_in, may_throw, seq_may_throw,
    seq_weight, stmt_weight, stmt_weight_exec, sat,
};
use crate::liveness::{bounds_seq, records_of, sets_of, Liveness};
use crate::varset::{Var, VarSet, ascending, var_key, var_key_exec, lemma_var_key_injective};

verus! {

/// Extraction thresholds; each backend picks its own.
#[derive(Clone, Copy, Debug)]
pub struct Params {
    /// The least region size, in IR nodes, worth a call per iteration.
    pub min_weight: u32,
    /// The most parameters an extracted function may take.
    pub max_params: usize,
    /// The most values a region may leave live for the rest of the function (a call returns at
    /// most one).
    pub max_results: usize,
    /// The least region size when the region consumes incoming temp values, which cost an extra
    /// argument and an entry copy each.
    pub min_weight_with_temps: u32,
}

/// What extracting a region takes, computed on the region before it moves.
#[derive(Debug)]
pub struct Extraction {
    /// Caller locals passed as arguments, ascending.
    pub arg_locals: Vec<u32>,
    /// Caller temps whose incoming value the region may read, passed after the locals and copied
    /// into the same temp at the extracted function's entry, ascending.
    pub arg_temps: Vec<Temp>,
    /// The one variable the region leaves live for the rest of the function, if any.
    pub live_out: Option<Var>,
    /// Caller locals that become the extracted function's own locals, ascending.
    pub inner_locals: Vec<u32>,
    /// The temps the extracted function declares, ascending.
    pub temps: Vec<Temp>,
}

/// The key a temp sorts by.
pub open spec fn temp_key(t: Temp) -> nat {
    var_key(Var::Temp(t))
}

/// The local indices among `s`.
pub open spec fn locals_of(s: Set<Var>) -> Set<u32> {
    Set::new(|i: u32| s.contains(Var::Local(i)))
}

/// The temps among `s`.
pub open spec fn temps_of(s: Set<Var>) -> Set<Temp> {
    Set::new(|t: Temp| s.contains(Var::Temp(t)))
}

/// Whether `v` strictly increases.
pub open spec fn locals_ascending(v: Seq<u32>) -> bool {
    forall|i: int, j: int| 0 <= i < j < v.len() ==> v[i] < v[j]
}

/// Whether `v` strictly increases by [`temp_key`].
pub open spec fn temps_ascending(v: Seq<Temp>) -> bool {
    forall|i: int, j: int| 0 <= i < j < v.len() ==> temp_key(v[i]) < temp_key(v[j])
}

/// Whether `v` is the element of `s` with the least key.
pub open spec fn is_least(v: Var, s: Set<Var>) -> bool {
    s.contains(v) && forall|w: Var| #[trigger] s.contains(w) ==> var_key(v) <= var_key(w)
}

/// The element of `s` with the least key, if any.
pub open spec fn least(s: Set<Var>) -> Option<Var> {
    if exists|v: Var| is_least(v, s) {
        Some(choose|v: Var| is_least(v, s))
    } else {
        None
    }
}

/// What the region writes that is live after it.
pub open spec fn live_outs(region: Seq<Stmt>, live_after: Set<Var>) -> Set<Var> {
    seq_writes(region).intersect(live_after)
}

/// The variables whose incoming value the region may need: those it may read before writing,
/// and a live-out it does not assign on every path.
pub open spec fn inputs(region: Seq<Stmt>, live_after: Set<Var>) -> Set<Var> {
    let (maybe, definite) = first_reads(region);
    match least(live_outs(region, live_after)) {
        Some(v) => if definite.contains(v) {
            maybe
        } else {
            maybe.insert(v)
        },
        None => maybe,
    }
}

/// Whether a region of the given weight, with `live_after` live after it, can be extracted.
pub open spec fn extractable(region: Seq<Stmt>, weight: u32, live_after: Set<Var>, p: Params) -> bool {
    let ins = inputs(region, live_after);
    &&& live_outs(region, live_after).len() <= p.max_results
    &&& ins.len() <= p.max_params
    &&& (temps_of(ins).is_empty() || weight >= p.min_weight_with_temps)
}

/// Whether `e` is what extracting the region takes: its inputs split into locals and temps, its
/// live-out, the locals it uses that become its own, and every temp it uses, each ascending.
#[verifier::opaque]
pub open spec fn extraction_of(e: Extraction, region: Seq<Stmt>, live_after: Set<Var>) -> bool {
    let ins = inputs(region, live_after);
    let used = seq_reads(region).union(seq_writes(region));
    &&& locals_ascending(e.arg_locals@) && e.arg_locals@.to_set() == locals_of(ins)
    &&& temps_ascending(e.arg_temps@) && e.arg_temps@.to_set() == temps_of(ins)
    &&& e.live_out == least(live_outs(region, live_after))
    &&& locals_ascending(e.inner_locals@) && e.inner_locals@.to_set() == locals_of(used).difference(locals_of(ins))
    &&& temps_ascending(e.temps@) && e.temps@.to_set() == temps_of(used)
}

/// `v` is the least element of `s` exactly when it is what [`least`] picks.
proof fn lemma_least_unique(v: Var, s: Set<Var>)
    requires
        is_least(v, s),
    ensures
        least(s) == Some(v),
{
    let w = choose|w: Var| is_least(w, s);
    assert(is_least(w, s));
    assert(var_key(v) <= var_key(w) && var_key(w) <= var_key(v));
    lemma_var_key_injective(v, w);
}

/// Splits the ascending variables `vs` into their locals not in `exclude` and their temps, each
/// ascending.
fn split_vars(vs: &Vec<Var>, exclude: &VarSet) -> (r: (Vec<u32>, Vec<Temp>))
    requires
        ascending(vs@),
    ensures
        locals_ascending(r.0@),
        r.0@.to_set() == locals_of(vs@.to_set()).difference(locals_of(exclude@)),
        temps_ascending(r.1@),
        r.1@.to_set() == temps_of(vs@.to_set()),
{
    let mut ls: Vec<u32> = Vec::new();
    let mut ts: Vec<Temp> = Vec::new();
    let mut i: usize = 0;
    while i < vs.len()
        invariant
            i <= vs@.len(),
            ascending(vs@),
            locals_ascending(ls@),
            temps_ascending(ts@),
            forall|q: int| 0 <= q < ls@.len() ==> exists|j: int| 0 <= j < i && vs@[j] == Var::Local(#[trigger] ls@[q]),
            forall|q: int| 0 <= q < ts@.len() ==> exists|j: int| 0 <= j < i && vs@[j] == Var::Temp(#[trigger] ts@[q]),
            forall|x: u32| #[trigger] ls@.contains(x) <==> (vs@.subrange(0, i as int).contains(Var::Local(x))
                && !exclude@.contains(Var::Local(x))),
            forall|t: Temp| #[trigger] ts@.contains(t) <==> vs@.subrange(0, i as int).contains(Var::Temp(t)),
        decreases vs@.len() - i,
    {
        let v = vs[i];
        let ghost pre = vs@.subrange(0, i as int);
        let ghost post = vs@.subrange(0, i + 1);
        assert(forall|x: Var| post.contains(x) <==> (pre.contains(x) || x == v)) by {
            assert forall|x: Var| post.contains(x) <==> (pre.contains(x) || x == v) by {
                if post.contains(x) {
                    let j = choose|j: int| 0 <= j < post.len() && post[j] == x;
                    if j < i {
                        assert(pre[j] == x);
                    }
                }
                if pre.contains(x) {
                    let j = choose|j: int| 0 <= j < pre.len() && pre[j] == x;
                    assert(post[j] == x);
                }
                if x == v {
                    assert(post[i as int] == x);
                }
            }
        }
        match v {
            Var::Local(x) => {
                if !exclude.contains(v) {
                    let ghost before = ls@;
                    ls.push(x);
                    proof {
                        assert forall|a: int, b: int| 0 <= a < b < ls@.len() implies ls@[a] < ls@[b] by {
                            if b == ls@.len() - 1 {
                                let j = choose|j: int| 0 <= j < i && vs@[j] == Var::Local(#[trigger] before[a]);
                                assert(var_key(vs@[j]) < var_key(vs@[i as int]));
                            }
                        }
                        assert forall|q: int| 0 <= q < ls@.len() implies exists|j: int| 0 <= j < i + 1 && vs@[j]
                            == Var::Local(#[trigger] ls@[q]) by {
                            if q < before.len() {
                                let j = choose|j: int| 0 <= j < i && vs@[j] == Var::Local(#[trigger] before[q]);
                                assert(vs@[j] == Var::Local(ls@[q]));
                            } else {
                                assert(vs@[i as int] == Var::Local(ls@[q]));
                            }
                        }
                        assert forall|y: u32| #[trigger] ls@.contains(y) <==> (post.contains(Var::Local(y))
                            && !exclude@.contains(Var::Local(y))) by {
                            if ls@.contains(y) {
                                let q = choose|q: int| 0 <= q < ls@.len() && ls@[q] == y;
                                if q < before.len() {
                                    assert(before.contains(y));
                                }
                            }
                            if before.contains(y) {
                                let q = choose|q: int| 0 <= q < before.len() && before[q] == y;
                                assert(ls@[q] == y);
                            }
                            if y == x {
                                assert(ls@[before.len() as int] == y);
                            }
                        }
                    }
                }
            },
            Var::Temp(t) => {
                let ghost before = ts@;
                ts.push(t);
                proof {
                    assert forall|a: int, b: int| 0 <= a < b < ts@.len() implies temp_key(ts@[a]) < temp_key(ts@[b]) by {
                        if b == ts@.len() - 1 {
                            let j = choose|j: int| 0 <= j < i && vs@[j] == Var::Temp(#[trigger] before[a]);
                            assert(var_key(vs@[j]) < var_key(vs@[i as int]));
                        }
                    }
                    assert forall|q: int| 0 <= q < ts@.len() implies exists|j: int| 0 <= j < i + 1 && vs@[j]
                        == Var::Temp(#[trigger] ts@[q]) by {
                        if q < before.len() {
                            let j = choose|j: int| 0 <= j < i && vs@[j] == Var::Temp(#[trigger] before[q]);
                            assert(vs@[j] == Var::Temp(ts@[q]));
                        } else {
                            assert(vs@[i as int] == Var::Temp(ts@[q]));
                        }
                    }
                    assert forall|y: Temp| #[trigger] ts@.contains(y) <==> post.contains(Var::Temp(y)) by {
                        if ts@.contains(y) {
                            let q = choose|q: int| 0 <= q < ts@.len() && ts@[q] == y;
                            if q < before.len() {
                                assert(before.contains(y));
                            }
                        }
                        if before.contains(y) {
                            let q = choose|q: int| 0 <= q < before.len() && before[q] == y;
                            assert(ts@[q] == y);
                        }
                        if y == t {
                            assert(ts@[before.len() as int] == y);
                        }
                    }
                }
            },
        }
        i = i + 1;
    }
    proof {
        assert(vs@.subrange(0, vs@.len() as int) =~= vs@);
        assert(ls@.to_set() =~= locals_of(vs@.to_set()).difference(locals_of(exclude@)));
        assert(ts@.to_set() =~= temps_of(vs@.to_set()));
    }
    (ls, ts)
}

/// Decides whether the region can be extracted, given its weight and what is live after it, and
/// if so what extracting it takes.
pub fn plan_extraction(region: &[Stmt], weight: u32, live_after: &VarSet, params: &Params) -> (r: Option<Extraction>)
    ensures
        r is Some <==> extractable(region@, weight, live_after@, *params),
        r matches Some(e) ==> extraction_of(e, region@, live_after@),
{
    let mut reads = VarSet::new();
    let mut writes = VarSet::new();
    collect_seq(region, &mut reads, &mut writes);
    assert(reads@ =~= seq_reads(region@));
    assert(writes@ =~= seq_writes(region@));
    let ghost lo_spec = live_outs(region@, live_after@);
    let written = writes.sorted();
    let mut lo = VarSet::new();
    let mut i: usize = 0;
    while i < written.len()
        invariant
            i <= written@.len(),
            forall|v: Var| #[trigger] lo@.contains(v) <==> (written@.subrange(0, i as int).contains(v) && live_after@.contains(v)),
        decreases written@.len() - i,
    {
        let v = written[i];
        proof {
            let pre = written@.subrange(0, i as int);
            let post = written@.subrange(0, i + 1);
            assert forall|x: Var| post.contains(x) <==> (pre.contains(x) || x == v) by {
                if post.contains(x) {
                    let j = choose|j: int| 0 <= j < post.len() && post[j] == x;
                    if j < i {
                        assert(pre[j] == x);
                    }
                }
                if pre.contains(x) {
                    let j = choose|j: int| 0 <= j < pre.len() && pre[j] == x;
                    assert(post[j] == x);
                }
                if x == v {
                    assert(post[i as int] == x);
                }
            }
        }
        if live_after.contains(v) {
            lo.insert(v);
        }
        i = i + 1;
    }
    proof {
        assert(written@.subrange(0, written@.len() as int) =~= written@);
        assert(lo@ =~= lo_spec);
    }
    let los = lo.sorted();
    if los.len() > params.max_results {
        return None;
    }
    let live_out: Option<Var> = if los.len() > 0 {
        Some(los[0])
    } else {
        None
    };
    proof {
        if los@.len() > 0 {
            assert forall|w: Var| #[trigger] lo_spec.contains(w) implies var_key(los@[0]) <= var_key(w) by {
                assert(los@.to_set().contains(w));
                let q = choose|q: int| 0 <= q < los@.len() && los@[q] == w;
                if q > 0 {
                    assert(var_key(los@[0]) < var_key(los@[q]));
                }
            }
            assert(los@.to_set().contains(los@[0]));
            lemma_least_unique(los@[0], lo_spec);
        } else {
            assert(lo_spec =~= Set::<Var>::empty());
            assert(!exists|v: Var| is_least(v, lo_spec));
        }
    }
    let (maybe, definite) = first_read_scan(region);
    let mut ins = maybe.copy();
    match live_out {
        Some(v) => {
            if !definite.contains(v) {
                ins.insert(v);
            }
        },
        None => {},
    }
    assert(ins@ == inputs(region@, live_after@));
    let ins_sorted = ins.sorted();
    if ins_sorted.len() > params.max_params {
        return None;
    }
    let none = VarSet::new();
    let (arg_locals, arg_temps) = split_vars(&ins_sorted, &none);
    proof {
        if arg_temps@.len() == 0 {
            assert(temps_of(ins@) =~= Set::<Temp>::empty());
        } else {
            assert(arg_temps@.to_set().contains(arg_temps@[0]));
            assert(temps_of(ins@).contains(arg_temps@[0]));
        }
        assert(locals_of(ins_sorted@.to_set()).difference(locals_of(none@)) =~= locals_of(ins@));
    }
    if arg_temps.len() > 0 && weight < params.min_weight_with_temps {
        return None;
    }
    let mut used = reads.copy();
    used.extend(&writes);
    let used_sorted = used.sorted();
    let (inner_locals, temps) = split_vars(&used_sorted, &ins);
    proof {
        reveal(extraction_of);
    }
    Some(Extraction { arg_locals, arg_temps, live_out, inner_locals, temps })
}

// ---------------------------------------------------------------------------------------------
// Choosing the span.

/// How many leading statements of `body` are candidates: those with a recorded live set after
/// them.
pub open spec fn span_limit(body: Seq<Stmt>, rec: Seq<Set<Var>>) -> int {
    let cap = if rec.len() > 0 { rec.len() - 1 } else { 0 };
    if cap < body.len() { cap } else { body.len() as int }
}

/// Whether every branch inside `s` lands inside `s`, and nothing in it returns.
pub open spec fn stmt_closed(s: Stmt) -> bool {
    closed_in(s, Set::empty())
}

/// The size of the first `i` statements, saturating.
pub open spec fn prefix_weight(body: Seq<Stmt>, i: int) -> u32 {
    sat(seq_weight(body.subrange(0, i)))
}

/// The size of the span `body[j..k]`, as the prefix sizes give it.
pub open spec fn span_weight(body: Seq<Stmt>, j: int, k: int) -> int {
    prefix_weight(body, k) - prefix_weight(body, j)
}

/// Whether `body[j..e]` is a maximal run of closed statements below `lim`.
pub open spec fn maximal_run(body: Seq<Stmt>, lim: int, j: int, e: int) -> bool {
    &&& 0 <= j < e <= lim
    &&& forall|i: int| j <= i < e ==> stmt_closed(#[trigger] body[i])
    &&& (j == 0 || !stmt_closed(body[j - 1]))
    &&& (e == lim || !stmt_closed(body[e]))
}

/// Whether `body[j..k]`, inside the maximal run `body[j..e]`, may be extracted: heavy enough,
/// not throwing inside a try_table, and extractable given what is live after it.
pub open spec fn candidate(body: Seq<Stmt>, rec: Seq<Set<Var>>, p: Params, in_try: bool, j: int, e: int, k: int) -> bool {
    &&& maximal_run(body, span_limit(body, rec), j, e)
    &&& j < k <= e
    &&& span_weight(body, j, k) >= p.min_weight
    &&& !(in_try && seq_may_throw(body.subrange(j, k)))
    &&& extractable(body.subrange(j, k), span_weight(body, j, k) as u32, rec[k], p)
}

/// The order candidates are tried in: heavier runs first, then earlier runs, then longer spans.
pub open spec fn precedes(body: Seq<Stmt>, a: (int, int, int), b: (int, int, int)) -> bool {
    let wa = span_weight(body, a.0, a.1);
    let wb = span_weight(body, b.0, b.1);
    ||| wa > wb
    ||| wa == wb && a.0 < b.0
    ||| a.0 == b.0 && a.2 > b.2
}

/// Whether `c` is the candidate tried first.
#[verifier::opaque]
pub open spec fn first_candidate(body: Seq<Stmt>, rec: Seq<Set<Var>>, p: Params, in_try: bool, c: (int, int, int)) -> bool {
    &&& candidate(body, rec, p, in_try, c.0, c.1, c.2)
    &&& forall|d: (int, int, int)| #[trigger] candidate(body, rec, p, in_try, d.0, d.1, d.2) ==> d == c || precedes(body, c, d)
}

/// Whether run `a` is tried before run `b`.
pub open spec fn run_before(body: Seq<Stmt>, a: (usize, usize), b: (usize, usize)) -> bool {
    let wa = span_weight(body, a.0 as int, a.1 as int);
    let wb = span_weight(body, b.0 as int, b.1 as int);
    wa > wb || (wa == wb && a.0 < b.0)
}

proof fn lemma_seq_weight_prefix_mono(body: Seq<Stmt>, i: int, k: int)
    requires
        0 <= i <= k <= body.len(),
    ensures
        seq_weight(body.subrange(0, i)) <= seq_weight(body.subrange(0, k)),
    decreases k - i,
{
    if i < k {
        lemma_seq_weight_prefix_mono(body, i, k - 1);
        let t = body.subrange(0, k);
        assert(t.subrange(0, t.len() - 1) =~= body.subrange(0, k - 1));
    }
}

proof fn lemma_prefix_weight_mono(body: Seq<Stmt>, i: int, k: int)
    requires
        0 <= i <= k <= body.len(),
    ensures
        prefix_weight(body, i) <= prefix_weight(body, k),
{
    lemma_seq_weight_prefix_mono(body, i, k);
}

/// The prefix sizes of the first `limit` statements: `[i]` is the size of `body[..i]`.
fn prefix_weights(body: &[Stmt], limit: usize) -> (w: Vec<u32>)
    requires
        limit <= body@.len(),
    ensures
        w@.len() == limit + 1,
        forall|i: int| 0 <= i <= limit ==> w@[i] == prefix_weight(body@, i),
{
    let mut w: Vec<u32> = Vec::new();
    w.push(0);
    assert(body@.subrange(0, 0) =~= Seq::<Stmt>::empty());
    let mut i: usize = 0;
    while i < limit
        invariant
            i <= limit,
            limit <= body@.len(),
            w@.len() == i + 1,
            forall|t: int| 0 <= t <= i ==> w@[t] == prefix_weight(body@, t),
        decreases limit - i,
    {
        let x = stmt_weight_exec(&body[i]);
        let last = w[i];
        proof {
            let t = body@.subrange(0, i + 1);
            assert(t.subrange(0, t.len() - 1) =~= body@.subrange(0, i as int));
            assert(t[t.len() - 1] == body@[i as int]);
        }
        w.push(last.saturating_add(x));
        i = i + 1;
    }
    w
}

/// The maximal runs of closed statements among the first `limit` statements of `body`, in order.
fn closed_runs(body: &[Stmt], limit: usize) -> (runs: Vec<(usize, usize)>)
    requires
        limit <= body@.len(),
    ensures
        forall|q: int| 0 <= q < runs@.len() ==> maximal_run(body@, limit as int, (#[trigger] runs@[q]).0 as int, runs@[q].1 as int),
        forall|j: int, e: int| #![trigger maximal_run(body@, limit as int, j, e)] maximal_run(body@, limit as int, j, e) ==> runs@.contains(
            (j as usize, e as usize),
        ),
        forall|a: int, b: int| 0 <= a < b < runs@.len() ==> runs@[a].0 < runs@[b].0,
{
    let mut runs: Vec<(usize, usize)> = Vec::new();
    let mut start: Option<usize> = None;
    let mut i: usize = 0;
    while i < limit
        invariant
            i <= limit,
            limit <= body@.len(),
            match start {
                Some(j) => j < i && (forall|t: int| j <= t < i ==> stmt_closed(#[trigger] body@[t])) && (j == 0 || !stmt_closed(
                    body@[j - 1],
                )) && (forall|q: int| 0 <= q < runs@.len() ==> (#[trigger] runs@[q]).0 < j),
                None => i == 0 || !stmt_closed(body@[i - 1]),
            },
            forall|q: int| 0 <= q < runs@.len() ==> maximal_run(body@, limit as int, (#[trigger] runs@[q]).0 as int, runs@[q].1 as int)
                && runs@[q].1 < i,
            forall|j: int, e: int| #![trigger maximal_run(body@, limit as int, j, e)] maximal_run(body@, limit as int, j, e) && e < i
                ==> runs@.contains((j as usize, e as usize)),
            forall|a: int, b: int| 0 <= a < b < runs@.len() ==> runs@[a].0 < runs@[b].0,
        decreases limit - i,
    {
        let ok = closed(&body[i]);
        let ghost before = runs@;
        let ghost st = start;
        if ok {
            if start.is_none() {
                start = Some(i);
            }
        } else {
            match start {
                Some(j) => {
                    runs.push((j, i));
                    start = None;
                },
                None => {},
            }
        }
        proof {
            assert forall|j: int, e: int| #![trigger maximal_run(body@, limit as int, j, e)] maximal_run(body@, limit as int, j, e) && e
                < i + 1 implies runs@.contains((j as usize, e as usize)) by {
                if e < i {
                    let q = choose|q: int| 0 <= q < before.len() && before[q] == (j as usize, e as usize);
                    assert(runs@[q] == before[q]);
                } else {
                    assert(stmt_closed(body@[i - 1]));
                    match st {
                        Some(j2) => {
                            if j2 < j {
                                assert(stmt_closed(body@[j - 1]));
                            } else if j2 > j {
                                assert(stmt_closed(body@[j2 - 1]));
                            }
                            assert(runs@[runs@.len() - 1] == (j as usize, e as usize));
                        },
                        None => {},
                    }
                }
            }
        }
        i = i + 1;
    }
    let ghost before = runs@;
    let ghost st = start;
    match start {
        Some(j) => {
            runs.push((j, limit));
        },
        None => {},
    }
    proof {
        assert forall|j: int, e: int| #![trigger maximal_run(body@, limit as int, j, e)] maximal_run(body@, limit as int, j, e) implies runs@.contains(
            (j as usize, e as usize),
        ) by {
            if e < limit {
                let q = choose|q: int| 0 <= q < before.len() && before[q] == (j as usize, e as usize);
                assert(runs@[q] == before[q]);
            } else {
                assert(stmt_closed(body@[limit - 1]));
                match st {
                    Some(j2) => {
                        if j2 < j {
                            assert(stmt_closed(body@[j - 1]));
                        } else if j2 > j {
                            assert(stmt_closed(body@[j2 - 1]));
                        }
                        assert(runs@[runs@.len() - 1] == (j as usize, e as usize));
                    },
                    None => {},
                }
            }
        }
    }
    runs
}

/// The runs in the order they are tried: heavier first, then earlier.
fn order_runs(runs: &Vec<(usize, usize)>, w: &Vec<u32>, Ghost(body): Ghost<Seq<Stmt>>) -> (sorted: Vec<(usize, usize)>)
    requires
        forall|a: int, b: int| 0 <= a < b < runs@.len() ==> runs@[a].0 < runs@[b].0,
        forall|q: int| 0 <= q < runs@.len() ==> (#[trigger] runs@[q]).0 <= runs@[q].1 < w@.len(),
        forall|i: int, k: int| 0 <= i <= k < w@.len() ==> w@[i] <= w@[k],
        forall|i: int| 0 <= i < w@.len() ==> w@[i] == prefix_weight(body, i),
    ensures
        sorted@.to_set() == runs@.to_set(),
        forall|a: int, b: int| 0 <= a < b < sorted@.len() ==> run_before(body, sorted@[a], sorted@[b]),
{
    let mut sorted: Vec<(usize, usize)> = Vec::new();
    let mut t: usize = 0;
    while t < runs.len()
        invariant
            t <= runs@.len(),
            forall|a: int, b: int| 0 <= a < b < runs@.len() ==> runs@[a].0 < runs@[b].0,
            forall|q: int| 0 <= q < runs@.len() ==> (#[trigger] runs@[q]).0 <= runs@[q].1 < w@.len(),
            forall|i: int, k: int| 0 <= i <= k < w@.len() ==> w@[i] <= w@[k],
            forall|i: int| 0 <= i < w@.len() ==> w@[i] == prefix_weight(body, i),
            forall|x: (usize, usize)| sorted@.contains(x) <==> runs@.subrange(0, t as int).contains(x),
            forall|q: int| 0 <= q < sorted@.len() ==> (#[trigger] sorted@[q]).0 <= sorted@[q].1 < w@.len(),
            forall|a: int, b: int| 0 <= a < b < sorted@.len() ==> run_before(body, sorted@[a], sorted@[b]),
        decreases runs@.len() - t,
    {
        let r = runs[t];
        let wr = w[r.1] - w[r.0];
        let mut p: usize = 0;
        while p < sorted.len() && !(wr > w[sorted[p].1] - w[sorted[p].0] || (wr == w[sorted[p].1] - w[sorted[p].0]
            && r.0 < sorted[p].0))
            invariant
                p <= sorted@.len(),
                t < runs@.len(),
                r == runs@[t as int],
                wr == span_weight(body, r.0 as int, r.1 as int),
                forall|q: int| 0 <= q < sorted@.len() ==> (#[trigger] sorted@[q]).0 <= sorted@[q].1 < w@.len(),
                forall|x: (usize, usize)| sorted@.contains(x) <==> runs@.subrange(0, t as int).contains(x),
                forall|q: int| 0 <= q < runs@.len() ==> (#[trigger] runs@[q]).0 <= runs@[q].1 < w@.len(),
                forall|i: int| 0 <= i < w@.len() ==> w@[i] == prefix_weight(body, i),
                forall|i: int, k: int| 0 <= i <= k < w@.len() ==> w@[i] <= w@[k],
                forall|q: int| 0 <= q < p ==> !run_before(body, r, #[trigger] sorted@[q]),
            decreases sorted@.len() - p,
        {
            proof {
                assert(sorted@.contains(sorted@[p as int]));
                let q = choose|q: int| 0 <= q < t && runs@.subrange(0, t as int)[q] == sorted@[p as int];
                assert(runs@[q] == sorted@[p as int]);
            }
            p = p + 1;
        }
        proof {
            if p < sorted@.len() {
                assert(sorted@.contains(sorted@[p as int]));
                let q = choose|q: int| 0 <= q < t && runs@.subrange(0, t as int)[q] == sorted@[p as int];
                assert(runs@[q] == sorted@[p as int]);
            }
        }
        let ghost before = sorted@;
        sorted.insert(p, r);
        proof {
            // Every run already placed starts before `r`, so the order between them is total.
            assert forall|q: int| 0 <= q < before.len() implies before[q].0 < r.0 by {
                assert(before.contains(before[q]));
                let q2 = choose|q2: int| 0 <= q2 < t && runs@.subrange(0, t as int)[q2] == before[q];
                assert(runs@[q2] == before[q]);
            }
            assert forall|a: int, b: int| 0 <= a < b < sorted@.len() implies run_before(body, sorted@[a], sorted@[b]) by {
                if b < p {
                } else if b == p {
                    assert(!run_before(body, r, before[a]));
                    assert(before[a].0 < r.0);
                } else if a < p {
                    assert(sorted@[b] == before[b - 1]);
                    if b - 1 > p {
                        assert(run_before(body, before[p as int], before[b - 1]));
                    }
                    assert(!run_before(body, r, before[a]));
                    assert(before[a].0 < r.0);
                    assert(run_before(body, r, before[p as int]));
                } else if a == p {
                    assert(sorted@[b] == before[b - 1]);
                    assert(run_before(body, r, before[p as int]));
                    if b - 1 > p {
                        assert(run_before(body, before[p as int], before[b - 1]));
                    }
                } else {
                    assert(sorted@[a] == before[a - 1]);
                    assert(sorted@[b] == before[b - 1]);
                }
            }
            assert forall|q: int| 0 <= q < sorted@.len() implies (#[trigger] sorted@[q]).0 <= sorted@[q].1 < w@.len() by {
                if q < p {
                } else if q > p {
                    assert(sorted@[q] == before[q - 1]);
                }
            }
            assert forall|x: (usize, usize)| sorted@.contains(x) <==> runs@.subrange(0, t + 1).contains(x) by {
                let pre = runs@.subrange(0, t as int);
                let post = runs@.subrange(0, t + 1);
                if sorted@.contains(x) {
                    let q = choose|q: int| 0 <= q < sorted@.len() && sorted@[q] == x;
                    if q < p {
                        assert(before.contains(x));
                        let q2 = choose|q2: int| 0 <= q2 < pre.len() && pre[q2] == x;
                        assert(post[q2] == x);
                    } else if q > p {
                        assert(before[q - 1] == x);
                        assert(before.contains(x));
                        let q2 = choose|q2: int| 0 <= q2 < pre.len() && pre[q2] == x;
                        assert(post[q2] == x);
                    } else {
                        assert(post[t as int] == x);
                    }
                }
                if post.contains(x) {
                    let q = choose|q: int| 0 <= q < post.len() && post[q] == x;
                    if q < t {
                        assert(pre[q] == x);
                        assert(before.contains(x));
                        let q2 = choose|q2: int| 0 <= q2 < before.len() && before[q2] == x;
                        if q2 < p {
                            assert(sorted@[q2] == x);
                        } else {
                            assert(sorted@[q2 + 1] == x);
                        }
                    } else {
                        assert(sorted@[p as int] == x);
                    }
                }
            }
        }
        t = t + 1;
    }
    proof {
        assert(runs@.subrange(0, runs@.len() as int) =~= runs@);
        assert(sorted@.to_set() =~= runs@.to_set());
    }
    sorted
}

/// Whether some span of `body` is a candidate.
pub open spec fn has_candidate(body: Seq<Stmt>, rec: Seq<Set<Var>>, p: Params, in_try: bool) -> bool {
    exists|d: (int, int, int)| #[trigger] candidate(body, rec, p, in_try, d.0, d.1, d.2)
}

/// The span `body[j..k]` to extract, inside the run `body[j..e]`, and what extracting it takes: the first candidate (see
/// [`first_candidate`]), or `None` when there is none. `rec` holds the live set before each
/// leading statement of `body`, as the liveness analysis records it.
pub fn pick_span(body: &[Stmt], rec: &Vec<VarSet>, p: &Params, in_try: bool) -> (r: Option<(usize, usize, usize, Extraction)>)
    ensures
        r is None <==> !has_candidate(body@, sets_of(rec@), *p, in_try),
        r matches Some((j, e, k, ext)) ==> first_candidate(body@, sets_of(rec@), *p, in_try, (j as int, e as int, k as int))
            && extraction_of(ext, body@.subrange(j as int, k as int), sets_of(rec@)[k as int]),
        r matches Some((j, e, k, ext)) ==> j < k <= e <= body@.len() && ext_ascending(ext),
{
    let ghost b = body@;
    let ghost rs = sets_of(rec@);
    let n = body.len();
    let cap: usize = if rec.len() > 0 {
        rec.len() - 1
    } else {
        0
    };
    let limit: usize = if cap < n {
        cap
    } else {
        n
    };
    assert(limit == span_limit(b, rs));
    let w = prefix_weights(body, limit);
    proof {
        assert forall|i: int, k: int| 0 <= i <= k < w@.len() implies w@[i] <= w@[k] by {
            lemma_prefix_weight_mono(b, i, k);
        }
    }
    let runs = closed_runs(body, limit);
    let sorted = order_runs(&runs, &w, Ghost(b));
    proof {
        assert forall|q: int| 0 <= q < sorted@.len() implies maximal_run(b, limit as int, (#[trigger] sorted@[q]).0 as int, sorted@[q].1 as int) by {
            assert(sorted@.to_set().contains(sorted@[q]));
            let q2 = choose|q2: int| 0 <= q2 < runs@.len() && runs@[q2] == sorted@[q];
        }
    }
    let mut ri: usize = 0;
    while ri < sorted.len()
        invariant
            b == body@,
            rs == sets_of(rec@),
            limit == span_limit(b, rs),
            limit <= b.len(),
            w@.len() == limit + 1,
            forall|i: int| 0 <= i <= limit ==> w@[i] == prefix_weight(b, i),
            forall|i: int, k: int| 0 <= i <= k < w@.len() ==> w@[i] <= w@[k],
            forall|q: int| 0 <= q < sorted@.len() ==> maximal_run(b, limit as int, (#[trigger] sorted@[q]).0 as int, sorted@[q].1 as int),
            forall|j: int, e: int| #![trigger maximal_run(b, limit as int, j, e)] maximal_run(b, limit as int, j, e) ==> sorted@.to_set().contains(
                (j as usize, e as usize),
            ),
            forall|a: int, c: int| 0 <= a < c < sorted@.len() ==> run_before(b, sorted@[a], sorted@[c]),
            forall|q: int, k: int| 0 <= q < ri ==> !#[trigger] candidate(b, rs, *p, in_try, sorted@[q].0 as int, sorted@[q].1 as int, k),
            ri <= sorted@.len(),
        decreases sorted@.len() - ri,
    {
        let (j, e) = sorted[ri];
        if w[e] - w[j] < p.min_weight {
            proof {
                assert forall|d: (int, int, int)| !(#[trigger] candidate(b, rs, *p, in_try, d.0, d.1, d.2)) by {
                    if candidate(b, rs, *p, in_try, d.0, d.1, d.2) {
                        assert(maximal_run(b, limit as int, d.0, d.1));
                        assert(sorted@.to_set().contains((d.0 as usize, d.1 as usize)));
                        let q = choose|q: int| 0 <= q < sorted@.len() && sorted@[q] == (d.0 as usize, d.1 as usize);
                        if q > ri {
                            assert(run_before(b, sorted@[ri as int], sorted@[q]));
                        }
                        lemma_prefix_weight_mono(b, d.2, d.1);
                    }
                }
            }
            return None;
        }
        let mut k: usize = e;
        let mut light = false;
        while k > j && !light
            invariant
                b == body@,
                rs == sets_of(rec@),
                limit == span_limit(b, rs),
                limit <= b.len(),
                w@.len() == limit + 1,
                forall|i: int| 0 <= i <= limit ==> w@[i] == prefix_weight(b, i),
                forall|i: int, k: int| 0 <= i <= k < w@.len() ==> w@[i] <= w@[k],
                maximal_run(b, limit as int, j as int, e as int),
                j <= k <= e,
                ri < sorted@.len(),
                sorted@[ri as int] == (j, e),
                light ==> (w@[k as int] - w@[j as int] < p.min_weight),
                forall|k2: int| k < k2 <= e ==> !candidate(b, rs, *p, in_try, j as int, e as int, k2),
                forall|q: int| 0 <= q < sorted@.len() ==> maximal_run(b, limit as int, (#[trigger] sorted@[q]).0 as int, sorted@[q].1 as int),
                forall|j2: int, e2: int| #![trigger maximal_run(b, limit as int, j2, e2)] maximal_run(b, limit as int, j2, e2) ==> sorted@.to_set().contains(
                    (j2 as usize, e2 as usize),
                ),
                forall|a: int, c: int| 0 <= a < c < sorted@.len() ==> run_before(b, sorted@[a], sorted@[c]),
                forall|q: int, k3: int| 0 <= q < ri ==> !#[trigger] candidate(b, rs, *p, in_try, sorted@[q].0 as int, sorted@[q].1 as int, k3),
            decreases k - j + (if light { 0int } else { 1int }),
        {
            if w[k] - w[j] < p.min_weight {
                light = true;
            } else {
                let region = vstd::slice::slice_subrange(body, j, k);
                let throws = in_try && may_throw(region);
                if !throws {
                    match plan_extraction(region, w[k] - w[j], &rec[k], p) {
                        Some(ext) => {
                            proof {
                                let c = (j as int, e as int, k as int);
                                assert(sets_of(rec@)[k as int] == rec@[k as int]@);
                                assert(candidate(b, rs, *p, in_try, c.0, c.1, c.2));
                                assert forall|d: (int, int, int)| #[trigger] candidate(b, rs, *p, in_try, d.0, d.1, d.2) implies d
                                    == c || precedes(b, c, d) by {
                                    assert(maximal_run(b, limit as int, d.0, d.1));
                                    assert(sorted@.to_set().contains((d.0 as usize, d.1 as usize)));
                                    let q = choose|q: int| 0 <= q < sorted@.len() && sorted@[q] == (d.0 as usize, d.1 as usize);
                                    if q > ri {
                                        assert(run_before(b, sorted@[ri as int], sorted@[q]));
                                    }
                                }
                                assert(first_candidate(b, rs, *p, in_try, c)) by {
                                    reveal(first_candidate);
                                }
                                assert(ext_ascending(ext)) by {
                                    reveal(extraction_of);
                                }
                                assert(first_candidate(body@, sets_of(rec@), *p, in_try, (j as int, e as int, k as int)) && extraction_of(
                                    ext,
                                    body@.subrange(j as int, k as int),
                                    sets_of(rec@)[k as int],
                                ));
                            }
                            return Some((j, e, k, ext));
                        },
                        None => {},
                    }
                }
                proof {
                    assert(sets_of(rec@)[k as int] == rec@[k as int]@);
                }
                k = k - 1;
            }
        }
        proof {
            assert forall|k2: int| !candidate(b, rs, *p, in_try, j as int, e as int, k2) by {
                if candidate(b, rs, *p, in_try, j as int, e as int, k2) && k2 <= k {
                    lemma_prefix_weight_mono(b, k2, k as int);
                }
            }
            assert forall|q: int, k2: int| 0 <= q < ri + 1 implies !#[trigger] candidate(b, rs, *p, in_try, sorted@[q].0 as int, sorted@[q].1 as int, k2) by {
                if q == ri {
                }
            }
        }
        ri = ri + 1;
    }
    proof {
        assert forall|d: (int, int, int)| !(#[trigger] candidate(b, rs, *p, in_try, d.0, d.1, d.2)) by {
            if candidate(b, rs, *p, in_try, d.0, d.1, d.2) {
                assert(maximal_run(b, limit as int, d.0, d.1));
                assert(sorted@.to_set().contains((d.0 as usize, d.1 as usize)));
                let q = choose|q: int| 0 <= q < sorted@.len() && sorted@[q] == (d.0 as usize, d.1 as usize);
                assert(!candidate(b, rs, *p, in_try, sorted@[q].0 as int, sorted@[q].1 as int, d.2));
            }
        }
    }
    None
}

// ---------------------------------------------------------------------------------------------
// Renumbering the region's locals.

/// The index a caller local gets in the extracted function: local parameters first, then temp
/// parameters, then the function's own locals. A local the extraction does not cover keeps its
/// index.
pub open spec fn renum_local(ext: Extraction, i: u32) -> u32 {
    let a = ext.arg_locals@;
    let inner = ext.inner_locals@;
    let np = ext.arg_locals@.len() + ext.arg_temps@.len();
    if a.contains(i) {
        (choose|q: int| 0 <= q < a.len() && a[q] == i) as u32
    } else if inner.contains(i) {
        (np + choose|q: int| 0 <= q < inner.len() && inner[q] == i) as u32
    } else {
        i
    }
}

/// `e` with its locals renumbered.
pub open spec fn renum_expr(e: Expr, ext: Extraction) -> Expr
    decreases e,
{
    match e {
        Expr::LocalGet(i) => Expr::LocalGet(renum_local(ext, i)),
        Expr::Un(op, a) => Expr::Un(op, Box::new(renum_expr(*a, ext))),
        Expr::Bin(op, a, b) => Expr::Bin(op, Box::new(renum_expr(*a, ext)), Box::new(renum_expr(*b, ext))),
        Expr::Load { op, addr, offset } => Expr::Load { op, addr: Box::new(renum_expr(*addr, ext)), offset },
        Expr::Select { cond, then, els } => Expr::Select {
            cond: Box::new(renum_expr(*cond, ext)),
            then: Box::new(renum_expr(*then, ext)),
            els: Box::new(renum_expr(*els, ext)),
        },
        _ => e,
    }
}

/// Whether `b` is `a` with every expression renumbered.
pub open spec fn exprs_renumbered(a: Seq<Expr>, b: Seq<Expr>, ext: Extraction) -> bool {
    a.len() == b.len() && forall|i: int| 0 <= i < a.len() ==> b[i] == renum_expr(#[trigger] a[i], ext)
}

/// Whether `r` is the branch target `t` with the values it returns renumbered.
pub open spec fn target_renumbered(t: BrTarget, r: BrTarget, ext: Extraction) -> bool {
    match t {
        BrTarget::Return { values } => match r {
            BrTarget::Return { values: v2 } => exprs_renumbered(values@, v2@, ext),
            _ => false,
        },
        _ => r == t,
    }
}

/// `target_renumbered` over a sequence.
pub open spec fn targets_renumbered(a: Seq<BrTarget>, b: Seq<BrTarget>, ext: Extraction) -> bool {
    a.len() == b.len() && forall|i: int| 0 <= i < a.len() ==> target_renumbered(#[trigger] a[i], b[i], ext)
}

/// Whether `r` is `s` with its locals renumbered, at any depth. A try_table's catch clauses keep
/// theirs.
pub open spec fn renumbered(s: Stmt, r: Stmt, ext: Extraction) -> bool
    decreases s,
{
    match s {
        Stmt::Assign { dst, expr } => r == Stmt::Assign { dst, expr: renum_expr(expr, ext) },
        Stmt::LocalSet { idx, expr } => r == Stmt::LocalSet { idx: renum_local(ext, idx), expr: renum_expr(expr, ext) },
        Stmt::GlobalSet { idx, expr } => r == Stmt::GlobalSet { idx, expr: renum_expr(expr, ext) },
        Stmt::Store { op, addr, value, offset } => r == Stmt::Store {
            op,
            addr: renum_expr(addr, ext),
            value: renum_expr(value, ext),
            offset,
        },
        Stmt::Block { label, body } => match r {
            Stmt::Block { label: l2, body: b2 } => l2 == label && seq_renumbered(body@, b2@, ext),
            _ => false,
        },
        Stmt::Loop { label, body } => match r {
            Stmt::Loop { label: l2, body: b2 } => l2 == label && seq_renumbered(body@, b2@, ext),
            _ => false,
        },
        Stmt::If { label, cond, then, els } => match r {
            Stmt::If { label: l2, cond: c2, then: t2, els: e2 } => l2 == label && c2 == renum_expr(cond, ext)
                && seq_renumbered(then@, t2@, ext) && seq_renumbered(els@, e2@, ext),
            _ => false,
        },
        Stmt::Br(t) => match r {
            Stmt::Br(t2) => target_renumbered(t, t2, ext),
            _ => false,
        },
        Stmt::BrIf { cond, target } => match r {
            Stmt::BrIf { cond: c2, target: t2 } => c2 == renum_expr(cond, ext) && target_renumbered(target, t2, ext),
            _ => false,
        },
        Stmt::BrTable { index, targets, default } => match r {
            Stmt::BrTable { index: i2, targets: ts2, default: d2 } => i2 == renum_expr(index, ext) && targets_renumbered(
                targets@,
                ts2@,
                ext,
            ) && target_renumbered(default, d2, ext),
            _ => false,
        },
        Stmt::Return { values } => match r {
            Stmt::Return { values: v2 } => exprs_renumbered(values@, v2@, ext),
            _ => false,
        },
        Stmt::Call { func, args, results } => match r {
            Stmt::Call { func: f2, args: a2, results: r2 } => f2 == func && exprs_renumbered(args@, a2@, ext) && r2 == results,
            _ => false,
        },
        Stmt::CallIndirect { type_idx, table_index, index, args, results } => match r {
            Stmt::CallIndirect { type_idx: t2, table_index: ti2, index: i2, args: a2, results: r2 } => t2 == type_idx
                && ti2 == table_index && i2 == renum_expr(index, ext) && exprs_renumbered(args@, a2@, ext) && r2 == results,
            _ => false,
        },
        Stmt::MemoryGrow { dst, delta } => r == Stmt::MemoryGrow { dst, delta: renum_expr(delta, ext) },
        Stmt::MemoryCopy { dst, src, len } => r == Stmt::MemoryCopy {
            dst: renum_expr(dst, ext),
            src: renum_expr(src, ext),
            len: renum_expr(len, ext),
        },
        Stmt::MemoryFill { dst, val, len } => r == Stmt::MemoryFill {
            dst: renum_expr(dst, ext),
            val: renum_expr(val, ext),
            len: renum_expr(len, ext),
        },
        Stmt::MemoryInit { seg, dst, src, len } => r == Stmt::MemoryInit {
            seg,
            dst: renum_expr(dst, ext),
            src: renum_expr(src, ext),
            len: renum_expr(len, ext),
        },
        Stmt::TableInit { seg, table_index, dst, src, len } => r == Stmt::TableInit {
            seg,
            table_index,
            dst: renum_expr(dst, ext),
            src: renum_expr(src, ext),
            len: renum_expr(len, ext),
        },
        Stmt::TableCopy { dst_table, src_table, dst, src, len } => r == Stmt::TableCopy {
            dst_table,
            src_table,
            dst: renum_expr(dst, ext),
            src: renum_expr(src, ext),
            len: renum_expr(len, ext),
        },
        Stmt::Throw { tag, args } => match r {
            Stmt::Throw { tag: t2, args: a2 } => t2 == tag && exprs_renumbered(args@, a2@, ext),
            _ => false,
        },
        Stmt::ThrowRef { exn } => r == Stmt::ThrowRef { exn: renum_expr(exn, ext) },
        Stmt::TryTable { label, catches, body } => match r {
            Stmt::TryTable { label: l2, catches: c2, body: b2 } => l2 == label && c2 == catches && seq_renumbered(
                body@,
                b2@,
                ext,
            ),
            _ => false,
        },
        _ => r == s,
    }
}

/// `renumbered` over a sequence.
pub open spec fn seq_renumbered(ins: Seq<Stmt>, outs: Seq<Stmt>, ext: Extraction) -> bool
    decreases ins,
{
    if ins.len() == 0 {
        outs.len() == 0
    } else {
        &&& outs.len() == ins.len()
        &&& seq_renumbered(ins.subrange(0, ins.len() - 1), outs.subrange(0, outs.len() - 1), ext)
        &&& renumbered(ins[ins.len() - 1], outs[outs.len() - 1], ext)
    }
}

/// Whether the index vectors of `ext` ascend, so each local has one position.
pub open spec fn ext_ascending(ext: Extraction) -> bool {
    locals_ascending(ext.arg_locals@) && locals_ascending(ext.inner_locals@)
}

/// `a + b + q`, truncated to 32 bits as an index cast is.
fn index_u32(a: usize, b: usize, q: usize) -> (r: u32)
    ensures
        r == (a + b + q) as u32,
{
    let t = (a as u64).wrapping_add(b as u64).wrapping_add(q as u64);
    proof {
        let x = a as u64;
        let y = b as u64;
        let z = q as u64;
        let s1 = x.wrapping_add(y);
        assert(s1 as u32 == (x + y) as u32) by (bit_vector)
            requires
                s1 == (if x + y > u64::MAX {
                    (x + y - 0x1_0000_0000_0000_0000) as u64
                } else {
                    (x + y) as u64
                }),
        ;
        let s2 = s1.wrapping_add(z);
        assert(s2 as u32 == (s1 + z) as u32) by (bit_vector)
            requires
                s2 == (if s1 + z > u64::MAX {
                    (s1 + z - 0x1_0000_0000_0000_0000) as u64
                } else {
                    (s1 + z) as u64
                }),
        ;
        assert((s1 + z) as u32 == (x + y + z) as u32) by (bit_vector)
            requires
                s1 as u32 == (x + y) as u32,
        ;
    }
    t as u32
}

fn find_local(v: &Vec<u32>, i: u32) -> (r: Option<usize>)
    requires
        locals_ascending(v@),
    ensures
        r is None <==> !v@.contains(i),
        r matches Some(q) ==> q < v@.len() && q as int == (choose|q: int| 0 <= q < v@.len() && v@[q] == i),
{
    let mut q: usize = 0;
    while q < v.len()
        invariant
            q <= v@.len(),
            locals_ascending(v@),
            forall|t: int| 0 <= t < q ==> v@[t] != i,
        decreases v@.len() - q,
    {
        if v[q] == i {
            proof {
                let c = choose|c: int| 0 <= c < v@.len() && v@[c] == i;
                if c < q {
                } else if c > q {
                    assert(0 <= q < c < v@.len());
                    assert(v@[q as int] < v@[c]);
                }
            }
            return Some(q);
        }
        q = q + 1;
    }
    None
}

fn renum_local_exec(ext: &Extraction, i: u32) -> (r: u32)
    requires
        ext_ascending(*ext),
    ensures
        r == renum_local(*ext, i),
{
    match find_local(&ext.arg_locals, i) {
        Some(q) => q as u32,
        None => match find_local(&ext.inner_locals, i) {
            Some(q) => index_u32(ext.arg_locals.len(), ext.arg_temps.len(), q),
            None => i,
        },
    }
}

fn renum_expr_exec(e: Expr, ext: &Extraction) -> (r: Expr)
    requires
        ext_ascending(*ext),
    ensures
        r == renum_expr(e, *ext),
    decreases e,
{
    match e {
        Expr::LocalGet(i) => Expr::LocalGet(renum_local_exec(ext, i)),
        Expr::Un(op, a) => Expr::Un(op, Box::new(renum_expr_exec(*a, ext))),
        Expr::Bin(op, a, b) => {
            let a2 = renum_expr_exec(*a, ext);
            let b2 = renum_expr_exec(*b, ext);
            Expr::Bin(op, Box::new(a2), Box::new(b2))
        },
        Expr::Load { op, addr, offset } => Expr::Load { op, addr: Box::new(renum_expr_exec(*addr, ext)), offset },
        Expr::Select { cond, then, els } => {
            let c2 = renum_expr_exec(*cond, ext);
            let t2 = renum_expr_exec(*then, ext);
            let e2 = renum_expr_exec(*els, ext);
            Expr::Select { cond: Box::new(c2), then: Box::new(t2), els: Box::new(e2) }
        },
        other => other,
    }
}

fn renum_exprs_exec(v: Vec<Expr>, ext: &Extraction) -> (r: Vec<Expr>)
    requires
        ext_ascending(*ext),
    ensures
        exprs_renumbered(v@, r@, *ext),
{
    let ghost orig = v@;
    let ghost n = orig.len() as int;
    let mut src = v;
    let mut rev: Vec<Expr> = Vec::new();
    while src.len() > 0
        invariant
            orig.len() == n,
            src@.len() + rev@.len() == n,
            src@ == orig.subrange(0, src@.len() as int),
            forall|k: int| 0 <= k < rev@.len() ==> rev@[k] == orig[n - 1 - k],
        decreases src@.len(),
    {
        match src.pop() {
            Some(x) => rev.push(x),
            None => {},
        }
    }
    let mut out: Vec<Expr> = Vec::new();
    while rev.len() > 0
        invariant
            orig.len() == n,
            ext_ascending(*ext),
            rev@.len() <= n,
            forall|k: int| 0 <= k < rev@.len() ==> rev@[k] == orig[n - 1 - k],
            out@.len() == n - rev@.len(),
            forall|i: int| 0 <= i < out@.len() ==> out@[i] == renum_expr(orig[i], *ext),
        decreases rev@.len(),
    {
        let e = match rev.pop() {
            Some(x) => x,
            None => Expr::MemorySize,
        };
        out.push(renum_expr_exec(e, ext));
    }
    out
}

fn renum_target_exec(t: BrTarget, ext: &Extraction) -> (r: BrTarget)
    requires
        ext_ascending(*ext),
    ensures
        target_renumbered(t, r, *ext),
{
    match t {
        BrTarget::Return { values } => BrTarget::Return { values: renum_exprs_exec(values, ext) },
        other => other,
    }
}

fn renum_targets_exec(v: Vec<BrTarget>, ext: &Extraction) -> (r: Vec<BrTarget>)
    requires
        ext_ascending(*ext),
    ensures
        targets_renumbered(v@, r@, *ext),
{
    let ghost orig = v@;
    let ghost n = orig.len() as int;
    let mut src = v;
    let mut rev: Vec<BrTarget> = Vec::new();
    while src.len() > 0
        invariant
            orig.len() == n,
            src@.len() + rev@.len() == n,
            src@ == orig.subrange(0, src@.len() as int),
            forall|k: int| 0 <= k < rev@.len() ==> rev@[k] == orig[n - 1 - k],
        decreases src@.len(),
    {
        match src.pop() {
            Some(x) => rev.push(x),
            None => {},
        }
    }
    let mut out: Vec<BrTarget> = Vec::new();
    while rev.len() > 0
        invariant
            orig.len() == n,
            ext_ascending(*ext),
            rev@.len() <= n,
            forall|k: int| 0 <= k < rev@.len() ==> rev@[k] == orig[n - 1 - k],
            out@.len() == n - rev@.len(),
            forall|i: int| 0 <= i < out@.len() ==> target_renumbered(orig[i], out@[i], *ext),
        decreases rev@.len(),
    {
        let t = match rev.pop() {
            Some(x) => x,
            None => BrTarget::Return { values: Vec::new() },
        };
        out.push(renum_target_exec(t, ext));
    }
    out
}

fn renum_stmt_exec(s: Stmt, ext: &Extraction) -> (r: Stmt)
    requires
        ext_ascending(*ext),
    ensures
        renumbered(s, r, *ext),
    decreases s,
{
    match s {
        Stmt::Assign { dst, expr } => Stmt::Assign { dst, expr: renum_expr_exec(expr, ext) },
        Stmt::LocalSet { idx, expr } => {
            let i2 = renum_local_exec(ext, idx);
            Stmt::LocalSet { idx: i2, expr: renum_expr_exec(expr, ext) }
        },
        Stmt::GlobalSet { idx, expr } => Stmt::GlobalSet { idx, expr: renum_expr_exec(expr, ext) },
        Stmt::Store { op, addr, value, offset } => {
            let a2 = renum_expr_exec(addr, ext);
            let v2 = renum_expr_exec(value, ext);
            Stmt::Store { op, addr: a2, value: v2, offset }
        },
        Stmt::Block { label, body } => Stmt::Block { label, body: renum_seq_exec(body, ext) },
        Stmt::Loop { label, body } => Stmt::Loop { label, body: renum_seq_exec(body, ext) },
        Stmt::If { label, cond, then, els } => {
            let c2 = renum_expr_exec(cond, ext);
            let t2 = renum_seq_exec(then, ext);
            let e2 = renum_seq_exec(els, ext);
            Stmt::If { label, cond: c2, then: t2, els: e2 }
        },
        Stmt::Br(t) => Stmt::Br(renum_target_exec(t, ext)),
        Stmt::BrIf { cond, target } => {
            let c2 = renum_expr_exec(cond, ext);
            Stmt::BrIf { cond: c2, target: renum_target_exec(target, ext) }
        },
        Stmt::BrTable { index, targets, default } => {
            let i2 = renum_expr_exec(index, ext);
            let ts2 = renum_targets_exec(targets, ext);
            let d2 = renum_target_exec(default, ext);
            Stmt::BrTable { index: i2, targets: ts2, default: d2 }
        },
        Stmt::Return { values } => Stmt::Return { values: renum_exprs_exec(values, ext) },
        Stmt::Call { func, args, results } => Stmt::Call { func, args: renum_exprs_exec(args, ext), results },
        Stmt::CallIndirect { type_idx, table_index, index, args, results } => {
            let i2 = renum_expr_exec(index, ext);
            let a2 = renum_exprs_exec(args, ext);
            Stmt::CallIndirect { type_idx, table_index, index: i2, args: a2, results }
        },
        Stmt::MemoryGrow { dst, delta } => Stmt::MemoryGrow { dst, delta: renum_expr_exec(delta, ext) },
        Stmt::MemoryCopy { dst, src, len } => {
            let d2 = renum_expr_exec(dst, ext);
            let s2 = renum_expr_exec(src, ext);
            let l2 = renum_expr_exec(len, ext);
            Stmt::MemoryCopy { dst: d2, src: s2, len: l2 }
        },
        Stmt::MemoryFill { dst, val, len } => {
            let d2 = renum_expr_exec(dst, ext);
            let v2 = renum_expr_exec(val, ext);
            let l2 = renum_expr_exec(len, ext);
            Stmt::MemoryFill { dst: d2, val: v2, len: l2 }
        },
        Stmt::MemoryInit { seg, dst, src, len } => {
            let d2 = renum_expr_exec(dst, ext);
            let s2 = renum_expr_exec(src, ext);
            let l2 = renum_expr_exec(len, ext);
            Stmt::MemoryInit { seg, dst: d2, src: s2, len: l2 }
        },
        Stmt::TableInit { seg, table_index, dst, src, len } => {
            let d2 = renum_expr_exec(dst, ext);
            let s2 = renum_expr_exec(src, ext);
            let l2 = renum_expr_exec(len, ext);
            Stmt::TableInit { seg, table_index, dst: d2, src: s2, len: l2 }
        },
        Stmt::TableCopy { dst_table, src_table, dst, src, len } => {
            let d2 = renum_expr_exec(dst, ext);
            let s2 = renum_expr_exec(src, ext);
            let l2 = renum_expr_exec(len, ext);
            Stmt::TableCopy { dst_table, src_table, dst: d2, src: s2, len: l2 }
        },
        Stmt::Throw { tag, args } => Stmt::Throw { tag, args: renum_exprs_exec(args, ext) },
        Stmt::ThrowRef { exn } => Stmt::ThrowRef { exn: renum_expr_exec(exn, ext) },
        Stmt::TryTable { label, catches, body } => Stmt::TryTable { label, catches, body: renum_seq_exec(body, ext) },
        other => other,
    }
}

fn renum_seq_exec(stmts: Vec<Stmt>, ext: &Extraction) -> (r: Vec<Stmt>)
    requires
        ext_ascending(*ext),
    ensures
        seq_renumbered(stmts@, r@, *ext),
    decreases stmts@,
{
    let ghost orig = stmts@;
    let ghost n = orig.len() as int;
    let mut src = stmts;
    let mut rev: Vec<Stmt> = Vec::new();
    while src.len() > 0
        invariant
            orig.len() == n,
            src@.len() + rev@.len() == n,
            src@ == orig.subrange(0, src@.len() as int),
            forall|k: int| 0 <= k < rev@.len() ==> rev@[k] == orig[n - 1 - k],
        decreases src@.len(),
    {
        match src.pop() {
            Some(x) => rev.push(x),
            None => {},
        }
    }
    let mut out: Vec<Stmt> = Vec::new();
    assert(orig.subrange(0, 0).len() == 0);
    while rev.len() > 0
        invariant
            orig.len() == n,
            orig == stmts@,
            ext_ascending(*ext),
            rev@.len() <= n,
            forall|k: int| 0 <= k < rev@.len() ==> rev@[k] == orig[n - 1 - k],
            out@.len() == n - rev@.len(),
            seq_renumbered(orig.subrange(0, n - rev@.len()), out@, *ext),
        decreases rev@.len(),
    {
        let ghost j = n - rev@.len();
        let s = match rev.pop() {
            Some(x) => x,
            None => Stmt::Unreachable,
        };
        assert(s == orig[j]);
        proof {
            assert(decreases_to!(orig => orig[j]));
        }
        let ghost before = out@;
        out.push(renum_stmt_exec(s, ext));
        proof {
            let t = orig.subrange(0, j + 1);
            assert(t.subrange(0, t.len() - 1) =~= orig.subrange(0, j));
            assert(out@.subrange(0, out@.len() - 1) =~= before);
        }
    }
    assert(orig.subrange(0, n) =~= orig);
    out
}

// ---------------------------------------------------------------------------------------------
// Moving the span out.

/// The type of local `i` among the function's locals (parameters first); `i32` for an index
/// past them, which a valid function never uses.
pub open spec fn local_ty(tys: Seq<ValType>, i: u32) -> ValType {
    if i < tys.len() {
        tys[i as int]
    } else {
        ValType::I32
    }
}

/// The extracted function's parameter types: the local arguments', then the temp arguments'.
pub open spec fn param_tys(ext: Extraction, tys: Seq<ValType>) -> Seq<ValType> {
    ext.arg_locals@.map_values(|i: u32| local_ty(tys, i)) + ext.arg_temps@.map_values(|t: Temp| t.ty)
}

/// The extracted function's result types: the live-out's, if any.
pub open spec fn result_tys(ext: Extraction, tys: Seq<ValType>) -> Seq<ValType> {
    match ext.live_out {
        Some(Var::Local(i)) => seq![local_ty(tys, i)],
        Some(Var::Temp(t)) => seq![t.ty],
        None => seq![],
    }
}

/// Whether `t` is the signature `params -> results`.
pub open spec fn type_is(t: FuncType, params: Seq<ValType>, results: Seq<ValType>) -> bool {
    t.params@ == params && t.results@ == results
}

/// Where the signature `params -> results` sits in `types`: its first position, or the end.
pub open spec fn type_index(types: Seq<FuncType>, params: Seq<ValType>, results: Seq<ValType>) -> int {
    if exists|p: int| 0 <= p < types.len() && type_is(#[trigger] types[p], params, results) {
        choose|p: int|
            0 <= p < types.len() && type_is(types[p], params, results) && forall|q: int| 0 <= q < p ==> !type_is(
                #[trigger] types[q],
                params,
                results,
            )
    } else {
        types.len() as int
    }
}

proof fn lemma_first_type(types: Seq<FuncType>, params: Seq<ValType>, results: Seq<ValType>, p: int)
    requires
        0 <= p < types.len(),
        type_is(types[p], params, results),
    ensures
        exists|m: int|
            0 <= m < types.len() && type_is(types[m], params, results) && forall|q: int| 0 <= q < m ==> !type_is(
                #[trigger] types[q],
                params,
                results,
            ),
    decreases p,
{
    if exists|q: int| 0 <= q < p && type_is(#[trigger] types[q], params, results) {
        let q = choose|q: int| 0 <= q < p && type_is(#[trigger] types[q], params, results);
        lemma_first_type(types, params, results, q);
    }
}

/// Where a signature sits in `types` is a position in it, or its end.
proof fn lemma_type_index_bound(types: Seq<FuncType>, params: Seq<ValType>, results: Seq<ValType>)
    ensures
        0 <= type_index(types, params, results) <= types.len(),
{
    if exists|p: int| 0 <= p < types.len() && type_is(#[trigger] types[p], params, results) {
        let p = choose|p: int| 0 <= p < types.len() && type_is(#[trigger] types[p], params, results);
        lemma_first_type(types, params, results, p);
    }
}

/// The deepest temp of `ts`; 0 for none.
pub open spec fn max_depth(ts: Seq<Temp>) -> u32
    decreases ts.len(),
{
    if ts.len() == 0 {
        0
    } else {
        let m = max_depth(ts.drop_last());
        if ts.last().depth > m {
            ts.last().depth
        } else {
            m
        }
    }
}

/// The fresh temp a call's result lands in when the live-out is a local: one deeper than every
/// temp of the function, wrapping at 32 bits.
pub open spec fn result_temp(temps: Seq<Temp>, ty: ValType) -> Temp {
    Temp { depth: (if max_depth(temps) == u32::MAX { 0 } else { max_depth(temps) + 1 }) as u32, ty }
}

/// The index of the `n`-th extracted function, wrapping at 32 bits.
pub open spec fn synth_index(base: u32, n: nat) -> u32 {
    ((base as int + (n as u32) as int) % 0x1_0000_0000) as u32
}

/// Whether `args` passes the extraction's arguments: its local arguments, then its temps.
pub open spec fn args_of(args: Seq<Expr>, ext: Extraction) -> bool {
    let a = ext.arg_locals@;
    let t = ext.arg_temps@;
    &&& args.len() == a.len() + t.len()
    &&& forall|i: int| 0 <= i < a.len() ==> args[i] == Expr::LocalGet(#[trigger] a[i])
    &&& forall|i: int| 0 <= i < t.len() ==> args[a.len() + i] == Expr::Temp(#[trigger] t[i])
}

/// Whether `rep` is what replaces the span in the caller: a call of function `fidx`, and for a
/// local live-out a move of the call's result temp into the local.
#[verifier::opaque]
pub open spec fn replacement_of(rep: Seq<Stmt>, ext: Extraction, fidx: u32, temps: Seq<Temp>, tys: Seq<ValType>) -> bool {
    match ext.live_out {
        Some(Var::Local(i)) => {
            let res = result_temp(temps, local_ty(tys, i));
            &&& rep.len() == 2
            &&& match rep[0] {
                Stmt::Call { func, args, results } => func == fidx && args_of(args@, ext) && results@ == seq![res],
                _ => false,
            }
            &&& rep[1] == Stmt::LocalSet { idx: i, expr: Expr::Temp(res) }
        },
        Some(Var::Temp(t)) => rep.len() == 1 && match rep[0] {
            Stmt::Call { func, args, results } => func == fidx && args_of(args@, ext) && results@ == seq![t],
            _ => false,
        },
        None => rep.len() == 1 && match rep[0] {
            Stmt::Call { func, args, results } => func == fidx && args_of(args@, ext) && results@.len() == 0,
            _ => false,
        },
    }
}

/// Whether `sb` is the extracted function's body for `region`: a copy of each incoming temp
/// argument into its temp, the region renumbered, and a return of the live-out, if any.
#[verifier::opaque]
pub open spec fn synth_body(sb: Seq<Stmt>, region: Seq<Stmt>, ext: Extraction) -> bool {
    let na = ext.arg_temps@.len() as int;
    let nr = region.len() as int;
    &&& sb.len() == na + nr + (if ext.live_out is Some { 1int } else { 0int })
    &&& forall|i: int| 0 <= i < na ==> sb[i] == Stmt::Assign {
        dst: #[trigger] ext.arg_temps@[i],
        expr: Expr::LocalGet((ext.arg_locals@.len() + i) as u32),
    }
    &&& seq_renumbered(region, sb.subrange(na, na + nr), ext)
    &&& match ext.live_out {
        Some(Var::Local(l)) => match sb[na + nr] {
            Stmt::Return { values } => values@ == seq![Expr::LocalGet(renum_local(ext, l))],
            _ => false,
        },
        Some(Var::Temp(t)) => match sb[na + nr] {
            Stmt::Return { values } => values@ == seq![Expr::Temp(t)],
            _ => false,
        },
        None => true,
    }
}

/// How many statements replace the span: the call, and for a local live-out the move after it.
pub open spec fn replaced_len(ext: Extraction) -> int {
    if ext.live_out matches Some(Var::Local(_)) {
        2
    } else {
        1
    }
}

/// The function's temps after a span moves out: a local live-out adds the call's result temp,
/// and the temps are then kept ascending, each once.
pub open spec fn temps_after(ext: Extraction, before: Seq<Temp>, after: Seq<Temp>, tys: Seq<ValType>) -> bool {
    match ext.live_out {
        Some(Var::Local(i)) => temps_ascending(after) && after.to_set() == before.to_set().insert(
            result_temp(before, local_ty(tys, i)),
        ),
        _ => after == before,
    }
}

/// Whether `s` holds nested statements.
pub open spec fn compound(s: Stmt) -> bool {
    s is Block || s is Loop || s is If || s is TryTable
}

/// Whether every compound statement of the rewritten body `r` is one of `body`'s.
pub open spec fn keeps_compounds(body: Seq<Stmt>, r: Seq<Stmt>) -> bool {
    forall|i: int| 0 <= i < r.len() ==> !compound(#[trigger] r[i]) || body.contains(r[i])
}

/// Outlining a function: its context, and what outlining has added so far.
pub struct Cx {
    pub params: Params,
    /// The liveness boundary records of the function's loops.
    pub records: Vec<(u32, Vec<VarSet>)>,
    /// The types of the function's locals, parameters first.
    pub local_tys: Vec<ValType>,
    /// The function's temps.
    pub temps: Vec<Temp>,
    /// The module's types, extended with each new signature.
    pub types: Vec<FuncType>,
    /// The extracted functions so far.
    pub synths: Vec<Func>,
    /// The function index of the first extracted function.
    pub base_idx: u32,
}

fn local_ty_exec(tys: &Vec<ValType>, i: u32) -> (r: ValType)
    ensures
        r == local_ty(tys@, i),
{
    if (i as usize) < tys.len() {
        tys[i as usize]
    } else {
        ValType::I32
    }
}

fn same_tys(a: &Vec<ValType>, b: &Vec<ValType>) -> (r: bool)
    ensures
        r == (a@ == b@),
{
    if a.len() != b.len() {
        return false;
    }
    let mut i: usize = 0;
    while i < a.len()
        invariant
            i <= a@.len(),
            a@.len() == b@.len(),
            forall|t: int| 0 <= t < i ==> a@[t] == b@[t],
        decreases a@.len() - i,
    {
        if a[i] != b[i] {
            return false;
        }
        i = i + 1;
    }
    assert(a@ =~= b@);
    true
}

fn find_type(types: &Vec<FuncType>, params: &Vec<ValType>, results: &Vec<ValType>) -> (r: Option<usize>)
    ensures
        r is None ==> type_index(types@, params@, results@) == types@.len(),
        r matches Some(p) ==> p < types@.len() && p == type_index(types@, params@, results@),
{
    let mut p: usize = 0;
    while p < types.len()
        invariant
            p <= types@.len(),
            forall|q: int| 0 <= q < p ==> !type_is(#[trigger] types@[q], params@, results@),
        decreases types@.len() - p,
    {
        if same_tys(&types[p].params, params) && same_tys(&types[p].results, results) {
            proof {
                assert(type_is(types@[p as int], params@, results@));
                let c = choose|c: int|
                    0 <= c < types@.len() && type_is(types@[c], params@, results@) && forall|q: int| 0 <= q < c ==> !type_is(
                        #[trigger] types@[q],
                        params@,
                        results@,
                    );
                if c < p {
                } else if c > p {
                    assert(!type_is(types@[p as int], params@, results@));
                }
            }
            return Some(p);
        }
        p = p + 1;
    }
    None
}

pub(crate) fn max_depth_exec(ts: &Vec<Temp>) -> (r: u32)
    ensures
        r == max_depth(ts@),
{
    let mut m: u32 = 0;
    let mut i: usize = 0;
    assert(ts@.subrange(0, 0) =~= Seq::<Temp>::empty());
    while i < ts.len()
        invariant
            i <= ts@.len(),
            m == max_depth(ts@.subrange(0, i as int)),
        decreases ts@.len() - i,
    {
        proof {
            let t = ts@.subrange(0, i + 1);
            assert(t.drop_last() =~= ts@.subrange(0, i as int));
        }
        if ts[i].depth > m {
            m = ts[i].depth;
        }
        i = i + 1;
    }
    assert(ts@.subrange(0, ts@.len() as int) =~= ts@);
    m
}

/// `v`'s temps, ascending and each once.
pub(crate) fn sort_temps(v: &Vec<Temp>) -> (r: Vec<Temp>)
    ensures
        temps_ascending(r@),
        r@.to_set() == v@.to_set(),
{
    let mut out: Vec<Temp> = Vec::new();
    let mut i: usize = 0;
    assert(v@.subrange(0, 0).to_set() =~= out@.to_set());
    while i < v.len()
        invariant
            i <= v@.len(),
            temps_ascending(out@),
            out@.to_set() == v@.subrange(0, i as int).to_set(),
        decreases v@.len() - i,
    {
        let t = v[i];
        let kt = var_key_exec(Var::Temp(t));
        let mut p: usize = 0;
        while p < out.len() && var_key_exec(Var::Temp(out[p])) < kt
            invariant
                p <= out@.len(),
                forall|q: int| 0 <= q < p ==> temp_key(#[trigger] out@[q]) < kt,
            decreases out@.len() - p,
        {
            p = p + 1;
        }
        proof {
            let a = v@.subrange(0, i + 1);
            let b = v@.subrange(0, i as int);
            assert forall|y: Temp| a.contains(y) <==> (b.contains(y) || y == t) by {
                if a.contains(y) {
                    let k = choose|k: int| 0 <= k < a.len() && a[k] == y;
                    if k < i {
                        assert(b[k] == y);
                    }
                }
                if b.contains(y) {
                    let k = choose|k: int| 0 <= k < b.len() && b[k] == y;
                    assert(a[k] == y);
                }
                if y == t {
                    assert(a[i as int] == y);
                }
            }
            assert(a.to_set() =~= b.to_set().insert(t));
        }
        if p < out.len() && var_key_exec(Var::Temp(out[p])) == kt {
            proof {
                lemma_var_key_injective(Var::Temp(out@[p as int]), Var::Temp(t));
                assert(out@.to_set().contains(t));
                assert(out@.to_set() =~= v@.subrange(0, i + 1).to_set());
            }
        } else {
            let ghost before = out@;
            out.insert(p, t);
            proof {
                assert forall|a: int, b: int| 0 <= a < b < out@.len() implies temp_key(out@[a]) < temp_key(out@[b]) by {
                    if b < p {
                    } else if b == p {
                    } else if a < p {
                        assert(out@[b] == before[b - 1]);
                        if p < before.len() {
                            assert(temp_key(before[p as int]) > kt);
                            if b - 1 > p {
                                assert(temp_key(before[p as int]) < temp_key(before[b - 1]));
                            }
                        }
                    } else if a == p {
                        assert(out@[b] == before[b - 1]);
                        assert(temp_key(before[p as int]) > kt);
                        if b - 1 > p {
                            assert(temp_key(before[p as int]) < temp_key(before[b - 1]));
                        }
                    } else {
                        assert(out@[a] == before[a - 1]);
                        assert(out@[b] == before[b - 1]);
                    }
                }
                assert forall|x: Temp| out@.to_set().contains(x) <==> before.to_set().insert(t).contains(x) by {
                    if out@.contains(x) {
                        let q = choose|q: int| 0 <= q < out@.len() && out@[q] == x;
                        if q < p {
                            assert(before[q] == x);
                        } else if q > p {
                            assert(before[q - 1] == x);
                        }
                    }
                    if before.contains(x) {
                        let q = choose|q: int| 0 <= q < before.len() && before[q] == x;
                        if q < p {
                            assert(out@[q] == x);
                        } else {
                            assert(out@[q + 1] == x);
                        }
                    }
                    if x == t {
                        assert(out@[p as int] == x);
                    }
                }
                assert(out@.to_set() =~= v@.subrange(0, i + 1).to_set());
            }
        }
        i = i + 1;
    }
    assert(v@.subrange(0, v@.len() as int) =~= v@);
    out
}

/// The extracted function's body for `region`.
fn synth_body_exec(region: Vec<Stmt>, ext: &Extraction) -> (sb: Vec<Stmt>)
    requires
        ext_ascending(*ext),
    ensures
        synth_body(sb@, region@, *ext),
{
    let ghost reg = region@;
    let mut sbody: Vec<Stmt> = Vec::new();
    let mut i: usize = 0;
    while i < ext.arg_temps.len()
        invariant
            i <= ext.arg_temps@.len(),
            sbody@.len() == i,
            forall|t: int| 0 <= t < i ==> sbody@[t] == (Stmt::Assign {
                dst: #[trigger] ext.arg_temps@[t],
                expr: Expr::LocalGet((ext.arg_locals@.len() + t) as u32),
            }),
        decreases ext.arg_temps@.len() - i,
    {
        let idx = index_u32(ext.arg_locals.len(), i, 0);
        sbody.push(Stmt::Assign { dst: ext.arg_temps[i], expr: Expr::LocalGet(idx) });
        i = i + 1;
    }
    let mut renumbered = renum_seq_exec(region, ext);
    let ghost na = sbody@.len();
    let ghost ren = renumbered@;
    let ghost pre = sbody@;
    sbody.append(&mut renumbered);
    match ext.live_out {
        Some(Var::Local(l)) => {
            let nl = renum_local_exec(ext, l);
            let mut vals: Vec<Expr> = Vec::new();
            vals.push(Expr::LocalGet(nl));
            sbody.push(Stmt::Return { values: vals });
        },
        Some(Var::Temp(t)) => {
            let mut vals: Vec<Expr> = Vec::new();
            vals.push(Expr::Temp(t));
            sbody.push(Stmt::Return { values: vals });
        },
        None => {},
    }
    proof {
        assert(sbody@.subrange(na as int, (na + reg.len()) as int) =~= ren);
        assert forall|t: int| 0 <= t < na implies sbody@[t] == pre[t] by {}
        reveal(synth_body);
    }
    sbody
}

/// The extracted function's parameter and result types.
fn signature(ext: &Extraction, tys: &Vec<ValType>) -> (r: (Vec<ValType>, Vec<ValType>))
    ensures
        r.0@ == param_tys(*ext, tys@),
        r.1@ == result_tys(*ext, tys@),
{
    let mut ptys: Vec<ValType> = Vec::new();
    let mut q: usize = 0;
    while q < ext.arg_locals.len()
        invariant
            q <= ext.arg_locals@.len(),
            ptys@ =~= ext.arg_locals@.subrange(0, q as int).map_values(|i: u32| local_ty(tys@, i)),
        decreases ext.arg_locals@.len() - q,
    {
        ptys.push(local_ty_exec(tys, ext.arg_locals[q]));
        q = q + 1;
    }
    let ghost pl = ptys@;
    let mut q: usize = 0;
    while q < ext.arg_temps.len()
        invariant
            q <= ext.arg_temps@.len(),
            ptys@ =~= pl + ext.arg_temps@.subrange(0, q as int).map_values(|t: Temp| t.ty),
        decreases ext.arg_temps@.len() - q,
    {
        ptys.push(ext.arg_temps[q].ty);
        q = q + 1;
    }
    let mut rtys: Vec<ValType> = Vec::new();
    match ext.live_out {
        Some(Var::Local(l)) => rtys.push(local_ty_exec(tys, l)),
        Some(Var::Temp(t)) => rtys.push(t.ty),
        None => {},
    }
    proof {
        assert(ext.arg_locals@.subrange(0, ext.arg_locals@.len() as int) =~= ext.arg_locals@);
        assert(ext.arg_temps@.subrange(0, ext.arg_temps@.len() as int) =~= ext.arg_temps@);
        assert(rtys@ =~= result_tys(*ext, tys@));
    }
    (ptys, rtys)
}

/// The index of the signature in `types`, added at the end when new.
fn intern_type(types: &mut Vec<FuncType>, ptys: Vec<ValType>, rtys: Vec<ValType>) -> (r: u32)
    ensures
        r == type_index(old(types)@, ptys@, rtys@) as u32,
        final(types)@.subrange(0, old(types)@.len() as int) == old(types)@,
        type_index(old(types)@, ptys@, rtys@) < old(types)@.len() ==> final(types)@.len() == old(types)@.len(),
        type_index(old(types)@, ptys@, rtys@) == old(types)@.len() ==> final(types)@.len() == old(types)@.len() + 1
            && type_is(final(types)@[old(types)@.len() as int], ptys@, rtys@),
{
    match find_type(types, &ptys, &rtys) {
        Some(p) => {
            assert(types@.subrange(0, types@.len() as int) =~= types@);
            p as u32
        },
        None => {
            let ghost before = types@;
            let n = types.len();
            types.push(FuncType { params: ptys, results: rtys });
            assert(types@.subrange(0, before.len() as int) =~= before);
            n as u32
        },
    }
}

/// The arguments of the call: the local arguments, then the temps.
fn call_args(ext: &Extraction) -> (args: Vec<Expr>)
    ensures
        args_of(args@, *ext),
{
    let mut args: Vec<Expr> = Vec::new();
    let mut q: usize = 0;
    while q < ext.arg_locals.len()
        invariant
            q <= ext.arg_locals@.len(),
            args@.len() == q,
            forall|t: int| 0 <= t < q ==> args@[t] == Expr::LocalGet(#[trigger] ext.arg_locals@[t]),
        decreases ext.arg_locals@.len() - q,
    {
        args.push(Expr::LocalGet(ext.arg_locals[q]));
        q = q + 1;
    }
    let mut q: usize = 0;
    while q < ext.arg_temps.len()
        invariant
            q <= ext.arg_temps@.len(),
            args@.len() == ext.arg_locals@.len() + q,
            forall|t: int| 0 <= t < ext.arg_locals@.len() ==> args@[t] == Expr::LocalGet(#[trigger] ext.arg_locals@[t]),
            forall|t: int| 0 <= t < q ==> args@[ext.arg_locals@.len() + t] == Expr::Temp(#[trigger] ext.arg_temps@[t]),
        decreases ext.arg_temps@.len() - q,
    {
        args.push(Expr::Temp(ext.arg_temps[q]));
        q = q + 1;
    }
    args
}

/// The types of the extracted function's own locals.
fn inner_local_tys(ext: &Extraction, tys: &Vec<ValType>) -> (r: Vec<ValType>)
    ensures
        r@ == ext.inner_locals@.map_values(|i: u32| local_ty(tys@, i)),
{
    let mut locals: Vec<ValType> = Vec::new();
    let mut q: usize = 0;
    while q < ext.inner_locals.len()
        invariant
            q <= ext.inner_locals@.len(),
            locals@ =~= ext.inner_locals@.subrange(0, q as int).map_values(|i: u32| local_ty(tys@, i)),
        decreases ext.inner_locals@.len() - q,
    {
        locals.push(local_ty_exec(tys, ext.inner_locals[q]));
        q = q + 1;
    }
    assert(ext.inner_locals@.subrange(0, ext.inner_locals@.len() as int) =~= ext.inner_locals@);
    locals
}

fn copy_temps(v: &Vec<Temp>) -> (r: Vec<Temp>)
    ensures
        r@ == v@,
{
    let mut out: Vec<Temp> = Vec::new();
    let mut q: usize = 0;
    while q < v.len()
        invariant
            q <= v@.len(),
            out@ =~= v@.subrange(0, q as int),
        decreases v@.len() - q,
    {
        out.push(v[q]);
        q = q + 1;
    }
    assert(v@.subrange(0, v@.len() as int) =~= v@);
    out
}

impl Cx {
    /// What replaces the span in the caller: the call of function `fidx`, and for a local
    /// live-out the move of its result, which takes a fresh temp.
    fn replacement(&mut self, ext: &Extraction, fidx: u32) -> (rep: Vec<Stmt>)
        ensures
            final(self).params == old(self).params,
            final(self).records == old(self).records,
            final(self).local_tys == old(self).local_tys,
            final(self).base_idx == old(self).base_idx,
            final(self).types == old(self).types,
            final(self).synths == old(self).synths,
            rep@.len() == replaced_len(*ext),
            forall|i: int| 0 <= i < rep@.len() ==> !compound(#[trigger] rep@[i]),
            replacement_of(rep@, *ext, fidx, old(self).temps@, old(self).local_tys@),
            temps_after(*ext, old(self).temps@, final(self).temps@, old(self).local_tys@),
    {
        let args = call_args(ext);
        let mut rep: Vec<Stmt> = Vec::new();
        match ext.live_out {
            None => {
                rep.push(Stmt::Call { func: fidx, args, results: Vec::new() });
            },
            Some(Var::Temp(t)) => {
                let mut results: Vec<Temp> = Vec::new();
                results.push(t);
                rep.push(Stmt::Call { func: fidx, args, results });
            },
            Some(Var::Local(l)) => {
                let depth = max_depth_exec(&self.temps).wrapping_add(1);
                let res = Temp { depth, ty: local_ty_exec(&self.local_tys, l) };
                assert(res == result_temp(self.temps@, local_ty(self.local_tys@, l)));
                let ghost before = self.temps@;
                self.temps.push(res);
                assert(self.temps@.to_set() =~= before.to_set().insert(res)) by {
                    assert forall|x: Temp| self.temps@.to_set().contains(x) <==> before.to_set().insert(res).contains(x) by {
                        if self.temps@.contains(x) {
                            let q = choose|q: int| 0 <= q < self.temps@.len() && self.temps@[q] == x;
                            if q < before.len() {
                                assert(before[q] == x);
                            }
                        }
                        if before.contains(x) {
                            let q = choose|q: int| 0 <= q < before.len() && before[q] == x;
                            assert(self.temps@[q] == x);
                        }
                        if x == res {
                            assert(self.temps@[before.len() as int] == x);
                        }
                    }
                }
                self.temps = sort_temps(&self.temps);
                let mut results: Vec<Temp> = Vec::new();
                results.push(res);
                rep.push(Stmt::Call { func: fidx, args, results });
                rep.push(Stmt::LocalSet { idx: l, expr: Expr::Temp(res) });
            },
        }
        proof {
            reveal(replacement_of);
        }
        rep
    }

    /// Moves `body[j..k]` into a new function per `ext`, and puts a call of it in its place.
    #[verifier::rlimit(50)]
    fn apply(&mut self, body: Vec<Stmt>, j: usize, k: usize, ext: Extraction) -> (r: Vec<Stmt>)
        requires
            j <= k <= body@.len(),
            ext_ascending(ext),
        ensures
            final(self).params == old(self).params,
            final(self).records == old(self).records,
            final(self).local_tys == old(self).local_tys,
            final(self).base_idx == old(self).base_idx,
            applied(*old(self), *final(self), body@, r@, j as int, k as int, ext),
            keeps_compounds(body@, r@),
    {
        let ghost orig = body@;
        let mut body = body;
        let mut tail = body.split_off(k);
        let region = body.split_off(j);
        assert(region@ =~= orig.subrange(j as int, k as int));
        let sbody = synth_body_exec(region, &ext);
        let (ptys, rtys) = signature(&ext, &self.local_tys);
        let type_idx = intern_type(&mut self.types, ptys, rtys);
        let locals = inner_local_tys(&ext, &self.local_tys);
        let temps = copy_temps(&ext.temps);
        let n0 = self.synths.len();
        let fidx = self.base_idx.wrapping_add(n0 as u32);
        let ghost synths0 = self.synths@;
        self.synths.push(Func { type_idx, locals, temps, body: sbody });
        assert(self.synths@.subrange(0, synths0.len() as int) =~= synths0);
        let mut rep = self.replacement(&ext, fidx);
        let ghost repv = rep@;
        body.append(&mut rep);
        body.append(&mut tail);
        proof {
            let m = replaced_len(ext);
            assert(body@.subrange(0, j as int) =~= orig.subrange(0, j as int));
            assert(body@.subrange(j + m, body@.len() as int) =~= orig.subrange(k as int, orig.len() as int));
            assert(body@.subrange(j as int, j + m) =~= repv);
            assert forall|i: int| 0 <= i < body@.len() implies !compound(#[trigger] body@[i]) || orig.contains(body@[i]) by {
                if i < j {
                    assert(body@.subrange(0, j as int)[i] == orig.subrange(0, j as int)[i]);
                    assert(orig[i] == body@[i]);
                } else if i >= j + m {
                    assert(body@.subrange(j + m, body@.len() as int)[i - j - m] == orig.subrange(k as int, orig.len() as int)[i - j - m]);
                    assert(orig[k + i - j - m] == body@[i]);
                } else {
                    assert(body@.subrange(j as int, j + m)[i - j] == body@[i]);
                }
            }
            reveal(applied);
        }
        body
    }
}

// ---------------------------------------------------------------------------------------------
// Walking the functions.

/// Whether `c1` is `c0` after `apply(body, j, k, ext)` returned `r`.
#[verifier::opaque]
pub closed spec fn applied(c0: Cx, c1: Cx, body: Seq<Stmt>, r: Seq<Stmt>, j: int, k: int, ext: Extraction) -> bool {
    let tys = c0.local_tys@;
    let ps = param_tys(ext, tys);
    let rs = result_tys(ext, tys);
    let tidx = type_index(c0.types@, ps, rs);
    let n0 = c0.synths@.len();
    let m = replaced_len(ext);
    &&& 0 <= j <= k <= body.len()
    &&& c1.types@.subrange(0, c0.types@.len() as int) == c0.types@
    &&& (tidx < c0.types@.len() ==> c1.types@.len() == c0.types@.len())
    &&& (tidx == c0.types@.len() ==> c1.types@.len() == c0.types@.len() + 1 && type_is(c1.types@[c0.types@.len() as int], ps, rs))
    &&& c1.synths@.len() == n0 + 1
    &&& c1.synths@.subrange(0, n0 as int) == c0.synths@
    &&& c1.synths@[n0 as int].type_idx == tidx as u32
    &&& c1.synths@[n0 as int].locals@ == ext.inner_locals@.map_values(|i: u32| local_ty(tys, i))
    &&& c1.synths@[n0 as int].temps@ == ext.temps@
    &&& synth_body(c1.synths@[n0 as int].body@, body.subrange(j, k), ext)
    &&& r.len() == body.len() - (k - j) + m
    &&& r.subrange(0, j) == body.subrange(0, j)
    &&& r.subrange(j + m, r.len() as int) == body.subrange(k, body.len() as int)
    &&& replacement_of(r.subrange(j, j + m), ext, synth_index(c0.base_idx, n0), c0.temps@, tys)
    &&& temps_after(ext, c0.temps@, c1.temps@, tys)
}

/// Whether `c1` and `r` are `c0` and the loop body `body` after outlining the loop's first
/// candidate span: the span, the run it lies in and its extraction, applied.
#[verifier::opaque]
pub closed spec fn outlined(c0: Cx, c1: Cx, body: Seq<Stmt>, r: Seq<Stmt>, label: u32, in_try: bool) -> bool {
    let rec = records_of(c0.records@)[label];
    exists|j: int, e: int, k: int, ext: Extraction|
        #![trigger first_candidate(body, rec, c0.params, in_try, (j, e, k)), extraction_of(ext, body.subrange(j, k), rec[k])]
        first_candidate(body, rec, c0.params, in_try, (j, e, k)) && extraction_of(ext, body.subrange(j, k), rec[k]) && applied(
            c0,
            c1,
            body,
            r,
            j,
            k,
            ext,
        )
}

/// Whether the context and the module-wide lists in `c1` extend those of `c0`.
pub closed spec fn grows(c0: Cx, c1: Cx) -> bool {
    &&& c1.params == c0.params
    &&& c1.records == c0.records
    &&& c1.local_tys == c0.local_tys
    &&& c1.base_idx == c0.base_idx
    &&& c1.types@.len() >= c0.types@.len()
    &&& c1.types@.subrange(0, c0.types@.len() as int) == c0.types@
    &&& c1.synths@.len() >= c0.synths@.len()
    &&& c1.synths@.subrange(0, c0.synths@.len() as int) == c0.synths@
}

proof fn lemma_grows_refl(a: Cx)
    ensures
        grows(a, a),
{
    assert(a.types@.subrange(0, a.types@.len() as int) =~= a.types@);
    assert(a.synths@.subrange(0, a.synths@.len() as int) =~= a.synths@);
}

proof fn lemma_grows_trans(a: Cx, b: Cx, c: Cx)
    requires
        grows(a, b),
        grows(b, c),
    ensures
        grows(a, c),
{
    assert(c.types@.subrange(0, a.types@.len() as int) =~= c.types@.subrange(0, b.types@.len() as int).subrange(
        0,
        a.types@.len() as int,
    ));
    assert(c.synths@.subrange(0, a.synths@.len() as int) =~= c.synths@.subrange(0, b.synths@.len() as int).subrange(
        0,
        a.synths@.len() as int,
    ));
}

/// The latest record of loop `label`, if any.
fn find_record(records: &Vec<(u32, Vec<VarSet>)>, label: u32) -> (r: Option<usize>)
    ensures
        r is None <==> !records_of(records@).dom().contains(label),
        r matches Some(i) ==> i < records@.len() && records_of(records@)[label] == sets_of(records@[i as int].1@),
{
    let mut i: usize = records.len();
    assert(records@.subrange(0, i as int) =~= records@);
    while i > 0
        invariant
            i <= records@.len(),
            records_of(records@).dom().contains(label) <==> records_of(records@.subrange(0, i as int)).dom().contains(label),
            records_of(records@).dom().contains(label) ==> records_of(records@)[label] == records_of(
                records@.subrange(0, i as int),
            )[label],
        decreases i,
    {
        let ghost sub = records@.subrange(0, i as int);
        assert(sub.drop_last() =~= records@.subrange(0, i - 1));
        if records[i - 1].0 == label {
            return Some(i - 1);
        }
        i = i - 1;
    }
    None
}

impl Cx {
    /// Whether the loop labelled `label` with body `body` gets a span outlined.
    pub closed spec fn outlines(self, body: Seq<Stmt>, label: u32, in_try: bool) -> bool {
        records_of(self.records@).dom().contains(label) && has_candidate(
            body,
            records_of(self.records@)[label],
            self.params,
            in_try,
        )
    }

    /// Outlines the first candidate span of the loop body, if there is one.
    #[verifier::spinoff_prover]
    fn try_outline_loop(&mut self, body: Vec<Stmt>, label: u32, in_try: bool) -> (r: Vec<Stmt>)
        ensures
            grows(*old(self), *final(self)),
            !old(self).outlines(body@, label, in_try) ==> r@ == body@ && final(self).temps == old(self).temps
                && final(self).types == old(self).types && final(self).synths == old(self).synths,
            old(self).outlines(body@, label, in_try) ==> outlined(*old(self), *final(self), body@, r@, label, in_try),
            keeps_compounds(body@, r@),
    {
        let ghost c0 = *self;
        let ghost b = body@;
        proof {
            lemma_grows_refl(c0);
            assert forall|i: int| 0 <= i < b.len() implies !compound(#[trigger] b[i]) || b.contains(b[i]) by {
                assert(b.contains(b[i]));
            }
        }
        let found = find_record(&self.records, label);
        match found {
            None => body,
            Some(i) => {
                let pick = pick_span(body.as_slice(), &self.records[i].1, &self.params, in_try);
                match pick {
                    None => body,
                    Some((j, e, k, ext)) => {
                        let ghost ext0 = ext;
                        let r = self.apply(body, j, k, ext);
                        proof {
                            assert(grows(c0, *self)) by {
                                reveal(applied);
                                lemma_type_index_bound(
                                    c0.types@,
                                    param_tys(ext0, c0.local_tys@),
                                    result_tys(ext0, c0.local_tys@),
                                );
                            }
                            assert(sets_of(self.records@[i as int].1@) == records_of(c0.records@)[label]);
                            assert(outlined(c0, *self, b, r@, label, in_try)) by {
                                reveal(outlined);
                                assert(first_candidate(b, records_of(c0.records@)[label], c0.params, in_try, (j as int, e as int, k as int))
                                    && extraction_of(ext0, b.subrange(j as int, k as int), records_of(c0.records@)[label][k as int])
                                    && applied(c0, *self, b, r@, j as int, k as int, ext0));
                            }
                        }
                        r
                    },
                }
            },
        }
    }
}


/// How deeply frames nest in `s`: 0 for a statement that holds no body.
pub open spec fn height(s: Stmt) -> nat
    decreases s,
{
    match s {
        Stmt::Block { body, .. } | Stmt::Loop { body, .. } | Stmt::TryTable { body, .. } => 1 + hmax(body@),
        Stmt::If { then, els, .. } => 1 + if hmax(then@) >= hmax(els@) {
            hmax(then@)
        } else {
            hmax(els@)
        },
        _ => 0,
    }
}

/// The largest [`height`] of the statements of `ss`; 0 for none.
pub open spec fn hmax(ss: Seq<Stmt>) -> nat
    decreases ss,
{
    if ss.len() == 0 {
        0
    } else if hmax(ss.drop_last()) >= height(ss.last()) {
        hmax(ss.drop_last())
    } else {
        height(ss.last())
    }
}

pub proof fn lemma_hmax_elem(ss: Seq<Stmt>, i: int)
    requires
        0 <= i < ss.len(),
    ensures
        height(ss[i]) <= hmax(ss),
    decreases ss.len(),
{
    if i < ss.len() - 1 {
        lemma_hmax_elem(ss.drop_last(), i);
        assert(ss.drop_last()[i] == ss[i]);
    }
}

/// Names a context a walk passes through, so that a proof can point at it.
pub open spec fn midway(c: Cx) -> bool {
    true
}

/// Names a context and a loop body a walk passes through, so that a proof can point at them.
pub open spec fn midway_body(c: Cx, body: Seq<Stmt>) -> bool {
    true
}

/// Whether walking the statements `stmts` (inside a `try_table` when `in_try`) from `c0`
/// rewrites them to `r` and leaves `c1`: each statement in order, a statement that holds no
/// body unchanged. The compound statements walked are among `orig`'s.
pub open spec fn walked_seq(c0: Cx, c1: Cx, stmts: Seq<Stmt>, in_try: bool, r: Seq<Stmt>, orig: Seq<Stmt>) -> bool
    decreases hmax(orig), stmts.len(),
{
    if stmts.len() == 0 {
        c1 == c0 && r.len() == 0
    } else if r.len() != stmts.len() {
        false
    } else {
        let x = stmts.last();
        exists|cm: Cx|
            #[trigger] midway(cm) && walked_seq(c0, cm, stmts.drop_last(), in_try, r.drop_last(), orig) && if !compound(x) {
                c1 == cm && r.last() == x
            } else {
                height(x) <= hmax(orig) && walked_stmt(cm, c1, x, in_try, r.last())
            }
    }
}

/// Whether walking `s` from `c0` rewrites it to `r` and leaves `c1`: a referenced loop first has
/// its first candidate span outlined (see [`Cx::outlines`]), then the statements of every body
/// are walked; a body inside a `try_table` is walked as such.
pub open spec fn walked_stmt(c0: Cx, c1: Cx, s: Stmt, in_try: bool, r: Stmt) -> bool
    decreases height(s), 0nat,
{
    match s {
        Stmt::Loop { label, body } => match r {
            Stmt::Loop { label: l2, body: b } => l2 == label && exists|cm: Cx, b2: Seq<Stmt>|
                #![trigger midway_body(cm, b2)]
                midway_body(cm, b2) && (if label.referenced && c0.outlines(body@, label.id, in_try) {
                    outlined(c0, cm, body@, b2, label.id, in_try)
                } else {
                    cm == c0 && b2 == body@
                }) && walked_seq(cm, c1, b2, in_try, b@, body@),
            _ => false,
        },
        Stmt::Block { label, body } => match r {
            Stmt::Block { label: l2, body: b } => l2 == label && walked_seq(c0, c1, body@, in_try, b@, body@),
            _ => false,
        },
        Stmt::If { label, cond, then, els } => match r {
            Stmt::If { label: l2, cond: c2, then: t, els: e } => l2 == label && c2 == cond && exists|cm: Cx|
                #[trigger] midway(cm) && walked_seq(c0, cm, then@, in_try, t@, then@) && walked_seq(cm, c1, els@, in_try, e@, els@),
            _ => false,
        },
        Stmt::TryTable { label, catches, body } => match r {
            Stmt::TryTable { label: l2, catches: c2, body: b } => l2 == label && c2 == catches && walked_seq(
                c0,
                c1,
                body@,
                true,
                b@,
                body@,
            ),
            _ => false,
        },
        _ => c1 == c0 && r == s,
    }
}

/// Walking one more statement extends a walk of the statements before it.
proof fn lemma_walked_snoc(
    c0: Cx,
    cm: Cx,
    c1: Cx,
    pre: Seq<Stmt>,
    x: Stmt,
    rpre: Seq<Stmt>,
    w: Stmt,
    in_try: bool,
    orig: Seq<Stmt>,
)
    requires
        walked_seq(c0, cm, pre, in_try, rpre, orig),
        !compound(x) ==> c1 == cm && w == x,
        compound(x) ==> height(x) <= hmax(orig) && walked_stmt(cm, c1, x, in_try, w),
    ensures
        walked_seq(c0, c1, pre.push(x), in_try, rpre.push(w), orig),
{
    let q = pre.push(x);
    let rq = rpre.push(w);
    assert(q.drop_last() =~= pre);
    assert(rq.drop_last() =~= rpre);
    if pre.len() == 0 {
        assert(rpre.len() == 0);
    }
    assert(midway(cm));
}

/// Walking no statement changes nothing.
proof fn lemma_walked_empty(c: Cx, in_try: bool, orig: Seq<Stmt>)
    ensures
        walked_seq(c, c, Seq::<Stmt>::empty(), in_try, Seq::<Stmt>::empty(), orig),
{
}

fn is_compound(s: &Stmt) -> (r: bool)
    ensures
        r == compound(*s),
{
    match s {
        Stmt::Block { .. } | Stmt::Loop { .. } | Stmt::If { .. } | Stmt::TryTable { .. } => true,
        _ => false,
    }
}

impl Cx {
    /// Walks one statement: a referenced loop gets a span outlined, then every nested loop is
    /// walked in turn. The rewritten loop body's extracted span is not walked again.
    fn walk_stmt(&mut self, s: Stmt, in_try: bool) -> (r: Stmt)
        ensures
            grows(*old(self), *final(self)),
            walked_stmt(*old(self), *final(self), s, in_try, r),
        decreases s,
    {
        let ghost s0 = s;
        let ghost start = *self;
        match s {
            Stmt::Loop { label, body } => {
                let ghost orig = body@;
                let ghost c0 = *self;
                let body2 = if label.referenced {
                    self.try_outline_loop(body, label.id, in_try)
                } else {
                    body
                };
                proof {
                    if !label.referenced {
                        assert(body2@ == orig);
                        assert forall|i: int| 0 <= i < body2@.len() implies !compound(#[trigger] body2@[i]) || orig.contains(
                            body2@[i],
                        ) by {
                            assert(orig[i] == body2@[i]);
                        }
                        lemma_grows_refl(c0);
                    }
                }
                let ghost c1 = *self;
                let b = self.walk_elems(body2, in_try, Ghost(orig));
                proof {
                    lemma_grows_trans(c0, c1, *self);
                    if !(label.referenced && c0.outlines(orig, label.id, in_try)) {
                        assert(c1 == c0);
                    }
                    assert(walked_seq(c1, *self, body2@, in_try, b@, orig));
                    assert(midway_body(c1, body2@));
                }
                let r = Stmt::Loop { label, body: b };
                assert(walked_stmt(start, *self, s0, in_try, r));
                r
            },
            Stmt::Block { label, body } => {
                let ghost orig = body@;
                let b = self.walk_elems(body, in_try, Ghost(orig));
                let r = Stmt::Block { label, body: b };
                assert(walked_stmt(start, *self, s0, in_try, r));
                r
            },
            Stmt::If { label, cond, then, els } => {
                let ghost c0 = *self;
                let ghost o1 = then@;
                let ghost o2 = els@;
                let t = self.walk_elems(then, in_try, Ghost(o1));
                let ghost c1 = *self;
                let e = self.walk_elems(els, in_try, Ghost(o2));
                proof {
                    lemma_grows_trans(c0, c1, *self);
                    assert(walked_seq(c0, c1, o1, in_try, t@, o1));
                    assert(midway(c1));
                }
                let r = Stmt::If { label, cond, then: t, els: e };
                assert(walked_stmt(start, *self, s0, in_try, r));
                r
            },
            Stmt::TryTable { label, catches, body } => {
                let ghost orig = body@;
                let b = self.walk_elems(body, true, Ghost(orig));
                let r = Stmt::TryTable { label, catches, body: b };
                assert(walked_stmt(start, *self, s0, in_try, r));
                r
            },
            other => {
                proof {
                    lemma_grows_refl(*self);
                }
                other
            },
        }
    }

    /// Walks each statement of `stmts`, in order; its compound statements are among `orig`'s.
    fn walk_elems(&mut self, stmts: Vec<Stmt>, in_try: bool, Ghost(orig): Ghost<Seq<Stmt>>) -> (r: Vec<Stmt>)
        requires
            keeps_compounds(orig, stmts@),
        ensures
            grows(*old(self), *final(self)),
            walked_seq(*old(self), *final(self), stmts@, in_try, r@, orig),
        decreases orig,
    {
        let ghost c0 = *self;
        let ghost n = stmts@.len();
        let ghost all = stmts@;
        let mut src = stmts;
        let mut rev: Vec<Stmt> = Vec::new();
        while src.len() > 0
            invariant
                all.len() == n,
                src@.len() + rev@.len() == n,
                src@ == all.subrange(0, src@.len() as int),
                forall|k: int| 0 <= k < rev@.len() ==> rev@[k] == all[n - 1 - k],
            decreases src@.len(),
        {
            match src.pop() {
                Some(x) => rev.push(x),
                None => {},
            }
        }
        proof {
            lemma_grows_refl(*self);
        }
        proof {
            lemma_walked_empty(c0, in_try, orig);
            assert(all.subrange(0, 0) =~= Seq::<Stmt>::empty());
        }
        let mut out: Vec<Stmt> = Vec::new();
        while rev.len() > 0
            invariant
                all.len() == n,
                rev@.len() <= n,
                forall|k: int| 0 <= k < rev@.len() ==> rev@[k] == all[n - 1 - k],
                keeps_compounds(orig, all),
                grows(c0, *self),
                walked_seq(c0, *self, all.subrange(0, n - rev@.len()), in_try, out@, orig),
            decreases rev@.len(),
        {
            let ghost idx = n - rev@.len();
            let s = match rev.pop() {
                Some(x) => x,
                None => Stmt::Unreachable,
            };
            assert(s == all[idx]);
            let ghost c1 = *self;
            let w = if is_compound(&s) {
                proof {
                    assert(orig.contains(s));
                    let q = choose|q: int| 0 <= q < orig.len() && orig[q] == s;
                    assert(decreases_to!(orig => orig[q]));
                }
                self.walk_stmt(s, in_try)
            } else {
                proof {
                    lemma_grows_refl(*self);
                }
                s
            };
            proof {
                lemma_grows_trans(c0, c1, *self);
            }
            let ghost out0 = out@;
            out.push(w);
            proof {
                let p2 = all.subrange(0, idx + 1);
                assert(p2.drop_last() =~= all.subrange(0, idx));
                assert(out@.drop_last() =~= out0);
                assert(p2.last() == s);
                assert(out@.last() == w);
                if compound(s) {
                    let q = choose|q: int| 0 <= q < orig.len() && orig[q] == s;
                    lemma_hmax_elem(orig, q);
                }
                lemma_walked_snoc(c0, c1, *self, all.subrange(0, idx), s, out0, w, in_try, orig);
                assert(all.subrange(0, idx).push(s) =~= p2);
                assert(out0.push(w) =~= out@);
            }
        }
        assert(all.subrange(0, n as int) =~= all);
        out
    }
}

/// The functions of a module after loop-body outlining: the module's own, with outlined spans
/// replaced by calls, followed by the extracted functions; and the module's types, extended with
/// any new signatures.
pub struct Outline {
    pub funcs: Vec<Func>,
    pub types: Vec<FuncType>,
}

fn local_types(types: &Vec<FuncType>, type_idx: u32, locals: &Vec<ValType>) -> (r: Vec<ValType>)
    requires
        (type_idx as int) < types@.len(),
    ensures
        r@ == types@[type_idx as int].params@ + locals@,
{
    let mut r: Vec<ValType> = Vec::new();
    let ps = &types[type_idx as usize].params;
    let mut i: usize = 0;
    while i < ps.len()
        invariant
            i <= ps@.len(),
            r@ =~= ps@.subrange(0, i as int),
        decreases ps@.len() - i,
    {
        r.push(ps[i]);
        i = i + 1;
    }
    let ghost pre = r@;
    let mut i: usize = 0;
    while i < locals.len()
        invariant
            i <= locals@.len(),
            r@ =~= pre + locals@.subrange(0, i as int),
        decreases locals@.len() - i,
    {
        r.push(locals[i]);
        i = i + 1;
    }
    proof {
        assert(pre =~= ps@);
        assert(locals@.subrange(0, locals@.len() as int) =~= locals@);
    }
    r
}

/// Names the lists a walk over the functions passes through, so that a proof can point at them.
pub open spec fn midway_lists(types: Seq<FuncType>, synths: Seq<Func>) -> bool {
    true
}

/// Names the contexts outlining a function starts and ends with, so that a proof can point at
/// them.
pub open spec fn midway_pair(c0: Cx, c1: Cx) -> bool {
    true
}

/// Whether `f2` is the function `f` outlined, with the module's types going from `ty0` to `ty1`
/// and the extracted functions from `sy0` to `sy1`: its body walked (see [`walked_seq`]) with the
/// boundary records of its loops, the types of its locals, its temps, and the extracted functions
/// numbered from `base_idx`.
pub open spec fn func_outlined(
    params: Params,
    base_idx: u32,
    f: Func,
    ty0: Seq<FuncType>,
    sy0: Seq<Func>,
    f2: Func,
    ty1: Seq<FuncType>,
    sy1: Seq<Func>,
) -> bool {
    exists|c0: Cx, c1: Cx|
        #![trigger midway_pair(c0, c1)]
        {
            &&& midway_pair(c0, c1)
            &&& c0.params == params
            &&& records_of(c0.records@) == bounds_seq(f.body@, Seq::empty(), Set::empty(), Set::empty())
            &&& c0.local_tys@ == ty0[f.type_idx as int].params@ + f.locals@
            &&& c0.temps == f.temps
            &&& c0.types@ == ty0
            &&& c0.synths@ == sy0
            &&& c0.base_idx == base_idx
            &&& walked_seq(c0, c1, f.body@, false, f2.body@, f.body@)
            &&& f2.type_idx == f.type_idx
            &&& f2.locals == f.locals
            &&& f2.temps == c1.temps
            &&& c1.types@ == ty1
            &&& c1.synths@ == sy1
        }
}

/// Whether `out` is the functions `fs` outlined in order (see [`func_outlined`]), the module's
/// types going from `ty0` to `ty1` and the extracted functions from none to `sy1`.
pub open spec fn funcs_outlined(
    params: Params,
    base_idx: u32,
    fs: Seq<Func>,
    ty0: Seq<FuncType>,
    out: Seq<Func>,
    ty1: Seq<FuncType>,
    sy1: Seq<Func>,
) -> bool
    decreases fs.len(),
{
    if fs.len() == 0 {
        out.len() == 0 && ty1 == ty0 && sy1.len() == 0
    } else {
        out.len() == fs.len() && exists|tym: Seq<FuncType>, sym: Seq<Func>|
            #![trigger midway_lists(tym, sym)]
            midway_lists(tym, sym) && funcs_outlined(params, base_idx, fs.drop_last(), ty0, out.drop_last(), tym, sym)
                && func_outlined(params, base_idx, fs.last(), tym, sym, out.last(), ty1, sy1)
    }
}

proof fn lemma_funcs_outlined_snoc(
    params: Params,
    base_idx: u32,
    fs: Seq<Func>,
    f: Func,
    ty0: Seq<FuncType>,
    out: Seq<Func>,
    f2: Func,
    tym: Seq<FuncType>,
    sym: Seq<Func>,
    ty1: Seq<FuncType>,
    sy1: Seq<Func>,
)
    requires
        funcs_outlined(params, base_idx, fs, ty0, out, tym, sym),
        func_outlined(params, base_idx, f, tym, sym, f2, ty1, sy1),
    ensures
        funcs_outlined(params, base_idx, fs.push(f), ty0, out.push(f2), ty1, sy1),
{
    assert(fs.push(f).drop_last() =~= fs);
    assert(out.push(f2).drop_last() =~= out);
    assert(fs.push(f).last() == f);
    assert(out.push(f2).last() == f2);
    if fs.len() == 0 {
        assert(out.len() == 0);
    }
    assert(midway_lists(tym, sym));
}

/// Outlines a span of every referenced loop of every function of `module` where one qualifies
/// (see [`func_outlined`]), walking the functions in order and the extracted functions not at
/// all; the extracted functions follow the module's own, numbered on from all of them, and new
/// signatures follow the module's types. Every function's type must be one of the module's.
pub fn outline(module: Module, params: &Params) -> (r: Outline)
    requires
        forall|i: int| 0 <= i < module.funcs@.len() ==> (#[trigger] module.funcs@[i]).type_idx < module.types@.len(),
        (module.imported_funcs@.len() as u32) + (module.funcs@.len() as u32) <= u32::MAX,
    ensures
        r.funcs@.len() >= module.funcs@.len(),
        forall|i: int| 0 <= i < module.funcs@.len() ==> (#[trigger] r.funcs@[i]).type_idx == module.funcs@[i].type_idx
            && r.funcs@[i].locals@ == module.funcs@[i].locals@,
        r.types@.len() >= module.types@.len(),
        r.types@.subrange(0, module.types@.len() as int) == module.types@,
        funcs_outlined(
            *params,
            ((module.imported_funcs@.len() as u32) + (module.funcs@.len() as u32)) as u32,
            module.funcs@,
            module.types@,
            r.funcs@.subrange(0, module.funcs@.len() as int),
            r.types@,
            r.funcs@.subrange(module.funcs@.len() as int, r.funcs@.len() as int),
        ),
{
    let Module { types, imported_funcs, funcs, .. } = module;
    let ghost types0 = types@;
    let ghost funcs0 = funcs@;
    let base_idx = (imported_funcs.len() as u32) + (funcs.len() as u32);
    let n = funcs.len();
    let mut src = funcs;
    let mut rev: Vec<Func> = Vec::new();
    while src.len() > 0
        invariant
            funcs0.len() == n,
            src@.len() + rev@.len() == n,
            src@ == funcs0.subrange(0, src@.len() as int),
            forall|k: int| 0 <= k < rev@.len() ==> rev@[k] == funcs0[n - 1 - k],
        decreases src@.len(),
    {
        match src.pop() {
            Some(x) => rev.push(x),
            None => {},
        }
    }
    let mut types = types;
    let mut synths: Vec<Func> = Vec::new();
    let mut out: Vec<Func> = Vec::new();
    assert(types@.subrange(0, types0.len() as int) =~= types0);
    assert(funcs0.subrange(0, 0) =~= Seq::<Func>::empty());
    while rev.len() > 0
        invariant
            n == funcs0.len(),
            rev@.len() <= n,
            forall|k: int| 0 <= k < rev@.len() ==> rev@[k] == funcs0[n - 1 - k],
            forall|i: int| 0 <= i < funcs0.len() ==> (#[trigger] funcs0[i]).type_idx < types0.len(),
            out@.len() == n - rev@.len(),
            forall|i: int| 0 <= i < out@.len() ==> (#[trigger] out@[i]).type_idx == funcs0[i].type_idx && out@[i].locals@
                == funcs0[i].locals@,
            types@.len() >= types0.len(),
            types@.subrange(0, types0.len() as int) == types0,
            funcs_outlined(*params, base_idx, funcs0.subrange(0, n - rev@.len()), types0, out@, types@, synths@),
        decreases rev@.len(),
    {
        let ghost idx = n - rev@.len();
        let func = match rev.pop() {
            Some(x) => x,
            None => Func { type_idx: 0, locals: Vec::new(), temps: Vec::new(), body: Vec::new() },
        };
        assert(func == funcs0[idx]);
        let ghost f0 = func;
        let ghost ty_m = types@;
        let ghost sy_m = synths@;
        let records = Liveness::run(&func);
        let Func { type_idx, locals, temps, body } = func;
        let local_tys = local_types(&types, type_idx, &locals);
        let mut cx = Cx { params: *params, records, local_tys, temps, types, synths, base_idx };
        let ghost c0 = cx;
        proof {
            assert(keeps_compounds(body@, body@)) by {
                assert forall|i: int| 0 <= i < body@.len() implies !compound(#[trigger] body@[i]) || body@.contains(body@[i]) by {
                    assert(body@.contains(body@[i]));
                }
            }
        }
        let ghost b0 = body@;
        let new_body = cx.walk_elems(body, false, Ghost(b0));
        let ghost c1 = cx;
        let Cx { temps: t2, types: ty2, synths: s2, .. } = cx;
        proof {
            assert(ty2@.subrange(0, types0.len() as int) =~= ty2@.subrange(0, c0.types@.len() as int).subrange(
                0,
                types0.len() as int,
            ));
        }
        types = ty2;
        synths = s2;
        let f2 = Func { type_idx, locals, temps: t2, body: new_body };
        proof {
            assert(midway_pair(c0, c1));
            assert(func_outlined(*params, base_idx, f0, ty_m, sy_m, f2, types@, synths@));
            lemma_funcs_outlined_snoc(
                *params,
                base_idx,
                funcs0.subrange(0, idx),
                f0,
                types0,
                out@,
                f2,
                ty_m,
                sy_m,
                types@,
                synths@,
            );
            assert(funcs0.subrange(0, idx).push(f0) =~= funcs0.subrange(0, idx + 1));
        }
        out.push(f2);
    }
    let ghost before = out@;
    let ghost sy = synths@;
    out.append(&mut synths);
    assert forall|i: int| 0 <= i < funcs0.len() implies (#[trigger] out@[i]).type_idx == funcs0[i].type_idx
        && out@[i].locals@ == funcs0[i].locals@ by {
        assert(out@[i] == before[i]);
    }
    proof {
        assert(funcs0.subrange(0, n as int) =~= funcs0);
        assert(out@.subrange(0, n as int) =~= before);
        assert(out@.subrange(n as int, out@.len() as int) =~= sy);
    }
    Outline { funcs: out, types }
}

// ---------------------------------------------------------------------------------------------
// Where renumbering puts the region's locals.

/// Whether the extraction gives the caller local `i` a slot of the extracted function: it is an
/// argument local or one of the region's own.
pub open spec fn covered_local(ext: Extraction, i: u32) -> bool {
    ext.arg_locals@.contains(i) || ext.inner_locals@.contains(i)
}

/// Renumbering keeps the region's locals apart: argument locals land in
/// `0..n_arg_locals`, the region's own locals at `n_arg_locals + n_arg_temps` or after (never on
/// a parameter's slot), and two covered locals never share a slot.
pub proof fn law_renumbering_keeps_locals_apart(
    ext: Extraction,
    region: Seq<Stmt>,
    live_after: Set<Var>,
    i: u32,
    j: u32,
)
    requires
        extraction_of(ext, region, live_after),
        ext.arg_locals@.len() + ext.arg_temps@.len() + ext.inner_locals@.len() <= u32::MAX,
    ensures
        ext.arg_locals@.contains(i) ==> renum_local(ext, i) < ext.arg_locals@.len(),
        ext.inner_locals@.contains(i) ==> ext.arg_locals@.len() + ext.arg_temps@.len() <= renum_local(ext, i)
            < ext.arg_locals@.len() + ext.arg_temps@.len() + ext.inner_locals@.len(),
        covered_local(ext, i) && covered_local(ext, j) && renum_local(ext, i) == renum_local(ext, j) ==> i == j,
{
    reveal(extraction_of);
    let a = ext.arg_locals@;
    let inner = ext.inner_locals@;
    let ins = inputs(region, live_after);
    assert forall|x: u32| inner.contains(x) implies !a.contains(x) by {
        assert(inner.to_set().contains(x));
        assert(!locals_of(ins).contains(x));
        if a.contains(x) {
            assert(a.to_set().contains(x));
        }
    }
    if covered_local(ext, i) && covered_local(ext, j) && renum_local(ext, i) == renum_local(ext, j) {
        if a.contains(i) && a.contains(j) {
            let qi = choose|q: int| 0 <= q < a.len() && a[q] == i;
            let qj = choose|q: int| 0 <= q < a.len() && a[q] == j;
            assert(qi as u32 == qj as u32);
        } else if inner.contains(i) && inner.contains(j) {
            let qi = choose|q: int| 0 <= q < inner.len() && inner[q] == i;
            let qj = choose|q: int| 0 <= q < inner.len() && inner[q] == j;
        }
    }
}

/// The arguments land where the extracted function reads them: the call passes each caller
/// argument local in exactly the parameter slot its renumbered reads use, and the entry copy of
/// each incoming temp reads the slot the call passes that temp in.
pub proof fn law_arguments_land_where_the_body_reads_them(
    ext: Extraction,
    region: Seq<Stmt>,
    live_after: Set<Var>,
    args: Seq<Expr>,
    sb: Seq<Stmt>,
    i: u32,
    k: int,
)
    requires
        extraction_of(ext, region, live_after),
        args_of(args, ext),
        synth_body(sb, region, ext),
        ext.arg_locals@.len() + ext.arg_temps@.len() + ext.inner_locals@.len() <= u32::MAX,
    ensures
        ext.arg_locals@.contains(i) ==> args[renum_local(ext, i) as int] == Expr::LocalGet(i),
        0 <= k < ext.arg_temps@.len() ==> match sb[k] {
            Stmt::Assign { dst, expr: Expr::LocalGet(j) } => j < args.len() && args[j as int] == Expr::Temp(dst),
            _ => false,
        },
{
    reveal(synth_body);
    let a = ext.arg_locals@;
    if a.contains(i) {
        lemma_arg_slot(ext, i);
    }
    if 0 <= k < ext.arg_temps@.len() {
        assert(args[a.len() + k] == Expr::Temp(ext.arg_temps@[k]));
    }
}

/// An argument local's slot is its position among the argument locals.
proof fn lemma_arg_slot(ext: Extraction, i: u32)
    requires
        ext.arg_locals@.contains(i),
        ext.arg_locals@.len() <= u32::MAX,
    ensures
        0 <= renum_local(ext, i) < ext.arg_locals@.len(),
        ext.arg_locals@[renum_local(ext, i) as int] == i,
{
}

} // verus!
