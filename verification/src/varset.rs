//! The variables the loop-body analyses track, and finite sets of them.
use vstd::prelude::*;

use crate::ir::{Temp, ValType};

verus! {

/// A variable the analyses track: a wasm local or a spilled stack temp. Globals and memory are
/// instance state and need no tracking.
#[derive(Clone, Copy, PartialEq, Eq, Debug, Structural)]
pub enum Var {
    Local(u32),
    Temp(Temp),
}

/// The position of a value type in declaration order.
pub open spec fn ty_rank(t: ValType) -> nat {
    match t {
        ValType::I32 => 0,
        ValType::I64 => 1,
        ValType::F32 => 2,
        ValType::F64 => 3,
        ValType::FuncRef => 4,
    }
}

/// A key ordering variables as their declaration does: every local before every temp, locals
/// by index, temps by depth and then type.
pub open spec fn var_key(v: Var) -> nat {
    match v {
        Var::Local(i) => i as nat,
        Var::Temp(t) => 0x1_0000_0000 + t.depth as nat * 8 + ty_rank(t.ty),
    }
}

/// The key of `v` (see [`var_key`]).
pub fn var_key_exec(v: Var) -> (r: u64)
    ensures
        r == var_key(v),
{
    match v {
        Var::Local(i) => i as u64,
        Var::Temp(t) => {
            let rank: u64 = match t.ty {
                ValType::I32 => 0,
                ValType::I64 => 1,
                ValType::F32 => 2,
                ValType::F64 => 3,
                ValType::FuncRef => 4,
            };
            0x1_0000_0000 + t.depth as u64 * 8 + rank
        },
    }
}

/// Different variables have different keys.
pub proof fn lemma_var_key_injective(a: Var, b: Var)
    requires
        var_key(a) == var_key(b),
    ensures
        a == b,
{
    match (a, b) {
        (Var::Temp(s), Var::Temp(t)) => {
            assert(s.depth as nat * 8 + ty_rank(s.ty) == t.depth as nat * 8 + ty_rank(t.ty));
            assert(s.depth == t.depth) by (nonlinear_arith)
                requires
                    s.depth as nat * 8 + ty_rank(s.ty) == t.depth as nat * 8 + ty_rank(t.ty),
                    ty_rank(s.ty) < 8,
                    ty_rank(t.ty) < 8,
            ;
            assert(ty_rank(s.ty) == ty_rank(t.ty));
        },
        _ => {},
    }
}

/// A finite set of variables, held as a sequence.
pub struct VarSet {
    items: Vec<Var>,
}

impl View for VarSet {
    type V = Set<Var>;

    closed spec fn view(&self) -> Set<Var> {
        self.items@.to_set()
    }
}

proof fn lemma_prefix_push(s: Seq<Var>, i: int)
    requires
        0 <= i < s.len(),
    ensures
        s.subrange(0, i + 1).to_set() == s.subrange(0, i).to_set().insert(s[i]),
{
    let a = s.subrange(0, i + 1);
    let b = s.subrange(0, i);
    assert forall|y: Var| a.contains(y) <==> (b.contains(y) || y == s[i]) by {
        if a.contains(y) {
            let k = choose|k: int| 0 <= k < a.len() && a[k] == y;
            if k < i {
                assert(b[k] == y);
            }
        }
        if b.contains(y) {
            let k = choose|k: int| 0 <= k < b.len() && b[k] == y;
            assert(a[k] == y);
        }
        if y == s[i] {
            assert(a[i] == y);
        }
    }
    assert(a.to_set() =~= b.to_set().insert(s[i]));
}

impl VarSet {
    /// The elements, in the order they were added.
    pub closed spec fn elems(&self) -> Seq<Var> {
        self.items@
    }

    /// The set is finite, and holds exactly its listed elements.
    pub proof fn lemma_finite(&self)
        ensures
            self@.finite(),
            self@ == self.elems().to_set(),
    {
        vstd::seq_lib::seq_to_set_is_finite(self.items@);
    }

    /// The empty set.
    pub fn new() -> (r: VarSet)
        ensures
            r@ == Set::<Var>::empty(),
            r.elems().len() == 0,
    {
        let r = VarSet { items: Vec::new() };
        assert(r.items@.to_set() =~= Set::<Var>::empty());
        r
    }

    /// The number of listed elements.
    pub fn count(&self) -> (r: usize)
        ensures
            r == self.elems().len(),
    {
        self.items.len()
    }

    /// The `i`-th listed element.
    pub fn get(&self, i: usize) -> (r: Var)
        requires
            i < self.elems().len(),
        ensures
            r == self.elems()[i as int],
    {
        self.items[i]
    }

    /// Whether `v` is an element.
    pub fn contains(&self, v: Var) -> (r: bool)
        ensures
            r == self@.contains(v),
    {
        let mut i: usize = 0;
        while i < self.items.len()
            invariant
                i <= self.items@.len(),
                forall|j: int| 0 <= j < i ==> self.items@[j] != v,
            decreases self.items@.len() - i,
        {
            if self.items[i] == v {
                assert(self.items@[i as int] == v);
                return true;
            }
            i = i + 1;
        }
        false
    }

    /// Adds `v`.
    pub fn insert(&mut self, v: Var)
        ensures
            final(self)@ == old(self)@.insert(v),
    {
        if !self.contains(v) {
            let ghost before = self.items@;
            self.items.push(v);
            proof {
                lemma_prefix_push(self.items@, before.len() as int);
                assert(self.items@.subrange(0, before.len() as int) == before);
                assert(self.items@.subrange(0, before.len() as int + 1) == self.items@);
            }
        } else {
            assert(self.items@.to_set() =~= old(self).items@.to_set().insert(v));
        }
    }

    /// Removes `v`.
    pub fn remove(&mut self, v: Var)
        ensures
            final(self)@ == old(self)@.remove(v),
    {
        let ghost before = self.items@;
        let mut kept: Vec<Var> = Vec::new();
        let mut i: usize = 0;
        while i < self.items.len()
            invariant
                i <= self.items@.len(),
                self.items@ == before,
                kept@.to_set() == before.subrange(0, i as int).to_set().remove(v),
            decreases self.items@.len() - i,
        {
            let x = self.items[i];
            proof {
                lemma_prefix_push(before, i as int);
            }
            if x != v {
                let ghost kb = kept@;
                kept.push(x);
                proof {
                    lemma_prefix_push(kept@, kb.len() as int);
                    assert(kept@.subrange(0, kb.len() as int) == kb);
                    assert(kept@.subrange(0, kb.len() as int + 1) == kept@);
                    assert(kept@.to_set() =~= before.subrange(0, i + 1).to_set().remove(v));
                }
            } else {
                assert(kept@.to_set() =~= before.subrange(0, i + 1).to_set().remove(v));
            }
            i = i + 1;
        }
        assert(before.subrange(0, before.len() as int) == before);
        self.items = kept;
    }

    /// Adds every element of `other`.
    pub fn extend(&mut self, other: &VarSet)
        ensures
            final(self)@ == old(self)@.union(other@),
    {
        let ghost start = self@;
        let mut i: usize = 0;
        assert(other.items@.subrange(0, 0).to_set() =~= Set::<Var>::empty());
        while i < other.items.len()
            invariant
                i <= other.items@.len(),
                self@ == start.union(other.items@.subrange(0, i as int).to_set()),
            decreases other.items@.len() - i,
        {
            self.insert(other.items[i]);
            proof {
                lemma_prefix_push(other.items@, i as int);
                assert(self@ =~= start.union(other.items@.subrange(0, i + 1).to_set()));
            }
            i = i + 1;
        }
        assert(other.items@.subrange(0, other.items@.len() as int) == other.items@);
    }

    /// A copy.
    pub fn copy(&self) -> (r: VarSet)
        ensures
            r@ == self@,
    {
        let mut r = VarSet::new();
        r.extend(self);
        assert(r@ =~= self@);
        r
    }

    /// Whether every element is one of `other`'s.
    pub fn subset(&self, other: &VarSet) -> (r: bool)
        ensures
            r == self@.subset_of(other@),
    {
        let mut i: usize = 0;
        while i < self.items.len()
            invariant
                i <= self.items@.len(),
                forall|j: int| 0 <= j < i ==> other@.contains(#[trigger] self.items@[j]),
            decreases self.items@.len() - i,
        {
            if !other.contains(self.items[i]) {
                assert(self@.contains(self.items@[i as int]));
                return false;
            }
            i = i + 1;
        }
        assert forall|x: Var| self@.contains(x) implies other@.contains(x) by {
            let k = choose|k: int| 0 <= k < self.items@.len() && self.items@[k] == x;
        }
        true
    }

    /// Whether both sets hold the same elements.
    pub fn same(&self, other: &VarSet) -> (r: bool)
        ensures
            r == (self@ == other@),
    {
        let a = self.subset(other);
        let b = other.subset(self);
        proof {
            if a && b {
                assert(self@ =~= other@);
            }
        }
        a && b
    }
}

/// Whether the keys of `s` strictly increase.
pub open spec fn ascending(s: Seq<Var>) -> bool {
    forall|i: int, j: int| 0 <= i < j < s.len() ==> var_key(#[trigger] s[i]) < var_key(#[trigger] s[j])
}

impl VarSet {
    /// The elements in ascending key order (see [`var_key`]): locals by index, then temps.
    pub fn sorted(&self) -> (r: Vec<Var>)
        ensures
            ascending(r@),
            r@.to_set() == self@,
            r@.len() == self@.len(),
    {
        let mut out: Vec<Var> = Vec::new();
        let mut i: usize = 0;
        assert(self.items@.subrange(0, 0).to_set() =~= out@.to_set());
        while i < self.items.len()
            invariant
                i <= self.items@.len(),
                ascending(out@),
                out@.to_set() == self.items@.subrange(0, i as int).to_set(),
            decreases self.items@.len() - i,
        {
            let v = self.items[i];
            let kv = var_key_exec(v);
            let mut p: usize = 0;
            while p < out.len() && var_key_exec(out[p]) < kv
                invariant
                    p <= out@.len(),
                    forall|q: int| 0 <= q < p ==> var_key(#[trigger] out@[q]) < kv,
                decreases out@.len() - p,
            {
                p = p + 1;
            }
            proof {
                lemma_prefix_push(self.items@, i as int);
            }
            if p < out.len() && var_key_exec(out[p]) == kv {
                proof {
                    lemma_var_key_injective(out@[p as int], v);
                    assert(out@.to_set().contains(v));
                    assert(out@.to_set() =~= self.items@.subrange(0, i + 1).to_set());
                }
            } else {
                let ghost before = out@;
                out.insert(p, v);
                proof {
                    assert forall|a: int, b: int| 0 <= a < b < out@.len() implies var_key(#[trigger] out@[a]) < var_key(
                        #[trigger] out@[b],
                    ) by {
                        if b < p {
                        } else if b == p {
                        } else if a < p {
                            assert(out@[b] == before[b - 1]);
                            if p < before.len() {
                                assert(var_key(before[p as int]) > kv);
                                if b - 1 > p {
                                    assert(var_key(before[p as int]) < var_key(before[b - 1]));
                                }
                            }
                        } else if a == p {
                            assert(out@[b] == before[b - 1]);
                            assert(var_key(before[p as int]) > kv);
                            if b - 1 > p {
                                assert(var_key(before[p as int]) < var_key(before[b - 1]));
                            }
                        } else {
                            assert(out@[a] == before[a - 1]);
                            assert(out@[b] == before[b - 1]);
                        }
                    }
                    assert forall|x: Var| out@.to_set().contains(x) <==> before.to_set().insert(v).contains(x) by {
                        if out@.contains(x) {
                            let q = choose|q: int| 0 <= q < out@.len() && out@[q] == x;
                            if q < p {
                                assert(before[q] == x);
                            } else if q > p {
                                assert(before[q - 1] == x);
                            }
                        }
                        if before.contains(x) {
                            let q = choose|q: int| 0 <= q < before.len() && before[q] == x;
                            if q < p {
                                assert(out@[q] == x);
                            } else {
                                assert(out@[q + 1] == x);
                            }
                        }
                        if x == v {
                            assert(out@[p as int] == x);
                        }
                    }
                    assert(out@.to_set() =~= self.items@.subrange(0, i + 1).to_set());
                }
            }
            i = i + 1;
        }
        proof {
            assert(self.items@.subrange(0, self.items@.len() as int) =~= self.items@);
            assert(out@.no_duplicates()) by {
                assert forall|a: int, b: int| 0 <= a < out@.len() && 0 <= b < out@.len() && a != b implies out@[a]
                    != out@[b] by {
                    if a < b {
                        assert(var_key(out@[a]) < var_key(out@[b]));
                    } else {
                        assert(var_key(out@[b]) < var_key(out@[a]));
                    }
                }
            }
            out@.unique_seq_to_set();
        }
        out
    }
}

} // verus!
