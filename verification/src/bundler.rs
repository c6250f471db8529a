//! Runtime units and their bundling: each backend's runtime is a set of per-method units whose
//! dependencies are declared in `requires:` header lines; the bundler resolves the dependency
//! closure of the units generated code references and emits them grouped by scope, in
//! declaration order, sorted within a scope.
use vstd::prelude::*;

use crate::ir::Module;
use crate::support::{BackendError, is_wasi_module, is_wasi_module_spec};
use crate::text::{push_char, push_str, str_chars, str_eq, from_chars, to_owned, lines_of, lines_spec, trim_chars,
    trim_spec, blank_chars, is_blank};

verus! {

/// One runtime unit: a single method (or an inseparable scope prelude), with its dependencies.
pub struct RuntimeUnit {
    pub id: String,
    pub requires: Vec<String>,
    pub body: String,
}

/// A named scope units can live in. `prefix` is the unit-id path segment; `open`/`close` wrap
/// the scope's units; the root scope uses empty wrappers.
pub struct RuntimeScope {
    pub prefix: &'static str,
    pub open: &'static str,
    pub close: &'static str,
    /// Unit implicitly required by every unit of this scope; also force-included for the root
    /// scope.
    pub prelude: Option<&'static str>,
}

/// Resolves `requires:` closures over runtime units and emits the bundle.
pub struct RuntimeBundler {
    scopes: Vec<RuntimeScope>,
    units: Vec<RuntimeUnit>,
    indent_str: &'static str,
    unit_indent: usize,
}

// ---------------------------------------------------------------------------------------------
// Ordering of unit ids: the byte order of their UTF-8 encodings, which is the code point order
// of their characters.

/// Whether `a` sorts strictly before `b`.
pub open spec fn lex_lt(a: Seq<char>, b: Seq<char>) -> bool
    decreases a.len(),
{
    if a.len() == 0 {
        b.len() > 0
    } else if b.len() == 0 {
        false
    } else if a[0] < b[0] {
        true
    } else if a[0] == b[0] {
        lex_lt(a.drop_first(), b.drop_first())
    } else {
        false
    }
}

pub proof fn lemma_lex_irreflexive(a: Seq<char>)
    ensures
        !lex_lt(a, a),
    decreases a.len(),
{
    if a.len() > 0 {
        lemma_lex_irreflexive(a.drop_first());
    }
}

pub proof fn lemma_lex_transitive(a: Seq<char>, b: Seq<char>, c: Seq<char>)
    requires
        lex_lt(a, b),
        lex_lt(b, c),
    ensures
        lex_lt(a, c),
    decreases a.len(),
{
    if a.len() > 0 && b.len() > 0 && c.len() > 0 && a[0] == b[0] && b[0] == c[0] {
        lemma_lex_transitive(a.drop_first(), b.drop_first(), c.drop_first());
    }
}

pub proof fn lemma_lex_total(a: Seq<char>, b: Seq<char>)
    ensures
        lex_lt(a, b) || lex_lt(b, a) || a == b,
    decreases a.len(),
{
    if a.len() > 0 && b.len() > 0 && a[0] == b[0] {
        lemma_lex_total(a.drop_first(), b.drop_first());
        if a.drop_first() == b.drop_first() {
            assert(a == seq![a[0]] + a.drop_first());
            assert(b == seq![b[0]] + b.drop_first());
        }
    }
    if a.len() == 0 && b.len() == 0 {
        assert(a == b);
    }
}

pub proof fn lemma_lex_asymmetric(a: Seq<char>, b: Seq<char>)
    requires
        lex_lt(a, b),
    ensures
        !lex_lt(b, a),
{
    if lex_lt(b, a) {
        lemma_lex_transitive(a, b, a);
        lemma_lex_irreflexive(a);
    }
}

/// Whether `a` sorts strictly before `b`.
pub fn lex_less(a: &[char], b: &[char]) -> (r: bool)
    ensures
        r == lex_lt(a@, b@),
{
    let mut i: usize = 0;
    proof {
        assert(a@.subrange(0, a@.len() as int) == a@);
        assert(b@.subrange(0, b@.len() as int) == b@);
    }
    while i < a.len() && i < b.len() && a[i] == b[i]
        invariant
            i <= a@.len(),
            i <= b@.len(),
            lex_lt(a@, b@) == lex_lt(a@.subrange(i as int, a@.len() as int), b@.subrange(i as int, b@.len() as int)),
        decreases a@.len() - i,
    {
        proof {
            let sa = a@.subrange(i as int, a@.len() as int);
            let sb = b@.subrange(i as int, b@.len() as int);
            assert(sa.drop_first() == a@.subrange(i + 1, a@.len() as int));
            assert(sb.drop_first() == b@.subrange(i + 1, b@.len() as int));
        }
        i = i + 1;
    }
    let ghost sa = a@.subrange(i as int, a@.len() as int);
    let ghost sb = b@.subrange(i as int, b@.len() as int);
    if i < a.len() {
        assert(sa[0] == a@[i as int]);
    }
    if i < b.len() {
        assert(sb[0] == b@[i as int]);
    }
    if i == a.len() {
        i < b.len()
    } else if i == b.len() {
        false
    } else {
        a[i] < b[i]
    }
}

/// Whether two character slices are equal.
pub fn chars_eq(a: &[char], b: &[char]) -> (r: bool)
    ensures
        r == (a@ == b@),
{
    if a.len() != b.len() {
        return false;
    }
    let mut i: usize = 0;
    while i < a.len()
        invariant
            i <= a@.len() == b@.len(),
            forall|j: int| 0 <= j < i ==> a@[j] == b@[j],
        decreases a@.len() - i,
    {
        if a[i] != b[i] {
            return false;
        }
        i = i + 1;
    }
    assert(a@ == b@);
    true
}

/// Whether the ids `v` are strictly sorted.
pub open spec fn strictly_sorted(v: Seq<Seq<char>>) -> bool {
    forall|k: int, l: int| 0 <= k < l < v.len() ==> lex_lt(#[trigger] v[k], #[trigger] v[l])
}

proof fn lemma_views_insert(v: Seq<String>, j: int, s: String)
    requires
        0 <= j <= v.len(),
    ensures
        views(v.insert(j, s)) == views(v).insert(j, s@),
{
    assert(views(v.insert(j, s)) =~= views(v).insert(j, s@));
}

/// The distinct ids among `ids`, in sorted order.
pub fn sorted_distinct(ids: &Vec<String>) -> (r: Vec<String>)
    ensures
        strictly_sorted(views(r@)),
        forall|x: Seq<char>| views(r@).contains(x) <==> views(ids@).contains(x),
{
    let mut out: Vec<String> = Vec::new();
    let mut i: usize = 0;
    while i < ids.len()
        invariant
            i <= ids@.len(),
            strictly_sorted(views(out@)),
            forall|x: Seq<char>| views(out@).contains(x) <==> views(ids@.subrange(0, i as int)).contains(x),
        decreases ids@.len() - i,
    {
        let c = str_chars(ids[i].as_str());
        let ghost vo = views(out@);
        let mut j: usize = 0;
        let mut found = false;
        let mut stop = false;
        while j < out.len() && !stop
            invariant
                j <= out@.len(),
                vo == views(out@),
                c@ == ids@[i as int]@,
                strictly_sorted(vo),
                forall|q: int| 0 <= q < j ==> lex_lt(#[trigger] vo[q], c@),
                stop ==> j < vo.len() && !lex_lt(vo[j as int], c@) && found == (vo[j as int] == c@),
                !stop ==> !found,
            decreases out@.len() - j + (if stop { 0int } else { 1int }),
        {
            let o = str_chars(out[j].as_str());
            assert(o@ == vo[j as int]);
            if !lex_less(o.as_slice(), c.as_slice()) {
                found = chars_eq(o.as_slice(), c.as_slice());
                stop = true;
            } else {
                j = j + 1;
            }
        }
        let ghost before = views(ids@.subrange(0, i as int));
        let ghost after = views(ids@.subrange(0, i + 1));
        assert(after == before.push(c@)) by {
            assert(ids@.subrange(0, i + 1) == ids@.subrange(0, i as int).push(ids@[i as int]));
        }
        if found {
            assert(vo[j as int] == c@);
            assert forall|x: Seq<char>| vo.contains(x) <==> after.contains(x) by {
                if after.contains(x) && !before.contains(x) {
                    assert(x == c@);
                    assert(vo.contains(vo[j as int]));
                }
                if before.contains(x) {
                    let k = choose|k: int| 0 <= k < before.len() && before[k] == x;
                    assert(after[k] == x);
                }
            }
        } else {
            // `c` sorts after every id before `j` and before every id from `j` on.
            proof {
                if j < vo.len() {
                    lemma_lex_total(vo[j as int], c@);
                }
                assert forall|q: int| j <= q < vo.len() implies lex_lt(c@, #[trigger] vo[q]) by {
                    if q > j {
                        lemma_lex_transitive(c@, vo[j as int], vo[q]);
                    }
                }
                assert forall|q: int| 0 <= q < vo.len() implies vo[q] != c@ by {
                    if q < j {
                        lemma_lex_irreflexive(c@);
                    } else {
                        lemma_lex_irreflexive(c@);
                    }
                }
            }
            let ghost s = ids@[i as int];
            let ghost out0 = out@;
            out.insert(j, ids[i].clone());
            proof {
                lemma_views_insert(out0, j as int, s);
                let nv = vo.insert(j as int, c@);
                assert(views(out@) == nv);
                assert forall|k: int, l: int| 0 <= k < l < nv.len() implies lex_lt(#[trigger] nv[k], #[trigger] nv[l]) by {
                    if l < j {
                        assert(nv[k] == vo[k] && nv[l] == vo[l]);
                    } else if l == j {
                        assert(nv[k] == vo[k]);
                    } else if k < j {
                        assert(nv[k] == vo[k] && nv[l] == vo[l - 1]);
                        lemma_lex_transitive(vo[k], c@, vo[l - 1]);
                    } else if k == j {
                        assert(nv[l] == vo[l - 1]);
                    } else {
                        assert(nv[k] == vo[k - 1] && nv[l] == vo[l - 1]);
                    }
                }
                assert forall|x: Seq<char>| nv.contains(x) <==> after.contains(x) by {
                    if nv.contains(x) {
                        let k = choose|k: int| 0 <= k < nv.len() && nv[k] == x;
                        if k < j {
                            assert(vo[k] == x);
                            assert(vo.contains(x));
                        } else if k > j {
                            assert(vo[k - 1] == x);
                            assert(vo.contains(x));
                        }
                        if x != c@ {
                            let m = choose|m: int| 0 <= m < before.len() && before[m] == x;
                            assert(after[m] == x);
                        } else {
                            assert(after[before.len() as int] == x);
                        }
                    }
                    if after.contains(x) {
                        let k = choose|k: int| 0 <= k < after.len() && after[k] == x;
                        if k < before.len() {
                            assert(before[k] == x);
                            assert(before.contains(x));
                            assert(vo.contains(x));
                            let m = choose|m: int| 0 <= m < vo.len() && vo[m] == x;
                            if m < j {
                                assert(nv[m] == x);
                            } else {
                                assert(nv[m + 1] == x);
                            }
                        } else {
                            assert(nv[j as int] == x);
                        }
                    }
                }
            }
        }
        i = i + 1;
    }
    assert(ids@.subrange(0, ids@.len() as int) == ids@);
    out
}

// ---------------------------------------------------------------------------------------------
// The bundler's model.

/// The scope segment of a unit id: everything before its first `/`.
pub open spec fn prefix_of(id: Seq<char>) -> Seq<char>
    decreases id.len(),
{
    if id.len() == 0 || id[0] == '/' {
        seq![]
    } else {
        seq![id[0]] + prefix_of(id.drop_first())
    }
}

/// The index of the first scope whose prefix is `p`, searching from `i`.
pub open spec fn scope_from(scopes: Seq<RuntimeScope>, p: Seq<char>, i: int) -> Option<int>
    decreases scopes.len() - i,
{
    if i < 0 || i >= scopes.len() {
        None
    } else if scopes[i].prefix@ == p {
        Some(i)
    } else {
        scope_from(scopes, p, i + 1)
    }
}

/// A scope found from `i` lies at `i` or after, within `scopes`.
pub proof fn lemma_scope_from_bound(scopes: Seq<RuntimeScope>, p: Seq<char>, i: int)
    ensures
        scope_from(scopes, p, i) matches Some(s) ==> 0 <= i <= s < scopes.len(),
    decreases scopes.len() - i,
{
    if 0 <= i < scopes.len() && scopes[i].prefix@ != p {
        lemma_scope_from_bound(scopes, p, i + 1);
    }
}

/// The prelude of a scope, as characters.
pub open spec fn prelude_of(s: RuntimeScope) -> Option<Seq<char>> {
    match s.prelude {
        Some(p) => Some(p@),
        None => None,
    }
}

/// The ids of a list of strings, as characters.
pub open spec fn views(v: Seq<String>) -> Seq<Seq<char>> {
    v.map_values(|s: String| s@)
}

/// The ids of a list of units.
pub open spec fn unit_ids(us: Seq<RuntimeUnit>) -> Seq<Seq<char>> {
    us.map_values(|u: RuntimeUnit| u.id@)
}

/// The elements of a sequence, as a set.
pub open spec fn set_of(v: Seq<Seq<char>>) -> Set<Seq<char>> {
    Set::new(|x: Seq<char>| v.contains(x))
}

impl RuntimeBundler {
    /// The unit ids, in order.
    pub closed spec fn ids(&self) -> Seq<Seq<char>> {
        unit_ids(self.units@)
    }

    /// The ids are those of the units, in order.
    pub proof fn lemma_ids_of_units(&self)
        ensures
            self.ids() == unit_ids(self.units_spec()),
    {
    }

    /// The declared scopes.
    pub closed spec fn scopes_spec(&self) -> Seq<RuntimeScope> {
        self.scopes@
    }

    /// The units.
    pub closed spec fn units_spec(&self) -> Seq<RuntimeUnit> {
        self.units@
    }

    pub closed spec fn indent_spec(&self) -> Seq<char> {
        self.indent_str@
    }

    pub closed spec fn unit_indent_spec(&self) -> nat {
        self.unit_indent as nat
    }

    /// Whether `id` names a unit.
    pub open spec fn known(&self, id: Seq<char>) -> bool {
        self.ids().contains(id)
    }

    /// The scope of the unit `id`, by its prefix.
    pub open spec fn scope_of_spec(&self, id: Seq<char>) -> Option<int> {
        scope_from(self.scopes_spec(), prefix_of(id), 0)
    }

    /// What unit `i` pulls into a closure: its declared requirements and its scope's prelude.
    pub open spec fn deps(&self, i: int) -> Set<Seq<char>> {
        let u = self.units_spec()[i];
        let reqs = set_of(views(u.requires@));
        match self.scope_of_spec(u.id@) {
            Some(s) => match prelude_of(self.scopes_spec()[s]) {
                Some(p) => reqs.insert(p),
                None => reqs,
            },
            None => reqs,
        }
    }

    /// Whether `t` holds the dependencies of every unit it holds.
    pub open spec fn closed_set(&self, t: Set<Seq<char>>) -> bool {
        forall|i: int| 0 <= i < self.ids().len() && #[trigger] t.contains(self.ids()[i]) ==> self.deps(i).subset_of(t)
    }

    /// The ids a closure starts from: the seeds, plus the root scope's prelude.
    pub open spec fn roots(&self, seeds: Seq<Seq<char>>) -> Set<Seq<char>> {
        let s = set_of(seeds);
        if self.scopes_spec().len() > 0 {
            match prelude_of(self.scopes_spec()[0]) {
                Some(p) => s.insert(p),
                None => s,
            }
        } else {
            s
        }
    }

    /// Whether `id` belongs to the dependency closure of `seeds`: to every set that holds the
    /// roots and the dependencies of each unit it holds.
    pub open spec fn in_closure(&self, seeds: Seq<Seq<char>>, id: Seq<char>) -> bool {
        forall|t: Set<Seq<char>>| #[trigger] self.closed_set(t) && self.roots(seeds).subset_of(t) ==> t.contains(id)
    }

    /// The bundler's invariant: ids strictly sorted, every requirement names a unit, every unit
    /// lies in a declared scope.
    pub open spec fn wf(&self) -> bool {
        &&& forall|i: int, j: int| 0 <= i < j < self.ids().len() ==> lex_lt(#[trigger] self.ids()[i], #[trigger] self.ids()[j])
        &&& forall|i: int| 0 <= i < self.ids().len() ==> (#[trigger] self.scope_of_spec(self.ids()[i])) is Some
        &&& forall|i: int, k: int| 0 <= i < self.ids().len() && 0 <= k < self.units_spec()[i].requires@.len()
            ==> self.known(#[trigger] self.units_spec()[i].requires@[k]@)
    }
}

/// The number of `false` entries.
pub open spec fn count_false(m: Seq<bool>) -> nat
    decreases m.len(),
{
    if m.len() == 0 {
        0
    } else {
        (if m.last() { 0nat } else { 1nat }) + count_false(m.drop_last())
    }
}

proof fn lemma_count_false_update(m: Seq<bool>, i: int)
    requires
        0 <= i < m.len(),
        !m[i],
    ensures
        count_false(m.update(i, true)) < count_false(m),
    decreases m.len(),
{
    let u = m.update(i, true);
    if i == m.len() - 1 {
        assert(u.drop_last() == m.drop_last());
    } else {
        assert(u.drop_last() == m.drop_last().update(i, true));
        lemma_count_false_update(m.drop_last(), i);
    }
}

/// The characters before the first `/` of `id`.
pub fn prefix_chars(id: &[char]) -> (r: Vec<char>)
    ensures
        r@ == prefix_of(id@),
{
    let mut out: Vec<char> = Vec::new();
    let mut i: usize = 0;
    proof {
        assert(id@.subrange(0, id@.len() as int) == id@);
    }
    while i < id.len() && id[i] != '/'
        invariant
            i <= id@.len(),
            out@ == id@.subrange(0, i as int),
            prefix_of(id@) == out@ + prefix_of(id@.subrange(i as int, id@.len() as int)),
        decreases id@.len() - i,
    {
        proof {
            let rest = id@.subrange(i as int, id@.len() as int);
            assert(rest[0] == id@[i as int]);
            assert(rest.drop_first() == id@.subrange(i + 1, id@.len() as int));
            assert(out@.push(id@[i as int]) == out@ + seq![rest[0]]);
        }
        out.push(id[i]);
        i = i + 1;
    }
    proof {
        let rest = id@.subrange(i as int, id@.len() as int);
        if i < id.len() {
            assert(rest[0] == id@[i as int]);
        }
        assert(prefix_of(rest) == Seq::<char>::empty());
    }
    out
}

impl RuntimeBundler {
    /// The index of the unit named `id`.
    fn find(&self, id: &[char]) -> (r: Option<usize>)
        ensures
            match r {
                Some(i) => i < self.ids().len() && self.ids()[i as int] == id@,
                None => !self.known(id@),
            },
    {
        let mut i: usize = 0;
        while i < self.units.len()
            invariant
                i <= self.units@.len(),
                self.ids().len() == self.units@.len(),
                forall|j: int| 0 <= j < i ==> self.ids()[j] != id@,
            decreases self.units@.len() - i,
        {
            let c = str_chars(self.units[i].id.as_str());
            if chars_eq(c.as_slice(), id) {
                return Some(i);
            }
            i = i + 1;
        }
        None
    }

    /// The index of the first scope whose prefix is `p`.
    fn scope_index(&self, p: &[char]) -> (r: Option<usize>)
        ensures
            match r {
                Some(i) => scope_from(self.scopes_spec(), p@, 0) == Some(i as int) && i < self.scopes_spec().len(),
                None => scope_from(self.scopes_spec(), p@, 0) is None,
            },
    {
        let mut i: usize = 0;
        while i < self.scopes.len()
            invariant
                i <= self.scopes@.len(),
                scope_from(self.scopes_spec(), p@, 0) == scope_from(self.scopes_spec(), p@, i as int),
            decreases self.scopes@.len() - i,
        {
            let c = str_chars(self.scopes[i].prefix);
            if chars_eq(c.as_slice(), p) {
                return Some(i);
            }
            i = i + 1;
        }
        None
    }

    /// The scope the unit `id` lives in, by its prefix; an error naming the prefix when no
    /// scope declares it.
    pub fn scope_of(&self, id: &str) -> (r: Result<usize, BackendError>)
        ensures
            match r {
                Ok(i) => self.scope_of_spec(id@) == Some(i as int),
                Err(BackendError::UnknownScope { unit, prefix }) => self.scope_of_spec(id@) is None
                    && unit@ == id@ && prefix@ == prefix_of(id@),
                Err(_) => false,
            },
    {
        let cs = str_chars(id);
        let p = prefix_chars(cs.as_slice());
        match self.scope_index(p.as_slice()) {
            Some(i) => Ok(i),
            None => {
                let mut unit = String::new();
                push_str(&mut unit, id);
                Err(BackendError::UnknownScope { unit, prefix: from_chars(p.as_slice()) })
            },
        }
    }

    /// Whether a unit named `id` exists.
    pub fn has_unit(&self, id: &str) -> (r: bool)
        ensures
            r == self.known(id@),
    {
        let c = str_chars(id);
        self.find(c.as_slice()).is_some()
    }

    /// The units, sorted by id.
    pub fn units(&self) -> (r: &[RuntimeUnit])
        ensures
            r@ == self.units_spec(),
    {
        self.units.as_slice()
    }

    /// The dependency closure of `seeds`, including scope preludes and the root scope's
    /// prelude: the ids, sorted, of every unit the closure holds; an error naming an id the
    /// closure reaches that names no unit.
    pub fn closure(&self, seeds: &[String]) -> (r: Result<Vec<String>, BackendError>)
        requires
            self.wf(),
        ensures
            match r {
                Ok(v) => {
                    &&& forall|id: Seq<char>| #[trigger] views(v@).contains(id) <==> self.in_closure(views(seeds@), id)
                    &&& forall|k: int, l: int| 0 <= k < l < v@.len() ==> lex_lt(#[trigger] v@[k]@, #[trigger] v@[l]@)
                    &&& forall|k: int| 0 <= k < v@.len() ==> self.known(#[trigger] v@[k]@)
                },
                Err(BackendError::UnknownUnit { id }) => !self.known(id@) && self.in_closure(views(seeds@), id@),
                Err(_) => false,
            },
    {
        let n = self.units.len();
        let ghost sv = views(seeds@);
        let ghost ids = self.ids();
        let mut mask: Vec<bool> = Vec::new();
        while mask.len() < n
            invariant
                mask@.len() <= n,
                forall|i: int| 0 <= i < mask@.len() ==> !mask@[i],
            decreases n - mask@.len(),
        {
            mask.push(false);
        }
        let mut queue: Vec<Vec<char>> = Vec::new();
        let mut k: usize = 0;
        while k < seeds.len()
            invariant
                k <= seeds@.len(),
                queue@.len() == k,
                forall|j: int| 0 <= j < k ==> #[trigger] queue@[j]@ == seeds@[j]@,
            decreases seeds@.len() - k,
        {
            queue.push(str_chars(seeds[k].as_str()));
            k = k + 1;
        }
        if self.scopes.len() > 0 {
            match self.scopes[0].prelude {
                Some(p) => {
                    queue.push(str_chars(p));
                },
                None => {},
            }
        }
        let ghost mut s: Set<Seq<char>> = Set::empty();
        proof {
            assert forall|t: Set<Seq<char>>, j: int| #[trigger] self.closed_set(t) && self.roots(sv).subset_of(t)
                && 0 <= j < queue@.len() implies t.contains(#[trigger] queue@[j]@) by {
                if j < seeds@.len() {
                    assert(sv[j] == seeds@[j]@);
                    assert(sv.contains(queue@[j]@));
                }
            }
            assert forall|x: Seq<char>| #[trigger] self.roots(sv).contains(x) implies s.contains(x) || exists|j: int|
                0 <= j < queue@.len() && queue@[j]@ == x by {
                if sv.contains(x) {
                    let j = choose|j: int| 0 <= j < sv.len() && sv[j] == x;
                    assert(queue@[j]@ == x);
                } else {
                    assert(queue@[queue@.len() - 1]@ == x);
                }
            }
        }
        let mut head: usize = 0;
        while head < queue.len()
            invariant
                self.wf(),
                n == self.units@.len() == ids.len(),
                ids == self.ids(),
                sv == views(seeds@),
                mask@.len() == n,
                head <= queue@.len(),
                forall|i: int| 0 <= i < n ==> (mask@[i] <==> s.contains(#[trigger] ids[i])),
                forall|x: Seq<char>| #[trigger] s.contains(x) ==> self.known(x),
                forall|i: int, d: Seq<char>| 0 <= i < n && mask@[i] && #[trigger] self.deps(i).contains(d) ==> s.contains(d)
                    || exists|j: int| head <= j < queue@.len() && #[trigger] queue@[j]@ == d,
                forall|x: Seq<char>| #[trigger] self.roots(sv).contains(x) ==> s.contains(x) || exists|j: int|
                    head <= j < queue@.len() && #[trigger] queue@[j]@ == x,
                forall|t: Set<Seq<char>>, j: int| #[trigger] self.closed_set(t) && self.roots(sv).subset_of(t)
                    && 0 <= j < queue@.len() ==> t.contains(#[trigger] queue@[j]@),
                forall|t: Set<Seq<char>>, x: Seq<char>| #[trigger] self.closed_set(t) && self.roots(sv).subset_of(t)
                    && #[trigger] s.contains(x) ==> t.contains(x),
            decreases count_false(mask@), queue@.len() - head,
        {
            let ghost x = queue@[head as int]@;
            let idx = match self.find(queue[head].as_slice()) {
                Some(i) => i,
                None => {
                    let id = from_chars(queue[head].as_slice());
                    proof {
                        assert forall|t: Set<Seq<char>>| #[trigger] self.closed_set(t) && self.roots(sv).subset_of(t)
                            implies t.contains(x) by {
                            assert(t.contains(queue@[head as int]@));
                        }
                    }
                    return Err(BackendError::UnknownUnit { id });
                },
            };
            let ghost old_queue = queue@;
            let ghost old_s = s;
            let ghost old_mask = mask@;
            head = head + 1;
            if mask[idx] {
                proof {
                    assert(s.contains(x));
                    assert forall|i: int, d: Seq<char>| 0 <= i < n && mask@[i] && #[trigger] self.deps(i).contains(d)
                        implies s.contains(d) || exists|j: int| head <= j < queue@.len() && #[trigger] queue@[j]@ == d by {
                        if !s.contains(d) {
                            let j = choose|j: int| head - 1 <= j < queue@.len() && #[trigger] queue@[j]@ == d;
                            assert(j != head - 1);
                        }
                    }
                    assert forall|y: Seq<char>| #[trigger] self.roots(sv).contains(y) implies s.contains(y) || exists|j: int|
                        head <= j < queue@.len() && #[trigger] queue@[j]@ == y by {
                        if !s.contains(y) {
                            let j = choose|j: int| head - 1 <= j < queue@.len() && #[trigger] queue@[j]@ == y;
                            assert(j != head - 1);
                        }
                    }
                }
                continue;
            }
            proof {
                lemma_count_false_update(mask@, idx as int);
                assert forall|t: Set<Seq<char>>| #[trigger] self.closed_set(t) && self.roots(sv).subset_of(t)
                    implies t.contains(x) by {
                    assert(t.contains(old_queue[head - 1]@));
                }
            }
            mask.set(idx, true);
            proof {
                s = s.insert(x);
                assert forall|i: int| 0 <= i < n implies (mask@[i] <==> s.contains(#[trigger] ids[i])) by {
                    if i != idx {
                        if ids[i] == x {
                            if i < idx {
                                lemma_lex_irreflexive(x);
                                assert(lex_lt(ids[i], ids[idx as int]));
                            } else {
                                lemma_lex_irreflexive(x);
                                assert(lex_lt(ids[idx as int], ids[i]));
                            }
                        }
                    }
                }
            }
            let u = &self.units[idx];
            let ghost qmark = queue@.len();
            let mut k: usize = 0;
            while k < u.requires.len()
                invariant
                    k <= u.requires@.len(),
                    queue@.len() == qmark + k,
                    qmark == old_queue.len(),
                    forall|j: int| 0 <= j < qmark ==> queue@[j] == old_queue[j],
                    forall|j: int| 0 <= j < k ==> #[trigger] queue@[qmark + j]@ == u.requires@[j]@,
                decreases u.requires@.len() - k,
            {
                queue.push(str_chars(u.requires[k].as_str()));
                k = k + 1;
            }
            let ghost qmark2 = queue@.len();
            let ghost q2 = queue@;
            let id_chars = str_chars(u.id.as_str());
            let pfx = prefix_chars(id_chars.as_slice());
            match self.scope_index(pfx.as_slice()) {
                Some(si) => match self.scopes[si].prelude {
                    Some(p) => {
                        queue.push(str_chars(p));
                    },
                    None => {},
                },
                None => {},
            }
            proof {
                let reqs = views(u.requires@);
                // Every dependency of the new unit is now queued.
                assert forall|d: Seq<char>| #[trigger] self.deps(idx as int).contains(d) implies exists|j: int|
                    head <= j < queue@.len() && #[trigger] queue@[j]@ == d by {
                    if set_of(reqs).contains(d) {
                        let kk = choose|kk: int| 0 <= kk < reqs.len() && reqs[kk] == d;
                        assert(q2[qmark + kk]@ == u.requires@[kk]@);
                        assert(queue@[qmark + kk] == q2[qmark + kk]);
                        assert(queue@[qmark + kk]@ == d);
                    } else {
                        assert(queue@[qmark2 as int]@ == d);
                    }
                }
                assert forall|i: int, d: Seq<char>| 0 <= i < n && mask@[i] && #[trigger] self.deps(i).contains(d)
                    implies s.contains(d) || exists|j: int| head <= j < queue@.len() && #[trigger] queue@[j]@ == d by {
                    if i != idx && !s.contains(d) {
                        assert(old_mask[i]);
                        let j = choose|j: int| head - 1 <= j < old_queue.len() && #[trigger] old_queue[j]@ == d;
                        assert(j != head - 1);
                        assert(queue@[j] == old_queue[j]);
                    }
                }
                assert forall|y: Seq<char>| #[trigger] self.roots(sv).contains(y) implies s.contains(y) || exists|j: int|
                    head <= j < queue@.len() && #[trigger] queue@[j]@ == y by {
                    if !s.contains(y) {
                        let j = choose|j: int| head - 1 <= j < old_queue.len() && #[trigger] old_queue[j]@ == y;
                        assert(j != head - 1);
                        assert(queue@[j] == old_queue[j]);
                    }
                }
                assert forall|t: Set<Seq<char>>, j: int| #[trigger] self.closed_set(t) && self.roots(sv).subset_of(t)
                    && 0 <= j < queue@.len() implies t.contains(#[trigger] queue@[j]@) by {
                    if j < qmark {
                        assert(queue@[j] == old_queue[j]);
                        assert(t.contains(old_queue[j]@));
                    } else {
                        assert(t.contains(ids[idx as int]));
                        assert(self.deps(idx as int).subset_of(t));
                        if j < qmark2 {
                            let jj = j - qmark;
                            assert(q2[qmark + jj]@ == u.requires@[jj]@);
                            assert(queue@[j] == q2[j]);
                            assert(reqs[j - qmark] == queue@[j]@);
                            assert(set_of(reqs).contains(queue@[j]@));
                        }
                        assert(self.deps(idx as int).contains(queue@[j]@));
                    }
                }
            }
        }
        // The masked units, in id order.
        let mut out: Vec<String> = Vec::new();
        let ghost mut pos: Seq<int> = Seq::empty();
        let mut i: usize = 0;
        while i < n
            invariant
                self.wf(),
                n == self.units@.len() == ids.len(),
                ids == self.ids(),
                i <= n,
                mask@.len() == n,
                forall|j: int| 0 <= j < n ==> (mask@[j] <==> s.contains(#[trigger] ids[j])),
                forall|x: Seq<char>| #[trigger] s.contains(x) ==> self.known(x),
                pos.len() == out@.len(),
                forall|k: int| 0 <= k < out@.len() ==> 0 <= #[trigger] pos[k] < i && ids[pos[k]] == out@[k]@
                    && mask@[pos[k]],
                forall|k: int, l: int| 0 <= k < l < out@.len() ==> #[trigger] pos[k] < #[trigger] pos[l],
                forall|j: int| 0 <= j < i && mask@[j] ==> #[trigger] views(out@).contains(ids[j]),
            decreases n - i,
        {
            if mask[i] {
                let ghost before = out@;
                let ghost before_pos = pos;
                out.push(self.units[i].id.clone());
                proof {
                    pos = pos.push(i as int);
                    assert forall|j: int| 0 <= j < i + 1 && mask@[j] implies #[trigger] views(out@).contains(ids[j]) by {
                        if j == i {
                            assert(views(out@)[before.len() as int] == ids[j]);
                        } else {
                            assert(views(before).contains(ids[j]));
                            let kk = choose|kk: int| 0 <= kk < views(before).len() && views(before)[kk] == ids[j];
                            assert(views(out@)[kk] == ids[j]);
                        }
                    }
                }
            }
            i = i + 1;
        }
        proof {
            assert forall|k: int, l: int| 0 <= k < l < out@.len() implies lex_lt(#[trigger] out@[k]@, #[trigger] out@[l]@) by {
                assert(pos[k] < pos[l]);
                assert(lex_lt(ids[pos[k]], ids[pos[l]]));
            }
            assert forall|k: int| 0 <= k < out@.len() implies self.known(#[trigger] out@[k]@) by {
                assert(ids[pos[k]] == out@[k]@);
            }
        }
        proof {
            // The masked set is closed and holds the roots, so it holds the whole closure; every
            // element of it lies in every closed superset of the roots.
            assert(self.closed_set(s)) by {
                assert forall|i: int| 0 <= i < ids.len() && #[trigger] s.contains(ids[i]) implies self.deps(i).subset_of(s) by {
                    assert forall|d: Seq<char>| self.deps(i).contains(d) implies s.contains(d) by {
                        assert(mask@[i]);
                    }
                }
            }
            assert(self.roots(sv).subset_of(s));
            assert forall|id: Seq<char>| #[trigger] views(out@).contains(id) <==> self.in_closure(sv, id) by {
                if views(out@).contains(id) {
                    let kk = choose|kk: int| 0 <= kk < views(out@).len() && views(out@)[kk] == id;
                    assert(ids[pos[kk]] == out@[kk]@);
                    assert(s.contains(out@[kk]@));
                }
                if self.in_closure(sv, id) {
                    assert(s.contains(id));
                    assert(self.known(id));
                    let j = choose|j: int| 0 <= j < ids.len() && ids[j] == id;
                    assert(mask@[j]);
                }
            }
        }
        Ok(out)
    }
}

// ---------------------------------------------------------------------------------------------
// Emission.

/// `s` repeated `k` times.
pub open spec fn repeat(s: Seq<char>, k: nat) -> Seq<char>
    decreases k,
{
    if k == 0 {
        seq![]
    } else {
        repeat(s, (k - 1) as nat) + s
    }
}

/// The number of leading `' '` characters of `s`.
pub open spec fn lead_spaces(s: Seq<char>) -> nat
    decreases s.len(),
{
    if s.len() > 0 && s[0] == ' ' {
        1 + lead_spaces(s.drop_first())
    } else {
        0
    }
}

/// The concatenation of a sequence of texts.
pub open spec fn concat(parts: Seq<Seq<char>>) -> Seq<char>
    decreases parts.len(),
{
    if parts.len() == 0 {
        seq![]
    } else {
        concat(parts.drop_last()) + parts.last()
    }
}

/// The ids of `cl` whose scope segment is `pfx`, in order.
pub open spec fn members_of(cl: Seq<Seq<char>>, pfx: Seq<char>) -> Seq<Seq<char>>
    decreases cl.len(),
{
    if cl.len() == 0 {
        seq![]
    } else {
        let m = members_of(cl.drop_last(), pfx);
        if prefix_of(cl.last()) == pfx {
            m.push(cl.last())
        } else {
            m
        }
    }
}

/// `s` without the occurrences of `p`, in order.
pub open spec fn without(s: Seq<Seq<char>>, p: Seq<char>) -> Seq<Seq<char>>
    decreases s.len(),
{
    if s.len() == 0 {
        seq![]
    } else {
        let m = without(s.drop_last(), p);
        if s.last() != p {
            m.push(s.last())
        } else {
            m
        }
    }
}

/// A scope's units in emission order: the prelude first, then the rest in sorted order.
pub open spec fn scope_members(cl: Seq<Seq<char>>, scope: RuntimeScope) -> Seq<Seq<char>> {
    let members = members_of(cl, scope.prefix@);
    match prelude_of(scope) {
        Some(p) => if members.contains(p) {
            seq![p] + without(members, p)
        } else {
            members
        },
        None => members,
    }
}

/// Whether `cl` is the sorted dependency closure of `seeds`.
pub open spec fn is_sorted_closure(b: RuntimeBundler, seeds: Seq<Seq<char>>, cl: Seq<Seq<char>>) -> bool {
    &&& forall|id: Seq<char>| #[trigger] cl.contains(id) <==> b.in_closure(seeds, id)
    &&& forall|k: int, l: int| 0 <= k < l < cl.len() ==> lex_lt(#[trigger] cl[k], #[trigger] cl[l])
    &&& forall|k: int| 0 <= k < cl.len() ==> b.known(#[trigger] cl[k])
}

impl RuntimeBundler {
    /// One emitted line at `indent` levels: a blank line stays empty; otherwise each whole run
    /// of `unit_indent` leading spaces becomes one more indent level, and the spaces beyond the
    /// last whole run are kept.
    pub open spec fn line_spec(&self, indent: nat, line: Seq<char>) -> Seq<char> {
        if is_blank(line) {
            seq!['\n']
        } else if self.unit_indent_spec() == 0 {
            repeat(self.indent_spec(), indent) + line + seq!['\n']
        } else {
            let lead = lead_spaces(line);
            let w = self.unit_indent_spec();
            repeat(self.indent_spec(), indent + lead / w) + repeat(seq![' '], lead % w)
                + line.subrange(lead as int, line.len() as int) + seq!['\n']
        }
    }

    /// The lines `lines`, each emitted at `indent` levels.
    pub open spec fn lines_text(&self, indent: nat, lines: Seq<Seq<char>>) -> Seq<char>
        decreases lines.len(),
    {
        if lines.len() == 0 {
            seq![]
        } else {
            self.lines_text(indent, lines.drop_last()) + self.line_spec(indent, lines.last())
        }
    }

    /// The body of the unit `id`.
    pub open spec fn body_of(&self, id: Seq<char>) -> Seq<char> {
        self.units_spec()[choose|i: int| 0 <= i < self.ids().len() && self.ids()[i] == id].body@
    }

    /// The units `ids`, each body's lines at `indent`, separated by blank lines; `first` tells
    /// whether the first one needs no separator.
    pub open spec fn units_text(&self, indent: nat, ids: Seq<Seq<char>>, first: bool) -> Seq<char>
        decreases ids.len(),
    {
        if ids.len() == 0 {
            seq![]
        } else {
            let prev = self.units_text(indent, ids.drop_last(), first);
            let sep = if ids.len() == 1 && first { seq![] } else { seq!['\n'] };
            prev + sep + self.lines_text(indent, lines_spec(self.body_of(ids.last())))
        }
    }

    /// `out` followed by scope `k`'s part of the bundle of the sorted closure `cl`.
    pub open spec fn scope_text(&self, cl: Seq<Seq<char>>, base: nat, k: int, out: Seq<char>) -> Seq<char> {
        let scope = self.scopes_spec()[k];
        let ids = scope_members(cl, scope);
        if ids.len() == 0 {
            out
        } else {
            let opened = scope.open@.len() > 0;
            let body_indent = if opened { base + 1 } else { base };
            let head = if opened {
                (if out.len() > 0 { out + seq!['\n'] } else { out }) + self.line_spec(base, scope.open@)
            } else {
                out
            };
            let first = !opened && out.len() == 0;
            let with_units = head + self.units_text(body_indent, ids, first);
            if scope.close@.len() > 0 {
                with_units + self.line_spec(base, scope.close@)
            } else {
                with_units
            }
        }
    }

    /// The bundle of the sorted closure `cl`, scopes `0..k` of it.
    pub open spec fn bundle_upto(&self, cl: Seq<Seq<char>>, base: nat, k: int) -> Seq<char>
        decreases k,
    {
        if k <= 0 {
            seq![]
        } else {
            self.scope_text(cl, base, k - 1, self.bundle_upto(cl, base, k - 1))
        }
    }

    /// The bundle of the sorted closure `cl`, every scope in declaration order.
    pub open spec fn bundle_text(&self, cl: Seq<Seq<char>>, base: nat) -> Seq<char> {
        self.bundle_upto(cl, base, self.scopes_spec().len() as int)
    }

    fn push_repeat(out: &mut String, s: &str, k: u128)
        ensures
            final(out)@ == old(out)@ + repeat(s@, k as nat),
    {
        let ghost start = out@;
        let mut i: u128 = 0;
        while i < k
            invariant
                i <= k,
                out@ == start + repeat(s@, i as nat),
            decreases k - i,
        {
            push_str(out, s);
            i = i + 1;
            proof {
                assert(repeat(s@, i as nat) == repeat(s@, (i - 1) as nat) + s@);
            }
        }
    }

    /// Emit one line at `indent` levels.
    #[verifier::spinoff_prover]
    fn push_line(&self, out: &mut String, indent: u128, line: &[char])
        requires
            indent <= 0x1_0000_0000_0000_0000,
        ensures
            final(out)@ == old(out)@ + self.line_spec(indent as nat, line@),
    {
        if blank_chars(line) {
            push_char(out, '\n');
            return;
        }
        let ghost start = out@;
        let mut lead: usize = 0;
        if self.unit_indent != 0 {
            proof {
                assert(line@.subrange(0, line@.len() as int) == line@);
            }
            while lead < line.len() && line[lead] == ' '
                invariant
                    lead <= line@.len(),
                    lead_spaces(line@) == lead + lead_spaces(line@.subrange(lead as int, line@.len() as int)),
                decreases line@.len() - lead,
            {
                proof {
                    let r = line@.subrange(lead as int, line@.len() as int);
                    assert(r.drop_first() == line@.subrange(lead + 1, line@.len() as int));
                }
                lead = lead + 1;
            }
            proof {
                let r = line@.subrange(lead as int, line@.len() as int);
                if lead < line.len() {
                    assert(r[0] == line@[lead as int]);
                }
            }
            let levels = lead / self.unit_indent;
            let spaces = lead % self.unit_indent;
            Self::push_repeat(out, self.indent_str, indent + levels as u128);
            Self::push_repeat(out, " ", spaces as u128);
        } else {
            Self::push_repeat(out, self.indent_str, indent);
        }
        let ghost mid = out@;
        let mut i = lead;
        while i < line.len()
            invariant
                lead <= i <= line@.len(),
                out@ == mid + line@.subrange(lead as int, i as int),
            decreases line@.len() - i,
        {
            push_char(out, line[i]);
            i = i + 1;
        }
        push_char(out, '\n');
        proof {
            assert(line@.subrange(0, line@.len() as int) == line@);
            assert(" "@ == seq![' ']) by {
                reveal_strlit(" ");
            }
        }
    }
}

impl RuntimeBundler {
    proof fn lemma_ids_distinct(&self, i: int, j: int)
        requires
            self.wf(),
            0 <= i < self.ids().len(),
            0 <= j < self.ids().len(),
            self.ids()[i] == self.ids()[j],
        ensures
            i == j,
    {
        if i != j {
            lemma_lex_irreflexive(self.ids()[i]);
            if i < j {
                assert(lex_lt(self.ids()[i], self.ids()[j]));
            } else {
                assert(lex_lt(self.ids()[j], self.ids()[i]));
            }
        }
    }

    /// Emit the lines of `body` at `indent` levels.
    fn push_body(&self, out: &mut String, indent: u128, body: &str)
        requires
            indent <= 0x1_0000_0000_0000_0000,
        ensures
            final(out)@ == old(out)@ + self.lines_text(indent as nat, lines_spec(body@)),
    {
        let cs = str_chars(body);
        let ls = lines_of(cs.as_slice());
        let ghost lv = ls@.map_values(|l: Vec<char>| l@);
        let ghost start = out@;
        let mut i: usize = 0;
        while i < ls.len()
            invariant
                indent <= 0x1_0000_0000_0000_0000,
                i <= ls@.len(),
                lv == ls@.map_values(|l: Vec<char>| l@),
                out@ == start + self.lines_text(indent as nat, lv.subrange(0, i as int)),
            decreases ls@.len() - i,
        {
            self.push_line(out, indent, ls[i].as_slice());
            proof {
                let t = lv.subrange(0, i + 1);
                assert(t.drop_last() == lv.subrange(0, i as int));
                assert(t.last() == ls@[i as int]@);
            }
            i = i + 1;
        }
        assert(lv.subrange(0, lv.len() as int) == lv);
    }

    /// Emit the units `ids` at `indent` levels, separated by blank lines.
    fn push_units(&self, out: &mut String, indent: u128, ids: &Vec<Vec<char>>, first: bool)
        requires
            self.wf(),
            indent <= 0x1_0000_0000_0000_0000,
            forall|k: int| 0 <= k < ids@.len() ==> self.known(#[trigger] ids@[k]@),
        ensures
            final(out)@ == old(out)@ + self.units_text(indent as nat, ids@.map_values(|c: Vec<char>| c@), first),
    {
        let ghost iv = ids@.map_values(|c: Vec<char>| c@);
        let ghost start = out@;
        let mut i: usize = 0;
        let mut is_first = first;
        while i < ids.len()
            invariant
                self.wf(),
                indent <= 0x1_0000_0000_0000_0000,
                forall|k: int| 0 <= k < ids@.len() ==> self.known(#[trigger] ids@[k]@),
                i <= ids@.len(),
                iv == ids@.map_values(|c: Vec<char>| c@),
                is_first == (i == 0 && first),
                out@ == start + self.units_text(indent as nat, iv.subrange(0, i as int), first),
            decreases ids@.len() - i,
        {
            let ghost before = out@;
            if !is_first {
                push_char(out, '\n');
            }
            is_first = false;
            let idx = match self.find(ids[i].as_slice()) {
                Some(x) => x,
                None => {
                    assert(self.known(ids@[i as int]@));
                    return;
                },
            };
            proof {
                let w = choose|w: int| 0 <= w < self.ids().len() && self.ids()[w] == ids@[i as int]@;
                self.lemma_ids_distinct(w, idx as int);
                assert(self.body_of(iv[i as int]) == self.units@[idx as int].body@);
            }
            self.push_body(out, indent, self.units[idx].body.as_str());
            proof {
                let t = iv.subrange(0, i + 1);
                assert(t.drop_last() == iv.subrange(0, i as int));
                assert(t.last() == iv[i as int]);
            }
            i = i + 1;
        }
        assert(iv.subrange(0, iv.len() as int) == iv);
    }

    /// Emit scope `k`'s part of the bundle of the sorted closure `cl`.
    fn push_scope(&self, out: &mut String, cl: &[String], base: usize, k: usize)
        requires
            self.wf(),
            k < self.scopes_spec().len(),
            forall|j: int| 0 <= j < cl@.len() ==> self.known(#[trigger] cl@[j]@),
        ensures
            final(out)@ == self.scope_text(views(cl@), base as nat, k as int, old(out)@),
    {
        let ghost cv = views(cl@);
        let scope = &self.scopes[k];
        let pfx = str_chars(scope.prefix);
        // The members of the scope, in sorted order.
        let mut members: Vec<Vec<char>> = Vec::new();
        let mut j: usize = 0;
        while j < cl.len()
            invariant
                j <= cl@.len(),
                cv == views(cl@),
                pfx@ == scope.prefix@,
                members@.map_values(|c: Vec<char>| c@) == members_of(cv.subrange(0, j as int), pfx@),
                forall|m: int| 0 <= m < members@.len() ==> cv.subrange(0, j as int).contains(#[trigger] members@[m]@),
            decreases cl@.len() - j,
        {
            let c = str_chars(cl[j].as_str());
            let p = prefix_chars(c.as_slice());
            let ghost before = members@;
            proof {
                let t = cv.subrange(0, j + 1);
                assert(t.drop_last() == cv.subrange(0, j as int));
                assert(t.last() == cl@[j as int]@);
            }
            if chars_eq(p.as_slice(), pfx.as_slice()) {
                members.push(c);
                proof {
                    assert(members@.map_values(|c: Vec<char>| c@) == before.map_values(|c: Vec<char>| c@).push(cl@[j as int]@));
                    assert forall|m: int| 0 <= m < members@.len() implies cv.subrange(0, j + 1).contains(#[trigger] members@[m]@) by {
                        if m < before.len() {
                            assert(members@[m] == before[m]);
                            let q = choose|q: int| 0 <= q < j && cv.subrange(0, j as int)[q] == before[m]@;
                            assert(cv.subrange(0, j + 1)[q] == before[m]@);
                        } else {
                            assert(cv.subrange(0, j + 1)[j as int] == members@[m]@);
                        }
                    }
                }
            } else {
                proof {
                    assert forall|m: int| 0 <= m < members@.len() implies cv.subrange(0, j + 1).contains(#[trigger] members@[m]@) by {
                        let q = choose|q: int| 0 <= q < j && cv.subrange(0, j as int)[q] == members@[m]@;
                        assert(cv.subrange(0, j + 1)[q] == members@[m]@);
                    }
                }
            }
            j = j + 1;
        }
        proof {
            assert(cv.subrange(0, cv.len() as int) == cv);
        }
        let ghost mv = members@.map_values(|c: Vec<char>| c@);
        // The prelude first, when it is a member.
        let mut order: Vec<Vec<char>> = Vec::new();
        let mut has_prelude = false;
        match scope.prelude {
            Some(p) => {
                let pc = str_chars(p);
                let mut m: usize = 0;
                while m < members.len()
                    invariant
                        m <= members@.len(),
                        mv == members@.map_values(|c: Vec<char>| c@),
                        has_prelude == mv.subrange(0, m as int).contains(pc@),
                    decreases members@.len() - m,
                {
                    proof {
                        let t = mv.subrange(0, m + 1);
                        assert(t.drop_last() == mv.subrange(0, m as int));
                        if t.contains(pc@) && !mv.subrange(0, m as int).contains(pc@) {
                            let q = choose|q: int| 0 <= q < t.len() && t[q] == pc@;
                            assert(q == m);
                        }
                        if mv.subrange(0, m as int).contains(pc@) {
                            let q = choose|q: int| 0 <= q < m && mv.subrange(0, m as int)[q] == pc@;
                            assert(t[q] == pc@);
                        }
                    }
                    if chars_eq(members[m].as_slice(), pc.as_slice()) {
                        has_prelude = true;
                        assert(mv.subrange(0, m + 1)[m as int] == pc@);
                    }
                    m = m + 1;
                }
                proof {
                    assert(mv.subrange(0, mv.len() as int) == mv);
                }
                if has_prelude {
                    order.push(str_chars(p));
                    let mut m2: usize = 0;
                    while m2 < members.len()
                        invariant
                            m2 <= members@.len(),
                            mv == members@.map_values(|c: Vec<char>| c@),
                            order@.map_values(|c: Vec<char>| c@) == seq![pc@] + without(mv.subrange(0, m2 as int), pc@),
                        decreases members@.len() - m2,
                    {
                        let ghost before = order@;
                        proof {
                            let t = mv.subrange(0, m2 + 1);
                            assert(t.drop_last() == mv.subrange(0, m2 as int));
                            assert(t.last() == members@[m2 as int]@);
                        }
                        if !chars_eq(members[m2].as_slice(), pc.as_slice()) {
                            order.push(members[m2].clone());
                            proof {
                                assert(order@.map_values(|c: Vec<char>| c@) == before.map_values(|c: Vec<char>| c@).push(members@[m2 as int]@));
                            }
                        }
                        m2 = m2 + 1;
                    }
                    proof {
                        assert(mv.subrange(0, mv.len() as int) == mv);
                    }
                }
            },
            None => {},
        }
        if !has_prelude {
            order = members;
        }
        let ghost ov = order@.map_values(|c: Vec<char>| c@);
        proof {
            assert(ov == scope_members(cv, *scope));
            assert forall|q: int| 0 <= q < order@.len() implies self.known(#[trigger] order@[q]@) by {
                lemma_members_known(self, cv, scope.prefix@);
                if has_prelude {
                    assert(ov[q] == order@[q]@);
                    if q == 0 {
                        assert(mv.contains(order@[q]@));
                    } else {
                        lemma_without_sub(mv, prelude_of(*scope)->0);
                        assert(ov[q] == without(mv, prelude_of(*scope)->0)[q - 1]);
                        assert(mv.contains(order@[q]@));
                    }
                } else {
                    assert(ov[q] == mv[q]);
                    assert(mv.contains(order@[q]@));
                }
            }
        }
        if order.len() == 0 {
            return;
        }
        let opened = !scope.open.is_empty();
        let ghost old_out = out@;
        let body_indent: u128 = if opened { base as u128 + 1 } else { base as u128 };
        if opened {
            if !out.as_str().is_empty() {
                push_char(out, '\n');
            }
            let oc = str_chars(scope.open);
            self.push_line(out, base as u128, oc.as_slice());
        }
        let first = !opened && out.as_str().is_empty();
        self.push_units(out, body_indent, &order, first);
        if !scope.close.is_empty() {
            let cc = str_chars(scope.close);
            self.push_line(out, base as u128, cc.as_slice());
        }
    }
}

/// Every member of `cl` in a scope is an element of `cl`.
proof fn lemma_members_known(b: &RuntimeBundler, cl: Seq<Seq<char>>, pfx: Seq<char>)
    ensures
        forall|q: int| 0 <= q < members_of(cl, pfx).len() ==> cl.contains(#[trigger] members_of(cl, pfx)[q]),
    decreases cl.len(),
{
    if cl.len() > 0 {
        lemma_members_known(b, cl.drop_last(), pfx);
        let m = members_of(cl.drop_last(), pfx);
        assert forall|q: int| 0 <= q < members_of(cl, pfx).len() implies cl.contains(#[trigger] members_of(cl, pfx)[q]) by {
            if q < m.len() {
                assert(members_of(cl, pfx)[q] == m[q]);
                let w = choose|w: int| 0 <= w < cl.len() - 1 && cl.drop_last()[w] == m[q];
                assert(cl[w] == m[q]);
            } else {
                assert(cl[cl.len() - 1] == members_of(cl, pfx)[q]);
            }
        }
    }
}

/// Every element of `without(s, p)` is an element of `s`.
proof fn lemma_without_sub(s: Seq<Seq<char>>, p: Seq<char>)
    ensures
        forall|q: int| 0 <= q < without(s, p).len() ==> s.contains(#[trigger] without(s, p)[q]),
    decreases s.len(),
{
    if s.len() > 0 {
        lemma_without_sub(s.drop_last(), p);
        let m = without(s.drop_last(), p);
        assert forall|q: int| 0 <= q < without(s, p).len() implies s.contains(#[trigger] without(s, p)[q]) by {
            if q < m.len() {
                assert(without(s, p)[q] == m[q]);
                let w = choose|w: int| 0 <= w < s.len() - 1 && s.drop_last()[w] == m[q];
                assert(s[w] == m[q]);
            } else {
                assert(s[s.len() - 1] == without(s, p)[q]);
            }
        }
    }
}

/// What a bundle of the closure of `seeds` at `base` indent levels gives: the text of the sorted
/// closure, or an error naming an id the closure reaches that names no unit.
pub open spec fn bundle_outcome(b: RuntimeBundler, seeds: Seq<Seq<char>>, base: nat, r: Result<String, BackendError>) -> bool {
    match r {
        Ok(text) => exists|cl: Seq<Seq<char>>| #[trigger] is_sorted_closure(b, seeds, cl) && text@ == b.bundle_text(cl, base),
        Err(BackendError::UnknownUnit { id }) => !b.known(id@) && b.in_closure(seeds, id@),
        Err(_) => false,
    }
}

/// Two strictly sorted sequences with the same members are the same sequence.
pub proof fn lemma_sorted_unique(c1: Seq<Seq<char>>, c2: Seq<Seq<char>>)
    requires
        forall|k: int, l: int| 0 <= k < l < c1.len() ==> lex_lt(#[trigger] c1[k], #[trigger] c1[l]),
        forall|k: int, l: int| 0 <= k < l < c2.len() ==> lex_lt(#[trigger] c2[k], #[trigger] c2[l]),
        forall|x: Seq<char>| c1.contains(x) <==> c2.contains(x),
    ensures
        c1 == c2,
    decreases c1.len(),
{
    if c1.len() == 0 {
        if c2.len() > 0 {
            assert(c2.contains(c2[0]));
        }
        assert(c1 =~= c2);
    } else if c2.len() == 0 {
        assert(c1.contains(c1[0]));
    } else {
        let a = c1[0];
        let b = c2[0];
        assert(c2.contains(b));
        assert(c1.contains(a));
        let j = choose|j: int| 0 <= j < c1.len() && c1[j] == b;
        let i = choose|i: int| 0 <= i < c2.len() && c2[i] == a;
        if a != b {
            assert(j > 0 && i > 0);
            assert(lex_lt(c1[0], c1[j]));
            assert(lex_lt(c2[0], c2[i]));
            lemma_lex_asymmetric(a, b);
        }
        let d1 = c1.drop_first();
        let d2 = c2.drop_first();
        assert forall|x: Seq<char>| d1.contains(x) <==> d2.contains(x) by {
            if d1.contains(x) {
                let k = choose|k: int| 0 <= k < d1.len() && d1[k] == x;
                assert(c1[k + 1] == x);
                assert(lex_lt(c1[0], c1[k + 1]));
                lemma_lex_irreflexive(a);
                assert(c1.contains(x));
                let m = choose|m: int| 0 <= m < c2.len() && c2[m] == x;
                assert(m != 0);
                assert(d2[m - 1] == x);
            }
            if d2.contains(x) {
                let k = choose|k: int| 0 <= k < d2.len() && d2[k] == x;
                assert(c2[k + 1] == x);
                assert(lex_lt(c2[0], c2[k + 1]));
                lemma_lex_irreflexive(b);
                assert(c2.contains(x));
                let m = choose|m: int| 0 <= m < c1.len() && c1[m] == x;
                assert(m != 0);
                assert(d1[m - 1] == x);
            }
        }
        assert forall|k: int, l: int| 0 <= k < l < d1.len() implies lex_lt(#[trigger] d1[k], #[trigger] d1[l]) by {
            assert(d1[k] == c1[k + 1] && d1[l] == c1[l + 1]);
        }
        assert forall|k: int, l: int| 0 <= k < l < d2.len() implies lex_lt(#[trigger] d2[k], #[trigger] d2[l]) by {
            assert(d2[k] == c2[k + 1] && d2[l] == c2[l + 1]);
        }
        lemma_sorted_unique(d1, d2);
        assert(c1 =~= c2) by {
            assert forall|k: int| 0 <= k < c1.len() implies c1[k] == c2[k] by {
                if k > 0 {
                    assert(c1[k] == d1[k - 1]);
                    assert(c2[k] == d2[k - 1]);
                }
            }
        }
    }
}

/// A bundle is a function of the seeds' dependency closure alone: seeds whose closures hold the
/// same ids give the same outcome, the same text when it succeeds.
pub proof fn law_bundle_depends_on_closure(
    b: RuntimeBundler,
    s1: Seq<Seq<char>>,
    s2: Seq<Seq<char>>,
    base: nat,
    r1: Result<String, BackendError>,
    r2: Result<String, BackendError>,
)
    requires
        b.wf(),
        forall|id: Seq<char>| b.in_closure(s1, id) <==> b.in_closure(s2, id),
        bundle_outcome(b, s1, base, r1),
        bundle_outcome(b, s2, base, r2),
    ensures
        r1 is Ok <==> r2 is Ok,
        r1 is Ok ==> r1->Ok_0@ == r2->Ok_0@,
{
    law_bundle_succeeds_iff_known(b, s1, base, r1);
    law_bundle_succeeds_iff_known(b, s2, base, r2);
    if r1 is Ok && r2 is Ok {
        let c1 = choose|cl: Seq<Seq<char>>| #[trigger] is_sorted_closure(b, s1, cl) && r1->Ok_0@ == b.bundle_text(cl, base);
        let c2 = choose|cl: Seq<Seq<char>>| #[trigger] is_sorted_closure(b, s2, cl) && r2->Ok_0@ == b.bundle_text(cl, base);
        assert forall|x: Seq<char>| c1.contains(x) <==> c2.contains(x) by {
            assert(c1.contains(x) <==> b.in_closure(s1, x));
            assert(c2.contains(x) <==> b.in_closure(s2, x));
        }
        lemma_sorted_unique(c1, c2);
    }
}

/// A bundle succeeds exactly when every id of the closure names a unit.
pub proof fn law_bundle_succeeds_iff_known(b: RuntimeBundler, seeds: Seq<Seq<char>>, base: nat, r: Result<String, BackendError>)
    requires
        bundle_outcome(b, seeds, base, r),
    ensures
        r is Ok <==> forall|id: Seq<char>| b.in_closure(seeds, id) ==> b.known(id),
{
    if r is Ok {
        let cl = choose|cl: Seq<Seq<char>>| #[trigger] is_sorted_closure(b, seeds, cl) && r->Ok_0@ == b.bundle_text(cl, base);
        assert forall|id: Seq<char>| b.in_closure(seeds, id) implies b.known(id) by {
            assert(cl.contains(id));
            let k = choose|k: int| 0 <= k < cl.len() && cl[k] == id;
            assert(b.known(cl[k]));
        }
    }
}

/// Bundling every unit is bundling the seeds that list every unit id: the same closure, so the
/// same outcome for any seeds holding exactly the unit ids. When every scope's prelude names a
/// unit, that bundle succeeds.
pub proof fn law_bundle_all_is_bundle_of_ids(
    b: RuntimeBundler,
    seeds: Seq<Seq<char>>,
    base: nat,
    r_all: Result<String, BackendError>,
    r: Result<String, BackendError>,
)
    requires
        b.wf(),
        forall|id: Seq<char>| seeds.contains(id) <==> b.ids().contains(id),
        bundle_outcome(b, b.ids(), base, r_all),
        bundle_outcome(b, seeds, base, r),
    ensures
        r_all is Ok <==> r is Ok,
        r_all is Ok ==> r_all->Ok_0@ == r->Ok_0@,
        (forall|s: int| 0 <= s < b.scopes_spec().len() ==> (#[trigger] prelude_of(b.scopes_spec()[s]) matches Some(p) ==> b.known(p)))
            ==> r_all is Ok,
{
    assert(set_of(seeds) == set_of(b.ids()));
    assert(b.roots(seeds) == b.roots(b.ids()));
    assert forall|id: Seq<char>| b.in_closure(seeds, id) <==> b.in_closure(b.ids(), id) by {}
    law_bundle_depends_on_closure(b, b.ids(), seeds, base, r_all, r);
    if forall|s: int| 0 <= s < b.scopes_spec().len() ==> (#[trigger] prelude_of(b.scopes_spec()[s]) matches Some(p) ==> b.known(p)) {
        let t = Set::new(|x: Seq<char>| b.known(x));
        assert(b.closed_set(t)) by {
            assert forall|i: int| 0 <= i < b.ids().len() && #[trigger] t.contains(b.ids()[i]) implies b.deps(i).subset_of(t) by {
                assert forall|x: Seq<char>| b.deps(i).contains(x) implies t.contains(x) by {
                    let u = b.units_spec()[i];
                    if set_of(views(u.requires@)).contains(x) {
                        let k = choose|k: int| 0 <= k < views(u.requires@).len() && views(u.requires@)[k] == x;
                        assert(b.known(b.units_spec()[i].requires@[k]@));
                    } else {
                        let s = b.scope_of_spec(u.id@)->0;
                        assert(b.scope_of_spec(b.ids()[i]) is Some);
                        lemma_scope_from_bound(b.scopes_spec(), prefix_of(u.id@), 0);
                        assert(prelude_of(b.scopes_spec()[s]) matches Some(p) ==> b.known(p));
                    }
                }
            }
        }
        assert(b.roots(b.ids()).subset_of(t)) by {
            assert forall|x: Seq<char>| b.roots(b.ids()).contains(x) implies t.contains(x) by {
                if !set_of(b.ids()).contains(x) {
                    assert(prelude_of(b.scopes_spec()[0]) matches Some(p) ==> b.known(p));
                }
            }
        }
        assert forall|id: Seq<char>| b.in_closure(b.ids(), id) implies b.known(id) by {
            assert(t.contains(id));
        }
        law_bundle_succeeds_iff_known(b, b.ids(), base, r_all);
    }
}

impl RuntimeBundler {
    /// The bundle for the closure of `seeds`: scope by scope in declaration order, a scope's
    /// prelude first and its other units sorted, each unit's body re-indented. `base_indent` is
    /// the indent level of the bundle's root-scope members.
    pub fn bundle(&self, seeds: &[String], base_indent: usize) -> (r: Result<String, BackendError>)
        requires
            self.wf(),
        ensures
            bundle_outcome(*self, views(seeds@), base_indent as nat, r),
    {
        let cl = match self.closure(seeds) {
            Ok(v) => v,
            Err(e) => return Err(e),
        };
        let ghost cv = views(cl@);
        proof {
            assert forall|id: Seq<char>| #[trigger] cv.contains(id) <==> self.in_closure(views(seeds@), id) by {}
            assert forall|k: int| 0 <= k < cv.len() implies self.known(#[trigger] cv[k]) by {
                assert(cv[k] == cl@[k]@);
            }
            assert forall|k: int, l: int| 0 <= k < l < cv.len() implies lex_lt(#[trigger] cv[k], #[trigger] cv[l]) by {
                assert(cv[k] == cl@[k]@);
                assert(cv[l] == cl@[l]@);
            }
        }
        let mut out = String::new();
        let mut k: usize = 0;
        while k < self.scopes.len()
            invariant
                self.wf(),
                k <= self.scopes@.len(),
                cv == views(cl@),
                forall|j: int| 0 <= j < cl@.len() ==> self.known(#[trigger] cl@[j]@),
                out@ == self.bundle_upto(cv, base_indent as nat, k as int),
            decreases self.scopes@.len() - k,
        {
            self.push_scope(&mut out, cl.as_slice(), base_indent, k);
            k = k + 1;
        }
        proof {
            assert(is_sorted_closure(*self, views(seeds@), cv));
            assert(out@ == self.bundle_text(cv, base_indent as nat));
        }
        Ok(out)
    }

    /// The bundle of every unit.
    pub fn bundle_all(&self, base_indent: usize) -> (r: Result<String, BackendError>)
        requires
            self.wf(),
        ensures
            bundle_outcome(*self, self.ids(), base_indent as nat, r),
    {
        let mut seeds: Vec<String> = Vec::new();
        let mut i: usize = 0;
        while i < self.units.len()
            invariant
                i <= self.units@.len(),
                views(seeds@) == self.ids().subrange(0, i as int),
            decreases self.units@.len() - i,
        {
            let ghost before = seeds@;
            let id = self.units[i].id.clone();
            seeds.push(id);
            proof {
                assert(views(seeds@) == views(before).push(self.units@[i as int].id@));
                assert(self.ids().subrange(0, i + 1) == self.ids().subrange(0, i as int).push(self.ids()[i as int]));
            }
            i = i + 1;
        }
        assert(self.ids().subrange(0, self.ids().len() as int) == self.ids());
        self.bundle(seeds.as_slice(), base_indent)
    }
}

// ---------------------------------------------------------------------------------------------
// Reading unit sources.

/// The comma-separated pieces of `s` continued from the partial piece `cur`.
pub open spec fn split_commas(s: Seq<char>, cur: Seq<char>) -> Seq<Seq<char>>
    decreases s.len(),
{
    if s.len() == 0 {
        seq![cur]
    } else if s[0] == ',' {
        seq![cur] + split_commas(s.drop_first(), seq![])
    } else {
        split_commas(s.drop_first(), cur.push(s[0]))
    }
}

/// The non-empty trimmed pieces, in order.
pub open spec fn nonempty_trimmed(pieces: Seq<Seq<char>>) -> Seq<Seq<char>>
    decreases pieces.len(),
{
    if pieces.len() == 0 {
        seq![]
    } else {
        let t = trim_spec(pieces[0]);
        (if t.len() > 0 { seq![t] } else { seq![] }) + nonempty_trimmed(pieces.drop_first())
    }
}

/// The dependencies a `requires:` line lists after its marker.
pub open spec fn deps_of(rest: Seq<char>) -> Seq<Seq<char>> {
    nonempty_trimmed(split_commas(rest, seq![]))
}

/// Whether `p` is a prefix of `s`.
pub open spec fn has_prefix(s: Seq<char>, p: Seq<char>) -> bool {
    p.len() <= s.len() && s.subrange(0, p.len() as int) == p
}

/// The declared requirements and the body lines of a unit source's `lines`: header lines
/// starting with `marker` list requirements, blank header lines are skipped, and the first
/// other line starts the body.
pub open spec fn parse_lines(lines: Seq<Seq<char>>, marker: Seq<char>, in_header: bool) -> (Seq<Seq<char>>, Seq<Seq<char>>)
    decreases lines.len(),
{
    if lines.len() == 0 {
        (seq![], seq![])
    } else {
        let line = lines[0];
        if in_header && has_prefix(line, marker) {
            let r = parse_lines(lines.drop_first(), marker, true);
            (deps_of(line.subrange(marker.len() as int, line.len() as int)) + r.0, r.1)
        } else if in_header && is_blank(line) {
            parse_lines(lines.drop_first(), marker, true)
        } else {
            let r = parse_lines(lines.drop_first(), marker, false);
            (r.0, seq![line] + r.1)
        }
    }
}

/// `lines` without its trailing blank lines.
pub open spec fn drop_trailing_blank(lines: Seq<Seq<char>>) -> Seq<Seq<char>>
    decreases lines.len(),
{
    if lines.len() > 0 && is_blank(lines.last()) {
        drop_trailing_blank(lines.drop_last())
    } else {
        lines
    }
}

/// `lines` joined by `\n`.
pub open spec fn join_lines(lines: Seq<Seq<char>>) -> Seq<char>
    decreases lines.len(),
{
    if lines.len() == 0 {
        seq![]
    } else if lines.len() == 1 {
        lines[0]
    } else {
        join_lines(lines.drop_last()) + seq!['\n'] + lines.last()
    }
}

/// The requirements a unit source declares.
pub open spec fn source_requires(source: Seq<char>, marker: Seq<char>) -> Seq<Seq<char>> {
    parse_lines(lines_spec(source), marker, true).0
}

/// The body of a unit source: its lines after the header, trailing blank lines dropped.
pub open spec fn source_body(source: Seq<char>, marker: Seq<char>) -> Seq<char> {
    join_lines(drop_trailing_blank(parse_lines(lines_spec(source), marker, true).1))
}

/// The dependencies listed after a `requires:` marker.
fn parse_deps(rest: &[char]) -> (r: Vec<Vec<char>>)
    ensures
        r@.map_values(|c: Vec<char>| c@) == deps_of(rest@),
{
    // Split at the commas.
    let mut pieces: Vec<Vec<char>> = Vec::new();
    let mut cur: Vec<char> = Vec::new();
    let mut i: usize = 0;
    proof {
        assert(rest@.subrange(0, rest@.len() as int) == rest@);
        assert(pieces@.map_values(|c: Vec<char>| c@) == Seq::<Seq<char>>::empty());
    }
    while i < rest.len()
        invariant
            i <= rest@.len(),
            pieces@.map_values(|c: Vec<char>| c@) + split_commas(rest@.subrange(i as int, rest@.len() as int), cur@)
                == split_commas(rest@, seq![]),
        decreases rest@.len() - i,
    {
        let ghost r = rest@.subrange(i as int, rest@.len() as int);
        assert(r.drop_first() == rest@.subrange(i + 1, rest@.len() as int));
        let ghost before = pieces@;
        if rest[i] == ',' {
            pieces.push(cur);
            assert(pieces@.map_values(|c: Vec<char>| c@) == before.map_values(|c: Vec<char>| c@).push(cur@));
            cur = Vec::new();
        } else {
            cur.push(rest[i]);
        }
        i = i + 1;
    }
    let ghost before = pieces@;
    pieces.push(cur);
    proof {
        assert(rest@.subrange(i as int, rest@.len() as int) == Seq::<char>::empty());
        assert(pieces@.map_values(|c: Vec<char>| c@) == before.map_values(|c: Vec<char>| c@).push(cur@));
    }
    let ghost pv = pieces@.map_values(|c: Vec<char>| c@);
    proof {
        let bvv = before.map_values(|c: Vec<char>| c@);
        assert(split_commas(Seq::<char>::empty(), cur@) == seq![cur@]);
        assert(bvv.push(cur@) == bvv + seq![cur@]);
        assert(pv == split_commas(rest@, seq![]));
    }
    // Trim them and keep the non-empty ones.
    let mut out: Vec<Vec<char>> = Vec::new();
    let mut j: usize = 0;
    proof {
        assert(pv.subrange(0, pv.len() as int) == pv);
        assert(out@.map_values(|c: Vec<char>| c@) == Seq::<Seq<char>>::empty());
    }
    while j < pieces.len()
        invariant
            j <= pieces@.len(),
            pv == pieces@.map_values(|c: Vec<char>| c@),
            out@.map_values(|c: Vec<char>| c@) + nonempty_trimmed(pv.subrange(j as int, pv.len() as int))
                == nonempty_trimmed(pv),
        decreases pieces@.len() - j,
    {
        let ghost r = pv.subrange(j as int, pv.len() as int);
        assert(r.drop_first() == pv.subrange(j + 1, pv.len() as int));
        assert(r[0] == pieces@[j as int]@);
        let t = trim_chars(pieces[j].as_slice());
        let ghost before = out@;
        if t.len() > 0 {
            out.push(t);
            assert(out@.map_values(|c: Vec<char>| c@) == before.map_values(|c: Vec<char>| c@) + seq![trim_spec(r[0])]);
        } else {
            assert(out@.map_values(|c: Vec<char>| c@) == before.map_values(|c: Vec<char>| c@) + Seq::<Seq<char>>::empty());
        }
        j = j + 1;
    }
    proof {
        let ov = out@.map_values(|c: Vec<char>| c@);
        assert(pv.subrange(pv.len() as int, pv.len() as int) == Seq::<Seq<char>>::empty());
        assert(nonempty_trimmed(Seq::<Seq<char>>::empty()) == Seq::<Seq<char>>::empty());
        assert(ov + Seq::<Seq<char>>::empty() == ov);
        assert(split_commas(Seq::<char>::empty(), cur@) == seq![cur@]);
    }
    out
}

/// Whether `p` is a prefix of `s`.
fn starts_with(s: &[char], p: &[char]) -> (r: bool)
    ensures
        r == has_prefix(s@, p@),
{
    if p.len() > s.len() {
        return false;
    }
    let mut i: usize = 0;
    while i < p.len()
        invariant
            p@.len() <= s@.len(),
            i <= p@.len(),
            forall|j: int| 0 <= j < i ==> s@[j] == p@[j],
        decreases p@.len() - i,
    {
        if s[i] != p[i] {
            assert(s@.subrange(0, p@.len() as int)[i as int] != p@[i as int]);
            return false;
        }
        i = i + 1;
    }
    assert(s@.subrange(0, p@.len() as int) == p@);
    true
}

/// The requirements and body of one unit source, read against `marker`.
fn parse_source(source: &str, marker: &[char]) -> (r: (Vec<String>, String))
    ensures
        views(r.0@) == source_requires(source@, marker@),
        r.1@ == source_body(source@, marker@),
{
    let cs = str_chars(source);
    let lines = lines_of(cs.as_slice());
    let ghost lv = lines@.map_values(|l: Vec<char>| l@);
    let mut reqs: Vec<String> = Vec::new();
    let mut body: Vec<Vec<char>> = Vec::new();
    let mut in_header = true;
    let mut i: usize = 0;
    proof {
        assert(lv.subrange(0, lv.len() as int) == lv);
        assert(views(reqs@) == Seq::<Seq<char>>::empty());
        assert(body@.map_values(|l: Vec<char>| l@) == Seq::<Seq<char>>::empty());
    }
    while i < lines.len()
        invariant
            i <= lines@.len(),
            lv == lines@.map_values(|l: Vec<char>| l@),
            ({
                let p = parse_lines(lv.subrange(i as int, lv.len() as int), marker@, in_header);
                &&& views(reqs@) + p.0 == source_requires(source@, marker@)
                &&& body@.map_values(|l: Vec<char>| l@) + p.1 == parse_lines(lv, marker@, true).1
            }),
            !in_header ==> true,
        decreases lines@.len() - i,
    {
        let ghost r = lv.subrange(i as int, lv.len() as int);
        assert(r.drop_first() == lv.subrange(i + 1, lv.len() as int));
        assert(r[0] == lines@[i as int]@);
        let line = &lines[i];
        if in_header && starts_with(line.as_slice(), marker) {
            let mut rest: Vec<char> = Vec::new();
            let mut k = marker.len();
            while k < line.len()
                invariant
                    marker@.len() <= k <= line@.len(),
                    rest@ == line@.subrange(marker@.len() as int, k as int),
                decreases line@.len() - k,
            {
                rest.push(line[k]);
                k = k + 1;
            }
            let deps = parse_deps(rest.as_slice());
            let ghost before = reqs@;
            let mut d: usize = 0;
            while d < deps.len()
                invariant
                    d <= deps@.len(),
                    views(reqs@) == views(before) + deps@.map_values(|c: Vec<char>| c@).subrange(0, d as int),
                decreases deps@.len() - d,
            {
                let ghost b2 = reqs@;
                reqs.push(from_chars(deps[d].as_slice()));
                proof {
                    assert(views(reqs@) == views(b2).push(deps@[d as int]@));
                    let dv = deps@.map_values(|c: Vec<char>| c@);
                    assert(dv.subrange(0, d + 1) == dv.subrange(0, d as int).push(dv[d as int]));
                }
                d = d + 1;
            }
            proof {
                let dv = deps@.map_values(|c: Vec<char>| c@);
                assert(dv.subrange(0, dv.len() as int) == dv);
            }
        } else if in_header && blank_chars(line.as_slice()) {
        } else {
            in_header = false;
            let ghost before = body@;
            body.push(line.clone());
            proof {
                assert(body@.map_values(|l: Vec<char>| l@) == before.map_values(|l: Vec<char>| l@) + seq![lv[i as int]]);
            }
        }
        i = i + 1;
    }
    proof {
        assert(lv.subrange(i as int, lv.len() as int) == Seq::<Seq<char>>::empty());
    }
    let ghost bv = body@.map_values(|l: Vec<char>| l@);
    // Drop the trailing blank lines.
    let mut n = body.len();
    assert(bv.subrange(0, n as int) == bv);
    while n > 0 && blank_chars(body[n - 1].as_slice())
        invariant
            n <= body@.len(),
            bv == body@.map_values(|l: Vec<char>| l@),
            drop_trailing_blank(bv) == drop_trailing_blank(bv.subrange(0, n as int)),
        decreases n,
    {
        proof {
            let t = bv.subrange(0, n as int);
            assert(t.drop_last() == bv.subrange(0, n - 1));
            assert(t.last() == body@[n - 1]@);
        }
        n = n - 1;
    }
    proof {
        let t = bv.subrange(0, n as int);
        if n > 0 {
            assert(t.last() == body@[n - 1]@);
        }
        assert(drop_trailing_blank(t) == t);
    }
    // Join the rest with newlines.
    let mut text = String::new();
    let mut j: usize = 0;
    while j < n
        invariant
            j <= n <= body@.len(),
            bv == body@.map_values(|l: Vec<char>| l@),
            text@ == join_lines(bv.subrange(0, j as int)),
        decreases n - j,
    {
        let ghost before = text@;
        if j > 0 {
            push_char(&mut text, '\n');
        }
        let ghost mid = text@;
        let mut k: usize = 0;
        while k < body[j].len()
            invariant
                j < n <= body@.len(),
                k <= body@[j as int]@.len(),
                text@ == mid + body@[j as int]@.subrange(0, k as int),
            decreases body@[j as int]@.len() - k,
        {
            push_char(&mut text, body[j][k]);
            k = k + 1;
        }
        proof {
            assert(body@[j as int]@.subrange(0, body@[j as int]@.len() as int) == body@[j as int]@);
            let t = bv.subrange(0, j + 1);
            assert(t.drop_last() == bv.subrange(0, j as int));
            assert(t.last() == bv[j as int]);
            if j == 0 {
                assert(t.len() == 1);
                assert(join_lines(t) == t[0]);
            }
        }
        j = j + 1;
    }
    (reqs, text)
}

/// The ids of the unit sources.
pub open spec fn source_ids(sources: Seq<(&str, &str)>) -> Seq<Seq<char>> {
    sources.map_values(|p: (&str, &str)| p.0@)
}

/// The header marker a unit source lists its requirements after.
pub open spec fn requires_marker(comment_prefix: Seq<char>) -> Seq<char> {
    comment_prefix + " requires:"@
}

/// Whether the first `k` ids are pairwise distinct.
pub open spec fn distinct_upto(ids: Seq<Seq<char>>, k: int) -> bool {
    forall|i: int, j: int| 0 <= i < j < k ==> ids[i] != ids[j]
}

/// Whether source `k` declares only known requirements and lies in a declared scope.
pub open spec fn source_valid(sources: Seq<(&str, &str)>, marker: Seq<char>, scopes: Seq<RuntimeScope>, k: int) -> bool {
    let ids = source_ids(sources);
    &&& forall|m: int| 0 <= m < source_requires(sources[k].1@, marker).len()
        ==> ids.contains(#[trigger] source_requires(sources[k].1@, marker)[m])
    &&& scope_from(scopes, prefix_of(ids[k]), 0) is Some
}

/// Whether every source whose id sorts before source `k`'s is valid.
pub open spec fn earlier_valid(sources: Seq<(&str, &str)>, marker: Seq<char>, scopes: Seq<RuntimeScope>, k: int) -> bool {
    forall|j: int| 0 <= j < sources.len() && lex_lt(#[trigger] source_ids(sources)[j], source_ids(sources)[k])
        ==> source_valid(sources, marker, scopes, j)
}

/// Whether `u` is the unit source `k` reads as.
pub open spec fn unit_from_source(u: RuntimeUnit, sources: Seq<(&str, &str)>, marker: Seq<char>, k: int) -> bool {
    &&& u.id@ == source_ids(sources)[k]
    &&& views(u.requires@) == source_requires(sources[k].1@, marker)
    &&& u.body@ == source_body(sources[k].1@, marker)
}

/// Whether source `k` was read into one of the units.
pub open spec fn read_into(us: Seq<RuntimeUnit>, sources: Seq<(&str, &str)>, marker: Seq<char>, k: int) -> bool {
    exists|i: int| 0 <= i < us.len() && #[trigger] unit_from_source(us[i], sources, marker, k)
}

/// Whether unit `i` was read from one of the sources.
pub open spec fn read_from(us: Seq<RuntimeUnit>, sources: Seq<(&str, &str)>, marker: Seq<char>, i: int) -> bool {
    exists|k: int| 0 <= k < sources.len() && #[trigger] unit_from_source(us[i], sources, marker, k)
}

/// Whether the units' ids are strictly sorted.
pub open spec fn units_sorted(us: Seq<RuntimeUnit>) -> bool {
    forall|i: int, j: int| 0 <= i < j < us.len() ==> lex_lt(#[trigger] us[i].id@, #[trigger] us[j].id@)
}

/// Whether `orig` and `place` match the units and the sources one to one: unit `a` is read
/// from source `orig[a]`, source `k` became unit `place[k]`.
pub open spec fn units_match(
    us: Seq<RuntimeUnit>,
    sources: Seq<(&str, &str)>,
    marker: Seq<char>,
    orig: Seq<int>,
    place: Seq<int>,
) -> bool {
    &&& us.len() == orig.len() == place.len()
    &&& forall|a: int| 0 <= a < us.len() ==> 0 <= #[trigger] orig[a] < us.len()
        && unit_from_source(us[a], sources, marker, orig[a])
    &&& forall|k: int| 0 <= k < us.len() ==> 0 <= #[trigger] place[k] < us.len()
        && unit_from_source(us[place[k]], sources, marker, k)
}

proof fn lemma_sorted_distinct(us: Seq<RuntimeUnit>, a: int, b: int)
    requires
        units_sorted(us),
        0 <= a < us.len(),
        0 <= b < us.len(),
        us[a].id@ == us[b].id@,
    ensures
        a == b,
{
    if a != b {
        lemma_lex_irreflexive(us[a].id@);
        if a < b {
            assert(lex_lt(us[a].id@, us[b].id@));
        } else {
            assert(lex_lt(us[b].id@, us[a].id@));
        }
    }
}

/// The units and the sources carry the same ids.
proof fn lemma_same_ids(
    us: Seq<RuntimeUnit>,
    sources: Seq<(&str, &str)>,
    marker: Seq<char>,
    orig: Seq<int>,
    place: Seq<int>,
)
    requires
        sources.len() == us.len(),
        units_match(us, sources, marker, orig, place),
    ensures
        forall|x: Seq<char>| #[trigger] unit_ids(us).contains(x) <==> source_ids(sources).contains(x),
{
    let ids = source_ids(sources);
    let bids = unit_ids(us);
    assert forall|x: Seq<char>| #[trigger] bids.contains(x) <==> ids.contains(x) by {
        if bids.contains(x) {
            let a = choose|a: int| 0 <= a < bids.len() && bids[a] == x;
            assert(ids[orig[a]] == x);
        }
        if ids.contains(x) {
            let k = choose|k: int| 0 <= k < ids.len() && ids[k] == x;
            assert(bids[place[k]] == x);
        }
    }
}

/// Sources whose ids sort before unit `i`'s are read into the units before `i`.
proof fn lemma_earlier_valid(
    us: Seq<RuntimeUnit>,
    sources: Seq<(&str, &str)>,
    marker: Seq<char>,
    scopes: Seq<RuntimeScope>,
    orig: Seq<int>,
    place: Seq<int>,
    i: int,
)
    requires
        sources.len() == us.len(),
        units_sorted(us),
        units_match(us, sources, marker, orig, place),
        distinct_upto(source_ids(sources), sources.len() as int),
        0 <= i < us.len(),
        forall|a: int| 0 <= a < i ==> source_valid(sources, marker, scopes, #[trigger] orig[a]),
    ensures
        earlier_valid(sources, marker, scopes, orig[i]),
{
    let ids = source_ids(sources);
    assert forall|j: int| 0 <= j < sources.len() && lex_lt(#[trigger] source_ids(sources)[j], source_ids(sources)[orig[i]])
        implies source_valid(sources, marker, scopes, j) by {
        let a = place[j];
        assert(us[a].id@ == ids[j]);
        assert(us[i].id@ == ids[orig[i]]);
        if a == i {
            lemma_lex_irreflexive(ids[j]);
        } else if a > i {
            assert(lex_lt(us[i].id@, us[a].id@));
            lemma_lex_asymmetric(ids[orig[i]], ids[j]);
        }
        let o = orig[a];
        assert(ids[o] == ids[j]);
        if o < j {
            assert(ids[o] != ids[j]);
        } else if o > j {
            assert(ids[j] != ids[o]);
        }
    }
}

/// What `RuntimeBundler::new` gives for these arguments: the bundler read from `sources`, or
/// the first refusal.
pub open spec fn new_outcome(
    comment_prefix: Seq<char>,
    indent_str: Seq<char>,
    unit_indent: nat,
    scopes: Seq<RuntimeScope>,
    sources: Seq<(&str, &str)>,
    r: Result<RuntimeBundler, BackendError>,
) -> bool {
    let ids = source_ids(sources);
    let marker = requires_marker(comment_prefix);
    match r {
        Ok(b) => {
            &&& b.wf()
            &&& b.scopes_spec() == scopes
            &&& b.indent_spec() == indent_str
            &&& b.unit_indent_spec() == unit_indent
            &&& distinct_upto(ids, ids.len() as int)
            &&& forall|k: int| 0 <= k < ids.len() ==> source_valid(sources, marker, scopes, k)
            &&& b.units_spec().len() == ids.len()
            &&& forall|k: int| 0 <= k < ids.len() ==> #[trigger] read_into(b.units_spec(), sources, marker, k)
            &&& forall|i: int| 0 <= i < b.units_spec().len() ==> #[trigger] read_from(b.units_spec(), sources, marker, i)
        },
        Err(BackendError::DuplicateUnit { id }) => exists|k: int| 0 <= k < ids.len()
            && #[trigger] ids[k] == id@ && distinct_upto(ids, k) && exists|j: int| 0 <= j < k && ids[j]
            == ids[k],
        Err(BackendError::UnknownRequire { unit, dep }) => {
            &&& distinct_upto(ids, ids.len() as int)
            &&& exists|k: int, m: int| 0 <= k < ids.len() && #[trigger] ids[k] == unit@
                && 0 <= m < source_requires(sources[k].1@, marker).len()
                && #[trigger] source_requires(sources[k].1@, marker)[m] == dep@ && !ids.contains(dep@)
                && (forall|m2: int| 0 <= m2 < m ==> ids.contains(
                    #[trigger] source_requires(sources[k].1@, marker)[m2]))
                && earlier_valid(sources, marker, scopes, k)
        },
        Err(BackendError::UnknownScope { unit, prefix }) => {
            &&& distinct_upto(ids, ids.len() as int)
            &&& exists|k: int| 0 <= k < ids.len() && #[trigger] ids[k] == unit@
                && (forall|m: int| 0 <= m < source_requires(sources[k].1@, marker).len()
                    ==> ids.contains(#[trigger] source_requires(sources[k].1@, marker)[m]))
                && scope_from(scopes, prefix_of(unit@), 0) is None
                && prefix@ == prefix_of(unit@)
                && earlier_valid(sources, marker, scopes, k)
        },
        Err(_) => false,
    }
}

impl RuntimeBundler {
    /// Checks unit `i`: each of its requirements, in order, must name a unit, then its prefix
    /// must name a scope.
    fn check_unit(&self, i: usize) -> (r: Result<(), BackendError>)
        requires
            i < self.units_spec().len(),
        ensures
            ({
                let u = self.units_spec()[i as int];
                let reqs = views(u.requires@);
                match r {
                    Ok(_) => (forall|m: int| 0 <= m < reqs.len() ==> self.known(#[trigger] reqs[m]))
                        && self.scope_of_spec(u.id@) is Some,
                    Err(BackendError::UnknownRequire { unit, dep }) => unit@ == u.id@ && exists|m: int|
                        0 <= m < reqs.len() && #[trigger] reqs[m] == dep@ && !self.known(dep@)
                        && forall|m2: int| 0 <= m2 < m ==> self.known(#[trigger] reqs[m2]),
                    Err(BackendError::UnknownScope { unit, prefix }) => unit@ == u.id@ && prefix@ == prefix_of(u.id@)
                        && self.scope_of_spec(u.id@) is None
                        && forall|m: int| 0 <= m < reqs.len() ==> self.known(#[trigger] reqs[m]),
                    Err(_) => false,
                }
            }),
    {
        let u = &self.units[i];
        let mut m: usize = 0;
        while m < u.requires.len()
            invariant
                i < self.units@.len(),
                *u == self.units@[i as int],
                m <= u.requires@.len(),
                forall|m2: int| 0 <= m2 < m ==> self.known(#[trigger] views(u.requires@)[m2]),
            decreases u.requires@.len() - m,
        {
            let dc = str_chars(u.requires[m].as_str());
            if self.find(dc.as_slice()).is_none() {
                assert(views(u.requires@)[m as int] == dc@);
                return Err(BackendError::UnknownRequire { unit: u.id.clone(), dep: u.requires[m].clone() });
            }
            m = m + 1;
        }
        match self.scope_of(u.id.as_str()) {
            Ok(_) => Ok(()),
            Err(e) => Err(e),
        }
    }

    /// Reads the unit `sources` (`(id, source)` pairs): a source's leading lines starting with
    /// `<comment_prefix> requires:` list its requirements, comma-separated; blank header lines
    /// are skipped; the rest, without trailing blank lines, is the body. `indent_str` is one
    /// indent level of the emitted bundle; `unit_indent` is the width of one indent level in the
    /// unit sources (0 leaves body lines exactly as written). Refused, in this order: a duplicate
    /// id (the first one in source order), then, in id order, a requirement naming no unit or
    /// a unit whose prefix names no scope.
    pub fn new(
        comment_prefix: &str,
        indent_str: &'static str,
        unit_indent: usize,
        scopes: Vec<RuntimeScope>,
        sources: &[(&str, &str)],
    ) -> (r: Result<Self, BackendError>)
        ensures
            new_outcome(comment_prefix@, indent_str@, unit_indent as nat, scopes@, sources@, r),
    {
        let ghost ids = source_ids(sources@);
        let mut marker = str_chars(comment_prefix);
        let suffix = str_chars(" requires:");
        let ghost m0 = marker@;
        let mut q: usize = 0;
        while q < suffix.len()
            invariant
                q <= suffix@.len(),
                marker@ == m0 + suffix@.subrange(0, q as int),
            decreases suffix@.len() - q,
        {
            marker.push(suffix[q]);
            q = q + 1;
        }
        assert(suffix@.subrange(0, suffix@.len() as int) == suffix@);
        let ghost mk = marker@;
        assert(mk == requires_marker(comment_prefix@));
        let mut units: Vec<RuntimeUnit> = Vec::new();
        let ghost mut place: Seq<int> = Seq::empty();
        let ghost mut orig: Seq<int> = Seq::empty();
        let mut k: usize = 0;
        while k < sources.len()
            invariant
                k <= sources@.len(),
                ids == source_ids(sources@),
                mk == marker@,
                mk == requires_marker(comment_prefix@),
                units@.len() == k,
                distinct_upto(ids, k as int),
                units_sorted(units@),
                orig.len() == k,
                place.len() == k,
                forall|a: int| 0 <= a < k ==> 0 <= #[trigger] orig[a] < k && unit_from_source(units@[a], sources@, mk, orig[a]),
                forall|kk: int| 0 <= kk < k ==> 0 <= #[trigger] place[kk] < k && unit_from_source(units@[place[kk]], sources@, mk, kk),
            decreases sources@.len() - k,
        {
            let (id, source) = sources[k];
            assert(ids[k as int] == id@);
            let idc = str_chars(id);
            let mut pos: usize = 0;
            while pos < units.len()
                invariant
                    pos <= units@.len(),
                    forall|i: int| 0 <= i < pos ==> lex_lt(#[trigger] units@[i].id@, idc@),
                ensures
                    pos <= units@.len(),
                    forall|i: int| 0 <= i < pos ==> lex_lt(#[trigger] units@[i].id@, idc@),
                    pos < units@.len() ==> !lex_lt(units@[pos as int].id@, idc@),
                decreases units@.len() - pos,
            {
                let c = str_chars(units[pos].id.as_str());
                if !lex_less(c.as_slice(), idc.as_slice()) {
                    break;
                }
                pos = pos + 1;
            }
            if pos < units.len() {
                let c = str_chars(units[pos].id.as_str());
                if chars_eq(c.as_slice(), idc.as_slice()) {
                    proof {
                        let j = orig[pos as int];
                        assert(ids[j] == ids[k as int]);
                        assert(0 <= j < k);
                    }
                    return Err(BackendError::DuplicateUnit { id: to_owned(id) });
                }
            }
            proof {
                if pos < units@.len() {
                    lemma_lex_total(units@[pos as int].id@, idc@);
                }
                assert forall|i: int, j: int| 0 <= i < j < k + 1 implies ids[i] != ids[j] by {
                    if j == k {
                        let a = place[i];
                        assert(units@[a].id@ == ids[i]);
                        if a < pos {
                            lemma_lex_irreflexive(idc@);
                        } else if a > pos {
                            assert(lex_lt(units@[pos as int].id@, units@[a].id@));
                            lemma_lex_transitive(idc@, units@[pos as int].id@, units@[a].id@);
                            lemma_lex_irreflexive(idc@);
                        }
                    }
                }
            }
            let (reqs, body) = parse_source(source, marker.as_slice());
            let ghost old_units = units@;
            let ghost old_place = place;
            let ghost old_orig = orig;
            units.insert(pos, RuntimeUnit { id: to_owned(id), requires: reqs, body });
            proof {
                let np = pos as int;
                place = old_place.map_values(|x: int| if x >= np { x + 1 } else { x }).push(np);
                orig = old_orig.insert(np, k as int);
                assert(unit_from_source(units@[np], sources@, mk, k as int));
                assert forall|i: int, j: int| 0 <= i < j < k + 1 implies lex_lt(#[trigger] units@[i].id@, #[trigger] units@[j].id@) by {
                    if j < np {
                        assert(units@[i] == old_units[i] && units@[j] == old_units[j]);
                    } else if j == np {
                        assert(units@[i] == old_units[i]);
                    } else if i == np {
                        assert(units@[j] == old_units[j - 1]);
                        if j - 1 > np {
                            assert(lex_lt(old_units[np].id@, old_units[j - 1].id@));
                            lemma_lex_transitive(idc@, old_units[np].id@, old_units[j - 1].id@);
                        }
                    } else if i < np {
                        assert(units@[i] == old_units[i]);
                        assert(units@[j] == old_units[j - 1]);
                        if i < j - 1 {
                            assert(lex_lt(old_units[i].id@, old_units[j - 1].id@));
                        } else {
                            assert(lex_lt(old_units[i].id@, idc@));
                            lemma_lex_total(old_units[np].id@, idc@);
                            lemma_lex_transitive(old_units[i].id@, idc@, old_units[j - 1].id@);
                        }
                    } else {
                        assert(units@[i] == old_units[i - 1]);
                        assert(units@[j] == old_units[j - 1]);
                    }
                }
                assert forall|a: int| 0 <= a < k + 1 implies 0 <= #[trigger] orig[a] < k + 1
                    && unit_from_source(units@[a], sources@, mk, orig[a]) by {
                    if a < np {
                        assert(units@[a] == old_units[a]);
                        assert(orig[a] == old_orig[a]);
                    } else if a > np {
                        assert(units@[a] == old_units[a - 1]);
                        assert(orig[a] == old_orig[a - 1]);
                    }
                }
                assert forall|kk: int| 0 <= kk < k + 1 implies 0 <= #[trigger] place[kk] < k + 1
                    && unit_from_source(units@[place[kk]], sources@, mk, kk) by {
                    if kk < k {
                        let w = old_place[kk];
                        if w >= np {
                            assert(place[kk] == w + 1);
                            assert(units@[w + 1] == old_units[w]);
                        } else {
                            assert(place[kk] == w);
                            assert(units@[w] == old_units[w]);
                        }
                    }
                }
            }
            k = k + 1;
        }
        let bundler = RuntimeBundler { scopes, units, indent_str, unit_indent };
        assert(units_match(bundler.units@, sources@, mk, orig, place));
        let n = bundler.units.len();
        let mut i: usize = 0;
        while i < n
            invariant
                n == bundler.units@.len() == sources@.len(),
                i <= n,
                ids == source_ids(sources@),
                mk == requires_marker(comment_prefix@),
                distinct_upto(ids, n as int),
                units_sorted(bundler.units@),
                units_match(bundler.units@, sources@, mk, orig, place),
                bundler.scopes@ == scopes@,
                forall|a: int| 0 <= a < i ==> source_valid(sources@, mk, scopes@, #[trigger] orig[a]),
            decreases n - i,
        {
            let ghost src = orig[i as int];
            proof {
                lemma_same_ids(bundler.units@, sources@, mk, orig, place);
            }
            match bundler.check_unit(i) {
                Ok(_) => {},
                Err(e) => {
                    proof {
                        lemma_earlier_valid(bundler.units@, sources@, mk, scopes@, orig, place, i as int);
                        let u = bundler.units@[i as int];
                        assert(unit_from_source(u, sources@, mk, src));
                        assert(ids[src] == u.id@);
                        let reqs = source_requires(sources@[src].1@, mk);
                        assert(views(u.requires@) == reqs);
                        if e is UnknownRequire {
                            let dep = e->dep;
                            let m = choose|m: int| 0 <= m < views(u.requires@).len() && #[trigger] views(u.requires@)[m]
                                == dep@ && !bundler.known(dep@) && forall|m2: int| 0 <= m2 < m ==> bundler.known(
                                #[trigger] views(u.requires@)[m2]);
                            assert(reqs[m] == dep@);
                            assert(!ids.contains(dep@));
                            assert forall|m2: int| 0 <= m2 < m implies ids.contains(#[trigger] reqs[m2]) by {
                                assert(bundler.known(views(u.requires@)[m2]));
                            }
                            assert(ids[src] == e->UnknownRequire_unit@);
                        } else if e is UnknownScope {
                            assert forall|m2: int| 0 <= m2 < reqs.len() implies ids.contains(#[trigger] reqs[m2]) by {
                                assert(bundler.known(views(u.requires@)[m2]));
                            }
                            assert(ids[src] == e->UnknownScope_unit@);
                        }
                    }
                    return Err(e);
                },
            }
            i = i + 1;
        }
        proof {
            lemma_same_ids(bundler.units@, sources@, mk, orig, place);
            assert forall|kk: int| 0 <= kk < ids.len() implies source_valid(sources@, mk, scopes@, kk) by {
                let w = place[kk];
                let o = orig[w];
                assert(ids[o] == ids[kk]);
                if o < kk {
                    assert(ids[o] != ids[kk]);
                } else if o > kk {
                    assert(ids[kk] != ids[o]);
                }
            }
            assert forall|a: int, m: int| 0 <= a < bundler.ids().len() && 0 <= m < bundler.units_spec()[a].requires@.len()
                implies bundler.known(#[trigger] bundler.units_spec()[a].requires@[m]@) by {
                let o = orig[a];
                assert(source_valid(sources@, mk, scopes@, o));
                assert(views(bundler.units@[a].requires@)[m] == bundler.units@[a].requires@[m]@);
                assert(ids.contains(source_requires(sources@[o].1@, mk)[m]));
            }
            assert forall|a: int| 0 <= a < bundler.ids().len() implies (#[trigger] bundler.scope_of_spec(bundler.ids()[a])) is Some by {
                let o = orig[a];
                assert(source_valid(sources@, mk, scopes@, o));
                assert(bundler.ids()[a] == ids[o]);
            }
            assert forall|kk: int| 0 <= kk < ids.len() implies #[trigger] read_into(bundler.units_spec(), sources@, mk, kk) by {
                assert(unit_from_source(bundler.units_spec()[place[kk]], sources@, mk, kk));
            }
            assert forall|a: int| 0 <= a < bundler.units_spec().len() implies #[trigger] read_from(bundler.units_spec(), sources@, mk, a) by {
                assert(unit_from_source(bundler.units_spec()[a], sources@, mk, orig[a]));
            }
        }
        Ok(bundler)
    }
}

/// Whether a bundle built with `default_wasi` carries the built-in WASI as an import fallback:
/// `default_wasi` is on and some imported function's module is a WASI module whose function
/// has a `wasi/<name>` unit.
pub open spec fn wasi_bundled_spec(module: Module, default_wasi: bool, bundler: RuntimeBundler) -> bool {
    default_wasi && exists|i: int| 0 <= i < module.imported_funcs@.len()
        && is_wasi_module_spec(#[trigger] module.imported_funcs@[i].module@)
        && bundler.known("wasi/"@ + module.imported_funcs@[i].name@)
}

/// Whether the generated artifact carries the built-in WASI as an import fallback, and so takes
/// the backend's args/env/preopens entry points: `default_wasi` is on and the module imports at
/// least one WASI function `bundler` has a unit for.
pub fn wasi_bundled(module: &Module, default_wasi: bool, bundler: &RuntimeBundler) -> (r: bool)
    ensures
        r == wasi_bundled_spec(*module, default_wasi, *bundler),
{
    if !default_wasi {
        return false;
    }
    let fs = &module.imported_funcs;
    let mut i: usize = 0;
    while i < fs.len()
        invariant
            i <= fs@.len(),
            default_wasi,
            *fs == module.imported_funcs,
            forall|j: int| 0 <= j < i ==> !(is_wasi_module_spec(#[trigger] fs@[j].module@)
                && bundler.known("wasi/"@ + fs@[j].name@)),
        decreases fs@.len() - i,
    {
        if is_wasi_module(fs[i].module.as_str()) {
            let mut id = to_owned("wasi/");
            push_str(&mut id, fs[i].name.as_str());
            proof {
                reveal_strlit("wasi/");
            }
            assert(id@ == "wasi/"@ + fs@[i as int].name@);
            if bundler.has_unit(id.as_str()) {
                assert(is_wasi_module_spec(module.imported_funcs@[i as int].module@)
                    && bundler.known("wasi/"@ + module.imported_funcs@[i as int].name@));
                return true;
            }
        }
        i = i + 1;
    }
    false
}

/// Whether `bundler` carries a WASI preview 1 unit for the function `name`: a `wasi/<name>`
/// unit.
pub fn has_wasi_p1(bundler: &RuntimeBundler, name: &str) -> (r: bool)
    ensures
        r == bundler.known("wasi/"@ + name@),
{
    let mut id = to_owned("wasi/");
    push_str(&mut id, name);
    bundler.has_unit(id.as_str())
}

} // verus!
