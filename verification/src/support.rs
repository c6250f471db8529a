//! The backend contract and the lowering helpers every backend shares.
use vstd::prelude::*;

use crate::ir::{ElemItem, ElemKind, Feature, FuncType, LoadOp, Module, Stmt, StoreOp, ValType};
use crate::text::{debug_quote, debug_spelling, push_char, push_hex, push_str, str_chars, str_eq, hex_spec, to_owned};

verus! {

/// How far a backend implements a feature.
#[derive(Clone, Copy, PartialEq, Eq, Debug)]
pub enum SupportStatus {
    Supported,
    Partial(&'static str),
    Unsupported,
}

/// What kind of artifact to emit.
#[derive(Clone, Copy, PartialEq, Eq, Debug, Structural)]
pub enum Mode {
    /// A module that is instantiated with an imports object and exposes its exports to the host
    /// language.
    Library,
    /// A runnable program that wires up WASI and calls `_start`.
    Standalone,
}

/// How generated code gets its runtime. Generated code always refers to the runtime by a
/// relative name; linkage only decides where that name is defined.
#[derive(Clone, Debug, PartialEq, Eq)]
pub enum RuntimeLinkage {
    /// Nest the needed runtime units inside the generated module itself.
    Embedded,
    /// Emit only an alias to a runtime defined elsewhere.
    Alias(String),
}

/// Where the data-segment sidecar goes.
#[derive(Clone, Debug)]
pub struct DataFileConfig {
    /// The filename the generated program references relative to itself.
    pub sidecar_name: String,
}

/// The options of one generation.
#[derive(Clone, Debug)]
pub struct GenOptions {
    pub mode: Mode,
    /// Class/package/module name for the generated code, and the stem of the output file name.
    pub module_name: String,
    pub runtime: RuntimeLinkage,
    /// Bundle the built-in WASI implementation as a fallback for WASI imports the embedder does
    /// not provide.
    pub default_wasi: bool,
    /// Externalize data-segment bytes into a binary sidecar instead of embedding them.
    pub data_file: Option<DataFileConfig>,
}

/// One generated file.
pub struct OutputFile {
    pub name: String,
    pub contents: Vec<u8>,
}

/// Why a conversion or a runtime bundle was refused.
#[derive(Debug)]
pub enum BackendError {
    /// The module uses a feature the backend has not declared `Supported`.
    Unsupported { feature: Feature, detail: String },
    /// A library-mode module name outside the backend's grammar.
    InvalidModuleName { language: String, name: String, grammar: String },
    /// Two runtime units share an id.
    DuplicateUnit { id: String },
    /// A unit requires a unit that does not exist.
    UnknownRequire { unit: String, dep: String },
    /// A unit's id names no declared scope.
    UnknownScope { unit: String, prefix: String },
    /// A requested unit does not exist.
    UnknownUnit { id: String },
}

/// The message an error reads as.
pub open spec fn message_spec(e: BackendError) -> Seq<char> {
    match e {
        BackendError::Unsupported { detail, .. } => detail@,
        BackendError::InvalidModuleName { language, name, grammar } => "invalid "@ + language@ + " module name "@
            + debug_spelling(name@) + ": it must be "@ + grammar@ + module_name_hint(),
        BackendError::DuplicateUnit { id } => "duplicate runtime unit "@ + id@,
        BackendError::UnknownRequire { unit, dep } => "unit "@ + unit@ + " requires unknown unit "@ + dep@,
        BackendError::UnknownScope { unit, prefix } => "unit "@ + unit@ + " has unknown scope "@ + prefix@,
        BackendError::UnknownUnit { id } => "unknown runtime unit "@ + id@,
    }
}

/// How an invalid module name is fixed.
pub open spec fn module_name_hint() -> Seq<char> {
    ". Pass a valid one with --module-name (the default is the input file stem), or drop --module-name for --mode standalone, whose internal name is fixed."@
}

impl BackendError {
    /// The error as a message: the construct an unsupported feature was met at; for an invalid
    /// module name, the name, the grammar it must fit and how to pass a valid one; for the
    /// runtime bundle, the unit and what it lacks.
    pub fn message(&self) -> (r: String)
        ensures
            r@ == message_spec(*self),
    {
        match self {
            BackendError::Unsupported { detail, .. } => to_owned(detail.as_str()),
            BackendError::InvalidModuleName { language, name, grammar } => {
                let mut out = to_owned("invalid ");
                push_str(&mut out, language.as_str());
                push_str(&mut out, " module name ");
                let q = debug_quote(name.as_str());
                push_str(&mut out, q.as_str());
                push_str(&mut out, ": it must be ");
                push_str(&mut out, grammar.as_str());
                push_str(&mut out, ". Pass a valid one with --module-name (the default is the input file stem), or drop --module-name for --mode standalone, whose internal name is fixed.");
                out
            },
            BackendError::DuplicateUnit { id } => {
                let mut out = to_owned("duplicate runtime unit ");
                push_str(&mut out, id.as_str());
                out
            },
            BackendError::UnknownRequire { unit, dep } => {
                let mut out = to_owned("unit ");
                push_str(&mut out, unit.as_str());
                push_str(&mut out, " requires unknown unit ");
                push_str(&mut out, dep.as_str());
                out
            },
            BackendError::UnknownScope { unit, prefix } => {
                let mut out = to_owned("unit ");
                push_str(&mut out, unit.as_str());
                push_str(&mut out, " has unknown scope ");
                push_str(&mut out, prefix.as_str());
                out
            },
            BackendError::UnknownUnit { id } => {
                let mut out = to_owned("unknown runtime unit ");
                push_str(&mut out, id.as_str());
                out
            },
        }
    }
}

/// A language backend's declared feature support.
pub trait Backend {
    /// The declared status of `feature`.
    spec fn status_spec(&self, feature: Feature) -> SupportStatus;

    /// The backend's name, as text.
    spec fn name_spec(&self) -> Seq<char>;

    /// The extension of the files it emits, as text.
    spec fn extension_spec(&self) -> Seq<char>;

    /// The backend's name.
    fn name(&self) -> (r: &'static str)
        ensures
            r@ == self.name_spec();

    /// The extension of the files it emits.
    fn file_extension(&self) -> (r: &'static str)
        ensures
            r@ == self.extension_spec();

    /// Declared support per feature.
    fn feature_status(&self, feature: Feature) -> (r: SupportStatus)
        ensures
            r == self.status_spec(feature);
}

pub open spec fn is_supported(s: SupportStatus) -> bool {
    s matches SupportStatus::Supported
}

/// Whether `s` is, or holds at any depth, a statement of the table half of bulk memory.
pub open spec fn stmt_uses_table_bulk_ops(s: Stmt) -> bool
    decreases s,
{
    match s {
        Stmt::TableInit { .. } | Stmt::TableCopy { .. } | Stmt::ElemDrop { .. } => true,
        Stmt::Block { body, .. } | Stmt::Loop { body, .. } | Stmt::TryTable { body, .. } =>
            seq_uses_table_bulk_ops(body@),
        Stmt::If { then, els, .. } => seq_uses_table_bulk_ops(then@) || seq_uses_table_bulk_ops(els@),
        _ => false,
    }
}

/// Whether any statement of `stmts` uses the table half of bulk memory, at any depth.
pub open spec fn seq_uses_table_bulk_ops(stmts: Seq<Stmt>) -> bool
    decreases stmts,
{
    if stmts.len() == 0 {
        false
    } else {
        stmt_uses_table_bulk_ops(stmts[stmts.len() - 1])
            || seq_uses_table_bulk_ops(stmts.subrange(0, stmts.len() - 1))
    }
}

fn stmt_uses_table_bulk_ops_exec(s: &Stmt) -> (r: bool)
    ensures
        r == stmt_uses_table_bulk_ops(*s),
    decreases s,
{
    match s {
        Stmt::TableInit { .. } | Stmt::TableCopy { .. } | Stmt::ElemDrop { .. } => true,
        Stmt::Block { body, .. } | Stmt::Loop { body, .. } | Stmt::TryTable { body, .. } =>
            stmts_use_table_bulk_ops(body.as_slice()),
        Stmt::If { then, els, .. } => stmts_use_table_bulk_ops(then.as_slice())
            || stmts_use_table_bulk_ops(els.as_slice()),
        _ => false,
    }
}

/// Whether `stmts` contains, at any depth, a `table.init`, `table.copy` or `elem.drop`.
pub fn stmts_use_table_bulk_ops(stmts: &[Stmt]) -> (r: bool)
    ensures
        r == seq_uses_table_bulk_ops(stmts@),
    decreases stmts@,
{
    let mut i: usize = 0;
    let mut found = false;
    while i < stmts.len()
        invariant
            i <= stmts@.len(),
            found == seq_uses_table_bulk_ops(stmts@.subrange(0, i as int)),
        decreases stmts@.len() - i,
    {
        let u = stmt_uses_table_bulk_ops_exec(&stmts[i]);
        proof {
            let s = stmts@.subrange(0, i + 1);
            assert(s.subrange(0, s.len() - 1) == stmts@.subrange(0, i as int));
        }
        found = found || u;
        i = i + 1;
    }
    assert(stmts@.subrange(0, stmts@.len() as int) == stmts@);
    found
}

/// The feature a backend must have declared `Supported` before it may meet `m`, with the
/// construct that needs it, checked in a fixed order; `None` when the module needs nothing
/// beyond what every backend implements.
pub open spec fn needs_imported_globals(m: Module) -> bool {
    m.imported_globals@.len() > 0
}

pub open spec fn needs_imported_memories(m: Module) -> bool {
    m.imported_memory is Some
}

pub open spec fn needs_imported_tables(m: Module) -> bool {
    m.imported_tables@.len() > 0
}

pub open spec fn needs_multiple_tables(m: Module) -> bool {
    m.imported_tables@.len() + m.tables@.len() > 1
}

/// Whether an element segment is anything but active with function items only.
pub open spec fn elem_needs_bulk(e: crate::ir::Elem) -> bool {
    !(e.kind is Active) || exists|i: int| 0 <= i < e.items@.len() && !(#[trigger] e.items@[i] is Func)
}

pub open spec fn needs_table_bulk_ops(m: Module) -> bool {
    (exists|i: int| 0 <= i < m.elems@.len() && elem_needs_bulk(#[trigger] m.elems@[i]))
        || (exists|i: int| 0 <= i < m.funcs@.len() && seq_uses_table_bulk_ops(#[trigger] m.funcs@[i].body@))
}

/// The first refusal `check_module_support` raises for `backend` on `m`: the feature and the
/// detail naming the construct.
pub open spec fn module_support_refusal<B: Backend>(backend: &B, m: Module) -> Option<(Feature, Seq<char>)> {
    if !is_supported(backend.status_spec(Feature::ImportedGlobals)) && needs_imported_globals(m) {
        Some((Feature::ImportedGlobals, "imported global"@))
    } else if !is_supported(backend.status_spec(Feature::ImportedMemories)) && needs_imported_memories(m) {
        Some((Feature::ImportedMemories, "imported memory"@))
    } else if !is_supported(backend.status_spec(Feature::ImportedTables)) && needs_imported_tables(m) {
        Some((Feature::ImportedTables, "imported table"@))
    } else if !is_supported(backend.status_spec(Feature::MultipleTables)) && needs_multiple_tables(m) {
        Some((Feature::MultipleTables, "more than one table"@))
    } else if !is_supported(backend.status_spec(Feature::TableBulkOps)) && needs_table_bulk_ops(m) {
        Some((
            Feature::TableBulkOps,
            "passive/declared element segment, ref.null element item, or table.init/copy/elem.drop"@,
        ))
    } else {
        None
    }
}

fn elem_needs_bulk_exec(e: &crate::ir::Elem) -> (r: bool)
    ensures
        r == elem_needs_bulk(*e),
{
    match e.kind {
        ElemKind::Active { .. } => {},
        _ => return true,
    }
    let mut i: usize = 0;
    while i < e.items.len()
        invariant
            i <= e.items@.len(),
            forall|j: int| 0 <= j < i ==> e.items@[j] is Func,
        decreases e.items@.len() - i,
    {
        match e.items[i] {
            ElemItem::Func(_) => {},
            _ => return true,
        }
        i = i + 1;
    }
    false
}

fn module_needs_table_bulk_ops(m: &Module) -> (r: bool)
    ensures
        r == needs_table_bulk_ops(*m),
{
    let mut i: usize = 0;
    while i < m.elems.len()
        invariant
            i <= m.elems@.len(),
            forall|j: int| 0 <= j < i ==> !elem_needs_bulk(#[trigger] m.elems@[j]),
        decreases m.elems@.len() - i,
    {
        if elem_needs_bulk_exec(&m.elems[i]) {
            return true;
        }
        i = i + 1;
    }
    let mut k: usize = 0;
    while k < m.funcs.len()
        invariant
            k <= m.funcs@.len(),
            forall|j: int| 0 <= j < m.elems@.len() ==> !elem_needs_bulk(#[trigger] m.elems@[j]),
            forall|j: int| 0 <= j < k ==> !seq_uses_table_bulk_ops(#[trigger] m.funcs@[j].body@),
        decreases m.funcs@.len() - k,
    {
        if stmts_use_table_bulk_ops(m.funcs[k].body.as_slice()) {
            return true;
        }
        k = k + 1;
    }
    false
}

fn unsupported(feature: Feature, detail: &str) -> (r: Result<(), BackendError>)
    ensures
        r matches Err(BackendError::Unsupported { feature: f, detail: d }) && f == feature && d@ == detail@,
{
    let mut d = String::new();
    push_str(&mut d, detail);
    Err(BackendError::Unsupported { feature, detail: d })
}

/// Reject any construct the shared IR represents but `backend` has not declared `Supported`,
/// naming the feature and the construct that needs it.
pub fn check_module_support<B: Backend>(backend: &B, module: &Module) -> (r: Result<(), BackendError>)
    ensures
        match (r, module_support_refusal(backend, *module)) {
            (Ok(()), None) => true,
            (Err(BackendError::Unsupported { feature, detail }), Some((f, d))) => feature == f && detail@ == d,
            _ => false,
        },
{
    let s = backend.feature_status(Feature::ImportedGlobals);
    if !matches!(s, SupportStatus::Supported) && module.imported_globals.len() > 0 {
        return unsupported(Feature::ImportedGlobals, "imported global");
    }
    let s = backend.feature_status(Feature::ImportedMemories);
    if !matches!(s, SupportStatus::Supported) && module.imported_memory.is_some() {
        return unsupported(Feature::ImportedMemories, "imported memory");
    }
    let s = backend.feature_status(Feature::ImportedTables);
    if !matches!(s, SupportStatus::Supported) && module.imported_tables.len() > 0 {
        return unsupported(Feature::ImportedTables, "imported table");
    }
    let s = backend.feature_status(Feature::MultipleTables);
    if !matches!(s, SupportStatus::Supported) && module.imported_tables.len() as u128
        + module.tables.len() as u128 > 1 {
        return unsupported(Feature::MultipleTables, "more than one table");
    }
    let s = backend.feature_status(Feature::TableBulkOps);
    if !matches!(s, SupportStatus::Supported) && module_needs_table_bulk_ops(module) {
        return unsupported(
            Feature::TableBulkOps,
            "passive/declared element segment, ref.null element item, or table.init/copy/elem.drop",
        );
    }
    Ok(())
}

/// The error for a library-mode module name that does not fit `language`'s grammar.
/// `grammar` is the prose form of the rule, quoted verbatim in the message.
pub fn module_name_error(language: &str, name: &str, grammar: &str) -> (r: BackendError)
    ensures
        r matches BackendError::InvalidModuleName { language: l, name: n, grammar: g } && l@
            == language@ && n@ == name@ && g@ == grammar@,
{
    let mut l = String::new();
    push_str(&mut l, language);
    let mut n = String::new();
    push_str(&mut n, name);
    let mut g = String::new();
    push_str(&mut g, grammar);
    BackendError::InvalidModuleName { language: l, name: n, grammar: g }
}

/// A character class an identifier grammar is built from.
#[derive(Clone, Copy, PartialEq, Eq, Debug, Structural)]
pub enum CharClass {
    /// `[A-Z]`.
    Upper,
    /// `[A-Za-z_]`.
    AlphaOrUnderscore,
    /// `[A-Za-z0-9_]`.
    AlnumOrUnderscore,
}

pub open spec fn is_upper(c: char) -> bool {
    'A' <= c && c <= 'Z'
}

pub open spec fn is_lower(c: char) -> bool {
    'a' <= c && c <= 'z'
}

pub open spec fn is_digit(c: char) -> bool {
    '0' <= c && c <= '9'
}

pub open spec fn is_alnum(c: char) -> bool {
    is_upper(c) || is_lower(c) || is_digit(c)
}

/// Whether `c` belongs to `class`.
pub open spec fn in_class(class: CharClass, c: char) -> bool {
    match class {
        CharClass::Upper => is_upper(c),
        CharClass::AlphaOrUnderscore => is_upper(c) || is_lower(c) || c == '_',
        CharClass::AlnumOrUnderscore => is_alnum(c) || c == '_',
    }
}

/// Whether `c` belongs to `class`.
pub fn char_in_class(class: CharClass, c: char) -> (r: bool)
    ensures
        r == in_class(class, c),
{
    let upper = c >= 'A' && c <= 'Z';
    let lower = c >= 'a' && c <= 'z';
    let digit = c >= '0' && c <= '9';
    match class {
        CharClass::Upper => upper,
        CharClass::AlphaOrUnderscore => upper || lower || c == '_',
        CharClass::AlnumOrUnderscore => upper || lower || digit || c == '_',
    }
}

/// Whether `seg` is a non-empty identifier whose first character is in `first` and whose
/// remaining ones are in `rest`.
pub open spec fn is_ident_spec(seg: Seq<char>, first: CharClass, rest: CharClass) -> bool {
    &&& seg.len() > 0
    &&& in_class(first, seg[0])
    &&& forall|i: int| 1 <= i < seg.len() ==> in_class(rest, #[trigger] seg[i])
}

/// Whether the characters `cs` form an identifier of the shape [`is_ident`] checks.
pub fn is_ident_chars(cs: &[char], first: CharClass, rest: CharClass) -> (r: bool)
    ensures
        r == is_ident_spec(cs@, first, rest),
{
    if cs.len() == 0 || !char_in_class(first, cs[0]) {
        return false;
    }
    let mut i: usize = 1;
    while i < cs.len()
        invariant
            1 <= i <= cs@.len(),
            forall|j: int| 1 <= j < i ==> in_class(rest, #[trigger] cs@[j]),
        decreases cs@.len() - i,
    {
        if !char_in_class(rest, cs[i]) {
            return false;
        }
        i = i + 1;
    }
    true
}

/// Whether `seg` is a non-empty identifier whose first character is in `first` and whose
/// remaining ones are in `rest`: the shape every backend's module-name grammar is built out of.
pub fn is_ident(seg: &str, first: CharClass, rest: CharClass) -> (r: bool)
    ensures
        r == is_ident_spec(seg@, first, rest),
{
    let cs = str_chars(seg);
    is_ident_chars(cs.as_slice(), first, rest)
}

/// Whether `stmts` unconditionally leaves the current dispatch state: its last statement that is
/// not a source-position comment is a `br`, a `return` or an `unreachable`, or an `if` with a
/// non-empty `else` both of whose arms leave it.
pub open spec fn terminates_spec(stmts: Seq<Stmt>) -> bool
    decreases stmts,
{
    if stmts.len() == 0 {
        false
    } else {
        let last = stmts[stmts.len() - 1];
        match last {
            Stmt::SourceLine(_) => terminates_spec(stmts.subrange(0, stmts.len() - 1)),
            Stmt::Br(_) | Stmt::Return { .. } | Stmt::Unreachable => true,
            Stmt::If { then, els, .. } => els@.len() > 0 && terminates_spec(then@) && terminates_spec(els@),
            _ => false,
        }
    }
}

/// Whether `stmts` unconditionally leaves the current dispatch state, so a transition appended
/// after it would be unreachable. Deliberately conservative.
pub fn terminates(stmts: &[Stmt]) -> (r: bool)
    ensures
        r == terminates_spec(stmts@),
    decreases stmts@,
{
    let mut n = stmts.len();
    assert(stmts@.subrange(0, n as int) == stmts@);
    while n > 0
        invariant
            n <= stmts@.len(),
            terminates_spec(stmts@) == terminates_spec(stmts@.subrange(0, n as int)),
        decreases n,
    {
        let ghost pre = stmts@.subrange(0, n as int);
        assert(pre.subrange(0, pre.len() - 1) == stmts@.subrange(0, n - 1));
        assert(pre[pre.len() - 1] == stmts@[n - 1]);
        match &stmts[n - 1] {
            Stmt::SourceLine(_) => {
                n = n - 1;
            },
            Stmt::Br(_) | Stmt::Return { .. } | Stmt::Unreachable => {
                return true;
            },
            Stmt::If { then, els, .. } => {
                return els.len() > 0 && terminates(then.as_slice()) && terminates(els.as_slice());
            },
            _ => {
                return false;
            },
        }
    }
    false
}

/// The maximal runs of consecutive equal keys, as `(start, end)` index ranges into `keys`.
pub open spec fn is_run_partition(keys: Seq<u64>, runs: Seq<(usize, usize)>) -> bool {
    &&& runs.len() == 0 <==> keys.len() == 0
    &&& runs.len() > 0 ==> runs[0].0 == 0 && runs[runs.len() - 1].1 == keys.len()
    &&& forall|i: int| 0 <= i < runs.len() ==> #[trigger] runs[i].0 < runs[i].1
    &&& forall|i: int| 0 <= i < runs.len() - 1 ==> #[trigger] runs[i].1 == runs[i + 1].0
    &&& forall|i: int, j: int| #![trigger runs[i], keys[j]] 0 <= i < runs.len() && runs[i].0 <= j < runs[i].1 ==> keys[j]
        == keys[runs[i].0 as int]
    &&& forall|i: int| 0 <= i < runs.len() - 1 ==> keys[#[trigger] runs[i].1 as int] != keys[runs[i].0 as int]
}

/// The maximal runs of consecutive locals that share a key, as index ranges into `keys` (the
/// key each local is grouped by, computed by the caller from its value type): the grouping
/// behind initializing a run in one statement.
pub fn local_runs(keys: &[u64]) -> (r: Vec<(usize, usize)>)
    ensures
        is_run_partition(keys@, r@),
{
    let mut runs: Vec<(usize, usize)> = Vec::new();
    let mut start: usize = 0;
    while start < keys.len()
        invariant
            start <= keys@.len(),
            runs@.len() == 0 <==> start == 0,
            runs@.len() > 0 ==> runs@[0].0 == 0 && runs@[runs@.len() - 1].1 == start,
            forall|i: int| 0 <= i < runs@.len() ==> #[trigger] runs@[i].0 < runs@[i].1,
            forall|i: int| 0 <= i < runs@.len() - 1 ==> #[trigger] runs@[i].1 == runs@[i + 1].0,
            forall|i: int, j: int| #![trigger runs@[i], keys@[j]] 0 <= i < runs@.len() && runs@[i].0 <= j < runs@[i].1 ==> keys@[j]
                == keys@[runs@[i].0 as int],
            forall|i: int| 0 <= i < runs@.len() - 1 ==> keys@[#[trigger] runs@[i].1 as int]
                != keys@[runs@[i].0 as int],
            runs@.len() > 0 && start < keys@.len() ==> keys@[start as int] != keys@[runs@[runs@.len()
                - 1].0 as int],
        decreases keys@.len() - start,
    {
        let k = keys[start];
        let mut end = start + 1;
        while end < keys.len() && keys[end] == k
            invariant
                start < end <= keys@.len(),
                k == keys@[start as int],
                forall|j: int| start <= j < end ==> keys@[j] == k,
            decreases keys@.len() - end,
        {
            end = end + 1;
        }
        let ghost old_runs = runs@;
        runs.push((start, end));
        assert forall|i: int, j: int| #![trigger runs@[i], keys@[j]] 0 <= i < runs@.len() && runs@[i].0 <= j < runs@[i].1 implies keys@[j]
            == keys@[runs@[i].0 as int] by {
            if i < old_runs.len() {
                assert(runs@[i] == old_runs[i]);
            }
        }
        start = end;
    }
    runs
}

/// The runtime-unit name for `op`'s memory read, as the runtime units spell it.
pub open spec fn load_method_spec(op: LoadOp) -> Seq<char> {
    match op {
        LoadOp::I32Load => "i32_load"@,
        LoadOp::I64Load => "i64_load"@,
        LoadOp::F32Load => "f32_load"@,
        LoadOp::F64Load => "f64_load"@,
        LoadOp::I32Load8S => "i32_load8_s"@,
        LoadOp::I32Load8U => "i32_load8_u"@,
        LoadOp::I32Load16S => "i32_load16_s"@,
        LoadOp::I32Load16U => "i32_load16_u"@,
        LoadOp::I64Load8S => "i64_load8_s"@,
        LoadOp::I64Load8U => "i64_load8_u"@,
        LoadOp::I64Load16S => "i64_load16_s"@,
        LoadOp::I64Load16U => "i64_load16_u"@,
        LoadOp::I64Load32S => "i64_load32_s"@,
        LoadOp::I64Load32U => "i64_load32_u"@,
    }
}

/// The runtime-unit name for `op`'s memory read (`i32_load8_u`, ...).
pub fn load_method(op: LoadOp) -> (r: &'static str)
    ensures
        r@ == load_method_spec(op),
{
    match op {
        LoadOp::I32Load => "i32_load",
        LoadOp::I64Load => "i64_load",
        LoadOp::F32Load => "f32_load",
        LoadOp::F64Load => "f64_load",
        LoadOp::I32Load8S => "i32_load8_s",
        LoadOp::I32Load8U => "i32_load8_u",
        LoadOp::I32Load16S => "i32_load16_s",
        LoadOp::I32Load16U => "i32_load16_u",
        LoadOp::I64Load8S => "i64_load8_s",
        LoadOp::I64Load8U => "i64_load8_u",
        LoadOp::I64Load16S => "i64_load16_s",
        LoadOp::I64Load16U => "i64_load16_u",
        LoadOp::I64Load32S => "i64_load32_s",
        LoadOp::I64Load32U => "i64_load32_u",
    }
}

/// The runtime-unit name for `op`'s memory write.
pub open spec fn store_method_spec(op: StoreOp) -> Seq<char> {
    match op {
        StoreOp::I32Store => "i32_store"@,
        StoreOp::I64Store => "i64_store"@,
        StoreOp::F32Store => "f32_store"@,
        StoreOp::F64Store => "f64_store"@,
        StoreOp::I32Store8 => "i32_store8"@,
        StoreOp::I32Store16 => "i32_store16"@,
        StoreOp::I64Store8 => "i64_store8"@,
        StoreOp::I64Store16 => "i64_store16"@,
        StoreOp::I64Store32 => "i64_store32"@,
    }
}

/// The runtime-unit name for `op`'s memory write, the [`load_method`] counterpart.
pub fn store_method(op: StoreOp) -> (r: &'static str)
    ensures
        r@ == store_method_spec(op),
{
    match op {
        StoreOp::I32Store => "i32_store",
        StoreOp::I64Store => "i64_store",
        StoreOp::F32Store => "f32_store",
        StoreOp::F64Store => "f64_store",
        StoreOp::I32Store8 => "i32_store8",
        StoreOp::I32Store16 => "i32_store16",
        StoreOp::I64Store8 => "i64_store8",
        StoreOp::I64Store16 => "i64_store16",
        StoreOp::I64Store32 => "i64_store32",
    }
}

/// The shared wasm spelling of a value type.
pub open spec fn val_name_spec(ty: ValType) -> Seq<char> {
    match ty {
        ValType::I32 => "i32"@,
        ValType::I64 => "i64"@,
        ValType::F32 => "f32"@,
        ValType::F64 => "f64"@,
        ValType::FuncRef => "funcref"@,
    }
}

/// How a value type is spelled inside a structural type key: the shared wasm spelling.
pub fn val_name(ty: ValType) -> (r: &'static str)
    ensures
        r@ == val_name_spec(ty),
{
    match ty {
        ValType::I32 => "i32",
        ValType::I64 => "i64",
        ValType::F32 => "f32",
        ValType::F64 => "f64",
        ValType::FuncRef => "funcref",
    }
}

/// The zero a local of type `ty` starts out as: `0` for the integers, `0.0` for the floats, and
/// the language's null for a reference.
pub fn default_value(ty: ValType, null: &'static str) -> (r: &'static str)
    ensures
        r@ == match ty {
            ValType::I32 | ValType::I64 => "0"@,
            ValType::F32 | ValType::F64 => "0.0"@,
            ValType::FuncRef => null@,
        },
{
    match ty {
        ValType::I32 | ValType::I64 => "0",
        ValType::F32 | ValType::F64 => "0.0",
        ValType::FuncRef => null,
    }
}

/// The value types `tys` spelled by [`val_name`] and joined by `,`.
pub open spec fn names_joined(tys: Seq<ValType>) -> Seq<char>
    decreases tys.len(),
{
    if tys.len() == 0 {
        seq![]
    } else if tys.len() == 1 {
        val_name_spec(tys[0])
    } else {
        names_joined(tys.drop_last()) + seq![','] + val_name_spec(tys.last())
    }
}

fn push_names(out: &mut String, tys: &[ValType])
    ensures
        final(out)@ == old(out)@ + names_joined(tys@),
{
    let ghost start = out@;
    let mut i: usize = 0;
    while i < tys.len()
        invariant
            i <= tys@.len(),
            out@ == start + names_joined(tys@.subrange(0, i as int)),
        decreases tys@.len() - i,
    {
        proof {
            let s = tys@.subrange(0, i + 1);
            assert(s.drop_last() == tys@.subrange(0, i as int));
        }
        if i > 0 {
            push_char(out, ',');
        }
        push_str(out, val_name(tys[i]));
        i = i + 1;
        proof {
            let s = tys@.subrange(0, i as int);
            if i == 1 {
                assert(names_joined(s) == val_name_spec(s[0]));
            }
        }
    }
    assert(tys@.subrange(0, tys@.len() as int) == tys@);
}

/// A structural key for a function type: `params->results`, each value type spelled by
/// [`val_name`], e.g. `i32,i64->f32`. The runtime type tag of a shared table must not be a
/// module-local index, since those disagree across modules.
pub fn type_key(ty: &FuncType) -> (r: String)
    ensures
        r@ == names_joined(ty.params@) + "->"@ + names_joined(ty.results@),
{
    let mut out = String::new();
    push_names(&mut out, ty.params.as_slice());
    push_str(&mut out, "->");
    push_names(&mut out, ty.results.as_slice());
    out
}

/// `data` as lowercase two-digit-per-byte hex, the payload every backend's embedded
/// data-segment literal wraps.
pub fn hex_string(data: &[u8]) -> (r: String)
    ensures
        r@ == hex_spec(data@),
{
    let mut out = String::new();
    push_hex(&mut out, data);
    out
}

/// Whether `name` is a WASI import module name a bundled runtime answers for: preview 1 and
/// its snapshot-0 predecessor, which shares its ABI.
pub open spec fn is_wasi_module_spec(name: Seq<char>) -> bool {
    name == "wasi_snapshot_preview1"@ || name == "wasi_unstable"@
}

/// Whether `name` is a WASI import module name a bundled runtime answers for.
pub fn is_wasi_module(name: &str) -> (r: bool)
    ensures
        r == is_wasi_module_spec(name@),
{
    str_eq(name, "wasi_snapshot_preview1") || str_eq(name, "wasi_unstable")
}

} // verus!
