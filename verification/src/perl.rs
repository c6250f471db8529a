//! The Perl backend's runtime layout, declared support, and the small spelling helpers of its
//! lowering: packages and strings as Perl writes them.
use vstd::prelude::*;

use crate::bundler::{RuntimeBundler, RuntimeScope, bundle_outcome, law_bundle_succeeds_iff_known, lemma_sorted_unique, new_outcome, is_sorted_closure, views};
use crate::ruby::{path_segments, split_path};
use crate::ir::{Feature, Stmt, Temp};
use crate::support::{Backend, BackendError, CharClass, SupportStatus, is_ident_chars, is_ident_spec, module_name_error};
use crate::text::{push_char, push_decimal, push_hex, push_str, str_chars, to_owned, decimal, hex_spec};

verus! {

/// The Perl runtime's scopes, in bundle order: the `Rt` root and its `Memory`, `Table`,
/// `Global` and `WASI` packages.
pub open spec fn perl_scopes() -> Seq<RuntimeScope> {
    seq![
        RuntimeScope { prefix: "rt", open: "package Rt;", close: "", prelude: Some("rt/_package") },
        RuntimeScope { prefix: "memory", open: "package Rt::Memory;", close: "", prelude: Some("memory/_package") },
        RuntimeScope { prefix: "table", open: "package Rt::Table;", close: "", prelude: Some("table/_package") },
        RuntimeScope { prefix: "global", open: "package Rt::Global;", close: "", prelude: Some("global/_package") },
        RuntimeScope { prefix: "wasi", open: "package Rt::WASI;", close: "", prelude: None },
    ]
}

fn runtime_scopes() -> (r: Vec<RuntimeScope>)
    ensures
        r@ == perl_scopes(),
{
    let mut v: Vec<RuntimeScope> = Vec::new();
    v.push(RuntimeScope { prefix: "rt", open: "package Rt;", close: "", prelude: Some("rt/_package") });
    v.push(RuntimeScope { prefix: "memory", open: "package Rt::Memory;", close: "", prelude: Some("memory/_package") });
    v.push(RuntimeScope { prefix: "table", open: "package Rt::Table;", close: "", prelude: Some("table/_package") });
    v.push(RuntimeScope { prefix: "global", open: "package Rt::Global;", close: "", prelude: Some("global/_package") });
    v.push(RuntimeScope { prefix: "wasi", open: "package Rt::WASI;", close: "", prelude: None });
    v
}

/// The Perl runtime bundler over the unit `sources`: `#` comments, four-space indentation,
/// unit bodies re-emitted as written.
pub fn bundler(sources: &[(&str, &str)]) -> (r: Result<RuntimeBundler, BackendError>)
    ensures
        new_outcome("#"@, "    "@, 0, perl_scopes(), sources@, r),
{
    RuntimeBundler::new("#", "    ", 0, runtime_scopes(), sources)
}

/// What a shared runtime for the closure of `seeds` gives: the bundle of the sorted closure at
/// the root level followed by `package main;`, or an error naming an id the closure reaches that
/// names no unit.
pub open spec fn shared_runtime_outcome(b: RuntimeBundler, seeds: Seq<Seq<char>>, r: Result<String, BackendError>) -> bool {
    match r {
        Ok(text) => exists|cl: Seq<Seq<char>>| #[trigger] is_sorted_closure(b, seeds, cl)
            && text@ == b.bundle_text(cl, 0) + "package main;\n"@,
        Err(BackendError::UnknownUnit { id }) => !b.known(id@) && b.in_closure(seeds, id@),
        Err(_) => false,
    }
}

/// A shared runtime is the bundle of the same seeds at the root level, switched back to
/// `package main;`: both succeed or fail together, and on success the shared runtime is the
/// bundle's text followed by `package main;` and a newline.
pub proof fn law_shared_runtime_is_bundle(
    b: RuntimeBundler,
    seeds: Seq<Seq<char>>,
    rs: Result<String, BackendError>,
    rb: Result<String, BackendError>,
)
    requires
        b.wf(),
        shared_runtime_outcome(b, seeds, rs),
        bundle_outcome(b, seeds, 0, rb),
    ensures
        rs is Ok <==> rb is Ok,
        rs is Ok ==> rs->Ok_0@ == rb->Ok_0@ + "package main;\n"@,
{
    law_bundle_succeeds_iff_known(b, seeds, 0, rb);
    if rs is Ok {
        let c1 = choose|cl: Seq<Seq<char>>| #[trigger] is_sorted_closure(b, seeds, cl)
            && rs->Ok_0@ == b.bundle_text(cl, 0) + "package main;\n"@;
        assert forall|id: Seq<char>| b.in_closure(seeds, id) implies b.known(id) by {
            assert(c1.contains(id));
            let k = choose|k: int| 0 <= k < c1.len() && c1[k] == id;
            assert(b.known(c1[k]));
        }
        let c2 = choose|cl: Seq<Seq<char>>| #[trigger] is_sorted_closure(b, seeds, cl) && rb->Ok_0@ == b.bundle_text(cl, 0);
        assert forall|x: Seq<char>| c1.contains(x) <==> c2.contains(x) by {
            assert(c1.contains(x) <==> b.in_closure(seeds, x));
            assert(c2.contains(x) <==> b.in_closure(seeds, x));
        }
        lemma_sorted_unique(c1, c2);
    } else if rb is Ok {
        match rs {
            Err(BackendError::UnknownUnit { id }) => {
                assert(b.in_closure(seeds, id@));
            },
            _ => {},
        }
    }
}

/// A shared runtime for the closure of `seeds`: the bundle at the root level, then a switch
/// back to `package main;`.
pub fn shared_runtime(bundler: &RuntimeBundler, seeds: &[String]) -> (r: Result<String, BackendError>)
    requires
        bundler.wf(),
    ensures
        shared_runtime_outcome(*bundler, views(seeds@), r),
{
    match bundler.bundle(seeds, 0) {
        Ok(mut text) => {
            push_str(&mut text, "package main;\n");
            Ok(text)
        },
        Err(e) => Err(e),
    }
}

/// The Perl backend.
pub struct PerlBackend;

/// The Perl backend's declared support: floats and the whole wasm-1.0 completion (imported
/// globals, memories and tables, several tables, the table half of bulk memory); nothing else.
pub open spec fn perl_status(feature: Feature) -> SupportStatus {
    match feature {
        Feature::Floats | Feature::ImportedGlobals | Feature::ImportedMemories | Feature::ImportedTables
        | Feature::MultipleTables | Feature::TableBulkOps => SupportStatus::Supported,
        _ => SupportStatus::Unsupported,
    }
}

impl Backend for PerlBackend {
    open spec fn status_spec(&self, feature: Feature) -> SupportStatus {
        perl_status(feature)
    }

    open spec fn name_spec(&self) -> Seq<char> {
        "perl"@
    }

    open spec fn extension_spec(&self) -> Seq<char> {
        "pl"@
    }

    fn name(&self) -> (r: &'static str) {
        "perl"
    }

    fn file_extension(&self) -> (r: &'static str) {
        "pl"
    }

    fn feature_status(&self, feature: Feature) -> (r: SupportStatus) {
        match feature {
            Feature::Floats | Feature::ImportedGlobals | Feature::ImportedMemories | Feature::ImportedTables
            | Feature::MultipleTables | Feature::TableBulkOps => SupportStatus::Supported,
            _ => SupportStatus::Unsupported,
        }
    }
}

/// The Perl package grammar a library-mode module name must match.
pub open spec fn perl_grammar() -> Seq<char> {
    "a package name: `::`-separated segments each matching [A-Za-z_][A-Za-z0-9_]* (e.g. Add, Dewasm::Sqlite3)"@
}

/// Whether `name` is a Perl package name: `::`-separated segments, each an identifier.
pub open spec fn is_package_name(name: Seq<char>) -> bool {
    forall|i: int| 0 <= i < path_segments(name).len() ==> is_ident_spec(#[trigger] path_segments(name)[i],
        CharClass::AlphaOrUnderscore, CharClass::AlnumOrUnderscore)
}

/// Checks a library-mode module name: a Perl package name, used verbatim.
pub fn check_module_name(name: &str) -> (r: Result<(), BackendError>)
    ensures
        match r {
            Ok(_) => is_package_name(name@),
            Err(BackendError::InvalidModuleName { language, name: n, grammar }) => !is_package_name(name@)
                && language@ == "perl"@ && n@ == name@ && grammar@ == perl_grammar(),
            Err(_) => false,
        },
{
    let segs = split_path(name);
    let ghost sv = segs@.map_values(|s: Vec<char>| s@);
    let mut i: usize = 0;
    while i < segs.len()
        invariant
            i <= segs@.len(),
            sv == segs@.map_values(|s: Vec<char>| s@),
            sv == path_segments(name@),
            forall|j: int| 0 <= j < i ==> is_ident_spec(#[trigger] sv[j], CharClass::AlphaOrUnderscore,
                CharClass::AlnumOrUnderscore),
        decreases segs@.len() - i,
    {
        if !is_ident_chars(segs[i].as_slice(), CharClass::AlphaOrUnderscore, CharClass::AlnumOrUnderscore) {
            assert(sv[i as int] == segs@[i as int]@);
            return Err(module_name_error(
                "perl",
                name,
                "a package name: `::`-separated segments each matching [A-Za-z_][A-Za-z0-9_]* (e.g. Add, Dewasm::Sqlite3)",
            ));
        }
        i = i + 1;
    }
    Ok(())
}

/// The escape of one character inside a Perl single-quoted literal.
pub open spec fn perl_escape(c: char) -> Seq<char> {
    if c == '\'' {
        seq!['\\', '\'']
    } else if c == '\\' {
        seq!['\\', '\\']
    } else {
        seq![c]
    }
}

/// The escapes of `cs`, concatenated.
pub open spec fn perl_escapes(cs: Seq<char>) -> Seq<char>
    decreases cs.len(),
{
    if cs.len() == 0 {
        seq![]
    } else {
        perl_escapes(cs.drop_last()) + perl_escape(cs.last())
    }
}

/// A Perl single-quoted string literal for `s`: only `'` and `\` are escaped, so `$` and `@`
/// stay inert and control characters pass as they are.
pub fn perl_string(s: &str) -> (r: String)
    ensures
        r@ == seq!['\''] + perl_escapes(s@) + seq!['\''],
{
    let cs = str_chars(s);
    let mut out = String::new();
    push_char(&mut out, '\'');
    let mut i: usize = 0;
    while i < cs.len()
        invariant
            i <= cs@.len(),
            out@ == seq!['\''] + perl_escapes(cs@.subrange(0, i as int)),
        decreases cs@.len() - i,
    {
        let c = cs[i];
        if c == '\'' {
            push_char(&mut out, '\\');
            push_char(&mut out, '\'');
        } else if c == '\\' {
            push_char(&mut out, '\\');
            push_char(&mut out, '\\');
        } else {
            push_char(&mut out, c);
        }
        proof {
            let t = cs@.subrange(0, i + 1);
            assert(t.drop_last() == cs@.subrange(0, i as int));
            assert(t.last() == c);
        }
        i = i + 1;
    }
    assert(cs@.subrange(0, cs@.len() as int) == cs@);
    push_char(&mut out, '\'');
    out
}

/// `data` as a Perl expression: `pack('H*', '<lowercase hex>')`.
pub fn hex_bytes(data: &[u8]) -> (r: String)
    ensures
        r@ == "pack('H*', '"@ + hex_spec(data@) + "')"@,
{
    let mut out = to_owned("pack('H*', '");
    push_hex(&mut out, data);
    push_str(&mut out, "')");
    out
}

/// The Perl variable holding a stack temporary: `$s<depth>`.
pub fn temp(t: Temp) -> (r: String)
    ensures
        r@ == "$s"@ + decimal(t.depth as nat),
{
    let mut out = to_owned("$s");
    push_decimal(&mut out, t.depth as u128);
    out
}

/// What a call's results are assigned as: the bare call when it has none, `$sN = call;` for
/// one, a list assignment for several.
pub open spec fn assign_results_spec(results: Seq<Temp>, call: Seq<char>) -> Seq<char> {
    if results.len() == 0 {
        call + ";"@
    } else if results.len() == 1 {
        "$s"@ + decimal(results[0].depth as nat) + " = "@ + call + ";"@
    } else {
        "("@ + temp_list(results) + ") = "@ + call + ";"@
    }
}

/// The temporaries' variables, joined by `, `.
pub open spec fn temp_list(results: Seq<Temp>) -> Seq<char>
    decreases results.len(),
{
    if results.len() == 0 {
        seq![]
    } else if results.len() == 1 {
        "$s"@ + decimal(results[0].depth as nat)
    } else {
        temp_list(results.drop_last()) + ", "@ + "$s"@ + decimal(results.last().depth as nat)
    }
}

/// Assigns the results of `call` to the temporaries `results`.
pub fn assign_results(results: &[Temp], call: &str) -> (r: String)
    ensures
        r@ == assign_results_spec(results@, call@),
{
    if results.len() == 0 {
        let mut out = to_owned(call);
        push_str(&mut out, ";");
        return out;
    }
    if results.len() == 1 {
        let mut out = temp(results[0]);
        push_str(&mut out, " = ");
        push_str(&mut out, call);
        push_str(&mut out, ";");
        return out;
    }
    let mut names = temp(results[0]);
    assert(results@.subrange(0, 1).drop_last().len() == 0);
    let mut i: usize = 1;
    while i < results.len()
        invariant
            1 <= i <= results@.len(),
            names@ == temp_list(results@.subrange(0, i as int)),
        decreases results@.len() - i,
    {
        push_str(&mut names, ", ");
        let t = temp(results[i]);
        push_str(&mut names, t.as_str());
        proof {
            let s = results@.subrange(0, i + 1);
            assert(s.drop_last() == results@.subrange(0, i as int));
            assert(s.last() == results@[i as int]);
        }
        i = i + 1;
    }
    assert(results@.subrange(0, results@.len() as int) == results@);
    let mut out = to_owned("(");
    push_str(&mut out, names.as_str());
    push_str(&mut out, ") = ");
    push_str(&mut out, call);
    push_str(&mut out, ";");
    out
}

/// Whether `s` is, or holds at any depth, a `br_table`.
pub open spec fn stmt_has_br_table(s: Stmt) -> bool
    decreases s,
{
    match s {
        Stmt::BrTable { .. } => true,
        Stmt::Block { body, .. } | Stmt::Loop { body, .. } => seq_has_br_table_spec(body@),
        Stmt::If { then, els, .. } => seq_has_br_table_spec(then@) || seq_has_br_table_spec(els@),
        _ => false,
    }
}

/// Whether any statement of `stmts` holds a `br_table`, at any depth.
pub open spec fn seq_has_br_table_spec(stmts: Seq<Stmt>) -> bool
    decreases stmts,
{
    if stmts.len() == 0 {
        false
    } else {
        stmt_has_br_table(stmts[stmts.len() - 1]) || seq_has_br_table_spec(stmts.subrange(0, stmts.len() - 1))
    }
}

fn stmt_has_br_table_exec(s: &Stmt) -> (r: bool)
    ensures
        r == stmt_has_br_table(*s),
    decreases s,
{
    match s {
        Stmt::BrTable { .. } => true,
        Stmt::Block { body, .. } | Stmt::Loop { body, .. } => seq_has_br_table(body.as_slice()),
        Stmt::If { then, els, .. } => seq_has_br_table(then.as_slice()) || seq_has_br_table(els.as_slice()),
        _ => false,
    }
}

/// Whether `stmts` holds a `br_table` at any depth (which needs the per-function selector
/// variable declared).
pub fn seq_has_br_table(stmts: &[Stmt]) -> (r: bool)
    ensures
        r == seq_has_br_table_spec(stmts@),
    decreases stmts@,
{
    let mut i: usize = 0;
    let mut found = false;
    while i < stmts.len()
        invariant
            i <= stmts@.len(),
            found == seq_has_br_table_spec(stmts@.subrange(0, i as int)),
        decreases stmts@.len() - i,
    {
        let u = stmt_has_br_table_exec(&stmts[i]);
        proof {
            let t = stmts@.subrange(0, i + 1);
            assert(t.subrange(0, t.len() - 1) == stmts@.subrange(0, i as int));
        }
        found = found || u;
        i = i + 1;
    }
    assert(stmts@.subrange(0, stmts@.len() as int) == stmts@);
    found
}

} // verus!
