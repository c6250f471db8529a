//! The Python backend's runtime layout, declared support, and the spelling helpers of its
//! lowering: string literals, masks, and the binary-search dispatch over flattened states.
use vstd::prelude::*;

use crate::bundler::{RuntimeBundler, RuntimeScope, new_outcome, is_sorted_closure, views};
use crate::ir::{Expr, Feature, Stmt, Temp};
use crate::masking::{MaskContext, elides_mask, elides_spec};
use crate::support::{Backend, BackendError, CharClass, SupportStatus, is_ident, is_ident_spec, module_name_error};
use crate::text::{from_chars, hex_char, hex_digit, hex_spec, lines_of, lines_spec, push_char, push_decimal,
    push_hex, push_str, str_chars, to_owned, decimal};
use crate::writer::CodeWriter;

verus! {

/// The Python runtime's scopes, in bundle order: the module-level root, then the `Memory`,
/// `Table`, `Global` and `WASI` classes.
pub open spec fn python_scopes() -> Seq<RuntimeScope> {
    seq![
        RuntimeScope { prefix: "rt", open: "", close: "", prelude: Some("rt/_module") },
        RuntimeScope { prefix: "memory", open: "class Memory:", close: "", prelude: Some("memory/_class") },
        RuntimeScope { prefix: "table", open: "class Table:", close: "", prelude: Some("table/_class") },
        RuntimeScope { prefix: "global", open: "class Global:", close: "", prelude: Some("global/_class") },
        RuntimeScope { prefix: "wasi", open: "class WASI:", close: "", prelude: Some("wasi/_class") },
    ]
}

fn runtime_scopes() -> (r: Vec<RuntimeScope>)
    ensures
        r@ == python_scopes(),
{
    let mut v: Vec<RuntimeScope> = Vec::new();
    v.push(RuntimeScope { prefix: "rt", open: "", close: "", prelude: Some("rt/_module") });
    v.push(RuntimeScope { prefix: "memory", open: "class Memory:", close: "", prelude: Some("memory/_class") });
    v.push(RuntimeScope { prefix: "table", open: "class Table:", close: "", prelude: Some("table/_class") });
    v.push(RuntimeScope { prefix: "global", open: "class Global:", close: "", prelude: Some("global/_class") });
    v.push(RuntimeScope { prefix: "wasi", open: "class WASI:", close: "", prelude: Some("wasi/_class") });
    v
}

/// The Python runtime bundler over the unit `sources`: `#` comments, tab indentation, unit
/// sources indented by four spaces a level.
pub fn bundler(sources: &[(&str, &str)]) -> (r: Result<RuntimeBundler, BackendError>)
    ensures
        new_outcome("#"@, "\t"@, 4, python_scopes(), sources@, r),
{
    RuntimeBundler::new("#", "\t", 4, runtime_scopes(), sources)
}

/// A shared top-level runtime for the closure of `seeds`: `class Rt:` over the bundle one
/// level deep.
pub fn shared_runtime(bundler: &RuntimeBundler, seeds: &[String]) -> (r: Result<String, BackendError>)
    requires
        bundler.wf(),
    ensures
        match r {
            Ok(text) => exists|cl: Seq<Seq<char>>| is_sorted_closure(*bundler, views(seeds@), cl)
                && text@ == "class Rt:\n"@ + bundler.bundle_text(cl, 1),
            Err(BackendError::UnknownUnit { id }) => !bundler.known(id@) && bundler.in_closure(views(seeds@), id@),
            Err(_) => false,
        },
{
    match bundler.bundle(seeds, 1) {
        Ok(text) => {
            let mut out = to_owned("class Rt:\n");
            push_str(&mut out, text.as_str());
            Ok(out)
        },
        Err(e) => Err(e),
    }
}

/// The Python backend.
pub struct PythonBackend;

/// The Python backend's declared support: floats, the wasm-1.0 completion, and exception
/// handling; nothing else.
pub open spec fn python_status(feature: Feature) -> SupportStatus {
    match feature {
        Feature::Floats | Feature::ImportedGlobals | Feature::ImportedMemories | Feature::ImportedTables
        | Feature::MultipleTables | Feature::TableBulkOps | Feature::ExceptionHandling => SupportStatus::Supported,
    }
}

impl Backend for PythonBackend {
    open spec fn status_spec(&self, feature: Feature) -> SupportStatus {
        python_status(feature)
    }

    open spec fn name_spec(&self) -> Seq<char> {
        "python"@
    }

    open spec fn extension_spec(&self) -> Seq<char> {
        "py"@
    }

    fn name(&self) -> (r: &'static str) {
        "python"
    }

    fn file_extension(&self) -> (r: &'static str) {
        "py"
    }

    fn feature_status(&self, feature: Feature) -> (r: SupportStatus) {
        match feature {
            Feature::Floats | Feature::ImportedGlobals | Feature::ImportedMemories | Feature::ImportedTables
            | Feature::MultipleTables | Feature::TableBulkOps | Feature::ExceptionHandling => SupportStatus::Supported,
        }
    }
}

/// The class a standalone program defines.
pub const STANDALONE_CLASS: &'static str = "Program";

/// The module-level name generated code references its runtime by: `<Class>Rt` for a runtime
/// embedded in the artifact, the shared `Rt` for an aliased one.
pub fn runtime_name(class_name: &str, embedded: bool) -> (r: String)
    ensures
        r@ == if embedded { class_name@ + "Rt"@ } else { "Rt"@ },
{
    if embedded {
        let mut out = to_owned(class_name);
        push_str(&mut out, "Rt");
        out
    } else {
        to_owned("Rt")
    }
}

/// Checks a library-mode module name: a single Python identifier, used verbatim.
pub fn check_module_name(name: &str) -> (r: Result<(), BackendError>)
    ensures
        match r {
            Ok(_) => is_ident_spec(name@, CharClass::AlphaOrUnderscore, CharClass::AlnumOrUnderscore),
            Err(BackendError::InvalidModuleName { language, name: n, grammar }) => !is_ident_spec(name@,
                CharClass::AlphaOrUnderscore, CharClass::AlnumOrUnderscore) && language@ == "python"@ && n@
                == name@ && grammar@ == "a single identifier matching [A-Za-z_][A-Za-z0-9_]* (e.g. Add, sqlite3)"@,
            Err(_) => false,
        },
{
    if is_ident(name, CharClass::AlphaOrUnderscore, CharClass::AlnumOrUnderscore) {
        Ok(())
    } else {
        Err(module_name_error("python", name, "a single identifier matching [A-Za-z_][A-Za-z0-9_]* (e.g. Add, sqlite3)"))
    }
}

/// The escape of one character inside a Python double-quoted literal: `"` and `\` escaped,
/// `\n`, `\r` and `\t` by name, any other control character as `\xHH`.
pub open spec fn py_escape(c: char) -> Seq<char> {
    if c == '"' {
        seq!['\\', '"']
    } else if c == '\\' {
        seq!['\\', '\\']
    } else if c == '\n' {
        seq!['\\', 'n']
    } else if c == '\r' {
        seq!['\\', 'r']
    } else if c == '\t' {
        seq!['\\', 't']
    } else if (c as u32) < 0x20 || (c as u32) == 0x7f {
        seq!['\\', 'x', hex_digit(((c as u32) / 16) as nat), hex_digit(((c as u32) % 16) as nat)]
    } else {
        seq![c]
    }
}

/// The escapes of `cs`, concatenated.
pub open spec fn py_escapes(cs: Seq<char>) -> Seq<char>
    decreases cs.len(),
{
    if cs.len() == 0 {
        seq![]
    } else {
        py_escapes(cs.drop_last()) + py_escape(cs.last())
    }
}

fn push_py_escape(out: &mut String, c: char)
    ensures
        final(out)@ == old(out)@ + py_escape(c),
{
    if c == '"' {
        push_char(out, '\\');
        push_char(out, '"');
    } else if c == '\\' {
        push_char(out, '\\');
        push_char(out, '\\');
    } else if c == '\n' {
        push_char(out, '\\');
        push_char(out, 'n');
    } else if c == '\r' {
        push_char(out, '\\');
        push_char(out, 'r');
    } else if c == '\t' {
        push_char(out, '\\');
        push_char(out, 't');
    } else if (c as u32) < 0x20 || (c as u32) == 0x7f {
        let v = c as u32;
        push_char(out, '\\');
        push_char(out, 'x');
        push_char(out, hex_char((v / 16) as u8));
        push_char(out, hex_char((v % 16) as u8));
    } else {
        push_char(out, c);
    }
}

/// A Python double-quoted string literal for `s`.
pub fn py_string(s: &str) -> (r: String)
    ensures
        r@ == seq!['"'] + py_escapes(s@) + seq!['"'],
{
    let cs = str_chars(s);
    let mut out = String::new();
    push_char(&mut out, '"');
    let mut i: usize = 0;
    while i < cs.len()
        invariant
            i <= cs@.len(),
            out@ == seq!['"'] + py_escapes(cs@.subrange(0, i as int)),
        decreases cs@.len() - i,
    {
        push_py_escape(&mut out, cs[i]);
        proof {
            let t = cs@.subrange(0, i + 1);
            assert(t.drop_last() == cs@.subrange(0, i as int));
            assert(t.last() == cs@[i as int]);
        }
        i = i + 1;
    }
    assert(cs@.subrange(0, cs@.len() as int) == cs@);
    push_char(&mut out, '"');
    out
}

/// `data` as a Python expression: `bytes.fromhex("<lowercase hex>")`.
pub fn hex_bytes(data: &[u8]) -> (r: String)
    ensures
        r@ == "bytes.fromhex(\""@ + hex_spec(data@) + "\")"@,
{
    let mut out = to_owned("bytes.fromhex(\"");
    push_hex(&mut out, data);
    push_str(&mut out, "\")");
    out
}

/// The Python variable holding a stack temporary: `s<depth>`.
pub fn temp(t: Temp) -> (r: String)
    ensures
        r@ == "s"@ + decimal(t.depth as nat),
{
    let mut out = to_owned("s");
    push_decimal(&mut out, t.depth as u128);
    out
}

/// The i32 result mask around `e`, skipped when the consumer restores it; the grouping
/// parentheses stay.
pub fn mask32_unless(elide: bool, e: &str) -> (r: String)
    ensures
        r@ == if elide { "("@ + e@ + ")"@ } else { "(("@ + e@ + ") & 0xFFFFFFFF)"@ },
{
    if elide {
        let mut out = to_owned("(");
        push_str(&mut out, e);
        push_str(&mut out, ")");
        out
    } else {
        let mut out = to_owned("((");
        push_str(&mut out, e);
        push_str(&mut out, ") & 0xFFFFFFFF)");
        out
    }
}

/// The i64 counterpart of [`mask32_unless`].
pub fn mask64_unless(elide: bool, e: &str) -> (r: String)
    ensures
        r@ == if elide { "("@ + e@ + ")"@ } else { "(("@ + e@ + ") & 0xFFFFFFFFFFFFFFFF)"@ },
{
    if elide {
        let mut out = to_owned("(");
        push_str(&mut out, e);
        push_str(&mut out, ")");
        out
    } else {
        let mut out = to_owned("((");
        push_str(&mut out, e);
        push_str(&mut out, ") & 0xFFFFFFFFFFFFFFFF)");
        out
    }
}

/// The unboxed-integer bound the mask elision keeps to: every exposed intermediate stays below
/// 2^62.
pub const ELISION_LIMIT: i128 = 0x4000_0000_0000_0000;

/// Whether `e`'s own result mask may be skipped where its consumer reads it in `ctx`.
pub fn elide(ctx: MaskContext, e: &Expr) -> (r: bool)
    ensures
        r == elides_spec(*e, ctx, ELISION_LIMIT as int),
{
    elides_mask(e, ctx, ELISION_LIMIT)
}

/// The temporaries' Python names, joined by `, `.
pub open spec fn temp_names(results: Seq<Temp>) -> Seq<char>
    decreases results.len(),
{
    if results.len() == 0 {
        seq![]
    } else if results.len() == 1 {
        "s"@ + decimal(results[0].depth as nat)
    } else {
        temp_names(results.drop_last()) + ", "@ + "s"@ + decimal(results.last().depth as nat)
    }
}

/// Assigns the results of `call` to the temporaries `results`: the bare call when it has none,
/// else `names = call`.
pub fn assign_results(results: &[Temp], call: &str) -> (r: String)
    ensures
        r@ == if results@.len() == 0 { call@ } else { temp_names(results@) + " = "@ + call@ },
{
    if results.len() == 0 {
        return to_owned(call);
    }
    let mut names = temp(results[0]);
    let mut i: usize = 1;
    while i < results.len()
        invariant
            1 <= i <= results@.len(),
            names@ == temp_names(results@.subrange(0, i as int)),
        decreases results@.len() - i,
    {
        push_str(&mut names, ", ");
        let t = temp(results[i]);
        push_str(&mut names, t.as_str());
        proof {
            let s = results@.subrange(0, i + 1);
            assert(s.drop_last() == results@.subrange(0, i as int));
            assert(s.last() == results@[i as int]);
        }
        i = i + 1;
    }
    assert(results@.subrange(0, results@.len() as int) == results@);
    push_str(&mut names, " = ");
    push_str(&mut names, call);
    names
}

/// What writing the lines `ls` at `depth` appends.
pub open spec fn lines_at(unit: Seq<char>, depth: nat, ls: Seq<Seq<char>>) -> Seq<char>
    decreases ls.len(),
{
    if ls.len() == 0 {
        seq![]
    } else {
        lines_at(unit, depth, ls.drop_last()) + CodeWriter::line_text(unit, depth, ls.last())
    }
}

/// The dispatch over `_state` for the ids `lo..=hi` at `depth`: a balanced binary-search tree
/// of `if _state < M:` splits whose leaves hold the state bodies; id `texts.len()` is the exit
/// state, whose leaf is `break`, and an empty body is `pass`.
pub open spec fn dispatch_text(unit: Seq<char>, depth: nat, texts: Seq<Seq<char>>, lo: nat, hi: nat) -> Seq<char>
    decreases hi - lo,
{
    if lo >= hi {
        if lo == texts.len() {
            CodeWriter::line_text(unit, depth, "break"@)
        } else if texts[lo as int].len() == 0 {
            CodeWriter::line_text(unit, depth, "pass"@)
        } else {
            lines_at(unit, depth, lines_spec(texts[lo as int]))
        }
    } else {
        let mid = (lo + (hi - lo + 1) / 2) as nat;
        CodeWriter::line_text(unit, depth, "if _state < "@ + decimal(mid) + ":"@)
            + dispatch_text(unit, depth + 1, texts, lo, (mid - 1) as nat)
            + CodeWriter::line_text(unit, depth, "else:"@)
            + dispatch_text(unit, depth + 1, texts, mid, hi)
    }
}

/// Emits the dispatch over `_state` for the state ids `lo..=hi` (see [`dispatch_text`]).
pub fn emit_dispatch_tree(w: &mut CodeWriter, texts: &[String], lo: usize, hi: usize)
    requires
        lo <= hi <= texts@.len(),
        old(w).depth() + (hi - lo) < usize::MAX,
    ensures
        final(w).text() == old(w).text() + dispatch_text(old(w).unit(), old(w).depth(), views(texts@), lo as nat, hi as nat),
        final(w).depth() == old(w).depth(),
        final(w).unit() == old(w).unit(),
    decreases hi - lo,
{
    let ghost tv = views(texts@);
    if lo == hi {
        if lo == texts.len() {
            w.line("break");
            proof {
                reveal_strlit("break");
            }
        } else if texts[lo].as_str().is_empty() {
            w.line("pass");
            proof {
                reveal_strlit("pass");
            }
        } else {
            let cs = str_chars(texts[lo].as_str());
            let ls = lines_of(cs.as_slice());
            let ghost lv = ls@.map_values(|l: Vec<char>| l@);
            let ghost start = w.text();
            assert(tv[lo as int] == texts@[lo as int]@);
            let mut k: usize = 0;
            while k < ls.len()
                invariant
                    k <= ls@.len(),
                    lv == ls@.map_values(|l: Vec<char>| l@),
                    w.depth() == old(w).depth(),
                    w.unit() == old(w).unit(),
                    w.text() == start + lines_at(w.unit(), w.depth(), lv.subrange(0, k as int)),
                decreases ls@.len() - k,
            {
                let line = from_chars(ls[k].as_slice());
                w.line(line.as_str());
                proof {
                    let t = lv.subrange(0, k + 1);
                    assert(t.drop_last() == lv.subrange(0, k as int));
                    assert(t.last() == ls@[k as int]@);
                }
                k = k + 1;
            }
            assert(lv.subrange(0, lv.len() as int) == lv);
        }
        return;
    }
    let mid = lo + (hi - lo + 1) / 2;
    let mut head = to_owned("if _state < ");
    push_decimal(&mut head, mid as u128);
    push_str(&mut head, ":");
    w.line(head.as_str());
    w.indent();
    emit_dispatch_tree(w, texts, lo, mid - 1);
    w.dedent();
    w.line("else:");
    w.indent();
    emit_dispatch_tree(w, texts, mid, hi);
    w.dedent();
}

/// Whether `s` emits at least one real Python statement: a source-position comment does not,
/// nor does a block or loop whose label is unreferenced and whose body emits nothing.
pub open spec fn stmt_emits_spec(s: Stmt) -> bool
    decreases s,
{
    match s {
        Stmt::SourceLine(_) => false,
        Stmt::Block { label, body } | Stmt::Loop { label, body } => label.referenced || seq_emits(body@),
        _ => true,
    }
}

/// Whether any statement of `stmts` emits one.
pub open spec fn seq_emits(stmts: Seq<Stmt>) -> bool
    decreases stmts,
{
    if stmts.len() == 0 {
        false
    } else {
        stmt_emits_spec(stmts[stmts.len() - 1]) || seq_emits(stmts.subrange(0, stmts.len() - 1))
    }
}

fn any_emits(stmts: &[Stmt]) -> (r: bool)
    ensures
        r == seq_emits(stmts@),
    decreases stmts@,
{
    let mut i: usize = 0;
    let mut found = false;
    while i < stmts.len()
        invariant
            i <= stmts@.len(),
            found == seq_emits(stmts@.subrange(0, i as int)),
        decreases stmts@.len() - i,
    {
        let u = stmt_emits(&stmts[i]);
        proof {
            let t = stmts@.subrange(0, i + 1);
            assert(t.subrange(0, t.len() - 1) == stmts@.subrange(0, i as int));
        }
        found = found || u;
        i = i + 1;
    }
    assert(stmts@.subrange(0, stmts@.len() as int) == stmts@);
    found
}

/// Whether `stmt` emits at least one real Python statement.
pub fn stmt_emits(stmt: &Stmt) -> (r: bool)
    ensures
        r == stmt_emits_spec(*stmt),
    decreases stmt,
{
    match stmt {
        Stmt::SourceLine(_) => false,
        Stmt::Block { label, body } | Stmt::Loop { label, body } => label.referenced || any_emits(body.as_slice()),
        _ => true,
    }
}


// ---------------------------------------------------------------------------------------------
// What Python reads back from a string literal.

/// The value of a hex digit as Python reads it in a `\x` escape; `None` for any other character.
pub open spec fn py_hex_value(c: char) -> Option<nat> {
    if '0' <= c && c <= '9' {
        Some((c as u32 - '0' as u32) as nat)
    } else if 'a' <= c && c <= 'f' {
        Some((c as u32 - 'a' as u32 + 10) as nat)
    } else if 'A' <= c && c <= 'F' {
        Some((c as u32 - 'A' as u32 + 10) as nat)
    } else {
        None
    }
}

/// The characters Python evaluates the body `cs` of a double-quoted string literal to: `\n`,
/// `\r`, `\t`, `\"`, `\\` and `\xHH` are decoded, and a backslash before anything else stands
/// for itself.
pub open spec fn py_unescape(cs: Seq<char>) -> Seq<char>
    decreases cs.len(),
{
    if cs.len() == 0 {
        seq![]
    } else if cs[0] == '\\' && cs.len() >= 2 && cs[1] == 'n' {
        seq!['\n'] + py_unescape(cs.subrange(2, cs.len() as int))
    } else if cs[0] == '\\' && cs.len() >= 2 && cs[1] == 'r' {
        seq!['\r'] + py_unescape(cs.subrange(2, cs.len() as int))
    } else if cs[0] == '\\' && cs.len() >= 2 && cs[1] == 't' {
        seq!['\t'] + py_unescape(cs.subrange(2, cs.len() as int))
    } else if cs[0] == '\\' && cs.len() >= 2 && (cs[1] == '"' || cs[1] == '\\') {
        seq![cs[1]] + py_unescape(cs.subrange(2, cs.len() as int))
    } else if cs[0] == '\\' && cs.len() >= 4 && cs[1] == 'x' && py_hex_value(cs[2]) is Some && py_hex_value(cs[3]) is Some {
        seq![(16 * py_hex_value(cs[2])->0 + py_hex_value(cs[3])->0) as char] + py_unescape(cs.subrange(4, cs.len() as int))
    } else {
        seq![cs[0]] + py_unescape(cs.subrange(1, cs.len() as int))
    }
}

/// Whether `c` is a control character a literal must not hold raw: below `0x20`, or `0x7f`.
pub open spec fn is_raw_control(c: char) -> bool {
    (c as u32) < 0x20 || (c as u32) == 0x7f
}

proof fn lemma_hex_digit_value(d: nat)
    requires
        d < 16,
    ensures
        py_hex_value(hex_digit(d)) == Some(d),
        !is_raw_control(hex_digit(d)),
        hex_digit(d) != '"' && hex_digit(d) != '\\',
{
}

proof fn lemma_escapes_front(cs: Seq<char>)
    requires
        cs.len() > 0,
    ensures
        py_escapes(cs) == py_escape(cs[0]) + py_escapes(cs.drop_first()),
    decreases cs.len(),
{
    if cs.len() == 1 {
        assert(cs.drop_last() =~= Seq::<char>::empty());
        assert(cs.drop_first() =~= Seq::<char>::empty());
        assert(py_escapes(Seq::<char>::empty()) == Seq::<char>::empty());
        assert(py_escapes(cs) =~= py_escape(cs[0]));
    } else {
        lemma_escapes_front(cs.drop_last());
        assert(cs.drop_last().drop_first() =~= cs.drop_first().drop_last());
        assert(cs.drop_first().last() == cs.last());
        assert(cs.drop_last()[0] == cs[0]);
    }
}

proof fn lemma_unescape_escape(c: char, rest: Seq<char>)
    ensures
        py_unescape(py_escape(c) + rest) == seq![c] + py_unescape(rest),
{
    let e = py_escape(c);
    let t = e + rest;
    if is_raw_control(c) && c != '\n' && c != '\r' && c != '\t' {
        let v = c as u32;
        lemma_hex_digit_value((v / 16) as nat);
        lemma_hex_digit_value((v % 16) as nat);
        assert(t[0] == '\\' && t[1] == 'x');
        assert(t.subrange(4, t.len() as int) =~= rest);
        assert(16 * (v / 16) + v % 16 == v);
        assert(((16 * ((v / 16) as nat) + (v % 16) as nat) as char) == c);
    } else if e.len() == 2 {
        assert(t.subrange(2, t.len() as int) =~= rest);
    } else {
        assert(t.subrange(1, t.len() as int) =~= rest);
    }
}

/// A Python string literal round-trips: Python evaluates the body [`py_string`] writes back to
/// exactly the input, and the literal holds no raw control character.
pub proof fn law_py_string_round_trip(s: Seq<char>)
    ensures
        py_unescape(py_escapes(s)) == s,
        forall|i: int| 0 <= i < py_escapes(s).len() ==> !is_raw_control(#[trigger] py_escapes(s)[i]),
    decreases s.len(),
{
    if s.len() == 0 {
        assert(py_escapes(s) =~= Seq::<char>::empty());
    } else {
        lemma_escapes_front(s);
        law_py_string_round_trip(s.drop_first());
        lemma_unescape_escape(s[0], py_escapes(s.drop_first()));
        assert(s =~= seq![s[0]] + s.drop_first());
        let e = py_escape(s[0]);
        if is_raw_control(s[0]) && s[0] != '\n' && s[0] != '\r' && s[0] != '\t' {
            lemma_hex_digit_value(((s[0] as u32) / 16) as nat);
            lemma_hex_digit_value(((s[0] as u32) % 16) as nat);
        }
        assert forall|i: int| 0 <= i < py_escapes(s).len() implies !is_raw_control(#[trigger] py_escapes(s)[i]) by {
            if i >= e.len() {
                assert(py_escapes(s)[i] == py_escapes(s.drop_first())[i - e.len()]);
            }
        }
    }
}

} // verus!
