//! The Ruby backend's runtime layout, declared support, and the spelling helpers of its
//! lowering: constant paths, string literals, and expressions parenthesized by precedence.
use vstd::prelude::*;

use crate::bundler::{RuntimeBundler, RuntimeScope, new_outcome, is_sorted_closure, views};
use crate::ir::Feature;
use crate::support::{Backend, BackendError, CharClass, SupportStatus, is_ident_chars, is_ident_spec, module_name_error};
use crate::text::{from_chars, hex_char, hex_digit, hex_spec, push_char, push_hex, push_str, str_chars, to_owned};

verus! {

/// The Ruby runtime's scopes, in bundle order: the module-level root, then the `Memory`,
/// `Table`, `Global` and `WASI` classes.
pub open spec fn ruby_scopes() -> Seq<RuntimeScope> {
    seq![
        RuntimeScope { prefix: "rt", open: "", close: "", prelude: Some("rt/_module") },
        RuntimeScope { prefix: "memory", open: "class Memory", close: "end", prelude: Some("memory/_class") },
        RuntimeScope { prefix: "table", open: "class Table", close: "end", prelude: Some("table/_class") },
        RuntimeScope { prefix: "global", open: "class Global", close: "end", prelude: Some("global/_class") },
        RuntimeScope { prefix: "wasi", open: "class WASI", close: "end", prelude: Some("wasi/_class") },
    ]
}

fn runtime_scopes() -> (r: Vec<RuntimeScope>)
    ensures
        r@ == ruby_scopes(),
{
    let mut v: Vec<RuntimeScope> = Vec::new();
    v.push(RuntimeScope { prefix: "rt", open: "", close: "", prelude: Some("rt/_module") });
    v.push(RuntimeScope { prefix: "memory", open: "class Memory", close: "end", prelude: Some("memory/_class") });
    v.push(RuntimeScope { prefix: "table", open: "class Table", close: "end", prelude: Some("table/_class") });
    v.push(RuntimeScope { prefix: "global", open: "class Global", close: "end", prelude: Some("global/_class") });
    v.push(RuntimeScope { prefix: "wasi", open: "class WASI", close: "end", prelude: Some("wasi/_class") });
    v
}

/// The Ruby runtime bundler over the unit `sources`: `#` comments, tab indentation, unit
/// sources indented by two spaces a level.
pub fn bundler(sources: &[(&str, &str)]) -> (r: Result<RuntimeBundler, BackendError>)
    ensures
        new_outcome("#"@, "\t"@, 2, ruby_scopes(), sources@, r),
{
    RuntimeBundler::new("#", "\t", 2, runtime_scopes(), sources)
}

/// A shared top-level runtime for the closure of `seeds`: the bundle one level deep inside
/// `module Rt ... end`.
pub fn shared_runtime(bundler: &RuntimeBundler, seeds: &[String]) -> (r: Result<String, BackendError>)
    requires
        bundler.wf(),
    ensures
        match r {
            Ok(text) => exists|cl: Seq<Seq<char>>| is_sorted_closure(*bundler, views(seeds@), cl)
                && text@ == "module Rt\n"@ + bundler.bundle_text(cl, 1) + "end\n"@,
            Err(BackendError::UnknownUnit { id }) => !bundler.known(id@) && bundler.in_closure(views(seeds@), id@),
            Err(_) => false,
        },
{
    match bundler.bundle(seeds, 1) {
        Ok(text) => {
            let mut out = to_owned("module Rt\n");
            push_str(&mut out, text.as_str());
            push_str(&mut out, "end\n");
            Ok(out)
        },
        Err(e) => Err(e),
    }
}

/// The Ruby backend.
pub struct RubyBackend;

/// The Ruby backend's declared support: floats, the wasm-1.0 completion, and exception
/// handling.
pub open spec fn ruby_status(feature: Feature) -> SupportStatus {
    match feature {
        Feature::Floats | Feature::ImportedGlobals | Feature::ImportedMemories | Feature::ImportedTables
        | Feature::MultipleTables | Feature::TableBulkOps | Feature::ExceptionHandling => SupportStatus::Supported,
    }
}

impl Backend for RubyBackend {
    open spec fn status_spec(&self, feature: Feature) -> SupportStatus {
        ruby_status(feature)
    }

    open spec fn name_spec(&self) -> Seq<char> {
        "ruby"@
    }

    open spec fn extension_spec(&self) -> Seq<char> {
        "rb"@
    }

    fn name(&self) -> (r: &'static str) {
        "ruby"
    }

    fn file_extension(&self) -> (r: &'static str) {
        "rb"
    }

    fn feature_status(&self, feature: Feature) -> (r: SupportStatus) {
        match feature {
            Feature::Floats | Feature::ImportedGlobals | Feature::ImportedMemories | Feature::ImportedTables
            | Feature::MultipleTables | Feature::TableBulkOps | Feature::ExceptionHandling => SupportStatus::Supported,
        }
    }
}

/// The class a standalone program defines.
pub const STANDALONE_CLASS: &'static str = "Program";

// ---------------------------------------------------------------------------------------------
// Constant paths.

/// `cs` split at each `::`, leftmost first, with `cur` the part of the current segment already
/// read.
pub open spec fn split_path_from(cs: Seq<char>, cur: Seq<char>) -> Seq<Seq<char>>
    decreases cs.len(),
{
    if cs.len() == 0 {
        seq![cur]
    } else if cs.len() >= 2 && cs[0] == ':' && cs[1] == ':' {
        seq![cur] + split_path_from(cs.subrange(2, cs.len() as int), seq![])
    } else {
        split_path_from(cs.subrange(1, cs.len() as int), cur.push(cs[0]))
    }
}

/// The `::`-separated segments of a constant path.
pub open spec fn path_segments(name: Seq<char>) -> Seq<Seq<char>> {
    split_path_from(name, seq![])
}

/// The `::`-separated segments of `name`.
pub(crate) fn split_path(name: &str) -> (r: Vec<Vec<char>>)
    ensures
        r@.map_values(|s: Vec<char>| s@) == path_segments(name@),
{
    let cs = str_chars(name);
    let ghost n = cs@.len() as int;
    let mut out: Vec<Vec<char>> = Vec::new();
    let mut cur: Vec<char> = Vec::new();
    let mut i: usize = 0;
    assert(cs@.subrange(0, n) == cs@);
    while i < cs.len()
        invariant
            i <= cs@.len(),
            n == cs@.len(),
            path_segments(cs@) == out@.map_values(|s: Vec<char>| s@) + split_path_from(cs@.subrange(i as int, n), cur@),
        decreases cs@.len() - i,
    {
        let ghost rest = cs@.subrange(i as int, n);
        if i + 1 < cs.len() && cs[i] == ':' && cs[i + 1] == ':' {
            proof {
                assert(rest[0] == ':' && rest[1] == ':');
                assert(rest.subrange(2, rest.len() as int) == cs@.subrange(i + 2, n));
            }
            let ghost before = out@.map_values(|s: Vec<char>| s@);
            out.push(cur);
            cur = Vec::new();
            proof {
                assert(out@.map_values(|s: Vec<char>| s@) == before.push(out@[out@.len() - 1]@));
                assert(before + (seq![out@[out@.len() - 1]@] + split_path_from(cs@.subrange(i + 2, n), seq![]))
                    == before.push(out@[out@.len() - 1]@) + split_path_from(cs@.subrange(i + 2, n), seq![]));
            }
            i = i + 2;
        } else {
            proof {
                assert(rest[0] == cs@[i as int]);
                assert(rest.subrange(1, rest.len() as int) == cs@.subrange(i + 1, n));
            }
            cur.push(cs[i]);
            i = i + 1;
        }
    }
    let ghost before = out@.map_values(|s: Vec<char>| s@);
    out.push(cur);
    proof {
        assert(cs@.subrange(n, n).len() == 0);
        assert(out@.map_values(|s: Vec<char>| s@) == before.push(out@[out@.len() - 1]@));
    }
    out
}

/// Whether `name` is a Ruby constant path: `::`-separated segments each matching
/// `[A-Z][A-Za-z0-9_]*`.
pub open spec fn is_constant_path(name: Seq<char>) -> bool {
    forall|i: int| 0 <= i < path_segments(name).len() ==> is_ident_spec(#[trigger] path_segments(name)[i],
        CharClass::Upper, CharClass::AlnumOrUnderscore)
}

/// Checks a library-mode module name: a Ruby constant path, used verbatim.
pub fn check_module_name(name: &str) -> (r: Result<(), BackendError>)
    ensures
        match r {
            Ok(_) => is_constant_path(name@),
            Err(BackendError::InvalidModuleName { language, name: n, grammar }) => !is_constant_path(name@)
                && language@ == "ruby"@ && n@ == name@ && grammar@
                == "a constant path: `::`-separated segments each matching [A-Z][A-Za-z0-9_]* (e.g. Add, Dewasm::Sqlite3)"@,
            Err(_) => false,
        },
{
    let segs = split_path(name);
    let ghost sv = segs@.map_values(|s: Vec<char>| s@);
    let mut i: usize = 0;
    while i < segs.len()
        invariant
            i <= segs@.len(),
            sv == segs@.map_values(|s: Vec<char>| s@),
            sv == path_segments(name@),
            forall|j: int| 0 <= j < i ==> is_ident_spec(#[trigger] sv[j], CharClass::Upper, CharClass::AlnumOrUnderscore),
        decreases segs@.len() - i,
    {
        if !is_ident_chars(segs[i].as_slice(), CharClass::Upper, CharClass::AlnumOrUnderscore) {
            assert(sv[i as int] == segs@[i as int]@);
            return Err(module_name_error(
                "ruby",
                name,
                "a constant path: `::`-separated segments each matching [A-Z][A-Za-z0-9_]* (e.g. Add, Dewasm::Sqlite3)",
            ));
        }
        i = i + 1;
    }
    Ok(())
}

/// The segments `segs`, joined by `::`.
pub open spec fn join_path(segs: Seq<Seq<char>>) -> Seq<char>
    decreases segs.len(),
{
    if segs.len() == 0 {
        seq![]
    } else if segs.len() == 1 {
        segs[0]
    } else {
        join_path(segs.drop_last()) + "::"@ + segs.last()
    }
}

/// The guard that defines the module `path` unless it exists.
pub open spec fn guard(path: Seq<char>) -> Seq<char> {
    "unless defined?("@ + path + ")\n\tmodule "@ + path + "; end\nend\n"@
}

/// The guards for the ancestors `segs[..1]` up to `segs[..k-1]`, outermost first.
pub open spec fn guards_upto(segs: Seq<Seq<char>>, k: int) -> Seq<char>
    decreases k,
{
    if k <= 1 {
        seq![]
    } else {
        guards_upto(segs, k - 1) + guard(join_path(segs.subrange(0, k - 1)))
    }
}

/// The unless-defined guards `class A::B::C` needs for its ancestors `A` and `A::B`, outermost
/// first; nothing for a single-segment name.
pub fn ancestor_guards(class_name: &str) -> (r: String)
    ensures
        r@ == guards_upto(path_segments(class_name@), path_segments(class_name@).len() as int),
{
    let segs = split_path(class_name);
    let ghost sv = segs@.map_values(|s: Vec<char>| s@);
    let mut out = String::new();
    if segs.len() == 0 {
        return out;
    }
    let mut path = from_chars(segs[0].as_slice());
    assert(sv.subrange(0, 1).len() == 1);
    assert(join_path(sv.subrange(0, 1)) == sv[0]);
    let mut i: usize = 1;
    while i < segs.len()
        invariant
            1 <= i <= segs@.len(),
            sv == segs@.map_values(|s: Vec<char>| s@),
            path@ == join_path(sv.subrange(0, i as int)),
            out@ == guards_upto(sv, i as int),
        decreases segs@.len() - i,
    {
        push_str(&mut out, "unless defined?(");
        push_str(&mut out, path.as_str());
        push_str(&mut out, ")\n\tmodule ");
        push_str(&mut out, path.as_str());
        push_str(&mut out, "; end\nend\n");
        push_str(&mut path, "::");
        let seg = from_chars(segs[i].as_slice());
        push_str(&mut path, seg.as_str());
        proof {
            let t = sv.subrange(0, i + 1);
            assert(t.drop_last() == sv.subrange(0, i as int));
            assert(t.last() == segs@[i as int]@);
        }
        i = i + 1;
    }
    out
}

// ---------------------------------------------------------------------------------------------
// Literals.

/// The lowercase hex spelling of `v < 0x80` without leading zeros.
pub open spec fn short_hex(v: nat) -> Seq<char> {
    if v < 16 {
        seq![hex_digit(v)]
    } else {
        seq![hex_digit(v / 16), hex_digit(v % 16)]
    }
}

/// The escape of one character inside a Ruby double-quoted literal: `"`, `\` and `#` (which
/// opens an interpolation) escaped, control characters as `\u{h}`.
pub open spec fn ruby_escape(c: char) -> Seq<char> {
    if c == '"' {
        seq!['\\', '"']
    } else if c == '\\' {
        seq!['\\', '\\']
    } else if c == '#' {
        seq!['\\', '#']
    } else if (c as u32) < 0x20 || (c as u32) == 0x7f {
        "\\u{"@ + short_hex(c as u32 as nat) + "}"@
    } else {
        seq![c]
    }
}

/// The escapes of `cs`, concatenated.
pub open spec fn ruby_escapes(cs: Seq<char>) -> Seq<char>
    decreases cs.len(),
{
    if cs.len() == 0 {
        seq![]
    } else {
        ruby_escapes(cs.drop_last()) + ruby_escape(cs.last())
    }
}

fn push_ruby_escape(out: &mut String, c: char)
    ensures
        final(out)@ == old(out)@ + ruby_escape(c),
{
    if c == '"' {
        push_char(out, '\\');
        push_char(out, '"');
    } else if c == '\\' {
        push_char(out, '\\');
        push_char(out, '\\');
    } else if c == '#' {
        push_char(out, '\\');
        push_char(out, '#');
    } else if (c as u32) < 0x20 || (c as u32) == 0x7f {
        let v = c as u32;
        push_str(out, "\\u{");
        if v >= 16 {
            push_char(out, hex_char((v / 16) as u8));
        }
        push_char(out, hex_char((v % 16) as u8));
        push_str(out, "}");
        proof {
            reveal_strlit("\\u{");
            reveal_strlit("}");
        }
    } else {
        push_char(out, c);
    }
}

/// A Ruby double-quoted string literal for `s`.
pub fn ruby_string(s: &str) -> (r: String)
    ensures
        r@ == seq!['"'] + ruby_escapes(s@) + seq!['"'],
{
    let cs = str_chars(s);
    let mut out = String::new();
    push_char(&mut out, '"');
    let mut i: usize = 0;
    while i < cs.len()
        invariant
            i <= cs@.len(),
            out@ == seq!['"'] + ruby_escapes(cs@.subrange(0, i as int)),
        decreases cs@.len() - i,
    {
        push_ruby_escape(&mut out, cs[i]);
        proof {
            let t = cs@.subrange(0, i + 1);
            assert(t.drop_last() == cs@.subrange(0, i as int));
            assert(t.last() == cs@[i as int]);
        }
        i = i + 1;
    }
    assert(cs@.subrange(0, cs@.len() as int) == cs@);
    push_char(&mut out, '"');
    out
}

/// `data` as a Ruby expression: `["<lowercase hex>"].pack("H*")`.
pub fn hex_bytes(data: &[u8]) -> (r: String)
    ensures
        r@ == "[\""@ + hex_spec(data@) + "\"].pack(\"H*\")"@,
{
    let mut out = to_owned("[\"");
    push_hex(&mut out, data);
    push_str(&mut out, "\"].pack(\"H*\")");
    out
}

// ---------------------------------------------------------------------------------------------
// Interpreter version.

/// The value of the decimal digits `ds`.
pub open spec fn digits_value(ds: Seq<char>) -> nat
    decreases ds.len(),
{
    if ds.len() == 0 {
        0
    } else {
        digits_value(ds.drop_last()) * 10 + ((ds.last() as u32) - ('0' as u32)) as nat
    }
}

/// Whether every character of `ds` is an ASCII digit.
pub open spec fn all_digits(ds: Seq<char>) -> bool {
    forall|i: int| 0 <= i < ds.len() ==> '0' <= #[trigger] ds[i] && ds[i] <= '9'
}

/// How `u32`'s `FromStr` reads `s`: an optional `+`, then at least one ASCII digit, for a
/// value that fits in 32 bits.
pub open spec fn parse_u32_spec(s: Seq<char>) -> Option<nat> {
    let ds = if s.len() > 0 && s[0] == '+' { s.subrange(1, s.len() as int) } else { s };
    if ds.len() > 0 && all_digits(ds) && digits_value(ds) <= u32::MAX {
        Some(digits_value(ds))
    } else {
        None
    }
}

/// `s` read as a `u32`, as `str::parse::<u32>` reads it.
pub fn parse_u32(s: &[char]) -> (r: Option<u32>)
    ensures
        match parse_u32_spec(s@) {
            Some(v) => r == Some(v as u32),
            None => r is None,
        },
{
    let start: usize = if s.len() > 0 && s[0] == '+' { 1 } else { 0 };
    let ghost ds = if s@.len() > 0 && s@[0] == '+' { s@.subrange(1, s@.len() as int) } else { s@ };
    assert(ds == s@.subrange(start as int, s@.len() as int));
    if start == s.len() {
        return None;
    }
    let mut v: u64 = 0;
    let mut i: usize = start;
    while i < s.len()
        invariant
            start <= i <= s@.len(),
            ds == s@.subrange(start as int, s@.len() as int),
            ds.len() > 0,
            parse_u32_spec(s@) == (if all_digits(ds) && digits_value(ds) <= u32::MAX {
                Some(digits_value(ds))
            } else {
                None
            }),
            all_digits(s@.subrange(start as int, i as int)),
            v == digits_value(s@.subrange(start as int, i as int)),
            v <= u32::MAX,
        decreases s@.len() - i,
    {
        let c = s[i];
        if c < '0' || c > '9' {
            proof {
                assert(ds[i - start] == c);
            }
            return None;
        }
        let d = (c as u32 - '0' as u32) as u64;
        proof {
            let t = s@.subrange(start as int, i + 1);
            assert(t.drop_last() == s@.subrange(start as int, i as int));
            assert(t.last() == c);
        }
        let next = v * 10 + d;
        if next > 0xffff_ffff {
            proof {
                if all_digits(ds) {
                    assert(ds.subrange(0, i + 1 - start) == s@.subrange(start as int, i + 1));
                    lemma_digits_value_grows(ds, (i + 1 - start) as int);
                }
            }
            return None;
        }
        v = next;
        i = i + 1;
    }
    assert(s@.subrange(start as int, i as int) == ds);
    Some(v as u32)
}

/// A longer digit prefix never reads smaller.
proof fn lemma_digits_value_grows(ds: Seq<char>, k: int)
    requires
        0 <= k <= ds.len(),
        all_digits(ds),
    ensures
        digits_value(ds.subrange(0, k)) <= digits_value(ds),
    decreases ds.len() - k,
{
    if k < ds.len() {
        lemma_digits_value_grows(ds.drop_last(), if k <= ds.len() - 1 { k } else { ds.len() - 1 });
        assert(ds.drop_last().subrange(0, k) == ds.subrange(0, k));
        assert(digits_value(ds) == digits_value(ds.drop_last()) * 10 + ((ds.last() as u32) - ('0' as u32)) as nat);
    } else {
        assert(ds.subrange(0, k) == ds);
    }
}

/// Whether a Ruby reporting the (trimmed) `RUBY_VERSION` text `version` can run generated
/// code: its first two `.`-separated parts read as a major and minor version of at least 3.4.
pub open spec fn ruby_version_ok(version: Seq<char>) -> bool {
    let parts = split_dots(version, seq![]);
    &&& parts.len() >= 2
    &&& parse_u32_spec(parts[0]) is Some
    &&& parse_u32_spec(parts[1]) is Some
    &&& {
        let major = parse_u32_spec(parts[0])->0;
        let minor = parse_u32_spec(parts[1])->0;
        major > 3 || (major == 3 && minor >= 4)
    }
}

/// `cs` split at each `.`, with `cur` the part of the current piece already read.
pub open spec fn split_dots(cs: Seq<char>, cur: Seq<char>) -> Seq<Seq<char>>
    decreases cs.len(),
{
    if cs.len() == 0 {
        seq![cur]
    } else if cs[0] == '.' {
        seq![cur] + split_dots(cs.subrange(1, cs.len() as int), seq![])
    } else {
        split_dots(cs.subrange(1, cs.len() as int), cur.push(cs[0]))
    }
}

/// Whether the interpreter version `version` (already trimmed) is at least 3.4, the first
/// whose `IO::Buffer` the generated memory builds on.
pub fn ruby_version_qualifies(version: &str) -> (r: bool)
    ensures
        r == ruby_version_ok(version@),
{
    let cs = str_chars(version);
    let ghost n = cs@.len() as int;
    let mut parts: Vec<Vec<char>> = Vec::new();
    let mut cur: Vec<char> = Vec::new();
    let mut i: usize = 0;
    assert(cs@.subrange(0, n) == cs@);
    while i < cs.len()
        invariant
            i <= cs@.len(),
            n == cs@.len(),
            split_dots(cs@, seq![]) == parts@.map_values(|p: Vec<char>| p@) + split_dots(cs@.subrange(i as int, n), cur@),
        decreases cs@.len() - i,
    {
        let ghost rest = cs@.subrange(i as int, n);
        proof {
            assert(rest[0] == cs@[i as int]);
            assert(rest.subrange(1, rest.len() as int) == cs@.subrange(i + 1, n));
        }
        if cs[i] == '.' {
            let ghost before = parts@.map_values(|p: Vec<char>| p@);
            parts.push(cur);
            cur = Vec::new();
            proof {
                assert(parts@.map_values(|p: Vec<char>| p@) == before.push(parts@[parts@.len() - 1]@));
                assert(before + (seq![parts@[parts@.len() - 1]@] + split_dots(cs@.subrange(i + 1, n), seq![]))
                    == before.push(parts@[parts@.len() - 1]@) + split_dots(cs@.subrange(i + 1, n), seq![]));
            }
        } else {
            cur.push(cs[i]);
        }
        i = i + 1;
    }
    let ghost before = parts@.map_values(|p: Vec<char>| p@);
    parts.push(cur);
    proof {
        assert(cs@.subrange(n, n).len() == 0);
        assert(parts@.map_values(|p: Vec<char>| p@) == before.push(parts@[parts@.len() - 1]@));
    }
    let ghost pv = parts@.map_values(|p: Vec<char>| p@);
    if parts.len() < 2 {
        return false;
    }
    assert(pv[0] == parts@[0]@ && pv[1] == parts@[1]@);
    let major = match parse_u32(parts[0].as_slice()) {
        Some(v) => v,
        None => return false,
    };
    let minor = match parse_u32(parts[1].as_slice()) {
        Some(v) => v,
        None => return false,
    };
    major > 3 || (major == 3 && minor >= 4)
}

// ---------------------------------------------------------------------------------------------
// What Ruby reads back from a literal.

/// The value of the hex digit `c`, either case.
pub open spec fn ruby_hex_value(c: char) -> Option<nat> {
    if '0' <= c && c <= '9' {
        Some((c as u32 - '0' as u32) as nat)
    } else if 'a' <= c && c <= 'f' {
        Some((c as u32 - 'a' as u32 + 10) as nat)
    } else if 'A' <= c && c <= 'F' {
        Some((c as u32 - 'A' as u32 + 10) as nat)
    } else {
        None
    }
}

/// `c` in front of a decoded rest, when the rest decodes.
pub open spec fn prepend_decoded(c: char, rest: Option<Seq<char>>) -> Option<Seq<char>> {
    match rest {
        Some(t) => Some(seq![c] + t),
        None => None,
    }
}

/// The characters Ruby evaluates the body `cs` of a double-quoted literal to, for a body of
/// plain characters and the escapes `\"`, `\\`, `\#`, `\n`, `\r`, `\t`, and `\u{h}` or
/// `\u{hh}`; `None` for a body that holds anything else, and for one where a bare `#` opens an
/// interpolation (before `{`, `@` or `$`).
pub open spec fn ruby_unescape(cs: Seq<char>) -> Option<Seq<char>>
    decreases cs.len(),
{
    if cs.len() == 0 {
        Some(seq![])
    } else if cs[0] == '\\' && cs.len() >= 2 && (cs[1] == '"' || cs[1] == '\\' || cs[1] == '#') {
        prepend_decoded(cs[1], ruby_unescape(cs.subrange(2, cs.len() as int)))
    } else if cs[0] == '\\' && cs.len() >= 2 && cs[1] == 'n' {
        prepend_decoded('\n', ruby_unescape(cs.subrange(2, cs.len() as int)))
    } else if cs[0] == '\\' && cs.len() >= 2 && cs[1] == 'r' {
        prepend_decoded('\r', ruby_unescape(cs.subrange(2, cs.len() as int)))
    } else if cs[0] == '\\' && cs.len() >= 2 && cs[1] == 't' {
        prepend_decoded('\t', ruby_unescape(cs.subrange(2, cs.len() as int)))
    } else if cs[0] == '\\' && cs.len() >= 5 && cs[1] == 'u' && cs[2] == '{' && ruby_hex_value(cs[3]) is Some
        && cs[4] == '}' {
        prepend_decoded((ruby_hex_value(cs[3])->0) as char, ruby_unescape(cs.subrange(5, cs.len() as int)))
    } else if cs[0] == '\\' && cs.len() >= 6 && cs[1] == 'u' && cs[2] == '{' && ruby_hex_value(cs[3]) is Some
        && ruby_hex_value(cs[4]) is Some && cs[5] == '}' {
        prepend_decoded(
            (16 * ruby_hex_value(cs[3])->0 + ruby_hex_value(cs[4])->0) as char,
            ruby_unescape(cs.subrange(6, cs.len() as int)),
        )
    } else if cs[0] == '\\' {
        None
    } else if cs[0] == '#' && cs.len() >= 2 && (cs[1] == '{' || cs[1] == '@' || cs[1] == '$') {
        None
    } else {
        prepend_decoded(cs[0], ruby_unescape(cs.subrange(1, cs.len() as int)))
    }
}

/// Whether `c` is a control character a literal must not hold raw: below `0x20`, or `0x7f`.
pub open spec fn is_raw_control(c: char) -> bool {
    (c as u32) < 0x20 || (c as u32) == 0x7f
}

proof fn lemma_ruby_hex_digit(d: nat)
    requires
        d < 16,
    ensures
        ruby_hex_value(hex_digit(d)) == Some(d),
        !is_raw_control(hex_digit(d)),
        hex_digit(d) != '}',
{
}

proof fn lemma_ruby_escapes_front(cs: Seq<char>)
    requires
        cs.len() > 0,
    ensures
        ruby_escapes(cs) == ruby_escape(cs[0]) + ruby_escapes(cs.drop_first()),
    decreases cs.len(),
{
    if cs.len() == 1 {
        assert(cs.drop_last() =~= Seq::<char>::empty());
        assert(cs.drop_first() =~= Seq::<char>::empty());
        assert(ruby_escapes(Seq::<char>::empty()) == Seq::<char>::empty());
        assert(ruby_escapes(cs) =~= ruby_escape(cs[0]));
    } else {
        lemma_ruby_escapes_front(cs.drop_last());
        assert(cs.drop_last().drop_first() =~= cs.drop_first().drop_last());
        assert(cs.drop_first().last() == cs.last());
        assert(cs.drop_last()[0] == cs[0]);
    }
}

proof fn lemma_ruby_unescape_escape(c: char, rest: Seq<char>)
    ensures
        ruby_unescape(ruby_escape(c) + rest) == prepend_decoded(c, ruby_unescape(rest)),
{
    let e = ruby_escape(c);
    let t = e + rest;
    if c == '"' || c == '\\' || c == '#' {
        assert(t.subrange(2, t.len() as int) =~= rest);
    } else if is_raw_control(c) {
        reveal_strlit("\\u{");
        reveal_strlit("}");
        let v = c as u32 as nat;
        if v < 16 {
            lemma_ruby_hex_digit(v);
            assert(e =~= seq!['\\', 'u', '{', hex_digit(v), '}']);
            assert(t.subrange(5, t.len() as int) =~= rest);
            assert((v as char) == c);
        } else {
            lemma_ruby_hex_digit(v / 16);
            lemma_ruby_hex_digit(v % 16);
            assert(e =~= seq!['\\', 'u', '{', hex_digit(v / 16), hex_digit(v % 16), '}']);
            assert(t.subrange(6, t.len() as int) =~= rest);
            assert(16 * (v / 16) + v % 16 == v);
            assert(((16 * (v / 16) + v % 16) as char) == c);
        }
    } else {
        assert(e =~= seq![c]);
        assert(t.subrange(1, t.len() as int) =~= rest);
    }
}

/// A Ruby string literal round-trips: Ruby evaluates the body [`ruby_string`] writes back to
/// exactly the input, no bare `#` in it opens an interpolation, and it holds no raw control
/// character.
pub proof fn law_ruby_string_round_trip(s: Seq<char>)
    ensures
        ruby_unescape(ruby_escapes(s)) == Some(s),
        forall|i: int| 0 <= i < ruby_escapes(s).len() ==> !is_raw_control(#[trigger] ruby_escapes(s)[i]),
    decreases s.len(),
{
    if s.len() == 0 {
        assert(ruby_escapes(s) =~= Seq::<char>::empty());
    } else {
        let tail = s.drop_first();
        lemma_ruby_escapes_front(s);
        law_ruby_string_round_trip(tail);
        lemma_ruby_unescape_escape(s[0], ruby_escapes(tail));
        assert(s =~= seq![s[0]] + tail);
        let e = ruby_escape(s[0]);
        if is_raw_control(s[0]) {
            reveal_strlit("\\u{");
            reveal_strlit("}");
            let v = s[0] as u32 as nat;
            if v < 16 {
                lemma_ruby_hex_digit(v);
                assert(e =~= seq!['\\', 'u', '{', hex_digit(v), '}']);
            } else {
                lemma_ruby_hex_digit(v / 16);
                lemma_ruby_hex_digit(v % 16);
                assert(e =~= seq!['\\', 'u', '{', hex_digit(v / 16), hex_digit(v % 16), '}']);
            }
        }
        assert forall|i: int| 0 <= i < ruby_escapes(s).len() implies !is_raw_control(#[trigger] ruby_escapes(s)[i]) by {
            if i >= e.len() {
                assert(ruby_escapes(s)[i] == ruby_escapes(tail)[i - e.len()]);
            }
        }
    }
}

} // verus!
