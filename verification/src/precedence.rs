//! Ruby expressions rendered with only the parentheses their context needs.
//!
//! Each rendering carries how tightly it binds; an operand is parenthesized only where its
//! position would otherwise reparse it. `&` binds tighter than `|` and `^`, all three tighter
//! than the comparisons, and the comparison and equality families are non-associative.
use vstd::prelude::*;

use crate::text::{push_str, str_chars, to_owned};

verus! {

/// Ruby binding levels, tightest first.
#[derive(Clone, Copy, PartialEq, Eq, Debug, Structural)]
pub enum Prec {
    /// A literal, variable, or anything ending in a call's closing paren.
    Atom,
    /// `!x`, and a negative numeric literal.
    Unary,
    Mul,
    Add,
    Shift,
    BitAnd,
    BitOr,
    Cmp,
    Eq,
    /// `c ? t : e`, the loosest level built, and the limit of a position that constrains nothing.
    Ternary,
}

/// The position of `p` from the tightest level.
pub open spec fn rank(p: Prec) -> nat {
    match p {
        Prec::Atom => 0,
        Prec::Unary => 1,
        Prec::Mul => 2,
        Prec::Add => 3,
        Prec::Shift => 4,
        Prec::BitAnd => 5,
        Prec::BitOr => 6,
        Prec::Cmp => 7,
        Prec::Eq => 8,
        Prec::Ternary => 9,
    }
}

/// The next tighter level; `Atom` for the two tightest.
pub open spec fn tighter_spec(p: Prec) -> Prec {
    match p {
        Prec::Atom | Prec::Unary => Prec::Atom,
        Prec::Mul => Prec::Unary,
        Prec::Add => Prec::Mul,
        Prec::Shift => Prec::Add,
        Prec::BitAnd => Prec::Shift,
        Prec::BitOr => Prec::BitAnd,
        Prec::Cmp => Prec::BitOr,
        Prec::Eq => Prec::Cmp,
        Prec::Ternary => Prec::Eq,
    }
}

fn rank_of(p: Prec) -> (r: u8)
    ensures
        r == rank(p),
{
    match p {
        Prec::Atom => 0,
        Prec::Unary => 1,
        Prec::Mul => 2,
        Prec::Add => 3,
        Prec::Shift => 4,
        Prec::BitAnd => 5,
        Prec::BitOr => 6,
        Prec::Cmp => 7,
        Prec::Eq => 8,
        Prec::Ternary => 9,
    }
}

impl Prec {
    /// The next tighter level: the limit for an operand that must not sit at this one
    /// unparenthesized.
    pub fn tighter(self) -> (r: Prec)
        ensures
            r == tighter_spec(self),
    {
        match self {
            Prec::Atom | Prec::Unary => Prec::Atom,
            Prec::Mul => Prec::Unary,
            Prec::Add => Prec::Mul,
            Prec::Shift => Prec::Add,
            Prec::BitAnd => Prec::Shift,
            Prec::BitOr => Prec::BitAnd,
            Prec::Cmp => Prec::BitOr,
            Prec::Eq => Prec::Cmp,
            Prec::Ternary => Prec::Eq,
        }
    }
}

/// A rendered Ruby expression with how tightly it binds, and its top-level operator when that
/// is an associative bitwise one's candidate (empty otherwise).
pub struct Rendered {
    pub src: String,
    pub prec: Prec,
    pub op: &'static str,
}

/// The rendering of `src` at `prec` as an operand of a position accepting anything up to
/// `limit`: parenthesized when it binds looser.
pub open spec fn at_spec(src: Seq<char>, prec: Prec, limit: Prec) -> Seq<char> {
    if rank(prec) <= rank(limit) {
        src
    } else {
        "("@ + src + ")"@
    }
}

impl Rendered {
    /// Something that binds as tightly as a name.
    pub fn atom(src: String) -> (r: Rendered)
        ensures
            r.src@ == src@,
            r.prec == Prec::Atom,
            r.op@ == ""@,
    {
        Rendered { src, prec: Prec::Atom, op: "" }
    }

    /// The rendering as an operand of a context that accepts anything up to `limit`.
    pub fn at(self, limit: Prec) -> (r: String)
        ensures
            r@ == at_spec(self.src@, self.prec, limit),
    {
        if rank_of(self.prec) <= rank_of(limit) {
            self.src
        } else {
            let mut out = to_owned("(");
            push_str(&mut out, self.src.as_str());
            push_str(&mut out, ")");
            out
        }
    }

    /// The rendering in a position that constrains nothing.
    pub fn free(self) -> (r: String)
        ensures
            r@ == at_spec(self.src@, self.prec, Prec::Ternary),
    {
        self.at(Prec::Ternary)
    }
}

/// A numeric literal: unary when it carries a minus sign, an atom otherwise.
pub fn number(src: String) -> (r: Rendered)
    ensures
        r.src@ == src@,
        r.prec == if src@.len() > 0 && src@[0] == '-' { Prec::Unary } else { Prec::Atom },
        r.op@ == ""@,
{
    let cs = str_chars(src.as_str());
    let prec = if cs.len() > 0 && cs[0] == '-' { Prec::Unary } else { Prec::Atom };
    Rendered { src, prec, op: "" }
}

/// Whether `op` is a bitwise operator associative over the integers it is applied to.
pub open spec fn is_associative_op(op: Seq<char>) -> bool {
    op == "&"@ || op == "|"@ || op == "^"@
}

fn op_is_associative(op: &str) -> (r: bool)
    ensures
        r == is_associative_op(op@),
{
    let cs = str_chars(op);
    proof {
        reveal_strlit("&");
        reveal_strlit("|");
        reveal_strlit("^");
    }
    let r = cs.len() == 1 && (cs[0] == '&' || cs[0] == '|' || cs[0] == '^');
    proof {
        assert("&"@ == seq!['&']);
        assert("|"@ == seq!['|']);
        assert("^"@ == seq!['^']);
        if cs@.len() == 1 {
            assert(cs@ == seq![cs@[0]]);
        }
    }
    r
}

fn same_op(a: &str, b: &str) -> (r: bool)
    ensures
        r == (a@ == b@),
{
    crate::text::str_eq(a, b)
}

/// `a OP b` for a left-associative operator: an equal-level left operand needs no parens; an
/// equal-level right operand keeps them unless the operator is the same associative bitwise one.
pub fn infix(a: Rendered, op: &'static str, b: Rendered, prec: Prec) -> (r: Rendered)
    ensures
        ({
            let right_limit = if is_associative_op(op@) && b.op@ == op@ { prec } else { tighter_spec(prec) };
            &&& r.src@ == at_spec(a.src@, a.prec, prec) + " "@ + op@ + " "@ + at_spec(b.src@, b.prec, right_limit)
            &&& r.prec == prec
            &&& r.op@ == op@
        }),
{
    let associative = op_is_associative(op) && same_op(b.op, op);
    let right_limit = if associative { prec } else { prec.tighter() };
    let mut src = a.at(prec);
    push_str(&mut src, " ");
    push_str(&mut src, op);
    push_str(&mut src, " ");
    let rb = b.at(right_limit);
    push_str(&mut src, rb.as_str());
    Rendered { src, prec, op }
}

/// `a OP b` for the non-associative comparison and equality families: neither operand may sit
/// at the operator's own level.
pub fn compare(a: Rendered, op: &'static str, b: Rendered, prec: Prec) -> (r: Rendered)
    ensures
        r.src@ == at_spec(a.src@, a.prec, tighter_spec(prec)) + " "@ + op@ + " "@ + at_spec(b.src@, b.prec,
            tighter_spec(prec)),
        r.prec == prec,
        r.op@ == ""@,
{
    let limit = prec.tighter();
    let mut src = a.at(limit);
    push_str(&mut src, " ");
    push_str(&mut src, op);
    push_str(&mut src, " ");
    let rb = b.at(limit);
    push_str(&mut src, rb.as_str());
    Rendered { src, prec, op: "" }
}

/// `c ? t : e`: right-associative, so only the else-branch may hold another ternary bare.
pub fn ternary(c: Rendered, t: Rendered, e: Rendered) -> (r: Rendered)
    ensures
        r.src@ == at_spec(c.src@, c.prec, Prec::Eq) + " ? "@ + at_spec(t.src@, t.prec, Prec::Eq) + " : "@
            + at_spec(e.src@, e.prec, Prec::Ternary),
        r.prec == Prec::Ternary,
        r.op@ == ""@,
{
    let mut src = c.at(Prec::Eq);
    push_str(&mut src, " ? ");
    let rt = t.at(Prec::Eq);
    push_str(&mut src, rt.as_str());
    push_str(&mut src, " : ");
    let re = e.at(Prec::Ternary);
    push_str(&mut src, re.as_str());
    Rendered { src, prec: Prec::Ternary, op: "" }
}

/// `!a`.
pub fn not(a: Rendered) -> (r: Rendered)
    ensures
        r.src@ == "!"@ + at_spec(a.src@, a.prec, Prec::Unary),
        r.prec == Prec::Unary,
        r.op@ == ""@,
{
    let mut src = to_owned("!");
    let ra = a.at(Prec::Unary);
    push_str(&mut src, ra.as_str());
    Rendered { src, prec: Prec::Unary, op: "" }
}

/// The i32 result mask: `a & 0xffffffff`.
pub fn mask32(a: Rendered) -> (r: Rendered)
    ensures
        r.src@ == at_spec(a.src@, a.prec, Prec::BitAnd) + " & 0xffffffff"@,
        r.prec == Prec::BitAnd,
        r.op@ == "&"@,
{
    let r = infix(a, "&", Rendered::atom(to_owned("0xffffffff")), Prec::BitAnd);
    proof {
        reveal_strlit(" & 0xffffffff");
        reveal_strlit(" ");
        reveal_strlit("&");
        reveal_strlit("0xffffffff");
    }
    r
}

/// The i32 result mask, skipped when the consumer restores it.
pub fn mask32_unless(elide: bool, a: Rendered) -> (r: Rendered)
    ensures
        elide ==> r.src@ == a.src@ && r.prec == a.prec && r.op@ == a.op@,
        !elide ==> r.src@ == at_spec(a.src@, a.prec, Prec::BitAnd) + " & 0xffffffff"@ && r.prec == Prec::BitAnd
            && r.op@ == "&"@,
{
    if elide {
        a
    } else {
        mask32(a)
    }
}

/// The unboxed-integer bound of 64-bit MRI: a skipped mask never exposes an intermediate outside
/// `-2^62 .. 2^62`.
pub const FIXNUM_LIMIT: i128 = 0x4000_0000_0000_0000;

/// `a.to_f`: a receiver binds as tightly as a call.
pub fn to_f(a: Rendered) -> (r: Rendered)
    ensures
        r.src@ == at_spec(a.src@, a.prec, Prec::Atom) + ".to_f"@,
        r.prec == Prec::Atom,
        r.op@ == ""@,
{
    let mut src = a.at(Prec::Atom);
    push_str(&mut src, ".to_f");
    Rendered::atom(src)
}

} // verus!
