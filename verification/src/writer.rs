//! An indenting line writer for the generated source text.
use vstd::prelude::*;

use crate::bundler::repeat;
use crate::text::{push_char, push_str};

verus! {

/// Accumulates lines of generated code at a current indent depth, each level written as one
/// copy of `indent_str`.
pub struct CodeWriter {
    buf: String,
    indent: usize,
    indent_str: &'static str,
}

impl CodeWriter {
    /// The text written so far.
    pub closed spec fn text(&self) -> Seq<char> {
        self.buf@
    }

    /// The current indent depth.
    pub closed spec fn depth(&self) -> nat {
        self.indent as nat
    }

    /// One indent level.
    pub closed spec fn unit(&self) -> Seq<char> {
        self.indent_str@
    }

    /// What `line(s)` appends at depth `depth`: a bare newline for an empty line, else the
    /// indentation, the line and a newline.
    pub open spec fn line_text(unit: Seq<char>, depth: nat, s: Seq<char>) -> Seq<char> {
        if s.len() == 0 {
            seq!['\n']
        } else {
            repeat(unit, depth) + s + seq!['\n']
        }
    }

    /// An empty writer at depth 0.
    pub fn new(indent_str: &'static str) -> (w: Self)
        ensures
            w.text() == Seq::<char>::empty(),
            w.depth() == 0,
            w.unit() == indent_str@,
    {
        CodeWriter { buf: String::new(), indent: 0, indent_str }
    }

    /// Writes `s` as one line at the current depth; an empty `s` writes a bare newline.
    pub fn line(&mut self, s: &str)
        ensures
            final(self).text() == old(self).text() + Self::line_text(old(self).unit(), old(self).depth(), s@),
            final(self).depth() == old(self).depth(),
            final(self).unit() == old(self).unit(),
    {
        if s.is_empty() {
            push_char(&mut self.buf, '\n');
            return;
        }
        let ghost start = self.buf@;
        let mut k: usize = 0;
        while k < self.indent
            invariant
                k <= self.indent,
                self.indent == old(self).indent,
                self.indent_str == old(self).indent_str,
                start == old(self).buf@,
                self.buf@ == start + repeat(self.indent_str@, k as nat),
            decreases self.indent - k,
        {
            push_str(&mut self.buf, self.indent_str);
            k = k + 1;
        }
        push_str(&mut self.buf, s);
        push_char(&mut self.buf, '\n');
        let ghost r = repeat(self.indent_str@, self.indent as nat);
        assert(start + r + s@ + seq!['\n'] == start + (r + s@ + seq!['\n']));
    }

    /// Appends `s` as it is.
    pub fn raw(&mut self, s: &str)
        ensures
            final(self).text() == old(self).text() + s@,
            final(self).depth() == old(self).depth(),
            final(self).unit() == old(self).unit(),
    {
        push_str(&mut self.buf, s);
    }

    /// One level deeper.
    pub fn indent(&mut self)
        requires
            old(self).depth() < usize::MAX,
        ensures
            final(self).text() == old(self).text(),
            final(self).depth() == old(self).depth() + 1,
            final(self).unit() == old(self).unit(),
    {
        self.indent = self.indent + 1;
    }

    /// One level shallower.
    pub fn dedent(&mut self)
        requires
            old(self).depth() > 0,
        ensures
            final(self).text() == old(self).text(),
            final(self).depth() == old(self).depth() - 1,
            final(self).unit() == old(self).unit(),
    {
        self.indent = self.indent - 1;
    }

    /// Writes `open`, then what `f` writes one level deeper, then `close`. `f` gets the writer
    /// and hands it back at the depth it got it.
    pub fn block<F: FnOnce(CodeWriter) -> CodeWriter>(&mut self, open: &str, close: &str, f: F)
        requires
            old(self).depth() < usize::MAX,
            forall|w: CodeWriter| #[trigger] f.requires((w,)),
            forall|w: CodeWriter, out: CodeWriter| #[trigger] f.ensures((w,), out) ==> out.depth() == w.depth()
                && out.unit() == w.unit(),
        ensures
            exists|inner: CodeWriter, out: CodeWriter| {
                &&& inner.text() == old(self).text() + Self::line_text(old(self).unit(), old(self).depth(), open@)
                &&& inner.depth() == old(self).depth() + 1
                &&& inner.unit() == old(self).unit()
                &&& #[trigger] f.ensures((inner,), out)
                &&& final(self).text() == out.text() + Self::line_text(old(self).unit(), old(self).depth(), close@)
            },
            final(self).depth() == old(self).depth(),
            final(self).unit() == old(self).unit(),
    {
        self.line(open);
        self.indent();
        let mut inner = CodeWriter::new(self.indent_str);
        std::mem::swap(&mut inner, self);
        let ghost before = inner;
        let out = f(inner);
        *self = out;
        self.dedent();
        self.line(close);
        proof {
            assert(f.ensures((before,), out));
        }
    }

    /// The text written.
    pub fn finish(self) -> (r: String)
        ensures
            r@ == self.text(),
    {
        self.buf
    }
}

} // verus!
