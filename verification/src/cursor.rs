//! A position in a source that moves forward one character at a time.
use crate::chars::is_space;
use crate::excerpt::{context, first_chars, first_word, MAX_CONTEXT_CHARS};
use crate::position::{
    lemma_run_bounds, lemma_run_concat, lemma_run_push, lemma_tab_stop, Position,
};
use crate::number::{decimal, to_decimal};
use crate::source::{lemma_source_fits, Source, SourceView};
use crate::span::{Span, SpanView};
use crate::text::{
    byte_len, char_width, first_char, index_of, is_boundary, lemma_boundary_ends,
    lemma_boundary_index, lemma_byte_len_bounds, lemma_byte_len_push, lemma_char_at,
    lemma_offset_of, lemma_offset_of_increases, lemma_offset_of_next, lemma_slice, slice,
    substr, width,
};
use core::cmp::Ordering;
use vstd::prelude::*;
use vstd::std_specs::cmp::{PartialEqSpecImpl, PartialOrdSpecImpl};
use vstd::string::*;

verus! {

/// A position in a source: the byte offset reached, and the line, column and
/// indentation that the characters before it add up to.
#[derive(Clone, Copy, Eq, Ord)]
pub struct Cursor<'a> {
    src: Source<'a>,
    offset: usize,
    line: usize,
    column: usize,
    indent: usize,
    was_cr: bool,
}

/// What a cursor is to the contracts.
pub struct CursorView {
    /// The source that the cursor moves over.
    pub src: SourceView,
    /// Number of bytes consumed.
    pub offset: nat,
    /// Line, column and indentation after the characters consumed.
    pub position: Position,
}

impl CursorView {
    /// The cursor before the first character of `src`.
    pub open spec fn start(src: SourceView) -> CursorView {
        CursorView { src, offset: 0, position: Position::origin() }
    }

    /// The characters consumed so far.
    pub open spec fn consumed(self) -> Seq<char> {
        slice(self.src.text, 0, self.offset as int)
    }

    /// The characters still to come.
    pub open spec fn rest(self) -> Seq<char> {
        slice(self.src.text, self.offset as int, byte_len(self.src.text) as int)
    }

    /// The offset lies between two characters of the text, and the position
    /// is the one that scanning the characters before it gives.
    pub open spec fn wf(self) -> bool {
        &&& self.src.wf()
        &&& is_boundary(self.src.text, self.offset as int)
        &&& self.position == Position::origin().run(self.src.tab, self.consumed())
    }

    /// The next character, if the end is not reached.
    pub open spec fn next(self) -> Option<char> {
        if self.rest().len() > 0 {
            Some(self.rest()[0])
        } else {
            None
        }
    }

    /// The cursor after consuming the character `c`.
    pub open spec fn advance(self, c: char) -> CursorView {
        CursorView {
            src: self.src,
            offset: self.offset + width(c),
            position: self.position.step(self.src.tab, c),
        }
    }

    /// The cursor after consuming the next character, or this cursor at the
    /// end of the text.
    pub open spec fn after_read(self) -> CursorView {
        match self.next() {
            Some(c) => self.advance(c),
            None => self,
        }
    }

    /// The cursor after consuming the characters of `s`, one after the other.
    pub open spec fn consume(self, s: Seq<char>) -> CursorView
        decreases s.len(),
    {
        if s.len() == 0 {
            self
        } else {
            self.consume(s.drop_last()).advance(s.last())
        }
    }

    /// The span of the `len` bytes that follow, with the indentation
    /// reached.
    pub open spec fn span(self, len: nat) -> SpanView {
        SpanView {
            src: self.src,
            start: self.offset,
            end: self.offset + len,
            indent: self.position.indent,
        }
    }

    /// How the cursor is shown: the name of its source, then line and
    /// column, both counted from one.
    pub open spec fn shown(self) -> Seq<char> {
        self.src.name + seq![':'] + decimal(self.position.line + 1) + seq![':'] + decimal(
            self.position.column + 1,
        )
    }

    /// The order of cursors: by source, then by offset, line, column and
    /// indentation, and last a cursor that is not behind a carriage return
    /// before one that is.
    pub open spec fn precedes(self, other: CursorView) -> bool {
        let (p, q) = (self.position, other.position);
        if self.src != other.src {
            self.src.precedes(other.src)
        } else if self.offset != other.offset {
            self.offset < other.offset
        } else if p.line != q.line {
            p.line < q.line
        } else if p.column != q.column {
            p.column < q.column
        } else if p.indent != q.indent {
            p.indent < q.indent
        } else {
            !p.after_cr && q.after_cr
        }
    }

    /// The cursor after consuming the `bytes` bytes that follow.
    pub open spec fn skip(self, bytes: nat) -> CursorView {
        self.consume(slice(self.src.text, self.offset as int, (self.offset + bytes) as int))
    }
}

impl<'a> View for Cursor<'a> {
    type V = CursorView;

    closed spec fn view(&self) -> CursorView {
        CursorView {
            src: self.src@,
            offset: self.offset as nat,
            position: Position {
                line: self.line as nat,
                column: self.column as nat,
                indent: self.indent as nat,
                after_cr: self.was_cr,
            },
        }
    }
}

impl<'a> Cursor<'a> {
    /// Every cursor is well formed.
    #[verifier::type_invariant]
    pub open spec fn inv(self) -> bool {
        self@.wf()
    }

    /// The cursor before the first character of `src`.
    pub fn new(src: Source<'a>) -> (r: Self)
        ensures
            r@ == CursorView::start(src@),
            r@.wf(),
    {
        proof {
            use_type_invariant(&src);
            lemma_start(src@);
        }
        Self { line: 0, column: 0, indent: 0, offset: 0, was_cr: false, src }
    }

    /// The source that the cursor moves over.
    pub fn src(&self) -> (r: Source<'a>)
        ensures
            r@ == self@.src,
    {
        self.src
    }

    /// Number of bytes consumed.
    pub fn offset(&self) -> (r: usize)
        ensures
            r == self@.offset,
    {
        self.offset
    }

    /// The text still to come.
    pub fn text(&self) -> (r: &'a str)
        ensures
            r@ == self@.rest(),
    {
        proof {
            use_type_invariant(self);
            lemma_rest(self@);
        }
        substr(self.src.text(), self.offset, self.src.len())
    }

    /// Number of bytes still to come.
    pub fn len(&self) -> (r: usize)
        ensures
            r == byte_len(self@.src.text) - self@.offset,
            r == byte_len(self@.rest()),
    {
        proof {
            use_type_invariant(self);
            lemma_rest(self@);
            lemma_slice(self@.src.text, self@.offset as int, byte_len(self@.src.text) as int);
        }
        self.src.len() - self.offset
    }

    /// The span of the `len` bytes that follow, which stay unconsumed.
    pub fn span_with_len(&self, len: usize) -> (r: Span<'a>)
        requires
            self@.offset + len <= byte_len(self@.src.text),
        ensures
            r@ == self@.span(len as nat),
            is_boundary(r@.src.text, r@.start as int),
    {
        proof {
            use_type_invariant(self);
            lemma_source_fits(self@.src);
        }
        Span::new(self.src, self.offset, self.offset + len, self.indent)
    }

    /// Number of the current line, from zero.
    pub fn line(&self) -> (r: usize)
        ensures
            r == self@.position.line,
    {
        self.line
    }

    /// Column reached in the current line, from zero, with tabs expanded.
    pub fn column(&self) -> (r: usize)
        ensures
            r == self@.position.column,
    {
        self.column
    }

    /// Width of the spaces and tabs that begin the current line, as far as
    /// they are consumed.
    pub fn indent(&self) -> (r: usize)
        ensures
            r == self@.position.indent,
            r <= self@.position.column,
    {
        proof {
            use_type_invariant(self);
            lemma_position_fits(self@);
        }
        self.indent
    }

    /// The next character, which stays unconsumed.
    pub fn peek(&self) -> (r: Option<char>)
        ensures
            r == self@.next(),
    {
        first_char(self.text())
    }

    /// Consumes the next character and returns it; at the end of the text
    /// nothing changes.
    pub fn read(&mut self) -> (r: Option<char>)
        ensures
            r == old(self)@.next(),
            final(self)@ == old(self)@.after_read(),
            final(self)@.wf(),
    {
        let r = if let Some(next) = self.peek() {
            self.advance(next);
            Some(next)
        } else {
            None
        };
        proof {
            use_type_invariant(&*self);
        }
        r
    }

    /// Consumes the `bytes` bytes that follow, character by character.
    pub fn skip_len(&mut self, bytes: usize)
        requires
            is_boundary(old(self)@.src.text, old(self)@.offset + bytes),
        ensures
            final(self)@ == old(self)@.skip(bytes as nat),
            final(self)@.offset == old(self)@.offset + bytes,
            final(self)@.wf(),
    {
        let ghost from = self@;
        let ghost t = self@.src.text;
        proof {
            use_type_invariant(&*self);
            lemma_boundary_index(t, from.offset + bytes);
            lemma_source_fits(from.src);
            lemma_skip(from, bytes as nat);
            assert(slice(t, from.offset as int, from.offset as int) =~= Seq::<char>::empty()) by {
                lemma_slice(t, from.offset as int, from.offset as int);
            }
        }
        let end = self.offset + bytes;
        while self.offset < end
            invariant
                self@.wf(),
                self@.src == from.src,
                t == from.src.text,
                from.wf(),
                from.offset <= self@.offset <= end,
                end == from.offset + bytes,
                is_boundary(t, end as int),
                self@ == from.consume(slice(t, from.offset as int, self@.offset as int)),
            decreases end - self.offset,
        {
            let ghost before = self@;
            proof {
                lemma_rest(before);
                lemma_boundary_index(t, end as int);
            }
            self.read();
            proof {
                lemma_step_within(t, from.offset as int, before.offset as int, end as int);
                lemma_consume_push(
                    from,
                    slice(t, from.offset as int, before.offset as int),
                    before.next()->0,
                );
            }
        }
    }

    /// The text that follows, as a message quotes it: up to the first
    /// whitespace, and at most one character more than `MAX_CONTEXT_CHARS`.
    pub fn text_context(&self) -> (r: &'a str)
        ensures
            r@ == context(self@.rest()),
    {
        let text = self.text();
        let text = first_word(text);
        first_chars(text, MAX_CONTEXT_CHARS + 1)
    }

    /// The cursor as it is shown: the name of its source, then line and
    /// column, both counted from one.
    pub fn to_string(&self) -> (r: String)
        ensures
            r@ == self@.shown(),
    {
        proof {
            reveal_strlit(":");
            assert(":"@ =~= seq![':']);
        }
        let mut out = String::from_str(self.src.name());
        out.append(":");
        out.append(to_decimal(self.line as u128 + 1).as_str());
        out.append(":");
        out.append(to_decimal(self.column as u128 + 1).as_str());
        out
    }

    /// Consumes `c`, which is the next character.
    fn advance(&mut self, c: char)
        requires
            old(self)@.next() == Some(c),
        ensures
            final(self)@ == old(self)@.advance(c),
    {
        proof {
            use_type_invariant(&*self);
            lemma_advance(self@);
            lemma_tab_stop(self@.position, self@.src.tab);
        }
        let is_indent = self.indent == self.column && is_space(c);
        let mut line = self.line;
        let mut column = self.column;
        let mut indent = self.indent;
        match c {
            '\t' => {
                let tab = self.src.tab_size();
                column += tab - (column % tab);
            },
            '\r' => {
                line += 1;
                column = 0;
                indent = 0;
            },
            '\n' => {
                if !self.was_cr {
                    line += 1;
                    column = 0;
                    indent = 0;
                }
            },
            _ => {
                column += 1;
            },
        }
        if is_indent {
            indent = column;
        }
        *self = Cursor {
            src: self.src,
            offset: self.offset + char_width(c),
            line,
            column,
            indent,
            was_cr: c == '\r',
        };
    }
}

impl<'a> Cursor<'a> {
    /// Whether this cursor comes before `other` in the order of cursors.
    pub fn precedes(&self, other: &Self) -> (r: bool)
        ensures
            r == self@.precedes(other@),
    {
        if self.src != other.src {
            self.src.precedes(&other.src)
        } else if self.offset != other.offset {
            self.offset < other.offset
        } else if self.line != other.line {
            self.line < other.line
        } else if self.column != other.column {
            self.column < other.column
        } else if self.indent != other.indent {
            self.indent < other.indent
        } else {
            !self.was_cr && other.was_cr
        }
    }
}

impl<'a> PartialEq for Cursor<'a> {
    fn eq(&self, other: &Self) -> (r: bool) {
        self.src == other.src && self.offset == other.offset && self.line == other.line
            && self.column == other.column && self.indent == other.indent && self.was_cr
            == other.was_cr
    }
}

impl<'a> PartialEqSpecImpl for Cursor<'a> {
    open spec fn obeys_eq_spec() -> bool {
        true
    }

    open spec fn eq_spec(&self, other: &Self) -> bool {
        self@ == other@
    }
}

impl<'a> PartialOrd for Cursor<'a> {
    fn partial_cmp(&self, other: &Self) -> (r: Option<Ordering>) {
        if self.eq(other) {
            Some(Ordering::Equal)
        } else if self.precedes(other) {
            Some(Ordering::Less)
        } else {
            Some(Ordering::Greater)
        }
    }
}

impl<'a> PartialOrdSpecImpl for Cursor<'a> {
    open spec fn obeys_partial_cmp_spec() -> bool {
        true
    }

    open spec fn partial_cmp_spec(&self, other: &Self) -> Option<Ordering> {
        if self@ == other@ {
            Some(Ordering::Equal)
        } else if self@.precedes(other@) {
            Some(Ordering::Less)
        } else {
            Some(Ordering::Greater)
        }
    }
}

/// Consuming a text moves the offset by its length in bytes and scans its
/// characters.
pub proof fn lemma_consume(v: CursorView, s: Seq<char>)
    ensures
        v.consume(s).src == v.src,
        v.consume(s).offset == v.offset + byte_len(s),
        v.consume(s).position == v.position.run(v.src.tab, s),
    decreases s.len(),
{
    if s.len() > 0 {
        lemma_consume(v, s.drop_last());
        assert(s =~= s.drop_last().push(s.last()));
        lemma_byte_len_push(s.drop_last(), s.last());
    }
}

/// Consuming one more character is one more advance.
pub proof fn lemma_consume_push(v: CursorView, s: Seq<char>, c: char)
    ensures
        v.consume(s.push(c)) == v.consume(s).advance(c),
{
    assert(s.push(c).drop_last() =~= s);
}

/// At the end of the text nothing is left, and before the end something is.
pub proof fn lemma_rest(v: CursorView)
    requires
        v.wf(),
    ensures
        v.offset <= byte_len(v.src.text),
        v.rest() == v.src.text.skip(index_of(v.src.text, v.offset as int) as int),
        v.consumed() == v.src.text.take(index_of(v.src.text, v.offset as int) as int),
        v.consumed() + v.rest() == v.src.text,
        v.next() is None <==> v.offset == byte_len(v.src.text),
        is_boundary(v.src.text, byte_len(v.src.text) as int),
{
    let t = v.src.text;
    lemma_boundary_index(t, v.offset as int);
    let k = index_of(t, v.offset as int) as int;
    lemma_offset_of(t, k);
    lemma_offset_of(t, t.len() as int);
    assert(t.take(t.len() as int) =~= t);
    assert(t.take(k) + t.skip(k) =~= t);
    if k < t.len() {
        lemma_offset_of_increases(t, k, t.len() as int);
    }
}

/// One character further the cursor is still well formed, with one
/// character more consumed and one less to come, and its numbers fit.
pub proof fn lemma_advance(v: CursorView)
    requires
        v.wf(),
        v.next() is Some,
    ensures
        v.after_read().wf(),
        v.after_read().offset <= byte_len(v.src.text),
        v.after_read().consumed() == v.consumed().push(v.next()->0),
        v.after_read().rest() == v.rest().drop_first(),
        v.after_read().position.line <= v.after_read().offset,
        v.after_read().position.column <= v.after_read().offset * v.src.tab,
        v.after_read().position.indent <= v.after_read().position.column,
        v.after_read().offset * v.src.tab <= usize::MAX,
        v.after_read().offset <= usize::MAX,
{
    let t = v.src.text;
    let c = v.next()->0;
    let n = v.after_read();
    lemma_rest(v);
    lemma_char_at(t, v.offset as int);
    lemma_run_push(Position::origin(), v.src.tab, v.consumed(), c);
    lemma_rest(n);
    assert(v.rest().drop_first() =~= n.rest());
    lemma_position_fits(n);
}

/// Line, column and indentation of a cursor are bounded by its offset.
pub proof fn lemma_position_fits(v: CursorView)
    requires
        v.wf(),
    ensures
        v.position.line <= v.offset,
        v.position.column <= v.offset * v.src.tab,
        v.position.indent <= v.position.column,
        v.offset * v.src.tab <= usize::MAX,
        v.offset <= usize::MAX,
{
    let t = v.src.text;
    let s = v.consumed();
    lemma_run_bounds(Position::origin(), v.src.tab, s);
    lemma_boundary_index(t, v.offset as int);
    lemma_boundary_ends(t);
    lemma_slice(t, 0, v.offset as int);
    lemma_byte_len_bounds(s);
    let (a, b, c, w) = (s.len() as int, v.offset as int, byte_len(t) as int, v.src.tab as int);
    assert(a * w <= b * w && b * w <= c * w && b <= c * w) by (nonlinear_arith)
        requires
            0 <= a <= b <= c,
            w >= 1,
    ;
}

/// Scanning a whole text from its start ends at its length in bytes.
pub proof fn lemma_consume_all(src: SourceView)
    requires
        src.wf(),
    ensures
        CursorView::start(src).wf(),
        CursorView::start(src).skip(byte_len(src.text)) == CursorView::start(src).consume(
            src.text,
        ),
        CursorView::start(src).consume(src.text).offset == byte_len(src.text),
        CursorView::start(src).consume(src.text).wf(),
        CursorView::start(src).consume(src.text).next() is None,
{
    let v = CursorView::start(src);
    let t = src.text;
    lemma_start(src);
    lemma_consume(v, t);
    lemma_rest(v);
    assert(v.rest() =~= t);
    lemma_skip(v, byte_len(t));
    lemma_rest(v.consume(t));
}

/// The cursor at the start of a source is well formed.
pub proof fn lemma_start(src: SourceView)
    requires
        src.wf(),
    ensures
        CursorView::start(src).wf(),
        CursorView::start(src).consumed() == Seq::<char>::empty(),
        CursorView::start(src).rest() == src.text,
{
    let t = src.text;
    assert(t.take(0) =~= Seq::<char>::empty());
    lemma_offset_of(t, 0);
    assert(t.skip(0) =~= t);
}

/// Skipping to a later boundary gives a well-formed cursor at that boundary.
pub proof fn lemma_skip(v: CursorView, bytes: nat)
    requires
        v.wf(),
        is_boundary(v.src.text, (v.offset + bytes) as int),
    ensures
        v.skip(bytes).wf(),
        v.skip(bytes).src == v.src,
        v.skip(bytes).offset == v.offset + bytes,
        v.skip(bytes).consumed() == v.consumed() + slice(
            v.src.text,
            v.offset as int,
            (v.offset + bytes) as int,
        ),
{
    let t = v.src.text;
    let to = (v.offset + bytes) as int;
    let part = slice(t, v.offset as int, to);
    lemma_consume(v, part);
    lemma_slice(t, v.offset as int, to);
    lemma_boundary_ends(t);
    lemma_slice(t, 0, v.offset as int);
    lemma_slice(t, 0, to);
    let j = index_of(t, v.offset as int) as int;
    let k = index_of(t, to) as int;
    assert(t.subrange(0, k) =~= t.subrange(0, j) + t.subrange(j, k));
    lemma_run_concat(Position::origin(), v.src.tab, v.consumed(), part);
}

/// A character that begins before a boundary ends at or before it, and the
/// characters up to its end are those up to its start and the character.
pub proof fn lemma_step_within(t: Seq<char>, from: int, at: int, end: int)
    requires
        is_boundary(t, from),
        is_boundary(t, at),
        is_boundary(t, end),
        from <= at < end,
    ensures
        at + width(t[index_of(t, at) as int]) <= end,
        slice(t, from, at + width(t[index_of(t, at) as int])) == slice(t, from, at).push(
            t[index_of(t, at) as int],
        ),
{
    let j = index_of(t, from) as int;
    let k = index_of(t, at) as int;
    let e = index_of(t, end) as int;
    lemma_boundary_index(t, at);
    lemma_boundary_index(t, end);
    lemma_char_at(t, at);
    lemma_offset_of_next(t, k);
    if e <= k {
        lemma_offset_of_increases(t, e, k);
    }
    lemma_offset_of_increases(t, k + 1, e);
    lemma_slice(t, from, at);
    lemma_slice(t, from, at + width(t[k]));
    assert(t.subrange(j, k + 1) =~= t.subrange(j, k).push(t[k]));
}

} // verus!
