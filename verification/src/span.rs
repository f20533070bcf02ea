//! Ranges of bytes in a source.
use crate::cursor::{lemma_skip, lemma_start, Cursor, CursorView};
use crate::excerpt::{
    char_offset, display, first_line, lemma_display_parts, trim_end, trim_start, ELLIPSIS,
    MAX_DISPLAY_CHARS,
};
use crate::number::{decimal, to_decimal};
use crate::source::{lemma_source_order, Source, SourceView};
use crate::text::{
    byte_len, is_boundary, lemma_boundary_ends, lemma_byte_len_bounds, lemma_offset_of, slice,
    substr, text_len,
};
use core::cmp::Ordering;
use std::borrow::Cow;
use vstd::prelude::*;
use vstd::std_specs::cmp::{PartialEqSpecImpl, PartialOrdSpecImpl};
use vstd::string::*;

verus! {

/// The bytes `[start, end)` of a source, with the indentation of the line
/// that the range was taken on.
#[derive(Clone, Copy, Eq, Hash)]
pub struct Span<'a> {
    sta: usize,
    end: usize,
    ind: usize,
    src: Source<'a>,
}

/// What a span is to the contracts.
pub struct SpanView {
    /// The source that the span lies in.
    pub src: SourceView,
    /// Offset of the first byte.
    pub start: nat,
    /// Offset behind the last byte.
    pub end: nat,
    /// Indentation that the span was taken with.
    pub indent: nat,
}

impl SpanView {
    /// The span of nothing: no bytes at the start of the empty source.
    pub open spec fn empty() -> SpanView {
        SpanView { src: SourceView::empty(), start: 0, end: 0, indent: 0 }
    }

    /// The range lies within the text of its source.
    pub open spec fn wf(self) -> bool {
        &&& self.src.wf()
        &&& self.start <= self.end <= byte_len(self.src.text)
    }

    /// Whether this is the span of nothing. A span without bytes elsewhere
    /// is not.
    pub open spec fn is_empty(self) -> bool {
        self == SpanView::empty()
    }

    /// Number of bytes.
    pub open spec fn len(self) -> nat {
        (self.end - self.start) as nat
    }

    /// Whether both ends lie between characters, so that the span holds
    /// text.
    pub open spec fn aligned(self) -> bool {
        &&& is_boundary(self.src.text, self.start as int)
        &&& is_boundary(self.src.text, self.end as int)
    }

    /// The characters that the span holds.
    pub open spec fn text(self) -> Seq<char> {
        slice(self.src.text, self.start as int, self.end as int)
    }

    /// Whether the two spans can be merged: they lie in one source, or one
    /// of them is the span of nothing.
    pub open spec fn mergeable(self, other: SpanView) -> bool {
        self.is_empty() || other.is_empty() || self.src == other.src
    }

    /// The smallest span that covers both, with the indentation of the one
    /// that starts first, and of this one if both start together. The span
    /// of nothing leaves the other as it is.
    pub open spec fn merge(self, other: SpanView) -> SpanView {
        if self.is_empty() {
            other
        } else if other.is_empty() {
            self
        } else {
            let (a, b) = if self.start <= other.start {
                (self, other)
            } else {
                (other, self)
            };
            SpanView {
                src: a.src,
                start: a.start,
                end: if a.end >= b.end {
                    a.end
                } else {
                    b.end
                },
                indent: a.indent,
            }
        }
    }

    /// The span from the start of this one to the start of `other`.
    pub open spec fn up_to(self, other: SpanView) -> SpanView {
        SpanView { end: other.start, ..self }
    }

    /// The span without bytes at the end of this one.
    pub open spec fn to_end(self) -> SpanView {
        SpanView { start: self.end, ..self }
    }

    /// The first `len` bytes of this span.
    pub open spec fn truncated(self, len: nat) -> SpanView {
        SpanView { end: self.start + len, ..self }
    }

    /// The cursor that has scanned the source up to the start of the span.
    pub open spec fn location(self) -> CursorView {
        CursorView::start(self.src).skip(self.start)
    }

    /// Whether both spans cover the same bytes of the same source.
    pub open spec fn same_range(self, other: SpanView) -> bool {
        self.src == other.src && self.start == other.start && self.end == other.end
    }

    /// The order of spans: by source, then by start, then by end.
    pub open spec fn precedes(self, other: SpanView) -> bool {
        ||| self.src.precedes(other.src)
        ||| self.src == other.src && self.start < other.start
        ||| self.src == other.src && self.start == other.start && self.end < other.end
    }

    /// How the span is shown: line and column of its start, counted from
    /// one, and its length if it has one.
    pub open spec fn shown(self) -> Seq<char> {
        let at = self.location().position;
        let place = decimal(at.line + 1) + seq![':'] + decimal(at.column + 1);
        if self.len() > 0 {
            place + seq!['+'] + decimal(self.len())
        } else {
            place
        }
    }

    /// How the span is shown in bytes: the name of its source, the offset of
    /// its start, and its length if it has one.
    pub open spec fn shown_raw(self) -> Seq<char> {
        let place = self.src.name + seq![':'] + decimal(self.start);
        if self.len() > 0 {
            place + seq!['+'] + decimal(self.len())
        } else {
            place
        }
    }
}

/// What lies somewhere in a source and can say where: a token, a node of a
/// syntax tree.
pub trait HasSpan<'a> {
    /// The span of this item.
    fn span(&self) -> Span<'a>;
}

impl<'a> HasSpan<'a> for Span<'a> {
    fn span(&self) -> (r: Span<'a>)
        ensures
            r == *self,
    {
        *self
    }
}

/// Whether `span` is a span that `item` may give for itself.
pub open spec fn gives_span<'a, U: HasSpan<'a>>(item: &U, span: Span<'a>) -> bool {
    call_ensures(U::span, (item,), span)
}

impl<'a> View for Span<'a> {
    type V = SpanView;

    closed spec fn view(&self) -> SpanView {
        SpanView {
            src: self.src@,
            start: self.sta as nat,
            end: self.end as nat,
            indent: self.ind as nat,
        }
    }
}

impl<'a> Span<'a> {
    /// Every span lies within the text of its source.
    #[verifier::type_invariant]
    pub open spec fn inv(self) -> bool {
        self@.wf()
    }

    /// The span of the bytes `[sta, end)` of `src`, with indentation `ind`.
    pub(crate) fn new(src: Source<'a>, sta: usize, end: usize, ind: usize) -> (r: Self)
        requires
            sta <= end <= src@.len(),
        ensures
            r@ == (SpanView { src: src@, start: sta as nat, end: end as nat, indent: ind as nat }),
    {
        proof {
            use_type_invariant(&src);
        }
        Self { sta, end, ind, src }
    }

    /// The span of nothing.
    pub fn empty() -> (r: Self)
        ensures
            r@ == SpanView::empty(),
    {
        Span::new(Source::empty(), 0, 0, 0)
    }

    /// The span over `elems`: that of nothing if there are none, that of
    /// the item if there is one, else the span of the first merged with
    /// that of the last. The items between are not looked at.
    pub fn range<U: HasSpan<'a>>(elems: &[U]) -> (r: Span<'a>)
        requires
            elems@.len() >= 2 ==> forall|first: Span<'a>, last: Span<'a>|
                gives_span(&elems@.first(), first) && gives_span(&elems@.last(), last)
                    ==> first@.mergeable(last@),
        ensures
            elems@.len() == 0 ==> r@ == SpanView::empty(),
            elems@.len() == 1 ==> gives_span(&elems@[0], r),
            elems@.len() >= 2 ==> exists|first: Span<'a>, last: Span<'a>|
                gives_span(&elems@.first(), first) && gives_span(&elems@.last(), last) && r@
                    == first@.merge(last@),
    {
        let n = elems.len();
        if n == 0 {
            Span::empty()
        } else {
            let first = elems[0].span();
            if n == 1 {
                first
            } else {
                let last = elems[n - 1].span();
                assert(gives_span(&elems@.first(), first));
                assert(gives_span(&elems@.last(), last));
                Self::merge(first, last)
            }
        }
    }

    /// The text of the span as a message shows it: its first line without
    /// the whitespace around it, cut to `MAX_DISPLAY_CHARS` characters, with
    /// an ellipsis on each side where something was left out. `None` if
    /// nothing is left to show.
    pub fn display_text(&self) -> (r: Option<Cow<'a, str>>)
        requires
            self@.aligned(),
        ensures
            r is Some <==> display(self@.text()) is Some,
            r is Some ==> r->0@ == display(self@.text())->0,
    {
        let whole = self.text();
        let text = first_line(whole);
        let text = trim_end(text);
        let cut_after = text_len(text) < text_len(whole);
        let trimmed = trim_start(text);
        let cut_before = text_len(trimmed) < text_len(text);
        proof {
            lemma_display_parts(whole@);
        }
        let (text, cut_after) = match char_offset(trimmed, MAX_DISPLAY_CHARS) {
            Some(n) => {
                proof {
                    lemma_boundary_ends(trimmed@);
                    lemma_offset_of(trimmed@, MAX_DISPLAY_CHARS as int);
                }
                (substr(trimmed, 0, n), true)
            },
            None => (trimmed, cut_after),
        };
        proof {
            lemma_byte_len_bounds(text@);
            reveal_strlit("…");
            reveal_strlit("");
            assert(""@ =~= Seq::<char>::empty());
            assert("…"@ =~= seq![ELLIPSIS]);
        }
        if text_len(text) > 0 {
            if cut_before || cut_after {
                let prefix = if cut_before {
                    "…"
                } else {
                    ""
                };
                let suffix = if cut_after {
                    "…"
                } else {
                    ""
                };
                let mut out = String::from_str(prefix);
                out.append(text);
                out.append(suffix);
                Some(Cow::Owned(out))
            } else {
                proof {
                    assert(Seq::<char>::empty() + text@ + Seq::<char>::empty() =~= text@);
                }
                Some(Cow::Borrowed(text))
            }
        } else {
            None
        }
    }

    /// The span from the start of this one to the start of `other`.
    pub fn up_to(&self, other: Self) -> (r: Self)
        requires
            self@.src == other@.src,
            self@.start <= other@.start,
        ensures
            r@ == self@.up_to(other@),
    {
        proof {
            use_type_invariant(self);
            use_type_invariant(&other);
        }
        Self { sta: self.sta, end: other.sta, ind: self.ind, src: self.src }
    }

    /// The span without bytes at the end of this one.
    pub fn to_end(&self) -> (r: Self)
        ensures
            r@ == self@.to_end(),
    {
        proof {
            use_type_invariant(self);
        }
        Self { sta: self.end, end: self.end, ind: self.ind, src: self.src }
    }

    /// The first `len` bytes of this span.
    pub fn truncated(&self, len: usize) -> (r: Self)
        requires
            len <= self@.len(),
        ensures
            r@ == self@.truncated(len as nat),
    {
        proof {
            use_type_invariant(self);
        }
        Self { sta: self.sta, end: self.sta + len, ind: self.ind, src: self.src }
    }

    /// The smallest span that covers `a` and `b`.
    pub fn merge(a: Self, b: Self) -> (r: Self)
        requires
            a@.mergeable(b@),
        ensures
            r@ == a@.merge(b@),
    {
        if a.is_empty() {
            return b;
        }
        if b.is_empty() {
            return a;
        }
        proof {
            use_type_invariant(&a);
            use_type_invariant(&b);
        }
        let (a, b) = if a.sta <= b.sta {
            (a, b)
        } else {
            (b, a)
        };
        Self { sta: a.sta, ind: a.ind, end: if a.end >= b.end {
            a.end
        } else {
            b.end
        }, src: a.src }
    }

    /// The smallest span that covers this one and `other`.
    pub fn merged(self, other: Self) -> (r: Self)
        requires
            self@.mergeable(other@),
        ensures
            r@ == self@.merge(other@),
    {
        Self::merge(self, other)
    }

    /// The source that the span lies in.
    pub fn src(&self) -> (r: Source<'a>)
        ensures
            r@ == self@.src,
    {
        self.src
    }

    /// Offset of the first byte.
    pub fn pos(&self) -> (r: usize)
        ensures
            r == self@.start,
    {
        self.sta
    }

    /// Number of bytes.
    pub fn len(&self) -> (r: usize)
        ensures
            r == self@.len(),
    {
        proof {
            use_type_invariant(self);
        }
        self.end - self.sta
    }

    /// Offset behind the last byte.
    pub fn end(&self) -> (r: usize)
        ensures
            r == self@.end,
            self@.start <= r <= byte_len(self@.src.text),
    {
        proof {
            use_type_invariant(self);
        }
        self.end
    }

    /// Indentation that the span was taken with.
    pub fn indent(&self) -> (r: usize)
        ensures
            r == self@.indent,
    {
        self.ind
    }

    /// Whether both ends lie between characters, so that the span holds
    /// text.
    pub fn is_aligned(&self) -> (r: bool)
        ensures
            r == self@.aligned(),
    {
        let text = self.src.text();
        text.is_char_boundary(self.sta) && text.is_char_boundary(self.end)
    }

    /// The text that the span holds.
    pub fn text(&self) -> (r: &'a str)
        requires
            self@.aligned(),
        ensures
            r@ == self@.text(),
    {
        proof {
            use_type_invariant(self);
        }
        substr(self.src.text(), self.pos(), self.end())
    }

    /// Whether this is the span of nothing.
    pub fn is_empty(&self) -> (r: bool)
        ensures
            r == self@.is_empty(),
    {
        self.sta == 0 && self.end == 0 && self.ind == 0 && self.src.is_empty()
    }

    /// The cursor at the start of the span, by scanning the source from its
    /// beginning.
    pub fn location(&self) -> (r: Cursor<'a>)
        requires
            is_boundary(self@.src.text, self@.start as int),
        ensures
            r@ == self@.location(),
            r@.wf(),
            r@.offset == self@.start,
    {
        let mut cursor = Cursor::new(self.src());
        proof {
            use_type_invariant(self);
            lemma_start(self@.src);
            lemma_skip(CursorView::start(self@.src), self@.start);
        }
        cursor.skip_len(self.sta);
        cursor
    }

    /// How this span stands to `other` in the order of spans: by source,
    /// then by start, then by end.
    pub fn cmp(&self, other: &Self) -> (r: Ordering)
        ensures
            r == (if self@.same_range(other@) {
                Ordering::Equal
            } else if self@.precedes(other@) {
                Ordering::Less
            } else {
                Ordering::Greater
            }),
    {
        proof {
            lemma_source_order(self@.src, other@.src);
        }
        if self.src == other.src {
            if self.sta < other.sta {
                Ordering::Less
            } else if self.sta > other.sta {
                Ordering::Greater
            } else if self.end < other.end {
                Ordering::Less
            } else if self.end > other.end {
                Ordering::Greater
            } else {
                Ordering::Equal
            }
        } else if self.src.precedes(&other.src) {
            Ordering::Less
        } else {
            Ordering::Greater
        }
    }

    /// The span as it is shown: line and column of its start, counted from
    /// one, and its length if it has one.
    pub fn to_string(&self) -> (r: String)
        requires
            is_boundary(self@.src.text, self@.start as int),
        ensures
            r@ == self@.shown(),
    {
        let at = self.location();
        proof {
            reveal_strlit(":");
            reveal_strlit("+");
            assert(":"@ =~= seq![':']);
            assert("+"@ =~= seq!['+']);
        }
        let mut out = to_decimal(at.line() as u128 + 1);
        out.append(":");
        out.append(to_decimal(at.column() as u128 + 1).as_str());
        let len = self.len();
        if len > 0 {
            out.append("+");
            out.append(to_decimal(len as u128).as_str());
        }
        out
    }

    /// The span as it is shown in bytes: the name of its source, the offset
    /// of its start, and its length if it has one.
    pub fn to_debug_string(&self) -> (r: String)
        ensures
            r@ == self@.shown_raw(),
    {
        proof {
            reveal_strlit(":");
            reveal_strlit("+");
            assert(":"@ =~= seq![':']);
            assert("+"@ =~= seq!['+']);
        }
        let mut out = String::from_str(self.src.name());
        out.append(":");
        out.append(to_decimal(self.sta as u128).as_str());
        let len = self.len();
        if len > 0 {
            out.append("+");
            out.append(to_decimal(len as u128).as_str());
        }
        out
    }
}

impl<'a> Default for Span<'a> {
    fn default() -> (r: Self)
        ensures
            r@ == SpanView::empty(),
    {
        Span::empty()
    }
}

impl<'a> PartialEq for Span<'a> {
    fn eq(&self, other: &Self) -> (r: bool) {
        self.sta == other.sta && self.end == other.end && self.ind == other.ind && self.src
            == other.src
    }
}

impl<'a> PartialEqSpecImpl for Span<'a> {
    open spec fn obeys_eq_spec() -> bool {
        true
    }

    open spec fn eq_spec(&self, other: &Self) -> bool {
        self@ == other@
    }
}

impl<'a> PartialOrd for Span<'a> {
    fn partial_cmp(&self, other: &Self) -> (r: Option<Ordering>) {
        Some(self.cmp(other))
    }
}

impl<'a> PartialOrdSpecImpl for Span<'a> {
    open spec fn obeys_partial_cmp_spec() -> bool {
        true
    }

    open spec fn partial_cmp_spec(&self, other: &Self) -> Option<Ordering> {
        if self@.same_range(other@) {
            Some(Ordering::Equal)
        } else if self@.precedes(other@) {
            Some(Ordering::Less)
        } else {
            Some(Ordering::Greater)
        }
    }
}

/// Merging is symmetric, unless both spans start together with different
/// indentations: then each order keeps the indentation of its first span.
pub proof fn lemma_merge_commutes(a: SpanView, b: SpanView)
    requires
        a.mergeable(b),
        !(!a.is_empty() && !b.is_empty() && a.start == b.start && a.indent != b.indent),
    ensures
        a.merge(b) == b.merge(a),
{
}

/// Merging always covers the same bytes, in whichever order.
pub proof fn lemma_merge_range_commutes(a: SpanView, b: SpanView)
    requires
        a.mergeable(b),
    ensures
        a.merge(b).same_range(b.merge(a)),
{
}

/// The span of nothing is the identity of merging.
pub proof fn lemma_merge_identity(x: SpanView)
    ensures
        SpanView::empty().merge(x) == x,
        x.merge(SpanView::empty()) == x,
{
}

/// Two spans of one source merge to the smallest span that covers both.
pub proof fn lemma_merge_covers(a: SpanView, b: SpanView)
    requires
        a.wf(),
        b.wf(),
        a.src == b.src,
        !a.is_empty(),
        !b.is_empty(),
    ensures
        a.merge(b).wf(),
        a.merge(b).src == a.src,
        a.merge(b).start <= a.start && a.merge(b).start <= b.start,
        a.merge(b).end >= a.end && a.merge(b).end >= b.end,
        a.merge(b).start == a.start || a.merge(b).start == b.start,
        a.merge(b).end == a.end || a.merge(b).end == b.end,
        a.aligned() && b.aligned() ==> a.merge(b).aligned(),
{
}

/// Truncating a span to its own length changes nothing, and truncating it
/// to nothing leaves a span without bytes at its start.
pub proof fn lemma_truncated(s: SpanView)
    requires
        s.wf(),
    ensures
        s.truncated(s.len()) == s,
        s.truncated(0).start == s.start,
        s.truncated(0).end == s.start,
        s.truncated(0).len() == 0,
        s.truncated(0).src == s.src,
        s.truncated(0).indent == s.indent,
{
}

/// From a span up to one that starts where it starts there are no bytes.
pub proof fn lemma_up_to_same_start(a: SpanView, b: SpanView)
    requires
        a.start == b.start,
    ensures
        a.up_to(b).len() == 0,
        a.up_to(b).start == a.start,
        a.up_to(b).end == a.start,
{
}

} // verus!
