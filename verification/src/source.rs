//! The text that cursors and spans refer to.
use crate::text::{
    byte_len, lemma_byte_len_bounds, lemma_encode_injective, lemma_lex_less_total,
    lemma_lex_less_transitive, same_text, text_len, text_less, text_precedes,
};
use core::cmp::Ordering;
use vstd::prelude::*;
use vstd::std_specs::cmp::{PartialEqSpecImpl, PartialOrdSpecImpl};
use vstd::utf8::encode_utf8;

verus! {

/// The tab width of the empty source.
pub const DEFAULT_TAB_SIZE: usize = 4;

/// A text to scan, with the name it is shown under and the width of its tab
/// stops. It borrows both strings, so a copy is cheap; two sources are equal
/// when name, text and tab width are.
#[derive(Clone, Copy, Eq, Ord, Hash)]
pub struct Source<'a> {
    name: &'a str,
    text: &'a str,
    tab: usize,
}

/// What a source is to the contracts: its name, its text and its tab width.
pub struct SourceView {
    pub name: Seq<char>,
    pub text: Seq<char>,
    pub tab: nat,
}

impl SourceView {
    /// The source without name or text.
    pub open spec fn empty() -> SourceView {
        SourceView { name: Seq::empty(), text: Seq::empty(), tab: DEFAULT_TAB_SIZE as nat }
    }

    /// A tab width of at least one, and a text short enough that no column
    /// in it overflows.
    pub open spec fn wf(self) -> bool {
        &&& self.tab >= 1
        &&& byte_len(self.text) * self.tab <= usize::MAX
    }

    /// Number of bytes of the text.
    pub open spec fn len(self) -> nat {
        byte_len(self.text)
    }

    /// The order of sources: by name, then by text, then by tab width.
    pub open spec fn precedes(self, other: SourceView) -> bool {
        ||| text_less(self.name, other.name)
        ||| self.name == other.name && text_less(self.text, other.text)
        ||| self.name == other.name && self.text == other.text && self.tab < other.tab
    }
}

/// The text of a well-formed source is short enough for its offsets to fit.
pub proof fn lemma_source_fits(src: SourceView)
    requires
        src.wf(),
    ensures
        byte_len(src.text) <= usize::MAX,
{
    let (n, w) = (byte_len(src.text) as int, src.tab as int);
    assert(n <= n * w) by (nonlinear_arith)
        requires
            n >= 0,
            w >= 1,
    ;
}

/// No source comes before itself, and of two different sources one comes
/// before the other.
pub proof fn lemma_source_order(a: SourceView, b: SourceView)
    ensures
        !a.precedes(a),
        a != b ==> (a.precedes(b) != b.precedes(a)),
{
    let (an, bn) = (encode_utf8(a.name), encode_utf8(b.name));
    let (at, bt) = (encode_utf8(a.text), encode_utf8(b.text));
    lemma_lex_less_total(an, an);
    lemma_lex_less_total(at, at);
    lemma_lex_less_total(bn, bn);
    lemma_lex_less_total(bt, bt);
    lemma_lex_less_total(an, bn);
    lemma_lex_less_total(at, bt);
    if an == bn {
        lemma_encode_injective(a.name, b.name);
    }
    if at == bt {
        lemma_encode_injective(a.text, b.text);
    }
}

/// The order of sources is transitive.
pub proof fn lemma_source_order_transitive(a: SourceView, b: SourceView, c: SourceView)
    requires
        a.precedes(b),
        b.precedes(c),
    ensures
        a.precedes(c),
{
    let (an, bn, cn) = (encode_utf8(a.name), encode_utf8(b.name), encode_utf8(c.name));
    let (at, bt, ct) = (encode_utf8(a.text), encode_utf8(b.text), encode_utf8(c.text));
    if text_less(a.name, b.name) && text_less(b.name, c.name) {
        lemma_lex_less_transitive(an, bn, cn);
    }
    if text_less(a.text, b.text) && text_less(b.text, c.text) {
        lemma_lex_less_transitive(at, bt, ct);
    }
}

impl<'a> View for Source<'a> {
    type V = SourceView;

    closed spec fn view(&self) -> SourceView {
        SourceView { name: self.name@, text: self.text@, tab: self.tab as nat }
    }
}

impl<'a> Source<'a> {
    /// Every source is well formed.
    #[verifier::type_invariant]
    pub open spec fn inv(self) -> bool {
        self@.wf()
    }

    /// A source of the given name, text and tab width.
    pub fn new(name: &'a str, text: &'a str, tab_size: usize) -> (r: Self)
        requires
            tab_size >= 1,
            byte_len(text@) * tab_size <= usize::MAX,
        ensures
            r@ == (SourceView { name: name@, text: text@, tab: tab_size as nat }),
            r@.wf(),
    {
        Source { name, text, tab: tab_size }
    }

    /// A source of the given name, text and tab width, unless the tab width
    /// is zero or the text is too long for it.
    pub fn checked(name: &'a str, text: &'a str, tab_size: usize) -> (r: Option<Self>)
        ensures
            r is Some <==> tab_size >= 1 && byte_len(text@) * tab_size <= usize::MAX,
            r is Some ==> r->0@ == (SourceView { name: name@, text: text@, tab: tab_size as nat }),
    {
        if tab_size == 0 {
            return None;
        }
        let n = text_len(text);
        if n > usize::MAX / tab_size {
            assert(n * tab_size > usize::MAX) by (nonlinear_arith)
                requires
                    n > usize::MAX / tab_size,
                    tab_size >= 1,
            ;
            return None;
        }
        assert(n * tab_size <= usize::MAX) by (nonlinear_arith)
            requires
                n <= usize::MAX / tab_size,
                tab_size >= 1,
        ;
        Some(Source { name, text, tab: tab_size })
    }

    /// The source without name or text.
    pub fn empty() -> (r: Self)
        ensures
            r@ == SourceView::empty(),
            r@.wf(),
    {
        proof {
            reveal_strlit("");
            assert(""@ =~= Seq::<char>::empty());
        }
        Source { name: "", text: "", tab: DEFAULT_TAB_SIZE }
    }

    /// The name that the source is shown under.
    pub fn name(&self) -> (r: &'a str)
        ensures
            r@ == self@.name,
    {
        self.name
    }

    /// The whole text.
    pub fn text(&self) -> (r: &'a str)
        ensures
            r@ == self@.text,
    {
        self.text
    }

    /// Number of bytes of the text.
    pub fn len(&self) -> (r: usize)
        ensures
            r == self@.len(),
    {
        text_len(self.text)
    }

    /// Number of columns between tab stops.
    pub fn tab_size(&self) -> (r: usize)
        ensures
            r == self@.tab,
            r >= 1,
            self@.wf(),
    {
        proof {
            use_type_invariant(self);
        }
        self.tab
    }

    /// Whether this is the source without name or text.
    pub fn is_empty(&self) -> (r: bool)
        ensures
            r == (self@ == SourceView::empty()),
    {
        let r = text_len(self.name) == 0 && text_len(self.text) == 0 && self.tab
            == DEFAULT_TAB_SIZE;
        proof {
            if self@.name.len() == 0 {
                assert(self@.name =~= Seq::<char>::empty());
            } else {
                lemma_byte_len_bounds(self@.name);
            }
            if self@.text.len() == 0 {
                assert(self@.text =~= Seq::<char>::empty());
            } else {
                lemma_byte_len_bounds(self@.text);
            }
        }
        r
    }

    /// Whether this source comes before `other` in the order of sources.
    pub fn precedes(&self, other: &Self) -> (r: bool)
        ensures
            r == self@.precedes(other@),
    {
        proof {
            let name = encode_utf8(self@.name);
            let text = encode_utf8(self@.text);
            lemma_lex_less_total(name, name);
            lemma_lex_less_total(text, text);
        }
        if same_text(self.name, other.name) {
            if same_text(self.text, other.text) {
                self.tab < other.tab
            } else {
                text_precedes(self.text, other.text)
            }
        } else {
            text_precedes(self.name, other.name)
        }
    }
}

impl<'a> Default for Source<'a> {
    fn default() -> (r: Self)
        ensures
            r@ == SourceView::empty(),
    {
        Source::empty()
    }
}

impl<'a> PartialEq for Source<'a> {
    fn eq(&self, other: &Self) -> (r: bool) {
        same_text(self.name, other.name) && same_text(self.text, other.text) && self.tab
            == other.tab
    }
}

impl<'a> PartialEqSpecImpl for Source<'a> {
    open spec fn obeys_eq_spec() -> bool {
        true
    }

    open spec fn eq_spec(&self, other: &Self) -> bool {
        self@ == other@
    }
}

impl<'a> PartialOrd for Source<'a> {
    fn partial_cmp(&self, other: &Self) -> (r: Option<Ordering>) {
        if self.eq(other) {
            Some(Ordering::Equal)
        } else if self.precedes(other) {
            Some(Ordering::Less)
        } else {
            Some(Ordering::Greater)
        }
    }
}

impl<'a> PartialOrdSpecImpl for Source<'a> {
    open spec fn obeys_partial_cmp_spec() -> bool {
        true
    }

    open spec fn partial_cmp_spec(&self, other: &Self) -> Option<Ordering> {
        if self@ == other@ {
            Some(Ordering::Equal)
        } else if self@.precedes(other@) {
            Some(Ordering::Less)
        } else {
            Some(Ordering::Greater)
        }
    }
}

} // verus!
