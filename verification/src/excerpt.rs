//! Parts of a text that are cut out to be shown: its first line, its first
//! word, what is left when whitespace is trimmed off, its first characters.
use crate::chars::{is_line_break, is_whitespace, line_break, whitespace};
use crate::text::{
    byte_len, char_at, char_width, index_of, is_boundary, lemma_boundary_ends,
    lemma_boundary_index, lemma_byte_len_bounds, lemma_encode_concat, lemma_offset_of,
    lemma_split, offset_of, substr, text_len,
};
use vstd::prelude::*;

verus! {

/// Number of characters of a text that a message shows at most.
pub const MAX_DISPLAY_CHARS: usize = 30;

/// Number of characters after the first that the context of a position
/// holds at most.
pub const MAX_CONTEXT_CHARS: usize = 10;

/// The mark that stands for text left out.
pub const ELLIPSIS: char = '\u{2026}';

/// Number of characters before the first line break of `s`.
pub open spec fn line_len(s: Seq<char>) -> nat
    decreases s.len(),
{
    if s.len() == 0 || line_break(s[0]) {
        0
    } else {
        1 + line_len(s.drop_first())
    }
}

/// Number of characters before the first whitespace of `s`.
pub open spec fn word_len(s: Seq<char>) -> nat
    decreases s.len(),
{
    if s.len() == 0 || whitespace(s[0]) {
        0
    } else {
        1 + word_len(s.drop_first())
    }
}

/// The characters of `s` before its first line break.
pub open spec fn spec_first_line(s: Seq<char>) -> Seq<char> {
    s.take(line_len(s) as int)
}

/// The characters of `s` before its first whitespace.
pub open spec fn spec_first_word(s: Seq<char>) -> Seq<char> {
    s.take(word_len(s) as int)
}

/// `s` without the whitespace that it begins with.
pub open spec fn spec_trim_start(s: Seq<char>) -> Seq<char>
    decreases s.len(),
{
    if s.len() > 0 && whitespace(s[0]) {
        spec_trim_start(s.drop_first())
    } else {
        s
    }
}

/// `s` without the whitespace that it ends with.
pub open spec fn spec_trim_end(s: Seq<char>) -> Seq<char>
    decreases s.len(),
{
    if s.len() > 0 && whitespace(s.last()) {
        spec_trim_end(s.drop_last())
    } else {
        s
    }
}

/// The first `n` characters of `s`, or all of `s` if it has no more.
pub open spec fn spec_first_chars(s: Seq<char>, n: nat) -> Seq<char> {
    if s.len() > n {
        s.take(n as int)
    } else {
        s
    }
}

/// What a message quotes of the text `s` that follows a position: its
/// first word, cut to one character more than `MAX_CONTEXT_CHARS`.
pub open spec fn context(s: Seq<char>) -> Seq<char> {
    spec_first_chars(spec_first_word(s), (MAX_CONTEXT_CHARS + 1) as nat)
}

/// An ellipsis if `cut` holds, else nothing.
pub open spec fn mark(cut: bool) -> Seq<char> {
    if cut {
        seq![ELLIPSIS]
    } else {
        seq![]
    }
}

/// The first line of `t` without the whitespace that it ends with.
pub open spec fn display_kept(t: Seq<char>) -> Seq<char> {
    spec_trim_end(spec_first_line(t))
}

/// The first line of `t` without the whitespace around it.
pub open spec fn display_body(t: Seq<char>) -> Seq<char> {
    spec_trim_start(display_kept(t))
}

/// How a message shows the text `t`: the first line without the whitespace
/// around it, cut to `MAX_DISPLAY_CHARS` characters. An ellipsis before it
/// says that whitespace was trimmed off the start; one behind it, that
/// something of `t` is left out behind. `None` if nothing is left to show.
pub open spec fn display(t: Seq<char>) -> Option<Seq<char>> {
    let kept = display_kept(t);
    let body = display_body(t);
    let shown = spec_first_chars(body, MAX_DISPLAY_CHARS as nat);
    let cut_before = body.len() < kept.len();
    let cut_after = body.len() > MAX_DISPLAY_CHARS || kept.len() < t.len();
    if shown.len() == 0 {
        None
    } else {
        Some(mark(cut_before) + shown + mark(cut_after))
    }
}

/// The part of `s` before its first line break.
pub fn first_line<'a>(s: &'a str) -> (r: &'a str)
    ensures
        r@ == spec_first_line(s@),
{
    let n = text_len(s);
    let mut at: usize = 0;
    proof {
        lemma_boundary_ends(s@);
    }
    while at < n
        invariant
            n == byte_len(s@),
            at <= n,
            is_boundary(s@, at as int),
            forall|i: int| 0 <= i < index_of(s@, at as int) ==> !line_break(#[trigger] s@[i]),
        ensures
            at <= n,
            is_boundary(s@, at as int),
            forall|i: int| 0 <= i < index_of(s@, at as int) ==> !line_break(#[trigger] s@[i]),
            at == n || line_break(s@[index_of(s@, at as int) as int]),
        decreases n - at,
    {
        let c = char_at(s, at);
        if is_line_break(c) {
            break ;
        }
        at += char_width(c);
    }
    proof {
        lemma_split(s@, at as int);
        lemma_line_len(s@, index_of(s@, at as int) as int);
    }
    substr(s, 0, at)
}

/// The part of `s` before its first whitespace.
pub fn first_word<'a>(s: &'a str) -> (r: &'a str)
    ensures
        r@ == spec_first_word(s@),
{
    let n = text_len(s);
    let mut at: usize = 0;
    proof {
        lemma_boundary_ends(s@);
    }
    while at < n
        invariant
            n == byte_len(s@),
            at <= n,
            is_boundary(s@, at as int),
            forall|i: int| 0 <= i < index_of(s@, at as int) ==> !whitespace(#[trigger] s@[i]),
        ensures
            at <= n,
            is_boundary(s@, at as int),
            forall|i: int| 0 <= i < index_of(s@, at as int) ==> !whitespace(#[trigger] s@[i]),
            at == n || whitespace(s@[index_of(s@, at as int) as int]),
        decreases n - at,
    {
        let c = char_at(s, at);
        if is_whitespace(c) {
            break ;
        }
        at += char_width(c);
    }
    proof {
        lemma_split(s@, at as int);
        lemma_word_len(s@, index_of(s@, at as int) as int);
    }
    substr(s, 0, at)
}

/// `s` without the whitespace that it begins with.
pub fn trim_start<'a>(s: &'a str) -> (r: &'a str)
    ensures
        r@ == spec_trim_start(s@),
{
    let n = text_len(s);
    let mut at: usize = 0;
    proof {
        lemma_boundary_ends(s@);
    }
    while at < n
        invariant
            n == byte_len(s@),
            at <= n,
            is_boundary(s@, at as int),
            is_boundary(s@, n as int),
            forall|i: int| 0 <= i < index_of(s@, at as int) ==> whitespace(#[trigger] s@[i]),
        ensures
            at <= n,
            is_boundary(s@, at as int),
            is_boundary(s@, n as int),
            forall|i: int| 0 <= i < index_of(s@, at as int) ==> whitespace(#[trigger] s@[i]),
            at == n || !whitespace(s@[index_of(s@, at as int) as int]),
        decreases n - at,
    {
        let c = char_at(s, at);
        if !is_whitespace(c) {
            break ;
        }
        at += char_width(c);
    }
    proof {
        lemma_split(s@, at as int);
        lemma_trim_start(s@, index_of(s@, at as int) as int);
    }
    substr(s, at, n)
}

/// `s` without the whitespace that it ends with.
pub fn trim_end<'a>(s: &'a str) -> (r: &'a str)
    ensures
        r@ == spec_trim_end(s@),
{
    let n = text_len(s);
    let mut at: usize = 0;
    let mut keep: usize = 0;
    proof {
        lemma_boundary_ends(s@);
    }
    while at < n
        invariant
            n == byte_len(s@),
            keep <= at <= n,
            is_boundary(s@, at as int),
            is_boundary(s@, keep as int),
            index_of(s@, keep as int) <= index_of(s@, at as int),
            forall|i: int|
                index_of(s@, keep as int) <= i < index_of(s@, at as int) ==> whitespace(
                    #[trigger] s@[i],
                ),
            keep == 0 || !whitespace(s@[index_of(s@, keep as int) - 1]),
        decreases n - at,
    {
        let c = char_at(s, at);
        at += char_width(c);
        if !is_whitespace(c) {
            keep = at;
        }
    }
    proof {
        lemma_split(s@, at as int);
        lemma_split(s@, keep as int);
        lemma_trim_end(s@, index_of(s@, keep as int) as int);
    }
    substr(s, 0, keep)
}

/// The byte offset at which character number `n` of `s` begins, if `s` has
/// more than `n` characters.
pub fn char_offset(s: &str, n: usize) -> (r: Option<usize>)
    ensures
        r is Some <==> n < s@.len(),
        r is Some ==> r->0 == offset_of(s@, n as int),
{
    let len = text_len(s);
    let mut at: usize = 0;
    let mut count: usize = 0;
    proof {
        lemma_boundary_ends(s@);
    }
    while at < len && count < n
        invariant
            len == byte_len(s@),
            at <= len,
            is_boundary(s@, at as int),
            count == index_of(s@, at as int),
            count <= n,
        decreases len - at,
    {
        let c = char_at(s, at);
        at += char_width(c);
        count += 1;
    }
    proof {
        lemma_split(s@, at as int);
        lemma_boundary_index(s@, at as int);
    }
    if at < len {
        Some(at)
    } else {
        None
    }
}

/// The first `n` characters of `s`, or all of `s` if it has no more.
pub fn first_chars<'a>(s: &'a str, n: usize) -> (r: &'a str)
    ensures
        r@ == spec_first_chars(s@, n as nat),
{
    match char_offset(s, n) {
        Some(end) => {
            proof {
                lemma_boundary_ends(s@);
                lemma_offset_of(s@, n as int);
            }
            substr(s, 0, end)
        },
        None => s,
    }
}

/// The context holds no whitespace, is no longer than allowed, and is where
/// the text begins.
pub proof fn lemma_context(s: Seq<char>)
    ensures
        context(s).len() <= MAX_CONTEXT_CHARS + 1,
        context(s).len() <= s.len(),
        context(s) == s.take(context(s).len() as int),
        forall|i: int| 0 <= i < context(s).len() ==> !whitespace(#[trigger] context(s)[i]),
        context(s).len() < s.len() && context(s).len() <= MAX_CONTEXT_CHARS ==> whitespace(
            s[context(s).len() as int],
        ),
{
    lemma_first_word(s);
    let w = spec_first_word(s);
    if w.len() > MAX_CONTEXT_CHARS + 1 {
        assert(w.take((MAX_CONTEXT_CHARS + 1) as int) =~= s.take((MAX_CONTEXT_CHARS + 1) as int));
    } else {
        assert(s.take(w.len() as int) =~= w);
    }
}

/// The first word holds no whitespace, and ends at one or at the end of the
/// text.
pub proof fn lemma_first_word(s: Seq<char>)
    ensures
        word_len(s) <= s.len(),
        forall|i: int| 0 <= i < word_len(s) ==> !whitespace(#[trigger] s[i]),
        word_len(s) < s.len() ==> whitespace(s[word_len(s) as int]),
    decreases s.len(),
{
    if s.len() > 0 && !whitespace(s[0]) {
        lemma_first_word(s.drop_first());
        assert forall|i: int| 0 <= i < word_len(s) implies !whitespace(#[trigger] s[i]) by {
            if i > 0 {
                assert(s[i] == s.drop_first()[i - 1]);
            }
        }
    }
}

/// The parts that `display` goes by are parts of the text: what is kept is
/// a prefix of it, and the body is the end of that. So a part is shorter in
/// bytes exactly when it is shorter in characters.
pub proof fn lemma_display_parts(t: Seq<char>)
    ensures
        display_kept(t).len() <= t.len(),
        display_body(t).len() <= display_kept(t).len(),
        byte_len(display_kept(t)) < byte_len(t) <==> display_kept(t).len() < t.len(),
        byte_len(display_body(t)) < byte_len(display_kept(t)) <==> display_body(t).len()
            < display_kept(t).len(),
{
    let line = spec_first_line(t);
    let kept = display_kept(t);
    let body = display_body(t);
    lemma_line_len_bound(t);
    lemma_trimmed(line);
    lemma_trimmed(kept);
    assert(kept =~= t.take(kept.len() as int));
    assert(t =~= kept + t.skip(kept.len() as int));
    lemma_encode_concat(kept, t.skip(kept.len() as int));
    lemma_byte_len_bounds(t.skip(kept.len() as int));
    let gone = kept.len() - body.len();
    assert(kept =~= kept.take(gone) + body);
    lemma_encode_concat(kept.take(gone), body);
    lemma_byte_len_bounds(kept.take(gone));
}

/// A text whose first line, trimmed, has more than `MAX_DISPLAY_CHARS`
/// characters is shown as its first `MAX_DISPLAY_CHARS` characters and an
/// ellipsis behind them, and an ellipsis before them if whitespace was
/// trimmed off the start.
pub proof fn lemma_display_long(t: Seq<char>)
    requires
        display_body(t).len() > MAX_DISPLAY_CHARS,
    ensures
        display(t) is Some,
        display(t)->0.last() == ELLIPSIS,
        display_body(t).len() == display_kept(t).len() ==> display(t)->0.len()
            == MAX_DISPLAY_CHARS + 1,
        display_body(t).len() < display_kept(t).len() ==> display(t)->0.len()
            == MAX_DISPLAY_CHARS + 2 && display(t)->0.first() == ELLIPSIS,
        display(t)->0.subrange(
            display(t)->0.len() - 1 - MAX_DISPLAY_CHARS,
            display(t)->0.len() - 1,
        ) == display_body(t).take(MAX_DISPLAY_CHARS as int),
{
    lemma_display_parts(t);
    let shown = display_body(t).take(MAX_DISPLAY_CHARS as int);
    let out = display(t)->0;
    assert(out.subrange(out.len() - 1 - MAX_DISPLAY_CHARS, out.len() - 1) =~= shown);
}

/// What is shown of a text never begins or ends with whitespace, but for
/// the ellipses, and holds no line break.
pub proof fn lemma_display_trimmed(t: Seq<char>)
    ensures
        display(t) is Some <==> display_body(t).len() > 0,
        display(t) is Some ==> display(t)->0.len() >= 1,
        display_body(t).len() > 0 ==> !whitespace(display_body(t).first()),
        display_body(t).len() > 0 ==> !whitespace(display_body(t).last()),
        forall|i: int| 0 <= i < display_body(t).len() ==> !line_break(#[trigger] display_body(t)[i]),
{
    let line = spec_first_line(t);
    let kept = display_kept(t);
    let body = display_body(t);
    lemma_trimmed(line);
    lemma_trimmed(kept);
    lemma_first_line(t);
    let gone = kept.len() - body.len();
    assert(body == kept.skip(gone));
    assert(kept == line.take(kept.len() as int));
    if body.len() > 0 {
        assert(body.last() == kept.last());
    }
    assert forall|i: int| 0 <= i < body.len() implies !line_break(#[trigger] body[i]) by {
        assert(body[i] == kept[i + gone]);
        assert(kept[i + gone] == line[i + gone]);
    }
}

/// The first line holds no line break, and ends at one or at the end of the
/// text.
pub proof fn lemma_first_line(s: Seq<char>)
    ensures
        line_len(s) <= s.len(),
        forall|i: int| 0 <= i < line_len(s) ==> !line_break(#[trigger] s[i]),
        forall|i: int|
            0 <= i < spec_first_line(s).len() ==> !line_break(#[trigger] spec_first_line(s)[i]),
        line_len(s) < s.len() ==> line_break(s[line_len(s) as int]),
    decreases s.len(),
{
    if s.len() > 0 && !line_break(s[0]) {
        lemma_first_line(s.drop_first());
        assert forall|i: int| 0 <= i < line_len(s) implies !line_break(#[trigger] s[i]) by {
            if i > 0 {
                assert(s[i] == s.drop_first()[i - 1]);
            }
        }
    }
}

/// The first line break of `s` is where no line break comes before.
pub proof fn lemma_line_len(s: Seq<char>, k: int)
    requires
        0 <= k <= s.len(),
        forall|i: int| 0 <= i < k ==> !line_break(#[trigger] s[i]),
    ensures
        line_len(s) >= k,
        k == s.len() || line_break(s[k]) ==> line_len(s) == k,
        line_len(s) <= s.len(),
    decreases k,
{
    if k > 0 {
        assert(!line_break(s[0]));
        assert forall|i: int| 0 <= i < k - 1 implies !line_break(
            #[trigger] s.drop_first()[i],
        ) by {
            assert(s.drop_first()[i] == s[i + 1]);
        }
        lemma_line_len(s.drop_first(), k - 1);
    } else {
        lemma_line_len_bound(s);
    }
}

/// The first line is no longer than the text.
pub proof fn lemma_line_len_bound(s: Seq<char>)
    ensures
        line_len(s) <= s.len(),
    decreases s.len(),
{
    if s.len() > 0 {
        lemma_line_len_bound(s.drop_first());
    }
}

/// The first whitespace of `s` is where no whitespace comes before.
pub proof fn lemma_word_len(s: Seq<char>, k: int)
    requires
        0 <= k <= s.len(),
        forall|i: int| 0 <= i < k ==> !whitespace(#[trigger] s[i]),
    ensures
        word_len(s) >= k,
        k == s.len() || whitespace(s[k]) ==> word_len(s) == k,
        word_len(s) <= s.len(),
    decreases k,
{
    if k > 0 {
        assert(!whitespace(s[0]));
        assert forall|i: int| 0 <= i < k - 1 implies !whitespace(
            #[trigger] s.drop_first()[i],
        ) by {
            assert(s.drop_first()[i] == s[i + 1]);
        }
        lemma_word_len(s.drop_first(), k - 1);
    } else {
        lemma_word_len_bound(s);
    }
}

/// The first word is no longer than the text.
pub proof fn lemma_word_len_bound(s: Seq<char>)
    ensures
        word_len(s) <= s.len(),
    decreases s.len(),
{
    if s.len() > 0 {
        lemma_word_len_bound(s.drop_first());
    }
}

/// Trimming the start removes the whitespace before the first character
/// that is none.
pub proof fn lemma_trim_start(s: Seq<char>, k: int)
    requires
        0 <= k <= s.len(),
        forall|i: int| 0 <= i < k ==> whitespace(#[trigger] s[i]),
        k == s.len() || !whitespace(s[k]),
    ensures
        spec_trim_start(s) == s.skip(k),
    decreases k,
{
    if k > 0 {
        assert(whitespace(s[0]));
        assert forall|i: int| 0 <= i < k - 1 implies whitespace(#[trigger] s.drop_first()[i]) by {
            assert(s.drop_first()[i] == s[i + 1]);
        }
        lemma_trim_start(s.drop_first(), k - 1);
        assert(s.drop_first().skip(k - 1) =~= s.skip(k));
    } else {
        assert(s.skip(0) =~= s);
    }
}

/// Trimming the end removes the whitespace behind the last character that
/// is none.
pub proof fn lemma_trim_end(s: Seq<char>, k: int)
    requires
        0 <= k <= s.len(),
        forall|i: int| k <= i < s.len() ==> whitespace(#[trigger] s[i]),
        k == 0 || !whitespace(s[k - 1]),
    ensures
        spec_trim_end(s) == s.take(k),
    decreases s.len() - k,
{
    if k < s.len() {
        assert(whitespace(s[s.len() - 1]));
        lemma_trim_end(s.drop_last(), k);
        assert(s.drop_last().take(k) =~= s.take(k));
    } else {
        assert(s.take(k) =~= s);
    }
}

/// What is left of a trimmed text neither begins nor ends with whitespace
/// that the trimming was to remove, and is part of the text.
pub proof fn lemma_trimmed(s: Seq<char>)
    ensures
        spec_trim_start(s).len() <= s.len(),
        spec_trim_end(s).len() <= s.len(),
        spec_trim_start(s) == s.skip(s.len() - spec_trim_start(s).len()),
        spec_trim_end(s) == s.take(spec_trim_end(s).len() as int),
        spec_trim_start(s).len() > 0 ==> !whitespace(spec_trim_start(s)[0]),
        spec_trim_end(s).len() > 0 ==> !whitespace(spec_trim_end(s).last()),
    decreases s.len(),
{
    if s.len() > 0 {
        lemma_trimmed(s.drop_first());
        lemma_trimmed(s.drop_last());
        if whitespace(s[0]) {
            let r = spec_trim_start(s.drop_first());
            assert(s.drop_first().skip(s.drop_first().len() - r.len()) =~= s.skip(
                s.len() - r.len(),
            ));
        } else {
            assert(s.skip(0) =~= s);
        }
        if whitespace(s.last()) {
            let r = spec_trim_end(s.drop_last());
            assert(s.drop_last().take(r.len() as int) =~= s.take(r.len() as int));
        } else {
            assert(s.take(s.len() as int) =~= s);
        }
    } else {
        assert(s.skip(0) =~= s);
        assert(s.take(0) =~= s);
    }
}

} // verus!
