//! UTF-8 text addressed by byte offsets.
//!
//! A text is modelled by its sequence of characters. Positions in it are byte
//! offsets into its UTF-8 encoding, as `str` has them. The functions and lemmas
//! here relate the two: which offsets fall between characters, and which
//! characters a range of bytes holds.
use vstd::prelude::*;
use vstd::string::*;
use vstd::utf8::*;

verus! {

/// Number of bytes that `c` takes in UTF-8.
pub open spec fn width(c: char) -> nat {
    encode_scalar(c as u32).len()
}

/// Number of bytes that `t` takes in UTF-8.
pub open spec fn byte_len(t: Seq<char>) -> nat {
    encode_utf8(t).len()
}

/// Whether byte offset `i` of `t` lies between two characters, or at either end.
pub open spec fn is_boundary(t: Seq<char>, i: int) -> bool {
    is_char_boundary(encode_utf8(t), i)
}

/// The characters held by the bytes `[from, to)` of `t`.
pub open spec fn slice(t: Seq<char>, from: int, to: int) -> Seq<char> {
    decode_utf8(encode_utf8(t).subrange(from, to))
}

/// The byte offset at which character number `k` of `t` begins.
pub open spec fn offset_of(t: Seq<char>, k: int) -> nat {
    byte_len(t.take(k))
}

/// The number of characters of `t` that lie before byte offset `i`.
pub open spec fn index_of(t: Seq<char>, i: int) -> nat {
    slice(t, 0, i).len()
}

/// Whether `a` comes before `b` in the order of `str`: byte by byte, a proper
/// prefix before what it is a prefix of.
pub open spec fn lex_less(a: Seq<u8>, b: Seq<u8>) -> bool
    decreases a.len(),
{
    if b.len() == 0 {
        false
    } else if a.len() == 0 {
        true
    } else if a[0] != b[0] {
        a[0] < b[0]
    } else {
        lex_less(a.drop_first(), b.drop_first())
    }
}

/// Whether the text `a` comes before the text `b` in the order of `str`.
pub open spec fn text_less(a: Seq<char>, b: Seq<char>) -> bool {
    lex_less(encode_utf8(a), encode_utf8(b))
}

/// Computes the number of bytes that `c` takes in UTF-8.
pub fn char_width(c: char) -> (w: usize)
    ensures
        w == width(c),
        1 <= w <= 4,
{
    let v: u32 = c as u32;
    if v <= 0x7F {
        1
    } else if v <= 0x7FF {
        2
    } else if v <= 0xFFFF {
        3
    } else {
        4
    }
}

/// The number of bytes of `s`.
pub fn text_len(s: &str) -> (n: usize)
    ensures
        n == byte_len(s@),
{
    broadcast use vstd::slice::axiom_spec_len;

    s.as_bytes().len()
}

/// The first character of `s`, if it has one.
pub fn first_char(s: &str) -> (r: Option<char>)
    ensures
        r == (if s@.len() == 0 {
            None
        } else {
            Some(s@[0])
        }),
{
    broadcast use group_string_axioms;

    let mut rest = s.chars();
    rest.next()
}

/// The part of `s` that lies between two boundaries.
pub fn substr<'a>(s: &'a str, from: usize, to: usize) -> (r: &'a str)
    requires
        is_boundary(s@, from as int),
        is_boundary(s@, to as int),
        from <= to,
    ensures
        r@ == slice(s@, from as int, to as int),
{
    let (head, _) = s.split_at(to);
    proof {
        let j = index_of(s@, from as int) as int;
        let k = index_of(s@, to as int) as int;
        lemma_slice(s@, from as int, to as int);
        lemma_boundary_index(s@, from as int);
        lemma_boundary_index(s@, to as int);
        lemma_offset_of(s@, k);
        lemma_encode_injective(head@, s@.take(k));
        assert(head@.take(j) =~= s@.take(j));
        lemma_offset_of(head@, j);
        assert(head@.skip(j) =~= s@.subrange(j, k));
    }
    let (_, r) = head.split_at(from);
    proof {
        encode_utf8_decode_utf8(r@);
    }
    r
}

/// The character that begins at byte offset `at` of `s`, and what holds of
/// the offset behind it.
pub fn char_at(s: &str, at: usize) -> (c: char)
    requires
        is_boundary(s@, at as int),
        at < byte_len(s@),
    ensures
        index_of(s@, at as int) < s@.len(),
        c == s@[index_of(s@, at as int) as int],
        at + width(c) <= byte_len(s@),
        is_boundary(s@, at + width(c)),
        index_of(s@, at + width(c)) == index_of(s@, at as int) + 1,
{
    proof {
        lemma_char_at(s@, at as int);
        lemma_boundary_index(s@, byte_len(s@) as int);
    }
    let rest = substr(s, at, text_len(s));
    first_char(rest).unwrap()
}

/// The number of bytes that `x` and `y` begin with in common.
fn common_prefix(x: &[u8], y: &[u8]) -> (n: usize)
    ensures
        n <= x@.len(),
        n <= y@.len(),
        x@.take(n as int) == y@.take(n as int),
        n < x@.len() && n < y@.len() ==> x@[n as int] != y@[n as int],
{
    let mut n: usize = 0;
    while n < x.len() && n < y.len() && x[n] == y[n]
        invariant
            n <= x@.len(),
            n <= y@.len(),
            x@.take(n as int) =~= y@.take(n as int),
        decreases x@.len() - n,
    {
        assert(x@.take(n + 1) =~= x@.take(n as int).push(x@[n as int]));
        assert(y@.take(n + 1) =~= y@.take(n as int).push(y@[n as int]));
        n += 1;
    }
    n
}

/// Whether `a` and `b` hold the same text.
pub fn same_text(a: &str, b: &str) -> (r: bool)
    ensures
        r == (a@ == b@),
{
    let x = a.as_bytes();
    let y = b.as_bytes();
    let n = common_prefix(x, y);
    proof {
        if n == x@.len() && n == y@.len() {
            assert(x@.take(n as int) =~= x@);
            assert(y@.take(n as int) =~= y@);
            lemma_encode_injective(a@, b@);
        }
    }
    n == x.len() && n == y.len()
}

/// Whether `a` comes before `b` in the order of `str`.
pub fn text_precedes(a: &str, b: &str) -> (r: bool)
    ensures
        r == text_less(a@, b@),
{
    let x = a.as_bytes();
    let y = b.as_bytes();
    let n = common_prefix(x, y);
    proof {
        lemma_lex_less_skip(x@, y@, n as int);
        if n < y@.len() && n < x@.len() {
            assert(x@.skip(n as int)[0] == x@[n as int]);
            assert(y@.skip(n as int)[0] == y@[n as int]);
        }
    }
    if n == y.len() {
        false
    } else if n == x.len() {
        true
    } else {
        x[n] < y[n]
    }
}

/// Every character takes between one and four bytes.
pub proof fn lemma_width_bounds(c: char)
    ensures
        1 <= width(c) <= 4,
{
}

/// Encoding distributes over concatenation.
pub proof fn lemma_encode_concat(a: Seq<char>, b: Seq<char>)
    ensures
        encode_utf8(a + b) =~= encode_utf8(a) + encode_utf8(b),
        byte_len(a + b) == byte_len(a) + byte_len(b),
    decreases a.len(),
{
    if a.len() == 0 {
        assert(a + b =~= b);
    } else {
        assert((a + b).drop_first() =~= a.drop_first() + b);
        lemma_encode_concat(a.drop_first(), b);
    }
}

/// A text takes at least one byte per character.
pub proof fn lemma_byte_len_bounds(t: Seq<char>)
    ensures
        t.len() <= byte_len(t) <= 4 * t.len(),
    decreases t.len(),
{
    if t.len() > 0 {
        lemma_width_bounds(t[0]);
        lemma_byte_len_bounds(t.drop_first());
    }
}

/// Appending one character lengthens the encoding by that character's width.
pub proof fn lemma_byte_len_push(t: Seq<char>, c: char)
    ensures
        byte_len(t.push(c)) == byte_len(t) + width(c),
{
    let one = seq![c];
    assert(t.push(c) =~= t + one);
    lemma_encode_concat(t, one);
    assert(one.drop_first() =~= Seq::<char>::empty());
    reveal_with_fuel(encode_utf8, 2);
}

/// Texts with the same encoding are the same text.
pub proof fn lemma_encode_injective(a: Seq<char>, b: Seq<char>)
    requires
        encode_utf8(a) == encode_utf8(b),
    ensures
        a == b,
{
    encode_utf8_decode_utf8(a);
    encode_utf8_decode_utf8(b);
}

/// What holds of the byte offset at which character number `k` begins: it is
/// a boundary, the bytes before it hold the first `k` characters, and the
/// bytes from it on hold the others.
pub proof fn lemma_offset_of(t: Seq<char>, k: int)
    requires
        0 <= k <= t.len(),
    ensures
        offset_of(t, k) <= byte_len(t),
        is_boundary(t, offset_of(t, k) as int),
        encode_utf8(t).subrange(0, offset_of(t, k) as int) =~= encode_utf8(t.take(k)),
        encode_utf8(t).subrange(offset_of(t, k) as int, byte_len(t) as int) =~= encode_utf8(
            t.skip(k),
        ),
        slice(t, 0, offset_of(t, k) as int) == t.take(k),
        slice(t, offset_of(t, k) as int, byte_len(t) as int) == t.skip(k),
        index_of(t, offset_of(t, k) as int) == k,
{
    assert(t =~= t.take(k) + t.skip(k));
    lemma_encode_concat(t.take(k), t.skip(k));
    encode_utf8_decode_utf8(t.take(k));
    encode_utf8_decode_utf8(t.skip(k));
    lemma_offset_is_boundary(t, k);
    let at = offset_of(t, k) as int;
    assert(encode_utf8(t).subrange(0, at) =~= encode_utf8(t.take(k)));
    assert(encode_utf8(t).subrange(at, byte_len(t) as int) =~= encode_utf8(t.skip(k)));
}

proof fn lemma_offset_is_boundary(t: Seq<char>, k: int)
    requires
        0 <= k <= t.len(),
    ensures
        is_boundary(t, offset_of(t, k) as int),
    decreases k,
{
    let bytes = encode_utf8(t);
    encode_utf8_valid_utf8(t);
    if k > 0 {
        let rest = t.drop_first();
        assert(t =~= t.take(k) + t.skip(k));
        lemma_encode_concat(t.take(k), t.skip(k));
        assert(t.take(k).drop_first() =~= rest.take(k - 1));
        lemma_width_bounds(t[0]);
        encode_utf8_first_scalar(t);
        assert(pop_first_scalar(bytes) =~= encode_utf8(rest));
        lemma_offset_is_boundary(rest, k - 1);
        assert(offset_of(t, k) == width(t[0]) + offset_of(rest, k - 1));
    }
}

/// Both ends of a text are boundaries.
pub proof fn lemma_boundary_ends(t: Seq<char>)
    ensures
        is_boundary(t, 0),
        is_boundary(t, byte_len(t) as int),
        index_of(t, 0) == 0,
        index_of(t, byte_len(t) as int) == t.len(),
        slice(t, 0, byte_len(t) as int) == t,
{
    assert(t.take(0) =~= Seq::<char>::empty());
    assert(t.take(t.len() as int) =~= t);
    lemma_offset_of(t, 0);
    lemma_offset_of(t, t.len() as int);
}

/// A boundary parts the text into the characters before it and those from
/// it on.
pub proof fn lemma_split(t: Seq<char>, i: int)
    requires
        is_boundary(t, i),
    ensures
        0 <= i <= byte_len(t),
        index_of(t, i) <= t.len(),
        index_of(t, i) == t.len() <==> i == byte_len(t),
        index_of(t, i) == 0 <==> i == 0,
        slice(t, 0, i) == t.take(index_of(t, i) as int),
        slice(t, i, byte_len(t) as int) == t.skip(index_of(t, i) as int),
{
    let k = index_of(t, i) as int;
    lemma_boundary_index(t, i);
    lemma_offset_of(t, k);
    lemma_boundary_ends(t);
    if k < t.len() {
        lemma_offset_of_increases(t, k, t.len() as int);
    }
    if 0 < k {
        lemma_offset_of_increases(t, 0, k);
    }
}

/// Later characters begin at later offsets.
pub proof fn lemma_offset_of_increases(t: Seq<char>, j: int, k: int)
    requires
        0 <= j <= k <= t.len(),
    ensures
        offset_of(t, j) + (k - j) <= offset_of(t, k),
        offset_of(t, k) == offset_of(t, j) + byte_len(t.subrange(j, k)),
{
    assert(t.take(k) =~= t.take(j) + t.subrange(j, k));
    lemma_encode_concat(t.take(j), t.subrange(j, k));
    lemma_byte_len_bounds(t.subrange(j, k));
}

/// The next character begins where this one ends.
pub proof fn lemma_offset_of_next(t: Seq<char>, k: int)
    requires
        0 <= k < t.len(),
    ensures
        offset_of(t, k + 1) == offset_of(t, k) + width(t[k]),
{
    assert(t.take(k + 1) =~= t.take(k).push(t[k]));
    lemma_byte_len_push(t.take(k), t[k]);
}

/// Every boundary is the offset at which some character begins, or the end
/// of the text.
pub proof fn lemma_boundary_index(t: Seq<char>, i: int)
    requires
        is_boundary(t, i),
    ensures
        0 <= i <= byte_len(t),
        0 <= index_of(t, i) <= t.len(),
        offset_of(t, index_of(t, i) as int) == i,
{
    let bytes = encode_utf8(t);
    encode_utf8_valid_utf8(t);
    assert(0 <= i <= bytes.len());
    let head = bytes.subrange(0, i);
    let tail = bytes.subrange(i, bytes.len() as int);
    valid_utf8_split(bytes, i);
    decode_utf8_split(bytes, i);
    encode_utf8_decode_utf8(t);
    decode_utf8_encode_utf8(head);
    assert(t.take(decode_utf8(head).len() as int) =~= decode_utf8(head));
}

/// The characters between two boundaries, by their numbers.
pub proof fn lemma_slice(t: Seq<char>, from: int, to: int)
    requires
        is_boundary(t, from),
        is_boundary(t, to),
        from <= to,
    ensures
        index_of(t, from) <= index_of(t, to) <= t.len(),
        slice(t, from, to) == t.subrange(index_of(t, from) as int, index_of(t, to) as int),
        encode_utf8(slice(t, from, to)) == encode_utf8(t).subrange(from, to),
        byte_len(slice(t, from, to)) == to - from,
{
    let j = index_of(t, from) as int;
    let k = index_of(t, to) as int;
    lemma_boundary_index(t, from);
    lemma_boundary_index(t, to);
    if k < j {
        lemma_offset_of_increases(t, k, j);
    }
    lemma_offset_of(t, j);
    lemma_offset_of(t, k);
    let mid = t.subrange(j, k);
    assert(t.take(k) =~= t.take(j) + mid);
    lemma_encode_concat(t.take(j), mid);
    assert(encode_utf8(t).subrange(from, to) =~= encode_utf8(t).subrange(0, to).subrange(
        from,
        to,
    ));
    assert(encode_utf8(t).subrange(from, to) =~= encode_utf8(mid));
    encode_utf8_decode_utf8(mid);
}

/// What holds at a boundary that is not the end of the text: a character
/// begins there, and the next boundary lies behind that character.
pub proof fn lemma_char_at(t: Seq<char>, i: int)
    requires
        is_boundary(t, i),
        i < byte_len(t),
    ensures
        index_of(t, i) < t.len(),
        is_boundary(t, byte_len(t) as int),
        slice(t, i, byte_len(t) as int) == t.skip(index_of(t, i) as int),
        i + width(t[index_of(t, i) as int]) <= byte_len(t),
        is_boundary(t, i + width(t[index_of(t, i) as int])),
        index_of(t, i + width(t[index_of(t, i) as int])) == index_of(t, i) + 1,
        slice(t, 0, i + width(t[index_of(t, i) as int])) == slice(t, 0, i).push(
            t[index_of(t, i) as int],
        ),
{
    let k = index_of(t, i) as int;
    lemma_boundary_index(t, i);
    assert(t.take(t.len() as int) =~= t);
    lemma_offset_of(t, t.len() as int);
    lemma_offset_of(t, k);
    if k < t.len() {
        lemma_offset_of_next(t, k);
        lemma_offset_of(t, k + 1);
        assert(t.take(k + 1) =~= t.take(k).push(t[k]));
    }
}

/// A common prefix does not bear on the order.
pub proof fn lemma_lex_less_skip(a: Seq<u8>, b: Seq<u8>, n: int)
    requires
        0 <= n <= a.len(),
        n <= b.len(),
        a.take(n) == b.take(n),
    ensures
        lex_less(a, b) == lex_less(a.skip(n), b.skip(n)),
    decreases n,
{
    if n == 0 {
        assert(a.skip(0) =~= a);
        assert(b.skip(0) =~= b);
    } else {
        assert(a[0] == a.take(n)[0]);
        assert(b[0] == b.take(n)[0]);
        assert(a.drop_first().take(n - 1) =~= a.take(n).drop_first());
        assert(b.drop_first().take(n - 1) =~= b.take(n).drop_first());
        lemma_lex_less_skip(a.drop_first(), b.drop_first(), n - 1);
        assert(a.drop_first().skip(n - 1) =~= a.skip(n));
        assert(b.drop_first().skip(n - 1) =~= b.skip(n));
    }
}

/// No text comes before itself, and of two different texts one comes before
/// the other.
pub proof fn lemma_lex_less_total(a: Seq<u8>, b: Seq<u8>)
    ensures
        !lex_less(a, a),
        a != b ==> (lex_less(a, b) != lex_less(b, a)),
    decreases a.len(),
{
    if a.len() > 0 {
        lemma_lex_less_total(a.drop_first(), a.drop_first());
        if b.len() > 0 && a[0] == b[0] {
            lemma_lex_less_total(a.drop_first(), b.drop_first());
            if a.drop_first() == b.drop_first() {
                assert(a =~= seq![a[0]] + a.drop_first());
                assert(b =~= seq![b[0]] + b.drop_first());
            }
        }
    } else if b.len() == 0 {
        assert(a =~= b);
    }
}

/// The order of texts is transitive.
pub proof fn lemma_lex_less_transitive(a: Seq<u8>, b: Seq<u8>, c: Seq<u8>)
    requires
        lex_less(a, b),
        lex_less(b, c),
    ensures
        lex_less(a, c),
    decreases a.len(),
{
    if a.len() > 0 && a[0] == b[0] && b[0] == c[0] {
        lemma_lex_less_transitive(a.drop_first(), b.drop_first(), c.drop_first());
    }
}

} // verus!
