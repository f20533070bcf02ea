//! The character classes that scanning and display go by.
use vstd::prelude::*;

verus! {

/// The characters that Unicode gives the property `White_Space`.
pub open spec fn whitespace(c: char) -> bool {
    ||| '\u{9}' <= c <= '\u{D}'
    ||| c == ' '
    ||| c == '\u{85}'
    ||| c == '\u{A0}'
    ||| c == '\u{1680}'
    ||| '\u{2000}' <= c <= '\u{200A}'
    ||| c == '\u{2028}'
    ||| c == '\u{2029}'
    ||| c == '\u{202F}'
    ||| c == '\u{205F}'
    ||| c == '\u{3000}'
}

/// Carriage return and line feed: the characters that end a line.
pub open spec fn line_break(c: char) -> bool {
    c == '\r' || c == '\n'
}

/// Whitespace that stays within a line: any whitespace but a line break.
pub open spec fn space(c: char) -> bool {
    whitespace(c) && !line_break(c)
}

/// Whether `c` is whitespace.
pub fn is_whitespace(c: char) -> (r: bool)
    ensures
        r == whitespace(c),
{
    ('\u{9}' <= c && c <= '\u{D}') || c == ' ' || c == '\u{85}' || c == '\u{A0}' || c
        == '\u{1680}' || ('\u{2000}' <= c && c <= '\u{200A}') || c == '\u{2028}' || c
        == '\u{2029}' || c == '\u{202F}' || c == '\u{205F}' || c == '\u{3000}'
}

/// Whether `c` ends a line.
pub fn is_line_break(c: char) -> (r: bool)
    ensures
        r == line_break(c),
{
    c == '\r' || c == '\n'
}

/// Whether `c` is whitespace within a line.
pub fn is_space(c: char) -> (r: bool)
    ensures
        r == space(c),
{
    is_whitespace(c) && !is_line_break(c)
}

} // verus!
