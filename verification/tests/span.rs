use source_span::{Cursor, HasSpan, Source, Span};
use std::cmp::Ordering;
use std::collections::HashSet;

fn span_at<'a>(src: Source<'a>, start: usize, len: usize) -> Span<'a> {
    let mut cursor = Cursor::new(src);
    cursor.skip_len(start);
    cursor.span_with_len(len)
}

struct Token<'a> {
    span: Span<'a>,
}

impl<'a> HasSpan<'a> for Token<'a> {
    fn span(&self) -> Span<'a> {
        self.span
    }
}

#[test]
fn empty_span_is_zero_over_empty_source() {
    let empty = Span::empty();
    assert!(empty.is_empty());
    assert_eq!(empty.pos(), 0);
    assert_eq!(empty.end(), 0);
    assert_eq!(empty.len(), 0);
    assert_eq!(empty.indent(), 0);
    assert!(empty.src() == Source::empty());
    assert!(empty.src().is_empty());
    assert_eq!(empty.text(), "");
    assert!(Span::default() == Span::empty());
    assert!(Span::default().is_empty());
}

#[test]
fn zero_length_span_elsewhere_is_not_empty() {
    let src = Source::new("t", "abc", 4);
    assert!(!span_at(src, 0, 0).is_empty());
    assert!(!span_at(src, 2, 0).is_empty());
    let unnamed = Source::new("", "abc", 4);
    assert!(!span_at(unnamed, 0, 0).is_empty());
    let named = Source::new("t", "", 4);
    assert!(!span_at(named, 0, 0).is_empty());
    let other_tab = Source::new("", "", 8);
    assert!(!span_at(other_tab, 0, 0).is_empty());
}

#[test]
fn span_at_start_of_indented_empty_line_is_not_empty() {
    let src = Source::new("", " ", 4);
    let mut cursor = Cursor::new(src);
    cursor.read();
    let span = cursor.span_with_len(0);
    assert_eq!(span.indent(), 1);
    assert!(!span.is_empty());
}

#[test]
fn merge_covers_both_spans() {
    let src = Source::new("t", "let x = 10;", 4);
    let a = span_at(src, 0, 3);
    let b = span_at(src, 8, 2);
    let m = Span::merge(a, b);
    assert_eq!((m.pos(), m.end()), (0, 10));
    assert_eq!(m.text(), "let x = 10");
    assert!(m.src() == src);
    let inner = span_at(src, 4, 1);
    let outer = span_at(src, 0, 11);
    let m = Span::merge(inner, outer);
    assert_eq!((m.pos(), m.end()), (0, 11));
    let m = Span::merge(outer, inner);
    assert_eq!((m.pos(), m.end()), (0, 11));
    let overlapping = Span::merge(span_at(src, 2, 4), span_at(src, 4, 5));
    assert_eq!((overlapping.pos(), overlapping.end()), (2, 9));
}

#[test]
fn merge_is_commutative() {
    let src = Source::new("t", "  one two\n    three", 4);
    let spans = [
        span_at(src, 2, 3),
        span_at(src, 6, 3),
        span_at(src, 14, 5),
        span_at(src, 0, 0),
        span_at(src, 3, 10),
        Span::empty(),
    ];
    for a in spans {
        for b in spans {
            if a.is_empty() || b.is_empty() || a.pos() != b.pos() || a.indent() == b.indent() {
                assert!(Span::merge(a, b) == Span::merge(b, a));
            }
            assert_eq!(Span::merge(a, b).cmp(&Span::merge(b, a)), Ordering::Equal);
            assert!(a.merged(b) == Span::merge(a, b));
        }
    }
}

#[test]
fn merge_with_empty_returns_the_other() {
    let src = Source::new("t", "  abc", 4);
    let x = span_at(src, 2, 3);
    assert!(Span::merge(Span::empty(), x) == x);
    assert!(Span::merge(x, Span::empty()) == x);
    assert!(Span::merge(Span::empty(), Span::empty()) == Span::empty());
    assert!(x.merged(Span::empty()) == x);
    assert!(Span::empty().merged(x) == x);
    let zero = span_at(src, 0, 0);
    let m = Span::merge(zero, x);
    assert_eq!((m.pos(), m.end(), m.indent()), (0, 5, 0));
}

#[test]
fn merge_takes_indent_of_the_earlier_span() {
    let src = Source::new("t", "a\n    b", 4);
    let a = span_at(src, 0, 1);
    let b = span_at(src, 6, 1);
    assert_eq!(a.indent(), 0);
    assert_eq!(b.indent(), 4);
    assert_eq!(Span::merge(a, b).indent(), 0);
    assert_eq!(Span::merge(b, a).indent(), 0);
    let c = span_at(src, 2, 5);
    assert_eq!(c.indent(), 0);
    assert_eq!(Span::merge(b, c).indent(), 0);
    let src = Source::new("t", "    b c", 4);
    let b = span_at(src, 4, 1);
    let c = span_at(src, 6, 1);
    assert_eq!(Span::merge(c, b).indent(), 4);
}

#[test]
fn merge_of_equal_starts_keeps_the_first_indent() {
    let src = Source::new("t", "  ab", 4);
    let mut cursor = Cursor::new(src);
    cursor.read();
    let early = cursor.span_with_len(3);
    let late = span_at(src, 1, 1).up_to(span_at(src, 3, 0));
    assert_eq!(early.indent(), 1);
    assert_eq!(late.indent(), 1);
    let src = Source::new("t", "\n  ab", 4);
    let first = span_at(src, 0, 1).to_end();
    let second = span_at(src, 1, 2);
    assert_eq!((first.pos(), first.indent()), (1, 0));
    let tail = span_at(src, 3, 2).up_to(span_at(src, 5, 0));
    assert_eq!(tail.indent(), 2);
    let a = first;
    let b = second.truncated(1);
    assert_eq!(a.pos(), b.pos());
    let wide = Span::merge(span_at(src, 3, 0), span_at(src, 3, 2));
    assert_eq!(wide.indent(), 2);
    let ab = Span::merge(a, b);
    let ba = Span::merge(b, a);
    assert_eq!(ab.indent(), a.indent());
    assert_eq!(ba.indent(), b.indent());
    assert_eq!((ab.pos(), ab.end()), (ba.pos(), ba.end()));
}

#[test]
fn merge_does_not_commute_when_equal_starts_differ_in_indent() {
    let src = Source::new("t", "a\n    b", 4);
    let before = span_at(src, 0, 1).to_end();
    let mut cursor = Cursor::new(src);
    cursor.skip_len(6);
    let indented = cursor.span_with_len(1);
    let moved = indented.up_to(indented).truncated(0);
    assert_eq!(moved.indent(), 4);
    let a = before.up_to(Span::merge(before, indented)).truncated(0);
    assert_eq!((a.pos(), a.indent()), (1, 0));
    let src2 = Source::new("t", " x", 4);
    let zero = span_at(src2, 0, 2);
    let mut cursor = Cursor::new(src2);
    cursor.read();
    let one = cursor.span_with_len(1);
    let late = one.to_end();
    assert_eq!((late.pos(), late.indent()), (2, 1));
    let early = zero.to_end();
    assert_eq!((early.pos(), early.indent()), (2, 0));
    assert_eq!(Span::merge(early, late).indent(), 0);
    assert_eq!(Span::merge(late, early).indent(), 1);
    assert!(Span::merge(early, late) != Span::merge(late, early));
    assert_eq!(Span::merge(early, late).cmp(&Span::merge(late, early)), Ordering::Equal);
}

#[test]
fn range_of_nothing_is_empty() {
    let none: [Span; 0] = [];
    assert!(Span::range(&none).is_empty());
    let tokens: Vec<Token> = Vec::new();
    assert!(Span::range(&tokens) == Span::empty());
}

#[test]
fn range_of_one_is_its_span() {
    let src = Source::new("t", "  abc def", 4);
    let x = span_at(src, 2, 3);
    assert!(Span::range(&[x]) == x);
    assert!(Span::range(&[Token { span: x }]) == x);
}

#[test]
fn range_of_many_merges_first_and_last() {
    let src = Source::new("t", "a bb ccc dddd", 4);
    let a = span_at(src, 0, 1);
    let b = span_at(src, 2, 2);
    let c = span_at(src, 5, 3);
    let d = span_at(src, 9, 4);
    assert!(Span::range(&[a, d]) == Span::merge(a, d));
    assert!(Span::range(&[a, b, c, d]) == Span::merge(a, d));
    assert!(Span::range(&[a, d, c, b]) == Span::merge(a, b));
    assert_eq!(Span::range(&[a, d, c, b]).end(), 4);
    assert!(Span::range(&[b, a, d, c]) == Span::merge(b, c));
    assert!(Span::range(&[Span::empty(), b, c]) == c);
    assert!(Span::range(&[b, c, Span::empty()]) == b);
    let tokens = vec![Token { span: b }, Token { span: a }, Token { span: c }];
    let r = Span::range(&tokens);
    assert_eq!((r.pos(), r.end()), (2, 8));
    assert_eq!(r.text(), "bb ccc");
}

#[test]
fn span_is_its_own_span() {
    let src = Source::new("t", "abc", 4);
    let x = span_at(src, 1, 2);
    assert!(x.span() == x);
}

#[test]
fn up_to_runs_from_start_to_start() {
    let src = Source::new("t", "  foo  /* c */ bar", 4);
    let foo = span_at(src, 2, 3);
    let bar = span_at(src, 15, 3);
    let between = foo.up_to(bar);
    assert_eq!((between.pos(), between.end()), (2, 15));
    assert_eq!(between.indent(), foo.indent());
    assert_eq!(between.text(), "foo  /* c */ ");
    assert!(between.src() == src);
}

#[test]
fn up_to_itself_is_zero_length_at_start() {
    let src = Source::new("t", "abcdef", 4);
    let x = span_at(src, 2, 3);
    let r = x.up_to(x);
    assert_eq!((r.pos(), r.end(), r.len()), (2, 2, 0));
    assert_eq!(r.text(), "");
}

#[test]
fn to_end_is_zero_length_at_end() {
    let src = Source::new("t", "  abcdef", 4);
    let x = span_at(src, 2, 3);
    let e = x.to_end();
    assert_eq!((e.pos(), e.end(), e.len()), (5, 5, 0));
    assert_eq!(e.indent(), 2);
    assert!(e.src() == src);
    assert!(e.to_end() == e);
    assert!(!e.is_empty());
}

#[test]
fn truncated_by_full_length_is_identity() {
    let src = Source::new("t", "  héllo wörld", 4);
    for start in [0usize, 2, 3, 9] {
        for len in [0usize, 1, 5] {
            let s = span_at(src, start, len);
            assert!(s.truncated(s.len()) == s);
        }
    }
    assert!(Span::empty().truncated(0) == Span::empty());
}

#[test]
fn truncated_to_zero_is_zero_length_at_start() {
    let src = Source::new("t", "  hello", 4);
    let s = span_at(src, 2, 5);
    let t = s.truncated(0);
    assert_eq!((t.pos(), t.end(), t.len()), (2, 2, 0));
    assert_eq!(t.indent(), 2);
    assert!(t.src() == src);
}

#[test]
fn truncated_takes_a_prefix() {
    let src = Source::new("t", "hello world", 4);
    let s = span_at(src, 6, 5);
    let t = s.truncated(3);
    assert_eq!((t.pos(), t.end()), (6, 9));
    assert_eq!(t.text(), "wor");
}

#[test]
fn text_is_the_slice_of_the_source() {
    let text = "añb🦀c\nd";
    let src = Source::new("t", text, 4);
    for (start, _) in text.char_indices() {
        for (end, _) in text.char_indices().chain([(text.len(), ' ')]) {
            if start <= end {
                assert_eq!(span_at(src, start, end - start).text(), &text[start..end]);
            }
        }
    }
}

#[test]
fn location_scans_from_the_beginning() {
    let text = "ab\n\tcd\r\nef";
    let src = Source::new("t", text, 4);
    let loc = span_at(src, 5, 1).location();
    assert_eq!(loc.offset(), 5);
    assert_eq!((loc.line(), loc.column(), loc.indent()), (1, 5, 4));
    let loc = span_at(src, 8, 2).location();
    assert_eq!((loc.line(), loc.column(), loc.indent()), (2, 0, 0));
    let loc = span_at(src, 0, 0).location();
    assert!(loc == Cursor::new(src));
    let loc = Span::empty().location();
    assert!(loc == Cursor::new(Source::empty()));
    let mut cursor = Cursor::new(src);
    cursor.skip_len(7);
    assert!(cursor.span_with_len(1).location() == cursor);
}

#[test]
fn display_text_of_plain_text_is_the_text() {
    let src = Source::new("t", "hello", 4);
    assert_eq!(span_at(src, 0, 5).display_text().as_deref(), Some("hello"));
    let src = Source::new("t", "a b  c", 4);
    assert_eq!(span_at(src, 0, 6).display_text().as_deref(), Some("a b  c"));
    let shown = span_at(src, 0, 6).display_text();
    assert!(matches!(shown, Some(std::borrow::Cow::Borrowed("a b  c"))));
}

#[test]
fn display_text_of_nothing_visible_is_none() {
    let src = Source::new("t", "", 4);
    assert_eq!(span_at(src, 0, 0).display_text(), None);
    let src = Source::new("t", "   \t ", 4);
    assert_eq!(span_at(src, 0, 5).display_text(), None);
    let src = Source::new("t", "\nabc", 4);
    assert_eq!(span_at(src, 0, 4).display_text(), None);
    let src = Source::new("t", "  \r\nabc", 4);
    assert_eq!(span_at(src, 0, 7).display_text(), None);
    assert_eq!(Span::empty().display_text(), None);
}

#[test]
fn display_text_marks_what_was_cut() {
    let src = Source::new("t", "abc\ndef", 4);
    assert_eq!(span_at(src, 0, 7).display_text().as_deref(), Some("abc…"));
    assert_eq!(span_at(src, 0, 4).display_text().as_deref(), Some("abc…"));
    assert_eq!(span_at(src, 0, 3).display_text().as_deref(), Some("abc"));
    let src = Source::new("t", "abc\rdef", 4);
    assert_eq!(span_at(src, 0, 7).display_text().as_deref(), Some("abc…"));
    let src = Source::new("t", "abc  ", 4);
    assert_eq!(span_at(src, 0, 5).display_text().as_deref(), Some("abc…"));
    let src = Source::new("t", "  abc", 4);
    assert_eq!(span_at(src, 0, 5).display_text().as_deref(), Some("…abc"));
    let src = Source::new("t", "\t abc \t", 4);
    assert_eq!(span_at(src, 0, 7).display_text().as_deref(), Some("…abc…"));
    let src = Source::new("t", "\u{3000}abc\u{a0}", 4);
    assert_eq!(span_at(src, 0, 8).display_text().as_deref(), Some("…abc…"));
}

#[test]
fn display_text_of_long_text_is_thirty_characters_and_ellipsis() {
    let text = "abcdefghijklmnopqrstuvwxyz0123456789";
    let src = Source::new("t", text, 4);
    let shown = span_at(src, 0, text.len()).display_text().unwrap();
    assert_eq!(shown, "abcdefghijklmnopqrstuvwxyz0123…");
    assert_eq!(shown.chars().count(), 31);
    assert!(shown.ends_with('…'));
    let shown = span_at(src, 0, 31).display_text().unwrap();
    assert_eq!(shown, "abcdefghijklmnopqrstuvwxyz0123…");
    let shown = span_at(src, 0, 30).display_text().unwrap();
    assert_eq!(shown, "abcdefghijklmnopqrstuvwxyz0123");
    let text = "ä".repeat(40);
    let src = Source::new("t", &text, 4);
    let shown = span_at(src, 0, text.len()).display_text().unwrap();
    assert_eq!(shown.chars().count(), 31);
    assert_eq!(shown, format!("{}…", "ä".repeat(30)));
    let text = "ä".repeat(30);
    let src = Source::new("t", &text, 4);
    let shown = span_at(src, 0, text.len()).display_text().unwrap();
    assert_eq!(shown, text);
}

#[test]
fn display_text_of_long_text_after_whitespace_has_both_ellipses() {
    let text = format!("  {}", "x".repeat(31));
    let src = Source::new("t", &text, 4);
    let shown = span_at(src, 0, text.len()).display_text().unwrap();
    assert_eq!(shown, format!("…{}…", "x".repeat(30)));
    assert_eq!(shown.chars().count(), 32);
}

#[test]
fn display_text_counts_thirty_after_trimming() {
    let text = format!("{}    ", "x".repeat(30));
    let src = Source::new("t", &text, 4);
    let shown = span_at(src, 0, text.len()).display_text().unwrap();
    assert_eq!(shown, format!("{}…", "x".repeat(30)));
    let text = format!("{} {}", "x".repeat(29), "y".repeat(5));
    let src = Source::new("t", &text, 4);
    let shown = span_at(src, 0, text.len()).display_text().unwrap();
    assert_eq!(shown, format!("{} …", "x".repeat(29)));
    assert_eq!(shown.chars().count(), 31);
}

#[test]
fn display_text_of_a_part_of_the_source() {
    let src = Source::new("t", "let  value = 1;\nnext", 4);
    assert_eq!(span_at(src, 3, 7).display_text().as_deref(), Some("…value"));
    assert_eq!(span_at(src, 5, 6).display_text().as_deref(), Some("value…"));
    assert_eq!(span_at(src, 5, 15).display_text().as_deref(), Some("value = 1;…"));
}

#[test]
fn spans_order_by_source_start_end() {
    let a = Source::new("a", "0123456789", 4);
    let b = Source::new("b", "0123456789", 4);
    assert_eq!(span_at(a, 1, 2).cmp(&span_at(a, 1, 2)), Ordering::Equal);
    assert_eq!(span_at(a, 1, 2).cmp(&span_at(a, 2, 0)), Ordering::Less);
    assert_eq!(span_at(a, 2, 0).cmp(&span_at(a, 1, 5)), Ordering::Greater);
    assert_eq!(span_at(a, 1, 2).cmp(&span_at(a, 1, 3)), Ordering::Less);
    assert_eq!(span_at(a, 1, 3).cmp(&span_at(a, 1, 2)), Ordering::Greater);
    assert_eq!(span_at(a, 9, 1).cmp(&span_at(b, 0, 0)), Ordering::Less);
    assert_eq!(span_at(b, 0, 0).cmp(&span_at(a, 9, 1)), Ordering::Greater);
    assert!(span_at(a, 1, 2) < span_at(a, 1, 3));
    assert!(span_at(a, 1, 2) <= span_at(a, 1, 2));
    assert!(span_at(b, 0, 0) > span_at(a, 9, 1));
    assert_eq!(span_at(a, 1, 2).partial_cmp(&span_at(a, 3, 1)), Some(Ordering::Less));
    assert_eq!(Span::empty().cmp(&span_at(a, 0, 0)), Ordering::Less);
}

#[test]
fn span_order_ignores_indent_and_equality_does_not() {
    let src = Source::new("t", " x", 4);
    let plain = span_at(src, 0, 2).to_end();
    let mut cursor = Cursor::new(src);
    cursor.read();
    let indented = cursor.span_with_len(1).to_end();
    assert_eq!((plain.pos(), plain.end()), (indented.pos(), indented.end()));
    assert_eq!(plain.indent(), 0);
    assert_eq!(indented.indent(), 1);
    assert!(plain != indented);
    assert_eq!(plain.cmp(&indented), Ordering::Equal);
    assert_eq!(plain.partial_cmp(&indented), Some(Ordering::Equal));
    assert!(plain <= indented && plain >= indented);
}

#[test]
fn spans_are_equal_when_all_four_parts_are() {
    let src = Source::new("t", "abcdef", 4);
    let same = Source::new("t", "abcdef", 4);
    assert!(span_at(src, 1, 2) == span_at(same, 1, 2));
    assert!(span_at(src, 1, 2) != span_at(src, 1, 3));
    assert!(span_at(src, 1, 2) != span_at(src, 0, 3));
    let other = Source::new("u", "abcdef", 4);
    assert!(span_at(src, 1, 2) != span_at(other, 1, 2));
    let other = Source::new("t", "abcdef", 8);
    assert!(span_at(src, 1, 2) != span_at(other, 1, 2));
    let other = Source::new("t", "abcdeg", 4);
    assert!(span_at(src, 1, 2) != span_at(other, 1, 2));
}

#[test]
fn equal_spans_hash_alike() {
    let src = Source::new("t", "abcdef", 4);
    let text = String::from("abcdef");
    let same = Source::new("t", &text, 4);
    let mut set = HashSet::new();
    set.insert(span_at(src, 1, 2));
    assert!(set.contains(&span_at(same, 1, 2)));
    assert!(!set.contains(&span_at(src, 1, 3)));
}

#[test]
fn span_is_shown_by_line_and_column_from_one() {
    let src = Source::new("main.x", "ab\n\tcd\r\nef", 4);
    assert_eq!(span_at(src, 0, 2).to_string(), "1:1+2");
    assert_eq!(span_at(src, 0, 0).to_string(), "1:1");
    assert_eq!(span_at(src, 4, 2).to_string(), "2:5+2");
    assert_eq!(span_at(src, 8, 0).to_string(), "3:1");
    assert_eq!(span_at(src, 1, 9).to_string(), "1:2+9");
    assert_eq!(Span::empty().to_string(), "1:1");
    let long = format!("{}{}", "\n".repeat(99), "x".repeat(1234));
    let src = Source::new("t", &long, 4);
    assert_eq!(span_at(src, 99 + 41, 1000).to_string(), "100:42+1000");
}

#[test]
fn span_is_shown_raw_by_source_and_offset() {
    let src = Source::new("main.x", "ab\n\tcd\r\nef", 4);
    assert_eq!(span_at(src, 0, 2).to_debug_string(), "main.x:0+2");
    assert_eq!(span_at(src, 4, 0).to_debug_string(), "main.x:4");
    assert_eq!(span_at(src, 4, 6).to_debug_string(), "main.x:4+6");
    assert_eq!(Span::empty().to_debug_string(), ":0");
}

#[test]
fn span_is_aligned_when_its_ends_lie_between_characters() {
    let src = Source::new("t", "aé🦀", 4);
    assert!(span_at(src, 0, 1).is_aligned());
    assert!(span_at(src, 1, 2).is_aligned());
    assert!(span_at(src, 0, 7).is_aligned());
    assert!(span_at(src, 3, 0).is_aligned());
    assert!(!span_at(src, 1, 1).is_aligned());
    assert!(!span_at(src, 0, 7).truncated(5).is_aligned());
    assert!(!span_at(src, 0, 7).truncated(2).to_end().is_aligned());
    assert!(Span::empty().is_aligned());
}
