use source_span::{Cursor, Source, Span};

#[test]
fn tab_after_newline_sets_indent() {
    let text = "if x:\n\tfoo()\r\n";
    let src = Source::new("test", text, 4);
    let mut cursor = Cursor::new(src);
    cursor.skip_len("if x:\n\t".len());
    assert_eq!(cursor.line(), 1);
    assert_eq!(cursor.column(), 4);
    assert_eq!(cursor.indent(), 4);
    assert_eq!(cursor.read(), Some('f'));
    assert_eq!(cursor.read(), Some('o'));
    assert_eq!(cursor.read(), Some('o'));
    assert_eq!(cursor.indent(), 4);
    assert_eq!(cursor.column(), 7);
    assert_eq!(cursor.line(), 1);
}

#[test]
fn display_text_trims_and_cuts_at_newline() {
    let text = "   trim me   \nignored";
    let src = Source::new("test", text, 4);
    let span = Cursor::new(src).span_with_len(text.len());
    let shown = span.display_text();
    assert_eq!(shown.as_deref(), Some("…trim me…"));
}

#[test]
fn up_to_same_start_is_zero_length() {
    let src = Source::new("test", "hello world", 4);
    let mut cursor = Cursor::new(src);
    cursor.skip_len(6);
    let a = cursor.span_with_len(5);
    let b = cursor.span_with_len(2);
    let r = a.up_to(b);
    assert_eq!(r.pos(), 6);
    assert_eq!(r.end(), 6);
    assert_eq!(r.len(), 0);
    assert!(!r.is_empty());
    assert!(Span::empty().is_empty());
}
