use texide::ast::{AstArena, NodeType, Span, TxtNode};
use texide::parser::Parser;
use texide::text_parser::PlainTextParser;

#[test]
fn test_parse_simple_text() {
    let mut arena = AstArena::new();
    let parser = PlainTextParser::new();
    let source = "Hello, world!";

    let ast = parser.parse(&mut arena, source).unwrap();

    assert_eq!(ast.node_type, NodeType::Document);
    assert_eq!(arena.children(&ast).len(), 1);
    assert_eq!(arena.children(&ast)[0].node_type, NodeType::Paragraph);
}

#[test]
fn test_parse_multiple_paragraphs() {
    let mut arena = AstArena::new();
    let parser = PlainTextParser::new();
    let source = "First paragraph.\n\nSecond paragraph.";

    let ast = parser.parse(&mut arena, source).unwrap();

    assert_eq!(ast.node_type, NodeType::Document);
    assert_eq!(arena.children(&ast).len(), 2);
}

#[test]
fn test_parse_empty_text() {
    let mut arena = AstArena::new();
    let parser = PlainTextParser::new();
    let source = "";

    let ast = parser.parse(&mut arena, source).unwrap();

    assert_eq!(ast.node_type, NodeType::Document);
    assert!(arena.children(&ast).is_empty());
}

#[test]
fn text_test_extensions() {
    let parser = PlainTextParser::new();

    assert!(parser.can_parse("txt"));
    assert!(parser.can_parse("text"));
    assert!(parser.can_parse("TXT"));
    assert!(!parser.can_parse("md"));
}

fn paragraphs(source: &str) -> Vec<(u32, u32, String)> {
    let mut arena = AstArena::new();
    let ast = PlainTextParser::new().parse(&mut arena, source).unwrap();
    assert_eq!(ast.node_type, NodeType::Document);
    assert_eq!(ast.span, Span::new(0, source.len() as u32));
    assert_eq!(ast.value, None);
    arena
        .children(&ast)
        .iter()
        .map(|p| {
            assert_eq!(p.node_type, NodeType::Paragraph);
            assert_eq!(p.value, None);
            assert_eq!(arena.children(p).len(), 1);
            let text = &arena.children(p)[0];
            assert_eq!(text.node_type, NodeType::Str);
            assert_eq!(text.span, p.span);
            assert!(arena.children(text).is_empty());
            let value = arena.text_of(text.value).unwrap().to_string();
            assert_eq!(&source[p.span.start as usize..p.span.end as usize], value);
            (p.span.start, p.span.end, value)
        })
        .collect()
}

#[test]
fn two_paragraphs_with_their_text_and_spans() {
    assert_eq!(
        paragraphs("First paragraph.\n\nSecond paragraph."),
        vec![
            (0, 16, "First paragraph.".to_string()),
            (18, 35, "Second paragraph.".to_string()),
        ]
    );
}

#[test]
fn trailing_text_without_newline_is_a_paragraph() {
    assert_eq!(paragraphs("one\n\ntwo"), vec![(0, 3, "one".to_string()), (5, 8, "two".to_string())]);
}

#[test]
fn trailing_newlines_are_not_text() {
    assert_eq!(paragraphs("one\n"), vec![(0, 3, "one".to_string())]);
    assert_eq!(paragraphs("one\n\n\n"), vec![(0, 3, "one".to_string())]);
}

#[test]
fn windows_line_endings() {
    assert_eq!(
        paragraphs("one\r\ntwo\r\n\r\nthree\r\n"),
        vec![(0, 8, "one\r\ntwo".to_string()), (12, 17, "three".to_string())]
    );
}

#[test]
fn lines_of_white_space_separate_paragraphs() {
    assert_eq!(
        paragraphs("a\n \t \nb"),
        vec![(0, 1, "a".to_string()), (6, 7, "b".to_string())]
    );
}

#[test]
fn several_blank_lines_make_one_break() {
    assert_eq!(
        paragraphs("a\n\n\n\nb"),
        vec![(0, 1, "a".to_string()), (5, 6, "b".to_string())]
    );
}

#[test]
fn paragraph_text_is_trimmed() {
    assert_eq!(paragraphs("  hello  \n  world  \n"), vec![(2, 17, "hello  \n  world".to_string())]);
}

#[test]
fn only_white_space_has_no_paragraph() {
    assert_eq!(paragraphs(" \n\t\n  "), vec![]);
    assert_eq!(paragraphs("\n"), vec![]);
}

#[test]
fn wide_white_space_is_blank() {
    let source = "a\n\u{3000}\u{00A0}\u{2003}\nb\u{2028}";
    assert_eq!(paragraphs(source), vec![(0, 1, "a".to_string()), (11, 12, "b".to_string())]);
}

#[test]
fn text_of_several_bytes_per_character() {
    let source = "héllo wörld\n\n日本語\u{3000}";
    assert_eq!(
        paragraphs(source),
        vec![(0, 13, "héllo wörld".to_string()), (15, 24, "日本語".to_string())]
    );
}

#[test]
fn characters_that_resemble_white_space_are_text() {
    // U+200B is no white space; U+0085 is.
    assert_eq!(paragraphs("\u{200B}"), vec![(0, 3, "\u{200B}".to_string())]);
    assert_eq!(paragraphs("\u{0085}"), vec![]);
}

fn check_spans(arena: &AstArena, node: &TxtNode, len: u32) {
    assert!(node.span.start <= node.span.end);
    assert!(node.span.end <= len);
    for child in arena.children(node) {
        check_spans(arena, child, len);
    }
}

#[test]
fn text_spans_lie_inside_the_source() {
    let source = "  one\r\n\r\n two \n\n\nthree";
    let mut arena = AstArena::new();
    let ast = PlainTextParser::new().parse(&mut arena, source).unwrap();
    check_spans(&arena, &ast, source.len() as u32);
}

#[test]
fn text_parse_is_repeatable() {
    let source = "a\n\nb c\n";
    assert_eq!(paragraphs(source), paragraphs(source));
    let mut arena = AstArena::new();
    let parser = PlainTextParser::new();
    let first = parser.parse(&mut arena, "other").unwrap();
    let second = parser.parse(&mut arena, source).unwrap();
    assert_eq!(arena.children(&first).len(), 1);
    assert_eq!(arena.children(&second).len(), 2);
    let texts: Vec<&str> = arena
        .children(&second)
        .iter()
        .map(|p| arena.text_of(arena.children(p)[0].value).unwrap())
        .collect();
    assert_eq!(texts, vec!["a", "b c"]);
    assert_eq!(arena.text_of(arena.children(&arena.children(&first)[0])[0].value), Some("other"));
}

#[test]
fn white_space_width() {
    assert_eq!(PlainTextParser::ws_width(b" x", 0), 1);
    assert_eq!(PlainTextParser::ws_width(b" x", 1), 0);
    assert_eq!(PlainTextParser::ws_width("\u{00A0}".as_bytes(), 0), 2);
    assert_eq!(PlainTextParser::ws_width("\u{00A0}".as_bytes(), 1), 0);
    assert_eq!(PlainTextParser::ws_width("\u{2009}".as_bytes(), 0), 3);
    assert_eq!(PlainTextParser::ws_width("\u{200B}".as_bytes(), 0), 0);
    assert_eq!(PlainTextParser::ws_width(&[0xC2], 0), 0);
}

#[test]
fn text_name_and_extensions() {
    let parser = PlainTextParser::new();
    assert_eq!(parser.name(), "text");
    assert_eq!(parser.extensions(), vec!["txt", "text"]);
    assert!(parser.can_parse("Text"));
    assert!(!parser.can_parse("tx"));
}

#[test]
fn white_space_is_what_the_standard_library_calls_white_space() {
    let mut buffer = [0u8; 4];
    let mut count = 0;
    for code in 0..=0x10FFFFu32 {
        if let Some(c) = char::from_u32(code) {
            let bytes = c.encode_utf8(&mut buffer).as_bytes();
            let expected = if c.is_whitespace() { bytes.len() } else { 0 };
            assert_eq!(PlainTextParser::ws_width(bytes, 0), expected, "U+{:04X}", code);
            if c.is_whitespace() {
                count += 1;
            }
        }
    }
    assert_eq!(count, 25);
}

#[test]
fn paragraphs_agree_with_trimming_by_the_standard_library() {
    let sources = [
        "a\u{2003}\n\u{00A0}\n\u{3000}b c\u{1680}\n",
        "\t x \r\n y\u{0085}\r\n\r\n\u{2028}z",
        "\u{FEFF}bom is text\n\n\u{200B}\n",
    ];
    for source in sources {
        for (start, end, value) in paragraphs(source) {
            let raw = &source[start as usize..end as usize];
            assert_eq!(raw.trim(), raw);
            assert_eq!(value, raw);
            assert!(!raw.is_empty());
            for line in raw.lines() {
                assert!(!line.trim().is_empty());
            }
        }
    }
    assert_eq!(paragraphs(sources[0]).len(), 2);
    assert_eq!(paragraphs(sources[1]).len(), 2);
    assert_eq!(paragraphs(sources[2]).len(), 2);
}
