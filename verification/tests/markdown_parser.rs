use texide::ast::{AstArena, NodeType, Span, TxtNode};
use texide::error::ParseError;
use texide::markdown_parser::{MarkdownParser, MdKind};
use texide::parser::Parser;

#[test]
fn test_parse_simple_markdown() {
    let mut arena = AstArena::new();
    let parser = MarkdownParser::new();
    let source = "# Hello\n\nThis is a paragraph.";

    let ast = parser.parse(&mut arena, source).unwrap();

    assert_eq!(ast.node_type, NodeType::Document);
    assert!(ast.has_children());
}

#[test]
fn test_parse_heading() {
    let mut arena = AstArena::new();
    let parser = MarkdownParser::new();
    let source = "# Level 1\n\n## Level 2";

    let ast = parser.parse(&mut arena, source).unwrap();
    let children = arena.children(&ast);

    assert_eq!(children.len(), 2);
    assert_eq!(children[0].node_type, NodeType::Header);
    assert_eq!(children[0].data.depth, Some(1));
    assert_eq!(children[1].node_type, NodeType::Header);
    assert_eq!(children[1].data.depth, Some(2));
}

#[test]
fn test_parse_link() {
    let mut arena = AstArena::new();
    let parser = MarkdownParser::new();
    let source = "[Example](https://example.com)";

    let ast = parser.parse(&mut arena, source).unwrap();

    let paragraph = &arena.children(&ast)[0];
    let link = &arena.children(paragraph)[0];

    assert_eq!(link.node_type, NodeType::Link);
    assert_eq!(arena.text_of(link.data.url), Some("https://example.com"));
}

/// A tree read out of its arena, for comparing.
#[derive(Debug, PartialEq)]
struct Tree {
    node_type: NodeType,
    span: Span,
    value: Option<String>,
    depth: Option<u8>,
    ordered: Option<bool>,
    lang: Option<String>,
    url: Option<String>,
    title: Option<String>,
    identifier: Option<String>,
    label: Option<String>,
    children: Vec<Tree>,
}

fn read(arena: &AstArena, node: &TxtNode) -> Tree {
    let text = |r| arena.text_of(r).map(|s| s.to_string());
    Tree {
        node_type: node.node_type,
        span: node.span,
        value: text(node.value),
        depth: node.data.depth,
        ordered: node.data.ordered,
        lang: text(node.data.lang),
        url: text(node.data.url),
        title: text(node.data.title),
        identifier: text(node.data.identifier),
        label: text(node.data.label),
        children: arena.children(node).iter().map(|c| read(arena, c)).collect(),
    }
}

fn parse(source: &str) -> Tree {
    let mut arena = AstArena::new();
    let ast = MarkdownParser::new().parse(&mut arena, source).unwrap();
    read(&arena, &ast)
}

#[test]
fn markdown_test_extensions() {
    let parser = MarkdownParser::new();

    assert!(parser.can_parse("md"));
    assert!(parser.can_parse("markdown"));
    assert!(parser.can_parse("MD"));
    assert!(!parser.can_parse("txt"));
}

#[test]
fn heading_then_paragraph_tree() {
    let ast = parse("# Hello\n\nThis is a paragraph.");

    assert_eq!(ast.node_type, NodeType::Document);
    assert_eq!(ast.span, Span::new(0, 29));
    assert_eq!(ast.children.len(), 2);

    let header = &ast.children[0];
    assert_eq!(header.node_type, NodeType::Header);
    assert_eq!(header.depth, Some(1));
    assert_eq!(header.span, Span::new(0, 7));
    assert_eq!(header.children.len(), 1);
    assert_eq!(header.children[0].node_type, NodeType::Str);
    assert_eq!(header.children[0].value.as_deref(), Some("Hello"));
    assert_eq!(header.children[0].span, Span::new(2, 7));

    let paragraph = &ast.children[1];
    assert_eq!(paragraph.node_type, NodeType::Paragraph);
    assert_eq!(paragraph.children.len(), 1);
    assert_eq!(paragraph.children[0].node_type, NodeType::Str);
    assert_eq!(paragraph.children[0].value.as_deref(), Some("This is a paragraph."));
    assert_eq!(paragraph.children[0].span, Span::new(9, 29));
}

#[test]
fn link_without_title_has_no_title() {
    let ast = parse("[Example](https://example.com)");
    let paragraph = &ast.children[0];
    assert_eq!(paragraph.node_type, NodeType::Paragraph);
    let link = &paragraph.children[0];
    assert_eq!(link.node_type, NodeType::Link);
    assert_eq!(link.url.as_deref(), Some("https://example.com"));
    assert_eq!(link.title, None);
    assert_eq!(link.value, None);
    assert_eq!(link.children.len(), 1);
    assert_eq!(link.children[0].value.as_deref(), Some("Example"));
}

#[test]
fn link_with_title_keeps_it() {
    let ast = parse("[a](https://b.example \"The title\")");
    let link = &ast.children[0].children[0];
    assert_eq!(link.title.as_deref(), Some("The title"));
}

#[test]
fn image_is_a_leaf_with_target() {
    let ast = parse("![alt text](pic.png \"Pic\")");
    let image = &ast.children[0].children[0];
    assert_eq!(image.node_type, NodeType::Image);
    assert!(image.children.is_empty());
    assert_eq!(image.value, None);
    assert_eq!(image.url.as_deref(), Some("pic.png"));
    assert_eq!(image.title.as_deref(), Some("Pic"));
}

#[test]
fn code_block_has_value_and_language() {
    let ast = parse("```rust\nfn main() {}\n```");
    let block = &ast.children[0];
    assert_eq!(block.node_type, NodeType::CodeBlock);
    assert_eq!(block.value.as_deref(), Some("fn main() {}"));
    assert_eq!(block.lang.as_deref(), Some("rust"));
    assert!(block.children.is_empty());
}

#[test]
fn code_block_without_language() {
    let ast = parse("```\nplain\n```");
    let block = &ast.children[0];
    assert_eq!(block.node_type, NodeType::CodeBlock);
    assert_eq!(block.lang, None);
}

#[test]
fn inline_constructs() {
    let ast = parse("*em* **strong** `code` ~~gone~~");
    let kinds: Vec<NodeType> = ast.children[0].children.iter().map(|c| c.node_type).collect();
    assert_eq!(
        kinds,
        vec![
            NodeType::Emphasis,
            NodeType::Str,
            NodeType::Strong,
            NodeType::Str,
            NodeType::Code,
            NodeType::Str,
            NodeType::Delete,
        ]
    );
    let code = &ast.children[0].children[4];
    assert_eq!(code.value.as_deref(), Some("code"));
}

#[test]
fn lists_record_whether_ordered() {
    let ast = parse("- a\n- b\n\n1. c\n2. d");
    assert_eq!(ast.children.len(), 2);
    assert_eq!(ast.children[0].node_type, NodeType::List);
    assert_eq!(ast.children[0].ordered, Some(false));
    assert_eq!(ast.children[0].children.len(), 2);
    assert_eq!(ast.children[0].children[0].node_type, NodeType::ListItem);
    assert_eq!(ast.children[1].node_type, NodeType::List);
    assert_eq!(ast.children[1].ordered, Some(true));
}

#[test]
fn block_quote_rule_break_and_html() {
    let ast = parse("> quoted\n\n---\n\n<div>x</div>\n\nline  \nnext");
    assert_eq!(ast.children[0].node_type, NodeType::BlockQuote);
    assert_eq!(ast.children[1].node_type, NodeType::HorizontalRule);
    assert!(ast.children[1].children.is_empty());
    assert_eq!(ast.children[2].node_type, NodeType::Html);
    assert_eq!(ast.children[2].value.as_deref(), Some("<div>x</div>"));
    let last = &ast.children[3];
    assert_eq!(last.node_type, NodeType::Paragraph);
    assert_eq!(last.children[1].node_type, NodeType::Break);
}

#[test]
fn table_rows_and_cells() {
    let ast = parse("| a | b |\n| - | - |\n| c | d |");
    let table = &ast.children[0];
    assert_eq!(table.node_type, NodeType::Table);
    assert_eq!(table.children.len(), 2);
    assert_eq!(table.children[0].node_type, NodeType::TableRow);
    assert_eq!(table.children[0].children.len(), 2);
    assert_eq!(table.children[0].children[0].node_type, NodeType::TableCell);
}

#[test]
fn footnotes_and_references() {
    let source = "Text[^Note] and [label][Ref] and ![pic][Img].\n\n[^Note]: The note.\n\n[Ref]: https://r.example \"R\"\n\n[Img]: i.png";
    let ast = parse(source);
    let inline = &ast.children[0].children;
    let reference = inline.iter().find(|c| c.node_type == NodeType::FootnoteReference).unwrap();
    assert_eq!(reference.identifier.as_deref(), Some("note"));
    assert_eq!(reference.label.as_deref(), Some("Note"));
    assert!(reference.children.is_empty());
    let link_ref = inline.iter().find(|c| c.node_type == NodeType::LinkReference).unwrap();
    assert_eq!(link_ref.identifier.as_deref(), Some("ref"));
    assert_eq!(link_ref.children.len(), 1);
    let image_ref = inline.iter().find(|c| c.node_type == NodeType::ImageReference).unwrap();
    assert_eq!(image_ref.identifier.as_deref(), Some("img"));
    assert!(image_ref.children.is_empty());
    let definition = ast.children.iter().find(|c| c.node_type == NodeType::FootnoteDefinition).unwrap();
    assert_eq!(definition.identifier.as_deref(), Some("note"));
    assert!(!definition.children.is_empty());
    let target = ast.children.iter().find(|c| c.node_type == NodeType::Definition).unwrap();
    assert_eq!(target.identifier.as_deref(), Some("ref"));
    assert_eq!(target.url.as_deref(), Some("https://r.example"));
    assert_eq!(target.title.as_deref(), Some("R"));
    assert_eq!(target.label.as_deref(), Some("Ref"));
}

fn check_spans(node: &Tree, len: u32) {
    assert!(node.span.start <= node.span.end);
    assert!(node.span.end <= len);
    if node.value.is_some() {
        assert!(node.children.is_empty());
    }
    for child in &node.children {
        check_spans(child, len);
    }
}

#[test]
fn markdown_spans_lie_inside_the_source() {
    let source = "# Títle\n\nSome *text* with a [link](u) and `code`.\n\n- item one\n- item two\n\n> quote\n";
    let ast = parse(source);
    check_spans(&ast, source.len() as u32);
    assert_eq!(ast.span, Span::new(0, source.len() as u32));
}

#[test]
fn markdown_parse_is_repeatable() {
    let source = "# A\n\nB *c* [d](e)\n";
    assert_eq!(parse(source), parse(source));
    let mut arena = AstArena::new();
    let parser = MarkdownParser::new();
    let first = parser.parse(&mut arena, "*other*").unwrap();
    let second = parser.parse(&mut arena, source).unwrap();
    assert_eq!(read(&arena, &second), parse(source));
    assert_eq!(read(&arena, &first), parse("*other*"));
}

#[test]
fn convert_node_takes_a_node_built_by_hand() {
    let parser = MarkdownParser::new();
    let text = markdown::mdast::Node::Text(markdown::mdast::Text {
        value: "hi".to_string(),
        position: Some(markdown::unist::Position::new(1, 1, 0, 1, 3, 2)),
    });
    assert_eq!(parser.node_kind(&text), MdKind::Text);
    let mut arena = AstArena::new();
    let node = parser.convert_node(&mut arena, &text, 2).unwrap();
    assert_eq!(node.node_type, NodeType::Str);
    assert_eq!(arena.text_of(node.value), Some("hi"));
    assert_eq!(node.span, Span::new(0, 2));
}

#[test]
fn convert_node_without_position_spans_nothing() {
    let parser = MarkdownParser::new();
    let rule = markdown::mdast::Node::ThematicBreak(markdown::mdast::ThematicBreak { position: None });
    let node = parser.convert_node(&mut AstArena::new(), &rule, 10).unwrap();
    assert_eq!(node.node_type, NodeType::HorizontalRule);
    assert_eq!(node.span, Span::new(0, 0));
}

#[test]
fn convert_node_refuses_a_position_outside_the_source() {
    let parser = MarkdownParser::new();
    let text = markdown::mdast::Node::Text(markdown::mdast::Text {
        value: "hi".to_string(),
        position: Some(markdown::unist::Position::new(1, 1, 0, 1, 3, 2)),
    });
    match parser.convert_node(&mut AstArena::new(), &text, 1) {
        Err(ParseError::InvalidSource(message)) => {
            assert_eq!(message, "node position lies outside the source")
        }
        _ => panic!("a position past the end must be refused"),
    }
    let reversed = markdown::mdast::Node::Text(markdown::mdast::Text {
        value: "hi".to_string(),
        position: Some(markdown::unist::Position::new(1, 3, 2, 1, 1, 0)),
    });
    assert!(parser.convert_node(&mut AstArena::new(), &reversed, 5).is_err());
}

#[test]
fn unknown_construct_becomes_an_html_leaf() {
    let parser = MarkdownParser::new();
    let math = markdown::mdast::Node::InlineMath(markdown::mdast::InlineMath {
        value: "x".to_string(),
        position: None,
    });
    assert_eq!(parser.node_kind(&math), MdKind::Other);
    let mut arena = AstArena::new();
    let node = parser.convert_node(&mut arena, &math, 0).unwrap();
    assert_eq!(node.node_type, NodeType::Html);
    assert_eq!(node.value, None);
    assert!(arena.children(&node).is_empty());
}

#[test]
fn markdown_name_and_extensions() {
    let parser = MarkdownParser::new();
    assert_eq!(parser.name(), "markdown");
    assert_eq!(parser.extensions(), vec!["md", "markdown", "mdown", "mkdn", "mkd"]);
    assert!(parser.can_parse("MkDn"));
    assert!(!parser.can_parse(""));
    assert!(!parser.can_parse("mdx"));
}
