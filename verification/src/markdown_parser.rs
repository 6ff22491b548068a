//! The Markdown parser: CommonMark with the GitHub extensions, read by the
//! `markdown` crate and normalized into the prose tree.

use crate::ast::{
    data_in, str_fits, text_at, AstArena, DataView, NodeData, NodeType, Span, StrRef,
    TxtNode, TxtTree,
};
use crate::error::ParseError;
use crate::parser::{is_outcome, texts, Parser};
use markdown::mdast::Node;
use vstd::prelude::*;
use vstd::string::*;
use vstd::utf8::encode_utf8;

verus! {

/// A node of the `markdown` crate's syntax tree.  Its content is opaque; the
/// accessors below read it.
#[verifier::external_type_specification]
#[verifier::external_body]
pub struct ExMdastNode(markdown::mdast::Node);

/// The constructs of the Markdown tree that the normalization tells apart.
/// Every other construct counts as `Other`.
#[derive(Clone, Copy, Debug, PartialEq, Eq, Structural)]
pub enum MdKind {
    Root,
    Blockquote,
    FootnoteDefinition,
    List,
    ListItem,
    Table,
    TableRow,
    TableCell,
    Paragraph,
    Heading,
    Code,
    ThematicBreak,
    Definition,
    Html,
    Text,
    Break,
    InlineCode,
    Delete,
    Emphasis,
    Strong,
    Link,
    LinkReference,
    Image,
    ImageReference,
    FootnoteReference,
    Other,
}

/// What a Markdown node holds, as far as the normalization reads it: its
/// construct, the byte offsets of its position, its fields and its children.
/// A field that the node's construct does not have is `None`.
pub struct MdTree {
    pub kind: MdKind,
    pub position: Option<(usize, usize)>,
    pub value: Option<Seq<char>>,
    pub depth: Option<u8>,
    pub ordered: Option<bool>,
    pub lang: Option<Seq<char>>,
    pub url: Option<Seq<char>>,
    pub title: Option<Seq<char>>,
    pub identifier: Option<Seq<char>>,
    pub label: Option<Seq<char>>,
    pub children: Option<Seq<MdTree>>,
}

/// The content of a Markdown node.
pub uninterp spec fn mdast_tree(node: markdown::mdast::Node) -> MdTree;

/// The tree that the `markdown` crate reads from a source with the GitHub
/// extensions switched on, or the text of its error.
pub uninterp spec fn gfm_mdast(source: Seq<char>) -> Result<MdTree, Seq<char>>;

/// The contents of a sequence of Markdown nodes, in order.
pub open spec fn mdast_trees(nodes: Seq<markdown::mdast::Node>) -> Seq<MdTree> {
    Seq::new(nodes.len(), |i: int| mdast_tree(nodes[i]))
}

/// The text behind an optional borrowed string.
pub open spec fn opt_ref_text(s: Option<&String>) -> Option<Seq<char>> {
    match s {
        Some(t) => Some(t@),
        None => None,
    }
}

/// Containers of block content.
pub open spec fn container_kind(kind: MdKind) -> Option<MdKind> {
    match kind {
        MdKind::Root
        | MdKind::Blockquote
        | MdKind::FootnoteDefinition
        | MdKind::List
        | MdKind::ListItem
        | MdKind::Table
        | MdKind::TableRow
        | MdKind::TableCell => Some(kind),
        _ => None,
    }
}

/// Blocks and plain leaves.
pub open spec fn content_kind(kind: MdKind) -> Option<MdKind> {
    match kind {
        MdKind::Paragraph
        | MdKind::Heading
        | MdKind::Code
        | MdKind::ThematicBreak
        | MdKind::Definition
        | MdKind::Html
        | MdKind::Text
        | MdKind::Break => Some(kind),
        _ => None,
    }
}

/// Inline constructs.
pub open spec fn phrasing_kind(kind: MdKind) -> Option<MdKind> {
    match kind {
        MdKind::InlineCode
        | MdKind::Delete
        | MdKind::Emphasis
        | MdKind::Strong
        | MdKind::Link
        | MdKind::LinkReference
        | MdKind::Image
        | MdKind::ImageReference
        | MdKind::FootnoteReference => Some(kind),
        _ => None,
    }
}

/// Calls `markdown::to_mdast` with `ParseOptions::gfm()`.  Trusted: the
/// call is a function of the source text alone; its tree, or the text of
/// its error message, is the value that `gfm_mdast` names.
#[verifier::external_body]
fn parse_gfm(source: &str) -> (r: Result<Node, String>)
    ensures
        match r {
            Ok(node) => gfm_mdast(source@) == Ok::<MdTree, Seq<char>>(mdast_tree(node)),
            Err(message) => gfm_mdast(source@) == Err::<MdTree, Seq<char>>(message@),
        },
{
    markdown::to_mdast(source, &markdown::ParseOptions::gfm()).map_err(|e| e.to_string())
}

/// Tells the container variants of `mdast::Node` apart.  Trusted: the
/// result is the node's construct if it is one of these eight.
#[verifier::external_body]
fn md_container_kind(node: &Node) -> (r: Option<MdKind>)
    ensures
        r == container_kind(mdast_tree(*node).kind),
{
    match node {
        Node::Root(_) => Some(MdKind::Root),
        Node::Blockquote(_) => Some(MdKind::Blockquote),
        Node::FootnoteDefinition(_) => Some(MdKind::FootnoteDefinition),
        Node::List(_) => Some(MdKind::List),
        Node::ListItem(_) => Some(MdKind::ListItem),
        Node::Table(_) => Some(MdKind::Table),
        Node::TableRow(_) => Some(MdKind::TableRow),
        Node::TableCell(_) => Some(MdKind::TableCell),
        _ => None,
    }
}

/// Tells the block and leaf variants of `mdast::Node` apart.  Trusted: the
/// result is the node's construct if it is one of these eight.
#[verifier::external_body]
fn md_content_kind(node: &Node) -> (r: Option<MdKind>)
    ensures
        r == content_kind(mdast_tree(*node).kind),
{
    match node {
        Node::Paragraph(_) => Some(MdKind::Paragraph),
        Node::Heading(_) => Some(MdKind::Heading),
        Node::Code(_) => Some(MdKind::Code),
        Node::ThematicBreak(_) => Some(MdKind::ThematicBreak),
        Node::Definition(_) => Some(MdKind::Definition),
        Node::Html(_) => Some(MdKind::Html),
        Node::Text(_) => Some(MdKind::Text),
        Node::Break(_) => Some(MdKind::Break),
        _ => None,
    }
}

/// Tells the inline variants of `mdast::Node` apart.  Trusted: the result
/// is the node's construct if it is one of these nine.
#[verifier::external_body]
fn md_phrasing_kind(node: &Node) -> (r: Option<MdKind>)
    ensures
        r == phrasing_kind(mdast_tree(*node).kind),
{
    match node {
        Node::InlineCode(_) => Some(MdKind::InlineCode),
        Node::Delete(_) => Some(MdKind::Delete),
        Node::Emphasis(_) => Some(MdKind::Emphasis),
        Node::Strong(_) => Some(MdKind::Strong),
        Node::Link(_) => Some(MdKind::Link),
        Node::LinkReference(_) => Some(MdKind::LinkReference),
        Node::Image(_) => Some(MdKind::Image),
        Node::ImageReference(_) => Some(MdKind::ImageReference),
        Node::FootnoteReference(_) => Some(MdKind::FootnoteReference),
        _ => None,
    }
}

/// Calls `mdast::Node::children`.  Trusted: the result is the node's list
/// of children, each child with its own content; of the constructs that
/// are told apart, those have a list whose children are kept.
#[verifier::external_body]
fn md_children(node: &Node) -> (r: Option<&Vec<Node>>)
    ensures
        match r {
            Some(nodes) => mdast_tree(*node).children == Some(mdast_trees(nodes@)),
            None => mdast_tree(*node).children is None,
        },
        !(mdast_tree(*node).kind is Other) ==> (r is Some <==> keeps_children(
            mdast_tree(*node).kind,
        )),
{
    node.children()
}

/// Calls `mdast::Node::position` and takes the two byte offsets.  Trusted:
/// the result is the node's position.
#[verifier::external_body]
fn md_position(node: &Node) -> (r: Option<(usize, usize)>)
    ensures
        r == mdast_tree(*node).position,
{
    node.position().map(|p| (p.start.offset, p.end.offset))
}

/// Reads the field `value` of a text, inline code, code or HTML node.
/// Trusted: the result is the node's value, which these four have; of the
/// constructs that are told apart, no other has one.
#[verifier::external_body]
fn md_value(node: &Node) -> (r: Option<&String>)
    ensures
        opt_ref_text(r) == mdast_tree(*node).value,
        r is Some <==> keeps_value(mdast_tree(*node).kind),
{
    match node {
        Node::Text(x) => Some(&x.value),
        Node::InlineCode(x) => Some(&x.value),
        Node::Code(x) => Some(&x.value),
        Node::Html(x) => Some(&x.value),
        _ => None,
    }
}

/// Reads the field `depth` of a heading.  Trusted: the result is the
/// node's depth, which a heading has and no other node.
#[verifier::external_body]
fn md_depth(node: &Node) -> (r: Option<u8>)
    ensures
        r == mdast_tree(*node).depth,
        r is Some <==> mdast_tree(*node).kind is Heading,
{
    match node {
        Node::Heading(x) => Some(x.depth),
        _ => None,
    }
}

/// Reads the field `ordered` of a list.  Trusted: the result is the node's
/// flag, which a list has and no other node.
#[verifier::external_body]
fn md_ordered(node: &Node) -> (r: Option<bool>)
    ensures
        r == mdast_tree(*node).ordered,
        r is Some <==> mdast_tree(*node).kind is List,
{
    match node {
        Node::List(x) => Some(x.ordered),
        _ => None,
    }
}

/// Reads the field `lang` of a code block.  Trusted: the result is the
/// node's language.
#[verifier::external_body]
fn md_lang(node: &Node) -> (r: Option<&String>)
    ensures
        opt_ref_text(r) == mdast_tree(*node).lang,
{
    match node {
        Node::Code(x) => x.lang.as_ref(),
        _ => None,
    }
}

/// Reads the field `url` of a link, an image or a definition.  Trusted:
/// the result is the node's target, which these three have and no other
/// node.
#[verifier::external_body]
fn md_url(node: &Node) -> (r: Option<&String>)
    ensures
        opt_ref_text(r) == mdast_tree(*node).url,
        r is Some <==> (mdast_tree(*node).kind is Link || mdast_tree(*node).kind is Image
            || mdast_tree(*node).kind is Definition),
{
    match node {
        Node::Link(x) => Some(&x.url),
        Node::Image(x) => Some(&x.url),
        Node::Definition(x) => Some(&x.url),
        _ => None,
    }
}

/// Reads the field `title` of a link, an image or a definition.  Trusted:
/// the result is the node's title.
#[verifier::external_body]
fn md_title(node: &Node) -> (r: Option<&String>)
    ensures
        opt_ref_text(r) == mdast_tree(*node).title,
{
    match node {
        Node::Link(x) => x.title.as_ref(),
        Node::Image(x) => x.title.as_ref(),
        Node::Definition(x) => x.title.as_ref(),
        _ => None,
    }
}

/// Reads the field `identifier` of a footnote, a reference or a
/// definition.  Trusted: the result is the node's identifier, which these
/// five have and no other node.
#[verifier::external_body]
fn md_identifier(node: &Node) -> (r: Option<&String>)
    ensures
        opt_ref_text(r) == mdast_tree(*node).identifier,
        r is Some <==> (mdast_tree(*node).kind is FootnoteDefinition || mdast_tree(*node).kind
            is FootnoteReference || mdast_tree(*node).kind is LinkReference || mdast_tree(
            *node,
        ).kind is ImageReference || mdast_tree(*node).kind is Definition),
{
    match node {
        Node::FootnoteDefinition(x) => Some(&x.identifier),
        Node::FootnoteReference(x) => Some(&x.identifier),
        Node::LinkReference(x) => Some(&x.identifier),
        Node::ImageReference(x) => Some(&x.identifier),
        Node::Definition(x) => Some(&x.identifier),
        _ => None,
    }
}

/// Reads the field `label` of a footnote, a reference or a definition.
/// Trusted: the result is the node's label.
#[verifier::external_body]
fn md_label(node: &Node) -> (r: Option<&String>)
    ensures
        opt_ref_text(r) == mdast_tree(*node).label,
{
    match node {
        Node::FootnoteDefinition(x) => x.label.as_ref(),
        Node::FootnoteReference(x) => x.label.as_ref(),
        Node::LinkReference(x) => x.label.as_ref(),
        Node::ImageReference(x) => x.label.as_ref(),
        Node::Definition(x) => x.label.as_ref(),
        _ => None,
    }
}

/// The prose construct that a Markdown construct becomes.
pub open spec fn node_type_of(kind: MdKind) -> NodeType {
    match kind {
        MdKind::Root => NodeType::Document,
        MdKind::Paragraph => NodeType::Paragraph,
        MdKind::Heading => NodeType::Header,
        MdKind::Text => NodeType::Str,
        MdKind::Emphasis => NodeType::Emphasis,
        MdKind::Strong => NodeType::Strong,
        MdKind::InlineCode => NodeType::Code,
        MdKind::Code => NodeType::CodeBlock,
        MdKind::Link => NodeType::Link,
        MdKind::Image => NodeType::Image,
        MdKind::List => NodeType::List,
        MdKind::ListItem => NodeType::ListItem,
        MdKind::Blockquote => NodeType::BlockQuote,
        MdKind::ThematicBreak => NodeType::HorizontalRule,
        MdKind::Break => NodeType::Break,
        MdKind::Html => NodeType::Html,
        MdKind::Delete => NodeType::Delete,
        MdKind::Table => NodeType::Table,
        MdKind::TableRow => NodeType::TableRow,
        MdKind::TableCell => NodeType::TableCell,
        MdKind::FootnoteDefinition => NodeType::FootnoteDefinition,
        MdKind::FootnoteReference => NodeType::FootnoteReference,
        MdKind::LinkReference => NodeType::LinkReference,
        MdKind::ImageReference => NodeType::ImageReference,
        MdKind::Definition => NodeType::Definition,
        MdKind::Other => NodeType::Html,
    }
}

/// Constructs whose children are kept.
pub open spec fn keeps_children(kind: MdKind) -> bool {
    match kind {
        MdKind::Root
        | MdKind::Paragraph
        | MdKind::Heading
        | MdKind::Emphasis
        | MdKind::Strong
        | MdKind::Link
        | MdKind::List
        | MdKind::ListItem
        | MdKind::Blockquote
        | MdKind::Delete
        | MdKind::Table
        | MdKind::TableRow
        | MdKind::TableCell
        | MdKind::FootnoteDefinition
        | MdKind::LinkReference => true,
        _ => false,
    }
}

/// Constructs whose text is kept.
pub open spec fn keeps_value(kind: MdKind) -> bool {
    kind is Text || kind is InlineCode || kind is Code || kind is Html
}

/// The span of a position; `(0, 0)` where the node has none.
pub open spec fn span_of(position: Option<(usize, usize)>) -> Span {
    match position {
        Some((start, end)) => Span { start: start as u32, end: end as u32 },
        None => Span { start: 0, end: 0 },
    }
}

/// The position, if any, is ordered, ends inside a source of `len` bytes
/// and fits 32-bit offsets.
pub open spec fn position_fits(position: Option<(usize, usize)>, len: nat) -> bool {
    match position {
        Some((start, end)) => start <= end && end <= len && end <= u32::MAX,
        None => true,
    }
}

/// The attributes that a Markdown node hands to its prose node.
pub open spec fn data_of(t: MdTree) -> DataView {
    match t.kind {
        MdKind::Heading => DataView { depth: t.depth, ..DataView::empty() },
        MdKind::List => DataView { ordered: t.ordered, ..DataView::empty() },
        MdKind::Code => DataView { lang: t.lang, ..DataView::empty() },
        MdKind::Link | MdKind::Image => DataView {
            url: t.url,
            title: t.title,
            ..DataView::empty()
        },
        MdKind::FootnoteDefinition
        | MdKind::FootnoteReference
        | MdKind::LinkReference
        | MdKind::ImageReference => DataView {
            identifier: t.identifier,
            label: t.label,
            ..DataView::empty()
        },
        MdKind::Definition => DataView {
            url: t.url,
            title: t.title,
            identifier: t.identifier,
            label: t.label,
            ..DataView::empty()
        },
        _ => DataView::empty(),
    }
}

/// A header has its depth, a list says whether it is ordered, a link, an
/// image and a definition have their target, and a footnote, a reference
/// and a definition have their identifier.
pub open spec fn has_its_attributes(node_type: NodeType, data: NodeData) -> bool {
    &&& node_type is Header ==> data.depth is Some
    &&& node_type is List ==> data.ordered is Some
    &&& node_type.takes_target() ==> data.url is Some
    &&& node_type.takes_identifier() ==> data.identifier is Some
}

/// The prose tree of a Markdown tree.
pub open spec fn convert(t: MdTree) -> TxtTree
    decreases t,
{
    TxtTree {
        node_type: node_type_of(t.kind),
        span: span_of(t.position),
        data: data_of(t),
        value: if keeps_value(t.kind) {
            t.value
        } else {
            None
        },
        children: if keeps_children(t.kind) && t.children is Some {
            convert_all(t.children->Some_0)
        } else {
            Seq::empty()
        },
    }
}

/// The prose trees of a sequence of Markdown trees, in order.
pub open spec fn convert_all(ts: Seq<MdTree>) -> Seq<TxtTree>
    decreases ts,
{
    if ts.len() == 0 {
        Seq::empty()
    } else {
        convert_all(ts.drop_last()).push(convert(ts.last()))
    }
}

/// Every position in the visited part of the tree fits a source of `len`
/// bytes.
pub open spec fn positions_fit(t: MdTree, len: nat) -> bool
    decreases t,
{
    &&& position_fits(t.position, len)
    &&& keeps_children(t.kind) && t.children is Some ==> forall|i: int|
        0 <= i < t.children->Some_0.len() ==> positions_fit(#[trigger] t.children->Some_0[i], len)
}

/// The text of the error for a position that does not fit the source.
pub open spec fn position_error() -> Seq<char> {
    "node position lies outside the source"@
}

/// What parsing yields for the outcome `mdast` of the `markdown` crate on a
/// source of `len` bytes: the crate's error, an error for a misplaced node,
/// or the prose tree.
pub open spec fn parse_outcome(mdast: Result<MdTree, Seq<char>>, len: nat) -> Result<
    TxtTree,
    Seq<char>,
> {
    match mdast {
        Err(message) => Err(message),
        Ok(tree) => if positions_fit(tree, len) {
            Ok(convert(tree))
        } else {
            Err(position_error())
        },
    }
}

/// `convert_all` has one tree for each input tree, at its place.
pub proof fn lemma_convert_all(ts: Seq<MdTree>)
    ensures
        convert_all(ts).len() == ts.len(),
        forall|i: int| 0 <= i < ts.len() ==> (#[trigger] convert_all(ts)[i]) == convert(ts[i]),
    decreases ts.len(),
{
    if ts.len() > 0 {
        lemma_convert_all(ts.drop_last());
        assert(convert_all(ts) == convert_all(ts.drop_last()).push(convert(ts.last())));
    }
}

/// Where every position fits the source, every span of the prose tree lies
/// inside it.
pub proof fn lemma_convert_spans(t: MdTree, len: nat)
    requires
        positions_fit(t, len),
    ensures
        convert(t).spans_within(len),
    decreases t,
{
    let out = convert(t);
    if keeps_children(t.kind) && t.children is Some {
        let cs = t.children->Some_0;
        lemma_convert_all(cs);
        assert forall|i: int| 0 <= i < out.children.len() implies (#[trigger] out.children[i]).spans_within(len) by {
            assert(positions_fit(cs[i], len));
            lemma_convert_spans(cs[i], len);
        }
    }
}

/// The prose tree of any Markdown tree is well formed.
pub proof fn lemma_convert_well_formed(t: MdTree)
    ensures
        convert(t).well_formed(),
    decreases t,
{
    let out = convert(t);
    if keeps_children(t.kind) && t.children is Some {
        let cs = t.children->Some_0;
        lemma_convert_all(cs);
        assert forall|i: int| 0 <= i < out.children.len() implies (#[trigger] out.children[i]).well_formed() by {
            lemma_convert_well_formed(cs[i]);
        }
    }
}

/// The Markdown parser.
pub struct MarkdownParser;

impl MarkdownParser {
    /// A parser for CommonMark with the GitHub extensions.
    pub fn new() -> (p: MarkdownParser) {
        MarkdownParser
    }

    /// The construct of a Markdown node.
    pub fn node_kind(&self, node: &Node) -> (kind: MdKind)
        ensures
            kind == mdast_tree(*node).kind,
    {
        if let Some(kind) = md_container_kind(node) {
            kind
        } else if let Some(kind) = md_content_kind(node) {
            kind
        } else if let Some(kind) = md_phrasing_kind(node) {
            kind
        } else {
            MdKind::Other
        }
    }

    /// The prose construct for a Markdown construct.
    pub fn node_type_for(kind: MdKind) -> (t: NodeType)
        ensures
            t == node_type_of(kind),
    {
        match kind {
            MdKind::Root => NodeType::Document,
            MdKind::Paragraph => NodeType::Paragraph,
            MdKind::Heading => NodeType::Header,
            MdKind::Text => NodeType::Str,
            MdKind::Emphasis => NodeType::Emphasis,
            MdKind::Strong => NodeType::Strong,
            MdKind::InlineCode => NodeType::Code,
            MdKind::Code => NodeType::CodeBlock,
            MdKind::Link => NodeType::Link,
            MdKind::Image => NodeType::Image,
            MdKind::List => NodeType::List,
            MdKind::ListItem => NodeType::ListItem,
            MdKind::Blockquote => NodeType::BlockQuote,
            MdKind::ThematicBreak => NodeType::HorizontalRule,
            MdKind::Break => NodeType::Break,
            MdKind::Html => NodeType::Html,
            MdKind::Delete => NodeType::Delete,
            MdKind::Table => NodeType::Table,
            MdKind::TableRow => NodeType::TableRow,
            MdKind::TableCell => NodeType::TableCell,
            MdKind::FootnoteDefinition => NodeType::FootnoteDefinition,
            MdKind::FootnoteReference => NodeType::FootnoteReference,
            MdKind::LinkReference => NodeType::LinkReference,
            MdKind::ImageReference => NodeType::ImageReference,
            MdKind::Definition => NodeType::Definition,
            MdKind::Other => NodeType::Html,
        }
    }

    /// The span of a Markdown node in a source of `source_len` bytes, or
    /// `None` where its position does not fit the source.
    pub fn node_span(&self, node: &Node, source_len: usize) -> (r: Option<Span>)
        ensures
            r == if position_fits(mdast_tree(*node).position, source_len as nat) {
                Some(span_of(mdast_tree(*node).position))
            } else {
                None
            },
    {
        match md_position(node) {
            Some((start, end)) => {
                if start <= end && end <= source_len && end <= 0xFFFF_FFFF {
                    Some(Span::new(start as u32, end as u32))
                } else {
                    None
                }
            },
            None => Some(Span::new(0, 0)),
        }
    }

    /// The attributes of the prose node for a Markdown node of construct
    /// `kind`, their strings copied into the arena.
    fn node_data(&self, arena: &mut AstArena, node: &Node, kind: MdKind) -> (d: NodeData)
        requires
            old(arena).wf(),
            kind == mdast_tree(*node).kind,
        ensures
            final(arena).wf(),
            final(arena).extends(old(arena)),
            final(arena).nodes() == old(arena).nodes(),
            str_fits(d.lang, final(arena).strings().len()),
            str_fits(d.url, final(arena).strings().len()),
            str_fits(d.title, final(arena).strings().len()),
            str_fits(d.identifier, final(arena).strings().len()),
            str_fits(d.label, final(arena).strings().len()),
            data_in(final(arena).strings(), d) == data_of(mdast_tree(*node)),
            has_its_attributes(node_type_of(kind), d),
    {
        let depth = match kind {
            MdKind::Heading => md_depth(node),
            _ => None,
        };
        let ordered = match kind {
            MdKind::List => md_ordered(node),
            _ => None,
        };
        let has_target = match kind {
            MdKind::Link | MdKind::Image | MdKind::Definition => true,
            _ => false,
        };
        let has_identifier = match kind {
            MdKind::FootnoteDefinition
            | MdKind::FootnoteReference
            | MdKind::LinkReference
            | MdKind::ImageReference
            | MdKind::Definition => true,
            _ => false,
        };
        let ghost a0 = *arena;
        let lang = place_text(
            arena,
            match kind {
                MdKind::Code => md_lang(node),
                _ => None,
            },
        );
        let ghost a1 = *arena;
        let url = place_text(
            arena,
            if has_target {
                md_url(node)
            } else {
                None
            },
        );
        let ghost a2 = *arena;
        let title = place_text(
            arena,
            if has_target {
                md_title(node)
            } else {
                None
            },
        );
        let ghost a3 = *arena;
        let identifier = place_text(
            arena,
            if has_identifier {
                md_identifier(node)
            } else {
                None
            },
        );
        let ghost a4 = *arena;
        let label = place_text(
            arena,
            if has_identifier {
                md_label(node)
            } else {
                None
            },
        );
        proof {
            arena.lemma_extends_further(&a4, &a3);
            arena.lemma_extends_further(&a3, &a2);
            arena.lemma_extends_further(&a2, &a1);
            arena.lemma_extends_further(&a1, &a0);
            arena.lemma_keeps(&a4);
            arena.lemma_keeps(&a3);
            arena.lemma_keeps(&a2);
            arena.lemma_keeps(&a1);
        }
        NodeData { depth, ordered, lang, url, title, identifier, label }
    }

    /// Normalizes a Markdown node, with everything below it, into a prose
    /// node of the arena.  Fails exactly when a visited node's position
    /// does not fit a source of `source_len` bytes.  A node of text, of
    /// inline code or of a code block has its text.
    pub fn convert_node(&self, arena: &mut AstArena, node: &Node, source_len: usize) -> (r: Result<
        TxtNode,
        ParseError,
    >)
        requires
            old(arena).wf(),
        ensures
            final(arena).wf(),
            final(arena).extends(old(arena)),
            is_outcome(r, *final(arena), parse_outcome(Ok(mdast_tree(*node)), source_len as nat)),
            match r {
                Ok(out) => has_its_attributes(out.node_type, out.data) && (out.node_type is Str
                    || out.node_type is Code || out.node_type is CodeBlock ==> out.value is Some),
                Err(_) => true,
            },
        decreases mdast_tree(*node),
    {
        let ghost tree = mdast_tree(*node);
        let kind = self.node_kind(node);
        proof {
            arena.lemma_extends_itself();
        }
        let span = match self.node_span(node, source_len) {
            Some(span) => span,
            None => {
                return Err(
                    ParseError::invalid_source(
                        String::from_str("node position lies outside the source"),
                    ),
                );
            },
        };
        let value = place_text(
            arena,
            if Self::bears_value(kind) {
                md_value(node)
            } else {
                None
            },
        );
        let ghost with_value = *arena;
        let data = self.node_data(arena, node, kind);
        let ghost with_data = *arena;
        proof {
            arena.lemma_extends_further(&with_value, old(arena));
            arena.lemma_keeps(&with_value);
            arena.lemma_extends_itself();
        }
        let mut kids: Vec<TxtNode> = Vec::new();
        let ghost mut below: Seq<MdTree> = Seq::empty();
        if Self::visits_children(kind) {
            if let Some(nodes) = md_children(node) {
                proof {
                    below = mdast_trees(nodes@);
                }
                let mut i: usize = 0;
                while i < nodes.len()
                    invariant
                        i <= nodes.len(),
                        tree == mdast_tree(*node),
                        keeps_children(tree.kind),
                        tree.children == Some(below),
                        below == mdast_trees(nodes@),
                        arena.wf(),
                        arena.extends(old(arena)),
                        arena.extends(&with_data),
                        kids@.len() == i,
                        forall|j: int|
                            0 <= j < i ==> arena.holds(#[trigger] kids@[j]) && arena.tree(kids@[j])
                                == convert(below[j]),
                        forall|j: int|
                            0 <= j < i ==> positions_fit(#[trigger] below[j], source_len as nat),
                    decreases nodes.len() - i,
                {
                    assert(below[i as int] == mdast_tree(nodes@[i as int]));
                    let ghost earlier = *arena;
                    match self.convert_node(arena, &nodes[i], source_len) {
                        Ok(child) => {
                            proof {
                                arena.lemma_extends_further(&earlier, old(arena));
                                arena.lemma_extends_further(&earlier, &with_data);
                                arena.lemma_keeps(&earlier);
                            }
                            kids.push(child);
                        },
                        Err(e) => {
                            proof {
                                arena.lemma_extends_further(&earlier, old(arena));
                                assert(!positions_fit(below[i as int], source_len as nat));
                                assert(tree.children->Some_0[i as int] == below[i as int]);
                                assert(!positions_fit(tree, source_len as nat));
                            }
                            return Err(e);
                        },
                    }
                    i += 1;
                }
            }
        }
        let ghost earlier = *arena;
        let children = arena.alloc_slice_clone(kids.as_slice());
        let out = TxtNode { node_type: Self::node_type_for(kind), span, data, value, children };
        proof {
            arena.lemma_extends_further(&earlier, old(arena));
            arena.lemma_extends_further(&earlier, &with_data);
            arena.lemma_keeps(&earlier);
            arena.lemma_keeps(&with_data);
            arena.lemma_children(out);
            let expected = convert(tree);
            lemma_convert_all(below);
            if keeps_children(tree.kind) && tree.children is Some {
                assert forall|k: int| 0 <= k < kids@.len() implies (#[trigger] arena.tree(
                    out,
                ).children[k]) == convert_all(below)[k] by {
                    assert(arena.nodes()[children.start + k] == kids@[k]);
                    assert(earlier.holds(kids@[k]));
                }
                assert(arena.tree(out).children =~= expected.children);
            } else {
                assert(arena.tree(out).children =~= expected.children);
            }
            assert(text_at(arena.strings(), value) == text_at(with_data.strings(), value));
            assert(data_in(arena.strings(), data) == data_in(with_data.strings(), data));
            assert(arena.tree(out) == expected);
        }
        Ok(out)
    }

    /// Whether the children of a construct are kept.
    pub fn visits_children(kind: MdKind) -> (b: bool)
        ensures
            b == keeps_children(kind),
    {
        match kind {
            MdKind::Root
            | MdKind::Paragraph
            | MdKind::Heading
            | MdKind::Emphasis
            | MdKind::Strong
            | MdKind::Link
            | MdKind::List
            | MdKind::ListItem
            | MdKind::Blockquote
            | MdKind::Delete
            | MdKind::Table
            | MdKind::TableRow
            | MdKind::TableCell
            | MdKind::FootnoteDefinition
            | MdKind::LinkReference => true,
            _ => false,
        }
    }

    /// Whether the text of a construct is kept.
    pub fn bears_value(kind: MdKind) -> (b: bool)
        ensures
            b == keeps_value(kind),
    {
        match kind {
            MdKind::Text | MdKind::InlineCode | MdKind::Code | MdKind::Html => true,
            _ => false,
        }
    }
}

impl Default for MarkdownParser {
    fn default() -> (p: MarkdownParser) {
        MarkdownParser::new()
    }
}

impl Parser for MarkdownParser {
    open spec fn name_spec(&self) -> Seq<char> {
        "markdown"@
    }

    open spec fn extensions_spec(&self) -> Seq<Seq<char>> {
        seq!["md"@, "markdown"@, "mdown"@, "mkdn"@, "mkd"@]
    }

    open spec fn outcome(&self, source: Seq<char>) -> Result<TxtTree, Seq<char>> {
        parse_outcome(gfm_mdast(source), encode_utf8(source).len())
    }

    fn name(&self) -> (s: &'static str) {
        "markdown"
    }

    fn extensions(&self) -> (list: Vec<&'static str>) {
        let list = vec!["md", "markdown", "mdown", "mkdn", "mkd"];
        assert(texts(list@) =~= self.extensions_spec());
        list
    }

    fn parse(&self, arena: &mut AstArena, source: &str) -> (r: Result<TxtNode, ParseError>) {
        let source_len = source.as_bytes().len();
        proof {
            arena.lemma_extends_itself();
        }
        match parse_gfm(source) {
            Ok(root) => {
                proof {
                    let tree = mdast_tree(root);
                    lemma_convert_well_formed(tree);
                    if positions_fit(tree, source.spec_bytes().len()) {
                        lemma_convert_spans(tree, source.spec_bytes().len());
                    }
                }
                self.convert_node(arena, &root, source_len)
            },
            Err(message) => Err(ParseError::invalid_source(message)),
        }
    }
}

/// Copies an optional string into the arena.
pub fn place_text(arena: &mut AstArena, s: Option<&String>) -> (r: Option<StrRef>)
    requires
        old(arena).wf(),
    ensures
        final(arena).wf(),
        final(arena).extends(old(arena)),
        final(arena).nodes() == old(arena).nodes(),
        str_fits(r, final(arena).strings().len()),
        text_at(final(arena).strings(), r) == opt_ref_text(s),
        r is Some <==> s is Some,
{
    match s {
        Some(text) => Some(arena.alloc_str(text.as_str())),
        None => {
            proof {
                arena.lemma_extends_itself();
            }
            None
        },
    }
}

} // verus!
