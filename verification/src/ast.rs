//! The prose syntax tree: spans, node kinds, node attributes, nodes and the
//! arena that owns them.
//!
//! A tree lives in an [`AstArena`].  Nodes refer to their strings and to
//! their children by handles into the arena.  What is once allocated keeps
//! its place and its content for as long as the arena lives, and all of it
//! is freed together with the arena.

use vstd::prelude::*;
use vstd::slice::slice_subrange;
use vstd::string::*;

verus! {

/// A half-open byte range `[start, end)` into a source text.
#[derive(Clone, Copy, Debug, PartialEq, Eq, Structural)]
pub struct Span {
    pub start: u32,
    pub end: u32,
}

impl Span {
    /// The range is ordered and ends inside a text of `len` bytes.
    pub open spec fn within(self, len: nat) -> bool {
        self.start <= self.end && self.end <= len
    }

    pub fn new(start: u32, end: u32) -> (span: Span)
        ensures
            span.start == start,
            span.end == end,
    {
        Span { start, end }
    }

    /// Number of bytes covered; zero for a reversed range.
    pub fn len(&self) -> (n: u32)
        ensures
            n == if self.start <= self.end { self.end - self.start } else { 0 },
    {
        if self.start <= self.end {
            self.end - self.start
        } else {
            0
        }
    }

    pub fn is_empty(&self) -> (b: bool)
        ensures
            b == (self.end <= self.start),
    {
        self.end <= self.start
    }
}

/// The closed set of prose constructs.
#[derive(Clone, Copy, Debug, PartialEq, Eq, Structural)]
pub enum NodeType {
    Document,
    Paragraph,
    Header,
    Str,
    Emphasis,
    Strong,
    Code,
    CodeBlock,
    Link,
    Image,
    List,
    ListItem,
    BlockQuote,
    HorizontalRule,
    Break,
    Html,
    Delete,
    Table,
    TableRow,
    TableCell,
    FootnoteDefinition,
    FootnoteReference,
    LinkReference,
    ImageReference,
    Definition,
}

impl NodeType {
    /// The lowercase name under which the construct is serialized.
    pub open spec fn name_spec(self) -> Seq<char> {
        match self {
            NodeType::Document => "document"@,
            NodeType::Paragraph => "paragraph"@,
            NodeType::Header => "header"@,
            NodeType::Str => "str"@,
            NodeType::Emphasis => "emphasis"@,
            NodeType::Strong => "strong"@,
            NodeType::Code => "code"@,
            NodeType::CodeBlock => "codeblock"@,
            NodeType::Link => "link"@,
            NodeType::Image => "image"@,
            NodeType::List => "list"@,
            NodeType::ListItem => "listitem"@,
            NodeType::BlockQuote => "blockquote"@,
            NodeType::HorizontalRule => "horizontalrule"@,
            NodeType::Break => "break"@,
            NodeType::Html => "html"@,
            NodeType::Delete => "delete"@,
            NodeType::Table => "table"@,
            NodeType::TableRow => "tablerow"@,
            NodeType::TableCell => "tablecell"@,
            NodeType::FootnoteDefinition => "footnotedefinition"@,
            NodeType::FootnoteReference => "footnotereference"@,
            NodeType::LinkReference => "linkreference"@,
            NodeType::ImageReference => "imagereference"@,
            NodeType::Definition => "definition"@,
        }
    }

    pub fn name(&self) -> (s: &'static str)
        ensures
            s@ == self.name_spec(),
    {
        match self {
            NodeType::Document => "document",
            NodeType::Paragraph => "paragraph",
            NodeType::Header => "header",
            NodeType::Str => "str",
            NodeType::Emphasis => "emphasis",
            NodeType::Strong => "strong",
            NodeType::Code => "code",
            NodeType::CodeBlock => "codeblock",
            NodeType::Link => "link",
            NodeType::Image => "image",
            NodeType::List => "list",
            NodeType::ListItem => "listitem",
            NodeType::BlockQuote => "blockquote",
            NodeType::HorizontalRule => "horizontalrule",
            NodeType::Break => "break",
            NodeType::Html => "html",
            NodeType::Delete => "delete",
            NodeType::Table => "table",
            NodeType::TableRow => "tablerow",
            NodeType::TableCell => "tablecell",
            NodeType::FootnoteDefinition => "footnotedefinition",
            NodeType::FootnoteReference => "footnotereference",
            NodeType::LinkReference => "linkreference",
            NodeType::ImageReference => "imagereference",
            NodeType::Definition => "definition",
        }
    }

    /// Constructs that carry a link target.
    pub open spec fn takes_target(self) -> bool {
        self is Link || self is Image || self is Definition
    }

    /// Constructs that refer to, or are referred to by, an identifier.
    pub open spec fn takes_identifier(self) -> bool {
        self is FootnoteDefinition || self is FootnoteReference || self is LinkReference
            || self is ImageReference || self is Definition
    }
}

/// The attributes of a node with their texts.
pub struct DataView {
    pub depth: Option<u8>,
    pub ordered: Option<bool>,
    pub lang: Option<Seq<char>>,
    pub url: Option<Seq<char>>,
    pub title: Option<Seq<char>>,
    pub identifier: Option<Seq<char>>,
    pub label: Option<Seq<char>>,
}

impl DataView {
    /// No attribute is set.
    pub open spec fn empty() -> DataView {
        DataView {
            depth: None,
            ordered: None,
            lang: None,
            url: None,
            title: None,
            identifier: None,
            label: None,
        }
    }

    /// Every attribute that is set belongs to the construct `t`.
    pub open spec fn fits(self, t: NodeType) -> bool {
        &&& self.depth is Some ==> t is Header
        &&& self.ordered is Some ==> t is List
        &&& self.lang is Some ==> t is CodeBlock
        &&& self.url is Some ==> t.takes_target()
        &&& self.title is Some ==> t.takes_target()
        &&& self.identifier is Some ==> t.takes_identifier()
        &&& self.label is Some ==> t.takes_identifier()
    }
}

/// A prose tree as a mathematical value: what a node of an arena stands
/// for.
pub struct TxtTree {
    pub node_type: NodeType,
    pub span: Span,
    pub data: DataView,
    pub value: Option<Seq<char>>,
    pub children: Seq<TxtTree>,
}

impl TxtTree {
    /// Every span of the tree lies inside a source of `len` bytes.
    pub open spec fn spans_within(self, len: nat) -> bool
        decreases self,
    {
        &&& self.span.within(len)
        &&& forall|i: int|
            0 <= i < self.children.len() ==> (#[trigger] self.children[i]).spans_within(len)
    }

    /// A node bears text or children, never both, and carries only the
    /// attributes of its construct; the same holds below it.
    pub open spec fn well_formed(self) -> bool
        decreases self,
    {
        &&& self.value is Some ==> self.children.len() == 0
        &&& self.data.fits(self.node_type)
        &&& forall|i: int|
            0 <= i < self.children.len() ==> (#[trigger] self.children[i]).well_formed()
    }
}

/// The handle of a string in an arena.
#[derive(Clone, Copy, Debug, PartialEq, Eq, Structural)]
pub struct StrRef {
    pub index: usize,
}

/// The handle of a sequence of nodes in an arena: the nodes at the places
/// from `start` up to, not including, `end`.
#[derive(Clone, Copy, Debug, PartialEq, Eq, Structural)]
pub struct NodeRange {
    pub start: usize,
    pub end: usize,
}

impl NodeRange {
    /// The handle of no nodes.
    pub fn empty() -> (r: NodeRange)
        ensures
            r == (NodeRange { start: 0, end: 0 }),
    {
        NodeRange { start: 0, end: 0 }
    }

    pub fn len(&self) -> (n: usize)
        ensures
            n == if self.start <= self.end { self.end - self.start } else { 0 },
    {
        if self.start <= self.end {
            self.end - self.start
        } else {
            0
        }
    }
}

/// Optional structural attributes of a node.
#[derive(Clone, Copy, Debug)]
pub struct NodeData {
    pub depth: Option<u8>,
    pub ordered: Option<bool>,
    pub lang: Option<StrRef>,
    pub url: Option<StrRef>,
    pub title: Option<StrRef>,
    pub identifier: Option<StrRef>,
    pub label: Option<StrRef>,
}

impl NodeData {
    /// No attribute is set.
    pub open spec fn none() -> NodeData {
        NodeData {
            depth: None,
            ordered: None,
            lang: None,
            url: None,
            title: None,
            identifier: None,
            label: None,
        }
    }

    pub fn new() -> (d: NodeData)
        ensures
            d == NodeData::none(),
    {
        NodeData {
            depth: None,
            ordered: None,
            lang: None,
            url: None,
            title: None,
            identifier: None,
            label: None,
        }
    }

    pub fn header(depth: u8) -> (d: NodeData)
        ensures
            d == (NodeData { depth: Some(depth), ..NodeData::none() }),
    {
        let mut d = NodeData::new();
        d.depth = Some(depth);
        d
    }

    pub fn list(ordered: bool) -> (d: NodeData)
        ensures
            d == (NodeData { ordered: Some(ordered), ..NodeData::none() }),
    {
        let mut d = NodeData::new();
        d.ordered = Some(ordered);
        d
    }

    pub fn code_block(lang: Option<StrRef>) -> (d: NodeData)
        ensures
            d == (NodeData { lang, ..NodeData::none() }),
    {
        let mut d = NodeData::new();
        d.lang = lang;
        d
    }

    pub fn link(url: StrRef, title: Option<StrRef>) -> (d: NodeData)
        ensures
            d == (NodeData { url: Some(url), title, ..NodeData::none() }),
    {
        let mut d = NodeData::new();
        d.url = Some(url);
        d.title = title;
        d
    }
}

/// A node of the prose tree.  Its text and its children live in the arena
/// in which the node was made.
#[derive(Clone, Copy, Debug)]
pub struct TxtNode {
    pub node_type: NodeType,
    pub span: Span,
    pub data: NodeData,
    /// Verbatim text of a text-bearing node.
    pub value: Option<StrRef>,
    /// Children of a parent node, in document order.
    pub children: NodeRange,
}

impl TxtNode {
    /// A node that bears children.
    pub fn new_parent(node_type: NodeType, span: Span, children: NodeRange) -> (n: TxtNode)
        ensures
            n == (TxtNode { node_type, span, data: NodeData::none(), value: None, children }),
    {
        TxtNode { node_type, span, data: NodeData::new(), value: None, children }
    }

    /// A node that bears text.
    pub fn new_text(node_type: NodeType, span: Span, value: StrRef) -> (n: TxtNode)
        ensures
            n == (TxtNode {
                node_type,
                span,
                data: NodeData::none(),
                value: Some(value),
                children: NodeRange { start: 0, end: 0 },
            }),
    {
        TxtNode {
            node_type,
            span,
            data: NodeData::new(),
            value: Some(value),
            children: NodeRange::empty(),
        }
    }

    /// A node that bears neither text nor children.
    pub fn new_leaf(node_type: NodeType, span: Span) -> (n: TxtNode)
        ensures
            n == (TxtNode {
                node_type,
                span,
                data: NodeData::none(),
                value: None,
                children: NodeRange { start: 0, end: 0 },
            }),
    {
        TxtNode { node_type, span, data: NodeData::new(), value: None, children: NodeRange::empty() }
    }

    pub fn has_children(&self) -> (b: bool)
        ensures
            b == (self.children.start < self.children.end),
    {
        self.children.start < self.children.end
    }

    pub fn is_text(&self) -> (b: bool)
        ensures
            b == (self.value is Some),
    {
        self.value.is_some()
    }
}

/// The handle, if any, is that of one of the first `count` strings.
pub open spec fn str_fits(r: Option<StrRef>, count: nat) -> bool {
    match r {
        Some(s) => s.index < count,
        None => true,
    }
}

/// Every handle of the node is a handle into an arena with `nodes` nodes
/// and `strings` strings.
pub open spec fn fits_in(node: TxtNode, nodes: nat, strings: nat) -> bool {
    &&& node.children.start <= node.children.end <= nodes
    &&& str_fits(node.value, strings)
    &&& str_fits(node.data.lang, strings)
    &&& str_fits(node.data.url, strings)
    &&& str_fits(node.data.title, strings)
    &&& str_fits(node.data.identifier, strings)
    &&& str_fits(node.data.label, strings)
}

/// The text behind an optional handle; the empty text for a handle that is
/// not among the strings.
pub open spec fn text_at(strings: Seq<String>, r: Option<StrRef>) -> Option<Seq<char>> {
    match r {
        Some(s) => if s.index < strings.len() {
            Some(strings[s.index as int]@)
        } else {
            Some(Seq::empty())
        },
        None => None,
    }
}

/// The attributes of a node with their texts.
pub open spec fn data_in(strings: Seq<String>, data: NodeData) -> DataView {
    DataView {
        depth: data.depth,
        ordered: data.ordered,
        lang: text_at(strings, data.lang),
        url: text_at(strings, data.url),
        title: text_at(strings, data.title),
        identifier: text_at(strings, data.identifier),
        label: text_at(strings, data.label),
    }
}

/// The tree of a node: the node with its texts and, below it, the trees of
/// its children.
pub open spec fn tree_in(nodes: Seq<TxtNode>, strings: Seq<String>, node: TxtNode) -> TxtTree
    decreases node.children.end, 1nat,
{
    TxtTree {
        node_type: node.node_type,
        span: node.span,
        data: data_in(strings, node.data),
        value: text_at(strings, node.value),
        children: trees_in(nodes, strings, node.children.start as int, node.children.end as int),
    }
}

/// The trees of the nodes at the places from `lo` up to `hi`.  A node whose
/// children are not at earlier places than the node itself counts as a
/// node without children; in an arena there is no such node.
pub open spec fn trees_in(nodes: Seq<TxtNode>, strings: Seq<String>, lo: int, hi: int) -> Seq<
    TxtTree,
>
    decreases hi, 0nat,
{
    if hi <= lo || lo < 0 || hi > nodes.len() {
        Seq::empty()
    } else {
        let child = nodes[hi - 1];
        trees_in(nodes, strings, lo, hi - 1).push(
            if child.children.end < hi {
                tree_in(nodes, strings, child)
            } else {
                TxtTree {
                    node_type: child.node_type,
                    span: child.span,
                    data: data_in(strings, child.data),
                    value: text_at(strings, child.value),
                    children: Seq::empty(),
                }
            },
        )
    }
}

/// Every node at a place has its children at earlier places and its
/// strings among the strings.
pub open spec fn well_founded(nodes: Seq<TxtNode>, strings: Seq<String>) -> bool {
    forall|i: int| 0 <= i < nodes.len() ==> fits_in(#[trigger] nodes[i], i as nat, strings.len())
}

/// `a` begins with `b`.
pub open spec fn begins_with<T>(a: Seq<T>, b: Seq<T>) -> bool {
    b.len() <= a.len() && a.subrange(0, b.len() as int) == b
}

/// There is one tree for each place, that of the node at the place.
pub proof fn lemma_trees_in(nodes: Seq<TxtNode>, strings: Seq<String>, lo: int, hi: int)
    requires
        well_founded(nodes, strings),
        0 <= lo <= hi <= nodes.len(),
    ensures
        trees_in(nodes, strings, lo, hi).len() == hi - lo,
        forall|k: int|
            0 <= k < hi - lo ==> (#[trigger] trees_in(nodes, strings, lo, hi)[k]) == tree_in(
                nodes,
                strings,
                nodes[lo + k],
            ),
    decreases hi - lo,
{
    if hi > lo {
        lemma_trees_in(nodes, strings, lo, hi - 1);
        let child = nodes[hi - 1];
        assert(fits_in(child, (hi - 1) as nat, strings.len()));
        assert(trees_in(nodes, strings, lo, hi) == trees_in(nodes, strings, lo, hi - 1).push(
            tree_in(nodes, strings, child),
        ));
    }
}

/// Allocations never move: the tree of a node is the same in every arena
/// that begins with the arena in which the node was made.
pub proof fn lemma_tree_stays(
    nodes: Seq<TxtNode>,
    strings: Seq<String>,
    more_nodes: Seq<TxtNode>,
    more_strings: Seq<String>,
    node: TxtNode,
)
    requires
        well_founded(nodes, strings),
        fits_in(node, nodes.len(), strings.len()),
        begins_with(more_nodes, nodes),
        begins_with(more_strings, strings),
    ensures
        tree_in(more_nodes, more_strings, node) == tree_in(nodes, strings, node),
    decreases node.children.end, 1nat,
{
    lemma_trees_stay(
        nodes,
        strings,
        more_nodes,
        more_strings,
        node.children.start as int,
        node.children.end as int,
    );
    lemma_texts_stay(strings, more_strings, node);
}

/// The texts of a node are the same in every list of strings that begins
/// with the strings in which the node was made.
pub proof fn lemma_texts_stay(strings: Seq<String>, more_strings: Seq<String>, node: TxtNode)
    requires
        fits_in(node, node.children.end as nat, strings.len()),
        begins_with(more_strings, strings),
    ensures
        text_at(more_strings, node.value) == text_at(strings, node.value),
        data_in(more_strings, node.data) == data_in(strings, node.data),
{
    assert forall|i: int| 0 <= i < strings.len() implies more_strings[i] == strings[i] by {
        assert(more_strings.subrange(0, strings.len() as int)[i] == strings[i]);
    }
}

/// The trees of a range of nodes are the same in every arena that begins
/// with the arena in which the nodes were made.
pub proof fn lemma_trees_stay(
    nodes: Seq<TxtNode>,
    strings: Seq<String>,
    more_nodes: Seq<TxtNode>,
    more_strings: Seq<String>,
    lo: int,
    hi: int,
)
    requires
        well_founded(nodes, strings),
        0 <= lo <= hi <= nodes.len(),
        begins_with(more_nodes, nodes),
        begins_with(more_strings, strings),
    ensures
        trees_in(more_nodes, more_strings, lo, hi) == trees_in(nodes, strings, lo, hi),
    decreases hi, 0nat,
{
    if hi > lo {
        let child = nodes[hi - 1];
        assert(more_nodes.subrange(0, nodes.len() as int)[hi - 1] == child);
        assert(more_nodes[hi - 1] == child);
        assert(fits_in(child, (hi - 1) as nat, strings.len()));
        lemma_trees_stay(nodes, strings, more_nodes, more_strings, lo, hi - 1);
        lemma_tree_stays(nodes, strings, more_nodes, more_strings, child);
    }
}

/// The arena of one parse.
#[derive(Debug)]
pub struct AstArena {
    nodes: Vec<TxtNode>,
    strings: Vec<String>,
}

impl AstArena {
    /// The nodes of the arena, in the order of their allocation.
    pub closed spec fn nodes(&self) -> Seq<TxtNode> {
        self.nodes@
    }

    /// The strings of the arena, in the order of their allocation.
    pub closed spec fn strings(&self) -> Seq<String> {
        self.strings@
    }

    /// The arena is in order: every node in it has its children at
    /// earlier places of the arena and its strings in the arena.
    pub open spec fn wf(&self) -> bool {
        well_founded(self.nodes(), self.strings())
    }

    /// The node's handles are handles into this arena.
    pub open spec fn holds(&self, node: TxtNode) -> bool {
        fits_in(node, self.nodes().len(), self.strings().len())
    }

    /// The tree of a node of this arena.
    pub open spec fn tree(&self, node: TxtNode) -> TxtTree {
        tree_in(self.nodes(), self.strings(), node)
    }

    /// This arena has grown out of `old`: what `old` held, it holds at
    /// the same places.
    pub open spec fn extends(&self, old: &AstArena) -> bool {
        begins_with(self.nodes(), old.nodes()) && begins_with(self.strings(), old.strings())
    }

    /// Nothing has moved since `old`: every node of `old` is a node of
    /// this arena with the same tree, and every string of `old` is a
    /// string of this arena with the same text.
    pub open spec fn keeps(&self, old: &AstArena) -> bool {
        &&& forall|n: TxtNode| #[trigger]
            old.holds(n) ==> self.holds(n) && self.tree(n) == old.tree(n)
        &&& forall|q: Option<StrRef>|
            str_fits(q, old.strings().len()) ==> #[trigger] text_at(self.strings(), q) == text_at(
                old.strings(),
                q,
            )
    }

    /// Allocations never move: an arena that has grown out of another
    /// keeps every node and every string of it, with the same tree and the
    /// same text.
    pub proof fn lemma_keeps(&self, old: &AstArena)
        requires
            old.wf(),
            self.extends(old),
        ensures
            self.keeps(old),
    {
        assert forall|n: TxtNode| #[trigger] old.holds(n) implies self.holds(n) && self.tree(n)
            == old.tree(n) by {
            lemma_tree_stays(old.nodes(), old.strings(), self.nodes(), self.strings(), n);
        }
        assert forall|q: Option<StrRef>|
            str_fits(q, old.strings().len()) implies #[trigger] text_at(self.strings(), q)
            == text_at(old.strings(), q) by {
            if let Some(r) = q {
                assert(self.strings().subrange(0, old.strings().len() as int)[r.index as int]
                    == old.strings()[r.index as int]);
            }
        }
    }

    /// Growing is transitive: what has grown out of an arena that has
    /// grown out of `old` has grown out of `old`.
    pub proof fn lemma_extends_further(&self, mid: &AstArena, old: &AstArena)
        requires
            self.extends(mid),
            mid.extends(old),
        ensures
            self.extends(old),
    {
        assert(self.nodes().subrange(0, old.nodes().len() as int) =~= self.nodes().subrange(
            0,
            mid.nodes().len() as int,
        ).subrange(0, old.nodes().len() as int));
        assert(self.strings().subrange(0, old.strings().len() as int)
            =~= self.strings().subrange(0, mid.strings().len() as int).subrange(
            0,
            old.strings().len() as int,
        ));
    }

    /// Every arena has grown out of itself.
    pub proof fn lemma_extends_itself(&self)
        ensures
            self.extends(self),
    {
        assert(self.nodes().subrange(0, self.nodes().len() as int) =~= self.nodes());
        assert(self.strings().subrange(0, self.strings().len() as int) =~= self.strings());
    }

    /// The places of the children of a node: those of its handle, or none
    /// for a handle that is not of this arena.
    pub open spec fn child_count(&self, node: TxtNode) -> int {
        if node.children.start <= node.children.end <= self.nodes().len() {
            node.children.end - node.children.start
        } else {
            0
        }
    }

    /// The children of a node, as trees: one for each child, that of the
    /// node at the child's place, which is a node of the arena with its
    /// own children at earlier places.
    pub proof fn lemma_children(&self, node: TxtNode)
        requires
            self.wf(),
        ensures
            self.tree(node).children.len() == self.child_count(node),
            forall|k: int|
                0 <= k < self.child_count(node) ==> (#[trigger] self.tree(node).children[k])
                    == self.tree(self.nodes()[node.children.start + k]) && self.holds(
                    self.nodes()[node.children.start + k],
                ) && self.nodes()[node.children.start + k].children.end < node.children.end,
    {
        if node.children.start <= node.children.end <= self.nodes().len() {
            lemma_trees_in(
                self.nodes(),
                self.strings(),
                node.children.start as int,
                node.children.end as int,
            );
        }
    }

    /// An empty arena.
    pub fn new() -> (arena: AstArena)
        ensures
            arena.wf(),
            arena.nodes().len() == 0,
            arena.strings().len() == 0,
    {
        AstArena { nodes: Vec::new(), strings: Vec::new() }
    }

    /// Copies a string into the arena.
    pub fn alloc_str(&mut self, s: &str) -> (r: StrRef)
        requires
            old(self).wf(),
        ensures
            final(self).wf(),
            final(self).extends(old(self)),
            final(self).nodes() == old(self).nodes(),
            final(self).strings().len() == old(self).strings().len() + 1,
            r.index == old(self).strings().len(),
            text_at(final(self).strings(), Some(r)) == Some(s@),
    {
        let index = self.strings.len();
        self.strings.push(String::from_str(s));
        proof {
            assert(self.strings@.subrange(0, index as int) =~= old(self).strings@);
            assert(self.nodes@.subrange(0, self.nodes@.len() as int) =~= self.nodes@);
        }
        StrRef { index }
    }

    /// Copies a sequence of nodes into the arena, in order.
    pub fn alloc_slice_clone(&mut self, nodes: &[TxtNode]) -> (r: NodeRange)
        requires
            old(self).wf(),
            forall|k: int| 0 <= k < nodes@.len() ==> old(self).holds(#[trigger] nodes@[k]),
        ensures
            final(self).wf(),
            final(self).extends(old(self)),
            final(self).strings() == old(self).strings(),
            final(self).nodes() == old(self).nodes() + nodes@,
            r.start == old(self).nodes().len(),
            r.end == old(self).nodes().len() + nodes@.len(),
    {
        let start = self.nodes.len();
        let mut i: usize = 0;
        while i < nodes.len()
            invariant
                i <= nodes.len(),
                start == old(self).nodes@.len(),
                self.strings@ == old(self).strings@,
                self.nodes@ == old(self).nodes@ + nodes@.take(i as int),
                well_founded(old(self).nodes@, old(self).strings@),
                forall|k: int|
                    0 <= k < nodes@.len() ==> fits_in(
                        #[trigger] nodes@[k],
                        old(self).nodes@.len(),
                        old(self).strings@.len(),
                    ),
            decreases nodes.len() - i,
        {
            self.nodes.push(nodes[i]);
            assert(nodes@.take(i + 1) =~= nodes@.take(i as int).push(nodes@[i as int]));
            assert(self.nodes@ =~= old(self).nodes@ + nodes@.take(i + 1));
            i += 1;
        }
        proof {
            assert(nodes@.take(i as int) =~= nodes@);
            assert(self.nodes@.subrange(0, start as int) =~= old(self).nodes@);
            assert(self.strings@.subrange(0, self.strings@.len() as int) =~= self.strings@);
            assert forall|j: int| 0 <= j < self.nodes@.len() implies fits_in(
                #[trigger] self.nodes@[j],
                j as nat,
                self.strings@.len(),
            ) by {
                if j < start {
                    assert(self.nodes@[j] == old(self).nodes@[j]);
                } else {
                    assert(self.nodes@[j] == nodes@[j - start]);
                }
            }
        }
        NodeRange { start, end: self.nodes.len() }
    }

    /// Puts a node into the arena; the handle is that of the one node.
    pub fn alloc_node(&mut self, node: TxtNode) -> (r: NodeRange)
        requires
            old(self).wf(),
            old(self).holds(node),
        ensures
            final(self).wf(),
            final(self).extends(old(self)),
            final(self).strings() == old(self).strings(),
            final(self).nodes() == old(self).nodes().push(node),
            r.start == old(self).nodes().len(),
            r.end == old(self).nodes().len() + 1,
    {
        let start = self.nodes.len();
        self.nodes.push(node);
        proof {
            assert(self.nodes@.subrange(0, start as int) =~= old(self).nodes@);
            assert(self.strings@.subrange(0, self.strings@.len() as int) =~= self.strings@);
            assert forall|j: int| 0 <= j < self.nodes@.len() implies fits_in(
                #[trigger] self.nodes@[j],
                j as nat,
                self.strings@.len(),
            ) by {
                if j < start {
                    assert(self.nodes@[j] == old(self).nodes@[j]);
                }
            }
        }
        NodeRange { start, end: self.nodes.len() }
    }

    /// The text behind a handle; the empty text for a handle that is not
    /// of this arena.
    pub fn text(&self, r: StrRef) -> (s: &str)
        ensures
            Some(s@) == text_at(self.strings(), Some(r)),
    {
        if r.index < self.strings.len() {
            self.strings[r.index].as_str()
        } else {
            proof {
                reveal_strlit("");
            }
            assert(""@ =~= Seq::<char>::empty());
            ""
        }
    }

    /// The text behind an optional handle.
    pub fn text_of(&self, r: Option<StrRef>) -> (s: Option<&str>)
        ensures
            match s {
                Some(text) => Some(text@) == text_at(self.strings(), r),
                None => r is None,
            },
    {
        match r {
            Some(handle) => Some(self.text(handle)),
            None => None,
        }
    }

    /// The children of a node; none for a handle that is not of this
    /// arena.
    pub fn children(&self, node: &TxtNode) -> (list: &[TxtNode])
        ensures
            list@ == if node.children.start <= node.children.end <= self.nodes().len() {
                self.nodes().subrange(node.children.start as int, node.children.end as int)
            } else {
                Seq::empty()
            },
    {
        if node.children.start <= node.children.end && node.children.end <= self.nodes.len() {
            slice_subrange(self.nodes.as_slice(), node.children.start, node.children.end)
        } else {
            slice_subrange(self.nodes.as_slice(), 0, 0)
        }
    }
}

} // verus!
