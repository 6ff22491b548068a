//! The view of the prose tree that rules receive: JSON text.
//!
//! Every node is an object with the members `type`, `range` and `children`
//! in this order, followed by those of `value`, `depth`, `ordered`, `url`,
//! `title`, `lang`, `identifier` and `label` that the node has.

use crate::ast::{data_in, text_at, AstArena, DataView, StrRef, TxtNode, TxtTree};
use crate::json::{bool_text, decimal_text, json_string, push_bool, push_decimal, push_quoted};
use vstd::prelude::*;
use vstd::string::*;

verus! {

/// A member with a string value, led by a comma; nothing where the value
/// is absent.  `key` is the text from the comma to the colon.
pub open spec fn text_member(key: Seq<char>, value: Option<Seq<char>>) -> Seq<char> {
    match value {
        Some(text) => key + json_string(text),
        None => Seq::empty(),
    }
}

/// The member `depth`, or nothing.
pub open spec fn depth_member(depth: Option<u8>) -> Seq<char> {
    match depth {
        Some(d) => ",\"depth\":"@ + decimal_text(d as nat),
        None => Seq::empty(),
    }
}

/// The member `ordered`, or nothing.
pub open spec fn ordered_member(ordered: Option<bool>) -> Seq<char> {
    match ordered {
        Some(b) => ",\"ordered\":"@ + bool_text(b),
        None => Seq::empty(),
    }
}

/// The members of a node's text and attributes.
pub open spec fn attribute_members(value: Option<Seq<char>>, data: DataView) -> Seq<char> {
    text_member(",\"value\":"@, value) + depth_member(data.depth) + ordered_member(data.ordered)
        + text_member(",\"url\":"@, data.url) + text_member(",\"title\":"@, data.title)
        + text_member(",\"lang\":"@, data.lang) + text_member(",\"identifier\":"@, data.identifier)
        + text_member(",\"label\":"@, data.label)
}

/// The JSON object of a tree.
pub open spec fn node_json(t: TxtTree) -> Seq<char>
    decreases t,
{
    "{\"type\":"@ + json_string(t.node_type.name_spec()) + ",\"range\":["@ + decimal_text(
        t.span.start as nat,
    ) + ","@ + decimal_text(t.span.end as nat) + "],\"children\":["@ + nodes_json(t.children)
        + "]"@ + attribute_members(t.value, t.data) + "}"@
}

/// The JSON objects of a sequence of trees, separated by commas.
pub open spec fn nodes_json(ts: Seq<TxtTree>) -> Seq<char>
    decreases ts,
{
    if ts.len() == 0 {
        Seq::empty()
    } else if ts.len() == 1 {
        node_json(ts[0])
    } else {
        nodes_json(ts.drop_last()) + ","@ + node_json(ts.last())
    }
}

/// Appends a member with a string value, if there is a value.
pub fn push_text_member(out: &mut String, arena: &AstArena, key: &str, value: Option<StrRef>)
    ensures
        final(out)@ == old(out)@ + text_member(key@, text_at(arena.strings(), value)),
{
    match value {
        Some(r) => {
            out.append(key);
            let text = arena.text(r);
            push_quoted(out, text);
            assert(out@ =~= old(out)@ + (key@ + json_string(text@)));
        },
        None => {
            assert(out@ =~= old(out)@ + Seq::<char>::empty());
        },
    }
}

/// Appends the members of a node's text and attributes.
pub fn push_attributes(out: &mut String, arena: &AstArena, node: &TxtNode)
    ensures
        final(out)@ == old(out)@ + attribute_members(
            text_at(arena.strings(), node.value),
            data_in(arena.strings(), node.data),
        ),
{
    let ghost start = out@;
    let ghost data = data_in(arena.strings(), node.data);
    let ghost value = text_at(arena.strings(), node.value);
    push_text_member(out, arena, ",\"value\":", node.value);
    let ghost m1 = text_member(",\"value\":"@, value);
    assert(out@ == start + m1);
    let ghost at1 = out@;
    match node.data.depth {
        Some(d) => {
            out.append(",\"depth\":");
            push_decimal(out, d as u64);
            assert(out@ =~= at1 + depth_member(data.depth));
        },
        None => {
            assert(out@ =~= at1 + depth_member(data.depth));
        },
    }
    let ghost m2 = m1 + depth_member(data.depth);
    assert(out@ =~= start + m2);
    let ghost at2 = out@;
    match node.data.ordered {
        Some(b) => {
            out.append(",\"ordered\":");
            push_bool(out, b);
            assert(out@ =~= at2 + ordered_member(data.ordered));
        },
        None => {
            assert(out@ =~= at2 + ordered_member(data.ordered));
        },
    }
    let ghost m3 = m2 + ordered_member(data.ordered);
    assert(out@ =~= start + m3);
    push_text_member(out, arena, ",\"url\":", node.data.url);
    let ghost m4 = m3 + text_member(",\"url\":"@, data.url);
    assert(out@ =~= start + m4);
    push_text_member(out, arena, ",\"title\":", node.data.title);
    let ghost m5 = m4 + text_member(",\"title\":"@, data.title);
    assert(out@ =~= start + m5);
    push_text_member(out, arena, ",\"lang\":", node.data.lang);
    let ghost m6 = m5 + text_member(",\"lang\":"@, data.lang);
    assert(out@ =~= start + m6);
    push_text_member(out, arena, ",\"identifier\":", node.data.identifier);
    let ghost m7 = m6 + text_member(",\"identifier\":"@, data.identifier);
    assert(out@ =~= start + m7);
    push_text_member(out, arena, ",\"label\":", node.data.label);
    let ghost m8 = m7 + text_member(",\"label\":"@, data.label);
    assert(out@ =~= start + m8);
    assert(m8 == attribute_members(value, data));
}

/// Appends the JSON objects of the children of a node of the arena,
/// separated by commas.
pub fn push_children(out: &mut String, arena: &AstArena, node: &TxtNode)
    requires
        arena.wf(),
    ensures
        final(out)@ == old(out)@ + nodes_json(arena.tree(*node).children),
    decreases node.children.end, 0nat,
{
    let ghost below = arena.tree(*node).children;
    let ghost head = out@;
    proof {
        arena.lemma_children(*node);
    }
    let kids = arena.children(node);
    let mut i: usize = 0;
    assert(below.take(0) =~= Seq::empty());
    assert(out@ =~= head + nodes_json(below.take(0)));
    while i < kids.len()
        invariant
            i <= kids.len(),
            arena.wf(),
            below.len() == kids@.len(),
            forall|k: int|
                0 <= k < below.len() ==> (#[trigger] below[k]) == arena.tree(kids@[k])
                    && arena.holds(kids@[k]) && kids@[k].children.end < node.children.end,
            out@ == head + nodes_json(below.take(i as int)),
        decreases kids.len() - i,
    {
        let ghost so_far = out@;
        if i > 0 {
            out.append(",");
        }
        let ghost lead = out@;
        assert(below[i as int] == arena.tree(kids@[i as int]));
        push_node(out, arena, &kids[i]);
        proof {
            let next = below.take(i + 1);
            let item = node_json(below[i as int]);
            assert(out@ == lead + item);
            assert(next.drop_last() =~= below.take(i as int));
            assert(next.last() == below[i as int]);
            if i == 0 {
                assert(nodes_json(next) == item);
                assert(nodes_json(below.take(0)) =~= Seq::empty());
                assert(out@ =~= head + nodes_json(next));
            } else {
                assert(nodes_json(next) == nodes_json(below.take(i as int)) + ","@ + item);
                assert(lead == so_far + ","@);
                assert(out@ =~= head + nodes_json(next));
            }
        }
        i += 1;
    }
    assert(below.take(i as int) =~= below);
}

/// Appends the JSON object of a node of the arena.
pub fn push_node(out: &mut String, arena: &AstArena, node: &TxtNode)
    requires
        arena.wf(),
    ensures
        final(out)@ == old(out)@ + node_json(arena.tree(*node)),
    decreases node.children.end, 1nat,
{
    let ghost t = arena.tree(*node);
    let ghost start = out@;
    out.append("{\"type\":");
    push_quoted(out, node.node_type.name());
    let ghost p1 = "{\"type\":"@ + json_string(t.node_type.name_spec());
    assert(out@ =~= start + p1);
    out.append(",\"range\":[");
    push_decimal(out, node.span.start as u64);
    let ghost p2 = p1 + ",\"range\":["@ + decimal_text(t.span.start as nat);
    assert(out@ =~= start + p2);
    out.append(",");
    push_decimal(out, node.span.end as u64);
    let ghost p3 = p2 + ","@ + decimal_text(t.span.end as nat);
    assert(out@ =~= start + p3);
    out.append("],\"children\":[");
    push_children(out, arena, node);
    let ghost p4 = p3 + "],\"children\":["@ + nodes_json(t.children);
    assert(out@ =~= start + p4);
    out.append("]");
    push_attributes(out, arena, node);
    let ghost p5 = p4 + "]"@ + attribute_members(t.value, t.data);
    assert(out@ =~= start + p5);
    out.append("}");
    assert(out@ =~= start + (p5 + "}"@));
    assert(p5 + "}"@ == node_json(t));
}

/// The view of a tree for the rules.
pub fn ast_to_json(arena: &AstArena, node: &TxtNode) -> (text: String)
    requires
        arena.wf(),
    ensures
        text@ == node_json(arena.tree(*node)),
{
    let mut out = String::new();
    push_node(&mut out, arena, node);
    assert(out@ =~= node_json(arena.tree(*node)));
    out
}

} // verus!
