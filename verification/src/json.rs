//! JSON text: string literals and values by `serde_json`, decimal numbers
//! and the joining of parts by this crate.

use crate::order::{compare, text_seq, Order};
use crate::table::{lemma_pair_absent, lemma_pair_first, opt_text, pair_lookup};
use vstd::prelude::*;
use vstd::string::*;

verus! {

/// A JSON value of `serde_json`.  Its content is opaque; what the crate
/// needs of it is its text.
#[verifier::external_type_specification]
#[verifier::external_body]
pub struct ExJsonValue(serde_json::Value);

/// What a JSON value holds.  Of a number the tree keeps its value where
/// `serde_json` holds it as an unsigned integer, and nothing else.
pub enum JsonTree {
    Null,
    Bool(bool),
    Number(Option<u64>),
    Text(Seq<char>),
    Array(Seq<JsonTree>),
    /// The members of an object, in the order in which the value hands
    /// them out.
    Object(Seq<(Seq<char>, JsonTree)>),
}

/// The content of a value.
pub uninterp spec fn json_tree(value: serde_json::Value) -> JsonTree;

/// The compact JSON text of a value, as `serde_json::to_string` writes it.
pub uninterp spec fn json_text(value: serde_json::Value) -> Seq<char>;

/// The content of the value that `serde_json::from_str` reads from a text,
/// or the text of its error.
pub uninterp spec fn parsed_json(text: Seq<char>) -> Result<JsonTree, Seq<char>>;

/// The contents of a sequence of values, in order.
pub open spec fn json_trees(values: Seq<serde_json::Value>) -> Seq<JsonTree> {
    Seq::new(values.len(), |i: int| json_tree(values[i]))
}

/// The names and contents of a sequence of members, in order.
pub open spec fn member_trees(members: Seq<(&String, &serde_json::Value)>) -> Seq<
    (Seq<char>, JsonTree),
> {
    Seq::new(members.len(), |i: int| (members[i].0@, json_tree(*members[i].1)))
}

/// Calls `serde_json::from_str` for a `Value`.  Trusted: the call is a
/// function of the text alone; the content of its value, or the text of
/// its error, is what `parsed_json` names.
#[verifier::external_body]
pub(crate) fn json_parse(text: &str) -> (r: Result<serde_json::Value, String>)
    ensures
        match r {
            Ok(value) => parsed_json(text@) == Ok::<JsonTree, Seq<char>>(json_tree(value)),
            Err(message) => parsed_json(text@) == Err::<JsonTree, Seq<char>>(message@),
        },
{
    serde_json::from_str::<serde_json::Value>(text).map_err(|e| e.to_string())
}

/// Calls `Value::as_bool`.  Trusted: the result is the truth value of a
/// boolean, and `None` for every other value.
#[verifier::external_body]
pub(crate) fn value_bool(value: &serde_json::Value) -> (r: Option<bool>)
    ensures
        r == match json_tree(*value) {
            JsonTree::Bool(b) => Some(b),
            _ => None,
        },
{
    value.as_bool()
}

/// Calls `Value::is_null`.  Trusted: the result says whether the value is
/// `null`.
#[verifier::external_body]
pub(crate) fn value_is_null(value: &serde_json::Value) -> (r: bool)
    ensures
        r == (json_tree(*value) is Null),
{
    value.is_null()
}

/// Calls `Value::as_u64`.  Trusted: the result is the number where the
/// value is a number held as an unsigned integer, and `None` for every
/// other value.
#[verifier::external_body]
pub(crate) fn value_u64(value: &serde_json::Value) -> (r: Option<u64>)
    ensures
        r == match json_tree(*value) {
            JsonTree::Number(n) => n,
            _ => None,
        },
{
    value.as_u64()
}

/// Calls `Value::as_str`.  Trusted: the result is the text of a string,
/// and `None` for every other value.
#[verifier::external_body]
pub(crate) fn value_str(value: &serde_json::Value) -> (r: Option<&str>)
    ensures
        match r {
            Some(text) => json_tree(*value) == JsonTree::Text(text@),
            None => !(json_tree(*value) is Text),
        },
{
    value.as_str()
}

/// Calls `Value::as_array`.  Trusted: the result is the items of an
/// array, and `None` for every other value.
#[verifier::external_body]
pub(crate) fn value_items(value: &serde_json::Value) -> (r: Option<&Vec<serde_json::Value>>)
    ensures
        match r {
            Some(items) => json_tree(*value) == JsonTree::Array(json_trees(items@)),
            None => !(json_tree(*value) is Array),
        },
{
    value.as_array()
}

/// No name stands twice among the members.
pub open spec fn distinct_names(members: Seq<(Seq<char>, JsonTree)>) -> bool {
    forall|i: int, j: int|
        0 <= i < j < members.len() ==> (#[trigger] members[i]).0 != (#[trigger] members[j]).0
}

/// Calls `Value::as_object` and collects what `Map::iter` hands out.
/// Trusted: the result is the members of an object, and `None` for every
/// other value; the object is a map, so no name stands twice.
#[verifier::external_body]
pub(crate) fn value_members(value: &serde_json::Value) -> (r: Option<
    Vec<(&String, &serde_json::Value)>,
>)
    ensures
        match r {
            Some(members) => json_tree(*value) == JsonTree::Object(member_trees(members@))
                && distinct_names(member_trees(members@)),
            None => !(json_tree(*value) is Object),
        },
{
    value.as_object().map(|m| m.iter().collect())
}

/// The JSON string literal of a text, quotes and escapes included, as
/// `serde_json::to_string` writes it.
pub uninterp spec fn json_string(text: Seq<char>) -> Seq<char>;

/// Calls `serde_json::to_string` on a value.  Trusted: the result is the
/// value's compact text.  The call cannot fail on a `Value`, whose object
/// keys are strings.
#[verifier::external_body]
pub(crate) fn value_text(value: &serde_json::Value) -> (r: String)
    ensures
        r@ == json_text(*value),
{
    serde_json::to_string(value).unwrap_or_default()
}

/// `Clone::clone` on a value.  Trusted: the copy has the content and the
/// text of the source.
pub assume_specification[ <serde_json::Value as Clone>::clone ](value: &serde_json::Value) -> (r:
    serde_json::Value)
    ensures
        json_tree(r) == json_tree(*value),
        json_text(r) == json_text(*value),
;

/// Makes `serde_json::Value::Null`.  Trusted: its text is `null`.
#[verifier::external_body]
pub(crate) fn null_value() -> (r: serde_json::Value)
    ensures
        json_text(r) == "null"@,
{
    serde_json::Value::Null
}

/// Calls `serde_json::to_string` on a string.  Trusted: the result is the
/// string's JSON literal.  The call cannot fail on a string.
#[verifier::external_body]
pub(crate) fn quote(text: &str) -> (r: String)
    ensures
        r@ == json_string(text@),
{
    serde_json::to_string(text).unwrap_or_default()
}

/// The first member under `key`.
pub fn find_member<'a>(members: &Vec<(&'a String, &'a serde_json::Value)>, key: &str) -> (r:
    Option<&'a serde_json::Value>)
    ensures
        match r {
            Some(value) => pair_lookup(member_trees(members@), key@) == Some(json_tree(*value)),
            None => pair_lookup(member_trees(members@), key@) is None,
        },
{
    let ghost trees = member_trees(members@);
    let mut i: usize = 0;
    while i < members.len()
        invariant
            i <= members.len(),
            trees == member_trees(members@),
            forall|j: int| 0 <= j < i ==> (#[trigger] trees[j]).0 != key@,
        decreases members.len() - i,
    {
        if compare(members[i].0.as_str(), key) == Order::Equal {
            proof {
                assert(trees[i as int].0 == key@);
                lemma_pair_first(trees, key@, i as int);
            }
            return Some(members[i].1);
        }
        assert(trees[i as int].0 == members@[i as int].0@);
        i += 1;
    }
    proof {
        lemma_pair_absent(trees, key@);
    }
    None
}

/// The content of an optional value.
pub open spec fn opt_tree(field: Option<&serde_json::Value>) -> Option<JsonTree> {
    match field {
        Some(value) => Some(json_tree(*value)),
        None => None,
    }
}

/// The text of a member that must be a string; `None` where the member is
/// absent or no string.
pub open spec fn text_of(field: Option<JsonTree>) -> Option<Seq<char>> {
    match field {
        Some(JsonTree::Text(text)) => Some(text),
        _ => None,
    }
}

/// `list` is what a member that lists strings stands for: the empty list
/// where the member is absent, else the strings of the array.
pub open spec fn strings_from(field: Option<JsonTree>, list: Seq<Seq<char>>) -> bool {
    match field {
        None => list.len() == 0,
        Some(JsonTree::Array(items)) => {
            &&& list.len() == items.len()
            &&& forall|i: int| 0 <= i < items.len() ==> (#[trigger] items[i]) == JsonTree::Text(
                list[i],
            )
        },
        Some(_) => false,
    }
}

/// The member is absent or an array of strings.
pub open spec fn is_strings(field: Option<JsonTree>) -> bool {
    match field {
        None => true,
        Some(JsonTree::Array(items)) => forall|i: int|
            0 <= i < items.len() ==> (#[trigger] items[i]) is Text,
        Some(_) => false,
    }
}

/// The text of a member that must be a string.
pub fn read_text(field: Option<&serde_json::Value>) -> (r: Option<String>)
    ensures
        opt_text(r) == text_of(opt_tree(field)),
{
    match field {
        Some(value) => match value_str(value) {
            Some(text) => Some(String::from_str(text)),
            None => None,
        },
        None => None,
    }
}

/// The strings of a member that lists strings; `None` where the member
/// is no array of strings.
pub fn read_strings(field: Option<&serde_json::Value>) -> (r: Option<Vec<String>>)
    ensures
        match r {
            Some(list) => strings_from(opt_tree(field), text_seq(list@)),
            None => !is_strings(opt_tree(field)),
        },
{
    let mut list: Vec<String> = Vec::new();
    match field {
        None => Some(list),
        Some(value) => match value_items(value) {
            None => None,
            Some(items) => {
                let ghost trees = json_trees(items@);
                let mut i: usize = 0;
                while i < items.len()
                    invariant
                        i <= items.len(),
                        trees == json_trees(items@),
                        opt_tree(field) == Some(JsonTree::Array(trees)),
                        list@.len() == i,
                        forall|j: int|
                            0 <= j < i ==> (#[trigger] trees[j]) == JsonTree::Text(list@[j]@),
                    decreases items.len() - i,
                {
                    assert(trees[i as int] == json_tree(items@[i as int]));
                    match value_str(&items[i]) {
                        Some(text) => list.push(String::from_str(text)),
                        None => {
                            assert(!(trees[i as int] is Text));
                            return None;
                        },
                    }
                    i += 1;
                }
                assert forall|j: int| 0 <= j < trees.len() implies (#[trigger] trees[j])
                    == JsonTree::Text(text_seq(list@)[j]) by {
                    assert(trees[j] == JsonTree::Text(list@[j]@));
                }
                Some(list)
            },
        },
    }
}


/// The character of a decimal digit; that of nine for a larger number.
pub open spec fn digit_char(d: nat) -> char {
    if d == 0 {
        '0'
    } else if d == 1 {
        '1'
    } else if d == 2 {
        '2'
    } else if d == 3 {
        '3'
    } else if d == 4 {
        '4'
    } else if d == 5 {
        '5'
    } else if d == 6 {
        '6'
    } else if d == 7 {
        '7'
    } else if d == 8 {
        '8'
    } else {
        '9'
    }
}

/// The decimal numeral of a number, without leading zeros.
pub open spec fn decimal_text(n: nat) -> Seq<char>
    decreases n,
{
    if n < 10 {
        seq![digit_char(n)]
    } else {
        decimal_text(n / 10).push(digit_char(n % 10))
    }
}

/// The numeral of one digit; that of nine for a larger number.
pub fn digit_str(d: u8) -> (s: &'static str)
    ensures
        s@ == seq![digit_char(d as nat)],
{
    proof {
        reveal_strlit("0");
        reveal_strlit("1");
        reveal_strlit("2");
        reveal_strlit("3");
        reveal_strlit("4");
        reveal_strlit("5");
        reveal_strlit("6");
        reveal_strlit("7");
        reveal_strlit("8");
        reveal_strlit("9");
    }
    let s = if d == 0 {
        "0"
    } else if d == 1 {
        "1"
    } else if d == 2 {
        "2"
    } else if d == 3 {
        "3"
    } else if d == 4 {
        "4"
    } else if d == 5 {
        "5"
    } else if d == 6 {
        "6"
    } else if d == 7 {
        "7"
    } else if d == 8 {
        "8"
    } else {
        "9"
    };
    assert(s@ =~= seq![digit_char(d as nat)]);
    s
}

/// Appends the decimal numeral of `n`.
pub fn push_decimal(out: &mut String, n: u64)
    ensures
        final(out)@ == old(out)@ + decimal_text(n as nat),
    decreases n,
{
    if n >= 10 {
        push_decimal(out, n / 10);
    }
    out.append(digit_str((n % 10) as u8));
    assert(out@ =~= old(out)@ + decimal_text(n as nat));
}

/// Appends the JSON literal of a string.
pub fn push_quoted(out: &mut String, text: &str)
    ensures
        final(out)@ == old(out)@ + json_string(text@),
{
    let literal = quote(text);
    out.append(literal.as_str());
}

/// The JSON text of a truth value.
pub open spec fn bool_text(b: bool) -> Seq<char> {
    if b {
        "true"@
    } else {
        "false"@
    }
}

/// Appends `true` or `false`.
pub fn push_bool(out: &mut String, b: bool)
    ensures
        final(out)@ == old(out)@ + bool_text(b),
{
    if b {
        out.append("true");
    } else {
        out.append("false");
    }
}

/// The JSON array of the literals of a list of texts.
pub open spec fn string_array_text(list: Seq<Seq<char>>) -> Seq<char> {
    "["@ + string_items(list) + "]"@
}

/// The literals of a list of texts, separated by commas.
pub open spec fn string_items(list: Seq<Seq<char>>) -> Seq<char>
    decreases list.len(),
{
    if list.len() == 0 {
        Seq::empty()
    } else if list.len() == 1 {
        json_string(list[0])
    } else {
        string_items(list.drop_last()) + ","@ + json_string(list.last())
    }
}

/// Appends the JSON array of a list of strings.
pub fn push_string_array(out: &mut String, list: &Vec<String>)
    ensures
        final(out)@ == old(out)@ + string_array_text(crate::order::text_seq(list@)),
{
    let ghost texts = crate::order::text_seq(list@);
    out.append("[");
    let mut i: usize = 0;
    assert(texts.take(0) =~= Seq::empty());
    assert(out@ =~= old(out)@ + "["@ + string_items(texts.take(0)));
    while i < list.len()
        invariant
            i <= list.len(),
            texts == crate::order::text_seq(list@),
            out@ == old(out)@ + "["@ + string_items(texts.take(i as int)),
        decreases list.len() - i,
    {
        let ghost so_far = out@;
        if i > 0 {
            out.append(",");
        }
        push_quoted(out, list[i].as_str());
        proof {
            let next = texts.take(i + 1);
            assert(next.drop_last() =~= texts.take(i as int));
            assert(next.last() == list@[i as int]@);
            if i == 0 {
                assert(string_items(next) == json_string(next[0]));
                assert(string_items(texts.take(0)) =~= Seq::empty());
                assert(out@ =~= old(out)@ + "["@ + string_items(next));
            } else {
                assert(out@ =~= old(out)@ + "["@ + string_items(next));
            }
        }
        i += 1;
    }
    assert(texts.take(i as int) =~= texts);
    out.append("]");
    assert(out@ =~= old(out)@ + string_array_text(texts));
}

} // verus!
