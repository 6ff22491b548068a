//! What the parsers have in common: the outcome of a parse, the matching of
//! file extensions and the parser interface.

use crate::ast::{AstArena, TxtNode, TxtTree};
use crate::error::ParseError;
use vstd::prelude::*;
use vstd::string::*;

verus! {

/// `r` is the result `expected`: a node of the arena whose tree is the
/// expected tree, or an invalid-source error with the expected message.
pub open spec fn is_outcome(
    r: Result<TxtNode, ParseError>,
    arena: AstArena,
    expected: Result<TxtTree, Seq<char>>,
) -> bool {
    match expected {
        Ok(tree) => r matches Ok(node) && arena.holds(node) && arena.tree(node) == tree,
        Err(message) => r matches Err(ParseError::InvalidSource(m)) && m@ == message,
    }
}

/// The lower-case form of an ASCII capital; any other character itself.
pub open spec fn lower_char(c: char) -> char {
    if 'A' <= c <= 'Z' {
        ((c as u32) + 32) as char
    } else {
        c
    }
}

/// A text with its ASCII capitals in lower case.
pub open spec fn ascii_lower(text: Seq<char>) -> Seq<char> {
    Seq::new(text.len(), |i: int| lower_char(text[i]))
}

/// The extension, without regard to ASCII case, is one of the list.
pub open spec fn accepts(extensions: Seq<Seq<char>>, extension: Seq<char>) -> bool {
    exists|i: int| 0 <= i < extensions.len() && #[trigger] extensions[i] == ascii_lower(extension)
}

/// The texts of a list of strings.
pub open spec fn texts(list: Seq<&'static str>) -> Seq<Seq<char>> {
    Seq::new(list.len(), |i: int| list[i]@)
}

/// Whether `x` is the lower-case form of `c`.
pub fn is_lower_of(x: char, c: char) -> (b: bool)
    ensures
        b == (x == lower_char(c)),
{
    if 'A' <= c && c <= 'Z' {
        x as u32 == c as u32 + 32
    } else {
        x == c
    }
}

/// Whether `candidate` is `text` with its ASCII capitals in lower case.
pub fn is_lower_case_of(candidate: &str, text: &str) -> (b: bool)
    ensures
        b == (candidate@ == ascii_lower(text@)),
{
    let n = text.unicode_len();
    if candidate.unicode_len() != n {
        return false;
    }
    let mut i: usize = 0;
    while i < n
        invariant
            n == text@.len(),
            n == candidate@.len(),
            i <= n,
            forall|j: int| 0 <= j < i ==> candidate@[j] == lower_char(#[trigger] text@[j]),
        decreases n - i,
    {
        if !is_lower_of(candidate.get_char(i), text.get_char(i)) {
            assert(ascii_lower(text@)[i as int] == lower_char(text@[i as int]));
            return false;
        }
        i += 1;
    }
    assert(candidate@ =~= ascii_lower(text@));
    true
}

/// Whether one of `list` is `extension` in lower case.
pub fn any_accepts(list: &Vec<&'static str>, extension: &str) -> (b: bool)
    ensures
        b == accepts(texts(list@), extension@),
{
    let mut i: usize = 0;
    while i < list.len()
        invariant
            i <= list.len(),
            forall|j: int| 0 <= j < i ==> (#[trigger] texts(list@)[j]) != ascii_lower(extension@),
        decreases list.len() - i,
    {
        if is_lower_case_of(list[i], extension) {
            assert(texts(list@)[i as int] == ascii_lower(extension@));
            return true;
        }
        i += 1;
    }
    false
}

/// A parser from source text to the prose tree.
pub trait Parser {
    /// The parser's name.
    spec fn name_spec(&self) -> Seq<char>;

    /// The file extensions that the parser takes: lower case, without the
    /// leading dot.
    spec fn extensions_spec(&self) -> Seq<Seq<char>>;

    /// What parsing a source yields: its tree, or the message of an
    /// invalid-source error.
    spec fn outcome(&self, source: Seq<char>) -> Result<TxtTree, Seq<char>>;

    fn name(&self) -> (s: &'static str)
        ensures
            s@ == self.name_spec(),
    ;

    fn extensions(&self) -> (list: Vec<&'static str>)
        ensures
            texts(list@) == self.extensions_spec(),
    ;

    /// Whether the parser takes files with this extension; case is
    /// ignored.
    fn can_parse(&self, extension: &str) -> (b: bool)
        ensures
            b == accepts(self.extensions_spec(), extension@),
    {
        let list = self.extensions();
        any_accepts(&list, extension)
    }

    /// Parses a source into the arena.  What the arena held before, it
    /// holds unchanged.  Every span of the tree lies inside the source,
    /// and the tree is well formed.
    fn parse(&self, arena: &mut AstArena, source: &str) -> (r: Result<TxtNode, ParseError>)
        requires
            old(arena).wf(),
        ensures
            final(arena).wf(),
            final(arena).extends(old(arena)),
            is_outcome(r, *final(arena), self.outcome(source@)),
            match r {
                Ok(node) => final(arena).tree(node).spans_within(source.spec_bytes().len())
                    && final(arena).tree(node).well_formed(),
                Err(_) => true,
            },
    ;
}

/// Parsing is a function of the source: two results of one parser for one
/// source, in whatever arenas, are both nodes with the same tree, or both
/// errors with the same message.
pub proof fn lemma_parse_deterministic<P: Parser>(
    parser: &P,
    source: Seq<char>,
    first: Result<TxtNode, ParseError>,
    first_arena: AstArena,
    second: Result<TxtNode, ParseError>,
    second_arena: AstArena,
)
    requires
        is_outcome(first, first_arena, parser.outcome(source)),
        is_outcome(second, second_arena, parser.outcome(source)),
    ensures
        match (first, second) {
            (Ok(a), Ok(b)) => first_arena.tree(a) == second_arena.tree(b),
            (Err(ParseError::InvalidSource(x)), Err(ParseError::InvalidSource(y))) => x@ == y@,
            _ => false,
        },
{
}

} // verus!
