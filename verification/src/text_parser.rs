//! The plain-text parser: paragraphs separated by blank lines.
//!
//! The parser works on the bytes of the source.  A line ends at a line feed.
//! A line is blank when it holds nothing but white space, so a carriage
//! return before the line feed does not count as text.  A paragraph is a
//! run of lines that hold text; its span runs from its first byte of text
//! to the end of its last byte of text.

use crate::ast::{AstArena, DataView, NodeType, Span, TxtNode, TxtTree};
use crate::error::ParseError;
use crate::parser::{is_outcome, texts, Parser};
use vstd::prelude::*;
use vstd::string::*;
use vstd::utf8::*;

verus! {

/// The three bytes encode one of the white-space characters U+1680,
/// U+2000 to U+200A, U+2028, U+2029, U+202F, U+205F and U+3000.
pub open spec fn wide_space(x: u8, y: u8, z: u8) -> bool {
    ||| x == 0xE1 && y == 0x9A && z == 0x80
    ||| x == 0xE2 && y == 0x80 && (0x80 <= z <= 0x8A || z == 0xA8 || z == 0xA9 || z == 0xAF)
    ||| x == 0xE2 && y == 0x81 && z == 0x9F
    ||| x == 0xE3 && y == 0x80 && z == 0x80
}

/// The length in bytes of the white-space character whose encoding starts
/// at `i`, or 0 where none starts there.  White space is U+0009 to U+000D,
/// U+0020, U+0085, U+00A0 and the characters of [`wide_space`].
pub open spec fn ws_len(b: Seq<u8>, i: int) -> int {
    if i < 0 || i >= b.len() {
        0
    } else if (0x09 <= b[i] <= 0x0D) || b[i] == 0x20 {
        1
    } else if i + 1 < b.len() && b[i] == 0xC2 && (b[i + 1] == 0x85 || b[i + 1] == 0xA0) {
        2
    } else if i + 2 < b.len() && wide_space(b[i], b[i + 1], b[i + 2]) {
        3
    } else {
        0
    }
}

/// The paragraph in progress, if any, as a finished one.
pub open spec fn closed(open: Option<(int, int)>) -> Seq<(int, int)> {
    match open {
        Some(p) => seq![p],
        None => Seq::empty(),
    }
}

/// The spans of the paragraphs that are finished at or after byte `i`,
/// where `open` is the span of the text of the paragraph in progress and
/// `text_in_line` says whether the line of `i` holds text before `i`.
///
/// A line feed ends the line; after a line without text the paragraph in
/// progress is finished.  White space is passed over.  Any other byte is
/// text: it starts a paragraph where none is in progress, and the
/// paragraph's span ends after it.
pub open spec fn scan(b: Seq<u8>, i: int, open: Option<(int, int)>, text_in_line: bool) -> Seq<
    (int, int),
>
    decreases b.len() - i,
{
    if i < 0 || i >= b.len() {
        closed(open)
    } else if b[i] == 0x0A {
        if text_in_line {
            scan(b, i + 1, open, false)
        } else {
            closed(open) + scan(b, i + 1, None, false)
        }
    } else if ws_len(b, i) > 0 {
        scan(b, i + ws_len(b, i), open, text_in_line)
    } else {
        let start = match open {
            Some(p) => p.0,
            None => i,
        };
        scan(b, i + 1, Some((start, i + 1)), true)
    }
}

/// The spans of the paragraphs of a source, in order.
pub open spec fn paragraph_spans(b: Seq<u8>) -> Seq<(int, int)> {
    scan(b, 0, None, false)
}

/// The paragraph over the bytes `[span.0, span.1)` of a source: one text
/// node with those bytes, decoded, as its value.
pub open spec fn paragraph_tree(b: Seq<u8>, span: (int, int)) -> TxtTree {
    let at = Span { start: span.0 as u32, end: span.1 as u32 };
    TxtTree {
        node_type: NodeType::Paragraph,
        span: at,
        data: DataView::empty(),
        value: None,
        children: seq![
            TxtTree {
                node_type: NodeType::Str,
                span: at,
                data: DataView::empty(),
                value: Some(decode_utf8(b.subrange(span.0, span.1))),
                children: Seq::empty(),
            },
        ],
    }
}

/// The paragraphs over the given spans, in order.
pub open spec fn paragraph_trees(b: Seq<u8>, spans: Seq<(int, int)>) -> Seq<TxtTree> {
    Seq::new(spans.len(), |k: int| paragraph_tree(b, spans[k]))
}

/// The document of a plain-text source.
pub open spec fn plain_text_tree(b: Seq<u8>) -> TxtTree {
    TxtTree {
        node_type: NodeType::Document,
        span: Span { start: 0, end: b.len() as u32 },
        data: DataView::empty(),
        value: None,
        children: paragraph_trees(b, paragraph_spans(b)),
    }
}

/// The text of the error for a source that 32-bit offsets cannot address.
pub open spec fn too_long_error() -> Seq<char> {
    "source is longer than 32-bit offsets can address"@
}

/// What parsing yields for a source with the bytes `b`: the document, or
/// an error where 32-bit offsets cannot address the source.
pub open spec fn text_outcome(b: Seq<u8>) -> Result<TxtTree, Seq<char>> {
    if b.len() <= u32::MAX {
        Ok(plain_text_tree(b))
    } else {
        Err(too_long_error())
    }
}

/// A span that is not empty and lies inside a source of `len` bytes.
pub open spec fn span_inside(span: (int, int), len: int) -> bool {
    0 <= span.0 < span.1 <= len
}

/// A span of text: it is not empty, lies inside the source, and begins and
/// ends with a byte that is no white space.
pub open spec fn is_text_span(b: Seq<u8>, span: (int, int)) -> bool {
    &&& span_inside(span, b.len() as int)
    &&& ws_len(b, span.0) == 0
    &&& ws_len(b, span.1 - 1) == 0
}

/// The spans are spans of text, each ends before the next begins, and all
/// but the first `skip` of them begin at or after `from`.
pub open spec fn are_paragraphs(b: Seq<u8>, spans: Seq<(int, int)>, skip: int, from: int) -> bool {
    &&& forall|k: int| 0 <= k < spans.len() ==> is_text_span(b, #[trigger] spans[k])
    &&& forall|j: int, k: int| 0 <= j < k < spans.len() ==> spans[j].1 < spans[k].0
    &&& forall|k: int| skip <= k < spans.len() ==> (#[trigger] spans[k]).0 >= from
}

/// What the scan yields from byte `i` on are paragraphs.  Where a
/// paragraph is in progress, it is the first of them, with its start; the
/// others begin at or after `i`.
pub proof fn lemma_scan_paragraphs(
    b: Seq<u8>,
    i: int,
    open: Option<(int, int)>,
    text_in_line: bool,
)
    requires
        0 <= i,
        open matches Some(p) ==> is_text_span(b, p) && p.1 <= i,
    ensures
        are_paragraphs(
            b,
            scan(b, i, open, text_in_line),
            if open is Some {
                1
            } else {
                0
            },
            i,
        ),
        open matches Some(p) ==> scan(b, i, open, text_in_line).len() > 0 && scan(
            b,
            i,
            open,
            text_in_line,
        )[0].0 == p.0 && scan(b, i, open, text_in_line)[0].1 >= p.1,
    decreases b.len() - i,
{
    let all = scan(b, i, open, text_in_line);
    let skip: int = if open is Some {
        1
    } else {
        0
    };
    if i >= b.len() {
        assert(all == closed(open));
    } else if b[i] == 0x0A {
        if text_in_line {
            lemma_scan_paragraphs(b, i + 1, open, false);
            assert(all == scan(b, i + 1, open, false));
        } else {
            let rest = scan(b, i + 1, None, false);
            lemma_scan_paragraphs(b, i + 1, None, false);
            assert(all == closed(open) + rest);
            let lead = closed(open).len() as int;
            assert forall|k: int| lead <= k < all.len() implies all[k] == rest[k - lead] by {}
            assert forall|k: int| 0 <= k < all.len() implies is_text_span(b, #[trigger] all[k]) by {
                if k >= lead {
                    assert(all[k] == rest[k - lead]);
                }
            }
            assert forall|j: int, k: int| 0 <= j < k < all.len() implies all[j].1 < all[k].0 by {
                assert(all[k] == rest[k - lead]);
                if j >= lead {
                    assert(all[j] == rest[j - lead]);
                }
            }
            assert forall|k: int| skip <= k < all.len() implies (#[trigger] all[k]).0 >= i by {
                assert(all[k] == rest[k - lead]);
            }
        }
    } else if ws_len(b, i) > 0 {
        lemma_scan_paragraphs(b, i + ws_len(b, i), open, text_in_line);
        assert(all == scan(b, i + ws_len(b, i), open, text_in_line));
    } else {
        let start = match open {
            Some(p) => p.0,
            None => i,
        };
        lemma_scan_paragraphs(b, i + 1, Some((start, i + 1)), true);
        assert(all == scan(b, i + 1, Some((start, i + 1)), true));
        assert forall|k: int| skip <= k < all.len() implies (#[trigger] all[k]).0 >= i by {
            if k == 0 {
                assert(all[0].0 == start);
            }
        }
    }
}

/// The paragraphs of a source are spans of text inside it, in the order of
/// the source and apart from each other: each ends before the next begins.
pub proof fn lemma_paragraph_spans(b: Seq<u8>)
    ensures
        forall|k: int|
            0 <= k < paragraph_spans(b).len() ==> is_text_span(b, #[trigger] paragraph_spans(b)[k]),
        forall|j: int, k: int|
            0 <= j < k < paragraph_spans(b).len() ==> paragraph_spans(b)[j].1 < paragraph_spans(
                b,
            )[k].0,
{
    lemma_scan_paragraphs(b, 0, None, false);
}

/// The byte at `i` belongs to a white-space character: one starts at `i`,
/// or a longer one starts one or two bytes before.
pub open spec fn is_blank(b: Seq<u8>, i: int) -> bool {
    ws_len(b, i) >= 1 || ws_len(b, i - 1) >= 2 || ws_len(b, i - 2) >= 3
}

/// The byte at `i` is text: a byte of the source that belongs to no
/// white-space character.  A line feed is white space.
pub open spec fn is_text(b: Seq<u8>, i: int) -> bool {
    0 <= i < b.len() && !is_blank(b, i)
}

/// There is text between the places `p` and `q`.
pub open spec fn text_between(b: Seq<u8>, p: int, q: int) -> bool {
    exists|t: int| p < t < q && #[trigger] is_text(b, t)
}

/// One of the spans holds the place `x`.
pub open spec fn covered(spans: Seq<(int, int)>, x: int) -> bool {
    exists|k: int| 0 <= k < spans.len() && (#[trigger] spans[k]).0 <= x < spans[k].1
}

/// The bytes from `s` up to `e` hold no line without text: between any two
/// line feeds among them there is text.
pub open spec fn unbroken(b: Seq<u8>, s: int, e: int) -> bool {
    forall|p: int, q: int|
        s <= p < q < e && #[trigger] b[p] == 0x0A && #[trigger] b[q] == 0x0A ==> text_between(
            b,
            p,
            q,
        )
}

/// The bytes from `lo` up to `hi` hold a line without text: two line feeds
/// with no text between them.
pub open spec fn blank_line_between(b: Seq<u8>, lo: int, hi: int) -> bool {
    exists|p: int, q: int|
        lo <= p < q < hi && #[trigger] b[p] == 0x0A && #[trigger] b[q] == 0x0A && !text_between(
            b,
            p,
            q,
        )
}

/// No white-space character that starts before `i` reaches `i`.
pub open spec fn aligned(b: Seq<u8>, i: int) -> bool {
    ws_len(b, i - 1) < 2 && ws_len(b, i - 2) < 3
}

/// The bytes from `lo` up to `hi` hold exactly one line feed.
pub open spec fn one_feed(b: Seq<u8>, lo: int, hi: int) -> bool {
    exists|l: int|
        lo <= l < hi && #[trigger] b[l] == 0x0A && forall|x: int|
            lo <= x < hi && x != l ==> #[trigger] b[x] != 0x0A
}

/// What holds while the source is scanned, at the place `i`: the place is
/// the start of a character as far as white space goes; a paragraph in
/// progress begins and ends with text and holds no line without text; and
/// since its last text there was no text, and one line feed or none, as
/// the line of `i` holds text or not.
pub open spec fn scanning(b: Seq<u8>, i: int, open: Option<(int, int)>, text_in_line: bool) -> bool {
    &&& 0 <= i
    &&& aligned(b, i)
    &&& match open {
        Some(p) => {
            &&& 0 <= p.0 < p.1 <= i
            &&& p.1 <= b.len()
            &&& is_text(b, p.0)
            &&& is_text(b, p.1 - 1)
            &&& unbroken(b, p.0, p.1)
            &&& forall|x: int| p.1 <= x < i ==> !#[trigger] is_text(b, x)
            &&& if text_in_line {
                forall|x: int| p.1 <= x < i && x < b.len() ==> #[trigger] b[x] != 0x0A
            } else {
                one_feed(b, p.1, i)
            }
        },
        None => true,
    }
}

/// A white-space character has one to three bytes, begins with a byte that
/// no white-space character goes on with, and, where it has more than one
/// byte, goes on with bytes that begin none and are no line feed.
pub proof fn lemma_ws_shape(b: Seq<u8>, i: int)
    ensures
        0 <= ws_len(b, i) <= 3,
        ws_len(b, i) > 0 ==> 0 <= i && i + ws_len(b, i) <= b.len(),
        ws_len(b, i) >= 2 ==> b[i] != 0x0A && b[i + 1] != 0x0A && ws_len(b, i + 1) == 0,
        ws_len(b, i) >= 3 ==> b[i + 2] != 0x0A && ws_len(b, i + 2) == 0,
        0 <= i < b.len() && b[i] == 0x0A ==> ws_len(b, i) == 1,
{
}

/// After a line feed in a line with text the scan goes on with the
/// paragraph in progress.
pub proof fn lemma_step_feed(b: Seq<u8>, i: int, open: Option<(int, int)>)
    requires
        scanning(b, i, open, true),
        i < b.len(),
        b[i] == 0x0A,
    ensures
        scanning(b, i + 1, open, false),
{
    lemma_ws_shape(b, i);
    lemma_ws_shape(b, i - 1);
    if let Some(p) = open {
        assert(is_blank(b, i));
        assert(one_feed(b, p.1, i + 1)) by {
            assert(b[i] == 0x0A);
        }
        assert forall|x: int| p.1 <= x < i + 1 implies !#[trigger] is_text(b, x) by {}
    }
}

/// After white space the scan goes on as before, and the white space is
/// no text and no line feed.
pub proof fn lemma_step_space(b: Seq<u8>, i: int, open: Option<(int, int)>, text_in_line: bool)
    requires
        scanning(b, i, open, text_in_line),
        i < b.len(),
        b[i] != 0x0A,
        ws_len(b, i) > 0,
    ensures
        scanning(b, i + ws_len(b, i), open, text_in_line),
        forall|x: int| i <= x < i + ws_len(b, i) ==> !#[trigger] is_text(b, x),
{
    let k = ws_len(b, i);
    lemma_ws_shape(b, i);
    lemma_ws_shape(b, i - 1);
    assert forall|x: int| i <= x < i + k implies is_blank(b, x) && b[x] != 0x0A by {}
    assert(aligned(b, i + k));
    if let Some(p) = open {
        assert forall|x: int| p.1 <= x < i + k implies !#[trigger] is_text(b, x) by {
            if x >= i {
                assert(is_blank(b, x));
            }
        }
        if text_in_line {
        } else {
            let l = choose|l: int|
                p.1 <= l < i && #[trigger] b[l] == 0x0A && forall|x: int|
                    p.1 <= x < i && x != l ==> #[trigger] b[x] != 0x0A;
            assert(p.1 <= l < i + k && b[l] == 0x0A);
            assert forall|x: int| p.1 <= x < i + k && x != l implies #[trigger] b[x] != 0x0A by {
                if x >= i {
                    assert(is_blank(b, x) && b[x] != 0x0A);
                }
            }
            assert(one_feed(b, p.1, i + k));
        }
    }
}

/// At a byte of text the paragraph in progress, or a new one, reaches up
/// to the byte, and holds no line without text.
pub proof fn lemma_step_text(b: Seq<u8>, i: int, open: Option<(int, int)>, text_in_line: bool)
    requires
        scanning(b, i, open, text_in_line),
        i < b.len(),
        b[i] != 0x0A,
        ws_len(b, i) == 0,
    ensures
        is_text(b, i),
        scanning(
            b,
            i + 1,
            Some(
                (
                    match open {
                        Some(p) => p.0,
                        None => i,
                    },
                    i + 1,
                ),
            ),
            true,
        ),
{
    let start = match open {
        Some(p) => p.0,
        None => i,
    };
    lemma_ws_shape(b, i - 1);
    assert(is_text(b, i));
    assert(aligned(b, i + 1));
    assert forall|p: int, q: int|
        start <= p < q < i + 1 && #[trigger] b[p] == 0x0A && #[trigger] b[q]
            == 0x0A implies text_between(b, p, q) by {
        let o = open->Some_0;
        if q >= o.1 {
            lemma_ws_shape(b, p);
            assert(is_blank(b, p));
            assert(is_text(b, o.1 - 1));
            assert(p < o.1 - 1 < q);
        }
    }
}

/// The paragraphs that the scan yields from the place `i` on hold every
/// byte of text from `i` on; none of them holds a line without text; and
/// between two successive ones there is a line without text.
pub proof fn lemma_scan_direct(b: Seq<u8>, i: int, open: Option<(int, int)>, text_in_line: bool)
    requires
        scanning(b, i, open, text_in_line),
    ensures
        forall|x: int|
            i <= x && #[trigger] is_text(b, x) ==> covered(scan(b, i, open, text_in_line), x),
        forall|k: int|
            0 <= k < scan(b, i, open, text_in_line).len() ==> unbroken(
                b,
                (#[trigger] scan(b, i, open, text_in_line)[k]).0,
                scan(b, i, open, text_in_line)[k].1,
            ),
        forall|k: int|
            0 <= k && k + 1 < scan(b, i, open, text_in_line).len() ==> blank_line_between(
                b,
                (#[trigger] scan(b, i, open, text_in_line)[k]).1,
                scan(b, i, open, text_in_line)[k + 1].0,
            ),
    decreases b.len() - i, 1nat,
{
    let all = scan(b, i, open, text_in_line);
    if i >= b.len() {
        assert(all == closed(open));
    } else if b[i] == 0x0A {
        lemma_ws_shape(b, i);
        assert(!is_text(b, i));
        if text_in_line {
            assert(all == scan(b, i + 1, open, false));
            lemma_step_feed(b, i, open);
            lemma_scan_direct(b, i + 1, open, false);
        } else {
            lemma_closing(b, i, open);
        }
    } else if ws_len(b, i) > 0 {
        let k = ws_len(b, i);
        assert(all == scan(b, i + k, open, text_in_line));
        lemma_step_space(b, i, open, text_in_line);
        lemma_scan_direct(b, i + k, open, text_in_line);
    } else {
        let start = match open {
            Some(p) => p.0,
            None => i,
        };
        let next = Some((start, i + 1));
        assert(all == scan(b, i + 1, next, true));
        lemma_step_text(b, i, open, text_in_line);
        lemma_scan_direct(b, i + 1, next, true);
        lemma_scan_paragraphs(b, i + 1, next, true);
        assert(all[0].0 <= i < all[0].1);
    }
}

/// The step of [`lemma_scan_direct`] at the line feed that ends a line
/// without text: the paragraph in progress is finished, and a line without
/// text lies between it and the next.
pub proof fn lemma_closing(b: Seq<u8>, i: int, open: Option<(int, int)>)
    requires
        scanning(b, i, open, false),
        i < b.len(),
        b[i] == 0x0A,
    ensures
        forall|x: int| i <= x && #[trigger] is_text(b, x) ==> covered(scan(b, i, open, false), x),
        forall|k: int|
            0 <= k < scan(b, i, open, false).len() ==> unbroken(
                b,
                (#[trigger] scan(b, i, open, false)[k]).0,
                scan(b, i, open, false)[k].1,
            ),
        forall|k: int|
            0 <= k && k + 1 < scan(b, i, open, false).len() ==> blank_line_between(
                b,
                (#[trigger] scan(b, i, open, false)[k]).1,
                scan(b, i, open, false)[k + 1].0,
            ),
    decreases b.len() - i, 0nat,
{
    let all = scan(b, i, open, false);
    let rest = scan(b, i + 1, None, false);
    let lead = closed(open).len() as int;
    lemma_ws_shape(b, i);
    lemma_ws_shape(b, i - 1);
    assert(!is_text(b, i));
    assert(all == closed(open) + rest);
    assert(scanning(b, i + 1, None, false));
    lemma_scan_direct(b, i + 1, None, false);
    lemma_scan_paragraphs(b, i + 1, None, false);
    assert forall|k: int| lead <= k < all.len() implies all[k] == rest[k - lead] by {}
    assert forall|x: int| i <= x && #[trigger] is_text(b, x) implies covered(all, x) by {
        let k = choose|k: int| 0 <= k < rest.len() && (#[trigger] rest[k]).0 <= x < rest[k].1;
        assert(all[k + lead] == rest[k]);
    }
    assert forall|k: int| 0 <= k < all.len() implies unbroken(b, (#[trigger] all[k]).0, all[k].1) by {
        if k >= lead {
            assert(all[k] == rest[k - lead]);
        }
    }
    assert forall|k: int| 0 <= k && k + 1 < all.len() implies blank_line_between(
        b,
        (#[trigger] all[k]).1,
        all[k + 1].0,
    ) by {
        assert(all[k + 1] == rest[k + 1 - lead]);
        if k >= lead {
            assert(all[k] == rest[k - lead]);
        } else {
            let p = open->Some_0;
            let l = choose|l: int|
                p.1 <= l < i && #[trigger] b[l] == 0x0A && forall|x: int|
                    p.1 <= x < i && x != l ==> #[trigger] b[x] != 0x0A;
            assert(rest[0].0 >= i + 1);
            assert(!text_between(b, l, i));
            assert(b[l] == 0x0A && b[i] == 0x0A);
        }
    }
}

/// The paragraphs of a source, said directly: every byte of text lies in a
/// paragraph; no paragraph holds a line without text; and between two
/// successive paragraphs there is a line without text.
pub proof fn lemma_paragraphs_direct(b: Seq<u8>)
    ensures
        forall|x: int| #[trigger] is_text(b, x) ==> covered(paragraph_spans(b), x),
        forall|k: int|
            0 <= k < paragraph_spans(b).len() ==> unbroken(
                b,
                (#[trigger] paragraph_spans(b)[k]).0,
                paragraph_spans(b)[k].1,
            ),
        forall|k: int|
            0 <= k && k + 1 < paragraph_spans(b).len() ==> blank_line_between(
                b,
                (#[trigger] paragraph_spans(b)[k]).1,
                paragraph_spans(b)[k + 1].0,
            ),
{
    lemma_scan_direct(b, 0, None, false);
}

/// The document of a source that 32-bit offsets can address is well formed,
/// and every span of it lies inside the source.
pub proof fn lemma_plain_text_tree(b: Seq<u8>)
    requires
        b.len() <= u32::MAX,
    ensures
        plain_text_tree(b).spans_within(b.len()),
        plain_text_tree(b).well_formed(),
{
    let doc = plain_text_tree(b);
    let spans = paragraph_spans(b);
    lemma_paragraph_spans(b);
    assert forall|k: int| 0 <= k < doc.children.len() implies (#[trigger] doc.children[k]).spans_within(
        b.len(),
    ) && doc.children[k].well_formed() by {
        let p = paragraph_tree(b, spans[k]);
        assert(doc.children[k] == p);
        assert(is_text_span(b, spans[k]));
        assert(p.children[0].spans_within(b.len()));
        assert(p.children[0].well_formed());
    }
}

/// In valid UTF-8 a character starts after every line feed and after every
/// white-space character.
pub proof fn lemma_after_whitespace(b: Seq<u8>, p: int)
    requires
        valid_utf8(b),
        ws_len(b, p) > 0,
    ensures
        p + ws_len(b, p) <= b.len(),
        p + ws_len(b, p) < b.len() ==> !is_continuation_byte(b[p + ws_len(b, p)]),
{
    let k = ws_len(b, p);
    let n = b.len() as int;
    assert(!is_continuation_byte(b[p]));
    is_char_boundary_iff_not_is_continuation_byte(b, p);
    valid_utf8_split(b, p);
    let tail = b.subrange(p, n);
    assert(tail[0] == b[p]);
    assert(valid_first_scalar(tail) && valid_utf8(pop_first_scalar(tail)));
    assert(length_of_first_scalar(tail) == k);
    let rest = pop_first_scalar(tail);
    if p + k < n {
        assert(rest.len() > 0);
        assert(rest[0] == b[p + k]);
        assert(is_char_boundary(rest, 0));
        is_char_boundary_iff_not_is_continuation_byte(rest, 0);
    }
}

/// The plain-text parser.
pub struct PlainTextParser;

impl PlainTextParser {
    pub fn new() -> (p: PlainTextParser) {
        PlainTextParser
    }

    /// The length of the white-space character that starts at byte `i`.
    pub fn ws_width(bytes: &[u8], i: usize) -> (k: usize)
        ensures
            k == ws_len(bytes@, i as int),
    {
        let n = bytes.len();
        if i >= n {
            return 0;
        }
        let x = bytes[i];
        if (0x09 <= x && x <= 0x0D) || x == 0x20 {
            1
        } else if x == 0xC2 {
            if n - i > 1 && (bytes[i + 1] == 0x85 || bytes[i + 1] == 0xA0) {
                2
            } else {
                0
            }
        } else if n - i > 2 {
            let y = bytes[i + 1];
            let z = bytes[i + 2];
            if x == 0xE1 && y == 0x9A && z == 0x80 {
                3
            } else if x == 0xE2 && y == 0x80 && ((0x80 <= z && z <= 0x8A) || z == 0xA8 || z == 0xA9
                || z == 0xAF) {
                3
            } else if x == 0xE2 && y == 0x81 && z == 0x9F {
                3
            } else if x == 0xE3 && y == 0x80 && z == 0x80 {
                3
            } else {
                0
            }
        } else {
            0
        }
    }

    /// The paragraph over the bytes `[start, end)` of the source.
    fn paragraph(arena: &mut AstArena, source: &str, start: usize, end: usize) -> (p: TxtNode)
        requires
            old(arena).wf(),
            start < end <= source.spec_bytes().len() <= u32::MAX,
            !is_continuation_byte(source.spec_bytes()[start as int]),
            end < source.spec_bytes().len() ==> !is_continuation_byte(
                source.spec_bytes()[end as int],
            ),
        ensures
            final(arena).wf(),
            final(arena).extends(old(arena)),
            final(arena).holds(p),
            final(arena).tree(p) == paragraph_tree(source.spec_bytes(), (start as int, end as int)),
    {
        let ghost b = source.spec_bytes();
        proof {
            encode_utf8_valid_utf8(source@);
            if end < b.len() {
                is_char_boundary_iff_not_is_continuation_byte(b, end as int);
            } else {
                is_char_boundary_start_end_of_seq(b);
            }
        }
        let (head, _) = source.split_at(end);
        proof {
            encode_utf8_valid_utf8(head@);
            assert(head.spec_bytes()[start as int] == b[start as int]);
            is_char_boundary_iff_not_is_continuation_byte(head.spec_bytes(), start as int);
        }
        let (_, text) = head.split_at(start);
        proof {
            assert(text.spec_bytes() =~= b.subrange(start as int, end as int));
            encode_utf8_decode_utf8(text@);
        }
        let ghost first = *arena;
        let value = arena.alloc_str(text);
        let ghost second = *arena;
        let span = Span::new(start as u32, end as u32);
        let leaf = TxtNode::new_text(NodeType::Str, span, value);
        let children = arena.alloc_node(leaf);
        let p = TxtNode::new_parent(NodeType::Paragraph, span, children);
        proof {
            arena.lemma_extends_further(&second, &first);
            arena.lemma_keeps(&second);
            arena.lemma_children(p);
            assert(arena.nodes()[children.start as int] == leaf);
            assert(second.holds(leaf));
            assert(second.tree(leaf).children =~= Seq::empty());
            assert(arena.tree(p).children =~= paragraph_tree(b, (start as int, end as int)).children);
        }
        p
    }

    /// Splits a source into paragraphs, in the arena.  Fails exactly when
    /// the source is longer than 32-bit offsets can address.
    pub fn parse_paragraphs(&self, arena: &mut AstArena, source: &str) -> (r: Result<
        TxtNode,
        ParseError,
    >)
        requires
            old(arena).wf(),
        ensures
            final(arena).wf(),
            final(arena).extends(old(arena)),
            is_outcome(r, *final(arena), text_outcome(source.spec_bytes())),
    {
        let bytes = source.as_bytes();
        let n = bytes.len();
        proof {
            arena.lemma_extends_itself();
        }
        if n > 0xFFFF_FFFF {
            return Err(
                ParseError::invalid_source(
                    String::from_str("source is longer than 32-bit offsets can address"),
                ),
            );
        }
        let ghost b = source.spec_bytes();
        proof {
            encode_utf8_valid_utf8(source@);
        }
        let mut paragraphs: Vec<TxtNode> = Vec::new();
        let ghost mut done: Seq<(int, int)> = Seq::empty();
        let mut open = false;
        let mut start: usize = 0;
        let mut end: usize = 0;
        let mut text_in_line = false;
        let mut i: usize = 0;
        assert(done + scan(b, 0, None, false) =~= scan(b, 0, None, false));
        while i < n
            invariant
                b == source.spec_bytes(),
                bytes@ == b,
                n == b.len(),
                n <= u32::MAX,
                valid_utf8(b),
                i <= n,
                arena.wf(),
                arena.extends(old(arena)),
                open ==> start < end <= i && !is_continuation_byte(b[start as int]) && (end == i
                    || !is_continuation_byte(b[end as int])),
                !open && i < n ==> !is_continuation_byte(b[i as int]),
                done + scan(
                    b,
                    i as int,
                    if open {
                        Some((start as int, end as int))
                    } else {
                        None
                    },
                    text_in_line,
                ) == scan(b, 0, None, false),
                paragraphs@.len() == done.len(),
                forall|k: int|
                    0 <= k < paragraphs@.len() ==> arena.holds(#[trigger] paragraphs@[k])
                        && arena.tree(paragraphs@[k]) == paragraph_tree(b, done[k]),
            decreases n - i,
        {
            let ghost before: Option<(int, int)> = if open {
                Some((start as int, end as int))
            } else {
                None
            };
            let x = bytes[i];
            if x == 0x0A {
                proof {
                    lemma_after_whitespace(b, i as int);
                }
                if !text_in_line && open {
                    let ghost earlier = *arena;
                    let p = Self::paragraph(arena, source, start, end);
                    proof {
                        arena.lemma_extends_further(&earlier, old(arena));
                        arena.lemma_keeps(&earlier);
                        assert(done.push((start as int, end as int)) + scan(
                            b,
                            i + 1,
                            None,
                            false,
                        ) =~= done + (closed(before) + scan(b, i + 1, None, false)));
                        done = done.push((start as int, end as int));
                    }
                    paragraphs.push(p);
                    open = false;
                } else if !text_in_line {
                    assert(done + scan(b, i + 1, None, false) =~= done + (closed(before) + scan(
                        b,
                        i + 1,
                        None,
                        false,
                    )));
                }
                text_in_line = false;
                i += 1;
            } else {
                let k = Self::ws_width(bytes, i);
                if k > 0 {
                    proof {
                        lemma_after_whitespace(b, i as int);
                    }
                    i += k;
                } else {
                    if !open {
                        start = i;
                        open = true;
                    }
                    end = i + 1;
                    text_in_line = true;
                    i += 1;
                }
            }
        }
        if open {
            let ghost earlier = *arena;
            let p = Self::paragraph(arena, source, start, end);
            proof {
                arena.lemma_extends_further(&earlier, old(arena));
                arena.lemma_keeps(&earlier);
                assert(done.push((start as int, end as int)) =~= done + closed(
                    Some((start as int, end as int)),
                ));
                done = done.push((start as int, end as int));
            }
            paragraphs.push(p);
        } else {
            assert(done =~= done + closed(None));
        }
        let ghost earlier = *arena;
        let children = arena.alloc_slice_clone(paragraphs.as_slice());
        let doc = TxtNode::new_parent(NodeType::Document, Span::new(0, n as u32), children);
        proof {
            arena.lemma_extends_further(&earlier, old(arena));
            arena.lemma_keeps(&earlier);
            arena.lemma_children(doc);
            assert forall|k: int| 0 <= k < done.len() implies (#[trigger] arena.tree(
                doc,
            ).children[k]) == paragraph_tree(b, done[k]) by {
                assert(arena.nodes()[children.start + k] == paragraphs@[k]);
                assert(earlier.holds(paragraphs@[k]));
            }
            assert(arena.tree(doc).children =~= paragraph_trees(b, done));
        }
        Ok(doc)
    }
}

impl Default for PlainTextParser {
    fn default() -> (p: PlainTextParser) {
        PlainTextParser::new()
    }
}

impl Parser for PlainTextParser {
    open spec fn name_spec(&self) -> Seq<char> {
        "text"@
    }

    open spec fn extensions_spec(&self) -> Seq<Seq<char>> {
        seq!["txt"@, "text"@]
    }

    open spec fn outcome(&self, source: Seq<char>) -> Result<TxtTree, Seq<char>> {
        text_outcome(encode_utf8(source))
    }

    fn name(&self) -> (s: &'static str) {
        "text"
    }

    fn extensions(&self) -> (list: Vec<&'static str>) {
        let list = vec!["txt", "text"];
        assert(texts(list@) =~= self.extensions_spec());
        list
    }

    fn parse(&self, arena: &mut AstArena, source: &str) -> (r: Result<TxtNode, ParseError>) {
        proof {
            if source.spec_bytes().len() <= u32::MAX {
                lemma_plain_text_tree(source.spec_bytes());
            }
        }
        self.parse_paragraphs(arena, source)
    }
}

} // verus!
