//! The order of strings by their UTF-8 bytes, and sorted lists without
//! repetition.

use vstd::prelude::*;
use vstd::string::*;
use vstd::utf8::*;

verus! {

/// How one string stands to another.
#[derive(Clone, Copy, Debug, PartialEq, Eq, Structural)]
pub enum Order {
    Less,
    Equal,
    Greater,
}

/// `a` and `b` agree on their first `k` bytes, and there `a` ends while `b`
/// goes on, or `a` has the smaller byte.
pub open spec fn bytes_lt_at(a: Seq<u8>, b: Seq<u8>, k: int) -> bool {
    &&& 0 <= k <= a.len()
    &&& k <= b.len()
    &&& forall|i: int| 0 <= i < k ==> a[i] == b[i]
    &&& (k == a.len() && k < b.len()) || (k < a.len() && k < b.len() && a[k] < b[k])
}

/// `a` comes before `b` in the lexicographic order of bytes.
pub open spec fn bytes_lt(a: Seq<u8>, b: Seq<u8>) -> bool {
    exists|k: int| bytes_lt_at(a, b, k)
}

/// `a` comes before `b` in the order of their UTF-8 bytes.
pub open spec fn text_lt(a: Seq<char>, b: Seq<char>) -> bool {
    bytes_lt(encode_utf8(a), encode_utf8(b))
}

/// Each text comes before the next.
pub open spec fn strictly_sorted(list: Seq<Seq<char>>) -> bool {
    forall|i: int, j: int| 0 <= i < j < list.len() ==> text_lt(list[i], list[j])
}

/// The order is transitive.
pub proof fn lemma_bytes_lt_transitive(a: Seq<u8>, b: Seq<u8>, c: Seq<u8>)
    requires
        bytes_lt(a, b),
        bytes_lt(b, c),
    ensures
        bytes_lt(a, c),
{
    let k1 = choose|k: int| bytes_lt_at(a, b, k);
    let k2 = choose|k: int| bytes_lt_at(b, c, k);
    let k = if k1 <= k2 {
        k1
    } else {
        k2
    };
    assert(bytes_lt_at(a, c, k));
}

/// No sequence comes before itself, and of two sequences at most one comes
/// before the other.
pub proof fn lemma_bytes_lt_asymmetric(a: Seq<u8>, b: Seq<u8>)
    requires
        bytes_lt(a, b),
    ensures
        !bytes_lt(b, a),
        a != b,
{
    let k1 = choose|k: int| bytes_lt_at(a, b, k);
    if bytes_lt(b, a) {
        let k2 = choose|k: int| bytes_lt_at(b, a, k);
        if k1 < k2 {
            assert(b[k1] == a[k1]);
        } else if k2 < k1 {
            assert(a[k2] == b[k2]);
        }
        assert(false);
    }
    if a == b {
        assert(false);
    }
}

/// Texts with the same bytes are the same text.
pub proof fn lemma_same_bytes_same_text(a: Seq<char>, b: Seq<char>)
    requires
        encode_utf8(a) == encode_utf8(b),
    ensures
        a == b,
{
    encode_utf8_decode_utf8(a);
    encode_utf8_decode_utf8(b);
}

/// The order of texts is transitive.
pub proof fn lemma_text_lt_transitive(a: Seq<char>, b: Seq<char>, c: Seq<char>)
    requires
        text_lt(a, b),
        text_lt(b, c),
    ensures
        text_lt(a, c),
{
    lemma_bytes_lt_transitive(encode_utf8(a), encode_utf8(b), encode_utf8(c));
}

/// Of two texts at most one comes before the other, and then they differ.
pub proof fn lemma_text_lt_asymmetric(a: Seq<char>, b: Seq<char>)
    requires
        text_lt(a, b),
    ensures
        !text_lt(b, a),
        a != b,
{
    lemma_bytes_lt_asymmetric(encode_utf8(a), encode_utf8(b));
}

/// What the comparison of `a` with `b` yields.
pub open spec fn order_of(a: Seq<char>, b: Seq<char>) -> Order {
    if a == b {
        Order::Equal
    } else if text_lt(a, b) {
        Order::Less
    } else {
        Order::Greater
    }
}

/// Compares two strings by their bytes.  The order is total: where the
/// result is `Greater`, `b` comes before `a`.
pub fn compare(a: &str, b: &str) -> (r: Order)
    ensures
        r == order_of(a@, b@),
        r is Greater ==> text_lt(b@, a@),
{
    let x = a.as_bytes();
    let y = b.as_bytes();
    let n = if x.len() < y.len() {
        x.len()
    } else {
        y.len()
    };
    let mut i: usize = 0;
    while i < n
        invariant
            x@ == encode_utf8(a@),
            y@ == encode_utf8(b@),
            n <= x@.len(),
            n <= y@.len(),
            n == x@.len() || n == y@.len(),
            i <= n,
            forall|j: int| 0 <= j < i ==> x@[j] == y@[j],
        decreases n - i,
    {
        if x[i] < y[i] {
            proof {
                assert(bytes_lt_at(x@, y@, i as int));
                lemma_text_lt_asymmetric(a@, b@);
            }
            return Order::Less;
        }
        if x[i] > y[i] {
            proof {
                assert(bytes_lt_at(y@, x@, i as int));
                lemma_text_lt_asymmetric(b@, a@);
            }
            return Order::Greater;
        }
        i += 1;
    }
    if x.len() < y.len() {
        proof {
            assert(bytes_lt_at(x@, y@, n as int));
            lemma_text_lt_asymmetric(a@, b@);
        }
        Order::Less
    } else if x.len() > y.len() {
        proof {
            assert(bytes_lt_at(y@, x@, n as int));
            lemma_text_lt_asymmetric(b@, a@);
        }
        Order::Greater
    } else {
        proof {
            assert(x@ =~= y@);
            lemma_same_bytes_same_text(a@, b@);
        }
        Order::Equal
    }
}

/// The texts of a list of strings.
pub open spec fn text_seq(list: Seq<String>) -> Seq<Seq<char>> {
    Seq::new(list.len(), |i: int| list[i]@)
}

/// A sorted list with one more text: `text` stands at its place in the
/// order, once.
pub open spec fn with_text(sorted: Seq<Seq<char>>, text: Seq<char>) -> Seq<Seq<char>>
    decreases sorted.len(),
{
    if sorted.len() == 0 {
        seq![text]
    } else if sorted[0] == text {
        sorted
    } else if text_lt(text, sorted[0]) {
        seq![text] + sorted
    } else {
        seq![sorted[0]] + with_text(sorted.drop_first(), text)
    }
}

/// The texts of a list in the order of their bytes, each once.
pub open spec fn sorted_set(list: Seq<Seq<char>>) -> Seq<Seq<char>>
    decreases list.len(),
{
    if list.len() == 0 {
        Seq::empty()
    } else {
        with_text(sorted_set(list.drop_last()), list.last())
    }
}

/// Adding a text to a sorted list keeps it sorted and adds nothing else.
pub proof fn lemma_with_text(sorted: Seq<Seq<char>>, text: Seq<char>)
    requires
        strictly_sorted(sorted),
    ensures
        strictly_sorted(with_text(sorted, text)),
        forall|t: Seq<char>| #[trigger]
            with_text(sorted, text).contains(t) <==> (t == text || sorted.contains(t)),
    decreases sorted.len(),
{
    let out = with_text(sorted, text);
    if sorted.len() == 0 {
        assert(out[0] == text);
        assert forall|t: Seq<char>| #[trigger] out.contains(t) <==> (t == text || sorted.contains(
            t,
        )) by {
            if t == text {
                assert(out[0] == t);
            }
        }
    } else if sorted[0] == text {
        assert forall|t: Seq<char>| #[trigger] out.contains(t) <==> (t == text || sorted.contains(
            t,
        )) by {
            if t == text {
                assert(sorted[0] == t);
            }
        }
    } else if text_lt(text, sorted[0]) {
        assert forall|i: int, j: int| 0 <= i < j < out.len() implies text_lt(out[i], out[j]) by {
            if i == 0 {
                if j > 1 {
                    assert(text_lt(sorted[0], sorted[j - 1]));
                    lemma_text_lt_transitive(text, sorted[0], sorted[j - 1]);
                }
            } else {
                assert(text_lt(sorted[i - 1], sorted[j - 1]));
            }
        }
        assert forall|t: Seq<char>| #[trigger] out.contains(t) <==> (t == text || sorted.contains(
            t,
        )) by {
            if t == text {
                assert(out[0] == t);
            }
            if sorted.contains(t) {
                let i = choose|i: int| 0 <= i < sorted.len() && sorted[i] == t;
                assert(out[i + 1] == t);
            }
            if out.contains(t) {
                let i = choose|i: int| 0 <= i < out.len() && out[i] == t;
                if i > 0 {
                    assert(sorted[i - 1] == t);
                }
            }
        }
    } else {
        let rest = sorted.drop_first();
        assert forall|i: int, j: int| 0 <= i < j < rest.len() implies text_lt(rest[i], rest[j]) by {
            assert(text_lt(sorted[i + 1], sorted[j + 1]));
        }
        lemma_with_text(rest, text);
        let tail = with_text(rest, text);
        assert(out == seq![sorted[0]] + tail);
        assert forall|i: int, j: int| 0 <= i < j < out.len() implies text_lt(out[i], out[j]) by {
            if i == 0 {
                let t = tail[j - 1];
                assert(tail.contains(t));
                if t == text {
                    // `text` is neither the head nor before it.
                    lemma_order_total(sorted[0], text);
                } else {
                    assert(rest.contains(t));
                    let m = choose|m: int| 0 <= m < rest.len() && rest[m] == t;
                    assert(text_lt(sorted[0], sorted[m + 1]));
                }
            } else {
                assert(text_lt(tail[i - 1], tail[j - 1]));
            }
        }
        assert forall|t: Seq<char>| #[trigger] out.contains(t) <==> (t == text || sorted.contains(
            t,
        )) by {
            if out.contains(t) {
                let i = choose|i: int| 0 <= i < out.len() && out[i] == t;
                if i > 0 {
                    assert(tail.contains(tail[i - 1]));
                    if t != text {
                        assert(rest.contains(t));
                        let m = choose|m: int| 0 <= m < rest.len() && rest[m] == t;
                        assert(sorted[m + 1] == t);
                    }
                } else {
                    assert(sorted[0] == t);
                }
            }
            if t == text {
                assert(tail.contains(t));
                let i = choose|i: int| 0 <= i < tail.len() && tail[i] == t;
                assert(out[i + 1] == t);
            }
            if sorted.contains(t) {
                let m = choose|m: int| 0 <= m < sorted.len() && sorted[m] == t;
                if m == 0 {
                    assert(out[0] == t);
                } else {
                    assert(rest[m - 1] == t);
                    assert(tail.contains(t));
                    let i = choose|i: int| 0 <= i < tail.len() && tail[i] == t;
                    assert(out[i + 1] == t);
                }
            }
        }
    }
}

/// Of two different texts one comes before the other.
pub proof fn lemma_order_total(a: Seq<char>, b: Seq<char>)
    ensures
        a == b || text_lt(a, b) || text_lt(b, a),
{
    let x = encode_utf8(a);
    let y = encode_utf8(b);
    if a != b {
        if x == y {
            lemma_same_bytes_same_text(a, b);
        }
        lemma_first_difference(x, y, 0);
    }
}

/// Two byte sequences that agree on their first `k` bytes are equal, or one
/// comes before the other.
pub proof fn lemma_first_difference(x: Seq<u8>, y: Seq<u8>, k: int)
    requires
        0 <= k <= x.len(),
        k <= y.len(),
        forall|i: int| 0 <= i < k ==> x[i] == y[i],
    ensures
        x == y || bytes_lt(x, y) || bytes_lt(y, x),
    decreases x.len() - k,
{
    if k == x.len() && k == y.len() {
        assert(x =~= y);
    } else if k == x.len() {
        assert(bytes_lt_at(x, y, k));
    } else if k == y.len() {
        assert(bytes_lt_at(y, x, k));
    } else if x[k] < y[k] {
        assert(bytes_lt_at(x, y, k));
    } else if y[k] < x[k] {
        assert(bytes_lt_at(y, x, k));
    } else {
        lemma_first_difference(x, y, k + 1);
    }
}

/// The sorted set of a list is sorted and holds exactly the list's texts.
pub proof fn lemma_sorted_set(list: Seq<Seq<char>>)
    ensures
        strictly_sorted(sorted_set(list)),
        forall|t: Seq<char>| #[trigger] sorted_set(list).contains(t) <==> list.contains(t),
    decreases list.len(),
{
    if list.len() > 0 {
        let front = list.drop_last();
        lemma_sorted_set(front);
        lemma_with_text(sorted_set(front), list.last());
        assert forall|t: Seq<char>| #[trigger] sorted_set(list).contains(t) <==> list.contains(
            t,
        ) by {
            if list.contains(t) {
                let i = choose|i: int| 0 <= i < list.len() && list[i] == t;
                if i < list.len() - 1 {
                    assert(front[i] == t);
                }
            }
            if front.contains(t) {
                let i = choose|i: int| 0 <= i < front.len() && front[i] == t;
                assert(list[i] == t);
            }
            if t == list.last() {
                assert(list[list.len() - 1] == t);
            }
        }
    }
}

/// A set of texts has one sorted list: two sorted lists with the same texts
/// are the same list.
pub proof fn lemma_sorted_unique(a: Seq<Seq<char>>, b: Seq<Seq<char>>)
    requires
        strictly_sorted(a),
        strictly_sorted(b),
        forall|t: Seq<char>| a.contains(t) <==> b.contains(t),
    ensures
        a == b,
    decreases a.len(),
{
    if a.len() == 0 {
        if b.len() > 0 {
            assert(b.contains(b[0]));
            assert(a.contains(b[0]));
        }
        assert(a =~= b);
    } else {
        assert(a.contains(a[0]));
        assert(b.contains(a[0]));
        let j = choose|j: int| 0 <= j < b.len() && b[j] == a[0];
        if j > 0 {
            assert(text_lt(b[0], b[j]));
            assert(b.contains(b[0]));
            assert(a.contains(b[0]));
            let i = choose|i: int| 0 <= i < a.len() && a[i] == b[0];
            lemma_text_lt_asymmetric(b[0], a[0]);
            if i > 0 {
                assert(text_lt(a[0], a[i]));
            }
            assert(false);
        }
        assert(a[0] == b[0]);
        let ta = a.drop_first();
        let tb = b.drop_first();
        assert forall|i: int, k: int| 0 <= i < k < ta.len() implies text_lt(ta[i], ta[k]) by {
            assert(text_lt(a[i + 1], a[k + 1]));
        }
        assert forall|i: int, k: int| 0 <= i < k < tb.len() implies text_lt(tb[i], tb[k]) by {
            assert(text_lt(b[i + 1], b[k + 1]));
        }
        assert forall|t: Seq<char>| ta.contains(t) <==> tb.contains(t) by {
            if ta.contains(t) {
                let i = choose|i: int| 0 <= i < ta.len() && ta[i] == t;
                assert(a[i + 1] == t);
                assert(a.contains(t));
                assert(b.contains(t));
                let m = choose|m: int| 0 <= m < b.len() && b[m] == t;
                assert(text_lt(a[0], a[i + 1]));
                lemma_text_lt_asymmetric(a[0], t);
                assert(m > 0);
                assert(tb[m - 1] == t);
            }
            if tb.contains(t) {
                let i = choose|i: int| 0 <= i < tb.len() && tb[i] == t;
                assert(b[i + 1] == t);
                assert(b.contains(t));
                assert(a.contains(t));
                let m = choose|m: int| 0 <= m < a.len() && a[m] == t;
                assert(text_lt(b[0], b[i + 1]));
                lemma_text_lt_asymmetric(b[0], t);
                assert(m > 0);
                assert(ta[m - 1] == t);
            }
        }
        lemma_sorted_unique(ta, tb);
        assert(a =~= seq![a[0]] + ta);
        assert(b =~= seq![b[0]] + tb);
    }
}

/// Puts a string at its place in a sorted list, unless the list holds it.
pub fn insert_sorted(sorted: &mut Vec<String>, text: String)
    ensures
        text_seq(final(sorted)@) == with_text(text_seq(old(sorted)@), text@),
{
    let ghost before = text_seq(sorted@);
    let mut i: usize = 0;
    proof {
        assert(before.skip(0) =~= before);
        assert(before.take(0) + with_text(before, text@) =~= with_text(before, text@));
    }
    while i < sorted.len()
        invariant
            i <= sorted.len(),
            sorted@ == old(sorted)@,
            before == text_seq(sorted@),
            with_text(before, text@) == before.take(i as int) + with_text(
                before.skip(i as int),
                text@,
            ),
        decreases sorted.len() - i,
    {
        let ghost rest = before.skip(i as int);
        assert(rest[0] == sorted@[i as int]@);
        match compare(text.as_str(), sorted[i].as_str()) {
            Order::Equal => {
                assert(before.take(i as int) + rest =~= before);
                return ;
            },
            Order::Less => {
                sorted.insert(i, text);
                assert(text_seq(sorted@) =~= before.take(i as int) + (seq![text@] + rest));
                return ;
            },
            Order::Greater => {
                proof {
                    lemma_text_lt_asymmetric(rest[0], text@);
                    assert(rest.drop_first() =~= before.skip(i + 1));
                    assert(before.take(i as int) + (seq![rest[0]] + with_text(
                        rest.drop_first(),
                        text@,
                    )) =~= before.take(i + 1) + with_text(before.skip(i + 1), text@));
                }
            },
        }
        i += 1;
    }
    assert(before.skip(i as int) =~= Seq::empty());
    sorted.push(text);
    assert(text_seq(sorted@) =~= before.take(i as int) + seq![text@]);
}

/// The strings of a list in the order of their bytes, each once.
pub fn sort_dedup(list: &Vec<String>) -> (sorted: Vec<String>)
    ensures
        text_seq(sorted@) == sorted_set(text_seq(list@)),
{
    let mut sorted: Vec<String> = Vec::new();
    let mut i: usize = 0;
    assert(text_seq(list@).take(0) =~= Seq::empty());
    assert(text_seq(sorted@) =~= Seq::empty());
    while i < list.len()
        invariant
            i <= list.len(),
            text_seq(sorted@) == sorted_set(text_seq(list@).take(i as int)),
        decreases list.len() - i,
    {
        proof {
            let next = text_seq(list@).take(i + 1);
            assert(next.drop_last() =~= text_seq(list@).take(i as int));
            assert(next.last() == list@[i as int]@);
        }
        insert_sorted(&mut sorted, list[i].clone());
        i += 1;
    }
    assert(text_seq(list@).take(i as int) =~= text_seq(list@));
    sorted
}

} // verus!
