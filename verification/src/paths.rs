//! Paths as they are ordered: component by component.
//!
//! Splitting a path into its components is the platform's work, so a path
//! comes with its components.  Two paths with the same components are the
//! same path; a path comes before another where the first component in
//! which they differ comes first, or where it is the beginning of the
//! other.  Of two components the one of the lower kind comes first: a
//! prefix, the root, the current directory, the parent directory, a name;
//! of two of one kind, the one whose text comes first by its bytes.

use crate::order::{
    compare, lemma_text_lt_asymmetric, lemma_text_lt_transitive, text_lt, Order,
};
use vstd::prelude::*;
use vstd::string::*;

verus! {

/// A component of a path.
#[derive(Clone, Debug)]
pub struct PathPart {
    /// The kind of the component, as its place in the order of kinds: 0
    /// for a prefix, 1 for the root, 2 for the current directory, 3 for
    /// the parent directory, 4 for a name.
    pub rank: u8,
    /// The component as text.
    pub name: String,
}

/// A component as a mathematical value: its kind and its text.
pub type Part = (u8, Seq<char>);

/// A path that was found, with its components in order.
#[derive(Clone, Debug)]
pub struct FoundPath {
    /// The path as text.
    pub text: String,
    /// The components of the path.
    pub components: Vec<PathPart>,
}

/// The components of a list, as values.
pub open spec fn parts_of(list: Seq<PathPart>) -> Seq<Part> {
    Seq::new(list.len(), |i: int| (list[i].rank, list[i].name@))
}

/// The components of a path, as values.
pub open spec fn components_of(path: FoundPath) -> Seq<Part> {
    parts_of(path.components@)
}

/// The component `p` comes before the component `q`: it is of a lower
/// kind, or of the same kind with a text that comes first.
pub open spec fn part_lt(p: Part, q: Part) -> bool {
    p.0 < q.0 || (p.0 == q.0 && text_lt(p.1, q.1))
}

/// The same text and the same components.
pub open spec fn same_path(a: FoundPath, b: FoundPath) -> bool {
    a.text@ == b.text@ && components_of(a) == components_of(b)
}

/// `a` and `b` agree on their first `k` components, and there `a` ends
/// while `b` goes on, or `a` has the component that comes first.
pub open spec fn components_lt_at(a: Seq<Part>, b: Seq<Part>, k: int) -> bool {
    &&& 0 <= k <= a.len()
    &&& k <= b.len()
    &&& forall|i: int| 0 <= i < k ==> a[i] == b[i]
    &&& (k == a.len() && k < b.len()) || (k < a.len() && k < b.len() && part_lt(a[k], b[k]))
}

/// `a` comes before `b` in the order of paths: the first component in
/// which they differ decides, and a path that is the beginning of another
/// comes before it.
pub open spec fn components_lt(a: Seq<Part>, b: Seq<Part>) -> bool {
    exists|k: int| components_lt_at(a, b, k)
}

/// Each path comes before the next in the order of paths; so no path
/// stands twice.
pub open spec fn ascending(files: Seq<FoundPath>) -> bool {
    forall|i: int, j: int|
        0 <= i < j < files.len() ==> components_lt(
            components_of(#[trigger] files[i]),
            components_of(#[trigger] files[j]),
        )
}

/// The order of paths is transitive.
pub proof fn lemma_components_lt_transitive(
    a: Seq<Part>,
    b: Seq<Part>,
    c: Seq<Part>,
)
    requires
        components_lt(a, b),
        components_lt(b, c),
    ensures
        components_lt(a, c),
{
    let k1 = choose|k: int| components_lt_at(a, b, k);
    let k2 = choose|k: int| components_lt_at(b, c, k);
    if k1 < k2 {
        assert(components_lt_at(a, c, k1));
    } else if k2 < k1 {
        assert(components_lt_at(a, c, k2));
    } else {
        if k1 < a.len() && a[k1].0 == b[k1].0 && b[k1].0 == c[k1].0 {
            lemma_text_lt_transitive(a[k1].1, b[k1].1, c[k1].1);
        }
        assert(components_lt_at(a, c, k1));
    }
}

/// Of two paths at most one comes before the other, and then they differ.
pub proof fn lemma_components_lt_asymmetric(a: Seq<Part>, b: Seq<Part>)
    requires
        components_lt(a, b),
    ensures
        !components_lt(b, a),
        a != b,
{
    let k1 = choose|k: int| components_lt_at(a, b, k);
    if k1 < a.len() && a[k1].0 == b[k1].0 {
        lemma_text_lt_asymmetric(a[k1].1, b[k1].1);
    }
    if components_lt(b, a) {
        let k2 = choose|k: int| components_lt_at(b, a, k);
        if k1 < k2 {
            assert(b[k1] == a[k1]);
        } else if k2 < k1 {
            assert(a[k2] == b[k2]);
            if b[k2].0 == a[k2].0 {
                lemma_text_lt_asymmetric(b[k2].1, a[k2].1);
            }
        }
        assert(false);
    }
}

/// What the comparison of the components `a` with the components `b`
/// yields.
pub open spec fn components_order(a: Seq<Part>, b: Seq<Part>) -> Order {
    if a == b {
        Order::Equal
    } else if components_lt(a, b) {
        Order::Less
    } else {
        Order::Greater
    }
}

/// Compares two lists of components in the order of paths.  The order is
/// total: where the result is `Greater`, `b` comes before `a`.
pub fn compare_components(a: &Vec<PathPart>, b: &Vec<PathPart>) -> (r: Order)
    ensures
        r == components_order(parts_of(a@), parts_of(b@)),
        r is Greater ==> components_lt(parts_of(b@), parts_of(a@)),
{
    let ghost x = parts_of(a@);
    let ghost y = parts_of(b@);
    let n = if a.len() < b.len() {
        a.len()
    } else {
        b.len()
    };
    let mut i: usize = 0;
    while i < n
        invariant
            x == parts_of(a@),
            y == parts_of(b@),
            n <= a@.len(),
            n <= b@.len(),
            n == a@.len() || n == b@.len(),
            i <= n,
            forall|j: int| 0 <= j < i ==> x[j] == y[j],
        decreases n - i,
    {
        let order = if a[i].rank < b[i].rank {
            Order::Less
        } else if a[i].rank > b[i].rank {
            Order::Greater
        } else {
            compare(a[i].name.as_str(), b[i].name.as_str())
        };
        match order {
            Order::Less => {
                proof {
                    assert(components_lt_at(x, y, i as int));
                    lemma_components_lt_asymmetric(x, y);
                }
                return Order::Less;
            },
            Order::Greater => {
                proof {
                    assert(components_lt_at(y, x, i as int));
                    lemma_components_lt_asymmetric(y, x);
                }
                return Order::Greater;
            },
            Order::Equal => {},
        }
        i += 1;
    }
    if a.len() < b.len() {
        proof {
            assert(components_lt_at(x, y, n as int));
            lemma_components_lt_asymmetric(x, y);
        }
        Order::Less
    } else if a.len() > b.len() {
        proof {
            assert(components_lt_at(y, x, n as int));
            lemma_components_lt_asymmetric(y, x);
        }
        Order::Greater
    } else {
        assert(x =~= y);
        Order::Equal
    }
}

impl FoundPath {
    /// A copy of the path.
    pub fn duplicate(&self) -> (copy: FoundPath)
        ensures
            same_path(copy, *self),
    {
        let mut components: Vec<PathPart> = Vec::new();
        let mut i: usize = 0;
        while i < self.components.len()
            invariant
                i <= self.components@.len(),
                components@.len() == i,
                forall|j: int|
                    0 <= j < i ==> (#[trigger] components@[j]).rank == self.components@[j].rank
                        && components@[j].name@ == self.components@[j].name@,
            decreases self.components.len() - i,
        {
            components.push(
                PathPart { rank: self.components[i].rank, name: self.components[i].name.clone() },
            );
            i += 1;
        }
        let copy = FoundPath { text: self.text.clone(), components };
        assert(components_of(copy) =~= components_of(*self));
        copy
    }
}

/// The list holds a path with these components.
pub open spec fn lists(files: Seq<FoundPath>, components: Seq<Part>) -> bool {
    exists|k: int| 0 <= k < files.len() && components_of(#[trigger] files[k]) == components
}

/// A set of paths has one ascending list: two ascending lists that hold
/// the same paths hold them at the same places.  So the order of the
/// selected files depends on nothing but which paths are kept.
pub proof fn lemma_ascending_unique(a: Seq<FoundPath>, b: Seq<FoundPath>)
    requires
        ascending(a),
        ascending(b),
        forall|key: Seq<Part>| lists(a, key) <==> lists(b, key),
    ensures
        a.len() == b.len(),
        forall|k: int|
            0 <= k < a.len() ==> components_of(#[trigger] a[k]) == components_of(#[trigger] b[k]),
    decreases a.len(),
{
    if a.len() == 0 {
        if b.len() > 0 {
            assert(lists(b, components_of(b[0])));
            assert(lists(a, components_of(b[0])));
        }
    } else {
        let first = components_of(a[0]);
        assert(lists(a, first));
        assert(lists(b, first));
        let j = choose|j: int| 0 <= j < b.len() && components_of(#[trigger] b[j]) == first;
        if j > 0 {
            let low = components_of(b[0]);
            assert(components_lt(low, components_of(b[j])));
            assert(lists(b, low));
            assert(lists(a, low));
            let i = choose|i: int| 0 <= i < a.len() && components_of(#[trigger] a[i]) == low;
            lemma_components_lt_asymmetric(low, first);
            if i > 0 {
                assert(components_lt(components_of(a[0]), components_of(a[i])));
            }
            assert(false);
        }
        let ta = a.drop_first();
        let tb = b.drop_first();
        assert forall|p: int, q: int| 0 <= p < q < ta.len() implies components_lt(
            components_of(#[trigger] ta[p]),
            components_of(#[trigger] ta[q]),
        ) by {
            assert(ta[p] == a[p + 1] && ta[q] == a[q + 1]);
        }
        assert forall|p: int, q: int| 0 <= p < q < tb.len() implies components_lt(
            components_of(#[trigger] tb[p]),
            components_of(#[trigger] tb[q]),
        ) by {
            assert(tb[p] == b[p + 1] && tb[q] == b[q + 1]);
        }
        assert forall|key: Seq<Part>| lists(ta, key) <==> lists(tb, key) by {
            if lists(ta, key) {
                let i = choose|i: int| 0 <= i < ta.len() && components_of(#[trigger] ta[i]) == key;
                assert(ta[i] == a[i + 1]);
                assert(components_lt(components_of(a[0]), components_of(a[i + 1])));
                lemma_components_lt_asymmetric(first, key);
                assert(lists(a, key));
                let m = choose|m: int| 0 <= m < b.len() && components_of(#[trigger] b[m]) == key;
                assert(m > 0);
                assert(tb[m - 1] == b[m]);
            }
            if lists(tb, key) {
                let i = choose|i: int| 0 <= i < tb.len() && components_of(#[trigger] tb[i]) == key;
                assert(tb[i] == b[i + 1]);
                assert(components_lt(components_of(b[0]), components_of(b[i + 1])));
                lemma_components_lt_asymmetric(first, key);
                assert(lists(b, key));
                let m = choose|m: int| 0 <= m < a.len() && components_of(#[trigger] a[m]) == key;
                assert(m > 0);
                assert(ta[m - 1] == a[m]);
            }
        }
        lemma_ascending_unique(ta, tb);
        assert forall|k: int| 0 <= k < a.len() implies components_of(#[trigger] a[k])
            == components_of(#[trigger] b[k]) by {
            if k > 0 {
                assert(ta[k - 1] == a[k] && tb[k - 1] == b[k]);
            }
        }
    }
}

/// `after` is `before` with the path put in at some place.
pub open spec fn put_in(before: Seq<FoundPath>, after: Seq<FoundPath>, path: FoundPath) -> bool {
    exists|at: int| 0 <= at <= before.len() && after == #[trigger] before.insert(at, path)
}

/// Puts a path at its place in an ascending list, unless the list holds a
/// path with the same components.
pub fn insert_path(files: &mut Vec<FoundPath>, path: FoundPath)
    requires
        ascending(old(files)@),
    ensures
        ascending(final(files)@),
        lists(final(files)@, components_of(path)),
        (final(files)@ == old(files)@ && lists(old(files)@, components_of(path))) || put_in(
            old(files)@,
            final(files)@,
            path,
        ),
{
    let ghost before = files@;
    let ghost key = components_of(path);
    let mut i: usize = 0;
    while i < files.len()
        invariant
            i <= files.len(),
            files@ == before,
            before == old(files)@,
            key == components_of(path),
            ascending(before),
            forall|j: int| 0 <= j < i ==> components_lt(components_of(#[trigger] before[j]), key),
        decreases files.len() - i,
    {
        match compare_components(&path.components, &files[i].components) {
            Order::Equal => {
                assert(components_of(before[i as int]) == key);
                return ;
            },
            Order::Less => {
                files.insert(i, path);
                proof {
                    let after = files@;
                    assert(after == before.insert(i as int, path));
                    assert(put_in(before, after, path));
                    assert(components_of(after[i as int]) == key);
                    assert forall|p: int, q: int| 0 <= p < q < after.len() implies components_lt(
                        components_of(#[trigger] after[p]),
                        components_of(#[trigger] after[q]),
                    ) by {
                        if q < i {
                            assert(after[p] == before[p] && after[q] == before[q]);
                        } else if q == i {
                            assert(after[p] == before[p]);
                        } else if p < i {
                            assert(after[p] == before[p] && after[q] == before[q - 1]);
                            if q - 1 > p {
                            } else {
                                lemma_components_lt_transitive(
                                    components_of(before[p]),
                                    key,
                                    components_of(before[q - 1]),
                                );
                            }
                        } else if p == i {
                            assert(after[q] == before[q - 1]);
                            if q - 1 > i {
                                lemma_components_lt_transitive(
                                    key,
                                    components_of(before[i as int]),
                                    components_of(before[q - 1]),
                                );
                            }
                        } else {
                            assert(after[p] == before[p - 1] && after[q] == before[q - 1]);
                        }
                    }
                }
                return ;
            },
            Order::Greater => {},
        }
        i += 1;
    }
    files.push(path);
    proof {
        let after = files@;
        assert(after =~= before.insert(before.len() as int, path));
        assert(put_in(before, after, path));
        assert(components_of(after[before.len() as int]) == key);
        assert forall|p: int, q: int| 0 <= p < q < after.len() implies components_lt(
            components_of(#[trigger] after[p]),
            components_of(#[trigger] after[q]),
        ) by {
            assert(after[p] == before[p]);
            if q < before.len() {
                assert(after[q] == before[q]);
            }
        }
    }
}

} // verus!
