//! The order of texts. Two texts are compared character by character, by code
//! point; the first place in which they differ decides, and a text comes before
//! every text that continues it.

use vstd::prelude::*;
use vstd::std_specs::iter::IteratorSpec;

verus! {

/// `a` and `b` agree on their first `k` characters, and at place `k` the text `a`
/// ends or holds the lesser character, while `b` goes on.
pub open spec fn parts_at(a: Seq<char>, b: Seq<char>, k: int) -> bool {
    &&& 0 <= k <= a.len()
    &&& k < b.len()
    &&& forall|i: int| 0 <= i < k ==> a[i] == b[i]
    &&& (k < a.len() ==> a[k] < b[k])
}

/// `a` comes strictly before `b`.
pub open spec fn precedes(a: Seq<char>, b: Seq<char>) -> bool {
    exists|k: int| parts_at(a, b, k)
}

/// The keys of a sequence, each strictly before the next.
pub open spec fn ascending(keys: Seq<Seq<char>>) -> bool {
    forall|i: int, j: int| 0 <= i < j < keys.len() ==> precedes(keys[i], keys[j])
}

/// No text comes before itself.
pub proof fn lemma_precedes_irreflexive(a: Seq<char>)
    ensures
        !precedes(a, a),
{
}

/// The order is transitive.
pub proof fn lemma_precedes_transitive(a: Seq<char>, b: Seq<char>, c: Seq<char>)
    requires
        precedes(a, b),
        precedes(b, c),
    ensures
        precedes(a, c),
{
    let k1 = choose|k: int| parts_at(a, b, k);
    let k2 = choose|k: int| parts_at(b, c, k);
    let k = if k1 <= k2 { k1 } else { k2 };
    assert(parts_at(a, c, k));
}

/// Of two texts at most one comes before the other.
pub proof fn lemma_precedes_asymmetric(a: Seq<char>, b: Seq<char>)
    requires
        precedes(a, b),
    ensures
        !precedes(b, a),
        a != b,
{
    if precedes(b, a) {
        lemma_precedes_transitive(a, b, a);
    }
    lemma_precedes_irreflexive(a);
}

/// Where one text stands with respect to another.
#[derive(Clone, Copy, Debug, PartialEq, Eq, Structural)]
pub enum TextOrder {
    Before,
    Same,
    After,
}

/// Says where `a` stands with respect to `b`.
pub fn text_order(a: &str, b: &str) -> (r: TextOrder)
    ensures
        r == TextOrder::Before <==> precedes(a@, b@),
        r == TextOrder::Same <==> a@ == b@,
        r == TextOrder::After <==> precedes(b@, a@),
{
    broadcast use vstd::string::group_string_axioms;

    let mut rest_a = a.chars();
    let mut rest_b = b.chars();
    let ghost mut k: int = 0;
    assert(rest_a.remaining() == a@);
    assert(rest_b.remaining() == b@);
    loop
        invariant
            0 <= k <= a@.len(),
            k <= b@.len(),
            rest_a.remaining() == a@.skip(k),
            rest_b.remaining() == b@.skip(k),
            forall|i: int| 0 <= i < k ==> a@[i] == b@[i],
        decreases a@.len() - k,
    {
        let ghost before_a = rest_a.remaining();
        let ghost before_b = rest_b.remaining();
        let x = rest_a.next();
        let y = rest_b.next();
        assert(before_a.len() > 0 ==> x == Some(before_a[0]) && rest_a.remaining()
            == before_a.drop_first());
        assert(before_a.len() == 0 ==> x is None);
        assert(before_b.len() > 0 ==> y == Some(before_b[0]) && rest_b.remaining()
            == before_b.drop_first());
        assert(before_b.len() == 0 ==> y is None);
        match (x, y) {
            (None, None) => {
                proof {
                    assert(a@ =~= b@);
                    lemma_precedes_irreflexive(a@);
                }
                return TextOrder::Same;
            },
            (None, Some(_)) => {
                proof {
                    assert(parts_at(a@, b@, k));
                    lemma_precedes_asymmetric(a@, b@);
                }
                return TextOrder::Before;
            },
            (Some(_), None) => {
                proof {
                    assert(parts_at(b@, a@, k));
                    lemma_precedes_asymmetric(b@, a@);
                }
                return TextOrder::After;
            },
            (Some(c), Some(d)) => {
                assert(c == a@[k] && d == b@[k]);
                if c < d {
                    proof {
                        assert(parts_at(a@, b@, k));
                        lemma_precedes_asymmetric(a@, b@);
                    }
                    return TextOrder::Before;
                } else if d < c {
                    proof {
                        assert(parts_at(b@, a@, k));
                        lemma_precedes_asymmetric(b@, a@);
                    }
                    return TextOrder::After;
                }
                proof {
                    assert(a@.skip(k).drop_first() =~= a@.skip(k + 1));
                    assert(b@.skip(k).drop_first() =~= b@.skip(k + 1));
                    k = k + 1;
                }
            },
        }
    }
}

} // verus!
