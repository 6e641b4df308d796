//! The order of names: lexicographic by code point, which is the order of
//! `String` itself.

use vstd::prelude::*;
use vstd::std_specs::iter::IteratorSpec;

verus! {

/// How two names compare.
#[derive(Debug, Clone, Copy, PartialEq, Eq, Structural)]
pub enum NameOrder {
    Before,
    Same,
    After,
}

/// Whether the names agree up to `i` and `a` then ends, or has the smaller
/// character.
pub open spec fn below_at(a: Seq<char>, b: Seq<char>, i: int) -> bool {
    &&& 0 <= i <= a.len()
    &&& i < b.len()
    &&& a.take(i) == b.take(i)
    &&& i == a.len() || a[i] < b[i]
}

/// Whether name `a` comes before name `b`.
pub open spec fn name_lt(a: Seq<char>, b: Seq<char>) -> bool {
    exists|i: int| below_at(a, b, i)
}

/// No name comes before itself.
pub proof fn lemma_name_lt_irreflexive(a: Seq<char>)
    ensures
        !name_lt(a, a),
{
}

/// The order is transitive.
pub proof fn lemma_name_lt_transitive(a: Seq<char>, b: Seq<char>, c: Seq<char>)
    requires
        name_lt(a, b),
        name_lt(b, c),
    ensures
        name_lt(a, c),
{
    let i = choose|i: int| below_at(a, b, i);
    let j = choose|j: int| below_at(b, c, j);
    let k = if i <= j {
        i
    } else {
        j
    };
    assert forall|m: int| 0 <= m < k implies a[m] == c[m] by {
        assert(a.take(i)[m] == b.take(i)[m]);
        assert(b.take(j)[m] == c.take(j)[m]);
    }
    assert(a.take(k) =~= c.take(k));
    if i < j {
        assert(b.take(j)[i] == c.take(j)[i]);
    } else if j < i {
        assert(a.take(i)[j] == b.take(i)[j]);
    }
    assert(below_at(a, c, k));
}

/// Of two names at most one comes before the other.
pub proof fn lemma_name_lt_asymmetric(a: Seq<char>, b: Seq<char>)
    requires
        name_lt(a, b),
    ensures
        !name_lt(b, a),
        a != b,
{
    lemma_name_lt_irreflexive(a);
    if name_lt(b, a) {
        lemma_name_lt_transitive(a, b, a);
    }
}

/// Of two different names one comes before the other.
pub proof fn lemma_name_lt_total(a: Seq<char>, b: Seq<char>)
    ensures
        name_lt(a, b) || name_lt(b, a) || a == b,
{
    assert(a.take(0) =~= b.take(0));
    lemma_name_lt_total_from(a, b, 0);
}

/// Of two names that agree up to `i` and differ, one comes before the other.
proof fn lemma_name_lt_total_from(a: Seq<char>, b: Seq<char>, i: int)
    requires
        0 <= i <= a.len(),
        i <= b.len(),
        a.take(i) == b.take(i),
    ensures
        name_lt(a, b) || name_lt(b, a) || a == b,
    decreases a.len() - i,
{
    if i == a.len() && i == b.len() {
        assert(a.take(i) =~= a);
        assert(b.take(i) =~= b);
    } else if i == a.len() || i < b.len() && a[i] < b[i] {
        assert(below_at(a, b, i));
    } else if i == b.len() || b[i] < a[i] {
        assert(below_at(b, a, i));
    } else {
        assert(a.take(i + 1) =~= a.take(i).push(a[i]));
        assert(b.take(i + 1) =~= b.take(i).push(b[i]));
        lemma_name_lt_total_from(a, b, i + 1);
    }
}

/// How two names compare.
pub fn compare_names(a: &str, b: &str) -> (r: NameOrder)
    ensures
        r == NameOrder::Before <==> name_lt(a@, b@),
        r == NameOrder::Same <==> a@ == b@,
        r == NameOrder::After <==> name_lt(b@, a@),
{
    let mut left = a.chars();
    let mut right = b.chars();
    let ghost mut i: int = 0;
    loop
        invariant
            0 <= i <= a@.len(),
            i <= b@.len(),
            a@.take(i) == b@.take(i),
            left.remaining() == a@.skip(i),
            right.remaining() == b@.skip(i),
        decreases a@.len() - i,
    {
        match (left.next(), right.next()) {
            (Some(l), Some(r)) => {
                assert(l == a@[i] && r == b@[i]);
                if l < r {
                    proof {
                        assert(below_at(a@, b@, i));
                        lemma_name_lt_asymmetric(a@, b@);
                    }
                    return NameOrder::Before;
                }
                if r < l {
                    proof {
                        assert(below_at(b@, a@, i));
                        lemma_name_lt_asymmetric(b@, a@);
                    }
                    return NameOrder::After;
                }
                proof {
                    assert(a@.take(i + 1) =~= a@.take(i).push(l));
                    assert(b@.take(i + 1) =~= b@.take(i).push(r));
                    i = i + 1;
                }
            },
            (None, Some(_)) => {
                proof {
                    assert(below_at(a@, b@, i));
                    lemma_name_lt_asymmetric(a@, b@);
                }
                return NameOrder::Before;
            },
            (Some(_), None) => {
                proof {
                    assert(below_at(b@, a@, i));
                    lemma_name_lt_asymmetric(b@, a@);
                }
                return NameOrder::After;
            },
            (None, None) => {
                assert(a@.take(i) =~= a@);
                assert(b@.take(i) =~= b@);
                proof {
                    lemma_name_lt_irreflexive(a@);
                }
                return NameOrder::Same;
            },
        }
    }
}

} // verus!
