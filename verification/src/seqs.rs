//! First matching position of a sequence, and the part of a sequence that a
//! row of flags selects.

use vstd::prelude::*;

verus! {

/// Whether `i` is the position of the first element of `s` that satisfies
/// `p`.
pub open spec fn is_first<T>(s: Seq<T>, p: spec_fn(T) -> bool, i: int) -> bool {
    &&& 0 <= i < s.len()
    &&& p(s[i])
    &&& forall|j: int| 0 <= j < i ==> !p(#[trigger] s[j])
}

/// Position of the first element of `s` that satisfies `p`, if there is one.
pub open spec fn first<T>(s: Seq<T>, p: spec_fn(T) -> bool) -> Option<int> {
    if exists|i: int| is_first(s, p, i) {
        Some(choose|i: int| is_first(s, p, i))
    } else {
        None
    }
}

/// The elements of `s` whose flag is set, in order.
pub open spec fn selected<T>(s: Seq<T>, flags: Seq<bool>) -> Seq<T>
    decreases s.len(),
{
    if s.len() == 0 {
        Seq::empty()
    } else if flags[s.len() - 1] {
        selected(s.drop_last(), flags).push(s.last())
    } else {
        selected(s.drop_last(), flags)
    }
}

/// `first` is the position that `is_first` describes.
pub proof fn lemma_first_at<T>(s: Seq<T>, p: spec_fn(T) -> bool, i: int)
    requires
        is_first(s, p, i),
    ensures
        first(s, p) == Some(i),
{
    let k = choose|k: int| is_first(s, p, k);
    assert(is_first(s, p, k));
    if k < i {
        assert(!p(s[k]));
    } else if i < k {
        assert(!p(s[i]));
    }
}

/// Where nothing satisfies `p` there is no first position.
pub proof fn lemma_first_none<T>(s: Seq<T>, p: spec_fn(T) -> bool)
    requires
        forall|i: int| 0 <= i < s.len() ==> !p(#[trigger] s[i]),
    ensures
        first(s, p) is None,
{
}

/// What `first` says in either case.
pub proof fn lemma_first<T>(s: Seq<T>, p: spec_fn(T) -> bool)
    ensures
        first(s, p) is Some ==> is_first(s, p, first(s, p)->0),
        first(s, p) is None ==> forall|i: int| 0 <= i < s.len() ==> !p(#[trigger] s[i]),
{
    if first(s, p) is None {
        assert forall|i: int| 0 <= i < s.len() implies !p(#[trigger] s[i]) by {
            lemma_first_below(s, p, i);
        }
    }
}

/// A match at `i` gives a first match at or before `i`.
proof fn lemma_first_below<T>(s: Seq<T>, p: spec_fn(T) -> bool, i: int)
    requires
        0 <= i < s.len(),
    ensures
        p(s[i]) ==> exists|k: int| k <= i && is_first(s, p, k),
    decreases i,
{
    if p(s[i]) {
        if forall|j: int| 0 <= j < i ==> !p(#[trigger] s[j]) {
            assert(is_first(s, p, i));
        } else {
            let j = choose|j: int| 0 <= j < i && p(#[trigger] s[j]);
            lemma_first_below(s, p, j);
        }
    }
}

/// Flags that record a predicate select what the predicate filters.
pub proof fn lemma_selected_is_filter<T>(s: Seq<T>, flags: Seq<bool>, p: spec_fn(T) -> bool)
    requires
        s.len() <= flags.len(),
        forall|i: int| 0 <= i < s.len() ==> flags[i] == p(#[trigger] s[i]),
    ensures
        selected(s, flags) == s.filter(p),
    decreases s.len(),
{
    reveal(Seq::filter);
    if s.len() > 0 {
        assert forall|i: int| 0 <= i < s.drop_last().len() implies flags[i] == p(
            #[trigger] s.drop_last()[i],
        ) by {
            assert(s.drop_last()[i] == s[i]);
        }
        lemma_selected_is_filter(s.drop_last(), flags, p);
    }
}

/// Only the flags of the elements matter.
pub proof fn lemma_selected_prefix<T>(s: Seq<T>, flags: Seq<bool>, more: Seq<bool>)
    requires
        forall|i: int| 0 <= i < s.len() ==> flags[i] == #[trigger] more[i],
    ensures
        selected(s, flags) == selected(s, more),
    decreases s.len(),
{
    if s.len() > 0 {
        lemma_selected_prefix(s.drop_last(), flags, more);
    }
}

/// What is selected was there.
pub proof fn lemma_selected_from<T>(s: Seq<T>, flags: Seq<bool>, i: int)
    requires
        0 <= i < selected(s, flags).len(),
    ensures
        exists|k: int| 0 <= k < s.len() && s[k] == selected(s, flags)[i],
    decreases s.len(),
{
    let rest = selected(s.drop_last(), flags);
    if i < rest.len() {
        lemma_selected_from(s.drop_last(), flags, i);
        let k = choose|k: int| 0 <= k < s.drop_last().len() && s.drop_last()[k] == rest[i];
        assert(s[k] == rest[i]);
    } else {
        assert(s[s.len() - 1] == selected(s, flags)[i]);
    }
}

/// Filtering one more element.
pub proof fn lemma_filter_step<T>(s: Seq<T>, p: spec_fn(T) -> bool, i: int)
    requires
        0 <= i < s.len(),
    ensures
        s.take(i + 1).filter(p) == if p(s[i]) {
            s.take(i).filter(p).push(s[i])
        } else {
            s.take(i).filter(p)
        },
{
    reveal(Seq::filter);
    assert(s.take(i + 1).drop_last() =~= s.take(i));
    assert(s.take(i + 1).last() == s[i]);
}

/// What a filter keeps was there and satisfies the predicate.
pub proof fn lemma_filter_from<T>(s: Seq<T>, p: spec_fn(T) -> bool, a: int)
    requires
        0 <= a < s.filter(p).len(),
    ensures
        p(s.filter(p)[a]),
        exists|k: int| 0 <= k < s.len() && #[trigger] s[k] == s.filter(p)[a],
    decreases s.len(),
{
    reveal(Seq::filter);
    let rest = s.drop_last().filter(p);
    if a < rest.len() {
        lemma_filter_from(s.drop_last(), p, a);
        let k = choose|k: int| 0 <= k < s.drop_last().len() && #[trigger] s.drop_last()[k] == rest[a];
        assert(s[k] == rest[a]);
    } else {
        assert(s[s.len() - 1] == s.filter(p)[a]);
    }
}

/// A filter keeps what satisfies the predicate.
pub proof fn lemma_filter_keeps<T>(s: Seq<T>, p: spec_fn(T) -> bool, k: int)
    requires
        0 <= k < s.len(),
        p(s[k]),
    ensures
        exists|a: int| 0 <= a < s.filter(p).len() && #[trigger] s.filter(p)[a] == s[k],
    decreases s.len(),
{
    reveal(Seq::filter);
    let rest = s.drop_last().filter(p);
    if k < s.len() - 1 {
        assert(s.drop_last()[k] == s[k]);
        lemma_filter_keeps(s.drop_last(), p, k);
        let a = choose|a: int| 0 <= a < rest.len() && #[trigger] rest[a] == s.drop_last()[k];
        assert(s.filter(p)[a] == s[k]);
    } else {
        assert(s.filter(p)[rest.len() as int] == s[k]);
    }
}

/// A filter keeps the order.
pub proof fn lemma_filter_order<T>(s: Seq<T>, p: spec_fn(T) -> bool, a: int, b: int)
    requires
        0 <= a < b < s.filter(p).len(),
    ensures
        exists|k: int, l: int|
            0 <= k < l < s.len() && #[trigger] s[k] == s.filter(p)[a] && #[trigger] s[l]
                == s.filter(p)[b],
    decreases s.len(),
{
    reveal(Seq::filter);
    let init = s.drop_last();
    let rest = init.filter(p);
    if b < rest.len() {
        lemma_filter_order(init, p, a, b);
        let (k, l) = choose|k: int, l: int|
            0 <= k < l < init.len() && #[trigger] init[k] == rest[a] && #[trigger] init[l] == rest[b];
        assert(s[k] == rest[a] && s[l] == rest[b]);
    } else {
        lemma_filter_from(init, p, a);
        let k = choose|k: int| 0 <= k < init.len() && #[trigger] init[k] == rest[a];
        assert(s[k] == rest[a] && s[s.len() - 1] == s.filter(p)[b]);
    }
}

/// Where what a filter keeps was.
pub proof fn lemma_filter_positions<T>(s: Seq<T>, p: spec_fn(T) -> bool) -> (positions: Seq<int>)
    ensures
        positions.len() == s.filter(p).len(),
        forall|n: int|
            0 <= n < positions.len() ==> 0 <= #[trigger] positions[n] < s.len() && s[positions[n]]
                == s.filter(p)[n],
        forall|n: int, m: int|
            0 <= n < m < positions.len() ==> #[trigger] positions[n] < #[trigger] positions[m],
        forall|y: int| #[trigger] positions.contains(y) <==> 0 <= y < s.len() && p(s[y]),
    decreases s.len(),
{
    reveal(Seq::filter);
    if s.len() == 0 {
        Seq::empty()
    } else {
        let init = s.drop_last();
        let rest = lemma_filter_positions(init, p);
        let last = s.len() - 1;
        assert forall|n: int| 0 <= n < rest.len() implies 0 <= #[trigger] rest[n] < init.len()
            && s[rest[n]] == init.filter(p)[n] by {
            assert(init[rest[n]] == s[rest[n]]);
        }
        assert forall|y: int| #[trigger] rest.contains(y) <==> 0 <= y < last && p(s[y]) by {
            if 0 <= y < last {
                assert(init[y] == s[y]);
            }
        }
        if p(s.last()) {
            let all = rest.push(last);
            assert forall|y: int| #[trigger] all.contains(y) <==> 0 <= y < s.len() && p(s[y]) by {
                if all.contains(y) && y != last {
                    let n = all.index_of(y);
                    assert(rest[n] == y);
                    assert(rest.contains(y));
                }
                if rest.contains(y) {
                    let n = rest.index_of(y);
                    assert(all[n] == y);
                }
                assert(all[rest.len() as int] == last);
            }
            all
        } else {
            rest
        }
    }
}

/// Filtering twice keeps what satisfies both predicates.
pub proof fn lemma_filter_twice<T>(
    s: Seq<T>,
    p: spec_fn(T) -> bool,
    q: spec_fn(T) -> bool,
    both: spec_fn(T) -> bool,
)
    requires
        forall|x: T| #[trigger] both(x) <==> p(x) && q(x),
    ensures
        s.filter(p).filter(q) == s.filter(both),
    decreases s.len(),
{
    reveal(Seq::filter);
    if s.len() > 0 {
        lemma_filter_twice(s.drop_last(), p, q, both);
        assert(both(s.last()) <==> p(s.last()) && q(s.last()));
        if p(s.last()) {
            assert(s.filter(p).drop_last() =~= s.drop_last().filter(p));
        }
    }
}

/// Filtering what a function gives is filtering by what it will give.
pub proof fn lemma_filter_mapped<S, T>(
    s: Seq<S>,
    f: spec_fn(S) -> T,
    q: spec_fn(T) -> bool,
    before: spec_fn(S) -> bool,
)
    requires
        forall|x: S| #[trigger] before(x) <==> q(f(x)),
    ensures
        s.map_values(f).filter(q) == s.filter(before).map_values(f),
    decreases s.len(),
{
    reveal(Seq::filter);
    if s.len() > 0 {
        lemma_filter_mapped(s.drop_last(), f, q, before);
        assert(s.map_values(f).drop_last() =~= s.drop_last().map_values(f));
        assert(before(s.last()) <==> q(f(s.last())));
        if before(s.last()) {
            assert(s.filter(before).map_values(f) =~= s.drop_last().filter(before).map_values(
                f,
            ).push(f(s.last())));
        }
    } else {
        assert(s.map_values(f).filter(q) =~= s.filter(before).map_values(f));
    }
}

/// Predicates that agree filter alike.
pub proof fn lemma_filter_alike<T>(s: Seq<T>, p: spec_fn(T) -> bool, q: spec_fn(T) -> bool)
    requires
        forall|i: int| 0 <= i < s.len() ==> p(#[trigger] s[i]) == q(s[i]),
    ensures
        s.filter(p) == s.filter(q),
    decreases s.len(),
{
    reveal(Seq::filter);
    if s.len() > 0 {
        assert forall|i: int| 0 <= i < s.drop_last().len() implies p(#[trigger] s.drop_last()[i])
            == q(s.drop_last()[i]) by {
            assert(s.drop_last()[i] == s[i]);
        }
        lemma_filter_alike(s.drop_last(), p, q);
        assert(p(s[s.len() - 1]) == q(s[s.len() - 1]));
    }
}

/// A filter that everything passes changes nothing.
pub proof fn lemma_filter_all<T>(s: Seq<T>, p: spec_fn(T) -> bool)
    requires
        forall|i: int| 0 <= i < s.len() ==> p(#[trigger] s[i]),
    ensures
        s.filter(p) == s,
    decreases s.len(),
{
    reveal(Seq::filter);
    if s.len() > 0 {
        assert forall|i: int| 0 <= i < s.drop_last().len() implies p(
            #[trigger] s.drop_last()[i],
        ) by {
            assert(s.drop_last()[i] == s[i]);
        }
        lemma_filter_all(s.drop_last(), p);
        assert(p(s[s.len() - 1]));
        assert(s.drop_last().push(s.last()) =~= s);
    }
}

} // verus!
