//! Stable sorting, stated once for every order the crate lists things in.
//!
//! `sort_by` is the sequence that insertion from the left builds: an element
//! goes behind the last one that may stand before it. The lemmas show that
//! the result is ordered and holds exactly the elements it was given.

use vstd::prelude::*;

verus! {

/// `sorted` with `x` put behind the last element that may stand before `x`.
pub open spec fn insert_by<T>(sorted: Seq<T>, x: T, le: spec_fn(T, T) -> bool) -> Seq<T>
    decreases sorted.len(),
{
    if sorted.len() == 0 {
        seq![x]
    } else if le(sorted.last(), x) {
        sorted.push(x)
    } else {
        insert_by(sorted.drop_last(), x, le).push(sorted.last())
    }
}

/// The elements of `s` in the order `le`; elements that `le` ranks alike
/// keep the order they had in `s`.
pub open spec fn sort_by<T>(s: Seq<T>, le: spec_fn(T, T) -> bool) -> Seq<T>
    decreases s.len(),
{
    if s.len() == 0 {
        Seq::empty()
    } else {
        insert_by(sort_by(s.drop_last(), le), s.last(), le)
    }
}

/// Every element may stand before every later one.
pub open spec fn is_sorted<T>(s: Seq<T>, le: spec_fn(T, T) -> bool) -> bool {
    forall|i: int, j: int| 0 <= i < j < s.len() ==> le(#[trigger] s[i], #[trigger] s[j])
}

/// Of any two elements one may stand before the other.
pub open spec fn is_total<T>(le: spec_fn(T, T) -> bool) -> bool {
    forall|a: T, b: T| #[trigger] le(a, b) || le(b, a)
}

/// If `a` may stand before `b` and `b` before `c`, then `a` may stand before
/// `c`.
pub open spec fn is_transitive<T>(le: spec_fn(T, T) -> bool) -> bool {
    forall|a: T, b: T, c: T| #[trigger] le(a, b) && #[trigger] le(b, c) ==> le(a, c)
}

/// At most the first `limit` elements; all of them when there is no limit.
pub open spec fn limited<T>(s: Seq<T>, limit: Option<usize>) -> Seq<T> {
    match limit {
        Some(n) => if n < s.len() {
            s.take(n as int)
        } else {
            s
        },
        None => s,
    }
}

/// Where insertion puts `x`: behind position `pos - 1`, when that element may
/// stand before `x` and none of the later ones may.
pub proof fn lemma_insert_at<T>(sorted: Seq<T>, x: T, le: spec_fn(T, T) -> bool, pos: int)
    requires
        0 <= pos <= sorted.len(),
        pos > 0 ==> le(sorted[pos - 1], x),
        forall|j: int| pos <= j < sorted.len() ==> !le(#[trigger] sorted[j], x),
    ensures
        insert_by(sorted, x, le) == sorted.insert(pos, x),
    decreases sorted.len(),
{
    if sorted.len() == 0 {
        assert(seq![x] =~= sorted.insert(pos, x));
    } else if pos == sorted.len() {
        assert(sorted.push(x) =~= sorted.insert(pos, x));
    } else {
        assert(!le(sorted[sorted.len() - 1], x));
        let rest = sorted.drop_last();
        assert forall|j: int| pos <= j < rest.len() implies !le(#[trigger] rest[j], x) by {
            assert(rest[j] == sorted[j]);
        }
        lemma_insert_at(rest, x, le, pos);
        assert(rest.insert(pos, x).push(sorted.last()) =~= sorted.insert(pos, x));
    }
}

/// Insertion adds `x` and nothing else.
pub proof fn lemma_insert_elements<T>(sorted: Seq<T>, x: T, le: spec_fn(T, T) -> bool)
    ensures
        insert_by(sorted, x, le).len() == sorted.len() + 1,
        insert_by(sorted, x, le).to_multiset() == sorted.to_multiset().insert(x),
    decreases sorted.len(),
{
    broadcast use vstd::seq_lib::group_to_multiset_ensures;

    if sorted.len() == 0 {
        assert(seq![x] =~= Seq::<T>::empty().push(x));
        assert(sorted =~= Seq::<T>::empty());
    } else if le(sorted.last(), x) {
    } else {
        let rest = sorted.drop_last();
        lemma_insert_elements(rest, x, le);
        assert(sorted =~= rest.push(sorted.last()));
        assert(rest.to_multiset().insert(x).insert(sorted.last()) =~= rest.to_multiset().insert(
            sorted.last(),
        ).insert(x));
    }
}

/// Sorting keeps the elements: each occurs as often as before.
pub proof fn lemma_sort_permutes<T>(s: Seq<T>, le: spec_fn(T, T) -> bool)
    ensures
        sort_by(s, le).len() == s.len(),
        sort_by(s, le).to_multiset() == s.to_multiset(),
    decreases s.len(),
{
    broadcast use vstd::seq_lib::group_to_multiset_ensures;

    if s.len() == 0 {
        assert(s =~= Seq::<T>::empty());
    } else {
        lemma_sort_permutes(s.drop_last(), le);
        lemma_insert_elements(sort_by(s.drop_last(), le), s.last(), le);
        assert(s =~= s.drop_last().push(s.last()));
    }
}

/// Sorting keeps the elements: what is in the result was in the input, and
/// the other way round.
pub proof fn lemma_sort_members<T>(s: Seq<T>, le: spec_fn(T, T) -> bool)
    ensures
        forall|x: T| #[trigger] sort_by(s, le).contains(x) <==> s.contains(x),
{
    broadcast use vstd::seq_lib::group_to_multiset_ensures;

    lemma_sort_permutes(s, le);
    assert forall|x: T| #[trigger] sort_by(s, le).contains(x) <==> s.contains(x) by {
        assert(sort_by(s, le).contains(x) <==> sort_by(s, le).to_multiset().count(x) > 0);
        assert(s.contains(x) <==> s.to_multiset().count(x) > 0);
    }
}

/// Insertion into an ordered sequence gives an ordered sequence.
pub proof fn lemma_insert_sorted<T>(sorted: Seq<T>, x: T, le: spec_fn(T, T) -> bool)
    requires
        is_sorted(sorted, le),
        is_total(le),
        is_transitive(le),
    ensures
        is_sorted(insert_by(sorted, x, le), le),
        forall|i: int|
            0 <= i < insert_by(sorted, x, le).len() ==> #[trigger] insert_by(sorted, x, le)[i] == x
                || sorted.contains(insert_by(sorted, x, le)[i]),
    decreases sorted.len(),
{
    let out = insert_by(sorted, x, le);
    if sorted.len() == 0 {
    } else if le(sorted.last(), x) {
        assert forall|i: int, j: int| 0 <= i < j < out.len() implies le(
            #[trigger] out[i],
            #[trigger] out[j],
        ) by {
            if j < sorted.len() {
                assert(le(sorted[i], sorted[j]));
            } else if i < sorted.len() - 1 {
                assert(le(sorted[i], sorted[sorted.len() - 1]));
                assert(le(sorted[i], sorted.last()) && le(sorted.last(), x));
            }
        }
        assert forall|i: int| 0 <= i < out.len() implies #[trigger] out[i] == x || sorted.contains(
            out[i],
        ) by {
            if i < sorted.len() {
                assert(sorted[i] == out[i]);
            }
        }
    } else {
        let rest = sorted.drop_last();
        let last = sorted.last();
        assert(is_sorted(rest, le)) by {
            assert forall|i: int, j: int| 0 <= i < j < rest.len() implies le(
                #[trigger] rest[i],
                #[trigger] rest[j],
            ) by {
                assert(le(sorted[i], sorted[j]));
            }
        }
        lemma_insert_sorted(rest, x, le);
        let inner = insert_by(rest, x, le);
        assert(le(last, x) || le(x, last));
        assert forall|i: int, j: int| 0 <= i < j < out.len() implies le(
            #[trigger] out[i],
            #[trigger] out[j],
        ) by {
            if j < inner.len() {
                assert(le(inner[i], inner[j]));
            } else {
                assert(out[i] == inner[i]);
                if inner[i] == x {
                } else {
                    assert(rest.contains(inner[i]));
                    let k = choose|k: int| 0 <= k < rest.len() && rest[k] == inner[i];
                    assert(le(sorted[k], sorted[sorted.len() - 1]));
                }
            }
        }
        assert forall|i: int| 0 <= i < out.len() implies #[trigger] out[i] == x || sorted.contains(
            out[i],
        ) by {
            if i < inner.len() {
                assert(out[i] == inner[i]);
                if inner[i] != x {
                    let k = choose|k: int| 0 <= k < rest.len() && rest[k] == inner[i];
                    assert(sorted[k] == inner[i]);
                }
            } else {
                assert(sorted[sorted.len() - 1] == out[i]);
            }
        }
    }
}

/// Under a total and transitive order the sorted sequence is ordered.
pub proof fn lemma_sort_sorted<T>(s: Seq<T>, le: spec_fn(T, T) -> bool)
    requires
        is_total(le),
        is_transitive(le),
    ensures
        is_sorted(sort_by(s, le), le),
    decreases s.len(),
{
    if s.len() > 0 {
        lemma_sort_sorted(s.drop_last(), le);
        lemma_insert_sorted(sort_by(s.drop_last(), le), s.last(), le);
    }
}

/// Sorting the first `i + 1` elements, from sorting the first `i`.
pub proof fn lemma_sort_take_step<T>(s: Seq<T>, i: int, le: spec_fn(T, T) -> bool)
    requires
        0 <= i < s.len(),
    ensures
        sort_by(s.take(i + 1), le) == insert_by(sort_by(s.take(i), le), s[i], le),
{
    assert(s.take(i + 1).drop_last() =~= s.take(i));
    assert(s.take(i + 1).last() == s[i]);
}

} // verus!
