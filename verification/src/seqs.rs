//! Facts about sequences that the store's proofs share.

use vstd::prelude::*;

verus! {

/// Filtering a sequence with one more element at its end.
pub proof fn lemma_filter_push<A>(s: Seq<A>, x: A, pred: spec_fn(A) -> bool)
    ensures
        s.push(x).filter(pred) == if pred(x) {
            s.filter(pred).push(x)
        } else {
            s.filter(pred)
        },
{
    reveal(Seq::filter);
    assert(s.push(x).drop_last() =~= s);
}

/// Filtering the first `i + 1` elements, from filtering the first `i`.
pub proof fn lemma_filter_take_step<A>(s: Seq<A>, i: int, pred: spec_fn(A) -> bool)
    requires
        0 <= i < s.len(),
    ensures
        s.take(i + 1).filter(pred) == if pred(s[i]) {
            s.take(i).filter(pred).push(s[i])
        } else {
            s.take(i).filter(pred)
        },
{
    assert(s.take(i + 1) =~= s.take(i).push(s[i]));
    lemma_filter_push(s.take(i), s[i], pred);
}

/// Filtering nothing gives nothing.
pub proof fn lemma_filter_empty<A>(pred: spec_fn(A) -> bool)
    ensures
        Seq::<A>::empty().filter(pred) == Seq::<A>::empty(),
{
    reveal(Seq::filter);
}

/// An element of a filtered sequence comes from the sequence and passes the
/// test; an element of the sequence that passes is in the filtered one.
pub proof fn lemma_filter_members<A>(s: Seq<A>, pred: spec_fn(A) -> bool)
    ensures
        forall|x: A| #[trigger] s.filter(pred).contains(x) <==> s.contains(x) && pred(x),
    decreases s.len(),
{
    reveal(Seq::filter);
    if s.len() > 0 {
        let rest = s.drop_last();
        lemma_filter_members(rest, pred);
        assert forall|x: A| #[trigger] s.filter(pred).contains(x) <==> s.contains(x) && pred(x) by {
            let f = s.filter(pred);
            let fr = rest.filter(pred);
            if f.contains(x) {
                let i = choose|i: int| 0 <= i < f.len() && f[i] == x;
                if pred(s.last()) && i == f.len() - 1 {
                    assert(s[s.len() - 1] == x);
                } else {
                    assert(fr[i] == x);
                    assert(fr.contains(x));
                    let j = choose|j: int| 0 <= j < rest.len() && rest[j] == x;
                    assert(s[j] == x);
                }
            }
            if s.contains(x) && pred(x) {
                let j = choose|j: int| 0 <= j < s.len() && s[j] == x;
                if j == s.len() - 1 {
                    assert(f[f.len() - 1] == x);
                } else {
                    assert(rest[j] == x);
                    assert(rest.contains(x));
                    assert(fr.contains(x));
                    let i = choose|i: int| 0 <= i < fr.len() && fr[i] == x;
                    assert(f[i] == x);
                }
            }
        }
    }
}

/// Filtering a sequence without repeats leaves a sequence without repeats.
pub proof fn lemma_filter_no_duplicates<A>(s: Seq<A>, pred: spec_fn(A) -> bool)
    requires
        s.no_duplicates(),
    ensures
        s.filter(pred).no_duplicates(),
    decreases s.len(),
{
    reveal(Seq::filter);
    if s.len() > 0 {
        let rest = s.drop_last();
        assert(rest.no_duplicates());
        lemma_filter_no_duplicates(rest, pred);
        lemma_filter_members(rest, pred);
        let fr = rest.filter(pred);
        if pred(s.last()) {
            let f = fr.push(s.last());
            assert forall|i: int, j: int| 0 <= i < f.len() && 0 <= j < f.len() && i != j implies f[i]
                != f[j] by {
                if i < fr.len() && j < fr.len() {
                } else {
                    let m = if i < fr.len() { i } else { j };
                    assert(fr.contains(fr[m]));
                    assert(rest.contains(fr[m]));
                    let q = choose|q: int| 0 <= q < rest.len() && rest[q] == fr[m];
                    assert(s[q] != s[s.len() - 1]);
                }
            }
        }
    }
}

} // verus!
