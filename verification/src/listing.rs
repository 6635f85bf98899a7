//! The order in which issues are listed, and cutting a listing short.

use vstd::prelude::*;
use crate::order::{
    is_total, is_transitive, lemma_insert_at, lemma_sort_take_step, limited, sort_by,
};
use crate::types::{event_views, issue_views, Event, EventView, Issue, IssueView};

verus! {

/// The listing order of issues: a lower priority number first, and within one
/// priority the one created later first.
pub open spec fn issue_rank() -> spec_fn(IssueView, IssueView) -> bool {
    |a: IssueView, b: IssueView| a.ranks_before_or_with(b)
}

/// The listing order ranks any two issues and is transitive.
pub proof fn lemma_issue_rank_is_an_order()
    ensures
        is_total(issue_rank()),
        is_transitive(issue_rank()),
{
    assert forall|a: IssueView, b: IssueView| #[trigger] issue_rank()(a, b) || issue_rank()(b, a) by {}
    assert forall|a: IssueView, b: IssueView, c: IssueView| #[trigger]
        issue_rank()(a, b) && #[trigger] issue_rank()(b, c) implies issue_rank()(a, c) by {}
}

/// The issues of `v` in listing order.
pub fn sort_issues(v: &Vec<Issue>) -> (r: Vec<Issue>)
    ensures
        issue_views(r@) == sort_by(issue_views(v@), issue_rank()),
{
    let mut out: Vec<Issue> = Vec::new();
    let mut i: usize = 0;
    assert(issue_views(v@).take(0) =~= Seq::<IssueView>::empty());
    assert(issue_views(out@) =~= Seq::<IssueView>::empty());
    while i < v.len()
        invariant
            i <= v.len(),
            issue_views(out@) == sort_by(issue_views(v@).take(i as int), issue_rank()),
        decreases v.len() - i,
    {
        let x = v[i].clone();
        let mut pos: usize = out.len();
        while pos > 0 && !out[pos - 1].ranks_before_or_with(&x)
            invariant
                pos <= out.len(),
                forall|j: int| pos <= j < out.len() ==> !(#[trigger] out[j])@.ranks_before_or_with(x@),
            decreases pos,
        {
            pos -= 1;
        }
        proof {
            let sorted = issue_views(out@);
            assert forall|j: int| pos <= j < sorted.len() implies !issue_rank()(
                #[trigger] sorted[j],
                x@,
            ) by {
                assert(!out[j]@.ranks_before_or_with(x@));
            }
            if pos > 0 {
                assert(issue_rank()(sorted[pos - 1], x@));
            }
            lemma_insert_at(sorted, x@, issue_rank(), pos as int);
            lemma_sort_take_step(issue_views(v@), i as int, issue_rank());
        }
        let ghost before = issue_views(out@);
        out.insert(pos, x);
        proof {
            assert(issue_views(out@) =~= before.insert(pos as int, x@));
        }
        i += 1;
    }
    assert(issue_views(v@).take(v.len() as int) =~= issue_views(v@));
    out
}

/// At most the first `limit` issues of `v`.
pub fn limit_issues(v: Vec<Issue>, limit: Option<usize>) -> (r: Vec<Issue>)
    ensures
        issue_views(r@) == limited(issue_views(v@), limit),
{
    let mut v = v;
    match limit {
        Some(n) => {
            if n < v.len() {
                let ghost before = issue_views(v@);
                v.truncate(n);
                assert(issue_views(v@) =~= before.take(n as int));
            }
        },
        None => {},
    }
    v
}

/// The listing order of audit records: the later one first, and of two made
/// at the same instant the one with the greater identifier first.
pub open spec fn event_rank() -> spec_fn(EventView, EventView) -> bool {
    |a: EventView, b: EventView|
        b.created_at.is_before(a.created_at) || (a.created_at == b.created_at && a.id >= b.id)
}

/// The listing order of audit records ranks any two records and is
/// transitive.
pub proof fn lemma_event_rank_is_an_order()
    ensures
        is_total(event_rank()),
        is_transitive(event_rank()),
{
    assert forall|a: EventView, b: EventView| #[trigger] event_rank()(a, b) || event_rank()(b, a) by {}
    assert forall|a: EventView, b: EventView, c: EventView| #[trigger]
        event_rank()(a, b) && #[trigger] event_rank()(b, c) implies event_rank()(a, c) by {}
}

/// Whether the record `a` may stand before the record `b`.
fn event_goes_first(a: &Event, b: &Event) -> (r: bool)
    ensures
        r == event_rank()(a@, b@),
{
    b.created_at.before(&a.created_at) || (a.created_at.secs == b.created_at.secs
        && a.created_at.nanos == b.created_at.nanos && a.id >= b.id)
}

/// The records of `v` in listing order.
pub fn sort_events(v: &Vec<Event>) -> (r: Vec<Event>)
    ensures
        event_views(r@) == sort_by(event_views(v@), event_rank()),
{
    let mut out: Vec<Event> = Vec::new();
    let mut i: usize = 0;
    assert(event_views(v@).take(0) =~= Seq::<EventView>::empty());
    assert(event_views(out@) =~= Seq::<EventView>::empty());
    while i < v.len()
        invariant
            i <= v.len(),
            event_views(out@) == sort_by(event_views(v@).take(i as int), event_rank()),
        decreases v.len() - i,
    {
        let x = v[i].clone();
        let mut pos: usize = out.len();
        while pos > 0 && !event_goes_first(&out[pos - 1], &x)
            invariant
                pos <= out.len(),
                forall|j: int| pos <= j < out.len() ==> !event_rank()((#[trigger] out[j])@, x@),
            decreases pos,
        {
            pos -= 1;
        }
        proof {
            let sorted = event_views(out@);
            assert forall|j: int| pos <= j < sorted.len() implies !event_rank()(
                #[trigger] sorted[j],
                x@,
            ) by {
                assert(!event_rank()(out[j]@, x@));
            }
            if pos > 0 {
                assert(event_rank()(sorted[pos - 1], x@));
            }
            lemma_insert_at(sorted, x@, event_rank(), pos as int);
            lemma_sort_take_step(event_views(v@), i as int, event_rank());
        }
        let ghost before = event_views(out@);
        out.insert(pos, x);
        proof {
            assert(event_views(out@) =~= before.insert(pos as int, x@));
        }
        i += 1;
    }
    assert(event_views(v@).take(v.len() as int) =~= event_views(v@));
    out
}

/// At most the first `limit` records of `v`.
pub fn limit_events(v: Vec<Event>, limit: usize) -> (r: Vec<Event>)
    ensures
        event_views(r@) == limited(event_views(v@), Some(limit)),
{
    let mut v = v;
    if limit < v.len() {
        let ghost before = event_views(v@);
        v.truncate(limit);
        assert(event_views(v@) =~= before.take(limit as int));
    }
    v
}

} // verus!
