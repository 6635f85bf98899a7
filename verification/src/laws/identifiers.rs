//! Identifiers that are handed out one after the other never repeat.

use vstd::prelude::*;
use crate::ident::{identifier, lemma_identifier_injective};
use crate::laws::changes::{lemma_step_keeps_consistency, lemma_step_keeps_counters, Change};
use crate::seqs::{lemma_filter_members, lemma_filter_no_duplicates};
use crate::storage::counters::lemma_seeded_counters;
use crate::storage::invariants::lemma_records_kept;
use crate::storage::model::StorageView;
use crate::storage::query::not_among;
use crate::types::Timestamp;

verus! {

/// The store after `n` requests for an identifier with `prefix`, each of
/// which hands one out while the counter lasts.
pub open spec fn after_allocations(s: StorageView, prefix: Seq<char>, n: nat) -> StorageView
    decreases n,
{
    if n == 0 {
        s
    } else if after_allocations(s, prefix, (n - 1) as nat).allocate_outcome(prefix) is Ok {
        after_allocations(s, prefix, (n - 1) as nat).allocated(prefix)
    } else {
        after_allocations(s, prefix, (n - 1) as nat)
    }
}

/// The number of the identifier handed out after `i` earlier requests.
pub open spec fn allocation_number(s: StorageView, prefix: Seq<char>, i: nat) -> int {
    after_allocations(s, prefix, i).next_number(prefix)
}

/// The identifier handed out after `i` earlier requests.
pub open spec fn allocation(s: StorageView, prefix: Seq<char>, i: nat) -> Seq<char> {
    identifier(prefix, allocation_number(s, prefix, i) as nat)
}

/// If the request after `j` earlier ones is served, its number is `j` after
/// the first one's, and each earlier request was served.
pub proof fn lemma_allocation_numbers(s: StorageView, prefix: Seq<char>, j: nat)
    requires
        s.counters_sound(),
        after_allocations(s, prefix, j).allocate_outcome(prefix) is Ok,
    ensures
        allocation_number(s, prefix, j) == s.next_number(prefix) + j,
        after_allocations(s, prefix, j).counters_sound(),
        forall|i: nat| i <= j ==> #[trigger] after_allocations(s, prefix, i).allocate_outcome(prefix) is Ok,
    decreases j,
{
    if j > 0 {
        let before = after_allocations(s, prefix, (j - 1) as nat);
        if before.allocate_outcome(prefix) is Ok {
            lemma_allocation_numbers(s, prefix, (j - 1) as nat);
            let after = before.allocated(prefix);
            assert(after.counters[prefix] == before.next_number(prefix));
            assert forall|p: Seq<char>| after.counters.contains_key(p) implies #[trigger] after.counters[p]
                >= 0 by {
                if p != prefix {
                    assert(before.counters.contains_key(p));
                } else {
                    if before.counters.contains_key(prefix) {
                        assert(before.counters[prefix] >= 0);
                    }
                }
            }
            assert forall|i: nat| i <= j implies #[trigger] after_allocations(
                s,
                prefix,
                i,
            ).allocate_outcome(prefix) is Ok by {
                if i < j {
                    assert(i <= (j - 1) as nat);
                }
            }
        }
    }
}

/// Identifiers handed out one after the other for one prefix have growing
/// numbers and all differ.
pub proof fn lemma_allocations_differ(s: StorageView, prefix: Seq<char>, i: nat, j: nat)
    requires
        s.counters_sound(),
        i < j,
        after_allocations(s, prefix, j).allocate_outcome(prefix) is Ok,
    ensures
        0 < allocation_number(s, prefix, i) < allocation_number(s, prefix, j),
        allocation(s, prefix, i) != allocation(s, prefix, j),
{
    lemma_allocation_numbers(s, prefix, j);
    assert(after_allocations(s, prefix, i).allocate_outcome(prefix) is Ok);
    lemma_allocation_numbers(s, prefix, i);
    if s.counters.contains_key(prefix) {
        assert(s.counters[prefix] >= 0);
    }
    if allocation(s, prefix, i) == allocation(s, prefix, j) {
        lemma_identifier_injective(
            prefix,
            allocation_number(s, prefix, i) as nat,
            allocation_number(s, prefix, j) as nat,
        );
    }
}

/// One thing that is done with a store: a change of its records, a request
/// for an identifier, or one of the other operations that write to it.
pub ghost enum Step {
    Change { change: Change },
    Allocate { prefix: Seq<char> },
    SyncCounters,
    ClearMarks,
    ClearMarksOf { ids: Seq<Seq<char>> },
    SetConfig { key: Seq<char>, value: Seq<char> },
    SetMetadata { key: Seq<char>, value: Seq<char> },
}

impl Step {
    /// The store after the step.
    pub open spec fn apply(self, s: StorageView, actor: Seq<char>, now: Timestamp) -> StorageView {
        match self {
            Step::Change { change } => change.step(s, actor, now),
            Step::Allocate { prefix } => if s.allocate_outcome(prefix) is Ok {
                s.allocated(prefix)
            } else {
                s
            },
            Step::SyncCounters => s.counters_synced(),
            Step::ClearMarks => StorageView { dirty: Seq::empty(), ..s },
            Step::ClearMarksOf { ids } => StorageView { dirty: s.dirty.filter(not_among(ids)), ..s },
            Step::SetConfig { key, value } => StorageView { config: s.config.insert(key, value), ..s },
            Step::SetMetadata { key, value } => StorageView {
                metadata: s.metadata.insert(key, value),
                ..s
            },
        }
    }

    /// The number of the identifier that the step hands out for `prefix`, if
    /// it hands one out.
    pub open spec fn hands_out(self, s: StorageView, prefix: Seq<char>) -> Option<int> {
        match self {
            Step::Allocate { prefix: p } => if p == prefix && s.allocate_outcome(prefix) is Ok {
                Some(s.next_number(prefix))
            } else {
                None
            },
            _ => None,
        }
    }
}

/// The store after the first `k` of the steps `steps`, each made by `actor`
/// at the time that `times` gives for it.
pub open spec fn history(
    s: StorageView,
    steps: Seq<Step>,
    actor: Seq<char>,
    times: Seq<Timestamp>,
    k: int,
) -> StorageView
    decreases k,
{
    if k <= 0 {
        s
    } else {
        steps[k - 1].apply(history(s, steps, actor, times, k - 1), actor, times[k - 1])
    }
}

/// No step makes a store inconsistent, and no step makes the number that
/// comes next for a prefix smaller; a step that hands out an identifier
/// for the prefix makes it greater by one.
pub proof fn lemma_counter_never_rewinds(
    step: Step,
    s: StorageView,
    actor: Seq<char>,
    now: Timestamp,
    prefix: Seq<char>,
)
    requires
        s.wf(),
    ensures
        step.apply(s, actor, now).wf(),
        s.next_number(prefix) <= step.apply(s, actor, now).next_number(prefix),
        step.hands_out(s, prefix) is Some ==> step.apply(s, actor, now).next_number(prefix)
            == s.next_number(prefix) + 1,
        step.hands_out(s, prefix) matches Some(n) ==> 0 < n <= i64::MAX,
{
    let t = step.apply(s, actor, now);
    if s.counters.contains_key(prefix) {
        assert(s.counters[prefix] >= 0);
    }
    match step {
        Step::Change { change } => {
            lemma_step_keeps_consistency(change, s, actor, now);
            lemma_step_keeps_counters(change, s, actor, now);
        },
        Step::Allocate { prefix: p } => {
            if s.allocate_outcome(p) is Ok {
                if s.counters.contains_key(p) {
                    assert(s.counters[p] >= 0);
                }
                assert forall|q: Seq<char>| t.counters.contains_key(q) implies #[trigger] t.counters[q]
                    >= 0 by {
                    if q != p {
                        assert(s.counters.contains_key(q));
                    }
                }
                lemma_records_kept(s, t);
            }
        },
        Step::SyncCounters => {
            if s.counters == Map::<Seq<char>, i64>::empty() {
                lemma_seeded_counters(s.issue_ids());
                lemma_records_kept(s, t);
                if t.counters.contains_key(prefix) {
                    assert(t.counters[prefix] >= 0);
                }
            }
        },
        Step::ClearMarks => {
            lemma_records_kept(s, t);
        },
        Step::ClearMarksOf { ids } => {
            lemma_filter_members(s.dirty, not_among(ids));
            lemma_filter_no_duplicates(s.dirty, not_among(ids));
            assert forall|k: int| 0 <= k < t.dirty.len() implies s.dirty.contains(#[trigger] t.dirty[k]) by {
                assert(t.dirty.contains(t.dirty[k]));
            }
            lemma_records_kept(s, t);
        },
        Step::SetConfig { key, value } => {
            lemma_records_kept(s, t);
        },
        Step::SetMetadata { key, value } => {
            lemma_records_kept(s, t);
        },
    }
}

/// Along any run of steps the store stays consistent and the number that
/// comes next for a prefix never gets smaller.
pub proof fn lemma_history_never_rewinds(
    s: StorageView,
    steps: Seq<Step>,
    actor: Seq<char>,
    times: Seq<Timestamp>,
    i: int,
    j: int,
    prefix: Seq<char>,
)
    requires
        s.wf(),
        times.len() == steps.len(),
        0 <= i <= j <= steps.len(),
    ensures
        history(s, steps, actor, times, i).wf(),
        history(s, steps, actor, times, j).wf(),
        history(s, steps, actor, times, i).next_number(prefix) <= history(
            s,
            steps,
            actor,
            times,
            j,
        ).next_number(prefix),
    decreases j,
{
    if j > 0 {
        if i < j {
            lemma_history_never_rewinds(s, steps, actor, times, i, j - 1, prefix);
        } else {
            lemma_history_never_rewinds(s, steps, actor, times, j - 1, j - 1, prefix);
        }
        lemma_counter_never_rewinds(
            steps[j - 1],
            history(s, steps, actor, times, j - 1),
            actor,
            times[j - 1],
            prefix,
        );
    }
}

/// No identifier is handed out twice for a prefix, whatever is done with the
/// store in between: of two identifiers handed out for one prefix in a run
/// of steps, the later has the greater number, and they differ.
pub proof fn lemma_identifiers_never_repeat(
    s: StorageView,
    steps: Seq<Step>,
    actor: Seq<char>,
    times: Seq<Timestamp>,
    i: int,
    j: int,
    prefix: Seq<char>,
)
    requires
        s.wf(),
        times.len() == steps.len(),
        0 <= i < j < steps.len(),
        steps[i].hands_out(history(s, steps, actor, times, i), prefix) is Some,
        steps[j].hands_out(history(s, steps, actor, times, j), prefix) is Some,
    ensures
        ({
            let m = steps[i].hands_out(history(s, steps, actor, times, i), prefix)->0;
            let n = steps[j].hands_out(history(s, steps, actor, times, j), prefix)->0;
            &&& 0 < m < n
            &&& identifier(prefix, m as nat) != identifier(prefix, n as nat)
        }),
{
    let before = history(s, steps, actor, times, i);
    let m = steps[i].hands_out(before, prefix)->0;
    let n = steps[j].hands_out(history(s, steps, actor, times, j), prefix)->0;
    lemma_history_never_rewinds(s, steps, actor, times, i, i, prefix);
    lemma_counter_never_rewinds(steps[i], before, actor, times[i], prefix);
    assert(history(s, steps, actor, times, i + 1) == steps[i].apply(before, actor, times[i]));
    lemma_history_never_rewinds(s, steps, actor, times, i + 1, j, prefix);
    if identifier(prefix, m as nat) == identifier(prefix, n as nat) {
        lemma_identifier_injective(prefix, m as nat, n as nat);
    }
}

} // verus!
