//! The identifier counters: what handing out the next identifier means,
//! and which counters a store without any gets from its identifiers.

use vstd::prelude::*;
use vstd::string::*;
use crate::error::{StorageFault, TraceError};
use crate::ident::{identifier, identifier_parts, lemma_identifier_parts};
use crate::storage::model::StorageView;

verus! {

/// The counters that a list of identifiers calls for: for each prefix the
/// greatest number that an identifier with that prefix carries.
pub open spec fn seeded_counters(ids: Seq<Seq<char>>) -> Map<Seq<char>, i64>
    decreases ids.len(),
{
    if ids.len() == 0 {
        Map::empty()
    } else {
        let before = seeded_counters(ids.drop_last());
        match identifier_parts(ids.last()) {
            None => before,
            Some((prefix, number)) => if before.contains_key(prefix) && before[prefix] >= number {
                before
            } else {
                before.insert(prefix, number as i64)
            },
        }
    }
}

impl StorageView {
    /// The identifiers of the stored issues, in stored order.
    pub open spec fn issue_ids(self) -> Seq<Seq<char>> {
        Seq::new(self.issues.len(), |i: int| self.issues[i].id)
    }

    /// The number that the next identifier with this prefix gets.
    pub open spec fn next_number(self, prefix: Seq<char>) -> int {
        if self.counters.contains_key(prefix) {
            self.counters[prefix] + 1
        } else {
            1
        }
    }

    /// Whether an identifier with this prefix can be handed out: the counter
    /// has not reached its last number.
    pub open spec fn allocate_outcome(self, prefix: Seq<char>) -> Result<(), TraceError> {
        if self.next_number(prefix) > i64::MAX {
            Err(TraceError::Storage(StorageFault::CounterExhausted))
        } else {
            Ok(())
        }
    }

    /// The store after a number was handed out for `prefix`.
    pub open spec fn allocated(self, prefix: Seq<char>) -> StorageView {
        StorageView {
            counters: self.counters.insert(prefix, self.next_number(prefix) as i64),
            ..self
        }
    }

    /// The store after its counters were filled: a store that has counters
    /// keeps them; a store without any gets those that its identifiers call
    /// for.
    pub open spec fn counters_synced(self) -> StorageView {
        if self.counters == Map::<Seq<char>, i64>::empty() {
            StorageView { counters: seeded_counters(self.issue_ids()), ..self }
        } else {
            self
        }
    }
}

/// The counters that identifiers call for are never negative, and each is
/// at least the number of every identifier with its prefix.
pub proof fn lemma_seeded_counters(ids: Seq<Seq<char>>)
    ensures
        forall|p: Seq<char>| seeded_counters(ids).contains_key(p) ==> #[trigger] seeded_counters(ids)[p] >= 0,
        forall|k: int|
            0 <= k < ids.len() ==> (#[trigger] identifier_parts(ids[k]) matches Some((p, n))
                ==> seeded_counters(ids).contains_key(p) && seeded_counters(ids)[p] >= n),
    decreases ids.len(),
{
    if ids.len() > 0 {
        let rest = ids.drop_last();
        lemma_seeded_counters(rest);
        let before = seeded_counters(rest);
        let after = seeded_counters(ids);
        crate::ident::lemma_leading_number_bounds(ids.last());
        assert forall|p: Seq<char>| after.contains_key(p) implies #[trigger] after[p] >= 0 by {
            if before.contains_key(p) {
                assert(before[p] >= 0);
            }
        }
        assert forall|k: int| 0 <= k < ids.len() implies (#[trigger] identifier_parts(
            ids[k],
        ) matches Some((p, n)) ==> after.contains_key(p) && after[p] >= n) by {
            if k < ids.len() - 1 {
                assert(rest[k] == ids[k]);
                match identifier_parts(rest[k]) {
                    Some((p, n)) => {
                        assert(before.contains_key(p) && before[p] >= n);
                    },
                    None => {},
                }
            }
        }
    }
}

/// In a store whose counters were filled from its identifiers, the next
/// identifier of a prefix without a hyphen is not the identifier of any
/// stored issue.
pub proof fn lemma_synced_counters_give_new_identifiers(s: StorageView, prefix: Seq<char>, k: int)
    requires
        s.counters == seeded_counters(s.issue_ids()),
        forall|i: int| 0 <= i < prefix.len() ==> prefix[i] != '-',
        s.allocate_outcome(prefix) is Ok,
        0 <= k < s.issues.len(),
    ensures
        s.issues[k].id != identifier(prefix, s.next_number(prefix) as nat),
{
    let ids = s.issue_ids();
    lemma_seeded_counters(ids);
    assert(ids[k] == s.issues[k].id);
    if s.counters.contains_key(prefix) {
        assert(s.counters[prefix] >= 0);
    }
    let next = s.next_number(prefix) as nat;
    if s.issues[k].id == identifier(prefix, next) {
        lemma_identifier_parts(prefix, next);
        assert(identifier_parts(ids[k]) == Some((prefix, next as int)));
        assert(s.counters.contains_key(prefix) && s.counters[prefix] >= next);
    }
}

} // verus!
