//! Taking a store apart into plain lists, and putting one together from
//! such lists after checking that they fit together.

use vstd::prelude::*;
use vstd::string::*;
use crate::error::{StorageFault, TraceError};
use crate::storage::Storage;
use crate::storage::memory::MemoryStorage;
use crate::storage::model::StorageView;
use crate::text::{copy_string, str_eq, texts};
use crate::textmap::TextMap;
use crate::types::{
    dependency_views, event_views, issue_views, label_views, Dependency, Event, Issue, Label,
};

verus! {

/// What a store holds, as plain lists.
#[derive(Debug)]
pub struct StorageParts {
    pub issues: Vec<Issue>,
    pub dependencies: Vec<Dependency>,
    pub labels: Vec<Label>,
    pub events: Vec<Event>,
    pub dirty: Vec<String>,
    pub counters: Vec<(String, i64)>,
    pub config: Vec<(String, String)>,
    pub metadata: Vec<(String, String)>,
}

/// The characters and numbers of a list of counters.
pub open spec fn counter_views(s: Seq<(String, i64)>) -> Seq<(Seq<char>, i64)> {
    s.map_values(|p: (String, i64)| (p.0@, p.1))
}

/// The characters of a list of entries.
pub open spec fn entry_views(s: Seq<(String, String)>) -> Seq<(Seq<char>, Seq<char>)> {
    s.map_values(|p: (String, String)| (p.0@, p.1@))
}

/// The map that a list of entries builds up, a later entry taking the place
/// of an earlier one with the same key.
pub open spec fn built_map<V>(entries: Seq<(Seq<char>, V)>) -> Map<Seq<char>, V>
    decreases entries.len(),
{
    if entries.len() == 0 {
        Map::empty()
    } else {
        built_map(entries.drop_last()).insert(entries.last().0, entries.last().1)
    }
}

/// The store that the lists describe.
pub open spec fn assembled(parts: StorageParts) -> StorageView {
    StorageView {
        issues: issue_views(parts.issues@),
        dependencies: dependency_views(parts.dependencies@),
        labels: label_views(parts.labels@),
        events: event_views(parts.events@),
        dirty: texts(parts.dirty@),
        counters: built_map(counter_views(parts.counters@)),
        config: built_map(entry_views(parts.config@)),
        metadata: built_map(entry_views(parts.metadata@)),
    }
}

/// The lists fit together: the store they describe is consistent, and no
/// listed counter is negative.
pub open spec fn fit_together(parts: StorageParts) -> bool {
    &&& assembled(parts).wf()
    &&& forall|i: int| 0 <= i < parts.counters.len() ==> (#[trigger] parts.counters[i]).1 >= 0
}

/// Audit records whose identifiers grow from each one to the next grow along
/// the whole trail.
proof fn lemma_steps_grow(s: StorageView, n: int)
    requires
        0 <= n <= s.events.len(),
        forall|k: int| 0 < k < n ==> (#[trigger] s.events[k - 1]).id < s.events[k].id,
    ensures
        forall|k: int, l: int| 0 <= k < l < n ==> (#[trigger] s.events[k]).id < (#[trigger] s.events[l]).id,
    decreases n,
{
    if n > 0 {
        lemma_steps_grow(s, n - 1);
        assert forall|k: int, l: int| 0 <= k < l < n implies (#[trigger] s.events[k]).id < (
        #[trigger] s.events[l]).id by {
            if l == n - 1 {
                assert(s.events[l - 1].id < s.events[l].id);
                if k < l - 1 {
                    assert(s.events[k].id < s.events[l - 1].id);
                }
            }
        }
    }
}

impl MemoryStorage {
    fn ids_are_unique(&self) -> (r: bool)
        ensures
            r == self@.ids_unique(),
    {
        let mut j: usize = 0;
        while j < self.issues.len()
            invariant
                j <= self.issues.len(),
                forall|a: int, b: int|
                    0 <= a < b < j ==> (#[trigger] self@.issues[a]).id != (#[trigger] self@.issues[b]).id,
            decreases self.issues.len() - j,
        {
            let mut i: usize = 0;
            while i < j
                invariant
                    i <= j < self.issues.len(),
                    forall|a: int| 0 <= a < i ==> (#[trigger] self@.issues[a]).id != self@.issues[j as int].id,
                decreases j - i,
            {
                if str_eq(self.issues[i].id.as_str(), self.issues[j].id.as_str()) {
                    assert(self@.issues[i as int].id == self@.issues[j as int].id);
                    return false;
                }
                i += 1;
            }
            j += 1;
        }
        true
    }

    fn issues_are_valid(&self) -> (r: bool)
        ensures
            r == self@.issues_valid(),
    {
        let mut i: usize = 0;
        while i < self.issues.len()
            invariant
                i <= self.issues.len(),
                forall|a: int|
                    0 <= a < i ==> (#[trigger] self@.issues[a]).is_valid()
                        && self@.issues[a].dependencies.len() == 0,
            decreases self.issues.len() - i,
        {
            assert(self@.issues[i as int] == self.issues[i as int]@);
            assert(self@.issues[i as int].dependencies.len() == self.issues[i as int].dependencies.len());
            if self.issues[i].validate().is_err() || self.issues[i].dependencies.len() != 0 {
                return false;
            }
            i += 1;
        }
        true
    }

    fn edges_are_sound(&self) -> (r: bool)
        requires
            self@.ids_unique(),
        ensures
            r == self@.edges_sound(),
    {
        let mut j: usize = 0;
        while j < self.dependencies.len()
            invariant
                j <= self.dependencies.len(),
                self@.ids_unique(),
                forall|k: int|
                    0 <= k < j ==> self@.has_issue((#[trigger] self@.dependencies[k]).issue_id)
                        && self@.has_issue(self@.dependencies[k].depends_on_id),
                forall|a: int, b: int|
                    0 <= a < b < j ==> !((#[trigger] self@.dependencies[a]).issue_id == (
                    #[trigger] self@.dependencies[b]).issue_id && self@.dependencies[a].depends_on_id
                        == self@.dependencies[b].depends_on_id),
            decreases self.dependencies.len() - j,
        {
            assert(self@.dependencies[j as int] == self.dependencies[j as int]@);
            if self.find_index(self.dependencies[j].issue_id.as_str()).is_none() || self.find_index(
                self.dependencies[j].depends_on_id.as_str(),
            ).is_none() {
                return false;
            }
            let mut i: usize = 0;
            while i < j
                invariant
                    i <= j < self.dependencies.len(),
                    forall|a: int|
                        0 <= a < i ==> !((#[trigger] self@.dependencies[a]).issue_id
                            == self@.dependencies[j as int].issue_id && self@.dependencies[a].depends_on_id
                            == self@.dependencies[j as int].depends_on_id),
                decreases j - i,
            {
                assert(self@.dependencies[i as int] == self.dependencies[i as int]@);
                assert(self@.dependencies[j as int] == self.dependencies[j as int]@);
                if str_eq(self.dependencies[i].issue_id.as_str(), self.dependencies[j].issue_id.as_str())
                    && str_eq(
                    self.dependencies[i].depends_on_id.as_str(),
                    self.dependencies[j].depends_on_id.as_str(),
                ) {
                    return false;
                }
                i += 1;
            }
            j += 1;
        }
        true
    }

    fn labels_are_sound(&self) -> (r: bool)
        requires
            self@.ids_unique(),
        ensures
            r == self@.labels_sound(),
    {
        let mut j: usize = 0;
        while j < self.labels.len()
            invariant
                j <= self.labels.len(),
                self@.ids_unique(),
                forall|k: int| 0 <= k < j ==> self@.has_issue((#[trigger] self@.labels[k]).issue_id),
                forall|a: int, b: int|
                    0 <= a < b < j ==> !((#[trigger] self@.labels[a]).issue_id == (
                    #[trigger] self@.labels[b]).issue_id && self@.labels[a].label == self@.labels[b].label),
            decreases self.labels.len() - j,
        {
            assert(self@.labels[j as int] == self.labels[j as int]@);
            if self.find_index(self.labels[j].issue_id.as_str()).is_none() {
                return false;
            }
            let mut i: usize = 0;
            while i < j
                invariant
                    i <= j < self.labels.len(),
                    forall|a: int|
                        0 <= a < i ==> !((#[trigger] self@.labels[a]).issue_id
                            == self@.labels[j as int].issue_id && self@.labels[a].label
                            == self@.labels[j as int].label),
                decreases j - i,
            {
                assert(self@.labels[i as int] == self.labels[i as int]@);
                assert(self@.labels[j as int] == self.labels[j as int]@);
                if str_eq(self.labels[i].issue_id.as_str(), self.labels[j].issue_id.as_str()) && str_eq(
                    self.labels[i].label.as_str(),
                    self.labels[j].label.as_str(),
                ) {
                    return false;
                }
                i += 1;
            }
            j += 1;
        }
        true
    }

    fn events_are_sound(&self) -> (r: bool)
        requires
            self@.ids_unique(),
        ensures
            r == self@.events_sound(),
    {
        let mut j: usize = 0;
        while j < self.events.len()
            invariant
                j <= self.events.len(),
                self@.ids_unique(),
                forall|k: int| 0 <= k < j ==> self@.has_issue((#[trigger] self@.events[k]).issue_id),
                forall|k: int| 0 < k < j ==> (#[trigger] self@.events[k - 1]).id < self@.events[k].id,
            decreases self.events.len() - j,
        {
            assert(self@.events[j as int] == self.events[j as int]@);
            if self.find_index(self.events[j].issue_id.as_str()).is_none() {
                return false;
            }
            if j > 0 {
                assert(self@.events[j - 1] == self.events[j - 1]@);
                if self.events[j - 1].id >= self.events[j].id {
                    return false;
                }
            }
            j += 1;
        }
        proof {
            lemma_steps_grow(self@, self.events.len() as int);
        }
        true
    }

    fn dirty_is_sound(&self) -> (r: bool)
        requires
            self@.ids_unique(),
        ensures
            r == self@.dirty_sound(),
    {
        let mut j: usize = 0;
        while j < self.dirty.len()
            invariant
                j <= self.dirty.len(),
                self@.ids_unique(),
                forall|k: int| 0 <= k < j ==> self@.has_issue(#[trigger] self@.dirty[k]),
                forall|a: int, b: int| 0 <= a < b < j ==> self@.dirty[a] != self@.dirty[b],
            decreases self.dirty.len() - j,
        {
            assert(self@.dirty[j as int] == self.dirty[j as int]@);
            if self.find_index(self.dirty[j].as_str()).is_none() {
                return false;
            }
            let mut i: usize = 0;
            while i < j
                invariant
                    i <= j < self.dirty.len(),
                    forall|a: int| 0 <= a < i ==> self@.dirty[a] != self@.dirty[j as int],
                decreases j - i,
            {
                assert(self@.dirty[i as int] == self.dirty[i as int]@);
                assert(self@.dirty[j as int] == self.dirty[j as int]@);
                if str_eq(self.dirty[i].as_str(), self.dirty[j].as_str()) {
                    return false;
                }
                i += 1;
            }
            j += 1;
        }
        proof {
            let d = self@.dirty;
            assert forall|a: int, b: int| 0 <= a < d.len() && 0 <= b < d.len() && a != b implies d[a]
                != d[b] by {
                if a < b {
                    assert(d[a] != d[b]);
                } else {
                    assert(d[b] != d[a]);
                }
            }
        }
        true
    }

    /// Puts a store together from plain lists, if they fit together.
    pub fn from_parts(parts: StorageParts) -> (r: Result<MemoryStorage, TraceError>)
        ensures
            match r {
                Ok(s) => fit_together(parts) && s.wf() && s@ == assembled(parts),
                Err(e) => !fit_together(parts) && e == TraceError::Storage(StorageFault::Inconsistent),
            },
    {
        let mut counters: TextMap<i64> = TextMap::new();
        let mut i: usize = 0;
        let ghost listed = counter_views(parts.counters@);
        assert(listed.take(0) =~= Seq::<(Seq<char>, i64)>::empty());
        while i < parts.counters.len()
            invariant
                i <= parts.counters.len(),
                counters.wf(),
                listed == counter_views(parts.counters@),
                counters@ == built_map(listed.take(i as int)),
                forall|k: int| 0 <= k < i ==> (#[trigger] parts.counters[k]).1 >= 0,
                forall|p: Seq<char>| counters@.contains_key(p) ==> #[trigger] counters@[p] >= 0,
            decreases parts.counters.len() - i,
        {
            proof {
                assert(listed.take(i + 1).drop_last() =~= listed.take(i as int));
                assert(listed.take(i + 1).last() == (parts.counters[i as int].0@, parts.counters[i as int].1));
            }
            if parts.counters[i].1 < 0 {
                assert(parts.counters[i as int].1 < 0);
                return Err(TraceError::Storage(StorageFault::Inconsistent));
            }
            counters.set(parts.counters[i].0.as_str(), parts.counters[i].1);
            i += 1;
        }
        assert(listed.take(parts.counters.len() as int) =~= listed);
        let config = Self::map_of(&parts.config);
        let metadata = Self::map_of(&parts.metadata);
        let s = MemoryStorage {
            issues: parts.issues,
            dependencies: parts.dependencies,
            labels: parts.labels,
            events: parts.events,
            dirty: parts.dirty,
            counters: counters,
            config: config,
            metadata: metadata,
        };
        assert(s@ == assembled(parts));
        if !s.ids_are_unique() {
            return Err(TraceError::Storage(StorageFault::Inconsistent));
        }
        if !s.issues_are_valid() || !s.edges_are_sound() || !s.labels_are_sound() || !s.events_are_sound()
            || !s.dirty_is_sound() {
            return Err(TraceError::Storage(StorageFault::Inconsistent));
        }
        Ok(s)
    }

    /// The map that a list of entries builds up.
    fn map_of(entries: &Vec<(String, String)>) -> (r: TextMap<String>)
        ensures
            r.wf(),
            r@ == built_map(entry_views(entries@)),
    {
        let mut out: TextMap<String> = TextMap::new();
        let mut i: usize = 0;
        let ghost listed = entry_views(entries@);
        assert(listed.take(0) =~= Seq::<(Seq<char>, Seq<char>)>::empty());
        while i < entries.len()
            invariant
                i <= entries.len(),
                out.wf(),
                listed == entry_views(entries@),
                out@ == built_map(listed.take(i as int)),
            decreases entries.len() - i,
        {
            proof {
                assert(listed.take(i + 1).drop_last() =~= listed.take(i as int));
                assert(listed.take(i + 1).last() == (entries[i as int].0@, entries[i as int].1@));
            }
            out.set(entries[i].0.as_str(), copy_string(&entries[i].1));
            i += 1;
        }
        assert(listed.take(entries.len() as int) =~= listed);
        out
    }

    /// Every label, in stored order.
    pub fn all_labels(&self) -> (r: Vec<Label>)
        ensures
            label_views(r@) == self@.labels,
    {
        let mut out: Vec<Label> = Vec::new();
        let mut i: usize = 0;
        while i < self.labels.len()
            invariant
                i <= self.labels.len(),
                out.len() == i,
                forall|k: int| 0 <= k < i ==> (#[trigger] out[k])@ == self.labels[k]@,
            decreases self.labels.len() - i,
        {
            out.push(self.labels[i].clone());
            i += 1;
        }
        assert(label_views(out@) =~= self@.labels);
        out
    }

    /// The whole audit trail, oldest record first.
    pub fn all_events(&self) -> (r: Vec<Event>)
        ensures
            event_views(r@) == self@.events,
    {
        let mut out: Vec<Event> = Vec::new();
        let mut i: usize = 0;
        while i < self.events.len()
            invariant
                i <= self.events.len(),
                out.len() == i,
                forall|k: int| 0 <= k < i ==> (#[trigger] out[k])@ == self.events[k]@,
            decreases self.events.len() - i,
        {
            out.push(self.events[i].clone());
            i += 1;
        }
        assert(event_views(out@) =~= self@.events);
        out
    }

    /// The counters: each prefix once, with the last number handed out for
    /// it.
    pub fn counter_entries(&self) -> (r: Vec<(String, i64)>)
        requires
            self.wf(),
        ensures
            forall|i: int|
                0 <= i < r.len() ==> self@.counters.contains_key((#[trigger] r[i]).0@)
                    && self@.counters[r[i].0@] == r[i].1,
            forall|i: int, j: int| 0 <= i < j < r.len() ==> (#[trigger] r[i]).0@ != (#[trigger] r[j]).0@,
            forall|p: Seq<char>|
                self@.counters.contains_key(p) ==> exists|i: int|
                    0 <= i < r.len() && (#[trigger] r[i]).0@ == p,
    {
        let mut out: Vec<(String, i64)> = Vec::new();
        let n = self.counters.len();
        let mut i: usize = 0;
        proof {
            self.counters.lemma_positions();
        }
        while i < n
            invariant
                i <= n,
                n == self.counters.count(),
                self.wf(),
                out.len() == i,
                forall|k: int| 0 <= k < i ==> (#[trigger] out[k]).0@ == self.counters.key_at(k),
                forall|k: int|
                    0 <= k < i ==> self@.counters.contains_key((#[trigger] out[k]).0@)
                        && self@.counters[out[k].0@] == out[k].1,
            decreases n - i,
        {
            let (key, value) = self.counters.entry(i);
            out.push((copy_string(key), *value));
            i += 1;
        }
        proof {
            assert forall|p: Seq<char>| self@.counters.contains_key(p) implies exists|i: int|
                0 <= i < out.len() && (#[trigger] out[i]).0@ == p by {
                let k = choose|k: int| 0 <= k < self.counters.count() && #[trigger] self.counters.key_at(k) == p;
                assert(out[k].0@ == p);
            }
        }
        out
    }

    /// The configuration: each key once, with its value.
    pub fn config_entries(&self) -> (r: Vec<(String, String)>)
        requires
            self.wf(),
        ensures
            forall|i: int|
                0 <= i < r.len() ==> self@.config.contains_key((#[trigger] r[i]).0@)
                    && self@.config[r[i].0@] == r[i].1@,
            forall|i: int, j: int| 0 <= i < j < r.len() ==> (#[trigger] r[i]).0@ != (#[trigger] r[j]).0@,
            forall|p: Seq<char>|
                self@.config.contains_key(p) ==> exists|i: int|
                    0 <= i < r.len() && (#[trigger] r[i]).0@ == p,
    {
        Self::entries_of(&self.config)
    }

    /// The bookkeeping entries: each key once, with its value.
    pub fn metadata_entries(&self) -> (r: Vec<(String, String)>)
        requires
            self.wf(),
        ensures
            forall|i: int|
                0 <= i < r.len() ==> self@.metadata.contains_key((#[trigger] r[i]).0@)
                    && self@.metadata[r[i].0@] == r[i].1@,
            forall|i: int, j: int| 0 <= i < j < r.len() ==> (#[trigger] r[i]).0@ != (#[trigger] r[j]).0@,
            forall|p: Seq<char>|
                self@.metadata.contains_key(p) ==> exists|i: int|
                    0 <= i < r.len() && (#[trigger] r[i]).0@ == p,
    {
        Self::entries_of(&self.metadata)
    }

    /// The entries of a map: each key once, with its value.
    fn entries_of(map: &TextMap<String>) -> (r: Vec<(String, String)>)
        requires
            map.wf(),
        ensures
            forall|i: int|
                0 <= i < r.len() ==> map@.contains_key((#[trigger] r[i]).0@) && map@[r[i].0@] == r[i].1@,
            forall|i: int, j: int| 0 <= i < j < r.len() ==> (#[trigger] r[i]).0@ != (#[trigger] r[j]).0@,
            forall|p: Seq<char>|
                map@.contains_key(p) ==> exists|i: int| 0 <= i < r.len() && (#[trigger] r[i]).0@ == p,
    {
        let mut out: Vec<(String, String)> = Vec::new();
        let n = map.len();
        let mut i: usize = 0;
        proof {
            map.lemma_positions();
        }
        while i < n
            invariant
                i <= n,
                n == map.count(),
                map.wf(),
                out.len() == i,
                forall|k: int| 0 <= k < i ==> (#[trigger] out[k]).0@ == map.key_at(k),
                forall|k: int|
                    0 <= k < i ==> map@.contains_key((#[trigger] out[k]).0@) && map@[out[k].0@]
                        == out[k].1@,
            decreases n - i,
        {
            let (key, value) = map.entry(i);
            out.push((copy_string(key), copy_string(value)));
            i += 1;
        }
        proof {
            assert forall|p: Seq<char>| map@.contains_key(p) implies exists|i: int|
                0 <= i < out.len() && (#[trigger] out[i]).0@ == p by {
                let k = choose|k: int| 0 <= k < map.count() && #[trigger] map.key_at(k) == p;
                assert(out[k].0@ == p);
            }
        }
        out
    }
}

} // verus!
