//! The content of a snapshot: issues with their edges, at most one for each
//! identifier, kept in ascending order of the identifiers.
//!
//! Identifiers are ordered as strings are: byte by byte over their UTF-8
//! form, a proper prefix before what it is a prefix of.

use vstd::prelude::*;
use vstd::string::*;
use vstd::utf8::encode_utf8;
use crate::text::lemma_same_bytes_same_text;
use crate::types::{issue_views, Issue, IssueView};

verus! {

/// `a` stands before `b`: at the first place where they differ `a` has the
/// smaller byte, or `a` ends there and `b` goes on.
pub open spec fn bytes_before(a: Seq<u8>, b: Seq<u8>) -> bool {
    exists|k: int| #[trigger] differ_at(a, b, k)
}

/// `a` and `b` agree before the place `k`, and there `a` has the smaller
/// byte or ends while `b` goes on.
pub open spec fn differ_at(a: Seq<u8>, b: Seq<u8>, k: int) -> bool {
    &&& 0 <= k <= a.len()
    &&& k < b.len()
    &&& forall|i: int| 0 <= i < k ==> a[i] == b[i]
    &&& (k == a.len() || a[k] < b[k])
}

/// The text `a` stands before the text `b` in the order of strings.
pub open spec fn text_before(a: Seq<char>, b: Seq<char>) -> bool {
    bytes_before(encode_utf8(a), encode_utf8(b))
}

/// Nothing stands before itself.
pub proof fn lemma_before_irreflexive(a: Seq<u8>)
    ensures
        !bytes_before(a, a),
{
    if bytes_before(a, a) {
        let k = choose|k: int| #[trigger] differ_at(a, a, k);
        assert(differ_at(a, a, k));
    }
}

/// What stands before something that stands before a third stands before the
/// third.
pub proof fn lemma_before_transitive(a: Seq<u8>, b: Seq<u8>, c: Seq<u8>)
    requires
        bytes_before(a, b),
        bytes_before(b, c),
    ensures
        bytes_before(a, c),
{
    let k1 = choose|k: int| #[trigger] differ_at(a, b, k);
    let k2 = choose|k: int| #[trigger] differ_at(b, c, k);
    assert(differ_at(a, b, k1));
    assert(differ_at(b, c, k2));
    let k = if k1 <= k2 {
        k1
    } else {
        k2
    };
    assert(differ_at(a, c, k));
}

/// No text stands before itself, and the order of texts is transitive.
pub proof fn lemma_text_order(a: Seq<char>, b: Seq<char>, c: Seq<char>)
    ensures
        !text_before(a, a),
        text_before(a, b) && text_before(b, c) ==> text_before(a, c),
{
    lemma_before_irreflexive(encode_utf8(a));
    if text_before(a, b) && text_before(b, c) {
        lemma_before_transitive(encode_utf8(a), encode_utf8(b), encode_utf8(c));
    }
}

/// How two texts stand to each other.
#[derive(Clone, Copy, Debug, PartialEq, Eq, Structural)]
pub enum Standing {
    Before,
    Same,
    After,
}

/// How `a` stands to `b` in the order of strings.
pub fn standing(a: &str, b: &str) -> (r: Standing)
    ensures
        match r {
            Standing::Before => text_before(a@, b@),
            Standing::Same => a@ == b@,
            Standing::After => text_before(b@, a@),
        },
{
    let x = a.as_bytes();
    let y = b.as_bytes();
    let mut k: usize = 0;
    while k < x.len() && k < y.len() && x[k] == y[k]
        invariant
            k <= x.len(),
            k <= y.len(),
            forall|i: int| 0 <= i < k ==> x@[i] == y@[i],
        decreases x.len() - k,
    {
        k += 1;
    }
    if k == x.len() && k == y.len() {
        proof {
            assert(x@ =~= y@);
            lemma_same_bytes_same_text(a@, b@);
        }
        Standing::Same
    } else if k == x.len() {
        assert(differ_at(x@, y@, k as int));
        Standing::Before
    } else if k == y.len() {
        assert(differ_at(y@, x@, k as int));
        Standing::After
    } else if x[k] < y[k] {
        assert(differ_at(x@, y@, k as int));
        Standing::Before
    } else {
        assert(differ_at(y@, x@, k as int));
        Standing::After
    }
}

/// The identifiers of `s` ascend strictly.
pub open spec fn ascending(s: Seq<IssueView>) -> bool {
    forall|i: int, j: int| 0 <= i < j < s.len() ==> text_before((#[trigger] s[i]).id, (#[trigger] s[j]).id)
}

/// `s` holds an issue with the identifier `id`.
pub open spec fn lists(s: Seq<IssueView>, id: Seq<char>) -> bool {
    exists|i: int| 0 <= i < s.len() && (#[trigger] s[i]).id == id
}

/// A place at which `s` holds the identifier `id`.
pub open spec fn place_of(s: Seq<IssueView>, id: Seq<char>) -> int {
    choose|i: int| 0 <= i < s.len() && (#[trigger] s[i]).id == id
}

/// What `s` holds for each identifier.
pub open spec fn as_map(s: Seq<IssueView>) -> Map<Seq<char>, IssueView> {
    Map::new(|id: Seq<char>| lists(s, id), |id: Seq<char>| s[place_of(s, id)])
}

/// In an ascending sequence an identifier stands at one place only.
pub proof fn lemma_place(s: Seq<IssueView>, i: int)
    requires
        ascending(s),
        0 <= i < s.len(),
    ensures
        lists(s, s[i].id),
        place_of(s, s[i].id) == i,
{
    let id = s[i].id;
    assert(lists(s, id));
    let p = place_of(s, id);
    assert(0 <= p < s.len() && s[p].id == id);
    lemma_before_irreflexive(encode_utf8(id));
    if p < i {
        assert(text_before(s[p].id, s[i].id));
    } else if i < p {
        assert(text_before(s[i].id, s[p].id));
    }
}

/// Two ascending sequences that hold the same for each identifier are the
/// same sequence.
pub proof fn lemma_ascending_unique(a: Seq<IssueView>, b: Seq<IssueView>)
    requires
        ascending(a),
        ascending(b),
        as_map(a) == as_map(b),
    ensures
        a == b,
    decreases a.len(),
{
    if a.len() == 0 {
        if b.len() > 0 {
            lemma_place(b, 0);
            assert(as_map(b).contains_key(b[0].id));
            assert(lists(a, b[0].id));
        }
        assert(a =~= b);
    } else if b.len() == 0 {
        lemma_place(a, 0);
        assert(as_map(a).contains_key(a[0].id));
        assert(lists(b, a[0].id));
    } else {
        // The two greatest identifiers agree, and so does what is held for them.
        let x = a.last();
        let y = b.last();
        lemma_place(a, a.len() - 1);
        lemma_place(b, b.len() - 1);
        assert(as_map(a).contains_key(x.id));
        assert(lists(b, x.id));
        let px = place_of(b, x.id);
        assert(as_map(b).contains_key(y.id));
        assert(lists(a, y.id));
        let py = place_of(a, y.id);
        if x.id != y.id {
            assert(px < b.len() - 1);
            assert(text_before(b[px].id, b[b.len() - 1].id));
            assert(py < a.len() - 1);
            assert(text_before(a[py].id, a[a.len() - 1].id));
            lemma_text_order(x.id, y.id, x.id);
        }
        assert(x.id == y.id);
        assert(as_map(a)[x.id] == x);
        assert(as_map(b)[x.id] == y);
        let ra = a.drop_last();
        let rb = b.drop_last();
        assert(ascending(ra)) by {
            assert forall|i: int, j: int| 0 <= i < j < ra.len() implies text_before(
                (#[trigger] ra[i]).id,
                (#[trigger] ra[j]).id,
            ) by {
                assert(text_before(a[i].id, a[j].id));
            }
        }
        assert(ascending(rb)) by {
            assert forall|i: int, j: int| 0 <= i < j < rb.len() implies text_before(
                (#[trigger] rb[i]).id,
                (#[trigger] rb[j]).id,
            ) by {
                assert(text_before(b[i].id, b[j].id));
            }
        }
        assert forall|id: Seq<char>| lists(ra, id) == lists(rb, id) by {
            lemma_drop_last_lists(a, id);
            lemma_drop_last_lists(b, id);
            assert(as_map(a).contains_key(id) == lists(a, id));
            assert(as_map(b).contains_key(id) == lists(b, id));
        }
        assert forall|id: Seq<char>| lists(ra, id) implies ra[place_of(ra, id)] == rb[place_of(rb, id)] by {
            lemma_drop_last_lists(a, id);
            lemma_drop_last_lists(b, id);
            let i = place_of(ra, id);
            let j = place_of(rb, id);
            assert(a[i].id == id && b[j].id == id);
            lemma_place(a, i);
            lemma_place(b, j);
            assert(as_map(a)[id] == a[i]);
            assert(as_map(b)[id] == b[j]);
        }
        assert(as_map(ra) =~= as_map(rb));
        lemma_ascending_unique(ra, rb);
        assert(a =~= ra.push(x));
        assert(b =~= rb.push(y));
    }
}

/// Without its last element, an ascending sequence holds every identifier it
/// held but the last one.
proof fn lemma_drop_last_lists(s: Seq<IssueView>, id: Seq<char>)
    requires
        ascending(s),
        s.len() > 0,
    ensures
        lists(s.drop_last(), id) == (lists(s, id) && id != s.last().id),
{
    let r = s.drop_last();
    if lists(r, id) {
        let i = place_of(r, id);
        assert(s[i].id == id);
        assert(text_before(s[i].id, s[s.len() - 1].id));
        lemma_before_irreflexive(encode_utf8(id));
    }
    if lists(s, id) && id != s.last().id {
        let i = place_of(s, id);
        assert(r[i].id == id);
    }
}

/// The issues of a snapshot.
pub struct Snapshot {
    issues: Vec<Issue>,
}

impl Snapshot {
    /// The issues in ascending order of their identifiers.
    pub closed spec fn listing(&self) -> Seq<IssueView> {
        issue_views(self.issues@)
    }

    /// The identifiers ascend strictly.
    pub open spec fn wf(&self) -> bool {
        ascending(self.listing())
    }
}

impl View for Snapshot {
    type V = Map<Seq<char>, IssueView>;

    open spec fn view(&self) -> Map<Seq<char>, IssueView> {
        as_map(self.listing())
    }
}

impl Snapshot {
    /// A snapshot without issues.
    pub fn new() -> (r: Snapshot)
        ensures
            r.wf(),
            r@ == Map::<Seq<char>, IssueView>::empty(),
    {
        let r = Snapshot { issues: Vec::new() };
        assert(r.listing() =~= Seq::<IssueView>::empty());
        assert(r@ =~= Map::<Seq<char>, IssueView>::empty());
        r
    }

    /// How many issues the snapshot holds.
    pub fn len(&self) -> (r: usize)
        ensures
            r == self.listing().len(),
    {
        self.issues.len()
    }

    /// The first place whose identifier does not stand before `id`, and
    /// whether that place holds `id` itself.
    fn seek(&self, id: &str) -> (r: (usize, bool))
        requires
            self.wf(),
        ensures
            r.0 <= self.listing().len(),
            forall|i: int| 0 <= i < r.0 ==> text_before((#[trigger] self.listing()[i]).id, id@),
            r.1 ==> r.0 < self.listing().len() && self.listing()[r.0 as int].id == id@,
            !r.1 ==> forall|j: int|
                r.0 <= j < self.listing().len() ==> text_before(id@, (#[trigger] self.listing()[j]).id),
    {
        let mut i: usize = 0;
        while i < self.issues.len()
            invariant
                i <= self.issues.len(),
                self.wf(),
                forall|k: int| 0 <= k < i ==> text_before((#[trigger] self.listing()[k]).id, id@),
            decreases self.issues.len() - i,
        {
            assert(self.listing()[i as int] == self.issues[i as int]@);
            match standing(self.issues[i].id.as_str(), id) {
                Standing::Before => {},
                Standing::Same => {
                    return (i, true);
                },
                Standing::After => {
                    proof {
                        assert forall|j: int| i <= j < self.listing().len() implies text_before(
                            id@,
                            (#[trigger] self.listing()[j]).id,
                        ) by {
                            if j > i {
                                assert(text_before(self.listing()[i as int].id, self.listing()[j].id));
                                lemma_text_order(id@, self.listing()[i as int].id, self.listing()[j].id);
                            }
                        }
                    }
                    return (i, false);
                },
            }
            i += 1;
        }
        (i, false)
    }

    /// Puts `issue` into the snapshot, in place of the one with its
    /// identifier if there is one.
    pub fn upsert(&mut self, issue: Issue)
        requires
            old(self).wf(),
        ensures
            final(self).wf(),
            final(self)@ == old(self)@.insert(issue@.id, issue@),
    {
        let (p, found) = self.seek(issue.id.as_str());
        let ghost before = self.listing();
        let ghost x = issue@;
        if found {
            self.issues[p] = issue;
            proof {
                let after = self.listing();
                assert(after =~= before.update(p as int, x));
                assert forall|i: int, j: int| 0 <= i < j < after.len() implies text_before(
                    (#[trigger] after[i]).id,
                    (#[trigger] after[j]).id,
                ) by {
                    assert(text_before(before[i].id, before[j].id));
                }
                assert forall|id: Seq<char>| lists(after, id) == (lists(before, id) || id == x.id) by {
                    if lists(after, id) {
                        let i = place_of(after, id);
                        assert(before[i].id == id);
                    }
                    if lists(before, id) {
                        let i = place_of(before, id);
                        assert(after[i].id == id);
                    }
                    if id == x.id {
                        assert(after[p as int].id == id);
                    }
                }
                assert forall|id: Seq<char>| lists(after, id) implies after[place_of(after, id)]
                    == as_map(before).insert(x.id, x)[id] by {
                    let i = place_of(after, id);
                    lemma_place(after, i);
                    if id != x.id {
                        assert(before[i].id == id);
                        lemma_place(before, i);
                    } else {
                        lemma_place(after, p as int);
                    }
                }
                assert(as_map(after) =~= as_map(before).insert(x.id, x));
            }
        } else {
            self.issues.insert(p, issue);
            proof {
                let after = self.listing();
                assert(after =~= before.insert(p as int, x));
                assert forall|i: int, j: int| 0 <= i < j < after.len() implies text_before(
                    (#[trigger] after[i]).id,
                    (#[trigger] after[j]).id,
                ) by {
                    let i0 = if i < p { i } else { i - 1 };
                    let j0 = if j < p { j } else { j - 1 };
                    if i == p {
                        assert(after[j] == before[j0]);
                    } else if j == p {
                        assert(after[i] == before[i0]);
                    } else {
                        assert(after[i] == before[i0] && after[j] == before[j0]);
                        assert(text_before(before[i0].id, before[j0].id));
                    }
                }
                assert forall|id: Seq<char>| lists(after, id) == (lists(before, id) || id == x.id) by {
                    if lists(after, id) {
                        let i = place_of(after, id);
                        if i != p {
                            let i0 = if i < p { i } else { i - 1 };
                            assert(before[i0].id == id);
                        }
                    }
                    if lists(before, id) {
                        let i = place_of(before, id);
                        let i1 = if i < p { i } else { i + 1 };
                        assert(after[i1].id == id);
                    }
                    if id == x.id {
                        assert(after[p as int].id == id);
                    }
                }
                assert forall|id: Seq<char>| lists(after, id) implies after[place_of(after, id)]
                    == as_map(before).insert(x.id, x)[id] by {
                    let i = place_of(after, id);
                    lemma_place(after, i);
                    if id != x.id {
                        let i0 = if i < p { i } else { i - 1 };
                        assert(i != p);
                        assert(before[i0].id == id);
                        lemma_place(before, i0);
                    } else {
                        lemma_place(after, p as int);
                    }
                }
                assert(as_map(after) =~= as_map(before).insert(x.id, x));
            }
        }
    }

    /// Takes the issue with the identifier `id` out of the snapshot, if it is
    /// there.
    pub fn remove(&mut self, id: &str)
        requires
            old(self).wf(),
        ensures
            final(self).wf(),
            final(self)@ == old(self)@.remove(id@),
    {
        let (p, found) = self.seek(id);
        let ghost before = self.listing();
        if found {
            self.issues.remove(p);
            proof {
                let after = self.listing();
                assert(after =~= before.remove(p as int));
                assert forall|i: int, j: int| 0 <= i < j < after.len() implies text_before(
                    (#[trigger] after[i]).id,
                    (#[trigger] after[j]).id,
                ) by {
                    let i1 = if i < p { i } else { i + 1 };
                    let j1 = if j < p { j } else { j + 1 };
                    assert(after[i] == before[i1] && after[j] == before[j1]);
                    assert(text_before(before[i1].id, before[j1].id));
                }
                lemma_place(before, p as int);
                assert forall|x: Seq<char>| lists(after, x) == (lists(before, x) && x != id@) by {
                    if lists(after, x) {
                        let i = place_of(after, x);
                        let i1 = if i < p { i } else { i + 1 };
                        assert(before[i1].id == x);
                        lemma_place(before, i1);
                    }
                    if lists(before, x) && x != id@ {
                        let i = place_of(before, x);
                        let i0 = if i < p { i } else { i - 1 };
                        assert(after[i0].id == x);
                    }
                }
                assert forall|x: Seq<char>| lists(after, x) implies after[place_of(after, x)]
                    == as_map(before)[x] by {
                    let i = place_of(after, x);
                    let i1 = if i < p { i } else { i + 1 };
                    assert(after[i] == before[i1]);
                    lemma_place(before, i1);
                }
                assert(as_map(after) =~= as_map(before).remove(id@));
            }
        } else {
            proof {
                lemma_before_irreflexive(encode_utf8(id@));
                if lists(before, id@) {
                    let i = place_of(before, id@);
                    assert(before[i].id == id@);
                    if i < p {
                        assert(text_before(before[i].id, id@));
                    } else {
                        assert(text_before(id@, before[i].id));
                    }
                }
                assert(as_map(before) =~= as_map(before).remove(id@));
            }
        }
    }

    /// The issues in ascending order of their identifiers.
    pub fn into_issues(self) -> (r: Vec<Issue>)
        requires
            self.wf(),
        ensures
            ascending(issue_views(r@)),
            as_map(issue_views(r@)) == self@,
            issue_views(r@) == self.listing(),
    {
        self.issues
    }
}

} // verus!
