//! What the search for cycles reports is there: every reported list is the
//! list of issues along a closed path of edges; and the depth that the
//! search allows itself is never used up.

use vstd::prelude::*;
use crate::seqs::lemma_filter_members;
use crate::storage::graph::leaves_from;
use crate::storage::model::StorageView;
use crate::storage::traverse::{first_index, CycleSearch};
use crate::types::IssueView;

verus! {

/// The ends of all edges, the depending ends first.
pub open spec fn node_list(s: StorageView) -> Seq<Seq<char>> {
    Seq::new(
        2 * s.dependencies.len(),
        |i: int|
            if i < s.dependencies.len() {
                s.dependencies[i].issue_id
            } else {
                s.dependencies[i - s.dependencies.len()].depends_on_id
            },
    )
}

/// The identifiers that the edges connect.
pub open spec fn graph_nodes(s: StorageView) -> Set<Seq<char>> {
    node_list(s).to_set()
}

/// How many of the connected identifiers the search has not been at.
pub open spec fn unvisited(s: StorageView, visited: Seq<Seq<char>>) -> nat {
    graph_nodes(s).difference(visited.to_set()).len()
}

/// An edge leads from the identifier at place `i` of `p` to the next one.
pub open spec fn steps_on(s: StorageView, p: Seq<Seq<char>>, i: int) -> bool {
    s.has_edge(p[i], p[i + 1])
}

/// `p` is a closed path: at least one identifier, none twice, an edge from
/// each to the next and from the last back to the first.
pub open spec fn is_cycle(s: StorageView, p: Seq<Seq<char>>) -> bool {
    &&& p.len() > 0
    &&& p.no_duplicates()
    &&& forall|i: int| 0 <= i < p.len() - 1 ==> #[trigger] steps_on(s, p, i)
    &&& s.has_edge(p.last(), p[0])
}

/// `c` is the list of the stored issues along the closed path `p`.
pub open spec fn reports(s: StorageView, c: Seq<IssueView>, p: Seq<Seq<char>>) -> bool {
    is_cycle(s, p) && c == s.issues_of(p)
}

/// `c` is the list of the stored issues along some closed path.
pub open spec fn is_report(s: StorageView, c: Seq<IssueView>) -> bool {
    exists|p: Seq<Seq<char>>| reports(s, c, p)
}

/// The search is in order: its path repeats nothing, runs over visited
/// identifiers and along edges; what it has visited is connected by edges;
/// and each list it has reported is that of a closed path.
pub open spec fn search_in_order(s: StorageView, search: CycleSearch) -> bool {
    &&& search.path.no_duplicates()
    &&& forall|i: int| 0 <= i < search.path.len() ==> search.visited.contains(#[trigger] search.path[i])
    &&& forall|i: int|
        0 <= i < search.path.len() - 1 ==> #[trigger] steps_on(s, search.path, i)
    &&& forall|i: int|
        0 <= i < search.visited.len() ==> graph_nodes(s).contains(#[trigger] search.visited[i])
    &&& forall|j: int| 0 <= j < search.cycles.len() ==> is_report(s, #[trigger] search.cycles[j])
}

/// The search went on from `before` to `after`: it is where it was, and has
/// forgotten nothing it had visited.
pub open spec fn search_went_on(before: CycleSearch, after: CycleSearch) -> bool {
    &&& after.path == before.path
    &&& forall|x: Seq<char>| before.visited.contains(x) ==> after.visited.contains(x)
    &&& before.cycles.len() <= after.cycles.len()
}

/// Both ends of an edge are connected identifiers.
pub proof fn lemma_edge_ends(s: StorageView, a: Seq<char>, b: Seq<char>)
    requires
        s.has_edge(a, b),
    ensures
        graph_nodes(s).contains(a),
        graph_nodes(s).contains(b),
{
    let e = s.edge_index(a, b);
    let n = s.dependencies.len() as int;
    assert(node_list(s)[e] == a);
    assert(node_list(s)[e + n] == b);
}

/// Each identifier that an issue depends on is reached from it by an edge.
pub proof fn lemma_targets_are_edges(s: StorageView, a: Seq<char>)
    ensures
        forall|i: int| 0 <= i < s.targets_of(a).len() ==> s.has_edge(a, #[trigger] s.targets_of(a)[i]),
{
    let f = s.edges_from(a);
    lemma_filter_members(s.dependencies, leaves_from(a));
    assert forall|i: int| 0 <= i < s.targets_of(a).len() implies s.has_edge(
        a,
        #[trigger] s.targets_of(a)[i],
    ) by {
        assert(f.contains(f[i]));
        assert(s.dependencies.contains(f[i]));
        let e = choose|e: int| 0 <= e < s.dependencies.len() && s.dependencies[e] == f[i];
        assert(s.dependencies[e].issue_id == a && s.dependencies[e].depends_on_id == s.targets_of(
            a,
        )[i]);
    }
}

/// An identifier that occurs in a sequence has a first place there.
pub proof fn lemma_first_index(p: Seq<Seq<char>>, x: Seq<char>, w: int)
    requires
        0 <= w < p.len(),
        p[w] == x,
    ensures
        0 <= first_index(p, x) <= w,
        p[first_index(p, x)] == x,
        forall|j: int| 0 <= j < first_index(p, x) ==> p[j] != x,
    decreases w,
{
    if exists|j: int| 0 <= j < w && p[j] == x {
        let j = choose|j: int| 0 <= j < w && p[j] == x;
        lemma_first_index(p, x, j);
    } else {
        assert(0 <= w < p.len() && p[w] == x && forall|j: int| 0 <= j < w ==> p[j] != x);
        let c = first_index(p, x);
        assert(0 <= c < p.len() && p[c] == x && forall|j: int| 0 <= j < c ==> p[j] != x);
        assert(c == w);
    }
}

/// One more visited identifier that the edges connect leaves one fewer
/// unvisited.
pub proof fn lemma_visit_counts(s: StorageView, visited: Seq<Seq<char>>, node: Seq<char>)
    requires
        graph_nodes(s).contains(node),
        !visited.contains(node),
    ensures
        unvisited(s, visited) >= 1,
        unvisited(s, visited.push(node)) == unvisited(s, visited) - 1,
{
    broadcast use vstd::set::group_set_axioms;

    vstd::seq_lib::seq_to_set_is_finite(node_list(s));
    let u = graph_nodes(s);
    let before = u.difference(visited.to_set());
    let after = u.difference(visited.push(node).to_set());
    assert(before.finite());
    assert(before.contains(node));
    assert(after =~= before.remove(node)) by {
        assert forall|x: Seq<char>| after.contains(x) == before.remove(node).contains(x) by {
            if visited.push(node).contains(x) {
                let i = choose|i: int| 0 <= i < visited.push(node).len() && visited.push(node)[i] == x;
                if i < visited.len() {
                    assert(visited[i] == x);
                }
            }
            if visited.contains(x) {
                let i = choose|i: int| 0 <= i < visited.len() && visited[i] == x;
                assert(visited.push(node)[i] == x);
            }
            if x == node {
                assert(visited.push(node)[visited.len() as int] == node);
            }
        }
    }
    if before.len() == 0 {
        assert(before =~= Set::empty());
    }
}

/// Visiting more leaves no more unvisited.
pub proof fn lemma_more_visited(s: StorageView, fewer: Seq<Seq<char>>, more: Seq<Seq<char>>)
    requires
        forall|x: Seq<char>| fewer.contains(x) ==> more.contains(x),
    ensures
        unvisited(s, more) <= unvisited(s, fewer),
{
    broadcast use vstd::set::group_set_axioms;

    vstd::seq_lib::seq_to_set_is_finite(node_list(s));
    let u = graph_nodes(s);
    vstd::set_lib::lemma_len_subset(u.difference(more.to_set()), u.difference(fewer.to_set()));
}

/// Entering an unvisited identifier and looking along its edges leaves the
/// search in order, where it was, with that identifier visited.
pub proof fn lemma_cycle_visit(s: StorageView, node: Seq<char>, budget: nat, search: CycleSearch)
    requires
        search_in_order(s, search),
        graph_nodes(s).contains(node),
        !search.visited.contains(node),
        search.path.len() > 0 ==> s.has_edge(search.path.last(), node),
    ensures
        search_in_order(s, s.cycle_visit(node, budget, search)),
        search_went_on(search, s.cycle_visit(node, budget, search)),
        s.cycle_visit(node, budget, search).visited.contains(node),
    decreases budget, 1int, 0int,
{
    let entered = CycleSearch {
        visited: search.visited.push(node),
        path: search.path.push(node),
        ..search
    };
    assert(entered.visited[search.visited.len() as int] == node);
    assert forall|x: Seq<char>| search.visited.contains(x) implies entered.visited.contains(x) by {
        let i = choose|i: int| 0 <= i < search.visited.len() && search.visited[i] == x;
        assert(entered.visited[i] == x);
    }
    lemma_entered_in_order(s, node, search);
    assert(search_in_order(s, entered));
    lemma_cycle_neighbours(s, node, s.targets_of(node), 0, budget, entered);
    let explored = s.cycle_neighbours(s.targets_of(node), 0, budget, entered);
    let out = s.cycle_visit(node, budget, search);
    assert(explored.path == entered.path);
    assert(out.path =~= search.path);
    assert(out.path.no_duplicates());
}

/// Looking along the edges of the identifier at the end of the path leaves
/// the search in order and where it was.
pub proof fn lemma_cycle_neighbours(
    s: StorageView,
    node: Seq<char>,
    targets: Seq<Seq<char>>,
    k: int,
    budget: nat,
    search: CycleSearch,
)
    requires
        search_in_order(s, search),
        search.path.len() > 0,
        search.path.last() == node,
        targets == s.targets_of(node),
        0 <= k,
    ensures
        search_in_order(s, s.cycle_neighbours(targets, k, budget, search)),
        search_went_on(search, s.cycle_neighbours(targets, k, budget, search)),
    decreases budget, 0int, targets.len() - k,
{
    if k >= targets.len() {
    } else {
        let next = targets[k];
        lemma_targets_are_edges(s, node);
        assert(s.has_edge(node, next));
        lemma_edge_ends(s, node, next);
        let after = if !search.visited.contains(next) {
            if budget == 0 {
                search
            } else {
                s.cycle_visit(next, (budget - 1) as nat, search)
            }
        } else if search.path.contains(next) {
            let found = s.issues_of(search.path.skip(first_index(search.path, next)));
            if found.len() > 0 {
                CycleSearch { cycles: search.cycles.push(found), ..search }
            } else {
                search
            }
        } else {
            search
        };
        if !search.visited.contains(next) {
            if budget > 0 {
                lemma_cycle_visit(s, next, (budget - 1) as nat, search);
            }
        } else {
            lemma_cycle_neighbours_step(s, node, targets, k, budget, search);
        }
        assert(search_in_order(s, after));
        assert(search_went_on(search, after));
        lemma_cycle_neighbours(s, node, targets, k + 1, budget, after);
    }
}

/// Starting from one edge after the other leaves the search in order and
/// with an empty path.
pub proof fn lemma_cycle_starts(s: StorageView, k: int, budget: nat, search: CycleSearch)
    requires
        search_in_order(s, search),
        search.path.len() == 0,
        0 <= k,
    ensures
        search_in_order(s, s.cycle_starts(k, budget, search)),
        search_went_on(search, s.cycle_starts(k, budget, search)),
    decreases s.dependencies.len() - k,
{
    if k < s.dependencies.len() {
        let node = s.dependencies[k].issue_id;
        assert(s.has_edge(node, s.dependencies[k].depends_on_id));
        lemma_edge_ends(s, node, s.dependencies[k].depends_on_id);
        let after = if !search.visited.contains(node) {
            s.cycle_visit(node, budget, search)
        } else {
            search
        };
        if !search.visited.contains(node) {
            lemma_cycle_visit(s, node, budget, search);
        }
        lemma_cycle_starts(s, k + 1, budget, after);
    }
}

/// In a consistent store the issues along a path of edges are all stored:
/// the list of issues is as long as the path and holds the issue of each
/// identifier at its place.
pub proof fn lemma_issues_along(s: StorageView, p: Seq<Seq<char>>)
    requires
        forall|i: int| 0 <= i < p.len() ==> s.has_issue(#[trigger] p[i]),
    ensures
        s.issues_of(p).len() == p.len(),
        forall|i: int| 0 <= i < p.len() ==> #[trigger] s.issues_of(p)[i] == s.issue(p[i]),
    decreases p.len(),
{
    if p.len() > 0 {
        let rest = p.drop_last();
        assert forall|i: int| 0 <= i < rest.len() implies s.has_issue(#[trigger] rest[i]) by {
            assert(rest[i] == p[i]);
        }
        lemma_issues_along(s, rest);
        assert(s.has_issue(p.last()));
    }
}

/// Every list that the search for cycles reports is the list of the issues
/// along a closed path of edges, in the order of the path.
pub proof fn lemma_reported_cycles_are_cycles(s: StorageView, j: int)
    requires
        s.wf(),
        0 <= j < s.detect_cycles().len(),
    ensures
        exists|p: Seq<Seq<char>>| #[trigger]
            is_cycle(s, p) && s.detect_cycles()[j].len() == p.len() && forall|i: int|
                0 <= i < p.len() ==> #[trigger] s.detect_cycles()[j][i] == s.issue(p[i]),
{
    let begin = CycleSearch { visited: Seq::empty(), path: Seq::empty(), cycles: Seq::empty() };
    lemma_cycle_starts(s, 0, s.cycle_budget(), begin);
    let out = s.cycle_starts(0, s.cycle_budget(), begin);
    let c = out.cycles[j];
    assert(is_report(s, c));
    let p = choose|p: Seq<Seq<char>>| reports(s, c, p);
    assert(reports(s, c, p));
    assert forall|i: int| 0 <= i < p.len() implies s.has_issue(#[trigger] p[i]) by {
        if i < p.len() - 1 {
            assert(steps_on(s, p, i));
            let e = s.edge_index(p[i], p[i + 1]);
            assert(s.has_issue(s.dependencies[e].issue_id));
        } else {
            assert(s.has_edge(p.last(), p[0]));
            let e = s.edge_index(p.last(), p[0]);
            assert(s.has_issue(s.dependencies[e].issue_id));
        }
    }
    lemma_issues_along(s, p);
    assert(is_cycle(s, p) && s.detect_cycles()[j].len() == p.len() && forall|i: int|
        0 <= i < p.len() ==> #[trigger] s.detect_cycles()[j][i] == s.issue(p[i]));
}

/// With enough depth allowed, allowing more changes nothing about entering
/// an identifier.
pub proof fn lemma_visit_budget(s: StorageView, node: Seq<char>, small: nat, large: nat, search: CycleSearch)
    requires
        search_in_order(s, search),
        graph_nodes(s).contains(node),
        !search.visited.contains(node),
        search.path.len() > 0 ==> s.has_edge(search.path.last(), node),
        small + 1 >= unvisited(s, search.visited),
        large + 1 >= unvisited(s, search.visited),
    ensures
        s.cycle_visit(node, small, search) == s.cycle_visit(node, large, search),
    decreases small, 1int, 0int,
{
    let entered = CycleSearch {
        visited: search.visited.push(node),
        path: search.path.push(node),
        ..search
    };
    lemma_visit_counts(s, search.visited, node);
    // What `lemma_cycle_visit` shows of the search on entering.
    lemma_entered_in_order(s, node, search);
    lemma_neighbours_budget(s, node, s.targets_of(node), 0, small, large, entered);
}

/// Entering an unvisited identifier leaves the search in order.
proof fn lemma_entered_in_order(s: StorageView, node: Seq<char>, search: CycleSearch)
    requires
        search_in_order(s, search),
        graph_nodes(s).contains(node),
        !search.visited.contains(node),
        search.path.len() > 0 ==> s.has_edge(search.path.last(), node),
    ensures
        search_in_order(
            s,
            CycleSearch {
                visited: search.visited.push(node),
                path: search.path.push(node),
                ..search
            },
        ),
{
    let entered = CycleSearch {
        visited: search.visited.push(node),
        path: search.path.push(node),
        ..search
    };
    let n = search.path.len() as int;
    assert(entered.visited[search.visited.len() as int] == node);
    assert forall|x: Seq<char>| search.visited.contains(x) implies entered.visited.contains(x) by {
        let i = choose|i: int| 0 <= i < search.visited.len() && search.visited[i] == x;
        assert(entered.visited[i] == x);
    }
    assert(entered.path.no_duplicates()) by {
        assert forall|i: int, j: int|
            0 <= i < entered.path.len() && 0 <= j < entered.path.len() && i != j implies entered.path[i]
            != entered.path[j] by {
            if i < n && j < n {
                assert(search.path[i] != search.path[j]);
            } else if i < n {
                assert(search.visited.contains(search.path[i]));
            } else {
                assert(search.visited.contains(search.path[j]));
            }
        }
    }
    assert forall|i: int| 0 <= i < entered.path.len() implies entered.visited.contains(
        #[trigger] entered.path[i],
    ) by {
        if i < n {
            assert(search.visited.contains(search.path[i]));
        }
    }
    assert forall|i: int| 0 <= i < entered.path.len() - 1 implies #[trigger] steps_on(s, entered.path, i) by {
        if i < n - 1 {
            assert(steps_on(s, search.path, i));
        }
    }
    assert forall|i: int| 0 <= i < entered.visited.len() implies graph_nodes(s).contains(
        #[trigger] entered.visited[i],
    ) by {
        if i < search.visited.len() {
            assert(graph_nodes(s).contains(search.visited[i]));
        }
    }
    assert forall|j: int| 0 <= j < entered.cycles.len() implies is_report(
        s,
        #[trigger] entered.cycles[j],
    ) by {
        assert(is_report(s, search.cycles[j]));
    }
}

/// With enough depth allowed, allowing more changes nothing about looking
/// along the edges of an identifier.
pub proof fn lemma_neighbours_budget(
    s: StorageView,
    node: Seq<char>,
    targets: Seq<Seq<char>>,
    k: int,
    small: nat,
    large: nat,
    search: CycleSearch,
)
    requires
        search_in_order(s, search),
        search.path.len() > 0,
        search.path.last() == node,
        targets == s.targets_of(node),
        0 <= k,
        small >= unvisited(s, search.visited),
        large >= unvisited(s, search.visited),
    ensures
        s.cycle_neighbours(targets, k, small, search) == s.cycle_neighbours(targets, k, large, search),
    decreases small, 0int, targets.len() - k,
{
    if k >= targets.len() {
    } else {
        let next = targets[k];
        lemma_targets_are_edges(s, node);
        assert(s.has_edge(node, next));
        lemma_edge_ends(s, node, next);
        if !search.visited.contains(next) {
            lemma_visit_counts(s, search.visited, next);
            assert(small > 0 && large > 0);
            lemma_visit_budget(s, next, (small - 1) as nat, (large - 1) as nat, search);
            lemma_cycle_visit(s, next, (small - 1) as nat, search);
            let after = s.cycle_visit(next, (small - 1) as nat, search);
            lemma_more_visited(s, search.visited, after.visited);
            lemma_neighbours_budget(s, node, targets, k + 1, small, large, after);
        } else {
            lemma_cycle_neighbours_step(s, node, targets, k, small, search);
            let after = if search.path.contains(next) {
                let found = s.issues_of(search.path.skip(first_index(search.path, next)));
                if found.len() > 0 {
                    CycleSearch { cycles: search.cycles.push(found), ..search }
                } else {
                    search
                }
            } else {
                search
            };
            lemma_neighbours_budget(s, node, targets, k + 1, small, large, after);
        }
    }
}

/// Looking along an edge to a visited identifier leaves the search in order.
proof fn lemma_cycle_neighbours_step(
    s: StorageView,
    node: Seq<char>,
    targets: Seq<Seq<char>>,
    k: int,
    budget: nat,
    search: CycleSearch,
)
    requires
        search_in_order(s, search),
        search.path.len() > 0,
        search.path.last() == node,
        targets == s.targets_of(node),
        0 <= k < targets.len(),
        search.visited.contains(targets[k]),
    ensures
        search_in_order(
            s,
            if search.path.contains(targets[k]) && s.issues_of(
                search.path.skip(first_index(search.path, targets[k])),
            ).len() > 0 {
                CycleSearch {
                    cycles: search.cycles.push(
                        s.issues_of(search.path.skip(first_index(search.path, targets[k]))),
                    ),
                    ..search
                }
            } else {
                search
            },
        ),
{
    let next = targets[k];
    lemma_targets_are_edges(s, node);
    assert(s.has_edge(node, next));
    if search.path.contains(next) {
        let w = choose|w: int| 0 <= w < search.path.len() && search.path[w] == next;
        lemma_first_index(search.path, next, w);
        let from = first_index(search.path, next);
        let slice = search.path.skip(from);
        let found = s.issues_of(slice);
        if found.len() > 0 {
            let after = CycleSearch { cycles: search.cycles.push(found), ..search };
            assert(is_cycle(s, slice)) by {
                assert forall|i: int, j: int|
                    0 <= i < slice.len() && 0 <= j < slice.len() && i != j implies slice[i] != slice[j] by {
                    assert(search.path[from + i] != search.path[from + j]);
                }
                assert forall|i: int| 0 <= i < slice.len() - 1 implies #[trigger] steps_on(s, slice, i) by {
                    assert(steps_on(s, search.path, from + i));
                }
                assert(slice.last() == node);
                assert(slice[0] == next);
            }
            assert(reports(s, found, slice));
            assert(is_report(s, found));
            assert forall|j: int| 0 <= j < after.cycles.len() implies is_report(
                s,
                #[trigger] after.cycles[j],
            ) by {
                if j < search.cycles.len() {
                    assert(is_report(s, search.cycles[j]));
                }
            }
        }
    }
}

/// With enough depth allowed, allowing more changes nothing about the whole
/// search.
pub proof fn lemma_starts_budget(s: StorageView, k: int, small: nat, large: nat, search: CycleSearch)
    requires
        search_in_order(s, search),
        search.path.len() == 0,
        0 <= k,
        small + 1 >= unvisited(s, search.visited),
        large + 1 >= unvisited(s, search.visited),
    ensures
        s.cycle_starts(k, small, search) == s.cycle_starts(k, large, search),
    decreases s.dependencies.len() - k,
{
    if k < s.dependencies.len() {
        let node = s.dependencies[k].issue_id;
        assert(s.has_edge(node, s.dependencies[k].depends_on_id));
        lemma_edge_ends(s, node, s.dependencies[k].depends_on_id);
        if !search.visited.contains(node) {
            lemma_visit_budget(s, node, small, large, search);
            lemma_cycle_visit(s, node, small, search);
            let after = s.cycle_visit(node, small, search);
            lemma_more_visited(s, search.visited, after.visited);
            lemma_starts_budget(s, k + 1, small, large, after);
        } else {
            lemma_starts_budget(s, k + 1, small, large, search);
        }
    }
}

/// The depth that the search for cycles allows itself is never used up:
/// with any greater depth allowed it reports the same.
pub proof fn lemma_budget_is_ample(s: StorageView, more: nat)
    requires
        more >= s.cycle_budget(),
    ensures
        s.cycle_starts(
            0,
            more,
            CycleSearch { visited: Seq::empty(), path: Seq::empty(), cycles: Seq::empty() },
        ).cycles == s.detect_cycles(),
{
    broadcast use vstd::set::group_set_axioms;

    let begin = CycleSearch { visited: Seq::empty(), path: Seq::empty(), cycles: Seq::empty() };
    vstd::seq_lib::seq_to_set_is_finite(node_list(s));
    node_list(s).lemma_cardinality_of_set();
    vstd::set_lib::lemma_len_subset(
        graph_nodes(s).difference(begin.visited.to_set()),
        graph_nodes(s),
    );
    assert(unvisited(s, begin.visited) <= 2 * s.dependencies.len());
    lemma_starts_budget(s, 0, s.cycle_budget(), more, begin);
}

/// The search has been at `y` and has left it again.
pub open spec fn finished(search: CycleSearch, y: Seq<char>) -> bool {
    search.visited.contains(y) && !search.path.contains(y)
}

/// Some closed path runs through `y`.
pub open spec fn on_cycle(s: StorageView, y: Seq<char>) -> bool {
    exists|p: Seq<Seq<char>>| is_cycle(s, p) && #[trigger] p.contains(y)
}

/// While nothing is reported, what the search has left behind is closed and
/// clean: an edge from an identifier it has left leads to an identifier it
/// has left, and no closed path runs through an identifier it has left.
pub open spec fn settled(s: StorageView, search: CycleSearch) -> bool {
    search.cycles.len() == 0 ==> {
        &&& forall|y: Seq<char>, z: Seq<char>|
            finished(search, y) && #[trigger] s.has_edge(y, z) ==> finished(search, z)
        &&& forall|y: Seq<char>| #[trigger] finished(search, y) ==> !on_cycle(s, y)
    }
}

/// An edge leads to an identifier that its start depends on.
pub proof fn lemma_edges_are_targets(s: StorageView, a: Seq<char>, b: Seq<char>)
    requires
        s.has_edge(a, b),
    ensures
        s.targets_of(a).contains(b),
{
    let e = s.edge_index(a, b);
    let d = s.dependencies[e];
    let f = s.edges_from(a);
    lemma_filter_members(s.dependencies, leaves_from(a));
    assert(leaves_from(a)(d));
    assert(s.dependencies.contains(d));
    assert(f.contains(d));
    let q = choose|q: int| 0 <= q < f.len() && f[q] == d;
    assert(s.targets_of(a)[q] == b);
}

/// If what the search has left behind is closed, and it has left `p[a]` on
/// a closed path, then it has left every later identifier of the path.
proof fn lemma_cycle_is_left(s: StorageView, search: CycleSearch, p: Seq<Seq<char>>, a: int, b: int)
    requires
        is_cycle(s, p),
        0 <= a <= b < p.len(),
        forall|y: Seq<char>, z: Seq<char>|
            finished(search, y) && #[trigger] s.has_edge(y, z) ==> finished(search, z),
        finished(search, p[a]),
    ensures
        finished(search, p[b]),
    decreases b - a,
{
    if a < b {
        lemma_cycle_is_left(s, search, p, a, b - 1);
        assert(steps_on(s, p, b - 1));
    }
}

/// No closed path runs through an identifier all of whose edges lead into
/// what the search has left behind, if that is closed and the identifier
/// itself is still on the path.
proof fn lemma_no_cycle_through(s: StorageView, search: CycleSearch, node: Seq<char>)
    requires
        forall|y: Seq<char>, z: Seq<char>|
            finished(search, y) && #[trigger] s.has_edge(y, z) ==> finished(search, z),
        forall|z: Seq<char>| #[trigger] s.has_edge(node, z) ==> finished(search, z),
        !finished(search, node),
    ensures
        !on_cycle(s, node),
{
    if on_cycle(s, node) {
        let p = choose|p: Seq<Seq<char>>| is_cycle(s, p) && #[trigger] p.contains(node);
        let i = choose|i: int| 0 <= i < p.len() && p[i] == node;
        let n = p.len() as int;
        if i < n - 1 {
            assert(steps_on(s, p, i));
            assert(finished(search, p[i + 1]));
            lemma_cycle_is_left(s, search, p, i + 1, n - 1);
            assert(s.has_edge(p.last(), p[0]));
            assert(finished(search, p[0]));
        } else {
            assert(s.has_edge(p.last(), p[0]));
            assert(finished(search, p[0]));
        }
        lemma_cycle_is_left(s, search, p, 0, i);
    }
}

/// In a consistent store the identifiers that the edges connect are stored.
pub proof fn lemma_nodes_are_stored(s: StorageView, x: Seq<char>)
    requires
        s.wf(),
        graph_nodes(s).contains(x),
    ensures
        s.has_issue(x),
{
    let i = choose|i: int| 0 <= i < node_list(s).len() && node_list(s)[i] == x;
    let n = s.dependencies.len() as int;
    if i < n {
        assert(s.has_issue(s.dependencies[i].issue_id));
    } else {
        assert(s.has_issue(s.dependencies[i - n].depends_on_id));
    }
}

/// With enough depth allowed, entering an identifier leaves what the search
/// has left behind closed and clean, as long as nothing is reported; and
/// then the identifier is left behind too.
pub proof fn lemma_visit_settles(s: StorageView, node: Seq<char>, budget: nat, search: CycleSearch)
    requires
        s.wf(),
        search_in_order(s, search),
        settled(s, search),
        graph_nodes(s).contains(node),
        !search.visited.contains(node),
        search.path.len() > 0 ==> s.has_edge(search.path.last(), node),
        budget + 1 >= unvisited(s, search.visited),
    ensures
        settled(s, s.cycle_visit(node, budget, search)),
        s.cycle_visit(node, budget, search).cycles.len() == 0 ==> finished(
            s.cycle_visit(node, budget, search),
            node,
        ),
    decreases budget, 1int, 0int,
{
    let entered = CycleSearch {
        visited: search.visited.push(node),
        path: search.path.push(node),
        ..search
    };
    let n = search.path.len() as int;
    lemma_entered_in_order(s, node, search);
    lemma_visit_counts(s, search.visited, node);
    assert(entered.visited[search.visited.len() as int] == node);
    assert(entered.path[n] == node);
    assert forall|y: Seq<char>| finished(entered, y) implies finished(search, y) by {
        let i = choose|i: int| 0 <= i < entered.visited.len() && entered.visited[i] == y;
        if i < search.visited.len() {
            assert(search.visited[i] == y);
        } else {
            assert(entered.path.contains(y));
        }
        if search.path.contains(y) {
            let q = choose|q: int| 0 <= q < search.path.len() && search.path[q] == y;
            assert(entered.path[q] == y);
        }
    }
    assert forall|y: Seq<char>| finished(search, y) implies finished(entered, y) by {
        let i = choose|i: int| 0 <= i < search.visited.len() && search.visited[i] == y;
        assert(entered.visited[i] == y);
        if entered.path.contains(y) {
            let q = choose|q: int| 0 <= q < entered.path.len() && entered.path[q] == y;
            if q < n {
                assert(search.path[q] == y);
            }
        }
    }
    assert(settled(s, entered)) by {
        if entered.cycles.len() == 0 {
            assert forall|y: Seq<char>, z: Seq<char>|
                finished(entered, y) && #[trigger] s.has_edge(y, z) implies finished(entered, z) by {
                assert(finished(search, y));
                assert(finished(search, z));
            }
            assert forall|y: Seq<char>| #[trigger] finished(entered, y) implies !on_cycle(s, y) by {
                assert(finished(search, y));
            }
        }
    }
    lemma_cycle_neighbours(s, node, s.targets_of(node), 0, budget, entered);
    lemma_neighbours_settle(s, node, s.targets_of(node), 0, budget, entered);
    let explored = s.cycle_neighbours(s.targets_of(node), 0, budget, entered);
    let out = s.cycle_visit(node, budget, search);
    assert(explored.path == entered.path);
    assert(out.path =~= search.path);
    if out.cycles.len() == 0 {
        assert(explored.visited.contains(node));
        assert(!search.path.contains(node)) by {
            if search.path.contains(node) {
                let q = choose|q: int| 0 <= q < search.path.len() && search.path[q] == node;
                assert(search.visited.contains(search.path[q]));
            }
        }
        assert(finished(out, node));
        assert forall|z: Seq<char>| #[trigger] s.has_edge(node, z) implies finished(explored, z) by {
            lemma_edges_are_targets(s, node, z);
            let j = choose|j: int| 0 <= j < s.targets_of(node).len() && s.targets_of(node)[j] == z;
            assert(finished(explored, s.targets_of(node)[j]));
        }
        assert(!finished(explored, node)) by {
            assert(explored.path[n] == node);
        }
        lemma_no_cycle_through(s, explored, node);
        assert forall|y: Seq<char>| y != node && finished(out, y) implies finished(explored, y) by {
            if explored.path.contains(y) {
                let q = choose|q: int| 0 <= q < explored.path.len() && explored.path[q] == y;
                if q < n {
                    assert(search.path[q] == y);
                }
            }
        }
        assert forall|y: Seq<char>| finished(explored, y) implies finished(out, y) by {
            if out.path.contains(y) {
                let q = choose|q: int| 0 <= q < out.path.len() && out.path[q] == y;
                assert(explored.path[q] == y);
            }
        }
        assert forall|y: Seq<char>, z: Seq<char>|
            finished(out, y) && #[trigger] s.has_edge(y, z) implies finished(out, z) by {
            if y == node {
                assert(finished(explored, z));
            } else {
                assert(finished(explored, y));
                assert(finished(explored, z));
            }
        }
        assert forall|y: Seq<char>| #[trigger] finished(out, y) implies !on_cycle(s, y) by {
            if y != node {
                assert(finished(explored, y));
            }
        }
    }
}

/// With enough depth allowed, looking along the edges of the identifier at
/// the end of the path leaves what the search has left behind closed and
/// clean, as long as nothing is reported; and then each of those edges
/// leads to an identifier that the search has left behind.
pub proof fn lemma_neighbours_settle(
    s: StorageView,
    node: Seq<char>,
    targets: Seq<Seq<char>>,
    k: int,
    budget: nat,
    search: CycleSearch,
)
    requires
        s.wf(),
        search_in_order(s, search),
        settled(s, search),
        search.path.len() > 0,
        search.path.last() == node,
        targets == s.targets_of(node),
        0 <= k <= targets.len(),
        budget >= unvisited(s, search.visited),
        search.cycles.len() == 0 ==> forall|j: int| 0 <= j < k ==> finished(search, #[trigger] targets[j]),
    ensures
        settled(s, s.cycle_neighbours(targets, k, budget, search)),
        s.cycle_neighbours(targets, k, budget, search).cycles.len() == 0 ==> forall|j: int|
            0 <= j < targets.len() ==> finished(
                s.cycle_neighbours(targets, k, budget, search),
                #[trigger] targets[j],
            ),
    decreases budget, 0int, targets.len() - k,
{
    if k >= targets.len() {
    } else {
        let next = targets[k];
        lemma_targets_are_edges(s, node);
        assert(s.has_edge(node, next));
        lemma_edge_ends(s, node, next);
        if !search.visited.contains(next) {
            lemma_visit_counts(s, search.visited, next);
            assert(budget > 0);
            let after = s.cycle_visit(next, (budget - 1) as nat, search);
            lemma_cycle_visit(s, next, (budget - 1) as nat, search);
            lemma_visit_settles(s, next, (budget - 1) as nat, search);
            lemma_more_visited(s, search.visited, after.visited);
            if after.cycles.len() == 0 {
                assert forall|j: int| 0 <= j < k + 1 implies finished(after, #[trigger] targets[j]) by {
                    if j < k {
                        assert(finished(search, targets[j]));
                    }
                }
            }
            lemma_cycle_neighbours(s, node, targets, k + 1, budget, after);
            lemma_neighbours_settle(s, node, targets, k + 1, budget, after);
        } else if search.path.contains(next) {
            let w = choose|w: int| 0 <= w < search.path.len() && search.path[w] == next;
            lemma_first_index(search.path, next, w);
            let from = first_index(search.path, next);
            let slice = search.path.skip(from);
            assert forall|i: int| 0 <= i < slice.len() implies s.has_issue(#[trigger] slice[i]) by {
                assert(search.visited.contains(search.path[from + i]));
                let q = choose|q: int|
                    0 <= q < search.visited.len() && search.visited[q] == search.path[from + i];
                assert(graph_nodes(s).contains(search.visited[q]));
                lemma_nodes_are_stored(s, slice[i]);
            }
            lemma_issues_along(s, slice);
            let found = s.issues_of(slice);
            assert(found.len() > 0);
            let after = CycleSearch { cycles: search.cycles.push(found), ..search };
            lemma_cycle_neighbours_step(s, node, targets, k, budget, search);
            lemma_cycle_neighbours(s, node, targets, k + 1, budget, after);
            lemma_neighbours_settle(s, node, targets, k + 1, budget, after);
        } else {
            assert(finished(search, next));
            if search.cycles.len() == 0 {
                assert forall|j: int| 0 <= j < k + 1 implies finished(search, #[trigger] targets[j]) by {}
            }
            lemma_neighbours_settle(s, node, targets, k + 1, budget, search);
        }
    }
}

/// With enough depth allowed, the whole search leaves what it has left
/// behind closed and clean, as long as nothing is reported; and then it has
/// left the depending end of every edge.
pub proof fn lemma_starts_settle(s: StorageView, k: int, budget: nat, search: CycleSearch)
    requires
        s.wf(),
        search_in_order(s, search),
        settled(s, search),
        search.path.len() == 0,
        0 <= k <= s.dependencies.len(),
        budget + 1 >= unvisited(s, search.visited),
        search.cycles.len() == 0 ==> forall|j: int|
            0 <= j < k ==> finished(search, (#[trigger] s.dependencies[j]).issue_id),
    ensures
        settled(s, s.cycle_starts(k, budget, search)),
        s.cycle_starts(k, budget, search).cycles.len() == 0 ==> forall|j: int|
            0 <= j < s.dependencies.len() ==> finished(
                s.cycle_starts(k, budget, search),
                (#[trigger] s.dependencies[j]).issue_id,
            ),
    decreases s.dependencies.len() - k,
{
    if k < s.dependencies.len() {
        let node = s.dependencies[k].issue_id;
        assert(s.has_edge(node, s.dependencies[k].depends_on_id));
        lemma_edge_ends(s, node, s.dependencies[k].depends_on_id);
        if !search.visited.contains(node) {
            let after = s.cycle_visit(node, budget, search);
            lemma_cycle_visit(s, node, budget, search);
            lemma_visit_settles(s, node, budget, search);
            lemma_more_visited(s, search.visited, after.visited);
            if after.cycles.len() == 0 {
                assert forall|j: int| 0 <= j < k + 1 implies finished(
                    after,
                    (#[trigger] s.dependencies[j]).issue_id,
                ) by {
                    if j < k {
                        assert(finished(search, s.dependencies[j].issue_id));
                    }
                }
            }
            lemma_starts_settle(s, k + 1, budget, after);
        } else {
            if search.cycles.len() == 0 {
                assert(finished(search, node));
                assert forall|j: int| 0 <= j < k + 1 implies finished(
                    search,
                    (#[trigger] s.dependencies[j]).issue_id,
                ) by {}
            }
            lemma_starts_settle(s, k + 1, budget, search);
        }
    }
}

/// If the search for cycles reports nothing, the edges have no closed path.
pub proof fn lemma_no_report_means_no_cycle(s: StorageView, p: Seq<Seq<char>>)
    requires
        s.wf(),
        s.detect_cycles().len() == 0,
    ensures
        !is_cycle(s, p),
{
    broadcast use vstd::set::group_set_axioms;

    let begin = CycleSearch { visited: Seq::empty(), path: Seq::empty(), cycles: Seq::empty() };
    vstd::seq_lib::seq_to_set_is_finite(node_list(s));
    node_list(s).lemma_cardinality_of_set();
    vstd::set_lib::lemma_len_subset(
        graph_nodes(s).difference(begin.visited.to_set()),
        graph_nodes(s),
    );
    assert(settled(s, begin));
    lemma_starts_settle(s, 0, s.cycle_budget(), begin);
    let out = s.cycle_starts(0, s.cycle_budget(), begin);
    if is_cycle(s, p) {
        let next = if p.len() > 1 {
            p[1]
        } else {
            p[0]
        };
        assert(s.has_edge(p[0], next)) by {
            if p.len() > 1 {
                let first: int = 0;
                assert(steps_on(s, p, first));
            }
        }
        let e = s.edge_index(p[0], next);
        assert(finished(out, s.dependencies[e].issue_id));
        assert(p.contains(p[0]));
        assert(on_cycle(s, p[0]));
    }
}

/// The search for cycles reports something exactly if the edges have a
/// closed path.
pub proof fn lemma_cycles_are_found(s: StorageView)
    requires
        s.wf(),
    ensures
        s.detect_cycles().len() > 0 <==> exists|p: Seq<Seq<char>>| is_cycle(s, p),
{
    if s.detect_cycles().len() > 0 {
        lemma_reported_cycles_are_cycles(s, 0);
    } else {
        assert forall|p: Seq<Seq<char>>| !is_cycle(s, p) by {
            lemma_no_report_means_no_cycle(s, p);
        }
    }
}

} // verus!
