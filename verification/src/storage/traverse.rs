//! What the walks over the dependency edges yield: the bounded tree below
//! an issue, and the search for cycles.

use vstd::prelude::*;
use vstd::string::*;
use crate::storage::model::StorageView;
use crate::types::{issue_views, Issue, IssueView, TreeNodeView};

verus! {

/// The depth down to which a tree is built when the caller names none.
pub const DEFAULT_MAX_DEPTH: i32 = 50;

/// What a tree walk has gathered: the nodes in the order in which they were
/// entered, and the identifiers it has already been at.
pub ghost struct TreeWalk {
    pub nodes: Seq<TreeNodeView>,
    pub visited: Seq<Seq<char>>,
}

/// Where a search for cycles stands: the identifiers it has been at, the
/// path from the start to where it is, and the cycles it has found.
pub ghost struct CycleSearch {
    pub visited: Seq<Seq<char>>,
    pub path: Seq<Seq<char>>,
    pub cycles: Seq<Seq<IssueView>>,
}

/// The first place at which `x` stands in `s`.
pub open spec fn first_index(s: Seq<Seq<char>>, x: Seq<char>) -> int {
    choose|i: int| 0 <= i < s.len() && s[i] == x && forall|j: int| 0 <= j < i ==> s[j] != x
}

impl StorageView {
    /// The walk after the issue `id` was reached at `depth`. Beyond
    /// `max_depth`, or at an identifier the walk has been at, nothing
    /// happens. Otherwise the identifier counts as visited; if the issue is
    /// stored, its node follows, marked as cut off when `depth` is the
    /// greatest depth, and above that depth the walk goes on to the issues it
    /// depends on, in the order of its edges.
    pub open spec fn tree_visit(self, id: Seq<char>, depth: int, max_depth: int, walk: TreeWalk) -> TreeWalk
        decreases max_depth - depth, 0int, 0int,
    {
        if depth > max_depth || walk.visited.contains(id) {
            walk
        } else {
            let seen = TreeWalk { visited: walk.visited.push(id), ..walk };
            if !self.has_issue(id) {
                seen
            } else {
                let here = TreeWalk {
                    nodes: seen.nodes.push(
                        TreeNodeView {
                            issue: self.issue(id),
                            depth: depth,
                            truncated: depth >= max_depth,
                        },
                    ),
                    ..seen
                };
                if depth < max_depth {
                    self.tree_children(self.targets_of(id), 0, depth + 1, max_depth, here)
                } else {
                    here
                }
            }
        }
    }

    /// The walk after the issues `targets[k..]` were reached, one after the
    /// other, at `depth`.
    pub open spec fn tree_children(
        self,
        targets: Seq<Seq<char>>,
        k: int,
        depth: int,
        max_depth: int,
        walk: TreeWalk,
    ) -> TreeWalk
        decreases max_depth - depth, 1int, targets.len() - k,
    {
        if k < 0 || k >= targets.len() || depth > max_depth {
            walk
        } else {
            self.tree_children(
                targets,
                k + 1,
                depth,
                max_depth,
                self.tree_visit(targets[k], depth, max_depth, walk),
            )
        }
    }

    /// The tree below the issue `id`: its nodes in the order in which a
    /// depth-first walk enters them, each issue once, down to `max_depth`.
    pub open spec fn dependency_tree(self, id: Seq<char>, max_depth: int) -> Seq<TreeNodeView> {
        self.tree_visit(
            id,
            0,
            max_depth,
            TreeWalk { nodes: Seq::empty(), visited: Seq::empty() },
        ).nodes
    }

    /// The stored issues among `ids`, in the order of `ids`.
    pub open spec fn issues_of(self, ids: Seq<Seq<char>>) -> Seq<IssueView>
        decreases ids.len(),
    {
        if ids.len() == 0 {
            Seq::empty()
        } else if self.has_issue(ids.last()) {
            self.issues_of(ids.drop_last()).push(self.issue(ids.last()))
        } else {
            self.issues_of(ids.drop_last())
        }
    }

    /// The search after it entered the issue `node`, looked along each of its
    /// edges, and left it again. `budget` is how many edges deep the search
    /// may still go.
    pub open spec fn cycle_visit(self, node: Seq<char>, budget: nat, search: CycleSearch) -> CycleSearch
        decreases budget, 1int, 0int,
    {
        let entered = CycleSearch {
            visited: search.visited.push(node),
            path: search.path.push(node),
            ..search
        };
        let explored = self.cycle_neighbours(self.targets_of(node), 0, budget, entered);
        CycleSearch { path: explored.path.drop_last(), ..explored }
    }

    /// The search after it looked along the edges to `targets[k..]`. An edge
    /// to an identifier not yet visited is followed. An edge to an identifier
    /// on the path closes a cycle: the path from that identifier's first
    /// place to its end; the stored issues along it are reported, unless
    /// there is none.
    pub open spec fn cycle_neighbours(
        self,
        targets: Seq<Seq<char>>,
        k: int,
        budget: nat,
        search: CycleSearch,
    ) -> CycleSearch
        decreases budget, 0int, targets.len() - k,
    {
        if k < 0 || k >= targets.len() {
            search
        } else {
            let next = targets[k];
            let after = if !search.visited.contains(next) {
                if budget == 0 {
                    search
                } else {
                    self.cycle_visit(next, (budget - 1) as nat, search)
                }
            } else if search.path.contains(next) {
                let found = self.issues_of(search.path.skip(first_index(search.path, next)));
                if found.len() > 0 {
                    CycleSearch { cycles: search.cycles.push(found), ..search }
                } else {
                    search
                }
            } else {
                search
            };
            self.cycle_neighbours(targets, k + 1, budget, after)
        }
    }

    /// The search after it started from the depending end of each edge
    /// `dependencies[k..]` that it had not visited yet.
    pub open spec fn cycle_starts(self, k: int, budget: nat, search: CycleSearch) -> CycleSearch
        decreases self.dependencies.len() - k,
    {
        if k < 0 || k >= self.dependencies.len() {
            search
        } else {
            let node = self.dependencies[k].issue_id;
            let after = if !search.visited.contains(node) {
                self.cycle_visit(node, budget, search)
            } else {
                search
            };
            self.cycle_starts(k + 1, budget, after)
        }
    }

    /// How deep a search may go: no path without a repeated issue is longer
    /// than the number of ends that the edges have.
    pub open spec fn cycle_budget(self) -> nat {
        2 * self.dependencies.len()
    }

    /// The cycles that a depth-first search over all edges, of whatever type,
    /// reports; a cycle that is met from several sides is reported each time.
    pub open spec fn detect_cycles(self) -> Seq<Seq<IssueView>> {
        self.cycle_starts(
            0,
            self.cycle_budget(),
            CycleSearch { visited: Seq::empty(), path: Seq::empty(), cycles: Seq::empty() },
        ).cycles
    }
}

/// The views of a list of cycles.
pub open spec fn cycle_views(s: Seq<Vec<Issue>>) -> Seq<Seq<IssueView>> {
    s.map_values(|c: Vec<Issue>| issue_views(c@))
}

} // verus!
