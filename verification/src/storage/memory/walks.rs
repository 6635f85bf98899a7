//! The recursive walks over the dependency edges.

use vstd::prelude::*;
use vstd::string::*;
use crate::storage::Storage;
use crate::storage::memory::MemoryStorage;
use crate::storage::traverse::{cycle_views, first_index, CycleSearch, TreeWalk};
use crate::text::{contains_text, str_eq, texts};
use crate::types::{issue_views, tree_node_views, Issue, IssueView, TreeNode, TreeNodeView};

verus! {

/// Where `x` first stands in `v`.
fn first_position(v: &Vec<String>, x: &str) -> (r: usize)
    requires
        texts(v@).contains(x@),
    ensures
        r < v.len(),
        r == first_index(texts(v@), x@),
{
    let mut i: usize = 0;
    let ghost s = texts(v@);
    let ghost w = choose|w: int| 0 <= w < s.len() && s[w] == x@;
    while i < v.len()
        invariant
            i <= v.len(),
            s == texts(v@),
            0 <= w < s.len() && s[w] == x@,
            forall|j: int| 0 <= j < i ==> s[j] != x@,
        decreases v.len() - i,
    {
        if str_eq(v[i].as_str(), x) {
            proof {
                assert(s[i as int] == x@);
                let c = first_index(s, x@);
                assert(0 <= c < s.len() && s[c] == x@ && forall|j: int| 0 <= j < c ==> s[j] != x@);
                assert(c == i);
            }
            return i;
        }
        i += 1;
    }
    proof {
        assert(s[w] != x@);
    }
    0
}

impl MemoryStorage {
    /// Reaches the issue `issue_id` at `depth` on a walk down to `max_depth`,
    /// adding to the nodes and to the visited identifiers.
    pub(crate) fn build_tree(
        &self,
        issue_id: &str,
        depth: i32,
        max_depth: i32,
        nodes: &mut Vec<TreeNode>,
        visited: &mut Vec<String>,
    )
        requires
            self.wf(),
        ensures
            (TreeWalk { nodes: tree_node_views(final(nodes)@), visited: texts(final(visited)@) })
                == self@.tree_visit(
                issue_id@,
                depth as int,
                max_depth as int,
                TreeWalk { nodes: tree_node_views(old(nodes)@), visited: texts(old(visited)@) },
            ),
        decreases max_depth - depth,
    {
        if depth > max_depth || contains_text(visited, issue_id) {
            return ;
        }
        let ghost start = TreeWalk { nodes: tree_node_views(nodes@), visited: texts(visited@) };
        visited.push(issue_id.to_owned());
        assert(texts(visited@) =~= start.visited.push(issue_id@));
        if let Some(p) = self.find_index(issue_id) {
            let ghost before = tree_node_views(nodes@);
            nodes.push(
                TreeNode { issue: self.issues[p].clone(), depth: depth, truncated: depth >= max_depth },
            );
            proof {
                assert(tree_node_views(nodes@) =~= before.push(
                    TreeNodeView {
                        issue: self@.issue(issue_id@),
                        depth: depth as int,
                        truncated: depth >= max_depth,
                    },
                ));
            }
            if depth < max_depth {
                let targets = self.targets(issue_id);
                let ghost here = TreeWalk { nodes: tree_node_views(nodes@), visited: texts(visited@) };
                let mut k: usize = 0;
                while k < targets.len()
                    invariant
                        k <= targets.len(),
                        self.wf(),
                        depth < max_depth,
                        self@.tree_children(
                            texts(targets@),
                            k as int,
                            depth + 1,
                            max_depth as int,
                            TreeWalk { nodes: tree_node_views(nodes@), visited: texts(visited@) },
                        ) == self@.tree_children(texts(targets@), 0, depth + 1, max_depth as int, here),
                    decreases targets.len() - k,
                {
                    assert(texts(targets@)[k as int] == targets[k as int]@);
                    self.build_tree(targets[k].as_str(), depth + 1, max_depth, nodes, visited);
                    k += 1;
                }
            }
        }
    }

    /// The stored issues among `ids[start..]`.
    pub(crate) fn issues_along(&self, ids: &Vec<String>, start: usize) -> (r: Vec<Issue>)
        requires
            self.wf(),
            start <= ids.len(),
        ensures
            issue_views(r@) == self@.issues_of(texts(ids@).skip(start as int)),
    {
        let mut out: Vec<Issue> = Vec::new();
        let mut i: usize = start;
        let ghost all = texts(ids@);
        assert(issue_views(out@) =~= Seq::<IssueView>::empty());
        assert(all.subrange(start as int, start as int) =~= Seq::<Seq<char>>::empty());
        while i < ids.len()
            invariant
                start <= i <= ids.len(),
                self.wf(),
                all == texts(ids@),
                issue_views(out@) == self@.issues_of(all.subrange(start as int, i as int)),
            decreases ids.len() - i,
        {
            proof {
                let next = all.subrange(start as int, i + 1);
                assert(next.drop_last() =~= all.subrange(start as int, i as int));
                assert(next.last() == ids[i as int]@);
            }
            if let Some(p) = self.find_index(ids[i].as_str()) {
                let ghost before = issue_views(out@);
                out.push(self.issues[p].clone());
                assert(issue_views(out@) =~= before.push(self@.issue(ids[i as int]@)));
            }
            i += 1;
        }
        assert(all.subrange(start as int, ids.len() as int) =~= all.skip(start as int));
        out
    }

    /// Enters the issue `node` on a search for cycles, looks along each of its
    /// edges, and leaves it again.
    pub(crate) fn dfs_cycle(
        &self,
        node: &str,
        budget: u128,
        visited: &mut Vec<String>,
        path: &mut Vec<String>,
        cycles: &mut Vec<Vec<Issue>>,
    )
        requires
            self.wf(),
        ensures
            (CycleSearch {
                visited: texts(final(visited)@),
                path: texts(final(path)@),
                cycles: cycle_views(final(cycles)@),
            }) == self@.cycle_visit(
                node@,
                budget as nat,
                CycleSearch {
                    visited: texts(old(visited)@),
                    path: texts(old(path)@),
                    cycles: cycle_views(old(cycles)@),
                },
            ),
            texts(final(path)@) == texts(old(path)@),
        decreases budget,
    {
        let ghost start = CycleSearch {
            visited: texts(visited@),
            path: texts(path@),
            cycles: cycle_views(cycles@),
        };
        visited.push(node.to_owned());
        path.push(node.to_owned());
        assert(texts(visited@) =~= start.visited.push(node@));
        assert(texts(path@) =~= start.path.push(node@));
        let ghost entered = CycleSearch {
            visited: texts(visited@),
            path: texts(path@),
            cycles: cycle_views(cycles@),
        };
        let targets = self.targets(node);
        let mut k: usize = 0;
        while k < targets.len()
            invariant
                k <= targets.len(),
                self.wf(),
                texts(path@) == entered.path,
                self@.cycle_neighbours(
                    texts(targets@),
                    k as int,
                    budget as nat,
                    CycleSearch {
                        visited: texts(visited@),
                        path: texts(path@),
                        cycles: cycle_views(cycles@),
                    },
                ) == self@.cycle_neighbours(texts(targets@), 0, budget as nat, entered),
            decreases targets.len() - k,
        {
            assert(texts(targets@)[k as int] == targets[k as int]@);
            let next = targets[k].as_str();
            if !contains_text(visited, next) {
                if budget > 0 {
                    self.dfs_cycle(next, budget - 1, visited, path, cycles);
                }
            } else if contains_text(path, next) {
                let from = first_position(path, next);
                let found = self.issues_along(path, from);
                if found.len() > 0 {
                    let ghost before = cycle_views(cycles@);
                    cycles.push(found);
                    assert(cycle_views(cycles@) =~= before.push(issue_views(found@)));
                }
            }
            k += 1;
        }
        let ghost explored = CycleSearch {
            visited: texts(visited@),
            path: texts(path@),
            cycles: cycle_views(cycles@),
        };
        assert(explored == self@.cycle_neighbours(texts(targets@), 0, budget as nat, entered));
        path.pop();
        assert(texts(path@) =~= explored.path.drop_last());
        assert(texts(path@) =~= start.path);
    }
}

} // verus!
