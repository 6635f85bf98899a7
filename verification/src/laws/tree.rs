//! The shape of a dependency tree.

use vstd::prelude::*;
use crate::storage::model::StorageView;
use crate::storage::traverse::TreeWalk;
use crate::types::TreeNodeView;

verus! {

/// The walk holds each issue once, and has been at each of them.
pub open spec fn walk_is_tidy(s: StorageView, walk: TreeWalk, max_depth: int) -> bool {
    &&& forall|i: int|
        0 <= i < walk.nodes.len() ==> walk.visited.contains((#[trigger] walk.nodes[i]).issue.id)
    &&& forall|i: int, j: int|
        0 <= i < j < walk.nodes.len() ==> (#[trigger] walk.nodes[i]).issue.id != (
        #[trigger] walk.nodes[j]).issue.id
    &&& forall|i: int|
        0 <= i < walk.nodes.len() ==> 0 <= (#[trigger] walk.nodes[i]).depth <= max_depth
            && walk.nodes[i].truncated == (walk.nodes[i].depth == max_depth) && s.has_issue(
            walk.nodes[i].issue.id,
        ) && walk.nodes[i].issue == s.issue(walk.nodes[i].issue.id)
}

/// A walk only adds: what it held before a visit is the beginning of what
/// it holds after it.
pub open spec fn walk_extends(before: TreeWalk, after: TreeWalk) -> bool {
    &&& before.nodes.len() <= after.nodes.len()
    &&& after.nodes.take(before.nodes.len() as int) == before.nodes
    &&& forall|x: Seq<char>| before.visited.contains(x) ==> after.visited.contains(x)
}

/// A visit keeps the walk tidy and only adds to it.
pub proof fn lemma_tree_visit(s: StorageView, id: Seq<char>, depth: int, max_depth: int, walk: TreeWalk)
    requires
        0 <= depth,
        walk_is_tidy(s, walk, max_depth),
    ensures
        walk_is_tidy(s, s.tree_visit(id, depth, max_depth, walk), max_depth),
        walk_extends(walk, s.tree_visit(id, depth, max_depth, walk)),
    decreases max_depth - depth, 0int, 0int,
{
    if depth > max_depth || walk.visited.contains(id) {
        assert(walk.nodes.take(walk.nodes.len() as int) =~= walk.nodes);
    } else {
        let seen = TreeWalk { visited: walk.visited.push(id), ..walk };
        assert(seen.visited[walk.visited.len() as int] == id);
        assert forall|x: Seq<char>| walk.visited.contains(x) implies seen.visited.contains(x) by {
            let i = choose|i: int| 0 <= i < walk.visited.len() && walk.visited[i] == x;
            assert(seen.visited[i] == x);
        }
        assert(walk.nodes.take(walk.nodes.len() as int) =~= walk.nodes);
        if !s.has_issue(id) {
        } else {
            let node = TreeNodeView { issue: s.issue(id), depth: depth, truncated: depth >= max_depth };
            let here = TreeWalk { nodes: seen.nodes.push(node), ..seen };
            assert(s.issue(id).id == id);
            assert forall|i: int| 0 <= i < here.nodes.len() implies here.visited.contains(
                (#[trigger] here.nodes[i]).issue.id,
            ) by {
                if i < walk.nodes.len() {
                    assert(walk.visited.contains(walk.nodes[i].issue.id));
                }
            }
            assert forall|i: int, j: int| 0 <= i < j < here.nodes.len() implies (
            #[trigger] here.nodes[i]).issue.id != (#[trigger] here.nodes[j]).issue.id by {
                if j < walk.nodes.len() {
                    assert(walk.nodes[i].issue.id != walk.nodes[j].issue.id);
                } else {
                    assert(walk.visited.contains(walk.nodes[i].issue.id));
                }
            }
            assert(walk_is_tidy(s, here, max_depth));
            assert(here.nodes.take(walk.nodes.len() as int) =~= walk.nodes);
            if depth < max_depth {
                lemma_tree_children(s, s.targets_of(id), 0, depth + 1, max_depth, here);
                let out = s.tree_children(s.targets_of(id), 0, depth + 1, max_depth, here);
                assert(out.nodes.take(walk.nodes.len() as int) =~= here.nodes.take(
                    walk.nodes.len() as int,
                )) by {
                    assert(out.nodes.take(here.nodes.len() as int) == here.nodes);
                    assert forall|i: int| 0 <= i < walk.nodes.len() implies out.nodes[i]
                        == here.nodes[i] by {
                        assert(out.nodes.take(here.nodes.len() as int)[i] == here.nodes[i]);
                    }
                }
            }
        }
    }
}

/// The visits of a list of issues keep the walk tidy and only add to it.
pub proof fn lemma_tree_children(
    s: StorageView,
    targets: Seq<Seq<char>>,
    k: int,
    depth: int,
    max_depth: int,
    walk: TreeWalk,
)
    requires
        0 <= depth,
        0 <= k,
        walk_is_tidy(s, walk, max_depth),
    ensures
        walk_is_tidy(s, s.tree_children(targets, k, depth, max_depth, walk), max_depth),
        walk_extends(walk, s.tree_children(targets, k, depth, max_depth, walk)),
    decreases max_depth - depth, 1int, targets.len() - k,
{
    if k >= targets.len() || depth > max_depth {
        assert(walk.nodes.take(walk.nodes.len() as int) =~= walk.nodes);
    } else {
        lemma_tree_visit(s, targets[k], depth, max_depth, walk);
        let mid = s.tree_visit(targets[k], depth, max_depth, walk);
        lemma_tree_children(s, targets, k + 1, depth, max_depth, mid);
        let out = s.tree_children(targets, k + 1, depth, max_depth, mid);
        assert(out.nodes.take(walk.nodes.len() as int) =~= walk.nodes) by {
            assert forall|i: int| 0 <= i < walk.nodes.len() implies out.nodes[i] == walk.nodes[i] by {
                assert(out.nodes.take(mid.nodes.len() as int)[i] == mid.nodes[i]);
                assert(mid.nodes.take(walk.nodes.len() as int)[i] == walk.nodes[i]);
            }
        }
    }
}

/// In a dependency tree each issue stands once; every node is a stored issue
/// at a depth from 0 to the greatest depth, marked as cut off exactly at the
/// greatest depth; and if the root is stored and the greatest depth is not
/// negative, the root comes first, at depth 0.
pub proof fn lemma_dependency_tree_shape(s: StorageView, id: Seq<char>, max_depth: int)
    ensures
        forall|i: int, j: int|
            0 <= i < j < s.dependency_tree(id, max_depth).len() ==> (#[trigger] s.dependency_tree(
                id,
                max_depth,
            )[i]).issue.id != (#[trigger] s.dependency_tree(id, max_depth)[j]).issue.id,
        forall|i: int|
            0 <= i < s.dependency_tree(id, max_depth).len() ==> {
                let node = #[trigger] s.dependency_tree(id, max_depth)[i];
                &&& 0 <= node.depth <= max_depth
                &&& node.truncated == (node.depth == max_depth)
                &&& s.has_issue(node.issue.id)
                &&& node.issue == s.issue(node.issue.id)
            },
        s.has_issue(id) && max_depth >= 0 ==> s.dependency_tree(id, max_depth).len() > 0
            && s.dependency_tree(id, max_depth)[0] == (TreeNodeView {
            issue: s.issue(id),
            depth: 0,
            truncated: max_depth == 0,
        }),
        !s.has_issue(id) || max_depth < 0 ==> s.dependency_tree(id, max_depth).len() == 0,
{
    let start = TreeWalk { nodes: Seq::empty(), visited: Seq::empty() };
    lemma_tree_visit(s, id, 0, max_depth, start);
    let out = s.tree_visit(id, 0, max_depth, start);
    if s.has_issue(id) && max_depth >= 0 {
        let seen = TreeWalk { visited: start.visited.push(id), ..start };
        let node = TreeNodeView { issue: s.issue(id), depth: 0, truncated: 0 >= max_depth };
        let here = TreeWalk { nodes: seen.nodes.push(node), ..seen };
        assert(here.nodes[0] == node);
        if 0 < max_depth {
            assert(s.issue(id).id == id);
            assert(walk_is_tidy(s, here, max_depth)) by {
                assert(here.visited[0] == id);
            }
            lemma_tree_children(s, s.targets_of(id), 0, 1, max_depth, here);
            assert(out.nodes.take(here.nodes.len() as int)[0] == here.nodes[0]);
        }
    }
}

} // verus!
