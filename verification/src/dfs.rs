//! The order in which a depth-first traversal hands out nodes, and which nodes those are.
use crate::dag::{ends, ends_in_range, is_next_place, unvisited};
use crate::graph::{has_edge, in_range, reaches, Incoming};
use vstd::prelude::*;

verus! {

/// How many nodes were not visited yet.
pub open spec fn unvisited_count(visited: Seq<bool>) -> nat {
    visited.filter(|done: bool| !done).len()
}

/// The place on the stack of the node that comes next.
pub open spec fn next_place(stack: Seq<u32>, visited: Seq<bool>) -> int {
    choose|k: int| #[trigger] is_next_place(stack, visited, k)
}

/// The stack after the node at its place `next_place` was handed out.
pub open spec fn stack_after(graph: Incoming, stack: Seq<u32>, visited: Seq<bool>) -> Seq<u32> {
    let k = next_place(stack, visited);
    let node = stack[k];
    stack.take(k) + unvisited(ends(graph[node as int]), visited.update(node as int, true))
}

/// Every node on the stack has a mark.
pub open spec fn stack_in_range(stack: Seq<u32>, visited: Seq<bool>) -> bool {
    forall|i: int| 0 <= i < stack.len() ==> #[trigger] stack[i] < visited.len()
}

/// The nodes that a traversal hands out, in their order, when it follows the edges of the graph
/// backwards: the last unvisited node on the stack, then what follows once the nodes from which
/// edges lead to it have been put on the stack in its place.
pub open spec fn dfs_order(graph: Incoming, stack: Seq<u32>, visited: Seq<bool>) -> Seq<u32>
    decreases unvisited_count(visited),
    when stack_in_range(stack, visited)
    via dfs_order_decreases
{
    if exists|k: int| #[trigger] is_next_place(stack, visited, k) {
        let node = stack[next_place(stack, visited)];
        seq![node] + dfs_order(
            graph,
            stack_after(graph, stack, visited),
            visited.update(node as int, true),
        )
    } else {
        Seq::empty()
    }
}

#[via_fn]
proof fn dfs_order_decreases(graph: Incoming, stack: Seq<u32>, visited: Seq<bool>) {
    if exists|k: int| #[trigger] is_next_place(stack, visited, k) {
        lemma_visit_decreases(visited, stack[next_place(stack, visited)] as int);
    }
}

/// Visiting a node leaves one node less.
pub proof fn lemma_visit_decreases(visited: Seq<bool>, i: int)
    requires
        0 <= i < visited.len(),
        !visited[i],
    ensures
        unvisited_count(visited.update(i, true)) < unvisited_count(visited),
{
    let open = |done: bool| !done;
    let front = visited.take(i);
    let back = visited.skip(i + 1);
    reveal(Seq::filter);
    Seq::filter_distributes_over_add(front.push(false), back, open);
    Seq::filter_distributes_over_add(front.push(true), back, open);
    assert(front.push(false).drop_last() =~= front);
    assert(front.push(true).drop_last() =~= front);
    assert(front.push(false) + back =~= visited);
    assert(front.push(true) + back =~= visited.update(i, true));
}

/// There is only one place that comes next.
pub proof fn lemma_next_place_unique(stack: Seq<u32>, visited: Seq<bool>, k: int)
    requires
        is_next_place(stack, visited, k),
    ensures
        k == next_place(stack, visited),
{
    let j = next_place(stack, visited);
    assert(is_next_place(stack, visited, j));
    if j < k {
        assert(visited[stack[k] as int]);
    } else if k < j {
        assert(visited[stack[j] as int]);
    }
}

/// A node has an edge into `node` exactly when it stands among the ends of the edges into `node`.
pub proof fn lemma_ends(graph: Incoming, a: u32, node: u32)
    requires
        node < graph.len(),
    ensures
        ends(graph[node as int]).contains(a) <==> has_edge(graph, a, node),
{
    let list = graph[node as int];
    if ends(list).contains(a) {
        let k = ends(list).index_of(a);
        assert(graph[node as int][k].0 == a);
    }
    if has_edge(graph, a, node) {
        let k = choose|k: int| 0 <= k < list.len() && (#[trigger] list[k]).0 == a;
        assert(ends(list)[k] == a);
    }
}

/// The ends of the edges are nodes of the graph where every edge comes from one.
pub proof fn lemma_ends_in_range(graph: Incoming)
    requires
        in_range(graph),
        graph.len() <= u32::MAX,
    ensures
        ends_in_range(graph),
{
    assert forall|n: int, k: int|
        0 <= n < graph.len() && 0 <= k < graph[n].len() implies (#[trigger] graph[n][k]).0
        < graph.len() by {
        assert(graph[n as u32 as int][k].0 == graph[n][k].0);
        assert(has_edge(graph, graph[n][k].0, n as u32));
    }
}

/// What stands on the stack after a step was on it before or has an edge into the node that was
/// handed out, and all of the latter that were not visited stand on it.
pub proof fn lemma_stack_after(graph: Incoming, stack: Seq<u32>, visited: Seq<bool>)
    requires
        stack_in_range(stack, visited),
        visited.len() == graph.len(),
        in_range(graph),
        graph.len() <= u32::MAX,
        exists|k: int| #[trigger] is_next_place(stack, visited, k),
    ensures
        ({
            let node = stack[next_place(stack, visited)];
            let after = stack_after(graph, stack, visited);
            let marks = visited.update(node as int, true);
            &&& node < graph.len()
            &&& !visited[node as int]
            &&& stack_in_range(after, marks)
            &&& forall|n: u32| #[trigger]
                after.contains(n) ==> stack.contains(n) || has_edge(graph, n, node)
            &&& forall|n: u32| #[trigger]
                stack.contains(n) ==> after.contains(n) || marks[n as int]
            &&& forall|n: u32| #[trigger]
                has_edge(graph, n, node) ==> after.contains(n) || marks[n as int]
        }),
{
    let k = next_place(stack, visited);
    let node = stack[k];
    let after = stack_after(graph, stack, visited);
    let marks = visited.update(node as int, true);
    let open = |n: u32| !marks[n as int];
    let front = stack.take(k);
    let back = unvisited(ends(graph[node as int]), marks);
    assert(back == ends(graph[node as int]).filter(open));
    assert forall|n: u32| #[trigger] after.contains(n) implies (stack.contains(n) || has_edge(
        graph,
        n,
        node,
    )) && n < marks.len() by {
        let i = after.index_of(n);
        if i < k {
            assert(stack[i] == n);
        } else {
            assert(back[i - k] == n);
            ends(graph[node as int]).lemma_filter_contains_rev(open, n);
            lemma_ends(graph, n, node);
        }
    }
    assert forall|i: int| 0 <= i < after.len() implies #[trigger] after[i] < marks.len() by {
        assert(after.contains(after[i]));
    }
    assert forall|n: u32| #[trigger] stack.contains(n) implies after.contains(n)
        || marks[n as int] by {
        let i = stack.index_of(n);
        if i < k {
            assert(after[i] == n);
        } else if i > k {
            assert(visited[stack[i] as int]);
        }
    }
    assert forall|n: u32| #[trigger] has_edge(graph, n, node) implies after.contains(n)
        || marks[n as int] by {
        lemma_ends(graph, n, node);
        if !marks[n as int] {
            let i = ends(graph[node as int]).index_of(n);
            ends(graph[node as int]).lemma_filter_contains(open, i);
            let j = back.index_of(n);
            assert(after[k + j] == n);
        }
    }
}

/// What a traversal hands out: unvisited nodes, none twice; only nodes from which one on the stack
/// can be reached; every unvisited node on the stack; and with each node all from which an edge
/// leads to it, as far as they were not visited.
pub proof fn lemma_dfs_order(graph: Incoming, stack: Seq<u32>, visited: Seq<bool>)
    requires
        stack_in_range(stack, visited),
        visited.len() == graph.len(),
        in_range(graph),
        graph.len() <= u32::MAX,
    ensures
        dfs_order(graph, stack, visited).no_duplicates(),
        forall|n: u32| #[trigger]
            dfs_order(graph, stack, visited).contains(n) ==> n < graph.len()
                && !visited[n as int] && exists|s: u32| #[trigger]
                stack.contains(s) && reaches(graph, n, s),
        forall|n: u32| #[trigger]
            stack.contains(n) ==> dfs_order(graph, stack, visited).contains(n)
                || visited[n as int],
        forall|m: u32, n: u32|
            dfs_order(graph, stack, visited).contains(n) && #[trigger] has_edge(graph, m, n)
                ==> dfs_order(graph, stack, visited).contains(m) || visited[m as int],
    decreases unvisited_count(visited),
{
    let order = dfs_order(graph, stack, visited);
    if exists|k: int| #[trigger] is_next_place(stack, visited, k) {
        let k = next_place(stack, visited);
        let node = stack[k];
        let after = stack_after(graph, stack, visited);
        let marks = visited.update(node as int, true);
        lemma_stack_after(graph, stack, visited);
        lemma_visit_decreases(visited, node as int);
        lemma_dfs_order(graph, after, marks);
        let rest = dfs_order(graph, after, marks);
        assert(order == seq![node] + rest);
        assert(order[0] == node);
        assert forall|n: u32| #[trigger] order.contains(n) <==> n == node || rest.contains(n) by {
            if order.contains(n) && n != node {
                let i = order.index_of(n);
                assert(rest[i - 1] == n);
            }
            if rest.contains(n) {
                let i = rest.index_of(n);
                assert(order[i + 1] == n);
            }
        }
        assert(!rest.contains(node));
        assert forall|i: int, j: int| 0 <= i < j < order.len() implies order[i] != order[j] by {
            if i == 0 {
                assert(rest.contains(rest[j - 1]));
            } else {
                assert(rest[i - 1] != rest[j - 1]);
            }
        }
        assert forall|n: u32| #[trigger] order.contains(n) implies n < graph.len()
            && !visited[n as int] && exists|s: u32| #[trigger]
            stack.contains(s) && reaches(graph, n, s) by {
            if n == node {
                crate::graph::lemma_reaches_itself(graph, node);
                assert(stack.contains(node) && reaches(graph, n, node));
            } else {
                let s = choose|s: u32| #[trigger] after.contains(s) && reaches(graph, n, s);
                if !stack.contains(s) {
                    crate::graph::lemma_edge_reaches(graph, s, node);
                    crate::graph::lemma_reaches_transitive(graph, n, s, node);
                    assert(stack.contains(node) && reaches(graph, n, node));
                }
            }
        }
        assert forall|n: u32| #[trigger] stack.contains(n) implies order.contains(n)
            || visited[n as int] by {
            assert(after.contains(n) || marks[n as int]);
        }
        assert forall|m: u32, n: u32| order.contains(n) && #[trigger] has_edge(graph, m, n) implies
            order.contains(m) || visited[m as int] by {
            if n == node {
                assert(after.contains(m) || marks[m as int]);
            } else {
                assert(rest.contains(m) || marks[m as int]);
            }
        }
    } else {
        assert forall|n: u32| #[trigger] stack.contains(n) implies visited[n as int] by {
            if !visited[n as int] {
                lemma_has_next_place(stack, visited, stack.index_of(n));
            }
        }
    }
}

/// Where some node on the stack was not visited, there is a last such node.
proof fn lemma_has_next_place(stack: Seq<u32>, visited: Seq<bool>, i: int)
    requires
        0 <= i < stack.len(),
        !visited[stack[i] as int],
    ensures
        exists|k: int| #[trigger] is_next_place(stack, visited, k),
    decreases stack.len() - i,
{
    if forall|j: int| i < j < stack.len() ==> visited[#[trigger] stack[j] as int] {
        assert(is_next_place(stack, visited, i));
    } else {
        let j = choose|j: int| i < j < stack.len() && !visited[#[trigger] stack[j] as int];
        lemma_has_next_place(stack, visited, j);
    }
}

/// The nodes that a traversal from `start` hands out.
pub open spec fn component_order(graph: Incoming, start: u32) -> Seq<u32> {
    dfs_order(graph, seq![start], Seq::new(graph.len(), |i: int| false))
}

/// A traversal from `start` hands `start` out first, and then, each once, all other nodes from which
/// `start` can be reached.
pub proof fn lemma_component_order(graph: Incoming, start: u32)
    requires
        in_range(graph),
        start < graph.len() <= u32::MAX,
    ensures
        component_order(graph, start).len() > 0,
        component_order(graph, start)[0] == start,
        component_order(graph, start).no_duplicates(),
        forall|n: u32| #[trigger]
            component_order(graph, start).contains(n) <==> reaches(graph, n, start),
{
    let stack = seq![start];
    let visited = Seq::new(graph.len(), |i: int| false);
    let order = component_order(graph, start);
    assert(stack_in_range(stack, visited));
    lemma_dfs_order(graph, stack, visited);
    assert(is_next_place(stack, visited, 0));
    lemma_next_place_unique(stack, visited, 0);
    assert(order[0] == start);
    assert forall|n: u32| #[trigger] order.contains(n) <==> reaches(graph, n, start) by {
        if order.contains(n) {
            let s = choose|s: u32| #[trigger] stack.contains(s) && reaches(graph, n, s);
            assert(s == start);
        }
        if reaches(graph, n, start) {
            let walk = choose|walk: Seq<u32>| #[trigger]
                crate::graph::is_walk_between(graph, walk, n, start);
            assert(order.contains(start));
            lemma_walk_handed_out(graph, order, walk);
        }
    }
}

/// Where the nodes handed out contain, with each node, all from which an edge leads to it, they
/// contain every walk that ends at one of them.
proof fn lemma_walk_handed_out(graph: Incoming, order: Seq<u32>, walk: Seq<u32>)
    requires
        crate::graph::is_walk(graph, walk),
        order.contains(walk.last()),
        forall|m: u32, n: u32|
            order.contains(n) && #[trigger] has_edge(graph, m, n) ==> order.contains(m),
    ensures
        order.contains(walk[0]),
    decreases walk.len(),
{
    if walk.len() > 1 {
        let front = walk.drop_last();
        assert(crate::graph::is_step(graph, walk, walk.len() - 2));
        assert(has_edge(graph, front.last(), walk.last()));
        assert forall|i: int| 0 <= i < front.len() - 1 implies #[trigger] crate::graph::is_step(
            graph,
            front,
            i,
        ) by {
            assert(crate::graph::is_step(graph, walk, i));
        }
        lemma_walk_handed_out(graph, order, front);
    }
}

/// Every node that a traversal hands out stood on the stack, or has an edge to a node that was handed
/// out before.
proof fn lemma_found(graph: Incoming, stack: Seq<u32>, visited: Seq<bool>, i: int) -> (j: int)
    requires
        stack_in_range(stack, visited),
        visited.len() == graph.len(),
        in_range(graph),
        graph.len() <= u32::MAX,
        0 <= i < dfs_order(graph, stack, visited).len(),
    ensures
        stack.contains(dfs_order(graph, stack, visited)[i]) || (0 <= j < i && has_edge(
            graph,
            dfs_order(graph, stack, visited)[i],
            dfs_order(graph, stack, visited)[j],
        )),
    decreases unvisited_count(visited),
{
    let order = dfs_order(graph, stack, visited);
    if exists|k: int| #[trigger] is_next_place(stack, visited, k) {
        let node = stack[next_place(stack, visited)];
        let after = stack_after(graph, stack, visited);
        let marks = visited.update(node as int, true);
        lemma_stack_after(graph, stack, visited);
        lemma_visit_decreases(visited, node as int);
        let rest = dfs_order(graph, after, marks);
        assert(order == seq![node] + rest);
        if i == 0 {
            assert(stack.contains(node));
            0
        } else {
            let j = lemma_found(graph, after, marks, i - 1);
            assert(order[i] == rest[i - 1]);
            if after.contains(rest[i - 1]) {
                assert(order[0] == node);
                0
            } else {
                assert(order[j + 1] == rest[j]);
                j + 1
            }
        }
    } else {
        0
    }
}

/// Every node that a traversal from `start` hands out after it has an edge to a node that was handed
/// out before.
pub proof fn lemma_component_found(graph: Incoming, start: u32, i: int) -> (j: int)
    requires
        in_range(graph),
        start < graph.len() <= u32::MAX,
        0 < i < component_order(graph, start).len(),
    ensures
        0 <= j < i,
        has_edge(graph, component_order(graph, start)[i], component_order(graph, start)[j]),
{
    let stack = seq![start];
    let visited = Seq::new(graph.len(), |i: int| false);
    lemma_component_order(graph, start);
    assert(stack_in_range(stack, visited));
    let j = lemma_found(graph, stack, visited, i);
    if stack.contains(component_order(graph, start)[i]) {
        assert(component_order(graph, start)[i] == start);
        assert(component_order(graph, start)[i] != component_order(graph, start)[0]);
    }
    j
}

} // verus!
