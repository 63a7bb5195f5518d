//! Directed graphs as mathematical values, and the facts on paths, cycles and topological orders
//! that the rest of the library rests on.
use crate::context::Context;
use vstd::prelude::*;

verus! {

/// A directed graph: for each node, by its index, the edges that lead to it. An edge is given by
/// the node that it comes from and by its weight; the edge that was added last stands first.
pub type Incoming = Seq<Seq<(u32, Context)>>;

/// Some edge leads from `a` to `b`.
pub open spec fn has_edge(graph: Incoming, a: u32, b: u32) -> bool {
    b < graph.len() && exists|k: int|
        0 <= k < graph[b as int].len() && (#[trigger] graph[b as int][k]).0 == a
}

/// Every edge comes from a node of the graph.
pub open spec fn in_range(graph: Incoming) -> bool {
    forall|a: u32, b: u32| #[trigger] has_edge(graph, a, b) ==> a < graph.len()
}

/// The node at place `i` of `walk` has an edge to the node at the next place.
pub open spec fn is_step(graph: Incoming, walk: Seq<u32>, i: int) -> bool {
    has_edge(graph, walk[i], walk[i + 1])
}

/// `walk` follows the edges of the graph.
pub open spec fn is_walk(graph: Incoming, walk: Seq<u32>) -> bool {
    walk.len() > 0 && forall|i: int| 0 <= i < walk.len() - 1 ==> #[trigger] is_step(graph, walk, i)
}

/// `walk` leads from `a` to `b`.
pub open spec fn is_walk_between(graph: Incoming, walk: Seq<u32>, a: u32, b: u32) -> bool {
    is_walk(graph, walk) && walk[0] == a && walk.last() == b
}

/// `b` can be reached from `a` along zero or more edges.
pub open spec fn reaches(graph: Incoming, a: u32, b: u32) -> bool {
    exists|walk: Seq<u32>| #[trigger] is_walk_between(graph, walk, a, b)
}

/// No edge can be followed back to where it came from.
pub open spec fn acyclic(graph: Incoming) -> bool {
    forall|a: u32, b: u32| #[trigger] has_edge(graph, a, b) ==> !reaches(graph, b, a)
}

/// The graph after an edge from `a` to `b` was added.
pub open spec fn with_edge(graph: Incoming, a: u32, b: u32, weight: Context) -> Incoming {
    graph.update(b as int, seq![(a, weight)] + graph[b as int])
}

/// The edges that do not come from `a`.
pub open spec fn not_from(a: u32) -> spec_fn((u32, Context)) -> bool {
    |edge: (u32, Context)| edge.0 != a
}

/// The graph after all edges from `a` to `b` were taken out.
pub open spec fn without_edges(graph: Incoming, a: u32, b: u32) -> Incoming {
    if b < graph.len() {
        graph.update(b as int, graph[b as int].filter(not_from(a)))
    } else {
        graph
    }
}

/// How many edges the graph has.
pub open spec fn edge_total(graph: Incoming) -> nat
    decreases graph.len(),
{
    if graph.len() == 0 {
        0
    } else {
        edge_total(graph.drop_last()) + graph.last().len()
    }
}

/// `order` holds every node once, and each node before those that its edges lead to.
pub open spec fn is_topological(order: Seq<u32>, graph: Incoming) -> bool {
    &&& order.no_duplicates()
    &&& forall|n: u32| #[trigger] order.contains(n) <==> n < graph.len()
    &&& forall|i: int, j: int|
        0 <= i < order.len() && 0 <= j < order.len() && #[trigger] has_edge(
            graph,
            order[i],
            order[j],
        ) ==> i < j
}

/// The number of edges after those that lead to one node were exchanged.
pub proof fn lemma_edge_total_update(graph: Incoming, b: int, list: Seq<(u32, Context)>)
    requires
        0 <= b < graph.len(),
    ensures
        edge_total(graph.update(b, list)) + graph[b].len() == edge_total(graph) + list.len(),
    decreases graph.len(),
{
    let after = graph.update(b, list);
    if b == graph.len() - 1 {
        assert(after.drop_last() =~= graph.drop_last());
    } else {
        lemma_edge_total_update(graph.drop_last(), b, list);
        assert(after.drop_last() =~= graph.drop_last().update(b, list));
        assert(after.last() == graph.last());
        assert(graph.drop_last()[b] == graph[b]);
    }
}

pub proof fn lemma_reaches_itself(graph: Incoming, a: u32)
    ensures
        reaches(graph, a, a),
{
    assert(is_walk_between(graph, seq![a], a, a));
}

pub proof fn lemma_edge_reaches(graph: Incoming, a: u32, b: u32)
    requires
        has_edge(graph, a, b),
    ensures
        reaches(graph, a, b),
{
    let walk = seq![a, b];
    assert forall|i: int| 0 <= i < walk.len() - 1 implies #[trigger] is_step(graph, walk, i) by {
        assert(i == 0);
    }
    assert(is_walk_between(graph, walk, a, b));
}

pub proof fn lemma_reaches_transitive(graph: Incoming, a: u32, b: u32, c: u32)
    requires
        reaches(graph, a, b),
        reaches(graph, b, c),
    ensures
        reaches(graph, a, c),
{
    let p = choose|walk: Seq<u32>| #[trigger] is_walk_between(graph, walk, a, b);
    let q = choose|walk: Seq<u32>| #[trigger] is_walk_between(graph, walk, b, c);
    let r = p + q.skip(1);
    assert forall|i: int| 0 <= i < r.len() - 1 implies #[trigger] is_step(graph, r, i) by {
        if i < p.len() - 1 {
            assert(is_step(graph, p, i));
        } else {
            assert(is_step(graph, q, i - p.len() + 1));
            assert(r[i] == q[i - p.len() + 1]);
            assert(r[i + 1] == q[i - p.len() + 2]);
        }
    }
    assert(r[0] == a);
    assert(r.last() == c) by {
        if q.len() == 1 {
            assert(r =~= p);
        }
    }
    assert(is_walk_between(graph, r, a, c));
}

/// A node that something else is reached from has an edge to begin with.
pub proof fn lemma_reaches_first_edge(graph: Incoming, a: u32, b: u32) -> (next: u32)
    requires
        reaches(graph, a, b),
        a != b,
    ensures
        has_edge(graph, a, next),
        reaches(graph, next, b),
{
    let p = choose|walk: Seq<u32>| #[trigger] is_walk_between(graph, walk, a, b);
    assert(p.len() > 1);
    assert(is_step(graph, p, 0));
    let q = p.skip(1);
    assert forall|i: int| 0 <= i < q.len() - 1 implies #[trigger] is_step(graph, q, i) by {
        assert(is_step(graph, p, i + 1));
    }
    assert(is_walk_between(graph, q, p[1], b));
    p[1]
}

/// What can be reached in a part of a graph can be reached in the graph.
pub proof fn lemma_reaches_in_larger(small: Incoming, large: Incoming, a: u32, b: u32)
    requires
        forall|x: u32, y: u32| #[trigger] has_edge(small, x, y) ==> has_edge(large, x, y),
        reaches(small, a, b),
    ensures
        reaches(large, a, b),
{
    let p = choose|walk: Seq<u32>| #[trigger] is_walk_between(small, walk, a, b);
    assert forall|i: int| 0 <= i < p.len() - 1 implies #[trigger] is_step(large, p, i) by {
        assert(is_step(small, p, i));
    }
    assert(is_walk_between(large, p, a, b));
}

/// Taking edges out of a graph makes no cycle.
pub proof fn lemma_smaller_is_acyclic(small: Incoming, large: Incoming)
    requires
        forall|x: u32, y: u32| #[trigger] has_edge(small, x, y) ==> has_edge(large, x, y),
        acyclic(large),
    ensures
        acyclic(small),
{
    assert forall|a: u32, b: u32| #[trigger] has_edge(small, a, b) implies !reaches(small, b, a) by {
        if reaches(small, b, a) {
            lemma_reaches_in_larger(small, large, b, a);
        }
    }
}

/// The edges after one was added.
pub proof fn lemma_with_edge(graph: Incoming, a: u32, b: u32, weight: Context)
    requires
        b < graph.len(),
    ensures
        forall|x: u32, y: u32| #[trigger]
            has_edge(with_edge(graph, a, b, weight), x, y) <==> has_edge(graph, x, y) || (x == a && y
                == b),
{
    let after = with_edge(graph, a, b, weight);
    assert(after[b as int][0].0 == a);
    assert forall|x: u32, y: u32| #[trigger] has_edge(after, x, y) <==> has_edge(graph, x, y) || (x
        == a && y == b) by {
        if has_edge(after, x, y) && y == b && x != a {
            let k = choose|k: int| 0 <= k < after[y as int].len() && (#[trigger] after[y as int][k]).0
                == x;
            assert(graph[y as int][k - 1].0 == x);
        }
        if has_edge(graph, x, y) {
            let k = choose|k: int| 0 <= k < graph[y as int].len() && (#[trigger] graph[y as int][k]).0
                == x;
            if y == b {
                assert(after[y as int][k + 1].0 == x);
            } else {
                assert(after[y as int][k].0 == x);
            }
        }
    }
}

/// What is reached after an edge was added was reached before, or is reached over that edge.
pub proof fn lemma_reaches_with_edge(
    graph: Incoming,
    a: u32,
    b: u32,
    weight: Context,
    x: u32,
    y: u32,
)
    requires
        b < graph.len(),
    ensures
        reaches(with_edge(graph, a, b, weight), x, y) <==> reaches(graph, x, y) || (reaches(
            graph,
            x,
            a,
        ) && reaches(graph, b, y)),
{
    let after = with_edge(graph, a, b, weight);
    lemma_with_edge(graph, a, b, weight);
    if reaches(graph, x, y) {
        lemma_reaches_in_larger(graph, after, x, y);
    }
    if reaches(graph, x, a) && reaches(graph, b, y) {
        lemma_reaches_in_larger(graph, after, x, a);
        lemma_reaches_in_larger(graph, after, b, y);
        lemma_edge_reaches(after, a, b);
        lemma_reaches_transitive(after, x, a, b);
        lemma_reaches_transitive(after, x, b, y);
    }
    if reaches(after, x, y) {
        let walk = choose|walk: Seq<u32>| #[trigger] is_walk_between(after, walk, x, y);
        lemma_walk_with_edge(graph, a, b, weight, walk);
    }
}

proof fn lemma_walk_with_edge(graph: Incoming, a: u32, b: u32, weight: Context, walk: Seq<u32>)
    requires
        b < graph.len(),
        is_walk(with_edge(graph, a, b, weight), walk),
    ensures
        reaches(graph, walk[0], walk.last()) || (reaches(graph, walk[0], a) && reaches(
            graph,
            b,
            walk.last(),
        )),
    decreases walk.len(),
{
    let after = with_edge(graph, a, b, weight);
    lemma_with_edge(graph, a, b, weight);
    if walk.len() == 1 {
        lemma_reaches_itself(graph, walk[0]);
    } else {
        let front = walk.drop_last();
        assert forall|i: int| 0 <= i < front.len() - 1 implies #[trigger] is_step(
            after,
            front,
            i,
        ) by {
            assert(is_step(after, walk, i));
        }
        lemma_walk_with_edge(graph, a, b, weight, front);
        let u = front.last();
        let v = walk.last();
        assert(is_step(after, walk, walk.len() - 2));
        assert(has_edge(after, u, v));
        if has_edge(graph, u, v) {
            lemma_edge_reaches(graph, u, v);
            if reaches(graph, walk[0], u) {
                lemma_reaches_transitive(graph, walk[0], u, v);
            } else {
                lemma_reaches_transitive(graph, b, u, v);
            }
        } else {
            assert(u == a && v == b);
            lemma_reaches_itself(graph, b);
        }
    }
}

/// An edge to a node that does not lead back makes no cycle.
pub proof fn lemma_with_edge_acyclic(graph: Incoming, a: u32, b: u32, weight: Context)
    requires
        b < graph.len(),
        acyclic(graph),
        !reaches(graph, b, a),
    ensures
        acyclic(with_edge(graph, a, b, weight)),
{
    let after = with_edge(graph, a, b, weight);
    lemma_with_edge(graph, a, b, weight);
    assert forall|x: u32, y: u32| #[trigger] has_edge(after, x, y) implies !reaches(after, y, x) by {
        lemma_reaches_with_edge(graph, a, b, weight, y, x);
        if reaches(after, y, x) {
            if has_edge(graph, x, y) {
                // The way from `y` back to `x` takes the new edge, so `b` leads to `a` over `x`.
                assert(reaches(graph, y, a) && reaches(graph, b, x));
                lemma_edge_reaches(graph, x, y);
                lemma_reaches_transitive(graph, b, x, y);
                lemma_reaches_transitive(graph, b, y, a);
            }
        }
    }
}

/// An edge that leads back to where it came from closes a cycle.
pub proof fn lemma_with_edge_cyclic(graph: Incoming, a: u32, b: u32, weight: Context)
    requires
        b < graph.len(),
        reaches(graph, b, a),
    ensures
        !acyclic(with_edge(graph, a, b, weight)),
{
    lemma_with_edge(graph, a, b, weight);
    assert(has_edge(with_edge(graph, a, b, weight), a, b));
    lemma_reaches_in_larger(graph, with_edge(graph, a, b, weight), b, a);
}

/// The edges after all those from `a` to `b` were taken out.
pub proof fn lemma_without_edges(graph: Incoming, a: u32, b: u32)
    ensures
        without_edges(graph, a, b).len() == graph.len(),
        forall|x: u32, y: u32| #[trigger]
            has_edge(without_edges(graph, a, b), x, y) <==> has_edge(graph, x, y) && !(x == a && y
                == b),
{
    if b < graph.len() {
        let after = without_edges(graph, a, b);
        let keep = not_from(a);
        let list = graph[b as int];
        assert forall|x: u32, y: u32| #[trigger] has_edge(after, x, y) <==> has_edge(graph, x, y)
            && !(x == a && y == b) by {
            if y == b {
                assert(after[y as int] == list.filter(keep));
                if has_edge(after, x, y) {
                    let k = choose|k: int| 0 <= k < after[y as int].len() && (#[trigger] after[y as int][k]).0
                        == x;
                    list.lemma_filter_pred(keep, k);
                    list.lemma_filter_contains_rev(keep, after[y as int][k]);
                    let j = list.index_of(after[y as int][k]);
                    assert(graph[y as int][j].0 == x);
                }
                if has_edge(graph, x, y) && x != a {
                    let k = choose|k: int| 0 <= k < list.len() && (#[trigger] list[k]).0 == x;
                    list.lemma_filter_contains(keep, k);
                    let j = list.filter(keep).index_of(list[k]);
                    assert(after[y as int][j].0 == x);
                }
            } else if has_edge(graph, x, y) {
                let k = choose|k: int| 0 <= k < graph[y as int].len() && (#[trigger] graph[y as int][k]).0
                    == x;
                assert(after[y as int][k].0 == x);
            }
        }
    }
}

/// A list from which nothing would be taken stays as it is.
pub proof fn lemma_filter_nothing<A>(list: Seq<A>, keep: spec_fn(A) -> bool)
    requires
        forall|i: int| 0 <= i < list.len() ==> keep(#[trigger] list[i]),
    ensures
        list.filter(keep) == list,
    decreases list.len(),
{
    reveal(Seq::filter);
    if list.len() > 0 {
        lemma_filter_nothing(list.drop_last(), keep);
        assert(list.drop_last().push(list.last()) =~= list);
    }
}

/// Taking out an element that would be taken out anyway makes no difference to what is kept.
pub proof fn lemma_filter_remove<A>(list: Seq<A>, keep: spec_fn(A) -> bool, k: int)
    requires
        0 <= k < list.len(),
        !keep(list[k]),
    ensures
        list.remove(k).filter(keep) == list.filter(keep),
{
    reveal(Seq::filter);
    Seq::filter_distributes_over_add(list.take(k), list.skip(k + 1), keep);
    Seq::filter_distributes_over_add(list.take(k).push(list[k]), list.skip(k + 1), keep);
    assert(list.take(k) + list.skip(k + 1) =~= list.remove(k));
    assert(list.take(k).push(list[k]) + list.skip(k + 1) =~= list);
    assert(list.take(k).push(list[k]).drop_last() =~= list.take(k));
}

} // verus!
