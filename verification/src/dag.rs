//! The graph of `daggy` and the traversals of `petgraph`, with what they do stated over the
//! model of graphs.
use crate::context::Context;
use crate::graph::Incoming;
use daggy::petgraph::algo;
use daggy::petgraph::graph::{DiGraph, Graph, NodeIndex};
use daggy::petgraph::visit::Dfs;
use daggy::petgraph::Directed;
use daggy::{Dag, Walker};
use fixedbitset::FixedBitSet;
use vstd::prelude::*;

verus! {

/// The graph of dependencies as `daggy` holds it. A node has no weight; the weight of an edge is
/// the context in which the dependency was found.
#[verifier::external_body]
pub struct SymbolDag {
    dag: Dag<(), Context, u32>,
}

/// `petgraph::graph::Graph`, the graph below a `Dag`.
#[verifier::external_type_specification]
#[verifier::external_body]
#[verifier::reject_recursive_types(N)]
#[verifier::reject_recursive_types(E)]
#[verifier::reject_recursive_types(Ty)]
#[verifier::reject_recursive_types(Ix)]
pub struct ExGraph<N, E, Ty, Ix>(Graph<N, E, Ty, Ix>);

/// `petgraph::Directed`, which marks a graph whose edges have a direction.
#[verifier::external_type_specification]
#[verifier::external_body]
pub struct ExDirected(Directed);

/// `petgraph::graph::NodeIndex`, the index of a node.
#[verifier::external_type_specification]
#[verifier::external_body]
#[verifier::reject_recursive_types(Ix)]
pub struct ExNodeIndex<Ix>(NodeIndex<Ix>);

/// `petgraph::visit::Dfs`, a depth-first traversal.
#[verifier::external_type_specification]
#[verifier::external_body]
#[verifier::reject_recursive_types(N)]
#[verifier::reject_recursive_types(VM)]
pub struct ExDfs<N, VM>(Dfs<N, VM>);

/// `fixedbitset::FixedBitSet`, in which a traversal marks the nodes that it has visited.
#[verifier::external_type_specification]
#[verifier::external_body]
pub struct ExFixedBitSet(FixedBitSet);

/// What a dag holds: for each node the edges that lead to it, the latest first.
pub uninterp spec fn dag_incoming(dag: SymbolDag) -> Seq<Seq<(u32, Context)>>;

/// What a dag holds: for each node the edges that come from it, given by the node that they lead
/// to, the latest first.
pub uninterp spec fn dag_outgoing(dag: SymbolDag) -> Seq<Seq<(u32, Context)>>;

/// What a dag holds, by the index of an edge: where it comes from and where it leads to.
pub uninterp spec fn dag_edges(dag: SymbolDag) -> Seq<(u32, u32)>;

/// What a graph holds: for each node the edges that lead to it, the latest first.
pub uninterp spec fn graph_incoming(graph: DiGraph<(), Context, u32>) -> Seq<Seq<(u32, Context)>>;

/// What a graph holds: for each node the edges that come from it, given by the node that they
/// lead to, the latest first.
pub uninterp spec fn graph_outgoing(graph: DiGraph<(), Context, u32>) -> Seq<Seq<(u32, Context)>>;

/// The order in which `petgraph::algo::toposort` gives the nodes of a graph without cycles. It
/// follows from the order of the outgoing edges of each node.
pub uninterp spec fn toposort_order(outgoing: Seq<Seq<(u32, Context)>>) -> Seq<u32>;

/// The nodes that a traversal still has to look at; the next one stands last.
pub uninterp spec fn dfs_stack(dfs: Dfs<NodeIndex<u32>, FixedBitSet>) -> Seq<u32>;

/// For each node, whether a traversal has handed it out.
pub uninterp spec fn dfs_visited(dfs: Dfs<NodeIndex<u32>, FixedBitSet>) -> Seq<bool>;

/// The nodes at the other end of the edges in `list`.
pub open spec fn ends(list: Seq<(u32, Context)>) -> Seq<u32> {
    list.map_values(|edge: (u32, Context)| edge.0)
}

/// Every list of the graph names nodes of the graph only.
pub open spec fn ends_in_range(graph: Incoming) -> bool {
    forall|n: int, k: int|
        0 <= n < graph.len() && 0 <= k < graph[n].len() ==> (#[trigger] graph[n][k]).0 < graph.len()
}

/// Place `k` of the stack holds the last node on it that was not visited yet.
pub open spec fn is_next_place(stack: Seq<u32>, visited: Seq<bool>, k: int) -> bool {
    &&& 0 <= k < stack.len()
    &&& !visited[stack[k] as int]
    &&& forall|j: int| k < j < stack.len() ==> visited[#[trigger] stack[j] as int]
}

/// The nodes of `nodes` that were not visited yet, in the order in which they stand there.
pub open spec fn unvisited(nodes: Seq<u32>, visited: Seq<bool>) -> Seq<u32> {
    nodes.filter(|n: u32| !visited[n as int])
}

impl SymbolDag {
    /// `Dag::new` makes a graph with no node and no edge.
    #[verifier::external_body]
    pub(crate) fn new() -> (dag: SymbolDag)
        ensures
            dag_incoming(dag) == Seq::<Seq<(u32, Context)>>::empty(),
            dag_outgoing(dag) == Seq::<Seq<(u32, Context)>>::empty(),
            dag_edges(dag) == Seq::<(u32, u32)>::empty(),
    {
        SymbolDag { dag: Dag::new() }
    }

    /// `Dag::add_node` adds a node without edges in either direction, and returns its index, which is the number of
    /// nodes before. It panics where that index would be the largest `u32`.
    #[verifier::external_body]
    pub(crate) fn add_node(&mut self) -> (node: u32)
        requires
            dag_incoming(*old(self)).len() < u32::MAX,
        ensures
            node == dag_incoming(*old(self)).len(),
            dag_incoming(*final(self)) == dag_incoming(*old(self)).push(Seq::empty()),
            dag_outgoing(*final(self)) == dag_outgoing(*old(self)).push(Seq::empty()),
            dag_edges(*final(self)) == dag_edges(*old(self)),
    {
        self.dag.add_node(()).index() as u32
    }

    /// `Dag::add_edge` adds an edge from `a` to `b` and returns its index, which is the number of
    /// edges before, unless `a` can be reached from `b`: then it leaves the graph as it is and
    /// hands the weight back. The new edge stands first among those that lead to `b` and among
    /// those that come from `a`. It panics where `a` or `b` is no node, and where the index of an
    /// edge that it adds would be the largest `u32`. It does not look for a way back where there is
    /// an edge from `a` to `b` already, so this is said of graphs without a cycle only, as `daggy`
    /// keeps them.
    #[verifier::external_body]
    pub(crate) fn add_edge(&mut self, a: u32, b: u32, weight: Context) -> (added: Result<
        u32,
        Context,
    >)
        requires
            a < dag_incoming(*old(self)).len(),
            b < dag_incoming(*old(self)).len(),
            !crate::graph::reaches(dag_incoming(*old(self)), b, a) ==> dag_edges(*old(self)).len()
                < u32::MAX,
            crate::graph::acyclic(dag_incoming(*old(self))),
        ensures
            added is Err <==> crate::graph::reaches(dag_incoming(*old(self)), b, a),
            added matches Ok(edge) ==> edge == dag_edges(*old(self)).len() && dag_incoming(
                *final(self),
            ) == crate::graph::with_edge(dag_incoming(*old(self)), a, b, weight) && dag_outgoing(
                *final(self),
            ) == crate::graph::with_edge(dag_outgoing(*old(self)), b, a, weight) && dag_edges(
                *final(self),
            ) == dag_edges(*old(self)).push((a, b)),
            added matches Err(back) ==> back == weight && dag_incoming(*final(self))
                == dag_incoming(*old(self)) && dag_outgoing(*final(self)) == dag_outgoing(*old(self))
                && dag_edges(*final(self)) == dag_edges(*old(self)),
    {
        match self.dag.add_edge(a.into(), b.into(), weight) {
            Ok(edge) => Ok(edge.index() as u32),
            Err(cycle) => Err(cycle.0),
        }
    }

    /// `Dag::node_count` gives the number of nodes.
    #[verifier::external_body]
    pub(crate) fn node_count(&self) -> (count: usize)
        ensures
            count == dag_incoming(*self).len(),
    {
        self.dag.node_count()
    }

    /// `Dag::edge_count` gives the number of edges.
    #[verifier::external_body]
    pub(crate) fn edge_count(&self) -> (count: usize)
        ensures
            count == dag_edges(*self).len(),
    {
        self.dag.edge_count()
    }

    /// `Dag::find_edge` walks the edges that come from `a`, and returns the index of one that leads
    /// to `b`, if there is one. Such an edge stands in the list of those that come from `a` and in
    /// the list of those that lead to `b`. Which of several it returns is left open.
    #[verifier::external_body]
    pub(crate) fn find_edge(&self, a: u32, b: u32) -> (found: Option<u32>)
        ensures
            found is Some <==> crate::graph::has_edge(dag_incoming(*self), a, b),
            found is Some <==> crate::graph::has_edge(dag_outgoing(*self), b, a),
            found matches Some(edge) ==> edge < dag_edges(*self).len() && dag_edges(
                *self,
            )[edge as int] == (a, b),
    {
        self.dag.find_edge(a.into(), b.into()).map(|edge| edge.index() as u32)
    }

    /// `Dag::remove_edge` takes out the edge with this index and returns its weight. It leaves the
    /// list of the edges that lead to its end and that of the edges that come from its start; the
    /// others in both stay in their order. The edge with the last index takes over the index that
    /// has become free. Of several edges between the same two nodes, which places in the lists the
    /// removed one had is left open.
    #[verifier::external_body]
    pub(crate) fn remove_edge(&mut self, edge: u32) -> (weight: Option<Context>)
        requires
            edge < dag_edges(*old(self)).len(),
        ensures
            is_removal(
                dag_incoming(*old(self)),
                dag_edges(*old(self))[edge as int],
                weight,
                dag_incoming(*final(self)),
            ),
            is_removal(
                dag_outgoing(*old(self)),
                (dag_edges(*old(self))[edge as int].1, dag_edges(*old(self))[edge as int].0),
                weight,
                dag_outgoing(*final(self)),
            ),
            dag_edges(*final(self)) == dag_edges(*old(self)).update(
                edge as int,
                dag_edges(*old(self)).last(),
            ).drop_last(),
    {
        self.dag.remove_edge(edge.into())
    }

    /// `Dag::parents`, walked to its end, gives the nodes from which an edge leads to `node`, the
    /// latest edge first.
    #[verifier::external_body]
    pub(crate) fn parents(&self, node: u32) -> (nodes: Vec<u32>)
        requires
            node < dag_incoming(*self).len(),
        ensures
            nodes@ == ends(dag_incoming(*self)[node as int]),
    {
        self.dag.parents(node.into()).iter(&self.dag).map(|parent| parent.1.index() as u32).collect()
    }

    /// `Dag::graph` gives the graph that the dag is made of.
    #[verifier::external_body]
    pub(crate) fn graph(&self) -> (graph: &DiGraph<(), Context, u32>)
        ensures
            graph_incoming(*graph) == dag_incoming(*self),
            graph_outgoing(*graph) == dag_outgoing(*self),
    {
        self.dag.graph()
    }
}

/// `after` is `before` without one edge between these two nodes, and `weight` was its weight.
pub open spec fn is_removal(
    before: Incoming,
    edge: (u32, u32),
    weight: Option<Context>,
    after: Incoming,
) -> bool {
    &&& edge.1 < before.len()
    &&& exists|k: int|
        0 <= k < before[edge.1 as int].len() && #[trigger] before[edge.1 as int][k] == (
            edge.0,
            weight->0,
        ) && after == before.update(edge.1 as int, before[edge.1 as int].remove(k))
    &&& weight is Some
}

/// `Graph::clone` copies the nodes and the edges with their order.
#[verifier::external_body]
pub(crate) fn clone_graph(graph: &DiGraph<(), Context, u32>) -> (copy: DiGraph<(), Context, u32>)
    ensures
        graph_incoming(copy) == graph_incoming(*graph),
        graph_outgoing(copy) == graph_outgoing(*graph),
{
    graph.clone()
}

/// `Graph::reverse` turns every edge round: the lists of incoming and of outgoing edges change
/// places.
#[verifier::external_body]
pub(crate) fn reverse_graph(graph: &mut DiGraph<(), Context, u32>)
    ensures
        graph_incoming(*final(graph)) == graph_outgoing(*old(graph)),
        graph_outgoing(*final(graph)) == graph_incoming(*old(graph)),
{
    graph.reverse()
}

/// `petgraph::algo::toposort` gives all nodes of a graph without cycles in a topological order,
/// and nothing where there is a cycle. Which of the topological orders it gives depends on the
/// outgoing edges alone.
#[verifier::external_body]
pub(crate) fn toposort_graph(graph: &DiGraph<(), Context, u32>) -> (order: Option<Vec<u32>>)
    ensures
        order is Some <==> crate::graph::acyclic(graph_incoming(*graph)),
        order matches Some(nodes) ==> nodes@ == toposort_order(graph_outgoing(*graph))
            && crate::graph::is_topological(nodes@, graph_incoming(*graph)),
{
    match algo::toposort(graph, None) {
        Ok(nodes) => Some(nodes.into_iter().map(|node| node.index() as u32).collect()),
        Err(_) => None,
    }
}

/// `Dfs::new` begins a traversal at `start`, with nothing visited.
#[verifier::external_body]
pub(crate) fn new_dfs(graph: &DiGraph<(), Context, u32>, start: u32) -> (dfs: Dfs<
    NodeIndex<u32>,
    FixedBitSet,
>)
    ensures
        dfs_stack(dfs) == seq![start],
        dfs_visited(dfs) == Seq::new(graph_outgoing(*graph).len(), |i: int| false),
{
    Dfs::new(graph, start.into())
}

/// `Dfs::next` takes nodes from the end of the stack until it comes to one that was not visited.
/// It marks that node as visited, puts the nodes that its edges lead to and that were not visited
/// on the stack, in the order of the edges, and returns it. Where the stack holds no such node, it
/// empties the stack and returns nothing. It panics where the stack holds a node for which there
/// is no mark.
#[verifier::external_body]
pub(crate) fn next_dfs(
    dfs: &mut Dfs<NodeIndex<u32>, FixedBitSet>,
    graph: &DiGraph<(), Context, u32>,
) -> (next: Option<u32>)
    requires
        forall|i: int|
            0 <= i < dfs_stack(*old(dfs)).len() ==> #[trigger] dfs_stack(*old(dfs))[i]
                < dfs_visited(*old(dfs)).len(),
        graph_outgoing(*graph).len() == dfs_visited(*old(dfs)).len(),
        ends_in_range(graph_outgoing(*graph)),
    ensures
        next is Some <==> exists|k: int| #[trigger]
            is_next_place(dfs_stack(*old(dfs)), dfs_visited(*old(dfs)), k),
        next matches Some(node) ==> is_dfs_step(
            dfs_stack(*old(dfs)),
            dfs_visited(*old(dfs)),
            graph_outgoing(*graph),
            node,
            dfs_stack(*final(dfs)),
            dfs_visited(*final(dfs)),
        ),
        next is None ==> dfs_stack(*final(dfs)) == Seq::<u32>::empty() && dfs_visited(*final(dfs))
            == dfs_visited(*old(dfs)),
{
    dfs.next(graph).map(|node| node.index() as u32)
}

/// A traversal with this stack and these marks hands out `node`, and is left with the others.
pub open spec fn is_dfs_step(
    stack: Seq<u32>,
    visited: Seq<bool>,
    outgoing: Seq<Seq<(u32, Context)>>,
    node: u32,
    stack_after: Seq<u32>,
    visited_after: Seq<bool>,
) -> bool {
    exists|k: int|
        {
            &&& #[trigger] is_next_place(stack, visited, k)
            &&& node == stack[k]
            &&& visited_after == visited.update(node as int, true)
            &&& stack_after == stack.take(k) + unvisited(
                ends(outgoing[node as int]),
                visited_after,
            )
        }
}

} // verus!
