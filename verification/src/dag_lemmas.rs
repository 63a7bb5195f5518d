//! What every step keeps: the graph stays well-formed, and grows by no more than what is put in.
use crate::context::Context;
use crate::dag_view::{
    all_declared_cost, all_used_cost, elements_cost, instances_cost, DagView,
};
use crate::graph::{has_edge, in_range, acyclic, reaches, Incoming};
use crate::symbol::{GenericMap, GenericSymbol, GenericSymbolPath, Namespace, Symbol};
use crate::symbol_table::TableView;
use crate::type_dag::TypeDagCandidate;
use vstd::prelude::*;

verus! {

/// Inserting an edge between nodes keeps the state well-formed.
pub proof fn lemma_with_edge_wf(view: DagView, start: u32, end: u32, context: Context)
    requires
        view.wf(),
        start < view.incoming.len(),
        end < view.incoming.len(),
        !reaches(view.incoming, end, start) ==> view.edge_count() < u32::MAX,
    ensures
        view.with_edge(start, end, context).wf(),
        view.with_edge(start, end, context).load() <= view.load() + 1,
{
    if !reaches(view.incoming, end, start) {
        crate::graph::lemma_with_edge(view.incoming, start, end, context);
        crate::graph::lemma_with_edge(view.outgoing, end, start, context);
        crate::graph::lemma_with_edge_acyclic(view.incoming, start, end, context);
        crate::graph::lemma_edge_total_update(
            view.incoming,
            end as int,
            seq![(start, context)] + view.incoming[end as int],
        );
    }
}

/// Inserting a dependency keeps the state well-formed.
pub proof fn lemma_with_dag_edge_wf(view: DagView, parent: u32, child: u32, context: Context)
    requires
        view.wf(),
        parent < view.incoming.len(),
        child < view.incoming.len(),
        !reaches(view.incoming, parent, child) ==> view.edge_count() < u32::MAX,
    ensures
        view.with_dag_edge(parent, child, context).wf(),
        view.with_dag_edge(parent, child, context).load() <= view.load() + 1,
{
    lemma_with_edge_wf(view, child, parent, context);
}

/// Taking edges out keeps the state well-formed.
pub proof fn lemma_without_edges_wf(view: DagView, start: u32, end: u32)
    requires
        view.wf(),
    ensures
        view.without_edges(start, end).wf(),
        view.without_edges(start, end).load() <= view.load(),
{
    crate::graph::lemma_without_edges(view.incoming, start, end);
    crate::graph::lemma_without_edges(view.outgoing, end, start);
    crate::graph::lemma_smaller_is_acyclic(
        view.without_edges(start, end).incoming,
        view.incoming,
    );
    if end < view.incoming.len() {
        let kept = view.incoming[end as int].filter(crate::graph::not_from(start));
        view.incoming[end as int].lemma_filter_len(crate::graph::not_from(start));
        crate::graph::lemma_edge_total_update(view.incoming, end as int, kept);
    }
}

/// Noting what owns what keeps the state well-formed.
pub proof fn lemma_with_owned_wf(view: DagView, parent: u32, child: u32)
    requires
        view.wf(),
    ensures
        view.with_owned(parent, child).wf(),
        view.with_owned(parent, child).load() <= view.load(),
{
    lemma_without_edges_wf(view, child, parent);
}

/// A node that was just added leads nowhere, so an edge to it from another node is accepted.
pub proof fn lemma_new_node(graph: Incoming, source: u32)
    requires
        in_range(graph),
        acyclic(graph),
        source < graph.len() < u32::MAX,
    ensures
        !reaches(graph.push(Seq::empty()), graph.len() as u32, source),
        in_range(graph.push(Seq::empty())),
        acyclic(graph.push(Seq::empty())),
        forall|a: u32, b: u32| #[trigger]
            has_edge(graph.push(Seq::empty()), a, b) <==> has_edge(graph, a, b),
{
    let node = graph.len() as u32;
    let after = graph.push(Seq::empty());
    lemma_push_empty(graph);
    crate::graph::lemma_smaller_is_acyclic(after, graph);
    if reaches(after, node, source) {
        let next = crate::graph::lemma_reaches_first_edge(after, node, source);
        assert(has_edge(graph, node, next));
    }
}

/// A node without edges adds no edge.
proof fn lemma_push_empty(graph: Incoming)
    ensures
        forall|a: u32, b: u32| #[trigger]
            has_edge(graph.push(Seq::empty()), a, b) <==> has_edge(graph, a, b),
{
    let after = graph.push(Seq::empty());
    assert forall|a: u32, b: u32| #[trigger] has_edge(after, a, b) <==> has_edge(graph, a, b) by {
        if b < graph.len() {
            assert(after[b as int] == graph[b as int]);
        }
    }
}

/// Inserting a node for a symbol keeps the state well-formed.
pub proof fn lemma_with_node_wf(view: DagView, symbol: Symbol, name: String)
    requires
        view.wf(),
        !view.nodes.contains_key(symbol.id.0) ==> view.load() < u32::MAX,
    ensures
        view.with_node(symbol, name).wf(),
        view.with_node(symbol, name).load() <= view.load() + 1,
        view.with_node(symbol, name).symbols.contains_key(view.node_of(symbol.id)),
        view.with_node(symbol, name).nodes.contains_key(symbol.id.0),
        view.with_node(symbol, name).nodes[symbol.id.0] == view.node_of(symbol.id),
{
    if !view.nodes.contains_key(symbol.id.0) {
        let node = view.incoming.len() as u32;
        let added = view.incoming.push(Seq::empty());
        let after = view.with_node(symbol, name);
        lemma_new_node(view.incoming, view.source);
        lemma_push_empty(view.outgoing);
        crate::graph::lemma_with_edge(
            view.outgoing.push(Seq::empty()),
            node,
            view.source,
            Context::Irrelevant,
        );
        crate::graph::lemma_with_edge(added, view.source, node, Context::Irrelevant);
        crate::graph::lemma_with_edge_acyclic(added, view.source, node, Context::Irrelevant);
        assert(after.incoming.drop_last() =~= view.incoming);
        assert(after.incoming =~~= crate::graph::with_edge(
            added,
            view.source,
            node,
            Context::Irrelevant,
        ));
        assert forall|n: u32| #[trigger] after.symbols.contains_key(n) implies after.nodes.contains_key(
            after.symbols[n].id.0,
        ) && after.nodes[after.symbols[n].id.0] == n && after.paths[n].symbol_id
            == after.symbols[n].id by {
            if n != node {
                assert(view.symbols.contains_key(n));
            }
        }
        assert forall|id: usize| #[trigger] after.nodes.contains_key(id) implies after.symbols.contains_key(
            after.nodes[id],
        ) && after.symbols[after.nodes[id]].id.0 == id by {
            if id != symbol.id.0 {
                assert(view.nodes.contains_key(id));
                assert(view.symbols.contains_key(view.nodes[id]));
            }
        }
        assert(after.paths.dom() =~= after.symbols.dom());
    }
}

/// Inserting a symbol keeps the state well-formed, and gives the symbol a node if its kind has one.
pub proof fn lemma_with_symbol_wf(view: DagView, table: TableView, symbol: Symbol)
    requires
        view.wf(),
        view.needs_node(symbol) ==> view.load() < u32::MAX,
        table.wf(),
        symbol.kind.is_dag_kind() ==> table.contains(symbol.id),
    ensures
        view.with_symbol(table, symbol).wf(),
        view.with_symbol(table, symbol).load() <= view.load() + 1,
        symbol.kind.is_dag_kind() ==> view.with_symbol(table, symbol).symbols.contains_key(
            view.node_of(symbol.id),
        ),
        symbol.kind.is_dag_kind() ==> view.with_symbol(table, symbol).nodes.contains_key(
            symbol.id.0,
        ),
        symbol.kind.is_dag_kind() ==> view.with_symbol(table, symbol).nodes[symbol.id.0]
            == view.node_of(symbol.id),
        forall|n: u32| #[trigger]
            view.symbols.contains_key(n) ==> view.with_symbol(table, symbol).symbols.contains_key(
                n,
            ),
        forall|id: usize| #[trigger]
            view.nodes.contains_key(id) ==> view.with_symbol(table, symbol).nodes.contains_key(id)
                && view.with_symbol(table, symbol).nodes[id] == view.nodes[id],
{
    if symbol.kind.is_dag_kind() {
        lemma_with_node_wf(view, table.symbol(symbol.id), symbol.token.text);
    }
}

/// Fewer elements of a path take no more insertions.
pub proof fn lemma_elements_cost_grows(elements: Seq<GenericSymbol>, i: nat, j: nat)
    requires
        i <= j,
    ensures
        elements_cost(elements, i) <= elements_cost(elements, j),
    decreases j,
{
    if i < j {
        lemma_elements_cost_grows(elements, i, (j - 1) as nat);
    }
}

/// Fewer assignments take no more insertions.
pub proof fn lemma_instances_cost_grows(
    table: TableView,
    path: GenericSymbolPath,
    namespace: Namespace,
    maps: Seq<GenericMap>,
    i: nat,
    j: nat,
)
    requires
        i <= j,
    ensures
        instances_cost(table, path, namespace, maps, i) <= instances_cost(
            table,
            path,
            namespace,
            maps,
            j,
        ),
    decreases j,
{
    if i < j {
        lemma_instances_cost_grows(table, path, namespace, maps, i, (j - 1) as nat);
    }
}

/// Fewer candidates take no more insertions.
pub proof fn lemma_candidates_cost_grows(
    table: TableView,
    candidates: Seq<TypeDagCandidate>,
    i: nat,
    j: nat,
)
    requires
        i <= j,
    ensures
        all_declared_cost(candidates, i) <= all_declared_cost(candidates, j),
        all_used_cost(table, candidates, i) <= all_used_cost(table, candidates, j),
    decreases j,
{
    if i < j {
        lemma_candidates_cost_grows(table, candidates, i, (j - 1) as nat);
    }
}

} // verus!
