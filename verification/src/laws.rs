//! What holds of the graph of dependencies as a whole.
use crate::context::Context;
use crate::dag_growth::{
    lemma_all_declared_grow, lemma_all_used_grow, lemma_grows_transitive, lemma_stays_declared,
};
use crate::dag_view::{
    all_declared_cost, all_used_cost, parent_declared, use_ends, user_of, DagView,
};
use crate::dfs::{component_order, lemma_component_found, lemma_component_order};
use crate::graph::{
    acyclic, has_edge, is_step, is_topological, is_walk, is_walk_between, lemma_with_edge,
    lemma_with_edge_acyclic, lemma_with_edge_cyclic, lemma_without_edges, reaches, Incoming,
};
use crate::symbol::{
    GenericMap, GenericSymbolPath, Namespace, Symbol, SymbolId, SymbolPath,
};
use crate::symbol_table::TableView;
use crate::type_dag::dump::{lemma_same_sort, lemma_same_text};
use crate::type_dag::{DagError, TypeDagCandidate};
use vstd::prelude::*;

verus! {

/// What is kept of a list stands in the order in which it stood there.
pub proof fn lemma_filter_order<A>(list: Seq<A>, keep: spec_fn(A) -> bool, i: int, j: int) -> (places: (
    int,
    int,
))
    requires
        0 <= i < j < list.filter(keep).len(),
    ensures
        0 <= places.0 < places.1 < list.len(),
        list[places.0] == list.filter(keep)[i],
        list[places.1] == list.filter(keep)[j],
    decreases list.len(),
{
    reveal(Seq::filter);
    let rest = list.drop_last();
    if j < rest.filter(keep).len() {
        lemma_filter_order(rest, keep, i, j)
    } else {
        rest.lemma_filter_contains_rev(keep, rest.filter(keep)[i]);
        (rest.index_of(rest.filter(keep)[i]), list.len() - 1)
    }
}

/// In a topological order, what can be reached from a node comes after it.
proof fn lemma_topological_walk(order: Seq<u32>, graph: Incoming, walk: Seq<u32>, i: int, j: int)
    requires
        is_topological(order, graph),
        is_walk(graph, walk),
        0 <= i < order.len(),
        0 <= j < order.len(),
        order[i] == walk[0],
        order[j] == walk.last(),
        walk.len() > 1,
    ensures
        i < j,
    decreases walk.len(),
{
    let front = walk.drop_last();
    assert(is_step(graph, walk, walk.len() - 2));
    assert(has_edge(graph, front.last(), order[j]));
    if walk.len() > 2 {
        assert forall|k: int| 0 <= k < front.len() - 1 implies #[trigger] is_step(
            graph,
            front,
            k,
        ) by {
            assert(is_step(graph, walk, k));
        }
        assert(is_step(graph, walk, walk.len() - 3));
        assert(front.last() < graph.len());
        assert(order.contains(front.last()));
        let k = order.index_of(front.last());
        lemma_topological_walk(order, graph, front, i, k);
        assert(has_edge(graph, order[k], order[j]));
    } else {
        assert(has_edge(graph, order[i], order[j]));
    }
}

/// The symbols in a topological order are all symbols of the graph, each once.
pub proof fn law_toposort_complete(dag: DagView, order: Seq<u32>)
    requires
        dag.wf(),
        is_topological(order, dag.incoming),
    ensures
        dag.symbols_of(order).no_duplicates(),
        forall|n: u32| #[trigger]
            dag.symbols.contains_key(n) ==> dag.symbols_of(order).contains(dag.symbols[n]),
        forall|i: int|
            0 <= i < dag.symbols_of(order).len() ==> {
                let symbol = #[trigger] dag.symbols_of(order)[i];
                dag.nodes.contains_key(symbol.id.0) && dag.symbols[dag.nodes[symbol.id.0]] == symbol
            },
{
    let keep = |n: u32| dag.paths.contains_key(n);
    let named = dag.named(order);
    let symbols = dag.symbols_of(order);
    assert forall|i: int| 0 <= i < named.len() implies dag.symbols.contains_key(
        #[trigger] named[i],
    ) by {
        order.lemma_filter_pred(keep, i);
        assert(dag.paths.dom().contains(named[i]));
    }
    assert forall|i: int, j: int| 0 <= i < j < symbols.len() implies symbols[i] != symbols[j] by {
        let (a, b) = lemma_filter_order(order, keep, i, j);
        assert(named[i] != named[j]);
        assert(dag.symbols.contains_key(named[i]) && dag.symbols.contains_key(named[j]));
    }
    assert forall|n: u32| #[trigger] dag.symbols.contains_key(n) implies symbols.contains(
        dag.symbols[n],
    ) by {
        assert(order.contains(n));
        assert(dag.paths.dom().contains(n));
        order.lemma_filter_contains(keep, order.index_of(n));
        let i = named.index_of(n);
        assert(symbols[i] == dag.symbols[n]);
    }
    assert forall|i: int| 0 <= i < symbols.len() implies {
        let symbol = #[trigger] symbols[i];
        dag.nodes.contains_key(symbol.id.0) && dag.symbols[dag.nodes[symbol.id.0]] == symbol
    } by {
        assert(dag.symbols.contains_key(named[i]));
    }
}

/// In a topological order, a symbol comes after all that it depends on, directly or over others.
pub proof fn law_toposort_sorted(dag: DagView, order: Seq<u32>, i: int, j: int)
    requires
        dag.wf(),
        is_topological(order, dag.incoming),
        0 <= i < dag.symbols_of(order).len(),
        0 <= j < dag.symbols_of(order).len(),
        i != j,
        reaches(
            dag.incoming,
            dag.nodes[dag.symbols_of(order)[i].id.0],
            dag.nodes[dag.symbols_of(order)[j].id.0],
        ),
    ensures
        i < j,
{
    let keep = |n: u32| dag.paths.contains_key(n);
    let named = dag.named(order);
    order.lemma_filter_pred(keep, i);
    order.lemma_filter_pred(keep, j);
    assert(dag.paths.dom().contains(named[i]) && dag.paths.dom().contains(named[j]));
    assert(dag.symbols.contains_key(named[i]) && dag.symbols.contains_key(named[j]));
    if j < i {
        let (b, a) = lemma_filter_order(order, keep, j, i);
        let walk = choose|walk: Seq<u32>| #[trigger]
            is_walk_between(dag.incoming, walk, named[i], named[j]);
        assert(order[a] != order[b]);
        lemma_topological_walk(order, dag.incoming, walk, a, b);
    }
}

/// The component of a symbol begins with the symbol, holds no symbol twice, and holds exactly the
/// symbols that it depends on, directly or over others.
pub proof fn law_component(dag: DagView, node: u32)
    requires
        dag.wf(),
        dag.symbols.contains_key(node),
    ensures
        dag.component(node).len() > 0,
        dag.component(node)[0] == dag.symbols[node],
        dag.component(node).no_duplicates(),
        forall|n: u32| #[trigger]
            dag.symbols.contains_key(n) ==> (dag.component(node).contains(dag.symbols[n])
                <==> reaches(dag.incoming, n, node)),
        forall|i: int|
            0 <= i < dag.component(node).len() ==> {
                let symbol = #[trigger] dag.component(node)[i];
                dag.nodes.contains_key(symbol.id.0) && dag.symbols[dag.nodes[symbol.id.0]] == symbol
            },
{
    let keep = |n: u32| dag.paths.contains_key(n);
    let order = component_order(dag.incoming, node);
    let named = dag.named(order);
    let symbols = dag.component(node);
    lemma_component_order(dag.incoming, node);
    assert(dag.paths.dom().contains(node));
    assert(named.len() > 0 && named[0] == node) by {
        let rest = order.drop_first();
        reveal(Seq::filter);
        assert(seq![node].drop_last() =~= Seq::empty());
        assert(seq![node].filter(keep) =~= seq![node]);
        assert(order =~= seq![node] + rest);
        Seq::filter_distributes_over_add(seq![node], rest, keep);
    }
    assert forall|i: int| 0 <= i < named.len() implies dag.symbols.contains_key(
        #[trigger] named[i],
    ) && order.contains(named[i]) by {
        order.lemma_filter_pred(keep, i);
        order.lemma_filter_contains_rev(keep, named[i]);
        assert(dag.paths.dom().contains(named[i]));
    }
    assert forall|i: int, j: int| 0 <= i < j < symbols.len() implies symbols[i] != symbols[j] by {
        let (a, b) = lemma_filter_order(order, keep, i, j);
        assert(named[i] != named[j]);
        assert(dag.symbols.contains_key(named[i]) && dag.symbols.contains_key(named[j]));
    }
    assert forall|n: u32| #[trigger] dag.symbols.contains_key(n) implies (symbols.contains(
        dag.symbols[n],
    ) <==> reaches(dag.incoming, n, node)) by {
        if reaches(dag.incoming, n, node) {
            assert(order.contains(n));
            assert(dag.paths.dom().contains(n));
            order.lemma_filter_contains(keep, order.index_of(n));
            let i = named.index_of(n);
            assert(symbols[i] == dag.symbols[n]);
        }
        if symbols.contains(dag.symbols[n]) {
            let i = symbols.index_of(dag.symbols[n]);
            assert(dag.symbols.contains_key(named[i]));
            assert(named[i] == n);
        }
    }
    assert forall|i: int| 0 <= i < symbols.len() implies {
        let symbol = #[trigger] symbols[i];
        dag.nodes.contains_key(symbol.id.0) && dag.symbols[dag.nodes[symbol.id.0]] == symbol
    } by {
        assert(dag.symbols.contains_key(named[i]));
    }
}

/// A dependency is inserted exactly where it closes no cycle; all other edges stay as they are. One
/// that would close a cycle leaves the graph unchanged and is noted as an error, unless a module,
/// an interface or a function uses itself.
pub proof fn law_dependency(dag: DagView, parent: u32, child: u32, context: Context)
    requires
        dag.wf(),
        dag.symbols.contains_key(parent),
        dag.symbols.contains_key(child),
    ensures
        acyclic(dag.with_dag_edge(parent, child, context).incoming),
        acyclic(crate::graph::with_edge(dag.incoming, child, parent, context)) ==> {
            let after = dag.with_dag_edge(parent, child, context);
            &&& after.errors == dag.errors
            &&& forall|a: u32, b: u32| #[trigger]
                has_edge(after.incoming, a, b) <==> has_edge(dag.incoming, a, b) || (a == child && b
                    == parent)
        },
        !acyclic(crate::graph::with_edge(dag.incoming, child, parent, context)) ==> {
            let after = dag.with_dag_edge(parent, child, context);
            &&& after.incoming == dag.incoming
            &&& after.errors == (if child == parent && (context is Module || context is Interface
                || context is Function) {
                dag.errors
            } else {
                dag.errors.push(DagError::Cyclic(dag.symbols[child], dag.symbols[parent]))
            })
        },
{
    lemma_with_edge(dag.incoming, child, parent, context);
    if reaches(dag.incoming, parent, child) {
        lemma_with_edge_cyclic(dag.incoming, child, parent, context);
    } else {
        lemma_with_edge_acyclic(dag.incoming, child, parent, context);
        if child == parent {
            crate::graph::lemma_reaches_itself(dag.incoming, parent);
        }
    }
}

/// A symbol that uses itself leaves the graph unchanged, and is an error unless it is used as a
/// module, an interface or a function.
pub proof fn law_self_use(dag: DagView, node: u32, context: Context)
    requires
        dag.wf(),
        dag.symbols.contains_key(node),
    ensures
        dag.with_dag_edge(node, node, context) == (if context is Module || context is Interface
            || context is Function {
            dag
        } else {
            DagView {
                errors: dag.errors.push(DagError::Cyclic(dag.symbols[node], dag.symbols[node])),
                ..dag
            }
        }),
{
    crate::graph::lemma_reaches_itself(dag.incoming, node);
}

/// Two symbols never depend on each other.
pub proof fn law_no_mutual_dependency(dag: DagView, a: u32, b: u32)
    requires
        dag.wf(),
        a != b,
    ensures
        !(reaches(dag.incoming, a, b) && reaches(dag.incoming, b, a)),
{
    if reaches(dag.incoming, a, b) && reaches(dag.incoming, b, a) {
        let next = crate::graph::lemma_reaches_first_edge(dag.incoming, a, b);
        crate::graph::lemma_reaches_transitive(dag.incoming, next, b, a);
    }
}

/// A symbol gets one node: inserting it again changes nothing.
pub proof fn law_symbol_once(dag: DagView, table: TableView, symbol: Symbol)
    requires
        table.wf(),
        symbol.kind.is_dag_kind() ==> table.contains(symbol.id),
    ensures
        dag.with_symbol(table, symbol).with_symbol(table, symbol) == dag.with_symbol(table, symbol),
        symbol.kind.is_dag_kind() ==> dag.with_symbol(table, symbol).node_of(symbol.id)
            == dag.node_of(symbol.id),
{
}

/// A symbol that has a node keeps it and the name with which it is shown, whatever name it is
/// inserted with again.
pub proof fn law_node_once(dag: DagView, symbol: Symbol, name: String, other: String)
    ensures
        dag.with_node(symbol, name).with_node(symbol, other) == dag.with_node(symbol, name),
        dag.with_node(symbol, name).node_of(symbol.id) == dag.node_of(symbol.id),
        !dag.nodes.contains_key(symbol.id.0) ==> dag.with_node(symbol, name).paths[dag.node_of(
            symbol.id,
        )].name == name,
{
}

/// Symbols and nodes are one-to-one: the nodes of symbols are all nodes but the source, no two
/// symbols have the same node, and what is known of a node is of the symbol whose node it is.
pub proof fn law_one_to_one(dag: DagView)
    requires
        dag.wf(),
    ensures
        forall|a: usize, b: usize|
            #![trigger dag.nodes[a], dag.nodes[b]]
            dag.nodes.contains_key(a) && dag.nodes.contains_key(b) && dag.nodes[a] == dag.nodes[b]
                ==> a == b,
        forall|n: u32| #[trigger]
            dag.symbols.contains_key(n) <==> exists|id: usize| #[trigger]
                dag.nodes.contains_key(id) && dag.nodes[id] == n,
        forall|n: u32| #[trigger]
            dag.symbols.contains_key(n) <==> n < dag.incoming.len() && n != dag.source,
        dag.paths.dom() == dag.symbols.dom(),
        forall|id: usize| #[trigger]
            dag.nodes.contains_key(id) ==> dag.symbols[dag.nodes[id]].id.0 == id
                && dag.paths[dag.nodes[id]].symbol_id.0 == id,
{
    assert forall|n: u32| #[trigger] dag.symbols.contains_key(n) implies exists|id: usize|
        #[trigger] dag.nodes.contains_key(id) && dag.nodes[id] == n by {
        assert(dag.nodes.contains_key(dag.symbols[n].id.0));
    }
    assert forall|a: usize, b: usize|
        #![trigger dag.nodes[a], dag.nodes[b]]
        dag.nodes.contains_key(a) && dag.nodes.contains_key(b) && dag.nodes[a]
            == dag.nodes[b] implies a == b by {
        assert(dag.symbols[dag.nodes[a]].id.0 == a);
        assert(dag.symbols[dag.nodes[b]].id.0 == b);
    }
}

/// A path that stands in a symbol is inserted once for each assignment with which the symbol is
/// used, in their order, and not at all where there is none.
pub proof fn law_path_per_assignment(
    dag: DagView,
    table: TableView,
    path: GenericSymbolPath,
    namespace: Namespace,
    parent: (SymbolId, Context),
)
    ensures
        dag.with_path(table, path, namespace, Some(parent))
            == table.entries[parent.0.0].generic_maps@.fold_left(
            dag,
            |before: DagView, map: GenericMap|
                before.with_instance(table, path, namespace, Some(parent), Some(map)),
        ),
        table.entries[parent.0.0].generic_maps@.len() == 0 ==> dag.with_path(
            table,
            path,
            namespace,
            Some(parent),
        ) == dag,
{
    let maps = table.entries[parent.0.0].generic_maps@;
    lemma_instances_fold(dag, table, path, namespace, parent, maps, maps.len());
    assert(maps.take(maps.len() as int) =~= maps);
}

proof fn lemma_instances_fold(
    dag: DagView,
    table: TableView,
    path: GenericSymbolPath,
    namespace: Namespace,
    parent: (SymbolId, Context),
    maps: Seq<GenericMap>,
    count: nat,
)
    requires
        count <= maps.len(),
    ensures
        dag.with_instances(table, path, namespace, Some(parent), maps, count) == maps.take(
            count as int,
        ).fold_left(
            dag,
            |before: DagView, map: GenericMap|
                before.with_instance(table, path, namespace, Some(parent), Some(map)),
        ),
    decreases count,
{
    if count > 0 {
        let k = (count - 1) as nat;
        lemma_instances_fold(dag, table, path, namespace, parent, maps, k);
        assert(maps.take(count as int).drop_last() =~= maps.take(k as int));
    }
}

/// What was only added changes no result: the topological order, the symbols in it, the text and
/// the components stay the same until it is applied.
pub proof fn law_add_inert(dag: DagView, candidate: TypeDagCandidate, nodes: Seq<u32>, node: u32)
    ensures
        ({
            let after = DagView { candidates: dag.candidates.push(candidate), ..dag };
            &&& after.order() == dag.order()
            &&& after.symbols_of(nodes) == dag.symbols_of(nodes)
            &&& after.component(node) == dag.component(node)
            &&& after.text(nodes) == dag.text(nodes)
            &&& forall|sorted: Seq<u32>| #[trigger]
                after.is_stable_sort(nodes, sorted) <==> dag.is_stable_sort(nodes, sorted)
        }),
{
    let after = DagView { candidates: dag.candidates.push(candidate), ..dag };
    lemma_same_symbols(after, dag, nodes);
    lemma_same_symbols(after, dag, component_order(dag.incoming, node));
    lemma_same_text(after, dag, nodes);
    assert forall|sorted: Seq<u32>| #[trigger] after.is_stable_sort(nodes, sorted)
        <==> dag.is_stable_sort(nodes, sorted) by {
        if after.is_stable_sort(nodes, sorted) {
            lemma_same_sort(after, dag, nodes, sorted);
        }
        if dag.is_stable_sort(nodes, sorted) {
            lemma_same_sort(dag, after, nodes, sorted);
        }
    }
}

proof fn lemma_same_symbols(a: DagView, b: DagView, nodes: Seq<u32>)
    requires
        a.paths == b.paths,
        a.symbols == b.symbols,
    ensures
        a.symbols_of(nodes) == b.symbols_of(nodes),
{
    assert((|n: u32| a.paths.contains_key(n)) =~= (|n: u32| b.paths.contains_key(n)));
    assert(a.symbols_of(nodes) =~= b.symbols_of(nodes));
}

/// Applying a second time, with nothing added since, reports nothing and changes nothing.
pub proof fn law_apply_again(dag: DagView, table: TableView, later: TableView)
    requires
        dag.wf(),
        dag.applicable(table),
        later.wf(),
    ensures
        ({
            let once = DagView { errors: Seq::empty(), ..dag.applied(table) };
            &&& once.applicable(later)
            &&& once.applied(later) == once
            &&& once.applied(later).errors.len() == 0
        }),
{
    let once = DagView { errors: Seq::empty(), ..dag.applied(table) };
    law_apply_grows(dag, table);
    law_apply_nothing(once, later);
}

/// Of a graph in which nothing was put, as it is when it is new and after it was cleared, there are
/// no symbols, no components and no text.
pub proof fn law_empty(order: Seq<u32>, sorted: Seq<u32>, keys: Seq<u32>, components: Seq<Vec<Symbol>>)
    requires
        is_topological(order, DagView::empty().incoming),
        DagView::empty().is_stable_sort(order, sorted),
        DagView::empty().are_components(keys, components),
    ensures
        DagView::empty().symbols_of(order).len() == 0,
        DagView::empty().text(sorted).len() == 0,
        components.len() == 0,
{
    let dag = DagView::empty();
    let keep = |n: u32| dag.paths.contains_key(n);
    if dag.named(order).len() > 0 {
        order.lemma_filter_pred(keep, 0);
    }
    lemma_no_lines(dag, sorted, sorted.len(), dag.width(sorted, sorted.len()));
    if keys.len() > 0 {
        assert(keys.contains(keys[0]));
        assert(keys.to_set().contains(keys[0]));
    }
}

proof fn lemma_no_lines(dag: DagView, nodes: Seq<u32>, count: nat, width: nat)
    requires
        dag.paths == (Map::<u32, crate::type_dag::TypeResolveInfo>::empty()),
    ensures
        dag.lines(nodes, count, width).len() == 0,
    decreases count,
{
    if count > 0 {
        lemma_no_lines(dag, nodes, (count - 1) as nat, width);
    }
}

/// After a symbol was noted as declared in another, the other no longer depends on it directly; no
/// other edge is touched.
pub proof fn law_owned(dag: DagView, parent: u32, child: u32)
    ensures
        dag.with_owned(parent, child).is_owned(parent, child),
        forall|a: u32, b: u32| #[trigger]
            has_edge(dag.with_owned(parent, child).incoming, a, b) <==> has_edge(
                dag.incoming,
                a,
                b,
            ) && !(a == child && b == parent),
        forall|p: u32, c: u32| #[trigger]
            dag.with_owned(parent, child).is_owned(p, c) <==> dag.is_owned(p, c) || (p == parent
                && c == child),
{
    let after = dag.with_owned(parent, child);
    let children = after.owned[parent];
    lemma_without_edges(dag.incoming, child, parent);
    assert(children.last() == child);
    assert forall|p: u32, c: u32| #[trigger] after.is_owned(p, c) <==> dag.is_owned(p, c) || (p
        == parent && c == child) by {
        if p == parent {
            if dag.is_owned(p, c) {
                let i = dag.owned[p].index_of(c);
                assert(children[i] == c);
            }
            if children.contains(c) && c != child {
                let i = children.index_of(c);
                assert(dag.owned[p][i] == c);
            }
        }
    }
}

/// The use of a symbol in the symbol that owns it is no dependency.
pub proof fn law_owned_use(
    dag: DagView,
    table: TableView,
    base: Symbol,
    parent: (SymbolId, Context),
)
    requires
        dag.wf(),
        table.wf(),
        table.contains(parent.0),
        dag.owns(user_of(table, base, parent).0.id, base.id),
    ensures
        dag.with_base_used(table, base, Some(parent)) == dag,
{
    if let Some(package) = table.entries[parent.0.0].parent_package {
        assert(table.contains(package));
    }
}

/// Applying what was added keeps the graph free of cycles and takes no symbol, no owner and no error
/// away, and a dependency only where it is one on what the symbol owns.
pub proof fn law_apply_grows(dag: DagView, table: TableView)
    requires
        dag.wf(),
        dag.applicable(table),
    ensures
        dag.applied(table).wf(),
        (DagView { candidates: Seq::empty(), ..dag }).grows_to(dag.applied(table)),
{
    lemma_apply(dag, table);
}

/// Applying deals with all that was added: a declared symbol is owned by the symbol in which it was
/// declared, and every dependency that comes of a declaration or of a use is in the graph, or is
/// one on what the symbol owns, or is a symbol that may use itself, or is noted as an error.
pub proof fn law_apply_complete(dag: DagView, table: TableView)
    requires
        dag.wf(),
        dag.applicable(table),
    ensures
        forall|i: int|
            0 <= i < dag.candidates.len() ==> dag.applied(table).declares(
                table,
                #[trigger] dag.candidates[i],
            ) && dag.applied(table).uses(table, dag.candidates[i]),
{
    lemma_apply(dag, table);
}

proof fn lemma_apply(dag: DagView, table: TableView)
    requires
        dag.wf(),
        dag.applicable(table),
    ensures
        dag.applied(table).wf(),
        (DagView { candidates: Seq::empty(), ..dag }).grows_to(dag.applied(table)),
        forall|i: int|
            0 <= i < dag.candidates.len() ==> dag.applied(table).declares(
                table,
                #[trigger] dag.candidates[i],
            ) && dag.applied(table).uses(table, dag.candidates[i]),
{
    let candidates = dag.candidates;
    let taken = DagView { candidates: Seq::empty(), ..dag };
    let declared = taken.with_all_declared(table, candidates, candidates.len());
    let after = dag.applied(table);
    lemma_all_declared_grow(taken, table, candidates, candidates.len());
    lemma_all_used_grow(declared, table, candidates, candidates.len());
    lemma_grows_transitive(taken, declared, after);
    assert forall|i: int| 0 <= i < candidates.len() implies after.declares(
        table,
        #[trigger] candidates[i],
    ) && after.uses(table, candidates[i]) by {
        lemma_stays_declared(declared, after, table, candidates[i]);
    }
}

/// Applying when nothing was added changes nothing.
pub proof fn law_apply_nothing(dag: DagView, table: TableView)
    requires
        dag.candidates.len() == 0,
    ensures
        dag.applied(table) == dag,
{
    assert(dag.applied(table) =~= dag);
}

/// The declarations among candidates.
pub open spec fn declarations(candidates: Seq<TypeDagCandidate>) -> Seq<TypeDagCandidate> {
    candidates.filter(|candidate: TypeDagCandidate| candidate is Symbol)
}

/// The uses of paths among candidates.
pub open spec fn path_uses(candidates: Seq<TypeDagCandidate>) -> Seq<TypeDagCandidate> {
    candidates.filter(|candidate: TypeDagCandidate| candidate is Path)
}

/// Whether a use is added before or after a declaration makes no difference: what comes of applying
/// depends on the declarations in their order and on the uses in theirs, and so does whether it can be
/// applied.
pub proof fn law_apply_order(a: DagView, b: DagView, table: TableView)
    requires
        a == (DagView { candidates: a.candidates, ..b }),
        declarations(a.candidates) == declarations(b.candidates),
        path_uses(a.candidates) == path_uses(b.candidates),
    ensures
        a.applied(table) == b.applied(table),
        a.applicable(table) <==> b.applicable(table),
{
    if a.applicable(table) {
        lemma_same_applicable(a, b, table);
    }
    if b.applicable(table) {
        lemma_same_applicable(b, a, table);
    }
    let taken = DagView { candidates: Seq::empty(), ..a };
    lemma_declarations(taken, table, a.candidates, a.candidates.len());
    lemma_declarations(taken, table, b.candidates, b.candidates.len());
    assert(a.candidates.take(a.candidates.len() as int) =~= a.candidates);
    assert(b.candidates.take(b.candidates.len() as int) =~= b.candidates);
    let declared = taken.with_all_declared(table, a.candidates, a.candidates.len());
    lemma_path_uses(declared, table, a.candidates, a.candidates.len());
    lemma_path_uses(declared, table, b.candidates, b.candidates.len());
}

proof fn lemma_same_applicable(a: DagView, b: DagView, table: TableView)
    requires
        a == (DagView { candidates: a.candidates, ..b }),
        declarations(a.candidates) == declarations(b.candidates),
        path_uses(a.candidates) == path_uses(b.candidates),
        a.applicable(table),
    ensures
        b.applicable(table),
{
    let is_symbol = |candidate: TypeDagCandidate| candidate is Symbol;
    let is_path = |candidate: TypeDagCandidate| candidate is Path;
    assert forall|i: int| 0 <= i < b.candidates.len() implies parent_declared(
        table,
        #[trigger] b.candidates[i],
    ) && use_ends(table, b.candidates[i]) by {
        let candidate = b.candidates[i];
        if candidate is Symbol {
            b.candidates.lemma_filter_contains(is_symbol, i);
            a.candidates.lemma_filter_contains_rev(is_symbol, candidate);
        } else {
            b.candidates.lemma_filter_contains(is_path, i);
            a.candidates.lemma_filter_contains_rev(is_path, candidate);
        }
        let j = a.candidates.index_of(candidate);
        assert(a.candidates[j] == candidate);
    }
    lemma_declarations_cost(a.candidates, a.candidates.len());
    lemma_declarations_cost(b.candidates, b.candidates.len());
    lemma_path_uses_cost(table, a.candidates, a.candidates.len());
    lemma_path_uses_cost(table, b.candidates, b.candidates.len());
    assert(a.candidates.take(a.candidates.len() as int) =~= a.candidates);
    assert(b.candidates.take(b.candidates.len() as int) =~= b.candidates);
}

proof fn lemma_declarations_cost(candidates: Seq<TypeDagCandidate>, count: nat)
    requires
        count <= candidates.len(),
    ensures
        ({
            let chosen = declarations(candidates.take(count as int));
            all_declared_cost(candidates, count) == all_declared_cost(chosen, chosen.len())
        }),
    decreases count,
{
    reveal(Seq::filter);
    if count > 0 {
        let k = (count - 1) as nat;
        lemma_declarations_cost(candidates, k);
        let last = candidates[k as int];
        let before = declarations(candidates.take(k as int));
        assert(candidates.take(count as int).drop_last() =~= candidates.take(k as int));
        if last is Symbol {
            lemma_declared_cost_prefix(before, before.push(last), before.len());
        }
    }
}

proof fn lemma_declared_cost_prefix(
    a: Seq<TypeDagCandidate>,
    b: Seq<TypeDagCandidate>,
    count: nat,
)
    requires
        count <= a.len(),
        count <= b.len(),
        forall|i: int| 0 <= i < count ==> a[i] == b[i],
    ensures
        all_declared_cost(a, count) == all_declared_cost(b, count),
    decreases count,
{
    if count > 0 {
        lemma_declared_cost_prefix(a, b, (count - 1) as nat);
    }
}

proof fn lemma_path_uses_cost(table: TableView, candidates: Seq<TypeDagCandidate>, count: nat)
    requires
        count <= candidates.len(),
    ensures
        ({
            let chosen = path_uses(candidates.take(count as int));
            all_used_cost(table, candidates, count) == all_used_cost(table, chosen, chosen.len())
        }),
    decreases count,
{
    reveal(Seq::filter);
    if count > 0 {
        let k = (count - 1) as nat;
        lemma_path_uses_cost(table, candidates, k);
        let last = candidates[k as int];
        let before = path_uses(candidates.take(k as int));
        assert(candidates.take(count as int).drop_last() =~= candidates.take(k as int));
        if last is Path {
            lemma_used_cost_prefix(table, before, before.push(last), before.len());
        }
    }
}

proof fn lemma_used_cost_prefix(
    table: TableView,
    a: Seq<TypeDagCandidate>,
    b: Seq<TypeDagCandidate>,
    count: nat,
)
    requires
        count <= a.len(),
        count <= b.len(),
        forall|i: int| 0 <= i < count ==> a[i] == b[i],
    ensures
        all_used_cost(table, a, count) == all_used_cost(table, b, count),
    decreases count,
{
    if count > 0 {
        lemma_used_cost_prefix(table, a, b, (count - 1) as nat);
    }
}

proof fn lemma_declarations(
    dag: DagView,
    table: TableView,
    candidates: Seq<TypeDagCandidate>,
    count: nat,
)
    requires
        count <= candidates.len(),
    ensures
        ({
            let chosen = declarations(candidates.take(count as int));
            dag.with_all_declared(table, candidates, count) == dag.with_all_declared(
                table,
                chosen,
                chosen.len(),
            )
        }),
    decreases count,
{
    reveal(Seq::filter);
    if count > 0 {
        let k = (count - 1) as nat;
        lemma_declarations(dag, table, candidates, k);
        let last = candidates[k as int];
        let before = declarations(candidates.take(k as int));
        assert(candidates.take(count as int).drop_last() =~= candidates.take(k as int));
        if last is Symbol {
            lemma_declared_prefix(dag, table, before, before.push(last), before.len());
        }
    }
}

proof fn lemma_declared_prefix(
    dag: DagView,
    table: TableView,
    a: Seq<TypeDagCandidate>,
    b: Seq<TypeDagCandidate>,
    count: nat,
)
    requires
        count <= a.len(),
        count <= b.len(),
        forall|i: int| 0 <= i < count ==> a[i] == b[i],
    ensures
        dag.with_all_declared(table, a, count) == dag.with_all_declared(table, b, count),
    decreases count,
{
    if count > 0 {
        lemma_declared_prefix(dag, table, a, b, (count - 1) as nat);
    }
}

proof fn lemma_path_uses(
    dag: DagView,
    table: TableView,
    candidates: Seq<TypeDagCandidate>,
    count: nat,
)
    requires
        count <= candidates.len(),
    ensures
        ({
            let chosen = path_uses(candidates.take(count as int));
            dag.with_all_used(table, candidates, count) == dag.with_all_used(
                table,
                chosen,
                chosen.len(),
            )
        }),
    decreases count,
{
    reveal(Seq::filter);
    if count > 0 {
        let k = (count - 1) as nat;
        lemma_path_uses(dag, table, candidates, k);
        let last = candidates[k as int];
        let before = path_uses(candidates.take(k as int));
        assert(candidates.take(count as int).drop_last() =~= candidates.take(k as int));
        if last is Path {
            lemma_used_prefix(dag, table, before, before.push(last), before.len());
        }
    }
}

proof fn lemma_used_prefix(
    dag: DagView,
    table: TableView,
    a: Seq<TypeDagCandidate>,
    b: Seq<TypeDagCandidate>,
    count: nat,
)
    requires
        count <= a.len(),
        count <= b.len(),
        forall|i: int| 0 <= i < count ==> a[i] == b[i],
    ensures
        dag.with_all_used(table, a, count) == dag.with_all_used(table, b, count),
    decreases count,
{
    if count > 0 {
        lemma_used_prefix(dag, table, a, b, (count - 1) as nat);
    }
}

/// A path stands for the symbol that it refers to, or for its package. A path that refers to an
/// alias stands for what the path behind the alias stands for, or for the package of that.
pub proof fn law_target(table: TableView, path: SymbolPath, namespace: Namespace)
    requires
        table.wf(),
        table.chain_ends(path, namespace),
    ensures
        table.target(path, namespace) == (match table.resolve(path, namespace) {
            None => None,
            Some(id) => match table.entries[id.0].alias_target {
                None => Some(table.package_or_self(table.symbol(id))),
                Some(target) => match table.target(target, table.symbol(id).namespace) {
                    None => None,
                    Some(symbol) => Some(table.package_or_self(symbol)),
                },
            },
        }),
{
    let fuel = choose|fuel: nat| #[trigger] table.ends_within(path, namespace, fuel);
    if let Some(id) = table.resolve(path, namespace) {
        if let Some(target) = table.entries[id.0].alias_target {
            let next = table.symbol(id).namespace;
            assert(table.ends_within(target, next, (fuel - 1) as nat));
            let enough = choose|enough: nat| #[trigger] table.ends_within(target, next, enough);
            table.lemma_fuel(target, next, (fuel - 1) as nat, enough);
        }
    }
}

/// A dependency that is inserted comes first among the edges that lead to its user and among those
/// that come from what is used; all other lists, and the order of the others in these, stay.
pub proof fn law_dependency_first(dag: DagView, parent: u32, child: u32, context: Context)
    requires
        dag.wf(),
        dag.symbols.contains_key(parent),
        dag.symbols.contains_key(child),
        !reaches(dag.incoming, parent, child),
    ensures
        ({
            let after = dag.with_dag_edge(parent, child, context);
            &&& after.incoming.len() == dag.incoming.len()
            &&& after.outgoing.len() == dag.outgoing.len()
            &&& after.incoming[parent as int][0] == (child, context)
            &&& after.incoming[parent as int].skip(1) == dag.incoming[parent as int]
            &&& after.outgoing[child as int][0] == (parent, context)
            &&& after.outgoing[child as int].skip(1) == dag.outgoing[child as int]
            &&& forall|n: int|
                0 <= n < dag.incoming.len() && n != parent ==> #[trigger] after.incoming[n]
                    == dag.incoming[n]
            &&& forall|n: int|
                0 <= n < dag.outgoing.len() && n != child ==> #[trigger] after.outgoing[n]
                    == dag.outgoing[n]
            &&& after.nodes == dag.nodes && after.symbols == dag.symbols && after.paths == dag.paths
            &&& after.owned == dag.owned && after.candidates == dag.candidates
        }),
{
    let after = dag.with_dag_edge(parent, child, context);
    assert(after.incoming[parent as int].skip(1) =~= dag.incoming[parent as int]);
    assert(after.outgoing[child as int].skip(1) =~= dag.outgoing[child as int]);
}

/// A symbol that has no node gets the next number as its node. It is shown with the name with which
/// it was inserted and with its own token, an edge leads to it from the source, and none comes
/// from it. Nothing else is touched.
pub proof fn law_new_node(dag: DagView, symbol: Symbol, name: String)
    requires
        dag.wf(),
        dag.load() < u32::MAX,
        !dag.nodes.contains_key(symbol.id.0),
    ensures
        ({
            let after = dag.with_node(symbol, name);
            let node = dag.incoming.len() as u32;
            &&& node == dag.incoming.len()
            &&& after.incoming.len() == dag.incoming.len() + 1
            &&& after.nodes.contains_key(symbol.id.0) && after.nodes[symbol.id.0] == node
            &&& after.symbols.contains_key(node) && after.symbols[node] == symbol
            &&& after.paths.contains_key(node) && after.paths[node].name == name
            &&& after.paths[node].token == symbol.token && after.paths[node].symbol_id == symbol.id
            &&& forall|a: u32, b: u32| #[trigger]
                has_edge(after.incoming, a, b) <==> has_edge(dag.incoming, a, b) || (a == dag.source
                    && b == node)
            &&& forall|id: usize|
                id != symbol.id.0 ==> (#[trigger] after.nodes.contains_key(id)
                    <==> dag.nodes.contains_key(id))
            &&& after.errors == dag.errors && after.owned == dag.owned && after.source == dag.source
        }),
{
    let after = dag.with_node(symbol, name);
    let node = dag.incoming.len() as u32;
    assert(after.incoming[node as int][0].0 == dag.source);
    assert forall|a: u32, b: u32| #[trigger] has_edge(after.incoming, a, b) <==> has_edge(
        dag.incoming,
        a,
        b,
    ) || (a == dag.source && b == node) by {
        if b < dag.incoming.len() {
            assert(after.incoming[b as int] == dag.incoming[b as int]);
        }
    }
}

/// A symbol is shown by the text of its token, and what is kept of it is what the table holds. A
/// symbol of a kind without nodes changes nothing.
pub proof fn law_symbol_shown(dag: DagView, table: TableView, symbol: Symbol)
    requires
        dag.wf(),
        dag.load() < u32::MAX,
        table.wf(),
        table.contains(symbol.id),
        !dag.nodes.contains_key(symbol.id.0),
    ensures
        symbol.kind.is_dag_kind() ==> ({
            let after = dag.with_symbol(table, symbol);
            let node = after.nodes[symbol.id.0];
            &&& after.nodes.contains_key(symbol.id.0)
            &&& after.paths[node].name == symbol.token.text
            &&& after.symbols[node] == table.symbol(symbol.id)
        }),
        !symbol.kind.is_dag_kind() ==> dag.with_symbol(table, symbol) == dag,
{
}

/// There is exactly one component for each symbol, which begins with it. It holds no symbol twice, and
/// another exactly where the first depends on it, directly or over others.
pub proof fn law_components(
    dag: DagView,
    keys: Seq<u32>,
    components: Seq<Vec<Symbol>>,
    n: u32,
) -> (place: int)
    requires
        dag.wf(),
        dag.are_components(keys, components),
        dag.symbols.contains_key(n),
    ensures
        0 <= place < components.len(),
        components[place]@.len() > 0,
        components[place]@[0] == dag.symbols[n],
        components[place]@.no_duplicates(),
        forall|m: u32| #[trigger]
            dag.symbols.contains_key(m) ==> (components[place]@.contains(dag.symbols[m]) <==> reaches(
                dag.incoming,
                m,
                n,
            )),
        forall|i: int|
            0 <= i < components.len() && i != place ==> (#[trigger] components[i])@[0]
                != dag.symbols[n],
        forall|i: int|
            0 <= i < components.len() ==> (#[trigger] components[i])@.len() > 0
                && dag.nodes.contains_key(components[i]@[0].id.0),
{
    assert(keys.to_set().contains(n));
    let place = keys.index_of(n);
    law_component(dag, n);
    assert(components[place]@ == dag.component(keys[place]));
    assert forall|i: int| 0 <= i < components.len() implies (#[trigger] components[i])@.len() > 0
        && dag.nodes.contains_key(components[i]@[0].id.0) && (i != place ==> components[i]@[0]
        != dag.symbols[n]) by {
        assert(keys.contains(keys[i]));
        assert(keys.to_set().contains(keys[i]));
        assert(dag.symbols.contains_key(keys[i]));
        law_component(dag, keys[i]);
        assert(components[i]@ == dag.component(keys[i]));
        if i != place {
            assert(keys[i] != keys[place]);
        }
    }
    place
}

/// An edge is accepted exactly where the graph stays free of cycles with it, or where a symbol uses
/// itself as a module, an interface or a function. It is refused with the symbols of both nodes,
/// and then, as for a symbol that uses itself, nothing changes.
pub proof fn law_edge(dag: DagView, start: u32, end: u32, context: Context)
    requires
        dag.wf(),
        start < dag.incoming.len(),
        end < dag.incoming.len(),
    ensures
        ({
            let closes = !acyclic(crate::graph::with_edge(dag.incoming, start, end, context));
            let itself = start == end && (context is Module || context is Interface
                || context is Function);
            let after = dag.with_edge(start, end, context);
            &&& dag.edge_outcome(start, end, context) is Ok <==> !closes || itself
            &&& dag.edge_outcome(start, end, context) matches Err(error) ==> error
                == DagError::Cyclic(dag.symbols[start], dag.symbols[end])
            &&& closes ==> after == dag
            &&& !closes ==> (forall|a: u32, b: u32| #[trigger]
                has_edge(after.incoming, a, b) <==> has_edge(dag.incoming, a, b) || (a == start && b
                    == end))
            &&& after.errors == dag.errors
        }),
{
    lemma_with_edge(dag.incoming, start, end, context);
    if reaches(dag.incoming, end, start) {
        lemma_with_edge_cyclic(dag.incoming, start, end, context);
    } else {
        lemma_with_edge_acyclic(dag.incoming, start, end, context);
        if start == end {
            crate::graph::lemma_reaches_itself(dag.incoming, end);
        }
    }
}

/// Taking the edges between two nodes out takes out all of them and no other, and leaves the others
/// in their order.
pub proof fn law_edges_removed(dag: DagView, start: u32, end: u32)
    requires
        dag.wf(),
        start < dag.incoming.len(),
        end < dag.incoming.len(),
    ensures
        ({
            let after = dag.without_edges(start, end);
            &&& !has_edge(after.incoming, start, end)
            &&& forall|a: u32, b: u32|
                a != start || b != end ==> (#[trigger] has_edge(after.incoming, a, b) <==> has_edge(
                    dag.incoming,
                    a,
                    b,
                ))
            &&& after.incoming[end as int] == dag.incoming[end as int].filter(
                |edge: (u32, Context)| edge.0 != start,
            )
            &&& after.outgoing[start as int] == dag.outgoing[start as int].filter(
                |edge: (u32, Context)| edge.0 != end,
            )
            &&& forall|n: int|
                0 <= n < dag.incoming.len() && n != end ==> #[trigger] after.incoming[n]
                    == dag.incoming[n]
            &&& forall|n: int|
                0 <= n < dag.outgoing.len() && n != start ==> #[trigger] after.outgoing[n]
                    == dag.outgoing[n]
        }),
{
    lemma_without_edges(dag.incoming, start, end);
    assert((|edge: (u32, Context)| edge.0 != start) =~= crate::graph::not_from(start));
    assert((|edge: (u32, Context)| edge.0 != end) =~= crate::graph::not_from(end));
}

/// The symbols in an order of nodes stand in the order in which their nodes stand in it.
pub proof fn law_symbols_in_order(dag: DagView, order: Seq<u32>, i: int, j: int) -> (places: (int, int))
    requires
        dag.wf(),
        0 <= i < j < dag.symbols_of(order).len(),
    ensures
        0 <= places.0 < places.1 < order.len(),
        dag.symbols.contains_key(order[places.0]),
        dag.symbols.contains_key(order[places.1]),
        dag.symbols[order[places.0]] == dag.symbols_of(order)[i],
        dag.symbols[order[places.1]] == dag.symbols_of(order)[j],
{
    let keep = |n: u32| dag.paths.contains_key(n);
    let (a, b) = lemma_filter_order(order, keep, i, j);
    order.lemma_filter_pred(keep, i);
    order.lemma_filter_pred(keep, j);
    assert(dag.paths.dom().contains(order[a]) && dag.paths.dom().contains(order[b]));
    (a, b)
}

/// Every symbol in a component but the first is one on which an earlier one depends directly, where
/// no edge leads to the source.
pub proof fn law_component_found(dag: DagView, node: u32, i: int) -> (j: int)
    requires
        dag.wf(),
        dag.symbols.contains_key(node),
        0 < i < dag.component(node).len(),
        forall|a: u32| !#[trigger] has_edge(dag.incoming, a, dag.source),
    ensures
        0 <= j < i,
        has_edge(
            dag.incoming,
            dag.nodes[dag.component(node)[i].id.0],
            dag.nodes[dag.component(node)[j].id.0],
        ),
{
    let keep = |n: u32| dag.paths.contains_key(n);
    let order = component_order(dag.incoming, node);
    let named = dag.named(order);
    lemma_component_order(dag.incoming, node);
    law_component(dag, node);
    order.lemma_filter_pred(keep, i);
    assert(dag.paths.dom().contains(named[i]));
    assert(dag.symbols.contains_key(named[i]));
    order.lemma_filter_contains_rev(keep, named[i]);
    assert(dag.component(node)[0] == dag.symbols[named[0]]);
    order.lemma_filter_pred(keep, 0);
    assert(dag.paths.dom().contains(named[0]));
    let (first, place) = lemma_filter_order(order, keep, 0, i);
    let before = lemma_component_found(dag.incoming, node, place);
    let found = order[before];
    assert(has_edge(dag.incoming, named[i], found));
    assert(order.contains(found));
    assert(found != dag.source);
    assert(dag.symbols.contains_key(found));
    assert(dag.symbols.dom().contains(found));
    let j = lemma_filter_place(order, keep, before, place);
    // Places in the order and in what is kept of it go together.
    if j.1 != i {
        assert(named[j.1] == named[i]);
        lemma_named_once(order, keep, j.1, i);
    }
    j.0
}

/// Two places of a list that are kept, one after the other, have places in what is kept, one after the
/// other.
pub proof fn lemma_filter_place<A>(list: Seq<A>, keep: spec_fn(A) -> bool, i: int, j: int) -> (places:
    (int, int))
    requires
        0 <= i < j < list.len(),
        keep(list[i]),
        keep(list[j]),
    ensures
        0 <= places.0 < places.1 < list.filter(keep).len(),
        list.filter(keep)[places.0] == list[i],
        list.filter(keep)[places.1] == list[j],
    decreases list.len(),
{
    reveal(Seq::filter);
    let rest = list.drop_last();
    if j < rest.len() {
        lemma_filter_place(rest, keep, i, j)
    } else {
        rest.lemma_filter_contains(keep, i);
        (rest.filter(keep).index_of(list[i]), rest.filter(keep).len() as int)
    }
}

proof fn lemma_named_once(list: Seq<u32>, keep: spec_fn(u32) -> bool, i: int, j: int)
    requires
        list.no_duplicates(),
        0 <= i < list.filter(keep).len(),
        0 <= j < list.filter(keep).len(),
        list.filter(keep)[i] == list.filter(keep)[j],
    ensures
        i == j,
{
    if i < j {
        let (a, b) = lemma_filter_order(list, keep, i, j);
    } else if j < i {
        let (a, b) = lemma_filter_order(list, keep, j, i);
    }
}

} // verus!
