//! When candidates can be applied.
use crate::dag_view::{
    all_declared_cost, all_used_cost, elements_cost, instance_elements, instances_cost, use_ends,
    used_cost, DagView,
};
use crate::requests::{assigned_elements, plain_elements};
use crate::symbol::{GenericMap, GenericSymbol, GenericSymbolPath, Namespace, SymbolPath};
use crate::symbol_table::TableView;
use crate::type_dag::TypeDagCandidate;
use vstd::prelude::*;

verus! {

/// The symbol in which a candidate stands is declared. Nothing is asked of the declaration of a symbol
/// that is not known or not a node.
pub open spec fn stands_in_declared(table: TableView, candidate: TypeDagCandidate) -> bool {
    match candidate {
        TypeDagCandidate::Path { parent: Some((parent, _)), .. } => table.contains(parent),
        TypeDagCandidate::Symbol { id, parent: Some((parent, _)), .. } => table.contains(parent)
            || !table.contains(id) || !table.symbol(id).kind.is_dag_kind(),
        _ => true,
    }
}

/// A candidate has at most so many imports, its path stands in a symbol with at most so many
/// assignments, and comes under each to at most so many elements with so many generic arguments.
pub open spec fn is_small(
    table: TableView,
    candidate: TypeDagCandidate,
    imports: nat,
    maps: nat,
    elements: nat,
    arguments: nat,
) -> bool {
    match candidate {
        TypeDagCandidate::Symbol { import, .. } => import@.len() <= imports,
        TypeDagCandidate::Path { path, namespace, parent: Some((parent, _)) } => {
            let list = table.entries[parent.0].generic_maps@;
            &&& list.len() <= maps
            &&& forall|m: int|
                0 <= m < list.len() ==> are_small(
                    assigned_elements(table, path, namespace, #[trigger] list[m]),
                    elements,
                    arguments,
                )
        },
        TypeDagCandidate::Path { path, namespace, parent: None } => are_small(
            plain_elements(table, path, namespace),
            elements,
            arguments,
        ),
    }
}

/// There are at most so many elements, with at most so many generic arguments each.
pub open spec fn are_small(list: Seq<GenericSymbol>, elements: nat, arguments: nat) -> bool {
    &&& list.len() <= elements
    &&& forall|i: int| 0 <= i < list.len() ==> (#[trigger] list[i]).arguments@.len() <= arguments
}

proof fn lemma_elements_small(list: Seq<GenericSymbol>, count: nat, arguments: nat)
    requires
        count <= list.len(),
        forall|i: int| 0 <= i < list.len() ==> (#[trigger] list[i]).arguments@.len() <= arguments,
    ensures
        elements_cost(list, count) <= count * (3 + 2 * arguments),
    decreases count,
{
    if count > 0 {
        lemma_elements_small(list, (count - 1) as nat, arguments);
        assert(list[count - 1].arguments@.len() <= arguments);
        assert(count * (3 + 2 * arguments) == (count - 1) * (3 + 2 * arguments) + (3 + 2
            * arguments)) by (nonlinear_arith);
    }
}

proof fn lemma_list_small(list: Seq<GenericSymbol>, elements: nat, arguments: nat)
    requires
        are_small(list, elements, arguments),
    ensures
        elements_cost(list, list.len()) <= elements * (3 + 2 * arguments),
{
    lemma_elements_small(list, list.len(), arguments);
    assert(list.len() * (3 + 2 * arguments) <= elements * (3 + 2 * arguments)) by (nonlinear_arith)
        requires
            list.len() <= elements,
    ;
}

proof fn lemma_instances_small(
    table: TableView,
    path: GenericSymbolPath,
    namespace: Namespace,
    list: Seq<GenericMap>,
    count: nat,
    elements: nat,
    arguments: nat,
)
    requires
        count <= list.len(),
        forall|m: int|
            0 <= m < list.len() ==> are_small(
                assigned_elements(table, path, namespace, #[trigger] list[m]),
                elements,
                arguments,
            ),
    ensures
        instances_cost(table, path, namespace, list, count) <= count * (elements * (3 + 2
            * arguments)),
    decreases count,
{
    if count > 0 {
        let each = elements * (3 + 2 * arguments);
        lemma_instances_small(
            table,
            path,
            namespace,
            list,
            (count - 1) as nat,
            elements,
            arguments,
        );
        let map = list[count - 1];
        assert(are_small(assigned_elements(table, path, namespace, map), elements, arguments));
        lemma_list_small(assigned_elements(table, path, namespace, map), elements, arguments);
        assert(instance_elements(table, path, namespace, Some(map)) == assigned_elements(
            table,
            path,
            namespace,
            map,
        ));
        assert(count * each == (count - 1) * each + each) by (nonlinear_arith);
    }
}

proof fn lemma_costs_small(
    table: TableView,
    candidates: Seq<TypeDagCandidate>,
    count: nat,
    imports: nat,
    maps: nat,
    elements: nat,
    arguments: nat,
)
    requires
        count <= candidates.len(),
        maps > 0,
        forall|i: int|
            0 <= i < candidates.len() ==> is_small(
                table,
                #[trigger] candidates[i],
                imports,
                maps,
                elements,
                arguments,
            ),
    ensures
        all_declared_cost(candidates, count) <= count * (3 + 2 * imports),
        all_used_cost(table, candidates, count) <= count * (maps * (elements * (3 + 2
            * arguments))),
    decreases count,
{
    if count > 0 {
        let each = elements * (3 + 2 * arguments);
        let k = (count - 1) as nat;
        lemma_costs_small(table, candidates, k, imports, maps, elements, arguments);
        let candidate = candidates[k as int];
        assert(is_small(table, candidate, imports, maps, elements, arguments));
        assert(used_cost(table, candidate) <= maps * each) by {
            match candidate {
                TypeDagCandidate::Path { path, namespace, parent: Some((parent, context)) } => {
                    let list = table.entries[parent.0].generic_maps@;
                    lemma_instances_small(
                        table,
                        path,
                        namespace,
                        list,
                        list.len(),
                        elements,
                        arguments,
                    );
                    assert(list.len() * each <= maps * each) by (nonlinear_arith)
                        requires
                            list.len() <= maps,
                    ;
                },
                TypeDagCandidate::Path { path, namespace, parent: None } => {
                    lemma_list_small(plain_elements(table, path, namespace), elements, arguments);
                    assert(each <= maps * each) by (nonlinear_arith)
                        requires
                            maps > 0,
                    ;
                },
                TypeDagCandidate::Symbol { .. } => {
                    assert(0 <= maps * each) by (nonlinear_arith);
                },
            }
        }
        assert(count * (3 + 2 * imports) == k * (3 + 2 * imports) + (3 + 2 * imports))
            by (nonlinear_arith)
            requires
                count == k + 1,
        ;
        assert(count * (maps * each) == k * (maps * each) + maps * each) by (nonlinear_arith)
            requires
                count == k + 1,
        ;
    }
}

/// Candidates that stand in declared symbols, with a table in which following aliases always comes to
/// an end, can be applied as long as the numbers of what they hold leave room in the graph.
pub proof fn law_applicable(
    dag: DagView,
    table: TableView,
    imports: nat,
    maps: nat,
    elements: nat,
    arguments: nat,
)
    requires
        table.wf(),
        maps > 0,
        forall|i: int|
            0 <= i < dag.candidates.len() ==> stands_in_declared(
                table,
                #[trigger] dag.candidates[i],
            ) && is_small(table, dag.candidates[i], imports, maps, elements, arguments),
        forall|path: SymbolPath, namespace: Namespace| #[trigger] table.chain_ends(path, namespace),
        dag.incoming.len() + dag.candidates.len() * (3 + 2 * imports) + dag.candidates.len() * (maps
            * (elements * (3 + 2 * arguments))) <= u32::MAX,
        dag.edge_count() + dag.candidates.len() * (3 + 2 * imports) + dag.candidates.len() * (maps
            * (elements * (3 + 2 * arguments))) <= u32::MAX,
    ensures
        dag.applicable(table),
{
    lemma_costs_small(
        table,
        dag.candidates,
        dag.candidates.len(),
        imports,
        maps,
        elements,
        arguments,
    );
    assert forall|i: int|
        0 <= i < dag.candidates.len() implies crate::dag_view::parent_declared(
        table,
        #[trigger] dag.candidates[i],
    ) && use_ends(table, dag.candidates[i]) by {
        assert(stands_in_declared(table, dag.candidates[i]));
    }
}

} // verus!
