//! Generic arguments are dependencies of what takes them.
use crate::context::Context;
use crate::dag_growth::{
    lemma_all_declared_grow, lemma_all_used_grow, lemma_arguments_grow, lemma_base_used_grows,
    lemma_dag_edge_grows, lemma_element_grows, lemma_elements_grow, lemma_grows_transitive,
    lemma_instances_grow, lemma_stays_settled, lemma_symbol_grows, lemma_target_known,
    lemma_used_grows,
};
use crate::dag_lemmas::lemma_with_symbol_wf;
use crate::dag_view::{
    all_used_cost, elements_cost, instance_elements, instances_cost, parent_declared, used_cost,
    DagView,
};
use crate::symbol::{
    GenericMap, GenericSymbol, GenericSymbolPath, Namespace, SymbolId, SymbolPath,
};
use crate::symbol_table::TableView;
use crate::type_dag::TypeDagCandidate;
use vstd::prelude::*;

verus! {

impl DagView {
    /// The dependency of a symbol on a generic argument is in the graph, or was found to close a
    /// cycle, if the argument has a node.
    pub open spec fn enters_argument(
        self,
        table: TableView,
        id: SymbolId,
        namespace: Namespace,
        argument: SymbolPath,
    ) -> bool {
        table.target(argument, namespace) matches Some(symbol) ==> symbol.kind.is_dag_kind()
            ==> self.enters(id, symbol.id)
    }

    /// The same of all generic arguments of an element of a path.
    pub open spec fn enters_element(
        self,
        table: TableView,
        element: GenericSymbol,
        namespace: Namespace,
    ) -> bool {
        table.target(element.base_path, namespace) matches Some(base) ==> base.kind.is_dag_kind()
            ==> forall|i: int|
            0 <= i < element.arguments@.len() ==> self.enters_argument(
                table,
                base.id,
                namespace,
                #[trigger] element.arguments@[i],
            )
    }

    /// The same of the path in a candidate.
    pub open spec fn enters_candidate(self, table: TableView, candidate: TypeDagCandidate) -> bool {
        match candidate {
            TypeDagCandidate::Path { path, namespace, parent: Some(parent) } => {
                let maps = table.entries[parent.0.0].generic_maps@;
                forall|m: int, i: int|
                    0 <= m < maps.len() && 0 <= i < instance_elements(
                        table,
                        path,
                        namespace,
                        Some(maps[m]),
                    ).len() ==> self.enters_element(
                        table,
                        #[trigger] instance_elements(table, path, namespace, Some(maps[m]))[i],
                        namespace,
                    )
            },
            TypeDagCandidate::Path { path, namespace, parent: None } => {
                let elements = instance_elements(table, path, namespace, None);
                forall|i: int|
                    0 <= i < elements.len() ==> self.enters_element(
                        table,
                        #[trigger] elements[i],
                        namespace,
                    )
            },
            TypeDagCandidate::Symbol { .. } => true,
        }
    }
}

proof fn lemma_argument_stays(
    before: DagView,
    after: DagView,
    table: TableView,
    id: SymbolId,
    namespace: Namespace,
    argument: SymbolPath,
)
    requires
        before.wf(),
        before.grows_to(after),
        before.only_adds(after),
        before.enters_argument(table, id, namespace, argument),
    ensures
        after.enters_argument(table, id, namespace, argument),
{
    if let Some(symbol) = table.target(argument, namespace) {
        lemma_stays_settled(before, after, id, symbol.id, Context::GenericInstance);
    }
}

proof fn lemma_element_stays(
    before: DagView,
    after: DagView,
    table: TableView,
    element: GenericSymbol,
    namespace: Namespace,
)
    requires
        before.wf(),
        before.grows_to(after),
        before.only_adds(after),
        before.enters_element(table, element, namespace),
    ensures
        after.enters_element(table, element, namespace),
{
    if let Some(base) = table.target(element.base_path, namespace) {
        if base.kind.is_dag_kind() {
            assert forall|i: int| 0 <= i < element.arguments@.len() implies after.enters_argument(
                table,
                base.id,
                namespace,
                #[trigger] element.arguments@[i],
            ) by {
                lemma_argument_stays(
                    before,
                    after,
                    table,
                    base.id,
                    namespace,
                    element.arguments@[i],
                );
            }
        }
    }
}

proof fn lemma_arguments_entered(
    view: DagView,
    table: TableView,
    id: SymbolId,
    base: u32,
    namespace: Namespace,
    arguments: Seq<SymbolPath>,
    count: nat,
)
    requires
        view.wf(),
        view.load() + 2 * count <= u32::MAX,
        count <= arguments.len(),
        table.wf(),
        view.nodes.contains_key(id.0),
        view.nodes[id.0] == base,
    ensures
        forall|i: int|
            0 <= i < count ==> view.with_arguments(
                table,
                base,
                namespace,
                arguments,
                count,
            ).enters_argument(table, id, namespace, #[trigger] arguments[i]),
    decreases count,
{
    if count > 0 {
        let k = (count - 1) as nat;
        lemma_arguments_entered(view, table, id, base, namespace, arguments, k);
        lemma_arguments_grow(view, table, id, base, namespace, arguments, k);
        let before = view.with_arguments(table, base, namespace, arguments, k);
        let after = view.with_arguments(table, base, namespace, arguments, count);
        let path = arguments[k as int];
        assert(view.symbols.contains_key(base));
        if let Some(argument) = table.target(path, namespace) {
            lemma_target_known(table, path, namespace);
            if argument.kind.is_dag_kind() {
                let inserted = before.with_symbol(table, argument);
                let node = before.node_of(argument.id);
                lemma_with_symbol_wf(before, table, argument);
                lemma_symbol_grows(before, table, argument);
                lemma_dag_edge_grows(inserted, base, node, Context::GenericInstance);
                lemma_grows_transitive(before, inserted, after);
            }
        }
        assert forall|i: int| 0 <= i < count implies after.enters_argument(
            table,
            id,
            namespace,
            #[trigger] arguments[i],
        ) by {
            if i < k {
                lemma_argument_stays(before, after, table, id, namespace, arguments[i]);
            }
        }
    }
}

proof fn lemma_element_entered(
    view: DagView,
    table: TableView,
    element: GenericSymbol,
    namespace: Namespace,
    parent: Option<(SymbolId, Context)>,
)
    requires
        view.wf(),
        view.load() + 3 + 2 * element.arguments@.len() <= u32::MAX,
        table.wf(),
        parent matches Some((id, _)) ==> table.contains(id),
    ensures
        view.with_element(table, element, namespace, parent).enters_element(
            table,
            element,
            namespace,
        ),
{
    if let Some(base) = table.target(element.base_path, namespace) {
        lemma_target_known(table, element.base_path, namespace);
        if base.kind.is_dag_kind() {
            let inserted = view.with_symbol(table, base);
            lemma_with_symbol_wf(view, table, base);
            lemma_base_used_grows(inserted, table, base, parent);
            lemma_arguments_entered(
                inserted.with_base_used(table, base, parent),
                table,
                base.id,
                view.node_of(base.id),
                namespace,
                element.arguments@,
                element.arguments@.len(),
            );
        }
    }
}

proof fn lemma_elements_entered(
    view: DagView,
    table: TableView,
    elements: Seq<GenericSymbol>,
    namespace: Namespace,
    parent: Option<(SymbolId, Context)>,
    count: nat,
)
    requires
        view.wf(),
        view.load() + elements_cost(elements, count) <= u32::MAX,
        count <= elements.len(),
        table.wf(),
        parent matches Some((id, _)) ==> table.contains(id),
    ensures
        forall|i: int|
            0 <= i < count ==> view.with_elements(
                table,
                elements,
                namespace,
                parent,
                count,
            ).enters_element(table, #[trigger] elements[i], namespace),
    decreases count,
{
    if count > 0 {
        let k = (count - 1) as nat;
        lemma_elements_entered(view, table, elements, namespace, parent, k);
        lemma_elements_grow(view, table, elements, namespace, parent, k);
        let before = view.with_elements(table, elements, namespace, parent, k);
        let after = view.with_elements(table, elements, namespace, parent, count);
        lemma_element_grows(before, table, elements[k as int], namespace, parent);
        lemma_element_entered(before, table, elements[k as int], namespace, parent);
        assert forall|i: int| 0 <= i < count implies after.enters_element(
            table,
            #[trigger] elements[i],
            namespace,
        ) by {
            if i < k {
                lemma_element_stays(before, after, table, elements[i], namespace);
            }
        }
    }
}

proof fn lemma_instances_entered(
    view: DagView,
    table: TableView,
    path: GenericSymbolPath,
    namespace: Namespace,
    parent: (SymbolId, Context),
    maps: Seq<GenericMap>,
    count: nat,
)
    requires
        view.wf(),
        view.load() + instances_cost(table, path, namespace, maps, count) <= u32::MAX,
        count <= maps.len(),
        table.wf(),
        table.contains(parent.0),
    ensures
        forall|m: int, i: int|
            0 <= m < count && 0 <= i < instance_elements(
                table,
                path,
                namespace,
                Some(maps[m]),
            ).len() ==> view.with_instances(
                table,
                path,
                namespace,
                Some(parent),
                maps,
                count,
            ).enters_element(
                table,
                #[trigger] instance_elements(table, path, namespace, Some(maps[m]))[i],
                namespace,
            ),
    decreases count,
{
    if count > 0 {
        let k = (count - 1) as nat;
        lemma_instances_entered(view, table, path, namespace, parent, maps, k);
        lemma_instances_grow(view, table, path, namespace, parent, maps, k);
        let before = view.with_instances(table, path, namespace, Some(parent), maps, k);
        let after = view.with_instances(table, path, namespace, Some(parent), maps, count);
        let elements = instance_elements(table, path, namespace, Some(maps[k as int]));
        lemma_elements_grow(before, table, elements, namespace, Some(parent), elements.len());
        lemma_elements_entered(before, table, elements, namespace, Some(parent), elements.len());
        assert forall|m: int, i: int|
            0 <= m < count && 0 <= i < instance_elements(
                table,
                path,
                namespace,
                Some(maps[m]),
            ).len() implies after.enters_element(
            table,
            #[trigger] instance_elements(table, path, namespace, Some(maps[m]))[i],
            namespace,
        ) by {
            let element = instance_elements(table, path, namespace, Some(maps[m]))[i];
            if m < k {
                lemma_element_stays(before, after, table, element, namespace);
            } else {
                assert(element == elements[i]);
            }
        }
    }
}

proof fn lemma_candidate_stays(
    before: DagView,
    after: DagView,
    table: TableView,
    candidate: TypeDagCandidate,
)
    requires
        before.wf(),
        before.grows_to(after),
        before.only_adds(after),
        before.enters_candidate(table, candidate),
    ensures
        after.enters_candidate(table, candidate),
{
    match candidate {
        TypeDagCandidate::Path { path, namespace, parent: Some(parent) } => {
            let maps = table.entries[parent.0.0].generic_maps@;
            assert forall|m: int, i: int|
                0 <= m < maps.len() && 0 <= i < instance_elements(
                    table,
                    path,
                    namespace,
                    Some(maps[m]),
                ).len() implies after.enters_element(
                table,
                #[trigger] instance_elements(table, path, namespace, Some(maps[m]))[i],
                namespace,
            ) by {
                let element = instance_elements(table, path, namespace, Some(maps[m]))[i];
                lemma_element_stays(before, after, table, element, namespace);
            }
        },
        TypeDagCandidate::Path { path, namespace, parent: None } => {
            let elements = instance_elements(table, path, namespace, None);
            assert forall|i: int| 0 <= i < elements.len() implies after.enters_element(
                table,
                #[trigger] elements[i],
                namespace,
            ) by {
                lemma_element_stays(before, after, table, elements[i], namespace);
            }
        },
        TypeDagCandidate::Symbol { .. } => {},
    }
}

proof fn lemma_used_entered(view: DagView, table: TableView, candidate: TypeDagCandidate)
    requires
        view.wf(),
        table.wf(),
        parent_declared(table, candidate),
        view.load() + used_cost(table, candidate) <= u32::MAX,
    ensures
        view.with_used(table, candidate).enters_candidate(table, candidate),
{
    if let TypeDagCandidate::Path { path, namespace, parent } = candidate {
        match parent {
            Some(parent) => {
                let maps = table.entries[parent.0.0].generic_maps@;
                lemma_instances_entered(view, table, path, namespace, parent, maps, maps.len());
            },
            None => {
                let elements = instance_elements(table, path, namespace, None);
                lemma_elements_entered(view, table, elements, namespace, None, elements.len());
            },
        }
    }
}

proof fn lemma_all_used_entered(
    view: DagView,
    table: TableView,
    candidates: Seq<TypeDagCandidate>,
    count: nat,
)
    requires
        view.wf(),
        table.wf(),
        count <= candidates.len(),
        forall|i: int|
            0 <= i < candidates.len() ==> parent_declared(table, #[trigger] candidates[i]),
        view.load() + all_used_cost(table, candidates, count) <= u32::MAX,
    ensures
        forall|i: int|
            0 <= i < count ==> view.with_all_used(table, candidates, count).enters_candidate(
                table,
                #[trigger] candidates[i],
            ),
    decreases count,
{
    if count > 0 {
        let k = (count - 1) as nat;
        lemma_all_used_entered(view, table, candidates, k);
        lemma_all_used_grow(view, table, candidates, k);
        let before = view.with_all_used(table, candidates, k);
        let after = view.with_all_used(table, candidates, count);
        let candidate = candidates[k as int];
        assert(parent_declared(table, candidate));
        lemma_used_grows(before, table, candidate);
        lemma_used_entered(before, table, candidate);
        assert forall|i: int| 0 <= i < count implies after.enters_candidate(
            table,
            #[trigger] candidates[i],
        ) by {
            if i < k {
                lemma_candidate_stays(before, after, table, candidates[i]);
            }
        }
    }
}

/// After applying, the dependency on every generic argument is in the graph, or was found to close a
/// cycle, also where the symbol that takes the argument owns it.
pub proof fn lemma_arguments_applied(dag: DagView, table: TableView)
    requires
        dag.wf(),
        dag.applicable(table),
    ensures
        forall|i: int|
            0 <= i < dag.candidates.len() ==> dag.applied(table).enters_candidate(
                table,
                #[trigger] dag.candidates[i],
            ),
{
    let taken = DagView { candidates: Seq::empty(), ..dag };
    lemma_all_declared_grow(taken, table, dag.candidates, dag.candidates.len());
    lemma_all_used_entered(dag.declared(table), table, dag.candidates, dag.candidates.len());
}

} // verus!
