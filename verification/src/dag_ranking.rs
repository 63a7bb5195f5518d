//! Dependencies that can be ranked form no cycle, and none is reported for them.
use crate::context::Context;
use crate::dag_growth::{
    lemma_all_declared_grow, lemma_all_used_grow, lemma_arguments_grow, lemma_base_used_grows,
    lemma_declaration_grows, lemma_elements_grow, lemma_grows_transitive, lemma_imports_grow,
    lemma_instances_grow, lemma_owned_grows, lemma_stays_settled, lemma_symbol_grows,
    lemma_target_known,
};
use crate::dag_lemmas::{lemma_with_owned_wf, lemma_with_symbol_wf};
use crate::dag_view::{
    all_declared_cost, all_used_cost, declared_cost, elements_cost, instance_elements,
    instances_cost, parent_declared, user_of, DagView,
};
use crate::graph::{
    has_edge, is_step, is_walk, is_walk_between, lemma_with_edge, lemma_without_edges, reaches,
};
use crate::symbol::{
    GenericMap, GenericSymbol, GenericSymbolPath, GenericSymbolPathNamespace, Namespace, Symbol,
    SymbolId, SymbolPath,
};
use crate::symbol_table::TableView;
use crate::type_dag::TypeDagCandidate;
use vstd::prelude::*;

verus! {

/// A rank for each symbol, by its number.
pub type Rank = spec_fn(SymbolId) -> int;

/// What is depended on has the lower rank, unless it is a symbol that may use itself.
pub open spec fn may_depend(rank: Rank, user: SymbolId, base: SymbolId, context: Context) -> bool {
    rank(base) < rank(user) || (user == base && (context is Module || context is Interface
        || context is Function))
}

impl DagView {
    /// Every symbol has a higher rank than the symbols that it depends on.
    pub open spec fn is_ranked(self, rank: Rank) -> bool {
        forall|a: u32, b: u32| #[trigger]
            has_edge(self.incoming, a, b) && a != self.source ==> self.symbols.contains_key(b)
                && rank(self.symbols[a].id) < rank(self.symbols[b].id)
    }
}

/// The dependencies that come of the declaration in a candidate can be ranked.
pub open spec fn declaration_ranked(
    table: TableView,
    rank: Rank,
    candidate: TypeDagCandidate,
) -> bool {
    match candidate {
        TypeDagCandidate::Symbol { id, context, parent, import } if table.contains(id)
            && table.symbol(id).kind.is_dag_kind() => {
            &&& parent matches Some((owner, owner_context)) ==> table.symbol(
                owner,
            ).kind.is_dag_kind() ==> may_depend(rank, id, owner, owner_context)
            &&& forall|i: int|
                0 <= i < import@.len() ==> import_ranked(
                    table,
                    rank,
                    id,
                    context,
                    #[trigger] import@[i],
                )
        },
        _ => true,
    }
}

/// The dependency on what is imported can be ranked.
pub open spec fn import_ranked(
    table: TableView,
    rank: Rank,
    id: SymbolId,
    context: Context,
    import: GenericSymbolPathNamespace,
) -> bool {
    table.resolve(import.0, import.1) matches Some(found) ==> table.symbol(found).kind.is_dag_kind()
        ==> may_depend(rank, id, found, context)
}

/// The dependency on a generic argument can be ranked.
pub open spec fn argument_ranked(
    table: TableView,
    rank: Rank,
    id: SymbolId,
    namespace: Namespace,
    argument: SymbolPath,
) -> bool {
    table.target(argument, namespace) matches Some(symbol) ==> symbol.kind.is_dag_kind()
        ==> may_depend(rank, id, symbol.id, Context::GenericInstance)
}

/// The dependency of the user of `base` can be ranked, or is one on what the user owns.
pub open spec fn base_ranked(
    table: TableView,
    rank: Rank,
    declared: DagView,
    base: Symbol,
    parent: Option<(SymbolId, Context)>,
) -> bool {
    parent matches Some(parent) ==> user_of(table, base, parent).0.kind.is_dag_kind() ==> {
        ||| may_depend(
            rank,
            user_of(table, base, parent).0.id,
            base.id,
            user_of(table, base, parent).1,
        )
        ||| declared.owns(user_of(table, base, parent).0.id, base.id)
    }
}

/// The dependencies that come of an element of a path can be ranked, or are ones on what the symbol
/// owns.
pub open spec fn element_ranked(
    table: TableView,
    rank: Rank,
    declared: DagView,
    element: GenericSymbol,
    namespace: Namespace,
    parent: Option<(SymbolId, Context)>,
) -> bool {
    table.target(element.base_path, namespace) matches Some(base) ==> base.kind.is_dag_kind() ==> {
        &&& base_ranked(table, rank, declared, base, parent)
        &&& forall|i: int|
            0 <= i < element.arguments@.len() ==> argument_ranked(
                table,
                rank,
                base.id,
                namespace,
                #[trigger] element.arguments@[i],
            )
    }
}

/// The same of all elements of a path.
pub open spec fn elements_ranked(
    table: TableView,
    rank: Rank,
    declared: DagView,
    elements: Seq<GenericSymbol>,
    namespace: Namespace,
    parent: Option<(SymbolId, Context)>,
) -> bool {
    forall|i: int|
        0 <= i < elements.len() ==> element_ranked(
            table,
            rank,
            declared,
            #[trigger] elements[i],
            namespace,
            parent,
        )
}

/// The same of the use in a candidate.
pub open spec fn use_ranked(
    table: TableView,
    rank: Rank,
    declared: DagView,
    candidate: TypeDagCandidate,
) -> bool {
    match candidate {
        TypeDagCandidate::Path { path, namespace, parent: Some(parent) } => {
            let maps = table.entries[parent.0.0].generic_maps@;
            forall|m: int|
                0 <= m < maps.len() ==> elements_ranked(
                    table,
                    rank,
                    declared,
                    instance_elements(table, path, namespace, Some(#[trigger] maps[m])),
                    namespace,
                    Some(parent),
                )
        },
        TypeDagCandidate::Path { path, namespace, parent: None } => elements_ranked(
            table,
            rank,
            declared,
            instance_elements(table, path, namespace, None),
            namespace,
            None,
        ),
        TypeDagCandidate::Symbol { .. } => true,
    }
}

/// What can be reached from a symbol has a higher rank.
proof fn lemma_reaches_ranked(view: DagView, rank: Rank, walk: Seq<u32>)
    requires
        view.wf(),
        view.is_ranked(rank),
        is_walk(view.incoming, walk),
        view.symbols.contains_key(walk[0]),
    ensures
        view.symbols.contains_key(walk.last()),
        walk.len() > 1 ==> rank(view.symbols[walk[0]].id) < rank(view.symbols[walk.last()].id),
    decreases walk.len(),
{
    if walk.len() > 1 {
        let front = walk.drop_last();
        assert forall|i: int| 0 <= i < front.len() - 1 implies #[trigger] is_step(
            view.incoming,
            front,
            i,
        ) by {
            assert(is_step(view.incoming, walk, i));
        }
        lemma_reaches_ranked(view, rank, front);
        assert(is_step(view.incoming, walk, walk.len() - 2));
        assert(has_edge(view.incoming, front.last(), walk.last()));
    }
}

/// A dependency that can be ranked is inserted, and no error is noted.
proof fn lemma_dag_edge_ranked(
    view: DagView,
    rank: Rank,
    user: SymbolId,
    base: SymbolId,
    context: Context,
)
    requires
        view.wf(),
        view.is_ranked(rank),
        view.nodes.contains_key(user.0),
        view.nodes.contains_key(base.0),
        may_depend(rank, user, base, context),
    ensures
        view.with_dag_edge(view.nodes[user.0], view.nodes[base.0], context).is_ranked(rank),
        view.with_dag_edge(view.nodes[user.0], view.nodes[base.0], context).errors == view.errors,
{
    let parent = view.nodes[user.0];
    let child = view.nodes[base.0];
    assert(view.symbols.contains_key(parent) && view.symbols.contains_key(child));
    assert(view.symbols[parent].id == user && view.symbols[child].id == base);
    lemma_with_edge(view.incoming, child, parent, context);
    if reaches(view.incoming, parent, child) {
        let walk = choose|walk: Seq<u32>| #[trigger]
            is_walk_between(view.incoming, walk, parent, child);
        lemma_reaches_ranked(view, rank, walk);
        if walk.len() == 1 {
            assert(parent == child);
        }
    } else if user == base {
        crate::graph::lemma_reaches_itself(view.incoming, parent);
    }
}

/// Inserting a symbol changes no rank, and no error is noted.
proof fn lemma_symbol_ranked(view: DagView, table: TableView, rank: Rank, symbol: Symbol)
    requires
        view.wf(),
        view.load() < u32::MAX,
        view.is_ranked(rank),
    ensures
        view.with_symbol(table, symbol).is_ranked(rank),
        view.with_symbol(table, symbol).errors == view.errors,
{
    let after = view.with_symbol(table, symbol);
    lemma_symbol_grows(view, table, symbol);
    assert forall|a: u32, b: u32| #[trigger]
        has_edge(after.incoming, a, b) && a != after.source implies after.symbols.contains_key(b)
        && rank(after.symbols[a].id) < rank(after.symbols[b].id) by {
        let list = after.incoming[b as int];
        let k = choose|k: int| 0 <= k < list.len() && (#[trigger] list[k]).0 == a;
        assert(b < view.incoming.len());
        assert(view.incoming[b as int][k].0 == a);
        assert(has_edge(view.incoming, a, b));
        assert(view.symbols.contains_key(a) && view.symbols.contains_key(b));
    }
}

/// Taking edges out changes no rank.
proof fn lemma_owned_ranked(view: DagView, rank: Rank, parent: u32, child: u32)
    requires
        view.is_ranked(rank),
    ensures
        view.with_owned(parent, child).is_ranked(rank),
        view.with_owned(parent, child).errors == view.errors,
{
    lemma_without_edges(view.incoming, child, parent);
    let after = view.with_owned(parent, child);
    assert forall|a: u32, b: u32| #[trigger]
        has_edge(after.incoming, a, b) && a != after.source implies after.symbols.contains_key(b)
        && rank(after.symbols[a].id) < rank(after.symbols[b].id) by {
        assert(has_edge(view.incoming, a, b));
    }
}

proof fn lemma_imports_ranked(
    view: DagView,
    table: TableView,
    rank: Rank,
    id: SymbolId,
    child: u32,
    context: Context,
    imports: Seq<GenericSymbolPathNamespace>,
    count: nat,
)
    requires
        view.wf(),
        view.load() + 2 * count <= u32::MAX,
        count <= imports.len(),
        table.wf(),
        view.nodes.contains_key(id.0),
        view.nodes[id.0] == child,
        view.is_ranked(rank),
        forall|i: int|
            0 <= i < imports.len() ==> import_ranked(
                table,
                rank,
                id,
                context,
                #[trigger] imports[i],
            ),
    ensures
        view.with_imports(table, child, context, imports, count).is_ranked(rank),
        view.with_imports(table, child, context, imports, count).errors == view.errors,
    decreases count,
{
    if count > 0 {
        let k = (count - 1) as nat;
        lemma_imports_ranked(view, table, rank, id, child, context, imports, k);
        lemma_imports_grow(view, table, id, child, context, imports, k);
        let before = view.with_imports(table, child, context, imports, k);
        let import = imports[k as int];
        assert(import_ranked(table, rank, id, context, import));
        if let Some(found) = table.resolve(import.0, import.1) {
            assert(table.contains(found));
            let symbol = table.symbol(found);
            if symbol.kind.is_dag_kind() {
                lemma_symbol_ranked(before, table, rank, symbol);
                lemma_symbol_grows(before, table, symbol);
                lemma_with_symbol_wf(before, table, symbol);
                lemma_dag_edge_ranked(
                    before.with_symbol(table, symbol),
                    rank,
                    id,
                    found,
                    context,
                );
            }
        }
    }
}

proof fn lemma_declared_ranked(
    view: DagView,
    table: TableView,
    rank: Rank,
    candidate: TypeDagCandidate,
)
    requires
        view.wf(),
        table.wf(),
        parent_declared(table, candidate),
        view.load() + declared_cost(candidate) <= u32::MAX,
        view.is_ranked(rank),
        declaration_ranked(table, rank, candidate),
    ensures
        view.with_declared(table, candidate).is_ranked(rank),
        view.with_declared(table, candidate).errors == view.errors,
{
    if let TypeDagCandidate::Symbol { id, context, parent, import } = candidate {
        if table.contains(id) && table.symbol(id).kind.is_dag_kind() {
            let symbol = table.symbol(id);
            let inserted = view.with_symbol(table, symbol);
            lemma_with_symbol_wf(view, table, symbol);
            lemma_symbol_ranked(view, table, rank, symbol);
            lemma_declaration_grows(view, table, symbol, parent);
            let declared = view.with_declaration(table, symbol, parent);
            if let Some((owner, owner_context)) = parent {
                let owner_symbol = table.symbol(owner);
                assert(owner_symbol.id == owner);
                if owner_symbol.kind.is_dag_kind() {
                    let child_node = view.node_of(id);
                    let parent_node = inserted.node_of(owner);
                    let both = inserted.with_symbol(table, owner_symbol);
                    let owned = both.with_owned(parent_node, child_node);
                    lemma_with_symbol_wf(inserted, table, owner_symbol);
                    lemma_symbol_ranked(inserted, table, rank, owner_symbol);
                    lemma_with_owned_wf(both, parent_node, child_node);
                    lemma_owned_grows(both, parent_node, child_node);
                    lemma_owned_ranked(both, rank, parent_node, child_node);
                    lemma_dag_edge_ranked(owned, rank, id, owner, owner_context);
                }
            }
            assert(declared.is_ranked(rank) && declared.errors == view.errors);
            lemma_imports_ranked(
                declared,
                table,
                rank,
                id,
                view.node_of(id),
                context,
                import@,
                import@.len(),
            );
        }
    }
}

proof fn lemma_all_declared_ranked(
    view: DagView,
    table: TableView,
    rank: Rank,
    candidates: Seq<TypeDagCandidate>,
    count: nat,
)
    requires
        view.wf(),
        table.wf(),
        count <= candidates.len(),
        forall|i: int|
            0 <= i < candidates.len() ==> parent_declared(table, #[trigger] candidates[i])
                && declaration_ranked(table, rank, candidates[i]),
        view.load() + all_declared_cost(candidates, count) <= u32::MAX,
        view.is_ranked(rank),
    ensures
        view.with_all_declared(table, candidates, count).is_ranked(rank),
        view.with_all_declared(table, candidates, count).errors == view.errors,
    decreases count,
{
    if count > 0 {
        let k = (count - 1) as nat;
        lemma_all_declared_ranked(view, table, rank, candidates, k);
        lemma_all_declared_grow(view, table, candidates, k);
        assert(declaration_ranked(table, rank, candidates[k as int]));
        lemma_declared_ranked(
            view.with_all_declared(table, candidates, k),
            table,
            rank,
            candidates[k as int],
        );
    }
}

proof fn lemma_base_used_ranked(
    view: DagView,
    table: TableView,
    rank: Rank,
    declared: DagView,
    base: Symbol,
    parent: Option<(SymbolId, Context)>,
)
    requires
        view.wf(),
        view.load() + 2 <= u32::MAX,
        table.wf(),
        view.nodes.contains_key(base.id.0),
        parent matches Some((id, _)) ==> table.contains(id),
        view.is_ranked(rank),
        declared.wf(),
        declared.grows_to(view),
        base_ranked(table, rank, declared, base, parent),
    ensures
        view.with_base_used(table, base, parent).is_ranked(rank),
        view.with_base_used(table, base, parent).errors == view.errors,
{
    if let Some(parent) = parent {
        let (user, context) = user_of(table, base, parent);
        if let Some(package) = table.entries[parent.0.0].parent_package {
            assert(table.contains(parent.0));
            assert(table.contains(package));
        }
        assert(table.contains(user.id));
        if user.kind.is_dag_kind() {
            let inserted = view.with_symbol(table, user);
            lemma_with_symbol_wf(view, table, user);
            lemma_symbol_ranked(view, table, rank, user);
            lemma_symbol_grows(view, table, user);
            if declared.owns(user.id, base.id) {
                lemma_stays_settled(declared, view, user.id, base.id, context);
                lemma_stays_settled(view, inserted, user.id, base.id, context);
            } else {
                lemma_dag_edge_ranked(inserted, rank, user.id, base.id, context);
            }
        }
    }
}

proof fn lemma_arguments_ranked(
    view: DagView,
    table: TableView,
    rank: Rank,
    id: SymbolId,
    base: u32,
    namespace: Namespace,
    arguments: Seq<SymbolPath>,
    count: nat,
)
    requires
        view.wf(),
        view.load() + 2 * count <= u32::MAX,
        count <= arguments.len(),
        table.wf(),
        view.nodes.contains_key(id.0),
        view.nodes[id.0] == base,
        view.is_ranked(rank),
        forall|i: int|
            0 <= i < arguments.len() ==> argument_ranked(
                table,
                rank,
                id,
                namespace,
                #[trigger] arguments[i],
            ),
    ensures
        view.with_arguments(table, base, namespace, arguments, count).is_ranked(rank),
        view.with_arguments(table, base, namespace, arguments, count).errors == view.errors,
    decreases count,
{
    if count > 0 {
        let k = (count - 1) as nat;
        lemma_arguments_ranked(view, table, rank, id, base, namespace, arguments, k);
        lemma_arguments_grow(view, table, id, base, namespace, arguments, k);
        let before = view.with_arguments(table, base, namespace, arguments, k);
        let path = arguments[k as int];
        assert(argument_ranked(table, rank, id, namespace, path));
        if let Some(argument) = table.target(path, namespace) {
            lemma_target_known(table, path, namespace);
            if argument.kind.is_dag_kind() {
                lemma_with_symbol_wf(before, table, argument);
                lemma_symbol_ranked(before, table, rank, argument);
                lemma_symbol_grows(before, table, argument);
                lemma_dag_edge_ranked(
                    before.with_symbol(table, argument),
                    rank,
                    id,
                    argument.id,
                    Context::GenericInstance,
                );
            }
        }
    }
}

proof fn lemma_element_ranked(
    view: DagView,
    table: TableView,
    rank: Rank,
    declared: DagView,
    element: GenericSymbol,
    namespace: Namespace,
    parent: Option<(SymbolId, Context)>,
)
    requires
        view.wf(),
        view.load() + 3 + 2 * element.arguments@.len() <= u32::MAX,
        table.wf(),
        parent matches Some((id, _)) ==> table.contains(id),
        view.is_ranked(rank),
        declared.wf(),
        declared.grows_to(view),
        element_ranked(table, rank, declared, element, namespace, parent),
    ensures
        view.with_element(table, element, namespace, parent).is_ranked(rank),
        view.with_element(table, element, namespace, parent).errors == view.errors,
{
    if let Some(base) = table.target(element.base_path, namespace) {
        lemma_target_known(table, element.base_path, namespace);
        if base.kind.is_dag_kind() {
            let inserted = view.with_symbol(table, base);
            let used = inserted.with_base_used(table, base, parent);
            lemma_with_symbol_wf(view, table, base);
            lemma_symbol_ranked(view, table, rank, base);
            lemma_symbol_grows(view, table, base);
            lemma_grows_transitive(declared, view, inserted);
            lemma_base_used_grows(inserted, table, base, parent);
            lemma_base_used_ranked(inserted, table, rank, declared, base, parent);
            lemma_arguments_ranked(
                used,
                table,
                rank,
                base.id,
                view.node_of(base.id),
                namespace,
                element.arguments@,
                element.arguments@.len(),
            );
        }
    }
}

proof fn lemma_elements_ranked(
    view: DagView,
    table: TableView,
    rank: Rank,
    declared: DagView,
    elements: Seq<GenericSymbol>,
    namespace: Namespace,
    parent: Option<(SymbolId, Context)>,
    count: nat,
)
    requires
        view.wf(),
        view.load() + elements_cost(elements, count) <= u32::MAX,
        count <= elements.len(),
        table.wf(),
        parent matches Some((id, _)) ==> table.contains(id),
        view.is_ranked(rank),
        declared.wf(),
        declared.grows_to(view),
        elements_ranked(table, rank, declared, elements, namespace, parent),
    ensures
        view.with_elements(table, elements, namespace, parent, count).is_ranked(rank),
        view.with_elements(table, elements, namespace, parent, count).errors == view.errors,
    decreases count,
{
    if count > 0 {
        let k = (count - 1) as nat;
        lemma_elements_ranked(view, table, rank, declared, elements, namespace, parent, k);
        lemma_elements_grow(view, table, elements, namespace, parent, k);
        let before = view.with_elements(table, elements, namespace, parent, k);
        lemma_grows_transitive(declared, view, before);
        assert(element_ranked(table, rank, declared, elements[k as int], namespace, parent));
        lemma_element_ranked(before, table, rank, declared, elements[k as int], namespace, parent);
    }
}

proof fn lemma_instances_ranked(
    view: DagView,
    table: TableView,
    rank: Rank,
    declared: DagView,
    path: GenericSymbolPath,
    namespace: Namespace,
    parent: (SymbolId, Context),
    maps: Seq<GenericMap>,
    count: nat,
)
    requires
        view.wf(),
        view.load() + instances_cost(table, path, namespace, maps, count) <= u32::MAX,
        count <= maps.len(),
        table.wf(),
        table.contains(parent.0),
        view.is_ranked(rank),
        declared.wf(),
        declared.grows_to(view),
        forall|m: int|
            0 <= m < maps.len() ==> elements_ranked(
                table,
                rank,
                declared,
                instance_elements(table, path, namespace, Some(#[trigger] maps[m])),
                namespace,
                Some(parent),
            ),
    ensures
        view.with_instances(table, path, namespace, Some(parent), maps, count).is_ranked(rank),
        view.with_instances(table, path, namespace, Some(parent), maps, count).errors
            == view.errors,
    decreases count,
{
    if count > 0 {
        let k = (count - 1) as nat;
        lemma_instances_ranked(view, table, rank, declared, path, namespace, parent, maps, k);
        lemma_instances_grow(view, table, path, namespace, parent, maps, k);
        let before = view.with_instances(table, path, namespace, Some(parent), maps, k);
        let elements = instance_elements(table, path, namespace, Some(maps[k as int]));
        lemma_grows_transitive(declared, view, before);
        lemma_elements_ranked(
            before,
            table,
            rank,
            declared,
            elements,
            namespace,
            Some(parent),
            elements.len(),
        );
    }
}

proof fn lemma_all_used_ranked(
    view: DagView,
    table: TableView,
    rank: Rank,
    candidates: Seq<TypeDagCandidate>,
    count: nat,
)
    requires
        view.wf(),
        table.wf(),
        count <= candidates.len(),
        forall|i: int|
            0 <= i < candidates.len() ==> parent_declared(table, #[trigger] candidates[i])
                && use_ranked(table, rank, view, candidates[i]),
        view.load() + all_used_cost(table, candidates, count) <= u32::MAX,
        view.is_ranked(rank),
    ensures
        view.with_all_used(table, candidates, count).is_ranked(rank),
        view.with_all_used(table, candidates, count).errors == view.errors,
    decreases count,
{
    if count > 0 {
        let k = (count - 1) as nat;
        lemma_all_used_ranked(view, table, rank, candidates, k);
        lemma_all_used_grow(view, table, candidates, k);
        let before = view.with_all_used(table, candidates, k);
        let candidate = candidates[k as int];
        assert(parent_declared(table, candidate) && use_ranked(table, rank, view, candidate));
        if let TypeDagCandidate::Path { path, namespace, parent } = candidate {
            match parent {
                Some(parent) => {
                    let maps = table.entries[parent.0.0].generic_maps@;
                    lemma_instances_ranked(
                        before,
                        table,
                        rank,
                        view,
                        path,
                        namespace,
                        parent,
                        maps,
                        maps.len(),
                    );
                },
                None => {
                    let elements = instance_elements(table, path, namespace, None);
                    lemma_elements_ranked(
                        before,
                        table,
                        rank,
                        view,
                        elements,
                        namespace,
                        None,
                        elements.len(),
                    );
                },
            }
        }
    }
}

/// A cycle is reported only where there is one: if the symbols can be ranked so that each has a
/// higher rank than those that it depends on, no error is found. Uses of what a symbol owns, and
/// symbols that may use themselves, need no rank.
pub proof fn law_no_false_cycle(dag: DagView, table: TableView, rank: Rank)
    requires
        dag.wf(),
        dag.applicable(table),
        dag.is_ranked(rank),
        forall|i: int|
            0 <= i < dag.candidates.len() ==> declaration_ranked(
                table,
                rank,
                #[trigger] dag.candidates[i],
            ) && use_ranked(table, rank, dag.declared(table), dag.candidates[i]),
    ensures
        dag.applied(table).errors == dag.errors,
{
    let candidates = dag.candidates;
    let taken = DagView { candidates: Seq::empty(), ..dag };
    lemma_all_declared_grow(taken, table, candidates, candidates.len());
    lemma_all_declared_ranked(taken, table, rank, candidates, candidates.len());
    lemma_all_used_ranked(dag.declared(table), table, rank, candidates, candidates.len());
}

} // verus!
