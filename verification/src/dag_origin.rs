//! What is in the graph after a step was in it before or is covered by what was asked for.
use crate::context::Context;
use crate::dag_growth::{
    lemma_all_declared_grow, lemma_all_used_grow, lemma_arguments_grow, lemma_base_used_grows,
    lemma_declaration_grows, lemma_elements_grow, lemma_grows_transitive, lemma_imports_grow,
    lemma_instances_grow, lemma_owned_grows, lemma_stays_settled, lemma_symbol_grows,
    lemma_target_known,
};
use crate::dag_lemmas::{lemma_with_owned_wf, lemma_with_symbol_wf};
use crate::dag_view::{
    all_declared_cost, all_used_cost, declared_cost, elements_cost, instance_elements,
    instances_cost, parent_declared, user_of, DagView,
};
use crate::graph::{has_edge, lemma_with_edge, lemma_without_edges};
use crate::laws::law_owned;
use crate::symbol::{
    GenericMap, GenericSymbol, GenericSymbolPath, GenericSymbolPathNamespace, Namespace, Symbol,
    SymbolId, SymbolPath,
};
use crate::symbol_table::TableView;
use crate::type_dag::{DagError, TypeDagCandidate};
use vstd::prelude::*;

verus! {

/// The state before, and what may be added to it: dependencies by their user and what is used, owners
/// by owner and owned, and symbols.
pub struct Cover {
    pub old: DagView,
    pub deps: spec_fn(SymbolId, SymbolId) -> bool,
    pub owners: spec_fn(SymbolId, SymbolId) -> bool,
    pub known: spec_fn(SymbolId) -> bool,
}

impl DagView {
    /// Every edge but those from the source, every symbol, every owner and every error was there
    /// before or is covered.
    pub open spec fn comes_from(self, cover: Cover) -> bool {
        &&& self.source == cover.old.source
        &&& forall|a: u32, b: u32| #[trigger]
            has_edge(self.incoming, a, b) && a != self.source ==> has_edge(
                cover.old.incoming,
                a,
                b,
            ) || (self.symbols.contains_key(a) && self.symbols.contains_key(b) && (cover.deps)(
                self.symbols[b].id,
                self.symbols[a].id,
            ))
        &&& forall|id: usize| #[trigger]
            self.nodes.contains_key(id) ==> cover.old.nodes.contains_key(id) || (cover.known)(
                SymbolId(id),
            )
        &&& forall|p: u32, c: u32| #[trigger]
            self.is_owned(p, c) ==> cover.old.is_owned(p, c) || (self.symbols.contains_key(p)
                && self.symbols.contains_key(c) && (cover.owners)(
                self.symbols[p].id,
                self.symbols[c].id,
            ))
        &&& self.errors.len() >= cover.old.errors.len()
        &&& forall|i: int|
            cover.old.errors.len() <= i < self.errors.len() ==> {
                let DagError::Cyclic(base, user) = #[trigger] self.errors[i];
                (cover.deps)(user.id, base.id)
            }
    }
}

/// The dependencies that come of the declaration in a candidate are covered.
pub open spec fn declaration_covered(
    table: TableView,
    cover: Cover,
    candidate: TypeDagCandidate,
) -> bool {
    match candidate {
        TypeDagCandidate::Symbol { id, context, parent, import } if table.contains(id)
            && table.symbol(id).kind.is_dag_kind() => {
            &&& (cover.known)(id)
            &&& parent matches Some((owner, owner_context)) ==> table.symbol(
                owner,
            ).kind.is_dag_kind() ==> (cover.known)(owner) && (cover.deps)(id, owner) && (cover.owners)(owner, id)
            &&& forall|i: int|
                0 <= i < import@.len() ==> import_covered(
                    table,
                    cover,
                    id,
                    context,
                    #[trigger] import@[i],
                )
        },
        _ => true,
    }
}

/// The dependency on what is imported is covered.
pub open spec fn import_covered(
    table: TableView,
    cover: Cover,
    id: SymbolId,
    context: Context,
    import: GenericSymbolPathNamespace,
) -> bool {
    table.resolve(import.0, import.1) matches Some(found) ==> table.symbol(found).kind.is_dag_kind()
        ==> (cover.known)(found) && (cover.deps)(id, found)
}

/// The dependency on a generic argument is covered.
pub open spec fn argument_covered(
    table: TableView,
    cover: Cover,
    id: SymbolId,
    namespace: Namespace,
    argument: SymbolPath,
) -> bool {
    table.target(argument, namespace) matches Some(symbol) ==> symbol.kind.is_dag_kind()
        ==> (cover.known)(symbol.id) && (cover.deps)(id, symbol.id)
}

/// The dependency of the user of `base` is covered, or is one on what the user owns.
pub open spec fn base_covered(
    table: TableView,
    cover: Cover,
    declared: DagView,
    base: Symbol,
    parent: Option<(SymbolId, Context)>,
) -> bool {
    parent matches Some(parent) ==> user_of(table, base, parent).0.kind.is_dag_kind() ==> {
        &&& (cover.known)(user_of(table, base, parent).0.id)
        &&& {
            ||| (cover.deps)(user_of(table, base, parent).0.id, base.id)
            ||| declared.owns(user_of(table, base, parent).0.id, base.id)
        }
    }
}

/// The dependencies that come of an element of a path are covered, or are ones on what the symbol
/// owns.
pub open spec fn element_covered(
    table: TableView,
    cover: Cover,
    declared: DagView,
    element: GenericSymbol,
    namespace: Namespace,
    parent: Option<(SymbolId, Context)>,
) -> bool {
    table.target(element.base_path, namespace) matches Some(base) ==> base.kind.is_dag_kind() ==> {
        &&& (cover.known)(base.id)
        &&& base_covered(table, cover, declared, base, parent)
        &&& forall|i: int|
            0 <= i < element.arguments@.len() ==> argument_covered(
                table,
                cover,
                base.id,
                namespace,
                #[trigger] element.arguments@[i],
            )
    }
}

/// The same of all elements of a path.
pub open spec fn elements_covered(
    table: TableView,
    cover: Cover,
    declared: DagView,
    elements: Seq<GenericSymbol>,
    namespace: Namespace,
    parent: Option<(SymbolId, Context)>,
) -> bool {
    forall|i: int|
        0 <= i < elements.len() ==> element_covered(
            table,
            cover,
            declared,
            #[trigger] elements[i],
            namespace,
            parent,
        )
}

/// The same of the use in a candidate.
pub open spec fn use_covered(
    table: TableView,
    cover: Cover,
    declared: DagView,
    candidate: TypeDagCandidate,
) -> bool {
    match candidate {
        TypeDagCandidate::Path { path, namespace, parent: Some(parent) } => {
            let maps = table.entries[parent.0.0].generic_maps@;
            forall|m: int|
                0 <= m < maps.len() ==> elements_covered(
                    table,
                    cover,
                    declared,
                    instance_elements(table, path, namespace, Some(#[trigger] maps[m])),
                    namespace,
                    Some(parent),
                )
        },
        TypeDagCandidate::Path { path, namespace, parent: None } => elements_covered(
            table,
            cover,
            declared,
            instance_elements(table, path, namespace, None),
            namespace,
            None,
        ),
        TypeDagCandidate::Symbol { .. } => true,
    }
}

/// A dependency that is covered, or the error that it gives, comes from what was asked for.
proof fn lemma_dag_edge_covered(
    view: DagView,
    cover: Cover,
    user: SymbolId,
    base: SymbolId,
    context: Context,
)
    requires
        view.wf(),
        view.comes_from(cover),
        view.nodes.contains_key(user.0),
        view.nodes.contains_key(base.0),
        (cover.deps)(user, base),
    ensures
        view.with_dag_edge(view.nodes[user.0], view.nodes[base.0], context).comes_from(cover),
{
    let parent = view.nodes[user.0];
    let child = view.nodes[base.0];
    let after = view.with_dag_edge(parent, child, context);
    assert(view.symbols.contains_key(parent) && view.symbols.contains_key(child));
    assert(view.symbols[parent].id == user && view.symbols[child].id == base);
    lemma_with_edge(view.incoming, child, parent, context);
    assert forall|p: u32, c: u32| #[trigger] after.is_owned(p, c) implies cover.old.is_owned(p, c)
        || (after.symbols.contains_key(p) && after.symbols.contains_key(c) && (cover.owners)(
        after.symbols[p].id,
        after.symbols[c].id,
    )) by {
        assert(view.is_owned(p, c));
    }
}

/// Inserting a symbol that is covered adds nothing else.
proof fn lemma_symbol_covered(view: DagView, table: TableView, cover: Cover, symbol: Symbol)
    requires
        view.wf(),
        view.load() < u32::MAX,
        view.comes_from(cover),
        table.wf(),
        table.contains(symbol.id),
        symbol.kind.is_dag_kind() ==> (cover.known)(symbol.id),
    ensures
        view.with_symbol(table, symbol).comes_from(cover),
{
    let after = view.with_symbol(table, symbol);
    lemma_symbol_grows(view, table, symbol);
    assert forall|a: u32, b: u32| #[trigger]
        has_edge(after.incoming, a, b) && a != after.source implies has_edge(
        cover.old.incoming,
        a,
        b,
    ) || (after.symbols.contains_key(a) && after.symbols.contains_key(b) && (cover.deps)(
        after.symbols[b].id,
        after.symbols[a].id,
    )) by {
        let list = after.incoming[b as int];
        let k = choose|k: int| 0 <= k < list.len() && (#[trigger] list[k]).0 == a;
        assert(b < view.incoming.len());
        assert(view.incoming[b as int][k].0 == a);
        assert(has_edge(view.incoming, a, b));
    }
    assert forall|p: u32, c: u32| #[trigger] after.is_owned(p, c) implies cover.old.is_owned(p, c)
        || (after.symbols.contains_key(p) && after.symbols.contains_key(c) && (cover.owners)(
        after.symbols[p].id,
        after.symbols[c].id,
    )) by {
        assert(view.is_owned(p, c));
    }
}

/// Noting an owner that is covered adds nothing else.
proof fn lemma_owned_covered(view: DagView, cover: Cover, owner: SymbolId, id: SymbolId)
    requires
        view.wf(),
        view.comes_from(cover),
        view.nodes.contains_key(owner.0),
        view.nodes.contains_key(id.0),
        (cover.owners)(owner, id),
    ensures
        view.with_owned(view.nodes[owner.0], view.nodes[id.0]).comes_from(cover),
{
    let parent = view.nodes[owner.0];
    let child = view.nodes[id.0];
    lemma_without_edges(view.incoming, child, parent);
    law_owned(view, parent, child);
    let after = view.with_owned(parent, child);
    assert(view.symbols[parent].id == owner && view.symbols[child].id == id);
    assert forall|a: u32, b: u32| #[trigger]
        has_edge(after.incoming, a, b) && a != after.source implies has_edge(
        cover.old.incoming,
        a,
        b,
    ) || (after.symbols.contains_key(a) && after.symbols.contains_key(b) && (cover.deps)(
        after.symbols[b].id,
        after.symbols[a].id,
    )) by {
        assert(has_edge(view.incoming, a, b));
    }
}

proof fn lemma_imports_covered(
    view: DagView,
    table: TableView,
    cover: Cover,
    id: SymbolId,
    child: u32,
    context: Context,
    imports: Seq<GenericSymbolPathNamespace>,
    count: nat,
)
    requires
        view.wf(),
        view.load() + 2 * count <= u32::MAX,
        count <= imports.len(),
        table.wf(),
        view.nodes.contains_key(id.0),
        view.nodes[id.0] == child,
        view.comes_from(cover),
        forall|i: int|
            0 <= i < imports.len() ==> import_covered(
                table,
                cover,
                id,
                context,
                #[trigger] imports[i],
            ),
    ensures
        view.with_imports(table, child, context, imports, count).comes_from(cover),
    decreases count,
{
    if count > 0 {
        let k = (count - 1) as nat;
        lemma_imports_covered(view, table, cover, id, child, context, imports, k);
        lemma_imports_grow(view, table, id, child, context, imports, k);
        let before = view.with_imports(table, child, context, imports, k);
        let import = imports[k as int];
        assert(import_covered(table, cover, id, context, import));
        if let Some(found) = table.resolve(import.0, import.1) {
            assert(table.contains(found));
            let symbol = table.symbol(found);
            if symbol.kind.is_dag_kind() {
                lemma_symbol_covered(before, table, cover, symbol);
                lemma_symbol_grows(before, table, symbol);
                lemma_with_symbol_wf(before, table, symbol);
                lemma_dag_edge_covered(
                    before.with_symbol(table, symbol),
                    cover,
                    id,
                    found,
                    context,
                );
            }
        }
    }
}

proof fn lemma_declared_covered(
    view: DagView,
    table: TableView,
    cover: Cover,
    candidate: TypeDagCandidate,
)
    requires
        view.wf(),
        table.wf(),
        parent_declared(table, candidate),
        view.load() + declared_cost(candidate) <= u32::MAX,
        view.comes_from(cover),
        declaration_covered(table, cover, candidate),
    ensures
        view.with_declared(table, candidate).comes_from(cover),
{
    if let TypeDagCandidate::Symbol { id, context, parent, import } = candidate {
        if table.contains(id) && table.symbol(id).kind.is_dag_kind() {
            let symbol = table.symbol(id);
            let inserted = view.with_symbol(table, symbol);
            lemma_with_symbol_wf(view, table, symbol);
            lemma_symbol_covered(view, table, cover, symbol);
            lemma_declaration_grows(view, table, symbol, parent);
            let declared = view.with_declaration(table, symbol, parent);
            if let Some((owner, owner_context)) = parent {
                let owner_symbol = table.symbol(owner);
                assert(owner_symbol.id == owner);
                if owner_symbol.kind.is_dag_kind() {
                    let child_node = view.node_of(id);
                    let parent_node = inserted.node_of(owner);
                    let both = inserted.with_symbol(table, owner_symbol);
                    let owned = both.with_owned(parent_node, child_node);
                    lemma_with_symbol_wf(inserted, table, owner_symbol);
                    lemma_symbol_covered(inserted, table, cover, owner_symbol);
                    lemma_with_owned_wf(both, parent_node, child_node);
                    lemma_owned_grows(both, parent_node, child_node);
                    lemma_owned_covered(both, cover, owner, id);
                    lemma_dag_edge_covered(owned, cover, id, owner, owner_context);
                }
            }
            assert(declared.comes_from(cover));
            lemma_imports_covered(
                declared,
                table,
                cover,
                id,
                view.node_of(id),
                context,
                import@,
                import@.len(),
            );
        }
    }
}

proof fn lemma_all_declared_covered(
    view: DagView,
    table: TableView,
    cover: Cover,
    candidates: Seq<TypeDagCandidate>,
    count: nat,
)
    requires
        view.wf(),
        table.wf(),
        count <= candidates.len(),
        forall|i: int|
            0 <= i < candidates.len() ==> parent_declared(table, #[trigger] candidates[i])
                && declaration_covered(table, cover, candidates[i]),
        view.load() + all_declared_cost(candidates, count) <= u32::MAX,
        view.comes_from(cover),
    ensures
        view.with_all_declared(table, candidates, count).comes_from(cover),
    decreases count,
{
    if count > 0 {
        let k = (count - 1) as nat;
        lemma_all_declared_covered(view, table, cover, candidates, k);
        lemma_all_declared_grow(view, table, candidates, k);
        assert(declaration_covered(table, cover, candidates[k as int]));
        lemma_declared_covered(
            view.with_all_declared(table, candidates, k),
            table,
            cover,
            candidates[k as int],
        );
    }
}

proof fn lemma_base_used_covered(
    view: DagView,
    table: TableView,
    cover: Cover,
    declared: DagView,
    base: Symbol,
    parent: Option<(SymbolId, Context)>,
)
    requires
        view.wf(),
        view.load() + 2 <= u32::MAX,
        table.wf(),
        view.nodes.contains_key(base.id.0),
        parent matches Some((id, _)) ==> table.contains(id),
        view.comes_from(cover),
        declared.wf(),
        declared.grows_to(view),
        base_covered(table, cover, declared, base, parent),
    ensures
        view.with_base_used(table, base, parent).comes_from(cover),
{
    if let Some(parent) = parent {
        let (user, context) = user_of(table, base, parent);
        if let Some(package) = table.entries[parent.0.0].parent_package {
            assert(table.contains(parent.0));
            assert(table.contains(package));
        }
        assert(table.contains(user.id));
        if user.kind.is_dag_kind() {
            let inserted = view.with_symbol(table, user);
            lemma_with_symbol_wf(view, table, user);
            lemma_symbol_covered(view, table, cover, user);
            lemma_symbol_grows(view, table, user);
            if declared.owns(user.id, base.id) {
                lemma_stays_settled(declared, view, user.id, base.id, context);
                lemma_stays_settled(view, inserted, user.id, base.id, context);
            } else {
                lemma_dag_edge_covered(inserted, cover, user.id, base.id, context);
            }
        }
    }
}

proof fn lemma_arguments_covered(
    view: DagView,
    table: TableView,
    cover: Cover,
    id: SymbolId,
    base: u32,
    namespace: Namespace,
    arguments: Seq<SymbolPath>,
    count: nat,
)
    requires
        view.wf(),
        view.load() + 2 * count <= u32::MAX,
        count <= arguments.len(),
        table.wf(),
        view.nodes.contains_key(id.0),
        view.nodes[id.0] == base,
        view.comes_from(cover),
        forall|i: int|
            0 <= i < arguments.len() ==> argument_covered(
                table,
                cover,
                id,
                namespace,
                #[trigger] arguments[i],
            ),
    ensures
        view.with_arguments(table, base, namespace, arguments, count).comes_from(cover),
    decreases count,
{
    if count > 0 {
        let k = (count - 1) as nat;
        lemma_arguments_covered(view, table, cover, id, base, namespace, arguments, k);
        lemma_arguments_grow(view, table, id, base, namespace, arguments, k);
        let before = view.with_arguments(table, base, namespace, arguments, k);
        let path = arguments[k as int];
        assert(argument_covered(table, cover, id, namespace, path));
        if let Some(argument) = table.target(path, namespace) {
            lemma_target_known(table, path, namespace);
            if argument.kind.is_dag_kind() {
                lemma_with_symbol_wf(before, table, argument);
                lemma_symbol_covered(before, table, cover, argument);
                lemma_symbol_grows(before, table, argument);
                lemma_dag_edge_covered(
                    before.with_symbol(table, argument),
                    cover,
                    id,
                    argument.id,
                    Context::GenericInstance,
                );
            }
        }
    }
}

proof fn lemma_element_covered(
    view: DagView,
    table: TableView,
    cover: Cover,
    declared: DagView,
    element: GenericSymbol,
    namespace: Namespace,
    parent: Option<(SymbolId, Context)>,
)
    requires
        view.wf(),
        view.load() + 3 + 2 * element.arguments@.len() <= u32::MAX,
        table.wf(),
        parent matches Some((id, _)) ==> table.contains(id),
        view.comes_from(cover),
        declared.wf(),
        declared.grows_to(view),
        element_covered(table, cover, declared, element, namespace, parent),
    ensures
        view.with_element(table, element, namespace, parent).comes_from(cover),
{
    if let Some(base) = table.target(element.base_path, namespace) {
        lemma_target_known(table, element.base_path, namespace);
        if base.kind.is_dag_kind() {
            let inserted = view.with_symbol(table, base);
            let used = inserted.with_base_used(table, base, parent);
            lemma_with_symbol_wf(view, table, base);
            lemma_symbol_covered(view, table, cover, base);
            lemma_symbol_grows(view, table, base);
            lemma_grows_transitive(declared, view, inserted);
            lemma_base_used_grows(inserted, table, base, parent);
            lemma_base_used_covered(inserted, table, cover, declared, base, parent);
            lemma_arguments_covered(
                used,
                table,
                cover,
                base.id,
                view.node_of(base.id),
                namespace,
                element.arguments@,
                element.arguments@.len(),
            );
        }
    }
}

proof fn lemma_elements_covered(
    view: DagView,
    table: TableView,
    cover: Cover,
    declared: DagView,
    elements: Seq<GenericSymbol>,
    namespace: Namespace,
    parent: Option<(SymbolId, Context)>,
    count: nat,
)
    requires
        view.wf(),
        view.load() + elements_cost(elements, count) <= u32::MAX,
        count <= elements.len(),
        table.wf(),
        parent matches Some((id, _)) ==> table.contains(id),
        view.comes_from(cover),
        declared.wf(),
        declared.grows_to(view),
        elements_covered(table, cover, declared, elements, namespace, parent),
    ensures
        view.with_elements(table, elements, namespace, parent, count).comes_from(cover),
    decreases count,
{
    if count > 0 {
        let k = (count - 1) as nat;
        lemma_elements_covered(view, table, cover, declared, elements, namespace, parent, k);
        lemma_elements_grow(view, table, elements, namespace, parent, k);
        let before = view.with_elements(table, elements, namespace, parent, k);
        lemma_grows_transitive(declared, view, before);
        assert(element_covered(table, cover, declared, elements[k as int], namespace, parent));
        lemma_element_covered(before, table, cover, declared, elements[k as int], namespace, parent);
    }
}

proof fn lemma_instances_covered(
    view: DagView,
    table: TableView,
    cover: Cover,
    declared: DagView,
    path: GenericSymbolPath,
    namespace: Namespace,
    parent: (SymbolId, Context),
    maps: Seq<GenericMap>,
    count: nat,
)
    requires
        view.wf(),
        view.load() + instances_cost(table, path, namespace, maps, count) <= u32::MAX,
        count <= maps.len(),
        table.wf(),
        table.contains(parent.0),
        view.comes_from(cover),
        declared.wf(),
        declared.grows_to(view),
        forall|m: int|
            0 <= m < maps.len() ==> elements_covered(
                table,
                cover,
                declared,
                instance_elements(table, path, namespace, Some(#[trigger] maps[m])),
                namespace,
                Some(parent),
            ),
    ensures
        view.with_instances(table, path, namespace, Some(parent), maps, count).comes_from(cover),
    decreases count,
{
    if count > 0 {
        let k = (count - 1) as nat;
        lemma_instances_covered(view, table, cover, declared, path, namespace, parent, maps, k);
        lemma_instances_grow(view, table, path, namespace, parent, maps, k);
        let before = view.with_instances(table, path, namespace, Some(parent), maps, k);
        let elements = instance_elements(table, path, namespace, Some(maps[k as int]));
        lemma_grows_transitive(declared, view, before);
        lemma_elements_covered(
            before,
            table,
            cover,
            declared,
            elements,
            namespace,
            Some(parent),
            elements.len(),
        );
    }
}

proof fn lemma_all_used_covered(
    view: DagView,
    table: TableView,
    cover: Cover,
    candidates: Seq<TypeDagCandidate>,
    count: nat,
)
    requires
        view.wf(),
        table.wf(),
        count <= candidates.len(),
        forall|i: int|
            0 <= i < candidates.len() ==> parent_declared(table, #[trigger] candidates[i])
                && use_covered(table, cover, view, candidates[i]),
        view.load() + all_used_cost(table, candidates, count) <= u32::MAX,
        view.comes_from(cover),
    ensures
        view.with_all_used(table, candidates, count).comes_from(cover),
    decreases count,
{
    if count > 0 {
        let k = (count - 1) as nat;
        lemma_all_used_covered(view, table, cover, candidates, k);
        lemma_all_used_grow(view, table, candidates, k);
        let before = view.with_all_used(table, candidates, k);
        let candidate = candidates[k as int];
        assert(parent_declared(table, candidate) && use_covered(table, cover, view, candidate));
        if let TypeDagCandidate::Path { path, namespace, parent } = candidate {
            match parent {
                Some(parent) => {
                    let maps = table.entries[parent.0.0].generic_maps@;
                    lemma_instances_covered(
                        before,
                        table,
                        cover,
                        view,
                        path,
                        namespace,
                        parent,
                        maps,
                        maps.len(),
                    );
                },
                None => {
                    let elements = instance_elements(table, path, namespace, None);
                    lemma_elements_covered(
                        before,
                        table,
                        cover,
                        view,
                        elements,
                        namespace,
                        None,
                        elements.len(),
                    );
                },
            }
        }
    }
}

/// After applying, everything was there before or is covered.
pub proof fn lemma_apply_covered(dag: DagView, table: TableView, cover: Cover)
    requires
        dag.wf(),
        dag.applicable(table),
        cover.old == dag,
        forall|i: int|
            0 <= i < dag.candidates.len() ==> declaration_covered(
                table,
                cover,
                #[trigger] dag.candidates[i],
            ) && use_covered(table, cover, dag.declared(table), dag.candidates[i]),
    ensures
        dag.applied(table).comes_from(cover),
{
    let candidates = dag.candidates;
    let taken = DagView { candidates: Seq::empty(), ..dag };
    assert forall|p: u32, c: u32| #[trigger] taken.is_owned(p, c) implies dag.is_owned(p, c) by {}
    lemma_all_declared_grow(taken, table, candidates, candidates.len());
    lemma_all_declared_covered(taken, table, cover, candidates, candidates.len());
    lemma_all_used_covered(dag.declared(table), table, cover, candidates, candidates.len());
}

} // verus!
