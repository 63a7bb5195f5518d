//! Which dependencies candidates ask for, and that applying them inserts exactly those.
use crate::context::Context;
use crate::dag_arguments::lemma_arguments_applied;
use crate::dag_growth::{lemma_all_declared_grow, lemma_target_known};
use crate::dag_origin::{
    argument_covered, declaration_covered, element_covered, elements_covered, import_covered,
    lemma_apply_covered, use_covered, Cover,
};
use crate::dag_ranking::{
    argument_ranked, declaration_ranked, element_ranked, elements_ranked, import_ranked,
    law_no_false_cycle, use_ranked, Rank,
};
use crate::dag_view::{instance_elements, user_of, DagView};
use crate::graph::has_edge;
use crate::laws::{law_apply_complete, law_apply_grows};
use crate::symbol::{
    GenericMap, GenericSymbol, GenericSymbolPath, Namespace, Symbol, SymbolId, SymbolPath,
};
use crate::symbol_table::TableView;
use crate::type_dag::{DagError, TypeDagCandidate};
use vstd::prelude::*;

verus! {

/// `path` stands for `symbol`, and the symbol is one of those that are nodes.
pub open spec fn stands_for(
    table: TableView,
    path: SymbolPath,
    namespace: Namespace,
    symbol: Symbol,
) -> bool {
    table.target(path, namespace) == Some(symbol) && symbol.kind.is_dag_kind()
}

/// The elements that a path comes to under an assignment: imports are resolved under it, and then it
/// is applied.
pub open spec fn assigned_elements(
    table: TableView,
    path: GenericSymbolPath,
    namespace: Namespace,
    map: GenericMap,
) -> Seq<GenericSymbol> {
    table.elements(table.apply_map(table.resolve_imported(path, namespace, Some(map)), map))
}

/// The elements that a path comes to where it stands in no symbol: only imports are resolved.
pub open spec fn plain_elements(
    table: TableView,
    path: GenericSymbolPath,
    namespace: Namespace,
) -> Seq<GenericSymbol> {
    table.elements(table.resolve_imported(path, namespace, None))
}

/// `element` is one of those that the path in a candidate comes to, in `namespace`.
pub open spec fn holds_element(
    table: TableView,
    candidate: TypeDagCandidate,
    namespace: Namespace,
    element: GenericSymbol,
) -> bool {
    match candidate {
        TypeDagCandidate::Path { path, namespace: own, parent: Some((parent, _)) } => own
            == namespace && exists|m: int, i: int|
            0 <= m < table.entries[parent.0].generic_maps@.len() && 0 <= i < assigned_elements(
                table,
                path,
                namespace,
                table.entries[parent.0].generic_maps@[m],
            ).len() && #[trigger] assigned_elements(
                table,
                path,
                namespace,
                table.entries[parent.0].generic_maps@[m],
            )[i] == element,
        TypeDagCandidate::Path { path, namespace: own, parent: None } => own == namespace
            && exists|i: int|
            0 <= i < plain_elements(table, path, namespace).len() && #[trigger] plain_elements(
                table,
                path,
                namespace,
            )[i] == element,
        TypeDagCandidate::Symbol { .. } => false,
    }
}

/// A use of `base` in `parent` is a use by `user` in `context`: by the package in which `parent` is
/// declared, unless that is `base` itself, and else by `parent`.
pub open spec fn is_use_by(
    table: TableView,
    parent: (SymbolId, Context),
    base: SymbolId,
    user: SymbolId,
    context: Context,
) -> bool {
    match table.entries[parent.0.0].parent_package {
        Some(package) if package != base => user == package && context == Context::Package,
        _ => user == parent.0 && context == parent.1,
    }
}

/// A candidate asks for the dependency of `user` on `base` because a path in it stands for `base`.
pub open spec fn asks_by_use(
    table: TableView,
    candidate: TypeDagCandidate,
    user: SymbolId,
    base: SymbolId,
    context: Context,
) -> bool {
    match candidate {
        TypeDagCandidate::Path { namespace, parent: Some(parent), .. } => {
            &&& is_use_by(table, parent, base, user, context)
            &&& table.symbol(user).kind.is_dag_kind()
            &&& exists|element: GenericSymbol| #[trigger]
                holds_element(table, candidate, namespace, element) && stands_for(
                    table,
                    element.base_path,
                    namespace,
                    table.symbol(base),
                ) && table.symbol(base).id == base
        },
        _ => false,
    }
}

/// A candidate asks for the dependency of `user` on `base` because `base` is a generic argument of
/// `user` in a path.
pub open spec fn asks_by_argument(
    table: TableView,
    candidate: TypeDagCandidate,
    user: SymbolId,
    base: SymbolId,
) -> bool {
    match candidate {
        TypeDagCandidate::Path { namespace, .. } => exists|element: GenericSymbol, j: int|
            {
                &&& #[trigger] holds_element(table, candidate, namespace, element)
                &&& stands_for(table, element.base_path, namespace, table.symbol(user))
                &&& table.symbol(user).id == user
                &&& 0 <= j < element.arguments@.len()
                &&& stands_for(
                    table,
                    #[trigger] element.arguments@[j],
                    namespace,
                    table.symbol(base),
                )
                &&& table.symbol(base).id == base
            },
        _ => false,
    }
}

/// A candidate declares `id` in `owner`, and both are nodes.
pub open spec fn asks_by_declaration(
    table: TableView,
    candidate: TypeDagCandidate,
    id: SymbolId,
    owner: SymbolId,
    context: Context,
) -> bool {
    match candidate {
        TypeDagCandidate::Symbol { id: own, parent, .. } => {
            &&& own == id
            &&& parent == Some((owner, context))
            &&& table.contains(id)
            &&& table.symbol(id).kind.is_dag_kind()
            &&& table.symbol(owner).kind.is_dag_kind()
        },
        _ => false,
    }
}

/// A candidate declares `id`, which imports `base`, and both are nodes.
pub open spec fn asks_by_import(
    table: TableView,
    candidate: TypeDagCandidate,
    id: SymbolId,
    base: SymbolId,
    context: Context,
) -> bool {
    match candidate {
        TypeDagCandidate::Symbol { id: own, context: used, import, .. } => {
            &&& own == id
            &&& used == context
            &&& table.contains(id)
            &&& table.symbol(id).kind.is_dag_kind()
            &&& table.symbol(base).kind.is_dag_kind()
            &&& exists|i: int|
                0 <= i < import@.len() && table.resolve(
                    (#[trigger] import@[i]).0,
                    import@[i].1,
                ) == Some(base)
        },
        _ => false,
    }
}

/// In `after`, `user` and `base` are nodes, and `user` depends on `base`: there is an edge between
/// their nodes, or `user` owns `base`, or the two are one symbol that is used as a module, an
/// interface or a function, or the cycle that the edge would close is among the errors.
pub open spec fn is_answered(after: DagView, user: SymbolId, base: SymbolId, context: Context) -> bool {
    &&& after.nodes.contains_key(user.0)
    &&& after.nodes.contains_key(base.0)
    &&& {
        let u = after.nodes[user.0];
        let b = after.nodes[base.0];
        ||| has_edge(after.incoming, b, u)
        ||| after.owned.contains_key(u) && after.owned[u].contains(b)
        ||| user == base && (context is Module || context is Interface || context is Function)
        ||| after.errors.contains(DagError::Cyclic(after.symbols[b], after.symbols[u]))
    }
}

/// What was dealt with was answered.
proof fn lemma_depends_answered(
    after: DagView,
    user: SymbolId,
    base: SymbolId,
    context: Context,
)
    requires
        after.wf(),
        after.depends(user, base, context),
    ensures
        is_answered(after, user, base, context),
{
    assert(after.symbols[after.nodes[user.0]].id.0 == user.0);
    assert(after.symbols[after.nodes[base.0]].id.0 == base.0);
}

/// An element of a path is dealt with in the state after applying.
proof fn lemma_element_used(
    dag: DagView,
    table: TableView,
    c: int,
    namespace: Namespace,
    element: GenericSymbol,
)
    requires
        dag.wf(),
        dag.applicable(table),
        0 <= c < dag.candidates.len(),
        holds_element(table, dag.candidates[c], namespace, element),
    ensures
        dag.candidates[c] matches TypeDagCandidate::Path { parent, .. }
            && dag.applied(table).uses_element(table, element, namespace, parent),
        dag.applied(table).enters_element(table, element, namespace),
        dag.candidates[c] matches TypeDagCandidate::Path { parent: Some((id, _)), .. }
            ==> table.contains(id),
{
    law_apply_complete(dag, table);
    lemma_arguments_applied(dag, table);
    let candidate = dag.candidates[c];
    assert(dag.applied(table).uses(table, candidate));
    assert(dag.applied(table).enters_candidate(table, candidate));
    assert(crate::dag_view::parent_declared(table, candidate));
    match candidate {
        TypeDagCandidate::Path { path, namespace: own, parent: Some((id, context)) } => {
            let maps = table.entries[id.0].generic_maps@;
            let (m, i) = choose|m: int, i: int|
                0 <= m < maps.len() && 0 <= i < assigned_elements(
                    table,
                    path,
                    namespace,
                    maps[m],
                ).len() && #[trigger] assigned_elements(table, path, namespace, maps[m])[i]
                    == element;
            assert(instance_elements(table, path, namespace, Some(maps[m]))[i]
                == element);
        },
        TypeDagCandidate::Path { path, namespace: own, parent: None } => {
            let elements = instance_elements(table, path, namespace, None);
            let i = choose|i: int|
                0 <= i < plain_elements(table, path, namespace).len()
                    && #[trigger] plain_elements(table, path, namespace)[i] == element;
            assert(elements[i] == element);
        },
        _ => {},
    }
}

/// After applying, every use that a candidate asks for has been answered.
pub proof fn law_use_answered(
    dag: DagView,
    table: TableView,
    c: int,
    user: SymbolId,
    base: SymbolId,
    context: Context,
)
    requires
        dag.wf(),
        dag.applicable(table),
        0 <= c < dag.candidates.len(),
        asks_by_use(table, dag.candidates[c], user, base, context),
    ensures
        is_answered(dag.applied(table), user, base, context),
{
    law_apply_grows(dag, table);
    if let TypeDagCandidate::Path { namespace, parent: Some(parent), .. } = dag.candidates[c] {
        let element = choose|element: GenericSymbol| #[trigger]
            holds_element(table, dag.candidates[c], namespace, element) && stands_for(
                table,
                element.base_path,
                namespace,
                table.symbol(base),
            ) && table.symbol(base).id == base;
        lemma_element_used(dag, table, c, namespace, element);
        assert(table.contains(parent.0));
        if let Some(package) = table.entries[parent.0.0].parent_package {
            assert(table.contains(package));
        }
        assert(table.contains(user));
        lemma_depends_answered(dag.applied(table), user, base, context);
    }
}

/// After applying, every generic argument is a dependency of what takes it, or the cycle that the
/// dependency would close is among the errors.
pub proof fn law_argument_answered(
    dag: DagView,
    table: TableView,
    c: int,
    user: SymbolId,
    base: SymbolId,
)
    requires
        dag.wf(),
        dag.applicable(table),
        0 <= c < dag.candidates.len(),
        asks_by_argument(table, dag.candidates[c], user, base),
    ensures
        ({
            let after = dag.applied(table);
            let u = after.nodes[user.0];
            let b = after.nodes[base.0];
            &&& after.nodes.contains_key(user.0)
            &&& after.nodes.contains_key(base.0)
            &&& has_edge(after.incoming, b, u) || after.errors.contains(
                DagError::Cyclic(after.symbols[b], after.symbols[u]),
            )
        }),
{
    if let TypeDagCandidate::Path { namespace, .. } = dag.candidates[c] {
        let (element, j) = choose|element: GenericSymbol, j: int|
            {
                &&& #[trigger] holds_element(table, dag.candidates[c], namespace, element)
                &&& stands_for(table, element.base_path, namespace, table.symbol(user))
                &&& table.symbol(user).id == user
                &&& 0 <= j < element.arguments@.len()
                &&& stands_for(
                    table,
                    #[trigger] element.arguments@[j],
                    namespace,
                    table.symbol(base),
                )
                &&& table.symbol(base).id == base
            };
        lemma_element_used(dag, table, c, namespace, element);
        assert(dag.applied(table).enters_argument(table, user, namespace, element.arguments@[j]));
    }
}

/// After applying, the symbol in which a symbol is declared owns it, and the declared symbol depends
/// on it.
pub proof fn law_declaration_answered(
    dag: DagView,
    table: TableView,
    c: int,
    id: SymbolId,
    owner: SymbolId,
    context: Context,
)
    requires
        dag.wf(),
        dag.applicable(table),
        0 <= c < dag.candidates.len(),
        asks_by_declaration(table, dag.candidates[c], id, owner, context),
    ensures
        ({
            let after = dag.applied(table);
            let o = after.nodes[owner.0];
            &&& is_answered(after, id, owner, context)
            &&& after.owned.contains_key(o) && after.owned[o].contains(after.nodes[id.0])
        }),
{
    law_apply_complete(dag, table);
    law_apply_grows(dag, table);
    assert(dag.applied(table).declares(table, dag.candidates[c]));
    lemma_depends_answered(dag.applied(table), id, owner, context);
}

/// After applying, every import has been answered.
pub proof fn law_import_answered(
    dag: DagView,
    table: TableView,
    c: int,
    id: SymbolId,
    base: SymbolId,
    context: Context,
)
    requires
        dag.wf(),
        dag.applicable(table),
        0 <= c < dag.candidates.len(),
        asks_by_import(table, dag.candidates[c], id, base, context),
    ensures
        is_answered(dag.applied(table), id, base, context),
{
    law_apply_complete(dag, table);
    law_apply_grows(dag, table);
    let after = dag.applied(table);
    assert(after.declares(table, dag.candidates[c]));
    if let TypeDagCandidate::Symbol { import, .. } = dag.candidates[c] {
        let i = choose|i: int|
            0 <= i < import@.len() && table.resolve((#[trigger] import@[i]).0, import@[i].1)
                == Some(base);
        assert(after.imports(table, id, context, import@[i]));
        lemma_depends_answered(after, id, base, context);
    }
}

/// Each element of a path that stands in a symbol counts, under each assignment with which the symbol
/// is used, as it is after its imports were resolved and the assignment was applied. Where it
/// stands for a symbol that is a node, that symbol is used by the package in which the symbol of
/// the path is declared, whatever kind of symbol is used, unless it is that package; and else by
/// the symbol of the path.
pub proof fn law_element_answered(
    dag: DagView,
    table: TableView,
    c: int,
    path: GenericSymbolPath,
    namespace: Namespace,
    parent: SymbolId,
    context: Context,
    m: int,
    i: int,
    base: Symbol,
)
    requires
        dag.wf(),
        dag.applicable(table),
        0 <= c < dag.candidates.len(),
        dag.candidates[c] == (TypeDagCandidate::Path {
            path,
            namespace,
            parent: Some((parent, context)),
        }),
        0 <= m < table.entries[parent.0].generic_maps@.len(),
        ({
            let map = table.entries[parent.0].generic_maps@[m];
            let imported = table.resolve_imported(path, namespace, Some(map));
            let elements = table.elements(table.apply_map(imported, map));
            &&& 0 <= i < elements.len()
            &&& table.target(elements[i].base_path, namespace) == Some(base)
        }),
        base.kind.is_dag_kind(),
    ensures
        ({
            let after = dag.applied(table);
            &&& after.nodes.contains_key(base.id.0)
            &&& table.entries[parent.0].parent_package matches Some(package) ==> package != base.id
                && table.symbol(package).kind.is_dag_kind() ==> is_answered(
                after,
                package,
                base.id,
                Context::Package,
            )
            &&& (table.entries[parent.0].parent_package is None
                || table.entries[parent.0].parent_package == Some(base.id)) && table.symbol(
                parent,
            ).kind.is_dag_kind() ==> is_answered(after, parent, base.id, context)
        }),
{
    let map = table.entries[parent.0].generic_maps@[m];
    let imported = table.resolve_imported(path, namespace, Some(map));
    let element = table.elements(table.apply_map(imported, map))[i];
    let candidate = dag.candidates[c];
    assert(assigned_elements(table, path, namespace, map)[i] == element);
    assert(holds_element(table, candidate, namespace, element));
    lemma_target_known(table, element.base_path, namespace);
    lemma_element_used(dag, table, c, namespace, element);
    assert(stands_for(table, element.base_path, namespace, table.symbol(base.id)));
    let (user, used) = match table.entries[parent.0].parent_package {
        Some(package) if package != base.id => (package, Context::Package),
        _ => (parent, context),
    };
    if table.symbol(user).kind.is_dag_kind() {
        assert(asks_by_use(table, candidate, user, base.id, used));
        law_use_answered(dag, table, c, user, base.id, used);
    }
}

/// Two symbols each of which is used by the other, and of which neither owns the other, are reported
/// as a cycle. So are two packages whose members use each other.
pub proof fn law_mutual_use_reported(
    dag: DagView,
    table: TableView,
    c: int,
    d: int,
    a: SymbolId,
    b: SymbolId,
    context: Context,
    other: Context,
)
    requires
        dag.wf(),
        dag.applicable(table),
        0 <= c < dag.candidates.len(),
        0 <= d < dag.candidates.len(),
        asks_by_use(table, dag.candidates[c], a, b, context),
        asks_by_use(table, dag.candidates[d], b, a, other),
        a != b,
        !dag.applied(table).owns(a, b),
        !dag.applied(table).owns(b, a),
    ensures
        ({
            let after = dag.applied(table);
            let x = after.symbols[after.nodes[a.0]];
            let y = after.symbols[after.nodes[b.0]];
            after.errors.contains(DagError::Cyclic(x, y)) || after.errors.contains(
                DagError::Cyclic(y, x),
            )
        }),
{
    let after = dag.applied(table);
    law_apply_grows(dag, table);
    law_use_answered(dag, table, c, a, b, context);
    law_use_answered(dag, table, d, b, a, other);
    let x = after.nodes[a.0];
    let y = after.nodes[b.0];
    if has_edge(after.incoming, y, x) && has_edge(after.incoming, x, y) {
        crate::graph::lemma_edge_reaches(after.incoming, x, y);
    }
}

/// `base` is declared in `user`: it was before, or a candidate declares it there.
pub open spec fn is_declared_in(dag: DagView, table: TableView, base: SymbolId, user: SymbolId) -> bool {
    dag.owns(user, base) || exists|d: int, context: Context|
        0 <= d < dag.candidates.len() && #[trigger] asks_by_declaration(
            table,
            dag.candidates[d],
            base,
            user,
            context,
        )
}

/// Some candidate asks for the dependency of `user` on `base`. The use of what is declared in the user
/// is no dependency.
pub open spec fn is_asked(dag: DagView, table: TableView, user: SymbolId, base: SymbolId) -> bool {
    exists|c: int, context: Context|
        0 <= c < dag.candidates.len() && #[trigger] asks(
            dag,
            table,
            dag.candidates[c],
            user,
            base,
            context,
        )
}

/// This candidate asks for it, in this context.
pub open spec fn asks(
    dag: DagView,
    table: TableView,
    candidate: TypeDagCandidate,
    user: SymbolId,
    base: SymbolId,
    context: Context,
) -> bool {
    ||| asks_by_declaration(table, candidate, user, base, context)
    ||| asks_by_import(table, candidate, user, base, context)
    ||| context == Context::GenericInstance && asks_by_argument(table, candidate, user, base)
    ||| asks_by_use(table, candidate, user, base, context) && !is_declared_in(
        dag,
        table,
        base,
        user,
    )
}

/// A candidate needs a node for a symbol: it declares the symbol, or declares something in it, or
/// imports it, or a path in it or a generic argument there stands for it, or it is the user of a
/// path.
pub open spec fn needs(table: TableView, candidate: TypeDagCandidate, id: SymbolId) -> bool {
    ||| candidate matches TypeDagCandidate::Symbol { id: own, .. } && own == id && table.contains(id)
        && table.symbol(id).kind.is_dag_kind()
    ||| exists|other: SymbolId, context: Context| #[trigger]
        asks_by_declaration(table, candidate, other, id, context)
    ||| exists|other: SymbolId, context: Context| #[trigger]
        asks_by_import(table, candidate, other, id, context)
    ||| exists|namespace: Namespace, element: GenericSymbol| #[trigger]
        holds_element(table, candidate, namespace, element) && table.symbol(id).id == id
            && stands_for(table, element.base_path, namespace, table.symbol(id))
    ||| exists|other: SymbolId, context: Context| #[trigger]
        asks_by_use(table, candidate, id, other, context)
    ||| exists|other: SymbolId| #[trigger] asks_by_argument(table, candidate, other, id)
}

/// Some candidate needs a node for the symbol.
pub open spec fn is_needed(dag: DagView, table: TableView, id: SymbolId) -> bool {
    exists|c: int| 0 <= c < dag.candidates.len() && needs(table, #[trigger] dag.candidates[c], id)
}

/// Some candidate declares `child` in `owner`.
pub open spec fn is_asked_owner(
    dag: DagView,
    table: TableView,
    owner: SymbolId,
    child: SymbolId,
) -> bool {
    exists|c: int, context: Context|
        0 <= c < dag.candidates.len() && #[trigger] asks_by_declaration(
            table,
            dag.candidates[c],
            child,
            owner,
            context,
        )
}

/// What the candidates ask for.
spec fn asked_cover(dag: DagView, table: TableView) -> Cover {
    Cover {
        old: dag,
        deps: |user: SymbolId, base: SymbolId| is_asked(dag, table, user, base),
        owners: |owner: SymbolId, child: SymbolId| is_asked_owner(dag, table, owner, child),
        known: |id: SymbolId| is_needed(dag, table, id),
    }
}

/// What is declared in a symbol is owned by it when the uses are looked at.
proof fn lemma_declared_owns(dag: DagView, table: TableView, base: SymbolId, user: SymbolId)
    requires
        dag.wf(),
        dag.applicable(table),
        is_declared_in(dag, table, base, user),
    ensures
        dag.declared(table).owns(user, base),
{
    let candidates = dag.candidates;
    let taken = DagView { candidates: Seq::empty(), ..dag };
    lemma_all_declared_grow(taken, table, candidates, candidates.len());
    if dag.owns(user, base) {
        assert(taken.is_owned(taken.nodes[user.0], taken.nodes[base.0]));
        assert(taken.owns(user, base));
        crate::dag_growth::lemma_stays_settled(
            taken,
            dag.declared(table),
            user,
            base,
            Context::Irrelevant,
        );
    } else {
        let (d, context) = choose|d: int, context: Context|
            0 <= d < candidates.len() && #[trigger] asks_by_declaration(
                table,
                candidates[d],
                base,
                user,
                context,
            );
        assert(dag.declared(table).declares(table, candidates[d]));
    }
}

/// The user of a declared symbol is declared, as the table holds it.
proof fn lemma_user_known(table: TableView, base: Symbol, parent: (SymbolId, Context))
    requires
        table.wf(),
        table.contains(parent.0),
    ensures
        ({
            let (user, context) = user_of(table, base, parent);
            &&& table.contains(user.id)
            &&& table.symbol(user.id) == user
            &&& is_use_by(table, parent, base.id, user.id, context)
        }),
{
    if let Some(package) = table.entries[parent.0.0].parent_package {
        assert(table.contains(package));
    }
}

proof fn lemma_declaration_covered(dag: DagView, table: TableView, c: int)
    requires
        dag.wf(),
        dag.applicable(table),
        0 <= c < dag.candidates.len(),
    ensures
        declaration_covered(table, asked_cover(dag, table), dag.candidates[c]),
{
    let cover = asked_cover(dag, table);
    let candidate = dag.candidates[c];
    if let TypeDagCandidate::Symbol { id, context, parent, import } = candidate {
        if table.contains(id) && table.symbol(id).kind.is_dag_kind() {
            assert(needs(table, dag.candidates[c], id));
            if let Some((owner, owner_context)) = parent {
                if table.symbol(owner).kind.is_dag_kind() {
                    assert(asks_by_declaration(table, candidate, id, owner, owner_context));
                    assert(asks(dag, table, dag.candidates[c], id, owner, owner_context));
                    assert(needs(table, dag.candidates[c], owner));
                }
            }
            assert forall|i: int| 0 <= i < import@.len() implies import_covered(
                table,
                cover,
                id,
                context,
                #[trigger] import@[i],
            ) by {
                if let Some(found) = table.resolve(import@[i].0, import@[i].1) {
                    if table.symbol(found).kind.is_dag_kind() {
                        assert(asks_by_import(table, candidate, id, found, context));
                        assert(asks(dag, table, dag.candidates[c], id, found, context));
                        assert(needs(table, dag.candidates[c], found));
                    }
                }
            }
        }
    }
}

proof fn lemma_element_covered(
    dag: DagView,
    table: TableView,
    c: int,
    namespace: Namespace,
    element: GenericSymbol,
    parent: Option<(SymbolId, Context)>,
)
    requires
        dag.wf(),
        dag.applicable(table),
        0 <= c < dag.candidates.len(),
        holds_element(table, dag.candidates[c], namespace, element),
        dag.candidates[c] matches TypeDagCandidate::Path { parent: own, .. } && own == parent,
    ensures
        element_covered(
            table,
            asked_cover(dag, table),
            dag.declared(table),
            element,
            namespace,
            parent,
        ),
{
    let cover = asked_cover(dag, table);
    let candidate = dag.candidates[c];
    assert(crate::dag_view::parent_declared(table, dag.candidates[c]));
    lemma_target_known(table, element.base_path, namespace);
    if let Some(base) = table.target(element.base_path, namespace) {
        if base.kind.is_dag_kind() {
            assert(stands_for(table, element.base_path, namespace, table.symbol(base.id)));
            assert(needs(table, dag.candidates[c], base.id));
            if let Some(parent) = parent {
                let (user, context) = user_of(table, base, parent);
                lemma_user_known(table, base, parent);
                if user.kind.is_dag_kind() {
                    assert(asks_by_use(table, candidate, user.id, base.id, context));
                    assert(needs(table, dag.candidates[c], user.id));
                    if is_declared_in(dag, table, base.id, user.id) {
                        lemma_declared_owns(dag, table, base.id, user.id);
                    } else {
                        assert(asks(dag, table, dag.candidates[c], user.id, base.id, context));
                    }
                }
            }
            assert forall|i: int| 0 <= i < element.arguments@.len() implies argument_covered(
                table,
                cover,
                base.id,
                namespace,
                #[trigger] element.arguments@[i],
            ) by {
                let path = element.arguments@[i];
                lemma_target_known(table, path, namespace);
                if let Some(symbol) = table.target(path, namespace) {
                    if symbol.kind.is_dag_kind() {
                        assert(stands_for(table, path, namespace, table.symbol(symbol.id)));
                        assert(asks_by_argument(table, candidate, base.id, symbol.id));
                        assert(needs(table, dag.candidates[c], symbol.id));
                        assert(asks(
                            dag,
                            table,
                            dag.candidates[c],
                            base.id,
                            symbol.id,
                            Context::GenericInstance,
                        ));
                    }
                }
            }
        }
    }
}

proof fn lemma_use_covered(dag: DagView, table: TableView, c: int)
    requires
        dag.wf(),
        dag.applicable(table),
        0 <= c < dag.candidates.len(),
    ensures
        use_covered(table, asked_cover(dag, table), dag.declared(table), dag.candidates[c]),
{
    let cover = asked_cover(dag, table);
    let declared = dag.declared(table);
    match dag.candidates[c] {
        TypeDagCandidate::Path { path, namespace, parent: Some(parent) } => {
            let maps = table.entries[parent.0.0].generic_maps@;
            assert forall|m: int| 0 <= m < maps.len() implies elements_covered(
                table,
                cover,
                declared,
                instance_elements(table, path, namespace, Some(#[trigger] maps[m])),
                namespace,
                Some(parent),
            ) by {
                let elements = instance_elements(table, path, namespace, Some(maps[m]));
                assert forall|i: int| 0 <= i < elements.len() implies element_covered(
                    table,
                    cover,
                    declared,
                    #[trigger] elements[i],
                    namespace,
                    Some(parent),
                ) by {
                    assert(assigned_elements(table, path, namespace, maps[m])[i] == elements[i]);
                    lemma_element_covered(dag, table, c, namespace, elements[i], Some(parent));
                }
            }
        },
        TypeDagCandidate::Path { path, namespace, parent: None } => {
            let elements = instance_elements(table, path, namespace, None);
            assert forall|i: int| 0 <= i < elements.len() implies element_covered(
                table,
                cover,
                declared,
                #[trigger] elements[i],
                namespace,
                None,
            ) by {
                assert(plain_elements(table, path, namespace)[i] == elements[i]);
                lemma_element_covered(dag, table, c, namespace, elements[i], None);
            }
        },
        _ => {},
    }
}

proof fn lemma_asked(dag: DagView, table: TableView)
    requires
        dag.wf(),
        dag.applicable(table),
    ensures
        dag.applied(table).comes_from(asked_cover(dag, table)),
{
    let cover = asked_cover(dag, table);
    assert forall|i: int| 0 <= i < dag.candidates.len() implies declaration_covered(
        table,
        cover,
        #[trigger] dag.candidates[i],
    ) && use_covered(table, cover, dag.declared(table), dag.candidates[i]) by {
        lemma_declaration_covered(dag, table, i);
        lemma_use_covered(dag, table, i);
    }
    lemma_apply_covered(dag, table, cover);
}

/// Applying adds only what was asked for: every edge between symbols that was not there before is a
/// dependency that some candidate asks for.
pub proof fn law_edges_asked(dag: DagView, table: TableView, a: u32, b: u32)
    requires
        dag.wf(),
        dag.applicable(table),
        has_edge(dag.applied(table).incoming, a, b),
        !has_edge(dag.incoming, a, b),
        a != dag.source,
    ensures
        ({
            let after = dag.applied(table);
            is_asked(dag, table, after.symbols[b].id, after.symbols[a].id)
        }),
{
    lemma_asked(dag, table);
}

/// Every error that applying adds is one of a dependency that some candidate asks for, and names the
/// symbol that is used first and its user second.
pub proof fn law_errors_asked(dag: DagView, table: TableView, i: int)
    requires
        dag.wf(),
        dag.applicable(table),
        dag.errors.len() <= i < dag.applied(table).errors.len(),
    ensures
        ({
            let DagError::Cyclic(base, user) = dag.applied(table).errors[i];
            is_asked(dag, table, user.id, base.id)
        }),
{
    lemma_asked(dag, table);
}

/// Every symbol that gets a node is one for which some candidate needs it.
pub proof fn law_symbols_needed(dag: DagView, table: TableView, id: SymbolId)
    requires
        dag.wf(),
        dag.applicable(table),
        dag.applied(table).nodes.contains_key(id.0),
        !dag.nodes.contains_key(id.0),
    ensures
        is_needed(dag, table, id),
{
    lemma_asked(dag, table);
}

/// Applying makes a symbol the owner of another only where a candidate declares the other in it.
pub proof fn law_owners_asked(dag: DagView, table: TableView, p: u32, c: u32)
    requires
        dag.wf(),
        dag.applicable(table),
        dag.applied(table).owned.contains_key(p),
        dag.applied(table).owned[p].contains(c),
        !(dag.owned.contains_key(p) && dag.owned[p].contains(c)),
    ensures
        ({
            let after = dag.applied(table);
            is_asked_owner(dag, table, after.symbols[p].id, after.symbols[c].id)
        }),
{
    lemma_asked(dag, table);
    assert(dag.applied(table).is_owned(p, c));
}

/// No error is found where the symbols can be ranked so that each has a higher rank than all that the
/// candidates ask it to depend on. A symbol that uses itself as a module, an interface or a
/// function needs no rank.
pub proof fn law_no_false_report(dag: DagView, table: TableView, rank: Rank)
    requires
        dag.wf(),
        dag.applicable(table),
        dag.is_ranked(rank),
        forall|c: int, user: SymbolId, base: SymbolId, context: Context|
            0 <= c < dag.candidates.len() && #[trigger] asks(
                dag,
                table,
                dag.candidates[c],
                user,
                base,
                context,
            ) ==> rank(base) < rank(user) || (user == base && (context is Module
                || context is Interface || context is Function)),
    ensures
        dag.applied(table).errors == dag.errors,
{
    let declared = dag.declared(table);
    assert forall|c: int| 0 <= c < dag.candidates.len() implies declaration_ranked(
        table,
        rank,
        #[trigger] dag.candidates[c],
    ) && use_ranked(table, rank, declared, dag.candidates[c]) by {
        lemma_candidate_ranked(dag, table, rank, c);
    }
    law_no_false_cycle(dag, table, rank);
}

proof fn lemma_candidate_ranked(dag: DagView, table: TableView, rank: Rank, c: int)
    requires
        dag.wf(),
        dag.applicable(table),
        0 <= c < dag.candidates.len(),
        forall|c: int, user: SymbolId, base: SymbolId, context: Context|
            0 <= c < dag.candidates.len() && #[trigger] asks(
                dag,
                table,
                dag.candidates[c],
                user,
                base,
                context,
            ) ==> rank(base) < rank(user) || (user == base && (context is Module
                || context is Interface || context is Function)),
    ensures
        declaration_ranked(table, rank, dag.candidates[c]),
        use_ranked(table, rank, dag.declared(table), dag.candidates[c]),
{
    let declared = dag.declared(table);
    match dag.candidates[c] {
        TypeDagCandidate::Symbol { id, context, parent, import } => {
            if table.contains(id) && table.symbol(id).kind.is_dag_kind() {
                if let Some((owner, owner_context)) = parent {
                    if table.symbol(owner).kind.is_dag_kind() {
                        assert(asks(dag, table, dag.candidates[c], id, owner, owner_context));
                    }
                }
                assert forall|i: int| 0 <= i < import@.len() implies import_ranked(
                    table,
                    rank,
                    id,
                    context,
                    #[trigger] import@[i],
                ) by {
                    if let Some(found) = table.resolve(import@[i].0, import@[i].1) {
                        if table.symbol(found).kind.is_dag_kind() {
                            assert(asks_by_import(
                                table,
                                dag.candidates[c],
                                id,
                                found,
                                context,
                            ));
                            assert(asks(dag, table, dag.candidates[c], id, found, context));
                        }
                    }
                }
            }
        },
        TypeDagCandidate::Path { path, namespace, parent: Some(parent) } => {
            let maps = table.entries[parent.0.0].generic_maps@;
            assert forall|m: int| 0 <= m < maps.len() implies elements_ranked(
                table,
                rank,
                declared,
                instance_elements(table, path, namespace, Some(#[trigger] maps[m])),
                namespace,
                Some(parent),
            ) by {
                let elements = instance_elements(table, path, namespace, Some(maps[m]));
                assert forall|i: int| 0 <= i < elements.len() implies element_ranked(
                    table,
                    rank,
                    declared,
                    #[trigger] elements[i],
                    namespace,
                    Some(parent),
                ) by {
                    assert(assigned_elements(table, path, namespace, maps[m])[i] == elements[i]);
                    lemma_element_ranked(
                        dag,
                        table,
                        rank,
                        c,
                        namespace,
                        elements[i],
                        Some(parent),
                    );
                }
            }
        },
        TypeDagCandidate::Path { path, namespace, parent: None } => {
            let elements = instance_elements(table, path, namespace, None);
            assert forall|i: int| 0 <= i < elements.len() implies element_ranked(
                table,
                rank,
                declared,
                #[trigger] elements[i],
                namespace,
                None,
            ) by {
                assert(plain_elements(table, path, namespace)[i] == elements[i]);
                lemma_element_ranked(dag, table, rank, c, namespace, elements[i], None);
            }
        },
    }
}

proof fn lemma_element_ranked(
    dag: DagView,
    table: TableView,
    rank: Rank,
    c: int,
    namespace: Namespace,
    element: GenericSymbol,
    parent: Option<(SymbolId, Context)>,
)
    requires
        dag.wf(),
        dag.applicable(table),
        0 <= c < dag.candidates.len(),
        holds_element(table, dag.candidates[c], namespace, element),
        dag.candidates[c] matches TypeDagCandidate::Path { parent: own, .. } && own == parent,
        forall|c: int, user: SymbolId, base: SymbolId, context: Context|
            0 <= c < dag.candidates.len() && #[trigger] asks(
                dag,
                table,
                dag.candidates[c],
                user,
                base,
                context,
            ) ==> rank(base) < rank(user) || (user == base && (context is Module
                || context is Interface || context is Function)),
    ensures
        element_ranked(table, rank, dag.declared(table), element, namespace, parent),
{
    let candidate = dag.candidates[c];
    assert(crate::dag_view::parent_declared(table, dag.candidates[c]));
    lemma_target_known(table, element.base_path, namespace);
    if let Some(base) = table.target(element.base_path, namespace) {
        if base.kind.is_dag_kind() {
            assert(stands_for(table, element.base_path, namespace, table.symbol(base.id)));
            if let Some(parent) = parent {
                let (user, context) = user_of(table, base, parent);
                lemma_user_known(table, base, parent);
                if user.kind.is_dag_kind() {
                    assert(asks_by_use(table, candidate, user.id, base.id, context));
                    if is_declared_in(dag, table, base.id, user.id) {
                        lemma_declared_owns(dag, table, base.id, user.id);
                    } else {
                        assert(asks(dag, table, dag.candidates[c], user.id, base.id, context));
                    }
                }
            }
            assert forall|i: int| 0 <= i < element.arguments@.len() implies argument_ranked(
                table,
                rank,
                base.id,
                namespace,
                #[trigger] element.arguments@[i],
            ) by {
                let path = element.arguments@[i];
                lemma_target_known(table, path, namespace);
                if let Some(symbol) = table.target(path, namespace) {
                    if symbol.kind.is_dag_kind() {
                        assert(stands_for(table, path, namespace, table.symbol(symbol.id)));
                        assert(asks_by_argument(table, candidate, base.id, symbol.id));
                        assert(asks(
                            dag,
                            table,
                            dag.candidates[c],
                            base.id,
                            symbol.id,
                            Context::GenericInstance,
                        ));
                    }
                }
            }
        }
    }
}

} // verus!
