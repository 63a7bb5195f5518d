//! What every step adds to the graph of dependencies, and what it never takes away.
use crate::context::Context;
use crate::dag_lemmas::{lemma_with_dag_edge_wf, lemma_with_owned_wf, lemma_with_symbol_wf};
use crate::dag_view::{
    all_declared_cost, all_used_cost, declared_cost, elements_cost, instance_elements,
    instances_cost, is_allowed_recursion, parent_declared, used_cost, user_of, DagView,
};
use crate::graph::{has_edge, lemma_with_edge, lemma_without_edges};
use crate::symbol::{
    GenericMap, GenericSymbol, GenericSymbolPath, GenericSymbolPathNamespace, Namespace, Symbol,
    SymbolId, SymbolPath,
};
use crate::symbol_table::TableView;
use crate::type_dag::{DagError, TypeDagCandidate};
use vstd::prelude::*;

verus! {

impl DagView {
    /// `after` has all that this state has: each symbol keeps its node, what owns what is kept, and
    /// errors are only added behind those that were found. An edge is taken out only where the
    /// dependency that it stands for is one on what the symbol owns.
    pub open spec fn grows_to(self, after: DagView) -> bool {
        &&& self.source == after.source
        &&& self.incoming.len() <= after.incoming.len()
        &&& forall|id: usize| #[trigger]
            self.nodes.contains_key(id) ==> after.nodes.contains_key(id) && after.nodes[id]
                == self.nodes[id]
        &&& forall|n: u32| #[trigger]
            self.symbols.contains_key(n) ==> after.symbols.contains_key(n) && after.symbols[n]
                == self.symbols[n]
        &&& forall|n: u32| #[trigger]
            self.paths.contains_key(n) ==> after.paths.contains_key(n) && after.paths[n]
                == self.paths[n]
        &&& self.errors.is_prefix_of(after.errors)
        &&& self.candidates == after.candidates
        &&& forall|parent: u32, child: u32| #[trigger]
            self.is_owned(parent, child) ==> after.is_owned(parent, child)
        &&& forall|a: u32, b: u32| #[trigger]
            has_edge(self.incoming, a, b) ==> has_edge(after.incoming, a, b) || after.is_owned(b, a)
    }

    /// `after` has every edge of this state, and what owns what is the same.
    pub open spec fn only_adds(self, after: DagView) -> bool {
        &&& self.owned == after.owned
        &&& forall|a: u32, b: u32| #[trigger]
            has_edge(self.incoming, a, b) ==> has_edge(after.incoming, a, b)
    }

    /// The dependency of `user` on `base` is in the graph, or was found to close a cycle.
    pub open spec fn is_entered(self, user: u32, base: u32) -> bool {
        ||| has_edge(self.incoming, base, user)
        ||| self.errors.contains(DagError::Cyclic(self.symbols[base], self.symbols[user]))
    }

    /// The dependency of `user` on `base` was dealt with: it is in the graph, or `user` owns
    /// `base`, or it is a symbol that may use itself, or it was found to close a cycle.
    pub open spec fn is_settled(self, user: u32, base: u32, context: Context) -> bool {
        ||| has_edge(self.incoming, base, user)
        ||| self.is_owned(user, base)
        ||| is_allowed_recursion(base, user, context)
        ||| self.errors.contains(DagError::Cyclic(self.symbols[base], self.symbols[user]))
    }
}

impl DagView {
    /// Both symbols have a node, and the dependency of the first on the second was dealt with.
    pub open spec fn depends(self, user: SymbolId, base: SymbolId, context: Context) -> bool {
        &&& self.nodes.contains_key(user.0)
        &&& self.nodes.contains_key(base.0)
        &&& self.is_settled(self.nodes[user.0], self.nodes[base.0], context)
    }

    /// Both symbols have a node, and the dependency of the first on the second is in the graph, or
    /// was found to close a cycle.
    pub open spec fn enters(self, user: SymbolId, base: SymbolId) -> bool {
        &&& self.nodes.contains_key(user.0)
        &&& self.nodes.contains_key(base.0)
        &&& self.is_entered(self.nodes[user.0], self.nodes[base.0])
    }

    /// The symbol in which a symbol was declared owns it.
    pub open spec fn owns(self, parent: SymbolId, child: SymbolId) -> bool {
        &&& self.nodes.contains_key(parent.0)
        &&& self.nodes.contains_key(child.0)
        &&& self.is_owned(self.nodes[parent.0], self.nodes[child.0])
    }
}

/// Growing twice is growing.
pub proof fn lemma_grows_transitive(a: DagView, b: DagView, c: DagView)
    requires
        a.grows_to(b),
        b.grows_to(c),
    ensures
        a.grows_to(c),
        a.only_adds(b) && b.only_adds(c) ==> a.only_adds(c),
{
    assert(a.errors.is_prefix_of(c.errors)) by {
        assert(a.errors =~= c.errors.subrange(0, a.errors.len() as int));
    }
}

/// What was dealt with stays so.
pub proof fn lemma_stays_settled(
    before: DagView,
    after: DagView,
    user: SymbolId,
    base: SymbolId,
    context: Context,
)
    requires
        before.wf(),
        before.grows_to(after),
    ensures
        before.depends(user, base, context) ==> after.depends(user, base, context),
        before.owns(user, base) ==> after.owns(user, base),
        before.only_adds(after) && before.enters(user, base) ==> after.enters(user, base),
{
    if before.enters(user, base) {
        let error = DagError::Cyclic(
            before.symbols[before.nodes[base.0]],
            before.symbols[before.nodes[user.0]],
        );
        if before.errors.contains(error) {
            let i = before.errors.index_of(error);
            assert(after.errors[i] == error);
        }
    }
    if before.depends(user, base, context) {
        let error = DagError::Cyclic(
            before.symbols[before.nodes[base.0]],
            before.symbols[before.nodes[user.0]],
        );
        if before.errors.contains(error) {
            let i = before.errors.index_of(error);
            assert(after.errors[i] == error);
        }
    }
}

/// Inserting a symbol takes nothing away.
pub proof fn lemma_symbol_grows(view: DagView, table: TableView, symbol: Symbol)
    requires
        view.wf(),
        view.load() < u32::MAX,
    ensures
        view.grows_to(view.with_symbol(table, symbol)),
        view.only_adds(view.with_symbol(table, symbol)),
{
    let after = view.with_symbol(table, symbol);
    assert forall|a: u32, b: u32| #[trigger] has_edge(view.incoming, a, b) implies has_edge(
        after.incoming,
        a,
        b,
    ) by {
        let k = choose|k: int|
            0 <= k < view.incoming[b as int].len() && (#[trigger] view.incoming[b as int][k]).0
                == a;
        assert(after.incoming[b as int][k].0 == a);
    }
    assert(view.paths.dom() == view.symbols.dom());
    assert forall|n: u32| #[trigger] view.paths.contains_key(n) implies after.paths.contains_key(n)
        && after.paths[n] == view.paths[n] by {
        assert(view.paths.dom().contains(n));
        assert(view.symbols.contains_key(n));
    }
}

/// Inserting a dependency takes nothing away, and settles it.
pub proof fn lemma_dag_edge_grows(view: DagView, parent: u32, child: u32, context: Context)
    requires
        view.wf(),
        view.symbols.contains_key(parent),
        view.symbols.contains_key(child),
    ensures
        view.grows_to(view.with_dag_edge(parent, child, context)),
        view.only_adds(view.with_dag_edge(parent, child, context)),
        view.with_dag_edge(parent, child, context).is_settled(parent, child, context),
        is_allowed_recursion(child, parent, context) || view.with_dag_edge(
            parent,
            child,
            context,
        ).is_entered(parent, child),
        view.with_dag_edge(parent, child, context).symbols == view.symbols,
        view.with_dag_edge(parent, child, context).nodes == view.nodes,
{
    let after = view.with_dag_edge(parent, child, context);
    lemma_with_edge(view.incoming, child, parent, context);
    if view.edge_outcome(child, parent, context) is Err {
        assert(after.errors.last() == DagError::Cyclic(view.symbols[child], view.symbols[parent]));
    }
}

/// Noting what owns what takes away no more than edges between the two.
pub proof fn lemma_owned_grows(view: DagView, parent: u32, child: u32)
    ensures
        view.grows_to(view.with_owned(parent, child)),
        view.with_owned(parent, child).is_owned(parent, child),
        view.with_owned(parent, child).symbols == view.symbols,
        view.with_owned(parent, child).nodes == view.nodes,
{
    let after = view.with_owned(parent, child);
    let children = after.owned[parent];
    lemma_without_edges(view.incoming, child, parent);
    assert(children.last() == child);
    assert forall|p: u32, c: u32| #[trigger] view.is_owned(p, c) implies after.is_owned(p, c) by {
        if p == parent {
            let i = view.owned[p].index_of(c);
            assert(children[i] == c);
        }
    }
}

/// Inserting a declaration keeps the state well-formed and takes no node away.
pub proof fn lemma_declaration_grows(
    view: DagView,
    table: TableView,
    symbol: Symbol,
    parent: Option<(SymbolId, Context)>,
)
    requires
        view.wf(),
        view.load() + 3 <= u32::MAX,
        table.wf(),
        table.contains(symbol.id),
        symbol.kind.is_dag_kind(),
        parent matches Some((id, _)) ==> table.contains(id),
    ensures
        view.with_declaration(table, symbol, parent).wf(),
        view.with_declaration(table, symbol, parent).load() <= view.load() + 3,
        view.grows_to(view.with_declaration(table, symbol, parent)),
        view.with_declaration(table, symbol, parent).nodes.contains_key(symbol.id.0),
        view.with_declaration(table, symbol, parent).nodes[symbol.id.0] == view.node_of(symbol.id),
        parent matches Some((id, context)) ==> table.symbol(id).kind.is_dag_kind() ==> ({
            let after = view.with_declaration(table, symbol, Some((id, context)));
            after.owns(id, symbol.id) && after.depends(symbol.id, id, context)
        }),
{
    let inserted = view.with_symbol(table, symbol);
    lemma_with_symbol_wf(view, table, symbol);
    lemma_symbol_grows(view, table, symbol);
    if let Some((id, context)) = parent {
        let owner = table.symbol(id);
        assert(owner.id == id);
        if owner.kind.is_dag_kind() {
            let child_node = view.node_of(symbol.id);
            let parent_node = inserted.node_of(id);
            let both = inserted.with_symbol(table, owner);
            let owned = both.with_owned(parent_node, child_node);
            let done = owned.with_dag_edge(child_node, parent_node, context);
            lemma_with_symbol_wf(inserted, table, owner);
            lemma_symbol_grows(inserted, table, owner);
            lemma_with_owned_wf(both, parent_node, child_node);
            lemma_owned_grows(both, parent_node, child_node);
            lemma_with_dag_edge_wf(owned, child_node, parent_node, context);
            lemma_dag_edge_grows(owned, child_node, parent_node, context);
            lemma_grows_transitive(view, inserted, both);
            lemma_grows_transitive(view, both, owned);
            lemma_grows_transitive(view, owned, done);
        }
    }
}

impl DagView {
    /// The dependency of a symbol on what it imports was dealt with, if that has a node.
    pub open spec fn imports(
        self,
        table: TableView,
        id: SymbolId,
        context: Context,
        import: GenericSymbolPathNamespace,
    ) -> bool {
        table.resolve(import.0, import.1) matches Some(found) ==> table.symbol(
            found,
        ).kind.is_dag_kind() ==> self.depends(id, found, context)
    }
}

/// Inserting imports keeps the state well-formed and takes nothing away.
pub proof fn lemma_imports_grow(
    view: DagView,
    table: TableView,
    id: SymbolId,
    child: u32,
    context: Context,
    imports: Seq<GenericSymbolPathNamespace>,
    count: nat,
)
    requires
        view.wf(),
        view.load() + 2 * count <= u32::MAX,
        count <= imports.len(),
        table.wf(),
        view.nodes.contains_key(id.0),
        view.nodes[id.0] == child,
    ensures
        view.with_imports(table, child, context, imports, count).wf(),
        view.with_imports(table, child, context, imports, count).load() <= view.load() + 2 * count,
        view.grows_to(view.with_imports(table, child, context, imports, count)),
        view.only_adds(view.with_imports(table, child, context, imports, count)),
        forall|i: int|
            0 <= i < count ==> view.with_imports(
                table,
                child,
                context,
                imports,
                count,
            ).imports(table, id, context, #[trigger] imports[i]),
    decreases count,
{
    if count > 0 {
        let k = (count - 1) as nat;
        lemma_imports_grow(view, table, id, child, context, imports, k);
        let before = view.with_imports(table, child, context, imports, k);
        let after = view.with_imports(table, child, context, imports, count);
        let import = imports[count - 1];
        if let Some(found) = table.resolve(import.0, import.1) {
            assert(table.contains(found));
            let symbol = table.symbol(found);
            if symbol.kind.is_dag_kind() {
                let inserted = before.with_symbol(table, symbol);
                let node = before.node_of(found);
                lemma_with_symbol_wf(before, table, symbol);
                lemma_symbol_grows(before, table, symbol);
                lemma_with_dag_edge_wf(inserted, child, node, context);
                lemma_dag_edge_grows(inserted, child, node, context);
                lemma_grows_transitive(view, before, inserted);
                lemma_grows_transitive(view, inserted, after);
                lemma_grows_transitive(before, inserted, after);
            }
        }
        assert forall|i: int| 0 <= i < count implies after.imports(
            table,
            id,
            context,
            #[trigger] imports[i],
        ) by {
            if i < k {
                if let Some(found) = table.resolve(imports[i].0, imports[i].1) {
                    assert(before.imports(table, id, context, imports[i]));
                    lemma_stays_settled(before, after, id, found, context);
                }
            }
        }
    }
}

impl DagView {
    /// What comes of the declaration in a candidate was dealt with: the symbol in which it was
    /// declared owns the declared symbol, which depends on it, and on what it imports.
    pub open spec fn declares(self, table: TableView, candidate: TypeDagCandidate) -> bool {
        match candidate {
            TypeDagCandidate::Symbol { id, context, parent, import } if table.contains(id)
                && table.symbol(id).kind.is_dag_kind() => {
                &&& self.nodes.contains_key(id.0)
                &&& parent matches Some((owner, owner_context)) ==> table.symbol(
                    owner,
                ).kind.is_dag_kind() ==> self.owns(owner, id) && self.depends(
                    id,
                    owner,
                    owner_context,
                )
                &&& forall|i: int|
                    0 <= i < import@.len() ==> self.imports(
                        table,
                        id,
                        context,
                        #[trigger] import@[i],
                    )
            },
            _ => true,
        }
    }
}

/// What comes of a declaration stays dealt with.
pub proof fn lemma_stays_declared(
    before: DagView,
    after: DagView,
    table: TableView,
    candidate: TypeDagCandidate,
)
    requires
        before.wf(),
        before.grows_to(after),
        before.declares(table, candidate),
    ensures
        after.declares(table, candidate),
{
    if let TypeDagCandidate::Symbol { id, context, parent, import } = candidate {
        if table.contains(id) && table.symbol(id).kind.is_dag_kind() {
            if let Some((owner, owner_context)) = parent {
                lemma_stays_settled(before, after, id, owner, owner_context);
                lemma_stays_settled(before, after, owner, id, owner_context);
            }
            assert forall|i: int| 0 <= i < import@.len() implies after.imports(
                table,
                id,
                context,
                #[trigger] import@[i],
            ) by {
                assert(before.imports(table, id, context, import@[i]));
                if let Some(found) = table.resolve(import@[i].0, import@[i].1) {
                    lemma_stays_settled(before, after, id, found, context);
                }
            }
        }
    }
}

/// Taking a candidate for a declaration keeps the state well-formed and takes no node away.
pub proof fn lemma_declared_grows(view: DagView, table: TableView, candidate: TypeDagCandidate)
    requires
        view.wf(),
        table.wf(),
        parent_declared(table, candidate),
        view.load() + declared_cost(candidate) <= u32::MAX,
    ensures
        view.with_declared(table, candidate).wf(),
        view.with_declared(table, candidate).load() <= view.load() + declared_cost(candidate),
        view.grows_to(view.with_declared(table, candidate)),
        view.with_declared(table, candidate).declares(table, candidate),
{
    if let TypeDagCandidate::Symbol { id, context, parent, import } = candidate {
        if table.contains(id) && table.symbol(id).kind.is_dag_kind() {
            let symbol = table.symbol(id);
            let declared = view.with_declaration(table, symbol, parent);
            lemma_declaration_grows(view, table, symbol, parent);
            let after = view.with_declared(table, candidate);
            lemma_imports_grow(
                declared,
                table,
                id,
                view.node_of(id),
                context,
                import@,
                import@.len(),
            );
            lemma_grows_transitive(view, declared, after);
            if let Some((owner, owner_context)) = parent {
                lemma_stays_settled(declared, after, id, owner, owner_context);
                lemma_stays_settled(declared, after, owner, id, owner_context);
            }
        }
    }
}

/// The same of the first `count` candidates.
pub proof fn lemma_all_declared_grow(
    view: DagView,
    table: TableView,
    candidates: Seq<TypeDagCandidate>,
    count: nat,
)
    requires
        view.wf(),
        table.wf(),
        count <= candidates.len(),
        forall|i: int|
            0 <= i < candidates.len() ==> parent_declared(table, #[trigger] candidates[i]),
        view.load() + all_declared_cost(candidates, count) <= u32::MAX,
    ensures
        view.with_all_declared(table, candidates, count).wf(),
        view.with_all_declared(table, candidates, count).load() <= view.load() + all_declared_cost(
            candidates,
            count,
        ),
        view.grows_to(view.with_all_declared(table, candidates, count)),
        forall|i: int|
            0 <= i < count ==> view.with_all_declared(table, candidates, count).declares(
                table,
                #[trigger] candidates[i],
            ),
    decreases count,
{
    if count > 0 {
        let k = (count - 1) as nat;
        lemma_all_declared_grow(view, table, candidates, k);
        let before = view.with_all_declared(table, candidates, k);
        assert(parent_declared(table, candidates[k as int]));
        let after = view.with_all_declared(table, candidates, count);
        lemma_declared_grows(before, table, candidates[k as int]);
        lemma_grows_transitive(view, before, after);
        assert forall|i: int| 0 <= i < count implies after.declares(
            table,
            #[trigger] candidates[i],
        ) by {
            if i < k {
                lemma_stays_declared(before, after, table, candidates[i]);
            }
        }
    }
}

/// Inserting the use of a symbol keeps the state well-formed, takes nothing away, and settles the
/// dependency of the user.
pub proof fn lemma_base_used_grows(
    view: DagView,
    table: TableView,
    base: Symbol,
    parent: Option<(SymbolId, Context)>,
)
    requires
        view.wf(),
        view.load() + 2 <= u32::MAX,
        table.wf(),
        view.nodes.contains_key(base.id.0),
        parent matches Some((id, _)) ==> table.contains(id),
    ensures
        view.with_base_used(table, base, parent).wf(),
        view.with_base_used(table, base, parent).load() <= view.load() + 2,
        view.grows_to(view.with_base_used(table, base, parent)),
        view.only_adds(view.with_base_used(table, base, parent)),
        parent matches Some(parent) ==> user_of(table, base, parent).0.kind.is_dag_kind()
            ==> view.with_base_used(table, base, Some(parent)).depends(
            user_of(table, base, parent).0.id,
            base.id,
            user_of(table, base, parent).1,
        ),
{
    if let Some(parent) = parent {
        let (user, context) = user_of(table, base, parent);
        if let Some(package) = table.entries[parent.0.0].parent_package {
            assert(table.contains(parent.0));
            assert(table.contains(package));
        }
        assert(table.contains(user.id));
        if user.kind.is_dag_kind() {
            let inserted = view.with_symbol(table, user);
            let user_node = view.node_of(user.id);
            let base_node = view.node_of(base.id);
            lemma_with_symbol_wf(view, table, user);
            lemma_symbol_grows(view, table, user);
            if !inserted.is_owned(user_node, base_node) {
                lemma_with_dag_edge_wf(inserted, user_node, base_node, context);
                lemma_dag_edge_grows(inserted, user_node, base_node, context);
                lemma_grows_transitive(
                    view,
                    inserted,
                    inserted.with_dag_edge(user_node, base_node, context),
                );
            }
        }
    }
}

impl DagView {
    /// The dependency of a symbol on a generic argument that it is used with was dealt with, if the
    /// argument has a node.
    pub open spec fn takes_argument(
        self,
        table: TableView,
        id: SymbolId,
        namespace: Namespace,
        argument: SymbolPath,
    ) -> bool {
        table.target(argument, namespace) matches Some(symbol) ==> symbol.kind.is_dag_kind()
            ==> self.depends(id, symbol.id, Context::GenericInstance)
    }
}

/// Inserting generic arguments keeps the state well-formed and takes nothing away.
pub proof fn lemma_arguments_grow(
    view: DagView,
    table: TableView,
    id: SymbolId,
    base: u32,
    namespace: Namespace,
    arguments: Seq<SymbolPath>,
    count: nat,
)
    requires
        view.wf(),
        view.load() + 2 * count <= u32::MAX,
        count <= arguments.len(),
        table.wf(),
        view.nodes.contains_key(id.0),
        view.nodes[id.0] == base,
    ensures
        view.with_arguments(table, base, namespace, arguments, count).wf(),
        view.with_arguments(table, base, namespace, arguments, count).load() <= view.load() + 2
            * count,
        view.grows_to(view.with_arguments(table, base, namespace, arguments, count)),
        view.only_adds(view.with_arguments(table, base, namespace, arguments, count)),
        forall|i: int|
            0 <= i < count ==> view.with_arguments(
                table,
                base,
                namespace,
                arguments,
                count,
            ).takes_argument(table, id, namespace, #[trigger] arguments[i]),
    decreases count,
{
    if count > 0 {
        let k = (count - 1) as nat;
        lemma_arguments_grow(view, table, id, base, namespace, arguments, k);
        let before = view.with_arguments(table, base, namespace, arguments, k);
        let after = view.with_arguments(table, base, namespace, arguments, count);
        let path = arguments[count - 1];
        if let Some(argument) = table.target(path, namespace) {
            lemma_target_known(table, path, namespace);
            if argument.kind.is_dag_kind() {
                let inserted = before.with_symbol(table, argument);
                let node = before.node_of(argument.id);
                lemma_with_symbol_wf(before, table, argument);
                lemma_symbol_grows(before, table, argument);
                lemma_with_dag_edge_wf(inserted, base, node, Context::GenericInstance);
                lemma_dag_edge_grows(inserted, base, node, Context::GenericInstance);
                lemma_grows_transitive(view, before, inserted);
                lemma_grows_transitive(view, inserted, after);
                lemma_grows_transitive(before, inserted, after);
            }
        }
        assert forall|i: int| 0 <= i < count implies after.takes_argument(
            table,
            id,
            namespace,
            #[trigger] arguments[i],
        ) by {
            if i < k {
                assert(before.takes_argument(table, id, namespace, arguments[i]));
                if let Some(symbol) = table.target(arguments[i], namespace) {
                    lemma_stays_settled(before, after, id, symbol.id, Context::GenericInstance);
                }
            }
        }
    }
}

/// What a path stands for is declared.
pub proof fn lemma_target_known(table: TableView, path: SymbolPath, namespace: Namespace)
    requires
        table.wf(),
    ensures
        table.target(path, namespace) matches Some(symbol) ==> table.contains(symbol.id)
            && table.symbol(symbol.id) == symbol,
{
    let fuel = choose|fuel: nat| #[trigger] table.ends_within(path, namespace, fuel);
    table.lemma_target_declared(path, namespace, fuel);
}

/// Inserting an element of a path keeps the state well-formed, takes nothing away, and settles the
/// dependency on what the element stands for.
pub proof fn lemma_element_grows(
    view: DagView,
    table: TableView,
    element: GenericSymbol,
    namespace: Namespace,
    parent: Option<(SymbolId, Context)>,
)
    requires
        view.wf(),
        view.load() + 3 + 2 * element.arguments@.len() <= u32::MAX,
        table.wf(),
        parent matches Some((id, _)) ==> table.contains(id),
    ensures
        view.with_element(table, element, namespace, parent).wf(),
        view.with_element(table, element, namespace, parent).load() <= view.load() + 3 + 2
            * element.arguments@.len(),
        view.grows_to(view.with_element(table, element, namespace, parent)),
        view.only_adds(view.with_element(table, element, namespace, parent)),
        view.with_element(table, element, namespace, parent).uses_element(
            table,
            element,
            namespace,
            parent,
        ),
{
    let after = view.with_element(table, element, namespace, parent);
    if let Some(base) = table.target(element.base_path, namespace) {
        lemma_target_known(table, element.base_path, namespace);
        if base.kind.is_dag_kind() {
            let inserted = view.with_symbol(table, base);
            let used = inserted.with_base_used(table, base, parent);
            lemma_with_symbol_wf(view, table, base);
            lemma_symbol_grows(view, table, base);
            lemma_base_used_grows(inserted, table, base, parent);
            lemma_arguments_grow(
                used,
                table,
                base.id,
                view.node_of(base.id),
                namespace,
                element.arguments@,
                element.arguments@.len(),
            );
            lemma_grows_transitive(view, inserted, used);
            lemma_grows_transitive(view, used, after);
            if let Some(parent) = parent {
                let (user, context) = user_of(table, base, parent);
                lemma_stays_settled(used, after, user.id, base.id, context);
            }
        }
    }
}

impl DagView {
    /// What comes of an element of a path was dealt with, if it stands for a symbol that has a node:
    /// the dependency of its user on it, and its dependencies on its generic arguments.
    pub open spec fn uses_element(
        self,
        table: TableView,
        element: GenericSymbol,
        namespace: Namespace,
        parent: Option<(SymbolId, Context)>,
    ) -> bool {
        table.target(element.base_path, namespace) matches Some(base) ==> base.kind.is_dag_kind()
            ==> {
            &&& self.nodes.contains_key(base.id.0)
            &&& parent matches Some(parent) ==> user_of(table, base, parent).0.kind.is_dag_kind()
                ==> self.depends(
                user_of(table, base, parent).0.id,
                base.id,
                user_of(table, base, parent).1,
            )
            &&& forall|i: int|
                0 <= i < element.arguments@.len() ==> self.takes_argument(
                    table,
                    base.id,
                    namespace,
                    #[trigger] element.arguments@[i],
                )
        }
    }
}

/// What comes of an element stays dealt with.
pub proof fn lemma_stays_used(
    before: DagView,
    after: DagView,
    table: TableView,
    element: GenericSymbol,
    namespace: Namespace,
    parent: Option<(SymbolId, Context)>,
)
    requires
        before.wf(),
        before.grows_to(after),
        before.uses_element(table, element, namespace, parent),
    ensures
        after.uses_element(table, element, namespace, parent),
{
    if let Some(base) = table.target(element.base_path, namespace) {
        if base.kind.is_dag_kind() {
            if let Some(parent) = parent {
                let (user, context) = user_of(table, base, parent);
                lemma_stays_settled(before, after, user.id, base.id, context);
            }
            assert forall|i: int| 0 <= i < element.arguments@.len() implies after.takes_argument(
                table,
                base.id,
                namespace,
                #[trigger] element.arguments@[i],
            ) by {
                assert(before.takes_argument(table, base.id, namespace, element.arguments@[i]));
                if let Some(symbol) = table.target(element.arguments@[i], namespace) {
                    lemma_stays_settled(
                        before,
                        after,
                        base.id,
                        symbol.id,
                        Context::GenericInstance,
                    );
                }
            }
        }
    }
}

/// The same of the first `count` elements of a path.
pub proof fn lemma_elements_grow(
    view: DagView,
    table: TableView,
    elements: Seq<GenericSymbol>,
    namespace: Namespace,
    parent: Option<(SymbolId, Context)>,
    count: nat,
)
    requires
        view.wf(),
        view.load() + elements_cost(elements, count) <= u32::MAX,
        count <= elements.len(),
        table.wf(),
        parent matches Some((id, _)) ==> table.contains(id),
    ensures
        view.with_elements(table, elements, namespace, parent, count).wf(),
        view.with_elements(table, elements, namespace, parent, count).load() <= view.load()
            + elements_cost(elements, count),
        view.grows_to(view.with_elements(table, elements, namespace, parent, count)),
        view.only_adds(view.with_elements(table, elements, namespace, parent, count)),
        forall|i: int|
            0 <= i < count ==> view.with_elements(
                table,
                elements,
                namespace,
                parent,
                count,
            ).uses_element(table, #[trigger] elements[i], namespace, parent),
    decreases count,
{
    if count > 0 {
        let k = (count - 1) as nat;
        lemma_elements_grow(view, table, elements, namespace, parent, k);
        let before = view.with_elements(table, elements, namespace, parent, k);
        let after = view.with_elements(table, elements, namespace, parent, count);
        lemma_element_grows(before, table, elements[k as int], namespace, parent);
        lemma_grows_transitive(view, before, after);
        assert forall|i: int| 0 <= i < count implies after.uses_element(
            table,
            #[trigger] elements[i],
            namespace,
            parent,
        ) by {
            if i < k {
                lemma_stays_used(before, after, table, elements[i], namespace, parent);
            }
        }
    }
}

/// The same of a path under the first `count` of these assignments.
pub proof fn lemma_instances_grow(
    view: DagView,
    table: TableView,
    path: GenericSymbolPath,
    namespace: Namespace,
    parent: (SymbolId, Context),
    maps: Seq<GenericMap>,
    count: nat,
)
    requires
        view.wf(),
        view.load() + instances_cost(table, path, namespace, maps, count) <= u32::MAX,
        count <= maps.len(),
        table.wf(),
        table.contains(parent.0),
    ensures
        view.with_instances(table, path, namespace, Some(parent), maps, count).wf(),
        view.with_instances(table, path, namespace, Some(parent), maps, count).load()
            <= view.load() + instances_cost(table, path, namespace, maps, count),
        view.grows_to(view.with_instances(table, path, namespace, Some(parent), maps, count)),
        view.only_adds(view.with_instances(table, path, namespace, Some(parent), maps, count)),
        forall|m: int, i: int|
            0 <= m < count && 0 <= i < instance_elements(
                table,
                path,
                namespace,
                Some(maps[m]),
            ).len() ==> view.with_instances(
                table,
                path,
                namespace,
                Some(parent),
                maps,
                count,
            ).uses_element(
                table,
                #[trigger] instance_elements(table, path, namespace, Some(maps[m]))[i],
                namespace,
                Some(parent),
            ),
    decreases count,
{
    if count > 0 {
        let k = (count - 1) as nat;
        lemma_instances_grow(view, table, path, namespace, parent, maps, k);
        let before = view.with_instances(table, path, namespace, Some(parent), maps, k);
        let after = view.with_instances(table, path, namespace, Some(parent), maps, count);
        let elements = instance_elements(table, path, namespace, Some(maps[k as int]));
        lemma_elements_grow(before, table, elements, namespace, Some(parent), elements.len());
        lemma_grows_transitive(view, before, after);
        assert forall|m: int, i: int|
            0 <= m < count && 0 <= i < instance_elements(
                table,
                path,
                namespace,
                Some(maps[m]),
            ).len() implies after.uses_element(
            table,
            #[trigger] instance_elements(table, path, namespace, Some(maps[m]))[i],
            namespace,
            Some(parent),
        ) by {
            let element = instance_elements(table, path, namespace, Some(maps[m]))[i];
            if m < k {
                lemma_stays_used(before, after, table, element, namespace, Some(parent));
            } else {
                assert(element == elements[i]);
            }
        }
    }
}

impl DagView {
    /// What comes of the use in a candidate was dealt with: of every element of the path, under each
    /// assignment of generic parameters with which the symbol in which it stands is used.
    pub open spec fn uses(self, table: TableView, candidate: TypeDagCandidate) -> bool {
        match candidate {
            TypeDagCandidate::Path { path, namespace, parent: Some(parent) } => {
                let maps = table.entries[parent.0.0].generic_maps@;
                forall|m: int, i: int|
                    0 <= m < maps.len() && 0 <= i < instance_elements(
                        table,
                        path,
                        namespace,
                        Some(maps[m]),
                    ).len() ==> self.uses_element(
                        table,
                        #[trigger] instance_elements(table, path, namespace, Some(maps[m]))[i],
                        namespace,
                        Some(parent),
                    )
            },
            TypeDagCandidate::Path { path, namespace, parent: None } => {
                let elements = instance_elements(table, path, namespace, None);
                forall|i: int|
                    0 <= i < elements.len() ==> self.uses_element(
                        table,
                        #[trigger] elements[i],
                        namespace,
                        None,
                    )
            },
            TypeDagCandidate::Symbol { .. } => true,
        }
    }
}

/// What comes of a use stays dealt with.
pub proof fn lemma_uses_stay(
    before: DagView,
    after: DagView,
    table: TableView,
    candidate: TypeDagCandidate,
)
    requires
        before.wf(),
        before.grows_to(after),
        before.uses(table, candidate),
    ensures
        after.uses(table, candidate),
{
    if let TypeDagCandidate::Path { path, namespace, parent } = candidate {
        match parent {
            Some((id, context)) => {
                let maps = table.entries[id.0].generic_maps@;
                assert forall|m: int, i: int|
                    0 <= m < maps.len() && 0 <= i < instance_elements(
                        table,
                        path,
                        namespace,
                        Some(maps[m]),
                    ).len() implies after.uses_element(
                    table,
                    #[trigger] instance_elements(table, path, namespace, Some(maps[m]))[i],
                    namespace,
                    parent,
                ) by {
                    let element = instance_elements(table, path, namespace, Some(maps[m]))[i];
                    lemma_stays_used(before, after, table, element, namespace, parent);
                }
            },
            None => {
                let elements = instance_elements(table, path, namespace, None);
                assert forall|i: int| 0 <= i < elements.len() implies after.uses_element(
                    table,
                    #[trigger] elements[i],
                    namespace,
                    None,
                ) by {
                    lemma_stays_used(before, after, table, elements[i], namespace, None);
                }
            },
        }
    }
}

/// Taking a candidate for a use keeps the state well-formed, takes nothing away, and settles the
/// dependencies that come of it.
pub proof fn lemma_used_grows(view: DagView, table: TableView, candidate: TypeDagCandidate)
    requires
        view.wf(),
        table.wf(),
        parent_declared(table, candidate),
        view.load() + used_cost(table, candidate) <= u32::MAX,
    ensures
        view.with_used(table, candidate).wf(),
        view.with_used(table, candidate).load() <= view.load() + used_cost(table, candidate),
        view.grows_to(view.with_used(table, candidate)),
        view.only_adds(view.with_used(table, candidate)),
        view.with_used(table, candidate).uses(table, candidate),
{
    if let TypeDagCandidate::Path { path, namespace, parent } = candidate {
        match parent {
            Some(parent) => {
                let maps = table.entries[parent.0.0].generic_maps@;
                lemma_instances_grow(view, table, path, namespace, parent, maps, maps.len());
            },
            None => {
                let elements = instance_elements(table, path, namespace, None);
                lemma_elements_grow(view, table, elements, namespace, None, elements.len());
            },
        }
    }
}

/// The same of the first `count` candidates.
pub proof fn lemma_all_used_grow(
    view: DagView,
    table: TableView,
    candidates: Seq<TypeDagCandidate>,
    count: nat,
)
    requires
        view.wf(),
        table.wf(),
        count <= candidates.len(),
        forall|i: int|
            0 <= i < candidates.len() ==> parent_declared(table, #[trigger] candidates[i]),
        view.load() + all_used_cost(table, candidates, count) <= u32::MAX,
    ensures
        view.with_all_used(table, candidates, count).wf(),
        view.with_all_used(table, candidates, count).load() <= view.load() + all_used_cost(
            table,
            candidates,
            count,
        ),
        view.grows_to(view.with_all_used(table, candidates, count)),
        view.only_adds(view.with_all_used(table, candidates, count)),
        forall|i: int|
            0 <= i < count ==> view.with_all_used(table, candidates, count).uses(
                table,
                #[trigger] candidates[i],
            ),
    decreases count,
{
    if count > 0 {
        let k = (count - 1) as nat;
        lemma_all_used_grow(view, table, candidates, k);
        let before = view.with_all_used(table, candidates, k);
        let after = view.with_all_used(table, candidates, count);
        assert(parent_declared(table, candidates[k as int]));
        lemma_used_grows(before, table, candidates[k as int]);
        lemma_grows_transitive(view, before, after);
        assert forall|i: int| 0 <= i < count implies after.uses(
            table,
            #[trigger] candidates[i],
        ) by {
            if i < k {
                lemma_uses_stay(before, after, table, candidates[i]);
            }
        }
    }
}

} // verus!
