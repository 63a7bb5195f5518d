//! The state of the graph of dependencies as a mathematical value, and what each step makes of it.
use crate::context::Context;
use crate::dag::toposort_order;
use crate::graph::{acyclic, has_edge, in_range, reaches, Incoming};
use crate::symbol::{
    GenericMap, GenericSymbol, GenericSymbolPath, GenericSymbolPathNamespace, Namespace, Symbol,
    SymbolId, SymbolPath,
};
use crate::symbol_table::TableView;
use crate::type_dag::{DagError, TypeDagCandidate, TypeResolveInfo};
use vstd::prelude::*;

verus! {

/// The graph of dependencies with what belongs to it.
#[verifier::ext_equal]
pub struct DagView {
    /// The edges, by the node that they lead to.
    pub incoming: Incoming,
    /// The same edges, by the node that they come from.
    pub outgoing: Incoming,
    /// The node from which an edge leads to every other node.
    pub source: u32,
    /// The node of each symbol, by the number of the symbol.
    pub nodes: Map<usize, u32>,
    /// The symbol of each node.
    pub symbols: Map<u32, Symbol>,
    /// How the symbol of each node is shown.
    pub paths: Map<u32, TypeResolveInfo>,
    /// The nodes of the symbols that were declared in the symbol of a node.
    pub owned: Map<u32, Seq<u32>>,
    /// What was added and not applied yet.
    pub candidates: Seq<TypeDagCandidate>,
    /// What was found wrong and not reported yet.
    pub errors: Seq<DagError>,
}

/// A module, an interface or a function may use itself.
pub open spec fn is_allowed_recursion(start: u32, end: u32, context: Context) -> bool {
    start == end && (context is Module || context is Interface || context is Function)
}

impl DagView {
    /// The graph has no cycle, every node but the source stands for one symbol, and no two nodes
    /// stand for the same.
    pub open spec fn wf(self) -> bool {
        &&& self.source < self.incoming.len() <= u32::MAX
        &&& self.edge_count() <= u32::MAX
        &&& in_range(self.incoming)
        &&& acyclic(self.incoming)
        &&& self.outgoing.len() == self.incoming.len()
        &&& forall|a: u32, b: u32| #[trigger]
            has_edge(self.incoming, a, b) <==> has_edge(self.outgoing, b, a)
        &&& forall|n: u32| #[trigger]
            self.symbols.contains_key(n) <==> n < self.incoming.len() && n != self.source
        &&& self.paths.dom() == self.symbols.dom()
        &&& forall|n: u32| #[trigger]
            self.symbols.contains_key(n) ==> self.nodes.contains_key(self.symbols[n].id.0)
                && self.nodes[self.symbols[n].id.0] == n && self.paths[n].symbol_id
                == self.symbols[n].id
        &&& forall|id: usize| #[trigger]
            self.nodes.contains_key(id) ==> self.symbols.contains_key(self.nodes[id])
                && self.symbols[self.nodes[id]].id.0 == id
    }

    /// The nodes in the topological order in which the graph gives them. It follows from the order
    /// of the edges that come from each node.
    pub open spec fn order(self) -> Seq<u32> {
        toposort_order(self.outgoing)
    }

    /// The larger of the numbers of nodes and of edges; the graph has room for `u32::MAX` of each.
    pub open spec fn load(self) -> nat {
        if self.incoming.len() >= self.edge_count() {
            self.incoming.len()
        } else {
            self.edge_count()
        }
    }

    /// How many edges there are.
    pub open spec fn edge_count(self) -> nat {
        crate::graph::edge_total(self.incoming)
    }

    /// The graph with nothing but its source.
    pub open spec fn empty() -> DagView {
        DagView {
            incoming: seq![Seq::empty()],
            outgoing: seq![Seq::empty()],
            source: 0,
            nodes: Map::empty(),
            symbols: Map::empty(),
            paths: Map::empty(),
            owned: Map::empty(),
            candidates: Seq::empty(),
            errors: Seq::empty(),
        }
    }

    /// Whether an edge can be inserted: it must not close a cycle, unless a symbol that may use
    /// itself does so.
    pub open spec fn edge_outcome(self, start: u32, end: u32, context: Context) -> Result<
        (),
        DagError,
    > {
        if !reaches(self.incoming, end, start) || is_allowed_recursion(start, end, context) {
            Ok(())
        } else {
            Err(DagError::Cyclic(self.symbols[start], self.symbols[end]))
        }
    }

    /// After an edge was inserted; one that would close a cycle is left out.
    pub open spec fn with_edge(self, start: u32, end: u32, context: Context) -> DagView {
        if reaches(self.incoming, end, start) {
            self
        } else {
            DagView {
                incoming: crate::graph::with_edge(self.incoming, start, end, context),
                outgoing: crate::graph::with_edge(self.outgoing, end, start, context),
                ..self
            }
        }
    }

    /// After all edges from `start` to `end` were taken out.
    pub open spec fn without_edges(self, start: u32, end: u32) -> DagView {
        DagView {
            incoming: crate::graph::without_edges(self.incoming, start, end),
            outgoing: crate::graph::without_edges(self.outgoing, end, start),
            ..self
        }
    }

    /// After the dependency of `parent` on `child` was inserted. The edge leads from the node that
    /// is depended on to the node that depends on it.
    pub open spec fn with_dag_edge(self, parent: u32, child: u32, context: Context) -> DagView {
        let after = self.with_edge(child, parent, context);
        match self.edge_outcome(child, parent, context) {
            Ok(_) => after,
            Err(error) => DagView { errors: after.errors.push(error), ..after },
        }
    }

    /// `child` was declared in `parent`.
    pub open spec fn is_owned(self, parent: u32, child: u32) -> bool {
        self.owned.contains_key(parent) && self.owned[parent].contains(child)
    }

    /// After `child` was noted as declared in `parent`: a dependency of `parent` on `child` that
    /// was there before is taken out.
    pub open spec fn with_owned(self, parent: u32, child: u32) -> DagView {
        let children = if self.owned.contains_key(parent) {
            self.owned[parent]
        } else {
            Seq::empty()
        };
        DagView {
            owned: self.owned.insert(parent, children.push(child)),
            ..self.without_edges(child, parent)
        }
    }

    /// The node of a symbol: the one that it has, or the one that it would get.
    pub open spec fn node_of(self, id: SymbolId) -> u32 {
        if self.nodes.contains_key(id.0) {
            self.nodes[id.0]
        } else {
            self.incoming.len() as u32
        }
    }

    /// After a node for `symbol` was inserted, if it has none; `name` is how it is shown.
    pub open spec fn with_node(self, symbol: Symbol, name: String) -> DagView {
        if self.nodes.contains_key(symbol.id.0) {
            self
        } else {
            let node = self.incoming.len() as u32;
            DagView {
                incoming: self.incoming.push(seq![(self.source, Context::Irrelevant)]),
                outgoing: crate::graph::with_edge(
                    self.outgoing.push(Seq::empty()),
                    node,
                    self.source,
                    Context::Irrelevant,
                ),
                nodes: self.nodes.insert(symbol.id.0, node),
                symbols: self.symbols.insert(node, symbol),
                paths: self.paths.insert(
                    node,
                    TypeResolveInfo { symbol_id: symbol.id, name, token: symbol.token },
                ),
                ..self
            }
        }
    }

    /// A node has to be made for the symbol.
    pub open spec fn needs_node(self, symbol: Symbol) -> bool {
        symbol.kind.is_dag_kind() && !self.nodes.contains_key(symbol.id.0)
    }

    /// After a symbol was inserted; no node is made for a symbol of another kind.
    pub open spec fn with_symbol(self, table: TableView, symbol: Symbol) -> DagView {
        if symbol.kind.is_dag_kind() {
            self.with_node(table.symbol(symbol.id), symbol.token.text)
        } else {
            self
        }
    }

    /// After the declaration of a symbol was inserted: it is owned by the symbol in which it was
    /// declared, and depends on it.
    pub open spec fn with_declaration(
        self,
        table: TableView,
        symbol: Symbol,
        parent: Option<(SymbolId, Context)>,
    ) -> DagView {
        let after = self.with_symbol(table, symbol);
        match parent {
            Some((parent, context)) if symbol.kind.is_dag_kind() && table.symbol(
                parent,
            ).kind.is_dag_kind() => {
                let child_node = self.node_of(symbol.id);
                let parent_node = after.node_of(parent);
                after.with_symbol(table, table.symbol(parent)).with_owned(
                    parent_node,
                    child_node,
                ).with_dag_edge(child_node, parent_node, context)
            },
            _ => after,
        }
    }

    /// After the first `count` of the imports of a declared symbol were inserted.
    pub open spec fn with_imports(
        self,
        table: TableView,
        child: u32,
        context: Context,
        imports: Seq<GenericSymbolPathNamespace>,
        count: nat,
    ) -> DagView
        decreases count,
    {
        if count == 0 {
            self
        } else {
            let before = self.with_imports(table, child, context, imports, (count - 1) as nat);
            let import = imports[count - 1];
            match table.resolve(import.0, import.1) {
                Some(id) if table.symbol(id).kind.is_dag_kind() => before.with_symbol(
                    table,
                    table.symbol(id),
                ).with_dag_edge(child, before.node_of(id), context),
                _ => before,
            }
        }
    }

    /// After a candidate was taken for the declaration of a symbol.
    pub open spec fn with_declared(self, table: TableView, candidate: TypeDagCandidate) -> DagView {
        match candidate {
            TypeDagCandidate::Symbol { id, context, parent, import } if table.contains(
                id,
            ) && table.symbol(id).kind.is_dag_kind() => self.with_declaration(
                table,
                table.symbol(id),
                parent,
            ).with_imports(table, self.node_of(id), context, import@, import@.len()),
            _ => self,
        }
    }

    /// After the first `count` candidates were taken for declarations.
    pub open spec fn with_all_declared(
        self,
        table: TableView,
        candidates: Seq<TypeDagCandidate>,
        count: nat,
    ) -> DagView
        decreases count,
    {
        if count == 0 {
            self
        } else {
            self.with_all_declared(table, candidates, (count - 1) as nat).with_declared(
                table,
                candidates[count - 1],
            )
        }
    }

    /// After the dependency on `base` of the symbol in which a path stands was inserted; there is
    /// none on what the symbol owns.
    pub open spec fn with_base_used(
        self,
        table: TableView,
        base: Symbol,
        parent: Option<(SymbolId, Context)>,
    ) -> DagView {
        match parent {
            None => self,
            Some(parent) => {
                let (user, context) = user_of(table, base, parent);
                if user.kind.is_dag_kind() {
                    let user_node = self.node_of(user.id);
                    let after = self.with_symbol(table, user);
                    if after.is_owned(user_node, self.node_of(base.id)) {
                        after
                    } else {
                        after.with_dag_edge(user_node, self.node_of(base.id), context)
                    }
                } else {
                    self
                }
            },
        }
    }

    /// After the first `count` generic arguments of an element of a path were inserted.
    pub open spec fn with_arguments(
        self,
        table: TableView,
        base: u32,
        namespace: Namespace,
        arguments: Seq<SymbolPath>,
        count: nat,
    ) -> DagView
        decreases count,
    {
        if count == 0 {
            self
        } else {
            let before = self.with_arguments(table, base, namespace, arguments, (count - 1) as nat);
            match table.target(arguments[count - 1], namespace) {
                Some(argument) if argument.kind.is_dag_kind() => before.with_symbol(
                    table,
                    argument,
                ).with_dag_edge(base, before.node_of(argument.id), Context::GenericInstance),
                _ => before,
            }
        }
    }

    /// After an element of a path was inserted.
    pub open spec fn with_element(
        self,
        table: TableView,
        element: GenericSymbol,
        namespace: Namespace,
        parent: Option<(SymbolId, Context)>,
    ) -> DagView {
        match table.target(element.base_path, namespace) {
            Some(base) if base.kind.is_dag_kind() => self.with_symbol(table, base).with_base_used(
                table,
                base,
                parent,
            ).with_arguments(
                table,
                self.node_of(base.id),
                namespace,
                element.arguments@,
                element.arguments@.len(),
            ),
            _ => self,
        }
    }

    /// After the first `count` elements of a path were inserted.
    pub open spec fn with_elements(
        self,
        table: TableView,
        elements: Seq<GenericSymbol>,
        namespace: Namespace,
        parent: Option<(SymbolId, Context)>,
        count: nat,
    ) -> DagView
        decreases count,
    {
        if count == 0 {
            self
        } else {
            self.with_elements(table, elements, namespace, parent, (count - 1) as nat).with_element(
                table,
                elements[count - 1],
                namespace,
                parent,
            )
        }
    }

    /// After a path was inserted under one assignment of generic parameters.
    pub open spec fn with_instance(
        self,
        table: TableView,
        path: GenericSymbolPath,
        namespace: Namespace,
        parent: Option<(SymbolId, Context)>,
        map: Option<GenericMap>,
    ) -> DagView {
        let elements = instance_elements(table, path, namespace, map);
        self.with_elements(table, elements, namespace, parent, elements.len())
    }

    /// After a path was inserted under the first `count` of these assignments.
    pub open spec fn with_instances(
        self,
        table: TableView,
        path: GenericSymbolPath,
        namespace: Namespace,
        parent: Option<(SymbolId, Context)>,
        maps: Seq<GenericMap>,
        count: nat,
    ) -> DagView
        decreases count,
    {
        if count == 0 {
            self
        } else {
            self.with_instances(
                table,
                path,
                namespace,
                parent,
                maps,
                (count - 1) as nat,
            ).with_instance(table, path, namespace, parent, Some(maps[count - 1]))
        }
    }

    /// After a path was inserted: once for each assignment with which the symbol in which it stands
    /// is used, and once without any where it stands in none.
    pub open spec fn with_path(
        self,
        table: TableView,
        path: GenericSymbolPath,
        namespace: Namespace,
        parent: Option<(SymbolId, Context)>,
    ) -> DagView {
        match parent {
            Some((id, _)) => {
                let maps = table.entries[id.0].generic_maps@;
                self.with_instances(table, path, namespace, parent, maps, maps.len())
            },
            None => self.with_instance(table, path, namespace, None, None),
        }
    }

    /// After a candidate was taken for the use of a path.
    pub open spec fn with_used(self, table: TableView, candidate: TypeDagCandidate) -> DagView {
        match candidate {
            TypeDagCandidate::Path { path, namespace, parent } => self.with_path(
                table,
                path,
                namespace,
                parent,
            ),
            TypeDagCandidate::Symbol { .. } => self,
        }
    }

    /// After the first `count` candidates were taken for uses of paths.
    pub open spec fn with_all_used(
        self,
        table: TableView,
        candidates: Seq<TypeDagCandidate>,
        count: nat,
    ) -> DagView
        decreases count,
    {
        if count == 0 {
            self
        } else {
            self.with_all_used(table, candidates, (count - 1) as nat).with_used(
                table,
                candidates[count - 1],
            )
        }
    }

    /// After all candidates were taken for declarations.
    pub open spec fn declared(self, table: TableView) -> DagView {
        DagView { candidates: Seq::empty(), ..self }.with_all_declared(
            table,
            self.candidates,
            self.candidates.len(),
        )
    }

    /// After all candidates were taken: first the declarations, so that it is known what owns
    /// what, and then the uses. The errors that were found are still there.
    pub open spec fn applied(self, table: TableView) -> DagView {
        self.declared(table).with_all_used(table, self.candidates, self.candidates.len())
    }
}

/// The symbol that depends on `base` where `base` is used in `parent`, and the context of the
/// dependency: where `parent` is in a package other than `base`, it is the package.
pub open spec fn user_of(table: TableView, base: Symbol, parent: (SymbolId, Context)) -> (
    Symbol,
    Context,
) {
    match table.parent_package(parent.0) {
        Some(package) if package.id != base.id => (package, Context::Package),
        _ => (table.symbol(parent.0), parent.1),
    }
}

/// The elements of a path under an assignment of generic parameters: its imports are resolved, and
/// then the assignment is applied, if there is one.
pub open spec fn instance_elements(
    table: TableView,
    path: GenericSymbolPath,
    namespace: Namespace,
    map: Option<GenericMap>,
) -> Seq<GenericSymbol> {
    let imported = table.resolve_imported(path, namespace, map);
    match map {
        Some(map) => table.elements(table.apply_map(imported, map)),
        None => table.elements(imported),
    }
}

/// How many insertions of nodes and edges the declaration in a candidate takes at most.
pub open spec fn declared_cost(candidate: TypeDagCandidate) -> nat {
    match candidate {
        TypeDagCandidate::Symbol { import, .. } => 3 + 2 * import@.len(),
        TypeDagCandidate::Path { .. } => 0,
    }
}

/// The same of the declarations in the first `count` candidates.
pub open spec fn all_declared_cost(candidates: Seq<TypeDagCandidate>, count: nat) -> nat
    decreases count,
{
    if count == 0 {
        0
    } else {
        all_declared_cost(candidates, (count - 1) as nat) + declared_cost(candidates[count - 1])
    }
}

/// How many insertions of nodes and edges the first `count` elements of a path take at most.
pub open spec fn elements_cost(elements: Seq<GenericSymbol>, count: nat) -> nat
    decreases count,
{
    if count == 0 {
        0
    } else {
        elements_cost(elements, (count - 1) as nat) + 3 + 2 * elements[count - 1].arguments@.len()
    }
}

/// The same of a path under one assignment of generic parameters.
pub open spec fn instance_cost(
    table: TableView,
    path: GenericSymbolPath,
    namespace: Namespace,
    map: Option<GenericMap>,
) -> nat {
    let elements = instance_elements(table, path, namespace, map);
    elements_cost(elements, elements.len())
}

/// The same of a path under the first `count` of these assignments.
pub open spec fn instances_cost(
    table: TableView,
    path: GenericSymbolPath,
    namespace: Namespace,
    maps: Seq<GenericMap>,
    count: nat,
) -> nat
    decreases count,
{
    if count == 0 {
        0
    } else {
        instances_cost(table, path, namespace, maps, (count - 1) as nat) + instance_cost(
            table,
            path,
            namespace,
            Some(maps[count - 1]),
        )
    }
}

/// The same of a path that stands in `parent`.
pub open spec fn path_cost(
    table: TableView,
    path: GenericSymbolPath,
    namespace: Namespace,
    parent: Option<(SymbolId, Context)>,
) -> nat {
    match parent {
        Some((id, _)) => {
            let maps = table.entries[id.0].generic_maps@;
            instances_cost(table, path, namespace, maps, maps.len())
        },
        None => instance_cost(table, path, namespace, None),
    }
}

/// The same of the use in a candidate.
pub open spec fn used_cost(table: TableView, candidate: TypeDagCandidate) -> nat {
    match candidate {
        TypeDagCandidate::Path { path, namespace, parent } => path_cost(
            table,
            path,
            namespace,
            parent,
        ),
        TypeDagCandidate::Symbol { .. } => 0,
    }
}

/// The same of the uses in the first `count` candidates.
pub open spec fn all_used_cost(
    table: TableView,
    candidates: Seq<TypeDagCandidate>,
    count: nat,
) -> nat
    decreases count,
{
    if count == 0 {
        0
    } else {
        all_used_cost(table, candidates, (count - 1) as nat) + used_cost(
            table,
            candidates[count - 1],
        )
    }
}

/// No alias that is followed from an element of a path leads back to itself. The generic arguments
/// are looked up only where the element stands for a symbol that has a node.
pub open spec fn element_ends(table: TableView, element: GenericSymbol, namespace: Namespace) -> bool {
    &&& table.chain_ends(element.base_path, namespace)
    &&& table.target(element.base_path, namespace) matches Some(base) ==> base.kind.is_dag_kind()
        ==> forall|i: int|
        0 <= i < element.arguments@.len() ==> #[trigger] table.chain_ends(
            element.arguments@[i],
            namespace,
        )
}

/// The same of all elements of a path.
pub open spec fn elements_end(
    table: TableView,
    elements: Seq<GenericSymbol>,
    namespace: Namespace,
) -> bool {
    forall|i: int|
        0 <= i < elements.len() ==> element_ends(table, #[trigger] elements[i], namespace)
}

/// The same of a path that stands in `parent`, under each assignment with which it is inserted.
pub open spec fn path_ends(
    table: TableView,
    path: GenericSymbolPath,
    namespace: Namespace,
    parent: Option<(SymbolId, Context)>,
) -> bool {
    match parent {
        Some((id, _)) => {
            let maps = table.entries[id.0].generic_maps@;
            forall|i: int|
                0 <= i < maps.len() ==> elements_end(
                    table,
                    instance_elements(table, path, namespace, Some(#[trigger] maps[i])),
                    namespace,
                )
        },
        None => elements_end(table, instance_elements(table, path, namespace, None), namespace),
    }
}

/// The same of the use in a candidate.
pub open spec fn use_ends(table: TableView, candidate: TypeDagCandidate) -> bool {
    match candidate {
        TypeDagCandidate::Path { path, namespace, parent } => path_ends(
            table,
            path,
            namespace,
            parent,
        ),
        TypeDagCandidate::Symbol { .. } => true,
    }
}

/// The symbol in which a candidate stands is declared, where it is looked up.
pub open spec fn parent_declared(table: TableView, candidate: TypeDagCandidate) -> bool {
    match candidate {
        TypeDagCandidate::Path { parent: Some((parent, _)), .. } => table.contains(parent),
        TypeDagCandidate::Symbol { id, parent: Some((parent, _)), .. } => table.contains(id)
            && table.symbol(id).kind.is_dag_kind() ==> table.contains(parent),
        _ => true,
    }
}

impl DagView {
    /// The candidates can be applied: the symbols in which they stand are declared, no alias that they
    /// use leads back to itself, and the graph has room for all that they may insert.
    pub open spec fn applicable(self, table: TableView) -> bool {
        &&& table.wf()
        &&& forall|i: int|
            0 <= i < self.candidates.len() ==> parent_declared(
                table,
                #[trigger] self.candidates[i],
            ) && use_ends(table, self.candidates[i])
        &&& self.load() + all_declared_cost(self.candidates, self.candidates.len())
            + all_used_cost(table, self.candidates, self.candidates.len()) <= u32::MAX
    }
}

} // verus!
