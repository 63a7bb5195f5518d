//! The graph of dependencies between symbols.
pub mod dump;
pub mod dump_laws;
pub mod readiness;
pub mod traversal;

pub use crate::context::Context;
use crate::symbol::{
    GenericMap, GenericSymbol, GenericSymbolPath, GenericSymbolPathNamespace, Namespace,
    Symbol, SymbolId, SymbolPath, Token,
};
use crate::dag::{dag_edges, dag_incoming, dag_outgoing, SymbolDag};
use crate::dag_lemmas::{
    lemma_candidates_cost_grows, lemma_elements_cost_grows, lemma_instances_cost_grows,
    lemma_new_node, lemma_with_dag_edge_wf, lemma_with_edge_wf, lemma_with_node_wf,
    lemma_with_owned_wf, lemma_with_symbol_wf, lemma_without_edges_wf,
};
use crate::dag_view::{
    all_declared_cost, all_used_cost, declared_cost, element_ends, elements_cost, elements_end,
    instance_cost, instance_elements, instances_cost, parent_declared, path_cost, path_ends,
    use_ends, DagView,
};
use crate::graph::{has_edge, is_topological, reaches, Incoming};
use crate::laws::{law_apply_grows, law_apply_nothing};
use crate::node_map::{insert_node_pair, new_node_map, node_by_symbol, node_pairs};
use crate::symbol_table::{SymbolTable, TableView};
use crate::analyzer_error::AnalyzerError;
use bimap::BiMap;
use std::collections::HashMap;
use vstd::prelude::*;

verus! {

broadcast use vstd::std_specs::hash::group_hash_axioms;

/// Something to put into the graph.
#[derive(Clone, Debug)]
pub enum TypeDagCandidate {
    /// A path that is used, and the symbol in which it stands.
    Path {
        path: GenericSymbolPath,
        namespace: Namespace,
        parent: Option<(SymbolId, Context)>,
    },
    /// A symbol that is declared, the symbol in which it is declared, and what it imports.
    Symbol {
        id: SymbolId,
        context: Context,
        parent: Option<(SymbolId, Context)>,
        import: Vec<GenericSymbolPathNamespace>,
    },
}

/// How the symbol of a node is shown.
#[derive(Clone, Debug, PartialEq, Eq)]
pub struct TypeResolveInfo {
    pub symbol_id: SymbolId,
    pub name: String,
    pub token: Token,
}

/// What can be wrong with a dependency.
#[derive(Debug, Clone, PartialEq, Eq)]
pub enum DagError {
    /// The second symbol would depend on the first, which depends on it already.
    Cyclic(Symbol, Symbol),
}

impl DagError {
    /// The error as it is reported: it points at the symbol that would depend on the other.
    pub open spec fn report(self) -> AnalyzerError {
        let DagError::Cyclic(s, e) = self;
        AnalyzerError::CyclicTypeDependency {
            start: s.token.text,
            end: e.token.text,
            token: e.token,
        }
    }
}

impl From<DagError> for AnalyzerError {
    fn from(value: DagError) -> (error: Self) {
        let DagError::Cyclic(s, e) = value;
        AnalyzerError::CyclicTypeDependency {
            start: s.token.text.clone(),
            end: e.token.text.clone(),
            token: e.token.clone(),
        }
    }
}

impl vstd::std_specs::convert::FromSpecImpl<DagError> for AnalyzerError {
    open spec fn obeys_from_spec() -> bool {
        true
    }

    open spec fn from_spec(value: DagError) -> Self {
        value.report()
    }
}

impl TypeDagCandidate {
    /// Makes `x` the symbol in which the candidate stands.
    pub fn set_parent(&mut self, x: (SymbolId, Context))
        ensures
            *final(self) == (match *old(self) {
                TypeDagCandidate::Path { path, namespace, parent } => TypeDagCandidate::Path {
                    path,
                    namespace,
                    parent: Some(x),
                },
                TypeDagCandidate::Symbol { id, context, parent, import } => TypeDagCandidate::Symbol {
                    id,
                    context,
                    parent: Some(x),
                    import,
                },
            }),
    {
        match self {
            TypeDagCandidate::Path { parent, .. } => {
                *parent = Some(x);
            },
            TypeDagCandidate::Symbol { parent, .. } => {
                *parent = Some(x);
            },
        }
    }
}

/// The graph of dependencies, and what waits to be put into it.
pub struct TypeDag {
    dag: SymbolDag,
    /// One-to-one relation between symbols and nodes
    nodes: BiMap<usize, u32>,
    /// How the symbol of each node is shown
    paths: HashMap<u32, TypeResolveInfo>,
    symbols: HashMap<u32, Symbol>,
    source: u32,
    candidates: Vec<TypeDagCandidate>,
    errors: Vec<DagError>,
    dag_owned: HashMap<u32, Vec<u32>>,
}

impl View for TypeDag {
    type V = DagView;

    closed spec fn view(&self) -> DagView {
        DagView {
            incoming: dag_incoming(self.dag),
            outgoing: dag_outgoing(self.dag),
            source: self.source,
            nodes: node_pairs(self.nodes),
            symbols: self.symbols@,
            paths: self.paths@,
            owned: owned_view(self.dag_owned@),
            candidates: self.candidates@,
            errors: self.errors@,
        }
    }
}

spec fn owned_view(owned: Map<u32, Vec<u32>>) -> Map<u32, Seq<u32>> {
    Map::new(|parent: u32| owned.contains_key(parent), |parent: u32| owned[parent]@)
}

impl TypeDag {
    /// The state is well-formed, and the edges are counted right.
    pub open spec fn wf(&self) -> bool {
        self@.wf() && self.edges_counted()
    }

    pub closed spec fn edges_counted(&self) -> bool {
        dag_edges(self.dag).len() == crate::graph::edge_total(dag_incoming(self.dag))
    }

    /// A graph with nothing but its source.
    pub fn new() -> (dag: TypeDag)
        ensures
            dag.wf(),
            dag@ == DagView::empty(),
    {
        let mut dag: SymbolDag = SymbolDag::new();
        let source: u32 = dag.add_node();
        let ret = TypeDag {
            dag,
            nodes: new_node_map(),
            paths: HashMap::new(),
            symbols: HashMap::new(),
            source,
            candidates: Vec::new(),
            errors: Vec::new(),
            dag_owned: HashMap::new(),
        };
        proof {
            assert(ret@.incoming =~= seq![Seq::empty()]);
            assert(ret@.outgoing =~= seq![Seq::empty()]);
            assert(ret@.incoming.drop_last() =~= Seq::empty());
            reveal_with_fuel(crate::graph::edge_total, 2);
            assert(ret@ =~= DagView::empty());
            assert(ret@.paths.dom() =~= ret@.symbols.dom());
        }
        ret
    }

    /// Notes something to put into the graph.
    pub fn add(&mut self, cand: TypeDagCandidate)
        requires
            old(self).wf(),
        ensures
            final(self).wf(),
            final(self)@ == (DagView { candidates: old(self)@.candidates.push(cand), ..old(self)@ }),
            final(self)@.order() == old(self)@.order(),
    {
        self.candidates.push(cand);
    }

    /// The symbol of a node.
    pub fn get_symbol(&self, node: u32) -> (symbol: Symbol)
        requires
            self@.symbols.contains_key(node),
        ensures
            symbol == self@.symbols[node],
    {
        self.symbols.get(&node).unwrap().clone()
    }

    /// Inserts an edge. One that would close a cycle is left out; that is an error, unless a module,
    /// an interface or a function uses itself.
    pub fn insert_edge(&mut self, start: u32, end: u32, edge: Context) -> (outcome: Result<
        (),
        DagError,
    >)
        requires
            old(self).wf(),
            start < old(self)@.incoming.len(),
            end < old(self)@.incoming.len(),
            !reaches(old(self)@.incoming, end, start) ==> old(self)@.edge_count() < u32::MAX,
            old(self)@.edge_outcome(start, end, edge) is Err ==> old(self)@.symbols.contains_key(
                start,
            ) && old(self)@.symbols.contains_key(end),
        ensures
            final(self).wf(),
            outcome == old(self)@.edge_outcome(start, end, edge),
            final(self)@ == old(self)@.with_edge(start, end, edge),
    {
        proof {
            lemma_with_edge_wf(self@, start, end, edge);
            crate::graph::lemma_edge_total_update(
                self@.incoming,
                end as int,
                seq![(start, edge)] + self@.incoming[end as int],
            );
        }
        match self.dag.add_edge(start, end, edge) {
            Ok(_) => {
                assert(self@ =~= old(self)@.with_edge(start, end, edge));
                Ok(())
            },
            Err(_) => {
                assert(self@ =~= old(self)@);
                let may_recurse: bool = match edge {
                    Context::Module | Context::Interface | Context::Function => true,
                    _ => false,
                };
                if may_recurse && start == end {
                    Ok(())
                } else {
                    let ssym: Symbol = self.get_symbol(start);
                    let esym: Symbol = self.get_symbol(end);
                    Err(DagError::Cyclic(ssym, esym))
                }
            },
        }
    }

    /// Whether some edge leads from `start` to `end`.
    pub fn exist_edge(&self, start: u32, end: u32) -> (exists_edge: bool)
        ensures
            exists_edge == has_edge(self@.incoming, start, end),
    {
        self.dag.find_edge(start, end).is_some()
    }

    /// Takes all edges from `start` to `end` out.
    pub fn remove_edge(&mut self, start: u32, end: u32)
        requires
            old(self).wf(),
        ensures
            final(self).wf(),
            final(self)@ == old(self)@.without_edges(start, end),
    {
        let ghost before = self@.incoming;
        let ghost keep = crate::graph::not_from(start);
        let ghost sent = self@.outgoing;
        let ghost keep_sent = crate::graph::not_from(end);
        proof {
            if start < sent.len() {
                assert(sent =~= sent.update(start as int, sent[start as int]));
            }
            lemma_without_edges_wf(self@, start, end);
            if end < before.len() {
                assert(before =~= before.update(end as int, before[end as int]));
            }
        }
        loop
            invariant
                self.edges_counted(),
                self@.incoming.len() == before.len(),
                self@.outgoing.len() == sent.len(),
                self@ == (DagView {
                    incoming: self@.incoming,
                    outgoing: self@.outgoing,
                    ..old(self)@
                }),
                before == old(self)@.incoming,
                sent == old(self)@.outgoing,
                keep_sent == crate::graph::not_from(end),
                start < sent.len() ==> self@.outgoing == sent.update(
                    start as int,
                    self@.outgoing[start as int],
                ) && self@.outgoing[start as int].filter(keep_sent) == sent[start as int].filter(
                    keep_sent,
                ),
                start >= sent.len() ==> self@.outgoing == sent,
                keep == crate::graph::not_from(start),
                end < before.len() ==> self@.incoming == before.update(
                    end as int,
                    self@.incoming[end as int],
                ) && self@.incoming[end as int].filter(keep) == before[end as int].filter(keep),
                end >= before.len() ==> self@.incoming == before,
            ensures
                !has_edge(self@.incoming, start, end),
                !has_edge(self@.outgoing, end, start),
            decreases dag_edges(self.dag).len(),
        {
            match self.dag.find_edge(start, end) {
                Some(x) => {
                    let ghost list = self@.incoming[end as int];
                    let ghost sent_list = self@.outgoing[start as int];
                    let ghost mid = self@;
                    self.dag.remove_edge(x);
                    proof {
                        let k = choose|k: int|
                            0 <= k < list.len() && (#[trigger] list[k]).0 == start
                                && self@.incoming == mid.incoming.update(end as int, list.remove(k));
                        crate::graph::lemma_filter_remove(list, keep, k);
                        let j = choose|j: int|
                            0 <= j < sent_list.len() && (#[trigger] sent_list[j]).0 == end
                                && self@.outgoing == mid.outgoing.update(
                                start as int,
                                sent_list.remove(j),
                            );
                        crate::graph::lemma_filter_remove(sent_list, keep_sent, j);
                        assert(self@.outgoing =~= sent.update(
                            start as int,
                            self@.outgoing[start as int],
                        ));
                        crate::graph::lemma_edge_total_update(
                            mid.incoming,
                            end as int,
                            list.remove(k),
                        );
                        assert(self@.incoming =~= before.update(
                            end as int,
                            self@.incoming[end as int],
                        ));
                    }
                },
                None => {
                    break;
                },
            }
        }
        proof {
            if end < before.len() {
                let list = self@.incoming[end as int];
                assert forall|i: int| 0 <= i < list.len() implies keep(#[trigger] list[i]) by {
                    assert(self@.incoming[end as int][i].0 != start);
                }
                crate::graph::lemma_filter_nothing(list, keep);
            }
            if start < sent.len() {
                let list = self@.outgoing[start as int];
                assert forall|i: int| 0 <= i < list.len() implies keep_sent(#[trigger] list[i]) by {
                    assert(self@.outgoing[start as int][i].0 != end);
                }
                crate::graph::lemma_filter_nothing(list, keep_sent);
            }
            assert(self@ =~= old(self)@.without_edges(start, end));
        }
    }

    /// Inserts a node for a declared symbol, unless it has one, and returns its node. `name` is how
    /// the symbol is shown.
    pub fn insert_node(&mut self, table: &SymbolTable, symbol_id: SymbolId, name: &String) -> (node: Result<
        u32,
        DagError,
    >)
        requires
            old(self).wf(),
            !old(self)@.nodes.contains_key(symbol_id.0) ==> old(self)@.load() < u32::MAX,
            table@.wf(),
            table@.contains(symbol_id),
        ensures
            final(self).wf(),
            node == Ok::<u32, DagError>(old(self)@.node_of(symbol_id)),
            final(self)@ == old(self)@.with_node(table@.symbol(symbol_id), *name),
    {
        let symbol: Symbol = table.get(symbol_id).unwrap().clone();
        assert(symbol.id == symbol_id);
        proof {
            lemma_with_node_wf(self@, symbol, *name);
        }
        let trinfo = TypeResolveInfo {
            symbol_id,
            name: name.clone(),
            token: symbol.token.clone(),
        };
        if let Some(node_index) = node_by_symbol(&self.nodes, symbol_id.0) {
            Ok(node_index)
        } else {
            let ghost before = self@;
            let node_index: u32 = self.dag.add_node();
            let ghost mid = self@;
            proof {
                lemma_new_node(before.incoming, before.source);
                assert(mid.incoming.drop_last() =~= before.incoming);
                assert(mid.paths.dom() =~= mid.symbols.dom());
                crate::graph::lemma_edge_total_update(
                    mid.incoming,
                    node_index as int,
                    seq![(before.source, Context::Irrelevant)] + mid.incoming[node_index as int],
                );
            }
            // Nothing can be reached from the new node, so the edge is accepted.
            let added: Result<u32, Context> = self.dag.add_edge(
                self.source,
                node_index,
                Context::Irrelevant,
            );
            assert(added is Ok);
            insert_node_pair(&mut self.nodes, symbol_id.0, node_index);
            self.paths.insert(node_index, trinfo);
            self.symbols.insert(node_index, symbol);
            proof {
                let taken = Set::new(|s: usize| before.nodes[s] == node_index);
                assert(before.nodes.remove_keys(taken) =~= before.nodes);
                assert(self@ =~= before.with_node(symbol, *name)) by {
                    assert(mid.outgoing =~= before.outgoing.push(Seq::empty()));
                    assert(self@.incoming =~= before.incoming.push(
                        seq![(before.source, Context::Irrelevant)],
                    ));
                }
            }
            Ok(node_index)
        }
    }

    /// Inserts a declared symbol, if its kind has a node, and returns its node.
    pub fn insert_symbol(&mut self, table: &SymbolTable, symbol: &Symbol) -> (node: Option<u32>)
        requires
            old(self).wf(),
            old(self)@.needs_node(*symbol) ==> old(self)@.load() < u32::MAX,
            table@.wf(),
            symbol.kind.is_dag_kind() ==> table@.contains(symbol.id),
        ensures
            final(self).wf(),
            final(self)@ == old(self)@.with_symbol(table@, *symbol),
            node == (if symbol.kind.is_dag_kind() {
                Some(old(self)@.node_of(symbol.id))
            } else {
                None
            }),
    {
        if !symbol.kind.is_dag_symbol() {
            return None;
        }
        let name: String = symbol.token.text.clone();
        match self.insert_node(table, symbol.id, &name) {
            Ok(n) => Some(n),
            Err(x) => {
                self.errors.push(x);
                None
            },
        }
    }

    /// Inserts the dependency of `parent` on `child`, and notes it as an error where it would close
    /// a cycle.
    pub fn insert_dag_edge(&mut self, parent: u32, child: u32, context: Context)
        requires
            old(self).wf(),
            parent < old(self)@.incoming.len(),
            child < old(self)@.incoming.len(),
            !reaches(old(self)@.incoming, parent, child) ==> old(self)@.edge_count() < u32::MAX,
            old(self)@.edge_outcome(child, parent, context) is Err
                ==> old(self)@.symbols.contains_key(parent) && old(self)@.symbols.contains_key(
                child,
            ),
        ensures
            final(self).wf(),
            final(self)@ == old(self)@.with_dag_edge(parent, child, context),
    {
        // Reversing this order to make traversal work
        if let Err(x) = self.insert_edge(child, parent, context) {
            self.errors.push(x);
            proof {
                lemma_with_dag_edge_wf(old(self)@, parent, child, context);
                assert(self@ =~= old(self)@.with_dag_edge(parent, child, context));
            }
        }
    }

    /// Notes that `child` was declared in `parent`, and takes out the dependency of `parent` on
    /// `child` that may have been inserted before.
    pub fn insert_dag_owned(&mut self, parent: u32, child: u32)
        requires
            old(self).wf(),
        ensures
            final(self).wf(),
            final(self)@ == old(self)@.with_owned(parent, child),
    {
        // If there is already an edge to an owned type, remove it.
        // The order of the arguments is that of insert_edge.
        if self.exist_edge(child, parent) {
            self.remove_edge(child, parent);
        } else {
            proof {
                lemma_no_edges_to_remove(self@, child, parent);
            }
        }
        let ghost mid = self@;
        let ghost owned = self.dag_owned@;
        match self.dag_owned.remove(&parent) {
            Some(mut children) => {
                children.push(child);
                self.dag_owned.insert(parent, children);
            },
            None => {
                self.dag_owned.insert(parent, vec![child]);
            },
        }
        proof {
            lemma_with_owned_wf(old(self)@, parent, child);
            let after = old(self)@.with_owned(parent, child);
            assert(self@.owned.dom() =~= after.owned.dom());
            assert(self.dag_owned@[parent]@ =~= after.owned[parent]);
            assert(self@.owned =~= after.owned);
            assert(self@ =~= after);
        }
    }

    /// Whether `child` was declared in `parent`.
    pub fn is_dag_owned(&self, parent: u32, child: u32) -> (owned: bool)
        ensures
            owned == self@.is_owned(parent, child),
    {
        if let Some(owned) = self.dag_owned.get(&parent) {
            let mut i: usize = 0;
            while i < owned.len()
                invariant
                    self.dag_owned@.contains_key(parent),
                    *owned == self.dag_owned@[parent],
                    i <= owned@.len(),
                    forall|j: int| 0 <= j < i ==> owned@[j] != child,
                decreases owned@.len() - i,
            {
                if owned[i] == child {
                    assert(owned@.contains(child));
                    return true;
                }
                i = i + 1;
            }
            false
        } else {
            false
        }
    }

    /// Inserts the declaration of a symbol, and returns the node of the symbol, if its kind has one.
    pub fn insert_declaration_symbol(
        &mut self,
        table: &SymbolTable,
        symbol: &Symbol,
        parent: &Option<(SymbolId, Context)>,
    ) -> (node: Option<u32>)
        requires
            old(self).wf(),
            symbol.kind.is_dag_kind() ==> old(self)@.load() + 3 <= u32::MAX,
            table@.wf(),
            symbol.kind.is_dag_kind() ==> table@.contains(symbol.id),
            symbol.kind.is_dag_kind() ==> (*parent matches Some((id, _)) ==> table@.contains(id)),
        ensures
            final(self).wf(),
            final(self)@ == old(self)@.with_declaration(table@, *symbol, *parent),
            node == (if symbol.kind.is_dag_kind() {
                Some(old(self)@.node_of(symbol.id))
            } else {
                None
            }),
            symbol.kind.is_dag_kind() ==> final(self)@.symbols.contains_key(
                old(self)@.node_of(symbol.id),
            ),
            final(self)@.load() <= old(self)@.load() + 3,
    {
        proof {
            lemma_with_symbol_wf(self@, table@, *symbol);
        }
        if let Some(child) = self.insert_symbol(table, symbol) {
            if let Some((parent_id, parent_context)) = *parent {
                let parent_symbol: &Symbol = table.get(parent_id).unwrap();
                assert(parent_symbol.id == parent_id);
                let ghost mid = self@;
                proof {
                    lemma_with_symbol_wf(mid, table@, *parent_symbol);
                }
                if let Some(parent) = self.insert_symbol(table, parent_symbol) {
                    proof {
                        lemma_with_owned_wf(self@, parent, child);
                        lemma_with_dag_edge_wf(
                            self@.with_owned(parent, child),
                            child,
                            parent,
                            parent_context,
                        );
                    }
                    self.insert_dag_owned(parent, child);
                    self.insert_dag_edge(child, parent, parent_context);
                }
            }
            Some(child)
        } else {
            None
        }
    }

    /// The symbol that `path` stands for in the graph: what it refers to or, where that is an alias,
    /// what the alias stands for; and in place of either the package in which it is declared.
    pub fn resolve_symbol_path<'a>(
        table: &'a SymbolTable,
        path: SymbolPath,
        namespace: Namespace,
    ) -> (found: Option<&'a Symbol>)
        requires
            table@.wf(),
            table@.chain_ends(path, namespace),
        ensures
            found is Some <==> table@.target(path, namespace) is Some,
            found matches Some(symbol) ==> *symbol == table@.target(path, namespace)->0
                && table@.contains(symbol.id) && table@.symbol(symbol.id) == *symbol,
    {
        let ghost fuel = choose|fuel: nat| #[trigger] table@.ends_within(path, namespace, fuel);
        proof {
            table@.lemma_target_declared(path, namespace, fuel);
        }
        Self::follow_aliases(table, path, namespace, Ghost(fuel))
    }

    fn follow_aliases<'a>(
        table: &'a SymbolTable,
        path: SymbolPath,
        namespace: Namespace,
        Ghost(fuel): Ghost<nat>,
    ) -> (found: Option<&'a Symbol>)
        requires
            table@.wf(),
            table@.ends_within(path, namespace, fuel),
        ensures
            found is Some <==> table@.target_within(path, namespace, fuel) is Some,
            found matches Some(symbol) ==> *symbol == table@.target_within(
                path,
                namespace,
                fuel,
            )->0,
        decreases fuel,
    {
        let found: &Symbol = match table.resolve(path, namespace) {
            Some(found) => found,
            None => {
                return None;
            },
        };
        assert(table@.contains(table@.resolve(path, namespace)->0));
        // An alias that is used as an argument of a generic instance in its own namespace would
        // close a cycle, so the symbol that it stands for takes its place.
        let symbol: &Symbol = match table.alias_target(found.id) {
            Some(target) => {
                proof {
                    table@.lemma_target_declared(target, found.namespace, (fuel - 1) as nat);
                }
                match Self::follow_aliases(
                    table,
                    target,
                    found.namespace,
                    Ghost((fuel - 1) as nat),
                ) {
                    Some(symbol) => symbol,
                    None => {
                        return None;
                    },
                }
            },
            None => found,
        };
        match table.parent_package(symbol.id) {
            Some(package) => Some(package),
            None => Some(symbol),
        }
    }

    /// Inserts a path under one assignment of generic parameters. `parent` is the symbol in which
    /// the path stands, and `parent_package` the package in which that symbol is declared.
    pub fn insert_path_with_generic_map(
        &mut self,
        table: &SymbolTable,
        path: GenericSymbolPath,
        namespace: Namespace,
        parent: Option<(&Symbol, Context)>,
        parent_package: Option<&Symbol>,
        generic_map: Option<GenericMap>,
    )
        requires
            old(self).wf(),
            table@.wf(),
            elements_end(
                table@,
                instance_elements(table@, path, namespace, generic_map),
                namespace,
            ),
            is_parent(table@, parent, parent_package),
            old(self)@.load() + instance_cost(table@, path, namespace, generic_map) <= u32::MAX,
        ensures
            final(self).wf(),
            final(self)@ == old(self)@.with_instance(
                table@,
                path,
                namespace,
                parent_id(parent),
                generic_map,
            ),
            final(self)@.load() <= old(self)@.load() + instance_cost(
                table@,
                path,
                namespace,
                generic_map,
            ),
    {
        let mut path: GenericSymbolPath = table.resolve_imported(path, namespace, generic_map);
        if let Some(map) = generic_map {
            path = table.apply_map(path, map);
        }
        let elements: &Vec<GenericSymbol> = match table.elements(path) {
            Some(elements) => elements,
            None => {
                return;
            },
        };
        let mut i: usize = 0;
        while i < elements.len()
            invariant
                self.wf(),
                table@.wf(),
                elements_end(table@, elements@, namespace),
                is_parent(table@, parent, parent_package),
                i <= elements@.len(),
                self@ == old(self)@.with_elements(
                    table@,
                    elements@,
                    namespace,
                    parent_id(parent),
                    i as nat,
                ),
                self@.load() <= old(self)@.load() + elements_cost(elements@, i as nat),
                old(self)@.load() + elements_cost(elements@, elements@.len()) <= u32::MAX,
            decreases elements@.len() - i,
        {
            proof {
                lemma_elements_cost_grows(elements@, i as nat + 1, elements@.len());
            }
            assert(element_ends(table@, elements@[i as int], namespace));
            self.insert_element(table, &elements[i], namespace, parent, parent_package);
            i = i + 1;
        }
    }

    /// Inserts one element of a path: what it refers to, the dependency on it of the symbol in which
    /// the path stands, and its generic arguments.
    fn insert_element(
        &mut self,
        table: &SymbolTable,
        element: &GenericSymbol,
        namespace: Namespace,
        parent: Option<(&Symbol, Context)>,
        parent_package: Option<&Symbol>,
    )
        requires
            old(self).wf(),
            table@.wf(),
            element_ends(table@, *element, namespace),
            is_parent(table@, parent, parent_package),
            old(self)@.load() + 3 + 2 * element.arguments@.len() <= u32::MAX,
        ensures
            final(self).wf(),
            final(self)@ == old(self)@.with_element(
                table@,
                *element,
                namespace,
                parent_id(parent),
            ),
            final(self)@.load() <= old(self)@.load() + 3 + 2 * element.arguments@.len(),
    {
        let base_symbol: &Symbol = match Self::resolve_symbol_path(
            table,
            element.base_path,
            namespace,
        ) {
            Some(symbol) => symbol,
            None => {
                return;
            },
        };
        proof {
            lemma_with_symbol_wf(self@, table@, *base_symbol);
        }
        let base: u32 = match self.insert_symbol(table, base_symbol) {
            Some(base) => base,
            None => {
                return;
            },
        };
        let ghost mid = self@;
        if let Some((parent_symbol, parent_context)) = parent {
            let (parent_symbol, parent_context): (&Symbol, Context) = match parent_package {
                Some(package) => if package.id != base_symbol.id {
                    (package, Context::Package)
                } else {
                    (parent_symbol, parent_context)
                },
                None => (parent_symbol, parent_context),
            };
            proof {
                lemma_with_symbol_wf(self@, table@, *parent_symbol);
            }
            if let Some(parent) = self.insert_symbol(table, parent_symbol) {
                if !self.is_dag_owned(parent, base) {
                    proof {
                        lemma_with_dag_edge_wf(self@, parent, base, parent_context);
                    }
                    self.insert_dag_edge(parent, base, parent_context);
                }
            }
        }
        assert(self@ == mid.with_base_used(table@, *base_symbol, parent_id(parent)));
        let ghost used = self@;
        let mut i: usize = 0;
        while i < element.arguments.len()
            invariant
                self.wf(),
                table@.wf(),
                forall|j: int|
                    0 <= j < element.arguments@.len() ==> #[trigger] table@.chain_ends(
                        element.arguments@[j],
                        namespace,
                    ),
                i <= element.arguments@.len(),
                self@ == used.with_arguments(
                    table@,
                    base,
                    namespace,
                    element.arguments@,
                    i as nat,
                ),
                self@.symbols.contains_key(base),
                self@.load() <= used.load() + 2 * i,
                used.load() + 2 * element.arguments@.len() <= u32::MAX,
            decreases element.arguments@.len() - i,
        {
            let path: SymbolPath = element.arguments[i];
            assert(table@.chain_ends(element.arguments@[i as int], namespace));
            if let Some(arg) = Self::resolve_symbol_path(table, path, namespace) {
                proof {
                    lemma_with_symbol_wf(self@, table@, *arg);
                }
                if let Some(arg) = self.insert_symbol(table, arg) {
                    proof {
                        lemma_with_dag_edge_wf(self@, base, arg, Context::GenericInstance);
                    }
                    self.insert_dag_edge(base, arg, Context::GenericInstance);
                }
            }
            i = i + 1;
        }
    }

    /// Inserts a path, once for each assignment of generic parameters with which the symbol in which
    /// it stands is used.
    pub fn insert_path(
        &mut self,
        table: &SymbolTable,
        path: GenericSymbolPath,
        namespace: Namespace,
        parent: &Option<(SymbolId, Context)>,
    )
        requires
            old(self).wf(),
            table@.wf(),
            path_ends(table@, path, namespace, *parent),
            *parent matches Some((id, _)) ==> table@.contains(id),
            old(self)@.load() + path_cost(table@, path, namespace, *parent) <= u32::MAX,
        ensures
            final(self).wf(),
            final(self)@ == old(self)@.with_path(table@, path, namespace, *parent),
            final(self)@.load() <= old(self)@.load() + path_cost(table@, path, namespace, *parent),
    {
        if let Some((parent_id, parent_context)) = *parent {
            let parent_symbol: &Symbol = table.get(parent_id).unwrap();
            assert(parent_symbol.id == parent_id);
            let parent_package: Option<&Symbol> = table.parent_package(parent_id);
            let maps: &Vec<GenericMap> = table.generic_maps(parent_id);
            let mut i: usize = 0;
            while i < maps.len()
                invariant
                    self.wf(),
                    table@.wf(),
                    forall|j: int|
                        0 <= j < maps@.len() ==> elements_end(
                            table@,
                            instance_elements(
                                table@,
                                path,
                                namespace,
                                Some(#[trigger] maps@[j]),
                            ),
                            namespace,
                        ),
                    parent_symbol.id == parent_id,
                    is_parent(table@, Some((parent_symbol, parent_context)), parent_package),
                    i <= maps@.len(),
                    self@ == old(self)@.with_instances(
                        table@,
                        path,
                        namespace,
                        Some((parent_id, parent_context)),
                        maps@,
                        i as nat,
                    ),
                    self@.load() <= old(self)@.load() + instances_cost(
                        table@,
                        path,
                        namespace,
                        maps@,
                        i as nat,
                    ),
                    old(self)@.load() + instances_cost(
                        table@,
                        path,
                        namespace,
                        maps@,
                        maps@.len(),
                    ) <= u32::MAX,
                decreases maps@.len() - i,
            {
                proof {
                    lemma_instances_cost_grows(
                        table@,
                        path,
                        namespace,
                        maps@,
                        i as nat + 1,
                        maps@.len(),
                    );
                }
                assert(maps@[i as int] == maps[i as int]);
                self.insert_path_with_generic_map(
                    table,
                    path,
                    namespace,
                    Some((parent_symbol, parent_context)),
                    parent_package,
                    Some(maps[i]),
                );
                i = i + 1;
            }
        } else {
            self.insert_path_with_generic_map(table, path, namespace, None, None, None);
        }
    }

    /// Puts everything that was added into the graph, and returns the errors that were found.
    pub fn apply(&mut self, table: &SymbolTable) -> (errors: Vec<AnalyzerError>)
        requires
            old(self).wf(),
            old(self)@.applicable(table@),
        ensures
            final(self).wf(),
            final(self)@ == (DagView { errors: Seq::empty(), ..old(self)@.applied(table@) }),
            final(self)@.candidates.len() == 0,
            old(self)@.candidates.len() == 0 ==> final(self)@ == (DagView {
                errors: Seq::empty(),
                ..old(self)@
            }) && final(self)@.order() == old(self)@.order(),
            errors@ == old(self)@.applied(table@).errors.map_values(
                |error: DagError| error.report(),
            ),
    {
        let mut candidates: Vec<TypeDagCandidate> = Vec::new();
        std::mem::swap(&mut candidates, &mut self.candidates);
        let ghost taken = self@;
        let ghost bound = taken.load() + all_declared_cost(candidates@, candidates@.len())
            + all_used_cost(table@, candidates@, candidates@.len());
        assert(taken == (DagView { candidates: Seq::empty(), ..old(self)@ }));

        // Process symbol declarations at first to construct dag_owned
        let mut i: usize = 0;
        while i < candidates.len()
            invariant
                self.wf(),
                table@.wf(),
                forall|j: int|
                    0 <= j < candidates@.len() ==> parent_declared(
                        table@,
                        #[trigger] candidates@[j],
                    ),
                i <= candidates@.len(),
                self@ == taken.with_all_declared(table@, candidates@, i as nat),
                self@.load() <= taken.load() + all_declared_cost(candidates@, i as nat),
                bound == taken.load() + all_declared_cost(candidates@, candidates@.len())
                    + all_used_cost(table@, candidates@, candidates@.len()),
                bound <= u32::MAX,
            decreases candidates@.len() - i,
        {
            proof {
                lemma_candidates_cost_grows(
                    table@,
                    candidates@,
                    i as nat + 1,
                    candidates@.len(),
                );
                assert(parent_declared(table@, candidates@[i as int]));
            }
            self.apply_declaration(table, &candidates[i]);
            i = i + 1;
        }
        let ghost declared = self@;

        // Process symbol references using dag_owned
        let mut i: usize = 0;
        while i < candidates.len()
            invariant
                self.wf(),
                table@.wf(),
                forall|j: int|
                    0 <= j < candidates@.len() ==> parent_declared(
                        table@,
                        #[trigger] candidates@[j],
                    ) && use_ends(table@, candidates@[j]),
                i <= candidates@.len(),
                self@ == declared.with_all_used(table@, candidates@, i as nat),
                self@.load() <= declared.load() + all_used_cost(table@, candidates@, i as nat),
                declared.load() + all_used_cost(table@, candidates@, candidates@.len())
                    <= u32::MAX,
            decreases candidates@.len() - i,
        {
            proof {
                lemma_candidates_cost_grows(
                    table@,
                    candidates@,
                    i as nat + 1,
                    candidates@.len(),
                );
                assert(parent_declared(table@, candidates@[i as int]) && use_ends(
                    table@,
                    candidates@[i as int],
                ));
            }
            if let TypeDagCandidate::Path { path, namespace, parent } = &candidates[i] {
                self.insert_path(table, *path, *namespace, parent);
            }
            i = i + 1;
        }

        let mut found: Vec<DagError> = Vec::new();
        std::mem::swap(&mut found, &mut self.errors);
        let ghost all = found@;
        let ghost report = |error: DagError| error.report();
        let mut errors: Vec<AnalyzerError> = Vec::new();
        for x in iter: found
            invariant
                iter.seq() == all,
                errors@ == all.take(iter.index()).map_values(report),
                report == (|error: DagError| error.report()),
        {
            proof {
                assert(all.take(iter.index() + 1) =~= all.take(iter.index()).push(x));
            }
            errors.push(AnalyzerError::from(x));
            assert(errors@ =~= all.take(iter.index() + 1).map_values(report));
        }
        assert(all.take(all.len() as int) =~= all);
        proof {
            law_apply_grows(old(self)@, table@);
            if old(self)@.candidates.len() == 0 {
                law_apply_nothing(old(self)@, table@);
            }
        }
        errors
    }

    /// Inserts the declaration in a candidate, and what it imports.
    fn apply_declaration(&mut self, table: &SymbolTable, candidate: &TypeDagCandidate)
        requires
            old(self).wf(),
            table@.wf(),
            parent_declared(table@, *candidate),
            old(self)@.load() + declared_cost(*candidate) <= u32::MAX,
        ensures
            final(self).wf(),
            final(self)@ == old(self)@.with_declared(table@, *candidate),
            final(self)@.load() <= old(self)@.load() + declared_cost(*candidate),
    {
        if let TypeDagCandidate::Symbol { id, context, parent, import } = candidate {
            if let Some(symbol) = table.get(*id) {
                assert(symbol.id == *id);
                if let Some(child) = self.insert_declaration_symbol(table, symbol, parent) {
                    let ghost declared = self@;
                    let mut i: usize = 0;
                    while i < import.len()
                        invariant
                            self.wf(),
                            table@.wf(),
                            i <= import@.len(),
                            self@ == declared.with_imports(
                                table@,
                                child,
                                *context,
                                import@,
                                i as nat,
                            ),
                            self@.symbols.contains_key(child),
                            self@.load() <= declared.load() + 2 * i,
                            declared.load() + 2 * import@.len() <= u32::MAX,
                        decreases import@.len() - i,
                    {
                        let x: GenericSymbolPathNamespace = import[i];
                        if let Some(found) = table.resolve(x.0, x.1) {
                            proof {
                                assert(table@.contains(table@.resolve(x.0, x.1)->0));
                                lemma_with_symbol_wf(self@, table@, *found);
                            }
                            if let Some(import) = self.insert_symbol(table, found) {
                                proof {
                                    lemma_with_dag_edge_wf(self@, child, import, *context);
                                }
                                self.insert_dag_edge(child, import, *context);
                            }
                        }
                        i = i + 1;
                    }
                }
            }
        }
    }

    /// Takes everything out, so that nothing but the source is left, as in a new graph.
    pub fn clear(&mut self)
        ensures
            final(self).wf(),
            final(self)@ == DagView::empty(),
    {
        *self = Self::new();
    }
}

/// `parent` is a declared symbol, and `parent_package` the package in which it is declared.
pub open spec fn is_parent(
    table: TableView,
    parent: Option<(&Symbol, Context)>,
    parent_package: Option<&Symbol>,
) -> bool {
    match parent {
        Some((symbol, _)) => {
            &&& table.contains(symbol.id)
            &&& table.symbol(symbol.id) == *symbol
            &&& parent_package is Some <==> table.parent_package(symbol.id) is Some
            &&& parent_package matches Some(package) ==> *package == table.parent_package(
                symbol.id,
            )->0 && table.contains(package.id) && table.symbol(package.id) == *package
        },
        None => true,
    }
}

/// The number of the symbol in which a path stands, with the context.
pub open spec fn parent_id(parent: Option<(&Symbol, Context)>) -> Option<(SymbolId, Context)> {
    match parent {
        Some((symbol, context)) => Some((symbol.id, context)),
        None => None,
    }
}

/// Where there is no edge between two nodes, there is none to take out.
proof fn lemma_no_edges_to_remove(view: DagView, start: u32, end: u32)
    requires
        view.wf(),
        !has_edge(view.incoming, start, end),
    ensures
        view.without_edges(start, end) == view,
{
    lemma_nothing_from(view.incoming, start, end);
    lemma_nothing_from(view.outgoing, end, start);
}

proof fn lemma_nothing_from(graph: Incoming, start: u32, end: u32)
    requires
        !has_edge(graph, start, end),
    ensures
        crate::graph::without_edges(graph, start, end) == graph,
{
    if end < graph.len() {
        let list = graph[end as int];
        let keep = crate::graph::not_from(start);
        assert forall|i: int| 0 <= i < list.len() implies keep(#[trigger] list[i]) by {
            assert(graph[end as int][i].0 != start);
        }
        crate::graph::lemma_filter_nothing(list, keep);
        assert(crate::graph::without_edges(graph, start, end) =~= graph);
    }
}

/// Notes something to put into the graph.
pub fn add(dag: &mut TypeDag, cand: TypeDagCandidate)
    requires
        old(dag).wf(),
    ensures
        final(dag).wf(),
        final(dag)@ == (DagView { candidates: old(dag)@.candidates.push(cand), ..old(dag)@ }),
        final(dag)@.order() == old(dag)@.order(),
{
    dag.add(cand)
}

/// Puts everything that was added into the graph, and returns the errors that were found.
pub fn apply(dag: &mut TypeDag, table: &SymbolTable) -> (errors: Vec<AnalyzerError>)
    requires
        old(dag).wf(),
        old(dag)@.applicable(table@),
    ensures
        final(dag).wf(),
        final(dag)@ == (DagView { errors: Seq::empty(), ..old(dag)@.applied(table@) }),
        final(dag)@.candidates.len() == 0,
        old(dag)@.candidates.len() == 0 ==> final(dag)@ == (DagView {
            errors: Seq::empty(),
            ..old(dag)@
        }) && final(dag)@.order() == old(dag)@.order(),
        errors@ == old(dag)@.applied(table@).errors.map_values(|error: DagError| error.report()),
{
    dag.apply(table)
}

/// The symbols in the graph, each after the symbols that it depends on.
pub fn toposort(dag: &TypeDag) -> (symbols: Vec<Symbol>)
    requires
        dag.wf(),
    ensures
        is_topological(dag@.order(), dag@.incoming),
        symbols@ == dag@.symbols_of(dag@.order()),
{
    dag.toposort()
}

/// For each symbol in the graph, the symbol and all that it depends on.
pub fn connected_components(dag: &TypeDag) -> (components: Vec<Vec<Symbol>>)
    requires
        dag.wf(),
    ensures
        exists|keys: Seq<u32>| #[trigger] dag@.are_components(keys, components@),
{
    dag.connected_components()
}

/// The text for the whole graph, with the symbols in the order of their names.
pub fn dump(dag: &TypeDag) -> (text: String)
    requires
        dag.wf(),
    ensures
        is_topological(dag@.order(), dag@.incoming),
        exists|sorted: Seq<u32>| #[trigger]
            dag@.is_stable_sort(dag@.order(), sorted) && text@ == dag@.text(sorted),
{
    dag.dump()
}

/// Takes everything out of the graph.
pub fn clear(dag: &mut TypeDag)
    ensures
        final(dag).wf(),
        final(dag)@ == DagView::empty(),
{
    dag.clear()
}

/// A cycle is reported with the names of the symbol that is used and of its user, in this order, and
/// points at the user.
pub proof fn law_report(base: Symbol, user: Symbol)
    ensures
        DagError::Cyclic(base, user).report() matches AnalyzerError::CyclicTypeDependency {
            start,
            end,
            token,
        } && start == base.token.text && end == user.token.text && token == user.token,
{
}

} // verus!
