//! Whether what was added can be put into the graph.
use super::{TypeDag, TypeDagCandidate};
use crate::context::Context;
use crate::dag_lemmas::{
    lemma_candidates_cost_grows, lemma_elements_cost_grows, lemma_instances_cost_grows,
};
use crate::dag_view::{
    all_declared_cost, all_used_cost, declared_cost, element_ends, elements_cost, elements_end,
    instance_cost, instance_elements, instances_cost, parent_declared, path_cost, path_ends,
    use_ends, used_cost,
};
use crate::symbol::{
    GenericMap, GenericSymbol, GenericSymbolPath, Namespace, SymbolId,
};
use crate::symbol_table::SymbolTable;
use vstd::prelude::*;

verus! {

/// What is left of `left` when two for each of `count` and three more are taken from it.
fn take_from(left: u32, count: usize) -> (rest: Option<u32>)
    ensures
        rest is Some <==> 3 + 2 * count <= left,
        rest matches Some(rest) ==> rest + 3 + 2 * count == left,
{
    if left < 3 || (left - 3) as u64 / 2 < count as u64 {
        None
    } else {
        Some(left - 3 - 2 * (count as u32))
    }
}

/// Whether no alias that is followed from an element of a path leads back to itself.
fn check_element(table: &SymbolTable, element: &GenericSymbol, namespace: Namespace) -> (ends: bool)
    requires
        table@.wf(),
    ensures
        ends == element_ends(table@, *element, namespace),
{
    if !table.chain_ends(element.base_path, namespace) {
        return false;
    }
    match TypeDag::resolve_symbol_path(table, element.base_path, namespace) {
        Some(base) => if !base.kind.is_dag_symbol() {
            return true;
        },
        None => {
            return true;
        },
    }
    let mut i: usize = 0;
    while i < element.arguments.len()
        invariant
            table@.wf(),
            i <= element.arguments@.len(),
            table@.target(element.base_path, namespace) matches Some(base)
                && base.kind.is_dag_kind(),
            forall|j: int|
                0 <= j < i ==> #[trigger] table@.chain_ends(element.arguments@[j], namespace),
        decreases element.arguments@.len() - i,
    {
        if !table.chain_ends(element.arguments[i], namespace) {
            assert(!table@.chain_ends(element.arguments@[i as int], namespace));
            return false;
        }
        i = i + 1;
    }
    true
}

/// What is left of `left` after the elements of a path, if it is enough for them and none of their
/// aliases leads back to itself.
fn check_elements(
    table: &SymbolTable,
    elements: &Vec<GenericSymbol>,
    namespace: Namespace,
    left: u32,
) -> (rest: Option<u32>)
    requires
        table@.wf(),
    ensures
        rest is Some <==> elements_end(table@, elements@, namespace) && elements_cost(
            elements@,
            elements@.len(),
        ) <= left,
        rest matches Some(rest) ==> rest + elements_cost(elements@, elements@.len()) == left,
{
    let mut rest: u32 = left;
    let mut i: usize = 0;
    while i < elements.len()
        invariant
            table@.wf(),
            i <= elements@.len(),
            rest + elements_cost(elements@, i as nat) == left,
            forall|j: int|
                0 <= j < i ==> element_ends(table@, #[trigger] elements@[j], namespace),
        decreases elements@.len() - i,
    {
        proof {
            lemma_elements_cost_grows(elements@, i as nat + 1, elements@.len());
        }
        if !check_element(table, &elements[i], namespace) {
            assert(!element_ends(table@, elements@[i as int], namespace));
            return None;
        }
        match take_from(rest, elements[i].arguments.len()) {
            Some(less) => {
                rest = less;
            },
            None => {
                return None;
            },
        }
        i = i + 1;
    }
    Some(rest)
}

/// What is left of `left` after a path under one assignment of generic parameters.
fn check_instance(
    table: &SymbolTable,
    path: GenericSymbolPath,
    namespace: Namespace,
    map: Option<GenericMap>,
    left: u32,
) -> (rest: Option<u32>)
    requires
        table@.wf(),
    ensures
        rest is Some <==> elements_end(
            table@,
            instance_elements(table@, path, namespace, map),
            namespace,
        ) && instance_cost(table@, path, namespace, map) <= left,
        rest matches Some(rest) ==> rest + instance_cost(table@, path, namespace, map) == left,
{
    let mut imported: GenericSymbolPath = table.resolve_imported(path, namespace, map);
    if let Some(map) = map {
        imported = table.apply_map(imported, map);
    }
    match table.elements(imported) {
        Some(elements) => check_elements(table, elements, namespace, left),
        None => Some(left),
    }
}

/// What is left of `left` after a path that stands in `parent`.
fn check_path(
    table: &SymbolTable,
    path: GenericSymbolPath,
    namespace: Namespace,
    parent: &Option<(SymbolId, Context)>,
    left: u32,
) -> (rest: Option<u32>)
    requires
        table@.wf(),
        *parent matches Some((id, _)) ==> table@.contains(id),
    ensures
        rest is Some <==> path_ends(table@, path, namespace, *parent) && path_cost(
            table@,
            path,
            namespace,
            *parent,
        ) <= left,
        rest matches Some(rest) ==> rest + path_cost(table@, path, namespace, *parent) == left,
{
    match *parent {
        Some((id, context)) => {
            let maps: &Vec<GenericMap> = table.generic_maps(id);
            let mut rest: u32 = left;
            let mut i: usize = 0;
            while i < maps.len()
                invariant
                    table@.wf(),
                    *parent == Some((id, context)),
                    maps == table@.entries[id.0].generic_maps,
                    i <= maps@.len(),
                    rest + instances_cost(table@, path, namespace, maps@, i as nat) == left,
                    forall|j: int|
                        0 <= j < i ==> elements_end(
                            table@,
                            instance_elements(table@, path, namespace, Some(#[trigger] maps@[j])),
                            namespace,
                        ),
                decreases maps@.len() - i,
            {
                proof {
                    lemma_instances_cost_grows(
                        table@,
                        path,
                        namespace,
                        maps@,
                        i as nat + 1,
                        maps@.len(),
                    );
                    assert(maps@[i as int] == maps[i as int]);
                }
                match check_instance(table, path, namespace, Some(maps[i]), rest) {
                    Some(less) => {
                        rest = less;
                    },
                    None => {
                        return None;
                    },
                }
                i = i + 1;
            }
            Some(rest)
        },
        None => check_instance(table, path, namespace, None, left),
    }
}

/// Whether the symbol in which a candidate stands is declared, where it is looked up.
fn check_parent(table: &SymbolTable, candidate: &TypeDagCandidate) -> (declared: bool)
    requires
        table@.wf(),
    ensures
        declared == parent_declared(table@, *candidate),
{
    match candidate {
        TypeDagCandidate::Path { parent, .. } => match parent {
            Some((parent, _)) => table.get(*parent).is_some(),
            None => true,
        },
        TypeDagCandidate::Symbol { id, parent, .. } => match parent {
            Some((parent, _)) => match table.get(*id) {
                Some(symbol) => !symbol.kind.is_dag_symbol() || table.get(*parent).is_some(),
                None => true,
            },
            None => true,
        },
    }
}

/// What is left of `left` after a candidate was taken for a declaration and for a use.
fn check_candidate(table: &SymbolTable, candidate: &TypeDagCandidate, left: u32) -> (rest: Option<
    u32,
>)
    requires
        table@.wf(),
    ensures
        rest is Some <==> parent_declared(table@, *candidate) && use_ends(table@, *candidate)
            && declared_cost(*candidate) + used_cost(table@, *candidate) <= left,
        rest matches Some(rest) ==> rest + declared_cost(*candidate) + used_cost(table@, *candidate)
            == left,
{
    if !check_parent(table, candidate) {
        return None;
    }
    match candidate {
        TypeDagCandidate::Path { path, namespace, parent } => check_path(
            table,
            *path,
            *namespace,
            parent,
            left,
        ),
        TypeDagCandidate::Symbol { import, .. } => take_from(left, import.len()),
    }
}

impl TypeDag {
    /// Whether what was added can be applied: the symbols in which it stands are declared, no alias
    /// that it uses leads back to itself, and the graph has room for it.
    pub fn can_apply(&self, table: &SymbolTable) -> (ready: bool)
        requires
            self.wf(),
            table@.wf(),
        ensures
            ready == self@.applicable(table@),
    {
        let nodes: usize = self.dag.node_count();
        let edges: usize = self.dag.edge_count();
        let load: usize = if nodes >= edges {
            nodes
        } else {
            edges
        };
        assert(load == self@.load());
        let mut rest: u32 = u32::MAX - load as u32;
        let ghost all = self.candidates@;
        let mut i: usize = 0;
        while i < self.candidates.len()
            invariant
                table@.wf(),
                all == self.candidates@,
                i <= all.len(),
                self@.load() + all_declared_cost(all, i as nat) + all_used_cost(
                    table@,
                    all,
                    i as nat,
                ) + rest == u32::MAX,
                forall|j: int|
                    0 <= j < i ==> parent_declared(table@, #[trigger] all[j]) && use_ends(
                        table@,
                        all[j],
                    ),
            decreases all.len() - i,
        {
            proof {
                lemma_candidates_cost_grows(table@, all, i as nat + 1, all.len());
                assert(all == self@.candidates);
            }
            match check_candidate(table, &self.candidates[i], rest) {
                Some(less) => {
                    rest = less;
                },
                None => {
                    assert(!(parent_declared(table@, all[i as int]) && use_ends(
                        table@,
                        all[i as int],
                    ) && declared_cost(all[i as int]) + used_cost(table@, all[i as int]) <= rest));
                    return false;
                },
            }
            i = i + 1;
        }
        true
    }
}

} // verus!
