//! What holds of the table of symbols.
use crate::symbol::{
    GenericMap, GenericSymbol, GenericSymbolPath, Namespace, Symbol, SymbolId, SymbolPath,
};
use crate::symbol_table::{map_number, TableView};
use vstd::prelude::*;

verus! {

/// A path refers to what was recorded last for it in its namespace; no other path or namespace is
/// touched.
pub proof fn law_recorded_resolution(
    table: TableView,
    path: SymbolPath,
    namespace: Namespace,
    id: SymbolId,
    other: SymbolPath,
    elsewhere: Namespace,
)
    ensures
        ({
            let after = TableView {
                resolutions: table.resolutions.insert((path.0, namespace.0, None), id.0),
                ..table
            };
            &&& after.resolve(path, namespace) == Some(id)
            &&& other != path || elsewhere != namespace ==> after.resolve(other, elsewhere)
                == table.resolve(other, elsewhere)
        }),
{
}

/// A path becomes what was recorded last for it in its namespace under an assignment, or under none;
/// no other path, namespace or assignment is touched.
pub proof fn law_recorded_import(
    table: TableView,
    path: GenericSymbolPath,
    namespace: Namespace,
    map: Option<GenericMap>,
    imported: GenericSymbolPath,
    other: GenericSymbolPath,
    elsewhere: Namespace,
    another: Option<GenericMap>,
)
    ensures
        ({
            let after = TableView {
                imported: table.imported.insert(
                    (path.0, namespace.0, map_number(map)),
                    imported.0,
                ),
                ..table
            };
            &&& after.resolve_imported(path, namespace, map) == imported
            &&& other != path || elsewhere != namespace || another != map
                ==> after.resolve_imported(other, elsewhere, another) == table.resolve_imported(
                other,
                elsewhere,
                another,
            )
        }),
{
}

/// A path becomes what was recorded last for it under an assignment, whether or not it has elements
/// of its own; no other path or assignment is touched.
pub proof fn law_recorded_assignment(
    table: TableView,
    path: GenericSymbolPath,
    map: GenericMap,
    applied: GenericSymbolPath,
    other: GenericSymbolPath,
    another: GenericMap,
)
    ensures
        ({
            let after = TableView {
                applied: table.applied.insert((path.0, map.0, None), applied.0),
                ..table
            };
            &&& after.apply_map(path, map) == applied
            &&& other != path || another != map ==> after.apply_map(other, another)
                == table.apply_map(other, another)
        }),
{
}

/// A path has the elements that were recorded last for it; no other path is touched.
pub proof fn law_recorded_elements(
    table: TableView,
    path: GenericSymbolPath,
    elements: Vec<GenericSymbol>,
    other: GenericSymbolPath,
)
    ensures
        ({
            let after = TableView { paths: table.paths.insert(path.0, elements), ..table };
            &&& after.elements(path) == elements@
            &&& other != path ==> after.elements(other) == table.elements(other)
        }),
{
}

/// Where nothing was recorded, a path refers to nothing, stays as it is when imports are resolved and
/// when an assignment is applied, and has no elements.
pub proof fn law_unrecorded(
    table: TableView,
    path: SymbolPath,
    generic: GenericSymbolPath,
    namespace: Namespace,
    map: GenericMap,
    some: Option<GenericMap>,
)
    ensures
        !table.resolutions.dom().contains((path.0, namespace.0, None)) ==> table.resolve(
            path,
            namespace,
        ) is None,
        !table.imported.dom().contains((generic.0, namespace.0, map_number(some)))
            ==> table.resolve_imported(generic, namespace, some) == generic,
        !table.applied.dom().contains((generic.0, map.0, None)) ==> table.apply_map(generic, map)
            == generic,
        !table.paths.dom().contains(generic.0) ==> table.elements(generic).len() == 0,
{
}

/// A symbol in a package is replaced by the package, and any other stays.
pub open spec fn is_package_or(table: TableView, symbol: Symbol, found: Option<Symbol>) -> bool {
    match table.entries[symbol.id.0].parent_package {
        Some(package) => found == Some(table.symbol(package)),
        None => found == Some(symbol),
    }
}

/// A path that refers to no alias stands for the package in which the symbol that it refers to is
/// declared, if it is declared in one, and else for the symbol. A path that refers to an alias
/// stands for what the path behind the alias stands for in the namespace of the alias, or again
/// for the package of that.
pub proof fn law_target_package(table: TableView, path: SymbolPath, namespace: Namespace)
    requires
        table.wf(),
        table.chain_ends(path, namespace),
    ensures
        ({
            let found = table.target(path, namespace);
            let key = (path.0, namespace.0, None);
            if !table.resolutions.contains_key(key) {
                found is None
            } else {
                let entry = table.entries[table.resolutions[key]];
                match entry.alias_target {
                    None => is_package_or(table, entry.symbol, found),
                    Some(target) => match table.target(target, entry.symbol.namespace) {
                        None => found is None,
                        Some(symbol) => is_package_or(table, symbol, found),
                    },
                }
            }
        }),
{
    crate::laws::law_target(table, path, namespace);
    let key = (path.0, namespace.0, None::<usize>);
    if table.resolutions.contains_key(key) {
        assert(table.contains(SymbolId(table.resolutions[key])));
    }
}

/// Following aliases from a path comes to an end exactly where the path refers to nothing or to no
/// alias, or where following them from the path behind the alias does.
pub proof fn law_chain_step(table: TableView, path: SymbolPath, namespace: Namespace)
    ensures
        table.chain_ends(path, namespace) <==> ({
            let key = (path.0, namespace.0, None);
            table.resolutions.contains_key(key) ==> {
                let entry = table.entries[table.resolutions[key]];
                entry.alias_target matches Some(target) ==> table.chain_ends(
                    target,
                    entry.symbol.namespace,
                )
            }
        }),
{
    let key = (path.0, namespace.0, None::<usize>);
    if table.chain_ends(path, namespace) {
        let fuel = choose|fuel: nat| #[trigger] table.ends_within(path, namespace, fuel);
        if table.resolutions.contains_key(key) {
            let entry = table.entries[table.resolutions[key]];
            if let Some(target) = entry.alias_target {
                assert(table.ends_within(target, entry.symbol.namespace, (fuel - 1) as nat));
            }
        }
    }
    if table.resolutions.contains_key(key) {
        let entry = table.entries[table.resolutions[key]];
        match entry.alias_target {
            Some(target) => {
                if table.chain_ends(target, entry.symbol.namespace) {
                    let fuel = choose|fuel: nat| #[trigger]
                        table.ends_within(target, entry.symbol.namespace, fuel);
                    assert(table.ends_within(path, namespace, fuel + 1));
                }
            },
            None => {
                assert(table.ends_within(path, namespace, 0));
            },
        }
    } else {
        assert(table.ends_within(path, namespace, 0));
    }
}

/// Each of these paths refers to an alias of the next, and the last to an alias of the first.
pub open spec fn is_alias_ring(table: TableView, ring: Seq<(SymbolPath, Namespace)>, i: int) -> bool {
    let key = (ring[i].0.0, ring[i].1.0, None);
    let next = if i + 1 < ring.len() {
        ring[i + 1]
    } else {
        ring[0]
    };
    &&& table.resolutions.contains_key(key)
    &&& table.entries[table.resolutions[key]].alias_target == Some(next.0)
    &&& table.entries[table.resolutions[key]].symbol.namespace == next.1
}

/// Following aliases that lead back to where they began does not come to an end.
pub proof fn law_endless_aliases(table: TableView, ring: Seq<(SymbolPath, Namespace)>, i: int)
    requires
        0 <= i < ring.len(),
        forall|j: int| 0 <= j < ring.len() ==> #[trigger] is_alias_ring(table, ring, j),
    ensures
        !table.chain_ends(ring[i].0, ring[i].1),
{
    assert forall|fuel: nat| !#[trigger] table.ends_within(ring[i].0, ring[i].1, fuel) by {
        lemma_endless(table, ring, i, fuel);
    }
}

proof fn lemma_endless(
    table: TableView,
    ring: Seq<(SymbolPath, Namespace)>,
    i: int,
    fuel: nat,
)
    requires
        0 <= i < ring.len(),
        forall|j: int| 0 <= j < ring.len() ==> #[trigger] is_alias_ring(table, ring, j),
    ensures
        !table.ends_within(ring[i].0, ring[i].1, fuel),
    decreases fuel,
{
    assert(is_alias_ring(table, ring, i));
    if fuel > 0 {
        let next = if i + 1 < ring.len() {
            i + 1
        } else {
            0
        };
        lemma_endless(table, ring, next, (fuel - 1) as nat);
    }
}

} // verus!
