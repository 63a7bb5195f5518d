//! The table of declared symbols: what is known of each symbol, and what each path refers to.
use crate::relation::{Relation, RelationKey};
use crate::symbol::{
    GenericMap, GenericSymbol, GenericSymbolPath, Namespace, Symbol, SymbolId, SymbolPath,
};
use std::collections::HashMap;
use vstd::prelude::*;

verus! {

broadcast use vstd::std_specs::hash::group_hash_axioms;

/// What is known of a symbol.
#[derive(Debug)]
pub struct SymbolEntry {
    pub symbol: Symbol,
    /// The package in which the symbol is declared, if it is declared in one.
    pub parent_package: Option<SymbolId>,
    /// The path that the symbol is another name for, if it is an alias.
    pub alias_target: Option<SymbolPath>,
    /// The assignments of its generic parameters with which the symbol is used.
    pub generic_maps: Vec<GenericMap>,
}

/// The symbols that have been declared, and the paths that have been looked up.
pub struct SymbolTable {
    entries: HashMap<usize, SymbolEntry>,
    resolutions: Relation,
    imported: Relation,
    applied: Relation,
    paths: HashMap<usize, Vec<GenericSymbol>>,
}

/// The content of a table of symbols.
#[verifier::ext_equal]
pub struct TableView {
    /// By the number of a symbol, what is known of it.
    pub entries: Map<usize, SymbolEntry>,
    /// By a path and a namespace, the symbol that the path refers to there.
    pub resolutions: Map<RelationKey, usize>,
    /// By a generic path, a namespace and an assignment, the path after its imports were resolved.
    pub imported: Map<RelationKey, usize>,
    /// By a generic path and an assignment, the path after the assignment was applied.
    pub applied: Map<RelationKey, usize>,
    /// By the number of a generic path, its elements.
    pub paths: Map<usize, Vec<GenericSymbol>>,
}

pub open spec fn map_number(map: Option<GenericMap>) -> Option<usize> {
    match map {
        Some(map) => Some(map.0),
        None => None,
    }
}

impl TableView {
    pub open spec fn contains(self, id: SymbolId) -> bool {
        self.entries.contains_key(id.0)
    }

    pub open spec fn symbol(self, id: SymbolId) -> Symbol {
        self.entries[id.0].symbol
    }

    /// Each symbol stands under its own number, and every symbol that is referred to is declared.
    pub open spec fn wf(self) -> bool {
        &&& forall|id: SymbolId| #[trigger] self.contains(id) ==> self.symbol(id).id == id
        &&& forall|id: SymbolId| #[trigger]
            self.contains(id) ==> (self.entries[id.0].parent_package matches Some(package)
                ==> self.contains(package))
        &&& forall|key: RelationKey| #[trigger]
            self.resolutions.contains_key(key) ==> self.contains(SymbolId(self.resolutions[key]))
    }

    /// The symbol that `path` refers to in `namespace`.
    pub open spec fn resolve(self, path: SymbolPath, namespace: Namespace) -> Option<SymbolId> {
        let key = (path.0, namespace.0, None);
        if self.resolutions.contains_key(key) {
            Some(SymbolId(self.resolutions[key]))
        } else {
            None
        }
    }

    /// The package in which a symbol is declared.
    pub open spec fn parent_package(self, id: SymbolId) -> Option<Symbol> {
        match self.entries[id.0].parent_package {
            Some(package) => Some(self.symbol(package)),
            None => None,
        }
    }

    /// The path with its imports resolved; a path without imports stays as it is.
    pub open spec fn resolve_imported(
        self,
        path: GenericSymbolPath,
        namespace: Namespace,
        map: Option<GenericMap>,
    ) -> GenericSymbolPath {
        let key = (path.0, namespace.0, map_number(map));
        if self.imported.contains_key(key) {
            GenericSymbolPath(self.imported[key])
        } else {
            path
        }
    }

    /// The path with the generic parameters in it replaced; a path without any stays as it is.
    pub open spec fn apply_map(self, path: GenericSymbolPath, map: GenericMap) -> GenericSymbolPath {
        let key = (path.0, map.0, None);
        if self.applied.contains_key(key) {
            GenericSymbolPath(self.applied[key])
        } else {
            path
        }
    }

    /// The elements of a path.
    pub open spec fn elements(self, path: GenericSymbolPath) -> Seq<GenericSymbol> {
        if self.paths.contains_key(path.0) {
            self.paths[path.0]@
        } else {
            Seq::empty()
        }
    }

    /// At most `fuel` aliases have to be followed from `path`.
    pub open spec fn ends_within(self, path: SymbolPath, namespace: Namespace, fuel: nat) -> bool
        decreases fuel,
    {
        match self.resolve(path, namespace) {
            None => true,
            Some(id) => match self.entries[id.0].alias_target {
                None => true,
                Some(target) => fuel > 0 && self.ends_within(
                    target,
                    self.symbol(id).namespace,
                    (fuel - 1) as nat,
                ),
            },
        }
    }

    /// The aliases from `path` on come to an end.
    pub open spec fn chain_ends(self, path: SymbolPath, namespace: Namespace) -> bool {
        exists|fuel: nat| #[trigger] self.ends_within(path, namespace, fuel)
    }

    /// The package of a symbol that is declared in one, and any other symbol itself.
    pub open spec fn package_or_self(self, symbol: Symbol) -> Symbol {
        match self.parent_package(symbol.id) {
            Some(package) => package,
            None => symbol,
        }
    }

    /// The symbol that `path` stands for in the graph of dependencies, found by following at most
    /// `fuel` aliases.
    pub open spec fn target_within(
        self,
        path: SymbolPath,
        namespace: Namespace,
        fuel: nat,
    ) -> Option<Symbol>
        decreases fuel,
    {
        match self.resolve(path, namespace) {
            None => None,
            Some(id) => match self.entries[id.0].alias_target {
                None => Some(self.package_or_self(self.symbol(id))),
                Some(target) => if fuel == 0 {
                    None
                } else {
                    match self.target_within(target, self.symbol(id).namespace, (fuel - 1) as nat) {
                        None => None,
                        Some(symbol) => Some(self.package_or_self(symbol)),
                    }
                },
            },
        }
    }

    /// The symbol that `path` stands for in the graph of dependencies: what the path refers to, or
    /// what the alias that it refers to stands for, and in place of either the package in which it
    /// is declared.
    pub open spec fn target(self, path: SymbolPath, namespace: Namespace) -> Option<Symbol> {
        self.target_within(
            path,
            namespace,
            choose|fuel: nat| #[trigger] self.ends_within(path, namespace, fuel),
        )
    }

    /// How many aliases may be followed makes no difference once they are enough.
    pub proof fn lemma_fuel(self, path: SymbolPath, namespace: Namespace, f: nat, g: nat)
        requires
            self.ends_within(path, namespace, f),
            self.ends_within(path, namespace, g),
        ensures
            self.target_within(path, namespace, f) == self.target_within(path, namespace, g),
        decreases f,
    {
        if let Some(id) = self.resolve(path, namespace) {
            if let Some(target) = self.entries[id.0].alias_target {
                self.lemma_fuel(
                    target,
                    self.symbol(id).namespace,
                    (f - 1) as nat,
                    (g - 1) as nat,
                );
            }
        }
    }

    /// If some aliases are enough to follow, so are more.
    proof fn lemma_more_fuel(self, path: SymbolPath, namespace: Namespace, f: nat, g: nat)
        requires
            f <= g,
            self.ends_within(path, namespace, f),
        ensures
            self.ends_within(path, namespace, g),
        decreases f,
    {
        if let Some(id) = self.resolve(path, namespace) {
            if let Some(target) = self.entries[id.0].alias_target {
                self.lemma_more_fuel(
                    target,
                    self.symbol(id).namespace,
                    (f - 1) as nat,
                    (g - 1) as nat,
                );
            }
        }
    }

    /// The aliases from which fewer than `fuel` further aliases have to be followed.
    spec fn short_aliases(self, fuel: nat) -> Set<usize> {
        self.entries.dom().filter(
            |id: usize|
                fuel > 0 && (self.entries[id].alias_target matches Some(target)
                    && self.ends_within(
                    target,
                    self.entries[id].symbol.namespace,
                    (fuel - 1) as nat,
                )),
        )
    }

    /// Where all of `fuel` aliases are needed, there are at least as many.
    proof fn lemma_short_aliases(self, path: SymbolPath, namespace: Namespace, fuel: nat)
        requires
            self.wf(),
            self.entries.dom().finite(),
            self.ends_within(path, namespace, fuel),
            fuel > 0 ==> !self.ends_within(path, namespace, (fuel - 1) as nat),
        ensures
            fuel <= self.short_aliases(fuel).len(),
        decreases fuel,
    {
        if fuel > 0 {
            let less = (fuel - 1) as nat;
            let id = self.resolve(path, namespace)->0;
            assert(self.contains(id));
            let target = self.entries[id.0].alias_target->0;
            let ns = self.symbol(id).namespace;
            self.lemma_short_aliases(target, ns, less);
            let all = self.short_aliases(fuel);
            let rest = self.short_aliases(less);
            assert(all.contains(id.0));
            assert(!rest.contains(id.0));
            assert forall|n: usize| rest.contains(n) implies #[trigger] all.contains(n) by {
                self.lemma_more_fuel(
                    self.entries[n].alias_target->0,
                    self.entries[n].symbol.namespace,
                    (less - 1) as nat,
                    less,
                );
            }
            assert(rest.insert(id.0).subset_of(all));
            vstd::set_lib::lemma_len_subset(rest.insert(id.0), all);
        }
    }

    /// Where the aliases from a path on come to an end, they are not more than the symbols that are
    /// declared.
    pub proof fn lemma_chain_bound(self, path: SymbolPath, namespace: Namespace, fuel: nat)
        requires
            self.wf(),
            self.entries.dom().finite(),
            self.ends_within(path, namespace, fuel),
        ensures
            self.ends_within(path, namespace, self.entries.len()),
        decreases fuel,
    {
        if fuel > 0 && self.ends_within(path, namespace, (fuel - 1) as nat) {
            self.lemma_chain_bound(path, namespace, (fuel - 1) as nat);
        } else {
            self.lemma_short_aliases(path, namespace, fuel);
            vstd::set_lib::lemma_len_subset(self.short_aliases(fuel), self.entries.dom());
            self.lemma_more_fuel(path, namespace, fuel, self.entries.len());
        }
    }

    /// What a path stands for is a declared symbol, as the table holds it.
    pub proof fn lemma_target_declared(self, path: SymbolPath, namespace: Namespace, fuel: nat)
        requires
            self.wf(),
        ensures
            self.target_within(path, namespace, fuel) matches Some(symbol) ==> self.contains(
                symbol.id,
            ) && self.symbol(symbol.id) == symbol,
        decreases fuel,
    {
        if let Some(id) = self.resolve(path, namespace) {
            assert(self.contains(id));
            self.lemma_package_declared(self.symbol(id));
            if let Some(target) = self.entries[id.0].alias_target {
                if fuel > 0 {
                    let ns = self.symbol(id).namespace;
                    self.lemma_target_declared(target, ns, (fuel - 1) as nat);
                    if let Some(symbol) = self.target_within(target, ns, (fuel - 1) as nat) {
                        self.lemma_package_declared(symbol);
                    }
                }
            }
        }
    }

    proof fn lemma_same_wf(self, other: TableView)
        requires
            self.wf(),
            self.entries == other.entries,
            self.resolutions == other.resolutions,
        ensures
            other.wf(),
    {
        assert forall|id: SymbolId| #[trigger] other.contains(id) implies other.symbol(id).id == id
            && (other.entries[id.0].parent_package matches Some(package) ==> other.contains(
            package,
        )) by {
            assert(self.contains(id));
            if let Some(package) = other.entries[id.0].parent_package {
                assert(self.contains(package));
            }
        }
        assert forall|key: RelationKey| #[trigger]
            other.resolutions.contains_key(key) implies other.contains(
            SymbolId(other.resolutions[key]),
        ) by {
            assert(self.contains(SymbolId(self.resolutions[key])));
        }
    }

    proof fn lemma_package_declared(self, symbol: Symbol)
        requires
            self.wf(),
            self.contains(symbol.id),
            self.symbol(symbol.id) == symbol,
        ensures
            self.contains(self.package_or_self(symbol).id),
            self.symbol(self.package_or_self(symbol).id) == self.package_or_self(symbol),
    {
        if let Some(package) = self.entries[symbol.id.0].parent_package {
            assert(self.contains(package));
        }
    }
}

impl View for SymbolTable {
    type V = TableView;

    closed spec fn view(&self) -> TableView {
        TableView {
            entries: self.entries@,
            resolutions: self.resolutions@,
            imported: self.imported@,
            applied: self.applied@,
            paths: self.paths@,
        }
    }
}

impl SymbolTable {
    /// A table in which nothing is declared.
    pub fn new() -> (table: SymbolTable)
        ensures
            table@.wf(),
            table@.entries == (Map::<usize, SymbolEntry>::empty()),
            table@.resolutions == (Map::<RelationKey, usize>::empty()),
            table@.imported == (Map::<RelationKey, usize>::empty()),
            table@.applied == (Map::<RelationKey, usize>::empty()),
            table@.paths == (Map::<usize, Vec<GenericSymbol>>::empty()),
    {
        SymbolTable {
            entries: HashMap::new(),
            resolutions: Relation::new(),
            imported: Relation::new(),
            applied: Relation::new(),
            paths: HashMap::new(),
        }
    }

    /// Declares a symbol.
    pub fn declare(&mut self, entry: SymbolEntry)
        requires
            old(self)@.wf(),
            entry.parent_package matches Some(package) ==> old(self)@.contains(package) || package
                == entry.symbol.id,
        ensures
            final(self)@.wf(),
            final(self)@ == (TableView {
                entries: old(self)@.entries.insert(entry.symbol.id.0, entry),
                ..old(self)@
            }),
    {
        self.entries.insert(entry.symbol.id.0, entry);
        assert(self@.wf()) by {
            assert forall|id: SymbolId| #[trigger] self@.contains(id) implies self@.symbol(id).id
                == id && (self@.entries[id.0].parent_package matches Some(package)
                ==> self@.contains(package)) by {
                if id != entry.symbol.id {
                    assert(old(self)@.contains(id));
                }
            }
            assert forall|key: RelationKey| #[trigger]
                self@.resolutions.contains_key(key) implies self@.contains(
                SymbolId(self@.resolutions[key]),
            ) by {
                assert(old(self)@.contains(SymbolId(self@.resolutions[key])));
            }
        }
    }

    /// Records that `path` refers to the symbol `id` in `namespace`.
    pub fn record_resolution(&mut self, path: SymbolPath, namespace: Namespace, id: SymbolId)
        requires
            old(self)@.wf(),
            old(self)@.contains(id),
        ensures
            final(self)@.wf(),
            final(self)@ == (TableView {
                resolutions: old(self)@.resolutions.insert((path.0, namespace.0, None), id.0),
                ..old(self)@
            }),
    {
        self.resolutions.record((path.0, namespace.0, None), id.0);
        assert(self@.wf()) by {
            assert forall|i: SymbolId| #[trigger] self@.contains(i) implies self@.symbol(i).id == i
                && (self@.entries[i.0].parent_package matches Some(package) ==> self@.contains(
                package,
            )) by {
                assert(old(self)@.contains(i));
                if let Some(package) = self@.entries[i.0].parent_package {
                    assert(old(self)@.contains(package));
                }
            }
            assert forall|key: RelationKey| #[trigger]
                self@.resolutions.contains_key(key) implies self@.contains(
                SymbolId(self@.resolutions[key]),
            ) by {
                if key != (path.0, namespace.0, None::<usize>) {
                    assert(old(self)@.resolutions.contains_key(key));
                    assert(old(self)@.contains(SymbolId(self@.resolutions[key])));
                } else {
                    assert(old(self)@.contains(id));
                }
            }
        }
    }

    /// Records what `path` becomes in `namespace`, under the assignment `map`, when its imports are
    /// resolved.
    pub fn record_imported(
        &mut self,
        path: GenericSymbolPath,
        namespace: Namespace,
        map: Option<GenericMap>,
        imported: GenericSymbolPath,
    )
        requires
            old(self)@.wf(),
        ensures
            final(self)@.wf(),
            final(self)@ == (TableView {
                imported: old(self)@.imported.insert(
                    (path.0, namespace.0, map_number(map)),
                    imported.0,
                ),
                ..old(self)@
            }),
    {
        let number: Option<usize> = match map {
            Some(map) => Some(map.0),
            None => None,
        };
        self.imported.record((path.0, namespace.0, number), imported.0);
        proof {
            old(self)@.lemma_same_wf(self@);
        }
    }

    /// Records what `path` becomes when the assignment `map` is applied to it.
    pub fn record_applied(
        &mut self,
        path: GenericSymbolPath,
        map: GenericMap,
        applied: GenericSymbolPath,
    )
        requires
            old(self)@.wf(),
        ensures
            final(self)@.wf(),
            final(self)@ == (TableView {
                applied: old(self)@.applied.insert((path.0, map.0, None), applied.0),
                ..old(self)@
            }),
    {
        self.applied.record((path.0, map.0, None), applied.0);
        proof {
            old(self)@.lemma_same_wf(self@);
        }
    }

    /// Records the elements of `path`.
    pub fn record_path(&mut self, path: GenericSymbolPath, elements: Vec<GenericSymbol>)
        requires
            old(self)@.wf(),
        ensures
            final(self)@.wf(),
            final(self)@ == (TableView {
                paths: old(self)@.paths.insert(path.0, elements),
                ..old(self)@
            }),
    {
        self.paths.insert(path.0, elements);
        proof {
            old(self)@.lemma_same_wf(self@);
        }
    }

    /// The symbol with this number, if it is declared.
    pub fn get(&self, id: SymbolId) -> (symbol: Option<&Symbol>)
        ensures
            symbol is Some <==> self@.contains(id),
            symbol matches Some(symbol) ==> *symbol == self@.symbol(id),
    {
        match self.entries.get(&id.0) {
            Some(entry) => Some(&entry.symbol),
            None => None,
        }
    }

    /// The symbol that `path` refers to in `namespace`, if it refers to one.
    pub fn resolve(&self, path: SymbolPath, namespace: Namespace) -> (found: Option<&Symbol>)
        requires
            self@.wf(),
        ensures
            found is Some <==> self@.resolve(path, namespace) is Some,
            found matches Some(symbol) ==> *symbol == self@.symbol(
                self@.resolve(path, namespace)->0,
            ),
    {
        match self.resolutions.get((path.0, namespace.0, None)) {
            Some(id) => {
                assert(self@.resolutions.contains_key((path.0, namespace.0, None)));
                assert(self@.contains(SymbolId(id)));
                self.get(SymbolId(id))
            },
            None => None,
        }
    }

    /// The package in which a symbol is declared, if it is declared in one.
    pub fn parent_package(&self, id: SymbolId) -> (package: Option<&Symbol>)
        requires
            self@.wf(),
            self@.contains(id),
        ensures
            package is Some <==> self@.parent_package(id) is Some,
            package matches Some(symbol) ==> *symbol == self@.parent_package(id)->0
                && self@.contains(symbol.id) && self@.symbol(symbol.id) == *symbol,
    {
        match self.entries.get(&id.0) {
            Some(entry) => match entry.parent_package {
                Some(package) => {
                    assert(self@.contains(package));
                    self.get(package)
                },
                None => None,
            },
            None => None,
        }
    }

    /// The path that a symbol is another name for, if it is an alias.
    pub fn alias_target(&self, id: SymbolId) -> (target: Option<SymbolPath>)
        requires
            self@.contains(id),
        ensures
            target == self@.entries[id.0].alias_target,
    {
        match self.entries.get(&id.0) {
            Some(entry) => entry.alias_target,
            None => None,
        }
    }

    /// Whether the aliases from `path` on come to an end.
    pub fn chain_ends(&self, path: SymbolPath, namespace: Namespace) -> (ends: bool)
        requires
            self@.wf(),
        ensures
            ends == self@.chain_ends(path, namespace),
    {
        let mut next: SymbolPath = path;
        let mut next_namespace: Namespace = namespace;
        let mut left: usize = self.entries.len();
        proof {
            if self@.chain_ends(path, namespace) {
                let fuel = choose|fuel: nat| #[trigger] self@.ends_within(path, namespace, fuel);
                self@.lemma_chain_bound(path, namespace, fuel);
            }
        }
        loop
            invariant
                self@.wf(),
                self@.chain_ends(path, namespace) <==> self@.ends_within(
                    next,
                    next_namespace,
                    left as nat,
                ),
            decreases left,
        {
            let found: &Symbol = match self.resolve(next, next_namespace) {
                Some(found) => found,
                None => {
                    return true;
                },
            };
            assert(self@.contains(self@.resolve(next, next_namespace)->0));
            match self.alias_target(found.id) {
                Some(target) => {
                    if left == 0 {
                        return false;
                    }
                    left = left - 1;
                    next = target;
                    next_namespace = found.namespace;
                },
                None => {
                    return true;
                },
            }
        }
    }

    /// The assignments of its generic parameters with which a symbol is used.
    pub fn generic_maps(&self, id: SymbolId) -> (maps: &Vec<GenericMap>)
        requires
            self@.contains(id),
        ensures
            *maps == self@.entries[id.0].generic_maps,
    {
        &self.entries.get(&id.0).unwrap().generic_maps
    }

    /// The path with its imports resolved.
    pub fn resolve_imported(
        &self,
        path: GenericSymbolPath,
        namespace: Namespace,
        map: Option<GenericMap>,
    ) -> (imported: GenericSymbolPath)
        ensures
            imported == self@.resolve_imported(path, namespace, map),
    {
        let number: Option<usize> = match map {
            Some(map) => Some(map.0),
            None => None,
        };
        match self.imported.get((path.0, namespace.0, number)) {
            Some(imported) => GenericSymbolPath(imported),
            None => path,
        }
    }

    /// The path with the generic parameters in it replaced.
    pub fn apply_map(&self, path: GenericSymbolPath, map: GenericMap) -> (applied: GenericSymbolPath)
        ensures
            applied == self@.apply_map(path, map),
    {
        match self.applied.get((path.0, map.0, None)) {
            Some(applied) => GenericSymbolPath(applied),
            None => path,
        }
    }

    /// The elements of a path, if any were recorded.
    pub fn elements(&self, path: GenericSymbolPath) -> (elements: Option<&Vec<GenericSymbol>>)
        ensures
            elements is None ==> self@.elements(path).len() == 0,
            elements matches Some(list) ==> list@ == self@.elements(path),
    {
        self.paths.get(&path.0)
    }
}

} // verus!
