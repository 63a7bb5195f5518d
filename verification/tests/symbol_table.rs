use veryl_analysis::symbol::{
    GenericMap, GenericSymbol, GenericSymbolPath, Namespace, Symbol, SymbolId, SymbolKind,
    SymbolPath, Token, TokenSource,
};
use veryl_analysis::symbol_table::{SymbolEntry, SymbolTable};
use veryl_analysis::text_order::{is_text_less, text_len};

fn entry(id: usize, kind: SymbolKind) -> SymbolEntry {
    SymbolEntry {
        symbol: Symbol {
            id: SymbolId(id),
            token: Token {
                text: format!("s{}", id),
                line: 0,
                column: 0,
                source: TokenSource::Builtin,
            },
            kind,
            kind_text: "".to_string(),
            namespace: Namespace(3),
        },
        parent_package: None,
        alias_target: None,
        generic_maps: vec![],
    }
}

#[test]
fn a_declared_symbol_is_found() {
    let mut table = SymbolTable::new();
    assert!(table.get(SymbolId(1)).is_none());
    let mut member = entry(2, SymbolKind::Struct);
    table.declare(entry(1, SymbolKind::Package));
    member.parent_package = Some(SymbolId(1));
    member.alias_target = Some(SymbolPath(8));
    member.generic_maps = vec![GenericMap(4), GenericMap(5)];
    table.declare(member);
    assert_eq!(table.get(SymbolId(2)).unwrap().token.text, "s2");
    assert_eq!(table.parent_package(SymbolId(2)).unwrap().id, SymbolId(1));
    assert!(table.parent_package(SymbolId(1)).is_none());
    assert_eq!(table.alias_target(SymbolId(2)), Some(SymbolPath(8)));
    assert_eq!(*table.generic_maps(SymbolId(2)), [GenericMap(4), GenericMap(5)]);
}

#[test]
fn a_path_is_resolved_by_its_namespace() {
    let mut table = SymbolTable::new();
    table.declare(entry(1, SymbolKind::Struct));
    table.declare(entry(2, SymbolKind::Struct));
    table.record_resolution(SymbolPath(5), Namespace(0), SymbolId(1));
    table.record_resolution(SymbolPath(5), Namespace(1), SymbolId(2));
    assert_eq!(table.resolve(SymbolPath(5), Namespace(0)).unwrap().id, SymbolId(1));
    assert_eq!(table.resolve(SymbolPath(5), Namespace(1)).unwrap().id, SymbolId(2));
    assert!(table.resolve(SymbolPath(5), Namespace(2)).is_none());
    table.record_resolution(SymbolPath(5), Namespace(0), SymbolId(2));
    assert_eq!(table.resolve(SymbolPath(5), Namespace(0)).unwrap().id, SymbolId(2));
}

#[test]
fn a_path_without_a_record_stays_as_it_is() {
    let mut table = SymbolTable::new();
    let path = GenericSymbolPath(7);
    table.record_imported(path, Namespace(0), None, GenericSymbolPath(8));
    table.record_imported(path, Namespace(0), Some(GenericMap(1)), GenericSymbolPath(9));
    table.record_applied(path, GenericMap(1), GenericSymbolPath(10));
    assert_eq!(table.resolve_imported(path, Namespace(0), None), GenericSymbolPath(8));
    assert_eq!(
        table.resolve_imported(path, Namespace(0), Some(GenericMap(1))),
        GenericSymbolPath(9)
    );
    assert_eq!(table.resolve_imported(path, Namespace(0), Some(GenericMap(2))), path);
    assert_eq!(table.resolve_imported(path, Namespace(1), None), path);
    assert_eq!(table.apply_map(path, GenericMap(1)), GenericSymbolPath(10));
    assert_eq!(table.apply_map(path, GenericMap(2)), path);
    assert!(table.elements(path).is_none());
    let list = vec![GenericSymbol { base_path: SymbolPath(1), arguments: vec![SymbolPath(2)] }];
    table.record_path(path, list.clone());
    assert_eq!(*table.elements(path).unwrap(), list);
}

#[test]
fn a_chain_of_aliases_may_be_long_but_must_end() {
    let mut table = SymbolTable::new();
    for id in 0..20 {
        let mut alias = entry(id, SymbolKind::AliasModule);
        if id < 19 {
            alias.alias_target = Some(SymbolPath(id + 1));
        }
        table.declare(alias);
        table.record_resolution(SymbolPath(id), Namespace(3), SymbolId(id));
    }
    assert!(table.chain_ends(SymbolPath(0), Namespace(3)));
    assert!(table.chain_ends(SymbolPath(50), Namespace(3)));
    let mut last = entry(19, SymbolKind::AliasModule);
    last.alias_target = Some(SymbolPath(10));
    table.declare(last);
    assert!(!table.chain_ends(SymbolPath(0), Namespace(3)));
    // The first path is resolved in its own namespace, those behind an alias in that of the alias.
    assert!(table.chain_ends(SymbolPath(0), Namespace(4)));
}

#[test]
fn texts_are_ordered_by_their_bytes() {
    assert!(is_text_less("", "a"));
    assert!(is_text_less("a", "ab"));
    assert!(is_text_less("Z", "a"));
    assert!(is_text_less("z", "é"));
    assert!(!is_text_less("a", "a"));
    assert!(!is_text_less("ab", "a"));
    assert_eq!(text_len("aé"), 3);
}
