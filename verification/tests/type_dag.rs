use veryl_analysis::analyzer_error::AnalyzerError;
use veryl_analysis::symbol::{
    GenericMap, GenericSymbol, GenericSymbolPath, GenericSymbolPathNamespace, Namespace,
    ParameterKind, Symbol, SymbolId, SymbolKind, SymbolPath, Token, TokenSource,
};
use veryl_analysis::symbol_table::{SymbolEntry, SymbolTable};
use veryl_analysis::type_dag;
use veryl_analysis::type_dag::{Context, DagError, TypeDag, TypeDagCandidate};

/// All paths are resolved in this namespace.
const TOP: Namespace = Namespace(0);

/// The only assignment of a symbol without generic parameters.
const PLAIN: GenericMap = GenericMap(0);

fn token(text: &str) -> Token {
    Token { text: text.to_string(), line: 1, column: 2, source: TokenSource::Builtin }
}

fn symbol(id: usize, name: &str, kind: SymbolKind, kind_text: &str) -> Symbol {
    Symbol {
        id: SymbolId(id),
        token: token(name),
        kind,
        kind_text: kind_text.to_string(),
        namespace: TOP,
    }
}

fn entry(symbol: Symbol) -> SymbolEntry {
    SymbolEntry { symbol, parent_package: None, alias_target: None, generic_maps: vec![PLAIN] }
}

/// Declares a symbol that the path with its number refers to, alone and as a generic path.
fn declare(table: &mut SymbolTable, entry: SymbolEntry) {
    let id = entry.symbol.id;
    table.declare(entry);
    table.record_resolution(SymbolPath(id.0), TOP, id);
    table.record_path(GenericSymbolPath(id.0), vec![element(id.0, &[])]);
}

fn element(base: usize, arguments: &[usize]) -> GenericSymbol {
    GenericSymbol {
        base_path: SymbolPath(base),
        arguments: arguments.iter().map(|x| SymbolPath(*x)).collect(),
    }
}

fn declared(id: usize, context: Context) -> TypeDagCandidate {
    TypeDagCandidate::Symbol { id: SymbolId(id), context, parent: None, import: vec![] }
}

fn used(path: usize, parent: usize, context: Context) -> TypeDagCandidate {
    TypeDagCandidate::Path {
        path: GenericSymbolPath(path),
        namespace: TOP,
        parent: Some((SymbolId(parent), context)),
    }
}

fn apply_all(
    dag: &mut TypeDag,
    table: &SymbolTable,
    candidates: Vec<TypeDagCandidate>,
) -> Vec<AnalyzerError> {
    for candidate in candidates {
        type_dag::add(dag, candidate);
    }
    assert!(dag.can_apply(table));
    type_dag::apply(dag, table)
}

fn names(symbols: &[Symbol]) -> Vec<String> {
    symbols.iter().map(|x| x.token.text.clone()).collect()
}

/// What a symbol depends on, by names in the order of the alphabet, with the symbol itself first.
fn component(dag: &TypeDag, name: &str) -> Vec<String> {
    let mut found = vec![];
    for component in type_dag::connected_components(dag) {
        if component[0].token.text == name {
            found = names(&component);
        }
    }
    if !found.is_empty() {
        found[1..].sort();
    }
    found
}

fn place(dag: &TypeDag, name: &str) -> usize {
    names(&type_dag::toposort(dag)).iter().position(|x| x == name).unwrap()
}

fn cyclic(start: &str, end: &str) -> AnalyzerError {
    AnalyzerError::CyclicTypeDependency {
        start: start.to_string(),
        end: end.to_string(),
        token: token(end),
    }
}

/// Three structs: `alpha` is 1, `beta` is 2, and `gamma` is 3.
fn structs() -> SymbolTable {
    let mut table = SymbolTable::new();
    declare(&mut table, entry(symbol(1, "alpha", SymbolKind::Struct, "struct")));
    declare(&mut table, entry(symbol(2, "beta", SymbolKind::Struct, "struct")));
    declare(&mut table, entry(symbol(3, "gamma", SymbolKind::Struct, "struct")));
    table
}

#[test]
fn new_graph_has_no_symbols() {
    let dag = TypeDag::new();
    assert!(type_dag::toposort(&dag).is_empty());
    assert!(type_dag::connected_components(&dag).is_empty());
    assert_eq!(type_dag::dump(&dag), "");
}

#[test]
fn a_symbol_comes_after_what_it_depends_on() {
    let table = structs();
    let mut dag = TypeDag::new();
    let errors = apply_all(
        &mut dag,
        &table,
        vec![
            declared(1, Context::Struct),
            declared(2, Context::Struct),
            declared(3, Context::Struct),
            used(2, 1, Context::Struct),
            used(3, 2, Context::Struct),
        ],
    );
    assert!(errors.is_empty());
    assert_eq!(names(&type_dag::toposort(&dag)), ["gamma", "beta", "alpha"]);
    assert_eq!(type_dag::toposort(&dag)[0], symbol(3, "gamma", SymbolKind::Struct, "struct"));
}

#[test]
fn a_component_holds_what_a_symbol_depends_on() {
    let table = structs();
    let mut dag = TypeDag::new();
    apply_all(
        &mut dag,
        &table,
        vec![used(2, 1, Context::Struct), used(3, 2, Context::Struct)],
    );
    assert_eq!(type_dag::connected_components(&dag).len(), 3);
    assert_eq!(component(&dag, "alpha"), ["alpha", "beta", "gamma"]);
    assert_eq!(component(&dag, "beta"), ["beta", "gamma"]);
    assert_eq!(component(&dag, "gamma"), ["gamma"]);
}

#[test]
fn a_component_holds_no_symbol_twice() {
    let table = structs();
    let mut dag = TypeDag::new();
    apply_all(
        &mut dag,
        &table,
        vec![
            used(2, 1, Context::Struct),
            used(3, 1, Context::Struct),
            used(3, 2, Context::Struct),
        ],
    );
    assert_eq!(component(&dag, "alpha"), ["alpha", "beta", "gamma"]);
}

#[test]
fn dump_shows_each_symbol_with_what_it_depends_on() {
    let table = structs();
    let mut dag = TypeDag::new();
    apply_all(
        &mut dag,
        &table,
        vec![used(2, 1, Context::Struct), used(3, 1, Context::Struct)],
    );
    let expected = "\
alpha     : struct
 |- gamma : struct
 |- beta  : struct
beta      : struct
gamma     : struct
";
    assert_eq!(type_dag::dump(&dag), expected);
}

#[test]
fn dump_shows_a_dependency_once() {
    let table = structs();
    let mut dag = TypeDag::new();
    apply_all(
        &mut dag,
        &table,
        vec![used(2, 1, Context::Struct), used(2, 1, Context::Struct)],
    );
    let expected = "\
alpha    : struct
 |- beta : struct
beta     : struct
";
    assert_eq!(type_dag::dump(&dag), expected);
}

#[test]
fn dump_counts_bytes_and_sorts_by_them() {
    let mut table = SymbolTable::new();
    declare(&mut table, entry(symbol(1, "b", SymbolKind::Module, "module")));
    declare(&mut table, entry(symbol(2, "é", SymbolKind::Package, "package")));
    declare(&mut table, entry(symbol(3, "Z", SymbolKind::Enum, "enum")));
    let mut dag = TypeDag::new();
    apply_all(
        &mut dag,
        &table,
        vec![
            declared(1, Context::Module),
            declared(2, Context::Package),
            declared(3, Context::Enum),
        ],
    );
    assert_eq!(type_dag::dump(&dag), "Z  : enum\nb  : module\né : package\n");
}

#[test]
fn a_cycle_is_reported_and_left_out() {
    let table = structs();
    let mut dag = TypeDag::new();
    let errors = apply_all(
        &mut dag,
        &table,
        vec![
            used(2, 1, Context::Struct),
            used(3, 2, Context::Struct),
            used(1, 3, Context::Struct),
        ],
    );
    assert_eq!(errors, [cyclic("alpha", "gamma")]);
    assert_eq!(names(&type_dag::toposort(&dag)), ["gamma", "beta", "alpha"]);
    assert_eq!(component(&dag, "gamma"), ["gamma"]);
}

#[test]
fn errors_are_reported_once() {
    let table = structs();
    let mut dag = TypeDag::new();
    let errors = apply_all(
        &mut dag,
        &table,
        vec![used(2, 1, Context::Struct), used(1, 2, Context::Struct)],
    );
    assert_eq!(errors.len(), 1);
    assert!(type_dag::apply(&mut dag, &table).is_empty());
}

#[test]
fn a_module_an_interface_and_a_function_may_use_themselves() {
    for context in [Context::Module, Context::Interface, Context::Function] {
        let table = structs();
        let mut dag = TypeDag::new();
        assert!(apply_all(&mut dag, &table, vec![used(1, 1, context)]).is_empty());
        assert_eq!(component(&dag, "alpha"), ["alpha"]);
    }
    for context in [Context::Struct, Context::Package, Context::GenericInstance] {
        let table = structs();
        let mut dag = TypeDag::new();
        let errors = apply_all(&mut dag, &table, vec![used(1, 1, context)]);
        assert_eq!(errors, [cyclic("alpha", "alpha")]);
    }
}

#[test]
fn a_module_may_not_use_itself_over_another() {
    let table = structs();
    let mut dag = TypeDag::new();
    let errors = apply_all(
        &mut dag,
        &table,
        vec![used(2, 1, Context::Module), used(1, 2, Context::Module)],
    );
    assert_eq!(errors, [cyclic("alpha", "beta")]);
}

fn declared_in(id: usize, parent: usize) -> TypeDagCandidate {
    let mut candidate = declared(id, Context::Struct);
    candidate.set_parent((SymbolId(parent), Context::Module));
    candidate
}

#[test]
fn a_symbol_does_not_depend_on_what_is_declared_in_it() {
    let table = structs();
    let mut dag = TypeDag::new();
    // The use is added first, and applied after the declaration all the same.
    let errors = apply_all(
        &mut dag,
        &table,
        vec![used(2, 1, Context::Module), declared_in(2, 1)],
    );
    assert!(errors.is_empty());
    assert_eq!(component(&dag, "alpha"), ["alpha"]);
    assert_eq!(component(&dag, "beta"), ["beta", "alpha"]);
}

#[test]
fn a_dependency_on_what_turns_out_to_be_owned_is_taken_out() {
    let table = structs();
    let mut dag = TypeDag::new();
    apply_all(
        &mut dag,
        &table,
        vec![used(2, 1, Context::Module), used(2, 1, Context::Module)],
    );
    assert_eq!(component(&dag, "alpha"), ["alpha", "beta"]);
    let errors = apply_all(&mut dag, &table, vec![declared_in(2, 1)]);
    assert!(errors.is_empty());
    assert_eq!(component(&dag, "alpha"), ["alpha"]);
    assert_eq!(component(&dag, "beta"), ["beta", "alpha"]);
}

#[test]
fn set_parent_replaces_the_parent_of_a_path() {
    let table = structs();
    let mut dag = TypeDag::new();
    let mut candidate = used(3, 1, Context::Struct);
    candidate.set_parent((SymbolId(2), Context::Union));
    apply_all(&mut dag, &table, vec![candidate]);
    assert_eq!(component(&dag, "beta"), ["beta", "gamma"]);
    assert_eq!(component(&dag, "alpha"), Vec::<String>::new());
}

#[test]
fn a_path_that_stands_in_no_symbol_only_makes_nodes() {
    let table = structs();
    let mut dag = TypeDag::new();
    let candidate = TypeDagCandidate::Path {
        path: GenericSymbolPath(2),
        namespace: TOP,
        parent: None,
    };
    assert!(apply_all(&mut dag, &table, vec![candidate]).is_empty());
    assert_eq!(names(&type_dag::toposort(&dag)), ["beta"]);
}

#[test]
fn imports_are_dependencies() {
    let table = structs();
    let mut dag = TypeDag::new();
    let candidate = TypeDagCandidate::Symbol {
        id: SymbolId(1),
        context: Context::Module,
        parent: None,
        import: vec![
            GenericSymbolPathNamespace(SymbolPath(2), TOP),
            GenericSymbolPathNamespace(SymbolPath(99), TOP),
            GenericSymbolPathNamespace(SymbolPath(3), TOP),
        ],
    };
    assert!(apply_all(&mut dag, &table, vec![candidate]).is_empty());
    assert_eq!(component(&dag, "alpha"), ["alpha", "beta", "gamma"]);
}

#[test]
fn generic_arguments_are_dependencies_of_what_takes_them() {
    let mut table = structs();
    table.record_path(GenericSymbolPath(50), vec![element(2, &[3, 99])]);
    let mut dag = TypeDag::new();
    assert!(apply_all(&mut dag, &table, vec![used(50, 1, Context::Struct)]).is_empty());
    assert_eq!(component(&dag, "beta"), ["beta", "gamma"]);
    assert_eq!(component(&dag, "alpha"), ["alpha", "beta", "gamma"]);
    let expected = "\
alpha     : struct
 |- beta  : struct
beta      : struct
 |- gamma : struct
gamma     : struct
";
    assert_eq!(type_dag::dump(&dag), expected);
}

#[test]
fn every_element_of_a_path_is_used() {
    let mut table = structs();
    table.record_path(GenericSymbolPath(50), vec![element(99, &[]), element(2, &[]), element(3, &[])]);
    let mut dag = TypeDag::new();
    apply_all(&mut dag, &table, vec![used(50, 1, Context::Struct)]);
    assert_eq!(component(&dag, "alpha"), ["alpha", "beta", "gamma"]);
    assert_eq!(component(&dag, "beta"), ["beta"]);
}

#[test]
fn imports_are_resolved_before_an_assignment_is_applied() {
    let mut table = structs();
    let mut generic = entry(symbol(4, "delta", SymbolKind::Module, "module"));
    generic.generic_maps = vec![GenericMap(7), GenericMap(8)];
    declare(&mut table, generic);
    let path = GenericSymbolPath(60);
    table.record_imported(path, TOP, Some(GenericMap(7)), GenericSymbolPath(61));
    table.record_applied(GenericSymbolPath(61), GenericMap(7), GenericSymbolPath(2));
    table.record_applied(path, GenericMap(7), GenericSymbolPath(1));
    table.record_applied(path, GenericMap(8), GenericSymbolPath(3));
    let mut dag = TypeDag::new();
    assert!(apply_all(&mut dag, &table, vec![used(60, 4, Context::Module)]).is_empty());
    assert_eq!(component(&dag, "delta"), ["delta", "beta", "gamma"]);
}

#[test]
fn a_symbol_used_with_no_assignment_uses_nothing() {
    let mut table = structs();
    let mut unused = entry(symbol(4, "delta", SymbolKind::Module, "module"));
    unused.generic_maps = vec![];
    declare(&mut table, unused);
    let mut dag = TypeDag::new();
    assert!(apply_all(&mut dag, &table, vec![used(1, 4, Context::Module)]).is_empty());
    assert!(type_dag::toposort(&dag).is_empty());
}

#[test]
fn an_alias_is_replaced_by_what_it_stands_for() {
    let mut table = structs();
    let mut alias = entry(symbol(4, "delta", SymbolKind::AliasModule, "alias module"));
    alias.alias_target = Some(SymbolPath(5));
    declare(&mut table, alias);
    let mut second = entry(symbol(5, "epsilon", SymbolKind::AliasModule, "alias module"));
    second.alias_target = Some(SymbolPath(2));
    declare(&mut table, second);
    let found = TypeDag::resolve_symbol_path(&table, SymbolPath(4), TOP);
    assert_eq!(found.unwrap().id, SymbolId(2));
    let mut dag = TypeDag::new();
    apply_all(&mut dag, &table, vec![used(4, 1, Context::Struct)]);
    assert_eq!(component(&dag, "alpha"), ["alpha", "beta"]);
    assert_eq!(type_dag::toposort(&dag).len(), 2);
}

#[test]
fn an_alias_of_nothing_stands_for_nothing() {
    let mut table = structs();
    let mut alias = entry(symbol(4, "delta", SymbolKind::AliasModule, "alias module"));
    alias.alias_target = Some(SymbolPath(99));
    declare(&mut table, alias);
    assert!(TypeDag::resolve_symbol_path(&table, SymbolPath(4), TOP).is_none());
}

/// A package `pack`, 10, with a function `run`, 11, in it.
fn with_package(table: &mut SymbolTable) {
    declare(table, entry(symbol(10, "pack", SymbolKind::Package, "package")));
    let mut run = entry(symbol(11, "run", SymbolKind::Function, "function"));
    run.parent_package = Some(SymbolId(10));
    declare(table, run);
}

#[test]
fn what_is_in_a_package_is_used_by_its_package() {
    let mut table = structs();
    with_package(&mut table);
    let found = TypeDag::resolve_symbol_path(&table, SymbolPath(11), TOP);
    assert_eq!(found.unwrap().id, SymbolId(10));
    let mut dag = TypeDag::new();
    let errors = apply_all(
        &mut dag,
        &table,
        vec![used(11, 1, Context::Struct), used(2, 11, Context::Function)],
    );
    assert!(errors.is_empty());
    assert_eq!(component(&dag, "alpha"), ["alpha", "beta", "pack"]);
    assert_eq!(component(&dag, "pack"), ["pack", "beta"]);
    assert_eq!(type_dag::toposort(&dag).len(), 3);
}

#[test]
fn a_use_of_its_own_package_is_a_use_by_the_symbol() {
    let mut table = structs();
    with_package(&mut table);
    let mut dag = TypeDag::new();
    let errors = apply_all(&mut dag, &table, vec![used(10, 11, Context::Function)]);
    assert!(errors.is_empty());
    assert_eq!(component(&dag, "run"), ["run", "pack"]);
}

#[test]
fn only_some_kinds_have_a_node() {
    let kinds = [
        (SymbolKind::Module, true),
        (SymbolKind::AliasModule, true),
        (SymbolKind::Interface, true),
        (SymbolKind::AliasInterface, true),
        (SymbolKind::Modport, true),
        (SymbolKind::Package, true),
        (SymbolKind::AliasPackage, true),
        (SymbolKind::Enum, true),
        (SymbolKind::TypeDef, true),
        (SymbolKind::Struct, true),
        (SymbolKind::Union, true),
        (SymbolKind::Function, true),
        (SymbolKind::Parameter { kind: ParameterKind::Const }, true),
        (SymbolKind::Parameter { kind: ParameterKind::Param }, false),
        (SymbolKind::Other, false),
    ];
    for (kind, has_node) in kinds {
        let mut table = SymbolTable::new();
        declare(&mut table, entry(symbol(1, "alpha", kind, "")));
        let mut dag = TypeDag::new();
        assert!(apply_all(&mut dag, &table, vec![declared(1, Context::Const)]).is_empty());
        assert_eq!(type_dag::toposort(&dag).len() == 1, has_node);
        assert_eq!(kind.is_dag_symbol(), has_node);
    }
}

#[test]
fn a_declaration_of_an_unknown_symbol_is_passed_over() {
    let table = structs();
    let mut dag = TypeDag::new();
    let mut candidate = declared(77, Context::Struct);
    candidate.set_parent((SymbolId(78), Context::Module));
    assert!(apply_all(&mut dag, &table, vec![candidate]).is_empty());
    assert!(type_dag::toposort(&dag).is_empty());
}

#[test]
fn a_candidate_in_an_unknown_symbol_cannot_be_applied() {
    let table = structs();
    let mut dag = TypeDag::new();
    type_dag::add(&mut dag, used(1, 78, Context::Struct));
    assert!(!dag.can_apply(&table));
    let mut dag = TypeDag::new();
    type_dag::add(&mut dag, declared_in(1, 78));
    assert!(!dag.can_apply(&table));
}

#[test]
fn a_path_over_an_endless_alias_cannot_be_applied() {
    let mut table = structs();
    let mut first = entry(symbol(4, "delta", SymbolKind::AliasModule, "alias module"));
    first.alias_target = Some(SymbolPath(5));
    declare(&mut table, first);
    let mut second = entry(symbol(5, "epsilon", SymbolKind::AliasModule, "alias module"));
    second.alias_target = Some(SymbolPath(4));
    declare(&mut table, second);
    assert!(!table.chain_ends(SymbolPath(4), TOP));
    assert!(table.chain_ends(SymbolPath(1), TOP));
    let mut dag = TypeDag::new();
    type_dag::add(&mut dag, used(4, 1, Context::Struct));
    assert!(!dag.can_apply(&table));
    // An endless alias that nothing uses does no harm.
    let mut dag = TypeDag::new();
    type_dag::add(&mut dag, used(2, 1, Context::Struct));
    assert!(dag.can_apply(&table));
    // A generic argument is looked up only where something takes it.
    table.record_path(GenericSymbolPath(50), vec![element(2, &[4])]);
    table.record_path(GenericSymbolPath(51), vec![element(99, &[4])]);
    let mut dag = TypeDag::new();
    type_dag::add(&mut dag, used(50, 1, Context::Struct));
    assert!(!dag.can_apply(&table));
    let mut dag = TypeDag::new();
    type_dag::add(&mut dag, used(51, 1, Context::Struct));
    assert!(dag.can_apply(&table));
}

#[test]
fn clear_takes_everything_out() {
    let table = structs();
    let mut dag = TypeDag::new();
    apply_all(&mut dag, &table, vec![used(2, 1, Context::Struct)]);
    type_dag::add(&mut dag, used(3, 1, Context::Struct));
    type_dag::clear(&mut dag);
    assert!(type_dag::apply(&mut dag, &table).is_empty());
    assert!(type_dag::toposort(&dag).is_empty());
    assert_eq!(type_dag::dump(&dag), "");
    // The other direction is no cycle any more.
    assert!(apply_all(&mut dag, &table, vec![used(1, 2, Context::Struct)]).is_empty());
    assert_eq!(names(&type_dag::toposort(&dag)), ["alpha", "beta"]);
}

#[test]
fn a_symbol_gets_one_node() {
    let table = structs();
    let mut dag = TypeDag::new();
    let beta = symbol(2, "beta", SymbolKind::Struct, "struct");
    let gamma = symbol(3, "gamma", SymbolKind::Struct, "struct");
    assert_eq!(dag.insert_symbol(&table, &beta), Some(1));
    assert_eq!(dag.insert_symbol(&table, &gamma), Some(2));
    assert_eq!(dag.insert_symbol(&table, &beta), Some(1));
    assert_eq!(dag.insert_node(&table, SymbolId(2), &"other".to_string()), Ok(1));
    assert_eq!(dag.get_symbol(1), beta);
    assert_eq!(type_dag::toposort(&dag).len(), 2);
    assert_eq!(type_dag::dump(&dag), "beta  : struct\ngamma : struct\n");
}

#[test]
fn parallel_edges_are_taken_out_together() {
    let table = structs();
    let mut dag = TypeDag::new();
    let alpha = symbol(1, "alpha", SymbolKind::Struct, "struct");
    let beta = symbol(2, "beta", SymbolKind::Struct, "struct");
    let a = dag.insert_symbol(&table, &alpha).unwrap();
    let b = dag.insert_symbol(&table, &beta).unwrap();
    assert_eq!(dag.insert_edge(a, b, Context::Struct), Ok(()));
    assert_eq!(dag.insert_edge(a, b, Context::Union), Ok(()));
    assert!(dag.exist_edge(a, b));
    assert!(!dag.exist_edge(b, a));
    assert_eq!(
        dag.insert_edge(b, a, Context::Module),
        Err(DagError::Cyclic(beta.clone(), alpha.clone()))
    );
    dag.remove_edge(a, b);
    assert!(!dag.exist_edge(a, b));
    assert!(dag.exist_edge(0, b));
    assert_eq!(dag.insert_edge(b, a, Context::Module), Ok(()));
    assert_eq!(dag.insert_edge(a, a, Context::Function), Ok(()));
    assert_eq!(dag.insert_edge(a, a, Context::Enum), Err(DagError::Cyclic(alpha.clone(), alpha)));
}

#[test]
fn owned_symbols_are_noted_by_pair() {
    let table = structs();
    let mut dag = TypeDag::new();
    let a = dag.insert_symbol(&table, &symbol(1, "alpha", SymbolKind::Struct, "")).unwrap();
    let b = dag.insert_symbol(&table, &symbol(2, "beta", SymbolKind::Struct, "")).unwrap();
    let c = dag.insert_symbol(&table, &symbol(3, "gamma", SymbolKind::Struct, "")).unwrap();
    dag.insert_dag_edge(a, b, Context::Struct);
    dag.insert_dag_owned(a, b);
    dag.insert_dag_owned(a, c);
    assert!(dag.is_dag_owned(a, b));
    assert!(dag.is_dag_owned(a, c));
    assert!(!dag.is_dag_owned(b, a));
    assert!(!dag.exist_edge(b, a));
}

#[test]
fn a_reported_cycle_names_both_symbols_and_points_at_the_second() {
    let start = symbol(1, "alpha", SymbolKind::Struct, "struct");
    let end = symbol(2, "beta", SymbolKind::Struct, "struct");
    assert_eq!(AnalyzerError::from(DagError::Cyclic(start, end)), cyclic("alpha", "beta"));
}

#[test]
fn dependencies_of_a_later_application_are_added_to_the_graph() {
    let table = structs();
    let mut dag = TypeDag::new();
    apply_all(&mut dag, &table, vec![used(2, 1, Context::Struct)]);
    let errors = apply_all(
        &mut dag,
        &table,
        vec![used(3, 2, Context::Struct), used(1, 3, Context::Struct)],
    );
    assert_eq!(errors, [cyclic("alpha", "gamma")]);
    assert!(place(&dag, "gamma") < place(&dag, "beta"));
    assert!(place(&dag, "beta") < place(&dag, "alpha"));
}

#[test]
fn symbols_that_can_be_ranked_give_no_error() {
    let mut table = structs();
    with_package(&mut table);
    table.record_path(GenericSymbolPath(50), vec![element(2, &[1]), element(10, &[3])]);
    let mut dag = TypeDag::new();
    // The package depends on gamma and alpha, gamma on alpha, and beta on alpha.
    let errors = apply_all(
        &mut dag,
        &table,
        vec![
            used(1, 3, Context::Struct),
            used(50, 11, Context::Function),
            declared(2, Context::Struct),
            used(1, 10, Context::Package),
        ],
    );
    assert!(errors.is_empty());
    assert_eq!(component(&dag, "pack"), ["pack", "alpha", "beta", "gamma"]);
    assert_eq!(component(&dag, "beta"), ["beta", "alpha"]);
}

#[test]
fn adding_changes_nothing_before_it_is_applied() {
    let table = structs();
    let mut dag = TypeDag::new();
    apply_all(
        &mut dag,
        &table,
        vec![used(2, 1, Context::Struct), declared(3, Context::Struct)],
    );
    let order = type_dag::toposort(&dag);
    let text = type_dag::dump(&dag);
    type_dag::add(&mut dag, used(3, 2, Context::Struct));
    assert_eq!(type_dag::toposort(&dag), order);
    assert_eq!(type_dag::dump(&dag), text);
    assert_eq!(component(&dag, "beta"), ["beta"]);
    type_dag::apply(&mut dag, &table);
    assert_eq!(component(&dag, "beta"), ["beta", "gamma"]);
}

#[test]
fn applying_nothing_changes_nothing() {
    let table = structs();
    let mut dag = TypeDag::new();
    apply_all(
        &mut dag,
        &table,
        vec![declared(3, Context::Struct), used(2, 1, Context::Struct), used(1, 2, Context::Struct)],
    );
    let order = type_dag::toposort(&dag);
    let text = type_dag::dump(&dag);
    assert!(dag.can_apply(&table));
    assert!(type_dag::apply(&mut dag, &table).is_empty());
    assert_eq!(type_dag::toposort(&dag), order);
    assert_eq!(type_dag::dump(&dag), text);
}

#[test]
fn a_cleared_graph_is_like_a_new_one() {
    let table = structs();
    let mut cleared = TypeDag::new();
    apply_all(
        &mut cleared,
        &table,
        vec![declared_in(3, 2), used(1, 2, Context::Struct), used(2, 1, Context::Struct)],
    );
    type_dag::add(&mut cleared, used(3, 1, Context::Struct));
    type_dag::clear(&mut cleared);
    let mut fresh = TypeDag::new();
    for dag in [&mut cleared, &mut fresh] {
        let errors = apply_all(
            dag,
            &table,
            vec![
                declared(3, Context::Struct),
                declared(1, Context::Struct),
                used(3, 2, Context::Struct),
            ],
        );
        assert!(errors.is_empty());
    }
    assert_eq!(type_dag::toposort(&cleared), type_dag::toposort(&fresh));
    assert_eq!(type_dag::dump(&cleared), type_dag::dump(&fresh));
}

#[test]
fn declarations_and_uses_may_be_interleaved() {
    let table = structs();
    let mut first = TypeDag::new();
    let mut second = TypeDag::new();
    let errors = apply_all(
        &mut first,
        &table,
        vec![
            used(2, 1, Context::Module),
            declared_in(2, 1),
            used(3, 2, Context::Struct),
            declared(3, Context::Struct),
            used(1, 3, Context::Struct),
        ],
    );
    let others = apply_all(
        &mut second,
        &table,
        vec![
            declared_in(2, 1),
            declared(3, Context::Struct),
            used(2, 1, Context::Module),
            used(3, 2, Context::Struct),
            used(1, 3, Context::Struct),
        ],
    );
    assert_eq!(errors, others);
    assert_eq!(type_dag::toposort(&first), type_dag::toposort(&second));
    assert_eq!(type_dag::dump(&first), type_dag::dump(&second));
}

#[test]
fn the_source_may_be_depended_on() {
    let table = structs();
    let mut dag = TypeDag::new();
    let a = dag.insert_symbol(&table, &symbol(1, "alpha", SymbolKind::Struct, "struct")).unwrap();
    dag.insert_dag_edge(a, 0, Context::Struct);
    assert!(dag.exist_edge(0, a));
    assert!(type_dag::apply(&mut dag, &table).is_empty());
    assert_eq!(type_dag::dump(&dag), "alpha : struct\n");
}

#[test]
fn a_symbol_without_a_node_need_not_be_declared() {
    let table = SymbolTable::new();
    let mut dag = TypeDag::new();
    let port = symbol(9, "port", SymbolKind::Other, "port");
    let parent = Some((SymbolId(1), Context::Module));
    assert_eq!(dag.insert_symbol(&table, &port), None);
    assert_eq!(dag.insert_declaration_symbol(&table, &port, &parent), None);
    assert!(type_dag::toposort(&dag).is_empty());
}
