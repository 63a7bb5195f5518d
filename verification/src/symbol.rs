//! Symbols, the tokens that they were declared with, and the paths that refer to them.
use vstd::prelude::*;

verus! {

/// The number of a symbol.
#[derive(Clone, Copy, Debug, PartialEq, Eq, Hash, Structural)]
pub struct SymbolId(pub usize);

/// The number of a source file.
#[derive(Clone, Copy, Debug, PartialEq, Eq, Hash, Structural)]
pub struct PathId(pub usize);

/// The number of a namespace.
#[derive(Clone, Copy, Debug, PartialEq, Eq, Hash, Structural)]
pub struct Namespace(pub usize);

/// The number of a path without generic arguments.
#[derive(Clone, Copy, Debug, PartialEq, Eq, Hash, Structural)]
pub struct SymbolPath(pub usize);

/// The number of a path whose elements may have generic arguments.
#[derive(Clone, Copy, Debug, PartialEq, Eq, Hash, Structural)]
pub struct GenericSymbolPath(pub usize);

/// The number of an assignment of paths to generic parameters.
#[derive(Clone, Copy, Debug, PartialEq, Eq, Hash, Structural)]
pub struct GenericMap(pub usize);

/// A path without generic arguments, with the namespace in which it is resolved.
#[derive(Clone, Copy, Debug, PartialEq, Eq, Hash, Structural)]
pub struct GenericSymbolPathNamespace(pub SymbolPath, pub Namespace);

/// One element of a path with generic arguments.
#[derive(Clone, Debug, PartialEq, Eq)]
pub struct GenericSymbol {
    /// The path up to and including this element, where this element stands without arguments.
    pub base_path: SymbolPath,
    /// The path of each generic argument of this element, without the arguments of its own last
    /// element.
    pub arguments: Vec<SymbolPath>,
}

/// Where the text of a token comes from.
#[derive(Clone, Copy, Debug, PartialEq, Eq, Structural)]
pub enum TokenSource {
    File { path: PathId },
    Builtin,
    External,
}

/// A token of a source text.
#[derive(Debug, PartialEq, Eq)]
pub struct Token {
    pub text: String,
    pub line: u32,
    pub column: u32,
    pub source: TokenSource,
}

impl Clone for Token {
    fn clone(&self) -> (copy: Self)
        ensures
            copy == *self,
    {
        Token {
            text: self.text.clone(),
            line: self.line,
            column: self.column,
            source: self.source,
        }
    }
}

/// How a parameter was declared.
#[derive(Clone, Copy, Debug, PartialEq, Eq, Structural)]
pub enum ParameterKind {
    Param,
    Const,
}

/// What a symbol stands for.
#[derive(Clone, Copy, Debug, PartialEq, Eq, Structural)]
pub enum SymbolKind {
    Module,
    AliasModule,
    Interface,
    AliasInterface,
    Modport,
    Package,
    AliasPackage,
    Enum,
    TypeDef,
    Struct,
    Union,
    Function,
    Parameter { kind: ParameterKind },
    /// A kind of which no node is made: a variable, a port, an instance and so on.
    Other,
}

impl SymbolKind {
    /// Symbols of this kind are nodes of the graph of dependencies: components and their aliases,
    /// types, functions and constants.
    pub open spec fn is_dag_kind(self) -> bool {
        match self {
            SymbolKind::Parameter { kind } => kind is Const,
            SymbolKind::Other => false,
            _ => true,
        }
    }

    /// Whether symbols of this kind are nodes of the graph of dependencies.
    pub fn is_dag_symbol(&self) -> (is_dag_symbol: bool)
        ensures
            is_dag_symbol == self.is_dag_kind(),
    {
        match self {
            SymbolKind::Module
            | SymbolKind::AliasModule
            | SymbolKind::Interface
            | SymbolKind::AliasInterface
            | SymbolKind::Modport
            | SymbolKind::Package
            | SymbolKind::AliasPackage
            | SymbolKind::Enum
            | SymbolKind::TypeDef
            | SymbolKind::Struct
            | SymbolKind::Union
            | SymbolKind::Function => true,
            SymbolKind::Parameter { kind } => match kind {
                ParameterKind::Const => true,
                ParameterKind::Param => false,
            },
            SymbolKind::Other => false,
        }
    }
}

/// A declared symbol.
#[derive(Debug, PartialEq, Eq)]
pub struct Symbol {
    pub id: SymbolId,
    pub token: Token,
    pub kind: SymbolKind,
    /// The kind, as it is shown to a reader.
    pub kind_text: String,
    pub namespace: Namespace,
}

impl Clone for Symbol {
    fn clone(&self) -> (copy: Self)
        ensures
            copy == *self,
    {
        Symbol {
            id: self.id,
            token: self.token.clone(),
            kind: self.kind,
            kind_text: self.kind_text.clone(),
            namespace: self.namespace,
        }
    }
}

/// Modules, interfaces and packages, their aliases, modports, types, functions and constants are nodes
/// of the graph; parameters that can be set, and all else, are not.
pub proof fn law_dag_kinds(kind: SymbolKind)
    ensures
        !kind.is_dag_kind() <==> kind == SymbolKind::Other || kind == (SymbolKind::Parameter {
            kind: ParameterKind::Param,
        }),
{
}

} // verus!
