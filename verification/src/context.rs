use vstd::prelude::*;

verus! {

/// Where a dependency between two symbols was found.
#[derive(Default, Clone, Copy, Debug, PartialOrd, Ord, PartialEq, Eq, Structural)]
pub enum Context {
    #[default]
    Irrelevant,
    Struct,
    Union,
    Enum,
    Function,
    TypeDef,
    Const,
    Alias,
    Module,
    Interface,
    Package,
    Modport,
    GenericInstance,
}

} // verus!
