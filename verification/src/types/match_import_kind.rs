use crate::types::symbols::SymbolRef;
use vstd::prelude::*;

verus! {

/// What an import was matched with.
#[derive(Clone, Copy, Debug)]
pub enum MatchImportKind {
    /// The import names no module of the graph: its specifier did not resolve.
    Unresolved,
    /// The import names an external module.
    External,
    /// The import stands for this declaration.
    Found(SymbolRef),
    /// The import stands for this namespace object of the importing module.
    Namespace(usize),
    /// The module does not export the name.
    NotFound,
    /// The module exports the name for more than one declaration.
    Ambiguous,
}

} // verus!
