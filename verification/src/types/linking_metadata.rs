use crate::types::match_import_kind::MatchImportKind;
use crate::types::namespace_alias::NamespaceAlias;
use crate::types::symbols::SymbolRef;
use vstd::prelude::*;

verus! {

/// One name of the export surface of a module.
#[derive(Debug)]
pub struct ResolvedExport {
    pub name: String,
    /// A declaration that the name stands for.
    pub origin: SymbolRef,
    /// The name stands for more than one declaration. It cannot be imported.
    pub ambiguous: bool,
}

/// What linking found for one module.
#[derive(Debug)]
pub struct LinkingMetadata {
    /// The export surface, wildcard re-exports included.
    pub resolved_exports: Vec<ResolvedExport>,
    /// What each named import of the module was matched with.
    pub resolutions: Vec<MatchImportKind>,
    /// The namespace objects that the module has of other modules, one for each.
    pub namespaces: Vec<NamespaceAlias>,
}

} // verus!
