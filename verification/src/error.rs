use vstd::prelude::*;

verus! {

/// A problem found while scanning.
///
/// `EntryCannotBeExternal` and `PluginHookError` always end the scan, and so
/// does `ResolveFailed` for an entry. The others are collected as warnings
/// and the scan goes on.
#[derive(Debug)]
#[allow(inconsistent_fields)]
pub enum BuildError {
    /// An entry specifier resolved to a module outside the graph.
    EntryCannotBeExternal { path: String },
    /// A specifier could not be resolved.
    ResolveFailed { specifier: String, importer: Option<String>, reason: String },
    /// The source of a module could not be parsed.
    ParseFailed { path: String, reason: String },
    /// An imported name is not among the exports of the module it is imported from.
    UnresolvedImport { importer: String, specifier: String, name: String },
    /// An imported name is exported by several wildcard re-exports with different origins.
    AmbiguousExport { importer: String, specifier: String, name: String },
    /// A plugin hook broke its contract.
    PluginHookError { hook: String, reason: String },
}

/// The errors of one failed stage, in the order in which they were found.
pub type BatchedErrors = Vec<BuildError>;

/// The result of a stage that reports all of its errors at once.
pub type BatchedResult<T> = Result<T, BatchedErrors>;

impl BuildError {
    /// The error for an entry whose specifier resolved to an external module.
    pub fn entry_cannot_be_external(path: &str) -> (error: BuildError)
        ensures
            error matches BuildError::EntryCannotBeExternal { path: p } && p@ == path@,
    {
        BuildError::EntryCannotBeExternal { path: path.to_owned() }
    }

    /// Whether this error ends the scan wherever it occurs.
    pub open spec fn always_fatal(self) -> bool {
        self is EntryCannotBeExternal || self is PluginHookError
    }

    /// Whether this error ends the scan wherever it occurs.
    pub fn is_always_fatal(&self) -> (fatal: bool)
        ensures
            fatal == self.always_fatal(),
    {
        match self {
            BuildError::EntryCannotBeExternal { .. } => true,
            BuildError::PluginHookError { .. } => true,
            _ => false,
        }
    }
}

} // verus!
