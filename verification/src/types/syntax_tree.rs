use vstd::prelude::*;

verus! {

/// How a module asks for another one.
#[derive(Clone, Copy, Debug, PartialEq, Eq, Structural)]
pub enum ImportKind {
    /// A static `import` or a re-export.
    Import,
    /// A dynamic `import()`.
    DynamicImport,
    /// A `require()` call.
    Require,
}

/// What an import takes from the module it names.
#[derive(Debug)]
pub enum Specifier {
    /// The default export.
    Default,
    /// The export of this name.
    Named(String),
    /// All exports, as one namespace object.
    Namespace,
}

impl Specifier {
    /// A copy of the specifier.
    pub fn duplicate(&self) -> (copy: Specifier)
        ensures
            copy == *self,
    {
        match self {
            Specifier::Default => Specifier::Default,
            Specifier::Named(name) => Specifier::Named(name.clone()),
            Specifier::Namespace => Specifier::Namespace,
        }
    }
}

/// One node of a module's syntax, as far as scanning reads it.
///
/// The nodes of a module are listed in source order. `EnterBlock` and
/// `ExitBlock` enclose the nodes of a nested lexical block.
#[derive(Debug)]
pub enum SyntaxNode {
    EnterBlock,
    ExitBlock,
    /// A declaration of `name` in the enclosing block.
    Declare { name: String, mutable: bool },
    /// A use of `name`.
    Reference { name: String },
    /// An import that binds `local`.
    Import { specifier: String, kind: ImportKind, imported: Specifier, local: String },
    /// `export { local as exported }`.
    Export { local: String, exported: String },
    /// `export { imported as exported } from specifier`.
    ReExport { specifier: String, imported: Specifier, exported: String },
    /// `export * from specifier`.
    ExportStar { specifier: String },
}

/// The syntax of one module.
#[derive(Debug)]
pub struct SyntaxTree {
    pub nodes: Vec<SyntaxNode>,
}

} // verus!
