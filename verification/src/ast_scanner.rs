//! The pass over the syntax of one module that builds its scope tree and symbol
//! table and lists its imports, exports and references.

use crate::types::ast_scope::{resolve_in, resolve_reference, scope_tree, Scope};
use crate::types::ast_symbols::{binds, declared_in, find_declared, ScopeId, Symbol, SymbolId};
use crate::types::syntax_tree::{ImportKind, Specifier, SyntaxNode, SyntaxTree};
use vstd::prelude::*;

verus! {

/// A request for another module, as written in the source.
#[derive(Debug)]
pub struct ImportRecord {
    pub specifier: String,
    pub kind: ImportKind,
}

/// A binding that an import fills.
#[derive(Debug)]
pub struct NamedImport {
    /// The import record that names the module.
    pub record: usize,
    pub imported: Specifier,
    /// The symbol that the import binds.
    pub local: SymbolId,
}

/// A name that the module exports itself.
#[derive(Debug)]
pub struct NamedExport {
    pub name: String,
    pub symbol: SymbolId,
}

/// A use of a name.
#[derive(Debug)]
pub struct Reference {
    pub scope: ScopeId,
    pub name: String,
}

/// The scope in which an import binds its local name: static imports are
/// hoisted to the outermost scope.
pub open spec fn binding_scope(kind: ImportKind, current: ScopeId) -> ScopeId {
    if kind == ImportKind::Import {
        0
    } else {
        current
    }
}

/// What the pass has built after some of the nodes.
pub struct Draft {
    pub scopes: Seq<Scope>,
    pub symbols: Seq<Symbol>,
    pub records: Seq<ImportRecord>,
    pub imports: Seq<NamedImport>,
    pub exports: Seq<NamedExport>,
    pub stars: Seq<usize>,
    pub references: Seq<Reference>,
    /// The scope that encloses the next node.
    pub current: ScopeId,
}

impl Draft {
    /// The draft before the first node: the outermost scope and nothing else.
    pub open spec fn initial() -> Draft {
        Draft {
            scopes: seq![Scope { parent: None }],
            symbols: Seq::empty(),
            records: Seq::empty(),
            imports: Seq::empty(),
            exports: Seq::empty(),
            stars: Seq::empty(),
            references: Seq::empty(),
            current: 0,
        }
    }

    /// The draft after one more node.
    ///
    /// A declaration adds a symbol to the enclosing scope unless the scope has a
    /// binding of that name already. An import adds an import record and binds
    /// its local name in the same way: a static import in the outermost scope,
    /// any other in the enclosing one. An export marks the binding of the
    /// outermost scope, or adds a placeholder where there is none. A re-export
    /// adds an import record and a placeholder that is both imported and
    /// exported. A block exit in the outermost scope is ignored.
    pub open spec fn step(self, node: SyntaxNode) -> Draft {
        match node {
            SyntaxNode::EnterBlock => Draft {
                scopes: self.scopes.push(Scope { parent: Some(self.current) }),
                current: self.scopes.len() as usize,
                ..self
            },
            SyntaxNode::ExitBlock => Draft {
                current: match self.scopes[self.current as int].parent {
                    Some(parent) => parent,
                    None => self.current,
                },
                ..self
            },
            SyntaxNode::Declare { name, mutable } => match declared_in(
                self.symbols,
                self.current,
                name@,
            ) {
                Some(_) => self,
                None => Draft {
                    symbols: self.symbols.push(
                        Symbol {
                            name,
                            scope: self.current,
                            import_binding: false,
                            mutable,
                            exported: false,
                            placeholder: false,
                        },
                    ),
                    ..self
                },
            },
            SyntaxNode::Reference { name } => Draft {
                references: self.references.push(Reference { scope: self.current, name }),
                ..self
            },
            SyntaxNode::Import { specifier, kind, imported, local } => {
                let record = self.records.len() as usize;
                let records = self.records.push(ImportRecord { specifier, kind });
                let scope = binding_scope(kind, self.current);
                match declared_in(self.symbols, scope, local@) {
                    Some(symbol) => Draft {
                        records,
                        imports: self.imports.push(NamedImport { record, imported, local: symbol }),
                        ..self
                    },
                    None => Draft {
                        records,
                        imports: self.imports.push(
                            NamedImport { record, imported, local: self.symbols.len() as usize },
                        ),
                        symbols: self.symbols.push(
                            Symbol {
                                name: local,
                                scope,
                                import_binding: true,
                                mutable: false,
                                exported: false,
                                placeholder: false,
                            },
                        ),
                        ..self
                    },
                }
            },
            SyntaxNode::Export { local, exported } => match declared_in(self.symbols, 0, local@) {
                Some(symbol) => Draft {
                    symbols: self.symbols.update(
                        symbol as int,
                        self.symbols[symbol as int].as_exported(),
                    ),
                    exports: self.exports.push(NamedExport { name: exported, symbol }),
                    ..self
                },
                None => Draft {
                    symbols: self.symbols.push(
                        Symbol {
                            name: local,
                            scope: 0,
                            import_binding: false,
                            mutable: false,
                            exported: true,
                            placeholder: true,
                        },
                    ),
                    exports: self.exports.push(
                        NamedExport { name: exported, symbol: self.symbols.len() as usize },
                    ),
                    ..self
                },
            },
            SyntaxNode::ReExport { specifier, imported, exported } => {
                let record = self.records.len() as usize;
                let symbol = self.symbols.len() as usize;
                Draft {
                    records: self.records.push(ImportRecord { specifier, kind: ImportKind::Import }),
                    symbols: self.symbols.push(
                        Symbol {
                            name: exported,
                            scope: 0,
                            import_binding: true,
                            mutable: false,
                            exported: true,
                            placeholder: true,
                        },
                    ),
                    imports: self.imports.push(NamedImport { record, imported, local: symbol }),
                    exports: self.exports.push(NamedExport { name: exported, symbol }),
                    ..self
                }
            },
            SyntaxNode::ExportStar { specifier } => Draft {
                records: self.records.push(ImportRecord { specifier, kind: ImportKind::Import }),
                stars: self.stars.push(self.records.len() as usize),
                ..self
            },
        }
    }

    /// Every index that the draft holds points into the table it is meant for,
    /// the scopes form a tree, and no scope binds a name twice.
    pub open spec fn wf(self) -> bool {
        &&& scope_tree(self.scopes)
        &&& self.current < self.scopes.len()
        &&& forall|i: int|
            0 <= i < self.symbols.len() ==> (#[trigger] self.symbols[i]).scope < self.scopes.len()
        &&& forall|i: int, j: int|
            0 <= i < j < self.symbols.len() && !(#[trigger] self.symbols[i]).placeholder && !(
            #[trigger] self.symbols[j]).placeholder && self.symbols[i].scope
                == self.symbols[j].scope ==> self.symbols[i].name@ != self.symbols[j].name@
        &&& forall|k: int|
            0 <= k < self.imports.len() ==> (#[trigger] self.imports[k]).record
                < self.records.len() && self.imports[k].local < self.symbols.len()
        &&& forall|k: int|
            0 <= k < self.exports.len() ==> (#[trigger] self.exports[k]).symbol
                < self.symbols.len()
        &&& forall|k: int| 0 <= k < self.stars.len() ==> #[trigger] self.stars[k] < self.records.len()
        &&& forall|k: int|
            0 <= k < self.references.len() ==> (#[trigger] self.references[k]).scope
                < self.scopes.len()
    }
}

/// The draft after the first `count` nodes.
pub open spec fn draft_after(nodes: Seq<SyntaxNode>, count: nat) -> Draft
    decreases count,
{
    if count == 0 {
        Draft::initial()
    } else {
        draft_after(nodes, (count - 1) as nat).step(nodes[count - 1])
    }
}

/// A well-formed draft stays well-formed with every node.
pub proof fn lemma_step_wf(draft: Draft, node: SyntaxNode)
    requires
        draft.wf(),
        draft.symbols.len() <= usize::MAX,
        draft.scopes.len() <= usize::MAX,
        draft.records.len() <= usize::MAX,
    ensures
        draft.step(node).wf(),
{
    let next = draft.step(node);
    match node {
        SyntaxNode::Declare { name, mutable } => {
            if declared_in(draft.symbols, draft.current, name@) is None {
                assert forall|i: int, j: int|
                    0 <= i < j < next.symbols.len() && !(#[trigger] next.symbols[i]).placeholder
                        && !(#[trigger] next.symbols[j]).placeholder && next.symbols[i].scope
                        == next.symbols[j].scope implies next.symbols[i].name@
                    != next.symbols[j].name@ by {
                    if j == draft.symbols.len() {
                        assert(!binds(draft.symbols, draft.current, name@, i));
                    }
                }
            }
        },
        SyntaxNode::Import { specifier, kind, imported, local } => {
            let scope = binding_scope(kind, draft.current);
            if declared_in(draft.symbols, scope, local@) is None {
                assert forall|i: int, j: int|
                    0 <= i < j < next.symbols.len() && !(#[trigger] next.symbols[i]).placeholder
                        && !(#[trigger] next.symbols[j]).placeholder && next.symbols[i].scope
                        == next.symbols[j].scope implies next.symbols[i].name@
                    != next.symbols[j].name@ by {
                    if j == draft.symbols.len() {
                        assert(!binds(draft.symbols, scope, local@, i));
                    }
                }
            } else {
                let found = declared_in(draft.symbols, scope, local@).unwrap();
                assert(binds(draft.symbols, scope, local@, found as int));
            }
        },
        SyntaxNode::Export { local, exported } => {
            if declared_in(draft.symbols, 0, local@) is Some {
                let found = declared_in(draft.symbols, 0, local@).unwrap();
                assert(binds(draft.symbols, 0, local@, found as int));
            }
        },
        _ => {},
    }
}

/// A draft has at most one import record for each node.
pub proof fn lemma_draft_bounded(nodes: Seq<SyntaxNode>, count: nat)
    ensures
        draft_after(nodes, count).records.len() <= count,
    decreases count,
{
    if count > 0 {
        lemma_draft_bounded(nodes, (count - 1) as nat);
    }
}

/// The binding that each reference refers to: the one declared in the nearest
/// enclosing scope that declares the name, wherever in that scope the
/// declaration stands.
pub open spec fn bindings_in(
    scopes: Seq<Scope>,
    symbols: Seq<Symbol>,
    references: Seq<Reference>,
) -> Seq<Option<SymbolId>> {
    Seq::new(
        references.len(),
        |i: int| resolve_in(scopes, symbols, references[i].scope, references[i].name@),
    )
}

/// The binding that each reference of a draft refers to.
pub open spec fn bindings_of(draft: Draft) -> Seq<Option<SymbolId>> {
    bindings_in(draft.scopes, draft.symbols, draft.references)
}

/// The binding that each reference refers to.
pub fn resolve_references(
    scopes: &Vec<Scope>,
    symbols: &Vec<Symbol>,
    references: &Vec<Reference>,
) -> (bindings: Vec<Option<SymbolId>>)
    ensures
        bindings@ == bindings_in(scopes@, symbols@, references@),
{
    let mut bindings: Vec<Option<SymbolId>> = Vec::new();
    let mut r: usize = 0;
    while r < references.len()
        invariant
            r <= references@.len(),
            bindings@.len() == r,
            forall|q: int|
                0 <= q < r ==> bindings@[q] == resolve_in(
                    scopes@,
                    symbols@,
                    references@[q].scope,
                    references@[q].name@,
                ),
        decreases references@.len() - r,
    {
        let found = resolve_reference(scopes, symbols, references[r].scope, &references[r].name);
        bindings.push(found);
        r = r + 1;
    }
    assert(bindings@ =~= bindings_in(scopes@, symbols@, references@));
    bindings
}

/// What scanning one module gave.
#[derive(Debug)]
pub struct Analysis {
    pub scopes: Vec<Scope>,
    pub symbols: Vec<Symbol>,
    pub import_records: Vec<ImportRecord>,
    pub named_imports: Vec<NamedImport>,
    pub named_exports: Vec<NamedExport>,
    pub star_exports: Vec<usize>,
    pub references: Vec<Reference>,
    /// The binding that each reference refers to, if the module has one.
    pub bindings: Vec<Option<SymbolId>>,
}

impl Analysis {
    /// The analysis as a draft whose next node would stand in scope `current`.
    pub open spec fn draft(self, current: ScopeId) -> Draft {
        Draft {
            scopes: self.scopes@,
            symbols: self.symbols@,
            records: self.import_records@,
            imports: self.named_imports@,
            exports: self.named_exports@,
            stars: self.star_exports@,
            references: self.references@,
            current,
        }
    }

    /// Whether every index points into the table it is meant for, the scopes form a
    /// tree, and no scope binds a name twice.
    pub open spec fn wf(self) -> bool {
        self.draft(0).wf()
    }
}

/// The pass while it runs.
struct Scanner {
    scopes: Vec<Scope>,
    symbols: Vec<Symbol>,
    records: Vec<ImportRecord>,
    imports: Vec<NamedImport>,
    exports: Vec<NamedExport>,
    stars: Vec<usize>,
    references: Vec<Reference>,
    current: ScopeId,
}

impl Scanner {
    spec fn draft(self) -> Draft {
        Draft {
            scopes: self.scopes@,
            symbols: self.symbols@,
            records: self.records@,
            imports: self.imports@,
            exports: self.exports@,
            stars: self.stars@,
            references: self.references@,
            current: self.current,
        }
    }

    fn enter_block(&mut self)
        ensures
            final(self).draft() == old(self).draft().step(SyntaxNode::EnterBlock),
    {
        let scope: usize = self.scopes.len();
        self.scopes.push(Scope { parent: Some(self.current) });
        self.current = scope;
    }

    fn exit_block(&mut self)
        requires
            old(self).draft().wf(),
        ensures
            final(self).draft() == old(self).draft().step(SyntaxNode::ExitBlock),
    {
        match self.scopes[self.current].parent {
            Some(parent) => {
                self.current = parent;
            },
            None => {},
        }
    }

    fn declare(&mut self, name: &String, mutable: bool)
        ensures
            final(self).draft() == old(self).draft().step(
                SyntaxNode::Declare { name: *name, mutable },
            ),
    {
        if find_declared(&self.symbols, self.current, name).is_none() {
            self.symbols.push(
                Symbol {
                    name: name.clone(),
                    scope: self.current,
                    import_binding: false,
                    mutable,
                    exported: false,
                    placeholder: false,
                },
            );
        }
    }

    fn import(&mut self, specifier: &String, kind: ImportKind, imported: &Specifier, local: &String)
        ensures
            final(self).draft() == old(self).draft().step(
                SyntaxNode::Import { specifier: *specifier, kind, imported: *imported, local: *local },
            ),
    {
        let record: usize = self.records.len();
        self.records.push(ImportRecord { specifier: specifier.clone(), kind });
        let scope: usize = match kind {
            ImportKind::Import => 0,
            _ => self.current,
        };
        match find_declared(&self.symbols, scope, local) {
            Some(symbol) => {
                self.imports.push(
                    NamedImport { record, imported: imported.duplicate(), local: symbol },
                );
            },
            None => {
                let symbol: usize = self.symbols.len();
                self.symbols.push(
                    Symbol {
                        name: local.clone(),
                        scope,
                        import_binding: true,
                        mutable: false,
                        exported: false,
                        placeholder: false,
                    },
                );
                self.imports.push(
                    NamedImport { record, imported: imported.duplicate(), local: symbol },
                );
            },
        }
    }

    fn export(&mut self, local: &String, exported: &String)
        ensures
            final(self).draft() == old(self).draft().step(
                SyntaxNode::Export { local: *local, exported: *exported },
            ),
    {
        match find_declared(&self.symbols, 0, local) {
            Some(symbol) => {
                let marked = self.symbols[symbol].to_exported();
                self.symbols.set(symbol, marked);
                self.exports.push(NamedExport { name: exported.clone(), symbol });
            },
            None => {
                let symbol: usize = self.symbols.len();
                self.symbols.push(
                    Symbol {
                        name: local.clone(),
                        scope: 0,
                        import_binding: false,
                        mutable: false,
                        exported: true,
                        placeholder: true,
                    },
                );
                self.exports.push(NamedExport { name: exported.clone(), symbol });
            },
        }
    }

    fn re_export(&mut self, specifier: &String, imported: &Specifier, exported: &String)
        ensures
            final(self).draft() == old(self).draft().step(
                SyntaxNode::ReExport {
                    specifier: *specifier,
                    imported: *imported,
                    exported: *exported,
                },
            ),
    {
        let record: usize = self.records.len();
        let symbol: usize = self.symbols.len();
        self.records.push(ImportRecord { specifier: specifier.clone(), kind: ImportKind::Import });
        self.symbols.push(
            Symbol {
                name: exported.clone(),
                scope: 0,
                import_binding: true,
                mutable: false,
                exported: true,
                placeholder: true,
            },
        );
        self.imports.push(NamedImport { record, imported: imported.duplicate(), local: symbol });
        self.exports.push(NamedExport { name: exported.clone(), symbol });
    }

    fn export_star(&mut self, specifier: &String)
        ensures
            final(self).draft() == old(self).draft().step(
                SyntaxNode::ExportStar { specifier: *specifier },
            ),
    {
        let record: usize = self.records.len();
        self.records.push(ImportRecord { specifier: specifier.clone(), kind: ImportKind::Import });
        self.stars.push(record);
    }

    fn visit(&mut self, node: &SyntaxNode)
        requires
            old(self).draft().wf(),
        ensures
            final(self).draft() == old(self).draft().step(*node),
    {
        match node {
            SyntaxNode::EnterBlock => self.enter_block(),
            SyntaxNode::ExitBlock => self.exit_block(),
            SyntaxNode::Declare { name, mutable } => self.declare(name, *mutable),
            SyntaxNode::Reference { name } => {
                self.references.push(Reference { scope: self.current, name: name.clone() });
            },
            SyntaxNode::Import { specifier, kind, imported, local } => self.import(
                specifier,
                *kind,
                imported,
                local,
            ),
            SyntaxNode::Export { local, exported } => self.export(local, exported),
            SyntaxNode::ReExport { specifier, imported, exported } => self.re_export(
                specifier,
                imported,
                exported,
            ),
            SyntaxNode::ExportStar { specifier } => self.export_star(specifier),
        }
    }
}

/// Scans the syntax of one module.
pub fn scan_module(tree: &SyntaxTree) -> (analysis: Analysis)
    ensures
        analysis.draft(draft_after(tree.nodes@, tree.nodes@.len()).current) == draft_after(
            tree.nodes@,
            tree.nodes@.len(),
        ),
        analysis.wf(),
        analysis.bindings@ == bindings_of(analysis.draft(0)),
{
    let mut scopes: Vec<Scope> = Vec::new();
    scopes.push(Scope { parent: None });
    let mut scanner = Scanner {
        scopes,
        symbols: Vec::new(),
        records: Vec::new(),
        imports: Vec::new(),
        exports: Vec::new(),
        stars: Vec::new(),
        references: Vec::new(),
        current: 0,
    };
    let mut i: usize = 0;
    let ghost nodes = tree.nodes@;
    while i < tree.nodes.len()
        invariant
            nodes == tree.nodes@,
            i <= nodes.len(),
            draft_after(nodes, i as nat).wf(),
            draft_after(nodes, i as nat) == scanner.draft(),
        decreases nodes.len() - i,
    {
        proof {
            assert(scanner.symbols.len() == scanner.symbols@.len());
            assert(scanner.scopes.len() == scanner.scopes@.len());
            assert(scanner.records.len() == scanner.records@.len());
            lemma_step_wf(scanner.draft(), nodes[i as int]);
        }
        scanner.visit(&tree.nodes[i]);
        i = i + 1;
    }
    proof {
        let last = draft_after(nodes, nodes.len());
        assert((Draft { current: 0, ..last }).wf());
    }
    let bindings = resolve_references(&scanner.scopes, &scanner.symbols, &scanner.references);
    Analysis {
        scopes: scanner.scopes,
        symbols: scanner.symbols,
        import_records: scanner.records,
        named_imports: scanner.imports,
        named_exports: scanner.exports,
        star_exports: scanner.stars,
        references: scanner.references,
        bindings,
    }
}

} // verus!
