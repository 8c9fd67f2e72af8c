use crate::ast_scanner::{
    bindings_of, draft_after, ImportRecord, NamedExport, NamedImport, Reference,
};
use crate::types::ast_scope::Scope;
use crate::types::ast_symbols::{Symbol, SymbolId};
use crate::types::linking_metadata::LinkingMetadata;
use crate::types::module_id::ModuleId;
use crate::types::syntax_tree::SyntaxNode;
use vstd::prelude::*;

verus! {

/// One module of the graph.
///
/// An external module, and one whose source could not be loaded, has a path
/// and nothing else.
#[derive(Debug)]
pub struct ModuleRecord {
    pub path: String,
    pub is_external: bool,
    pub scopes: Vec<Scope>,
    pub symbols: Vec<Symbol>,
    pub references: Vec<Reference>,
    /// The binding that each reference refers to, if the module has one.
    pub bindings: Vec<Option<SymbolId>>,
    pub import_records: Vec<ImportRecord>,
    /// The module that each import record resolved to, once it has.
    pub resolved: Vec<Option<ModuleId>>,
    pub named_imports: Vec<NamedImport>,
    pub named_exports: Vec<NamedExport>,
    /// The import records of the wildcard re-exports.
    pub star_exports: Vec<usize>,
}

impl ModuleRecord {
    /// Whether the record has a path and nothing else.
    pub open spec fn is_bare(self) -> bool {
        &&& self.scopes@.len() == 0
        &&& self.symbols@.len() == 0
        &&& self.references@.len() == 0
        &&& self.bindings@.len() == 0
        &&& self.import_records@.len() == 0
        &&& self.resolved@.len() == 0
        &&& self.named_imports@.len() == 0
        &&& self.named_exports@.len() == 0
        &&& self.star_exports@.len() == 0
    }

    /// The record of a module that has not been loaded.
    pub fn bare(path: String, is_external: bool) -> (record: ModuleRecord)
        ensures
            record.path == path,
            record.is_external == is_external,
            record.is_bare(),
    {
        ModuleRecord {
            path,
            is_external,
            scopes: Vec::new(),
            symbols: Vec::new(),
            references: Vec::new(),
            bindings: Vec::new(),
            import_records: Vec::new(),
            resolved: Vec::new(),
            named_imports: Vec::new(),
            named_exports: Vec::new(),
            star_exports: Vec::new(),
        }
    }

    /// Whether the record holds what scanning `nodes` gives.
    pub open spec fn holds(self, nodes: Seq<SyntaxNode>) -> bool {
        let draft = draft_after(nodes, nodes.len());
        &&& self.scopes@ == draft.scopes
        &&& self.symbols@ == draft.symbols
        &&& self.references@ == draft.references
        &&& self.bindings@ == bindings_of(draft)
        &&& self.import_records@ == draft.records
        &&& self.named_imports@ == draft.imports
        &&& self.named_exports@ == draft.exports
        &&& self.star_exports@ == draft.stars
        &&& self.resolved@.len() == draft.records.len()
    }

    /// Whether `target` is a module that this one depends on.
    pub open spec fn depends_on(self, target: ModuleId) -> bool {
        exists|r: int| 0 <= r < self.resolved@.len() && #[trigger] self.resolved@[r] == Some(target)
    }

    /// The modules that this one depends on, each once, in the order of the
    /// import records that first name them.
    pub fn dependencies(&self) -> (targets: Vec<ModuleId>)
        ensures
            targets@ == first_targets(self.resolved@, self.resolved@.len()),
            targets@.no_duplicates(),
            forall|target: ModuleId| targets@.contains(target) <==> self.depends_on(target),
    {
        let mut targets: Vec<ModuleId> = Vec::new();
        let mut r: usize = 0;
        while r < self.resolved.len()
            invariant
                r <= self.resolved@.len(),
                targets@ == first_targets(self.resolved@, r as nat),
            decreases self.resolved@.len() - r,
        {
            match self.resolved[r] {
                Some(target) => {
                    let mut known: bool = false;
                    let mut i: usize = 0;
                    while i < targets.len()
                        invariant
                            i <= targets@.len(),
                            known <==> exists|j: int| 0 <= j < i && targets@[j] == target,
                        decreases targets@.len() - i,
                    {
                        if targets[i].raw == target.raw {
                            known = true;
                        }
                        i = i + 1;
                    }
                    if !known {
                        targets.push(target);
                    }
                },
                None => {},
            }
            r = r + 1;
        }
        proof {
            lemma_first_targets(self.resolved@, self.resolved@.len());
        }
        targets
    }
}

/// The modules that the first `count` import records lead to, each once, in the
/// order of the records that first name them.
pub open spec fn first_targets(resolved: Seq<Option<ModuleId>>, count: nat) -> Seq<ModuleId>
    decreases count,
{
    if count == 0 {
        Seq::empty()
    } else {
        let before = first_targets(resolved, (count - 1) as nat);
        match resolved[count - 1] {
            Some(target) => if before.contains(target) {
                before
            } else {
                before.push(target)
            },
            None => before,
        }
    }
}

/// The list of dependencies names every module that a record leads to, once.
pub proof fn lemma_first_targets(resolved: Seq<Option<ModuleId>>, count: nat)
    requires
        count <= resolved.len(),
    ensures
        first_targets(resolved, count).no_duplicates(),
        forall|target: ModuleId|
            first_targets(resolved, count).contains(target) <==> exists|r: int|
                0 <= r < count && #[trigger] resolved[r] == Some(target),
    decreases count,
{
    if count > 0 {
        let before = first_targets(resolved, (count - 1) as nat);
        let after = first_targets(resolved, count);
        lemma_first_targets(resolved, (count - 1) as nat);
        assert forall|target: ModuleId| after.contains(target) <==> exists|r: int|
            0 <= r < count && #[trigger] resolved[r] == Some(target) by {
            if after.contains(target) {
                let j = choose|j: int| 0 <= j < after.len() && after[j] == target;
                if j < before.len() {
                    assert(before[j] == target);
                    assert(before.contains(target));
                    let r = choose|r: int| 0 <= r < count - 1 && #[trigger] resolved[r] == Some(target);
                    assert(resolved[r] == Some(target));
                } else {
                    assert(resolved[count - 1] == Some(target));
                }
            }
            if exists|r: int| 0 <= r < count && #[trigger] resolved[r] == Some(target) {
                let r = choose|r: int| 0 <= r < count && #[trigger] resolved[r] == Some(target);
                if r < count - 1 {
                    assert(before.contains(target));
                    let j = choose|j: int| 0 <= j < before.len() && before[j] == target;
                    assert(after[j] == target);
                } else if before.contains(target) {
                } else {
                    assert(after.last() == target);
                }
            }
        }
    }
}

/// Whether module `module` itself exports `symbol` under `name`.
pub open spec fn exports_symbol(
    modules: Seq<ModuleRecord>,
    module: int,
    name: Seq<char>,
    symbol: SymbolId,
) -> bool {
    exists|k: int|
        0 <= k < modules[module].named_exports@.len() && (
        #[trigger] modules[module].named_exports@[k]).name@ == name
            && modules[module].named_exports@[k].symbol == symbol
}

/// Whether module `module` itself exports something under `name`.
pub open spec fn exports_name(modules: Seq<ModuleRecord>, module: int, name: Seq<char>) -> bool {
    exists|k: int|
        0 <= k < modules[module].named_exports@.len() && (
        #[trigger] modules[module].named_exports@[k]).name@ == name
}

/// The module of the table that import record `record` of `module` resolved to.
pub open spec fn record_target(modules: Seq<ModuleRecord>, module: int, record: usize) -> Option<
    usize,
> {
    if record < modules[module].resolved@.len() {
        match modules[module].resolved@[record as int] {
            Some(target) => if target.raw < modules.len() {
                Some(target.raw)
            } else {
                None
            },
            None => None,
        }
    } else {
        None
    }
}

/// The module of the table that import record `record` of `module` resolved to.
pub fn target_of_record(modules: &Vec<ModuleRecord>, module: usize, record: usize) -> (target:
    Option<usize>)
    requires
        module < modules@.len(),
    ensures
        target == record_target(modules@, module as int, record),
{
    if record < modules[module].resolved.len() {
        match modules[module].resolved[record] {
            Some(target) => if target.raw < modules.len() {
                Some(target.raw)
            } else {
                None
            },
            None => None,
        }
    } else {
        None
    }
}

/// The module that wildcard re-export `k` of `module` takes its names from.
pub open spec fn star_target(modules: Seq<ModuleRecord>, module: int, k: int) -> Option<usize> {
    record_target(modules, module, modules[module].star_exports@[k])
}

/// Whether `from` has a wildcard re-export of `to`.
pub open spec fn star_edge(modules: Seq<ModuleRecord>, from: int, to: int) -> bool {
    exists|k: int|
        0 <= k < modules[from].star_exports@.len() && #[trigger] star_target(modules, from, k)
            == Some(to as usize)
}

/// A chain of wildcard re-exports that visits no module twice.
pub open spec fn star_chain(modules: Seq<ModuleRecord>, chain: Seq<usize>) -> bool {
    &&& chain.len() >= 1
    &&& chain.no_duplicates()
    &&& forall|i: int| 0 <= i < chain.len() ==> #[trigger] chain[i] < modules.len()
    &&& forall|i: int|
        0 <= i < chain.len() - 1 ==> star_edge(
            modules,
            #[trigger] chain[i] as int,
            chain[i + 1] as int,
        )
}

/// The module table: every module of the graph under its handle, and what
/// linking found for each.
#[derive(Debug)]
pub struct ModuleTable {
    pub modules: Vec<ModuleRecord>,
    pub linking: Vec<LinkingMetadata>,
}

} // verus!
