use crate::ast_scanner::NamedExport;
use crate::types::module_id::ModuleId;
use crate::types::symbols::SymbolRef;
use vstd::prelude::*;

verus! {

/// The path under which the module of the bundler's own helpers is claimed.
pub open spec fn runtime_path() -> Seq<char> {
    "rolldown:runtime"@
}

/// The path under which the module of the bundler's own helpers is claimed.
pub fn runtime_module_path() -> (path: String)
    ensures
        path@ == runtime_path(),
{
    "rolldown:runtime".to_owned()
}

/// A helper that the runtime module exports.
#[derive(Debug)]
pub struct RuntimeHelper {
    pub name: String,
    pub symbol: SymbolRef,
}

/// The module of the bundler's own helpers, and the helpers by name. Every scan
/// has exactly one.
#[derive(Debug)]
pub struct RuntimeModuleBrief {
    pub id: ModuleId,
    pub helpers: Vec<RuntimeHelper>,
}

/// Whether `brief` lists the exports of module `id`, in order.
pub open spec fn is_brief(
    brief: RuntimeModuleBrief,
    id: ModuleId,
    exports: Seq<NamedExport>,
) -> bool {
    &&& brief.id == id
    &&& brief.helpers@.len() == exports.len()
    &&& forall|i: int|
        0 <= i < exports.len() ==> {
            &&& (#[trigger] brief.helpers@[i]).name == exports[i].name
            &&& brief.helpers@[i].symbol == SymbolRef { owner: id, symbol: exports[i].symbol }
        }
}

impl RuntimeModuleBrief {
    /// The brief of the runtime module `id` with these exports.
    pub fn new(id: ModuleId, exports: &Vec<NamedExport>) -> (brief: RuntimeModuleBrief)
        ensures
            is_brief(brief, id, exports@),
    {
        let mut helpers: Vec<RuntimeHelper> = Vec::new();
        let mut i: usize = 0;
        while i < exports.len()
            invariant
                i <= exports@.len(),
                helpers@.len() == i,
                forall|j: int|
                    0 <= j < i ==> {
                        &&& (#[trigger] helpers@[j]).name == exports@[j].name
                        &&& helpers@[j].symbol == SymbolRef { owner: id, symbol: exports@[j].symbol }
                    },
            decreases exports@.len() - i,
        {
            helpers.push(
                RuntimeHelper {
                    name: exports[i].name.clone(),
                    symbol: SymbolRef { owner: id, symbol: exports[i].symbol },
                },
            );
            i = i + 1;
        }
        RuntimeModuleBrief { id, helpers }
    }

    /// The symbol of the first helper of this name.
    pub fn resolve_symbol(&self, name: &String) -> (symbol: Option<SymbolRef>)
        ensures
            symbol matches Some(found) ==> exists|i: int|
                0 <= i < self.helpers@.len() && (#[trigger] self.helpers@[i]).name@ == name@
                    && self.helpers@[i].symbol == found && forall|j: int|
                    0 <= j < i ==> (#[trigger] self.helpers@[j]).name@ != name@,
            symbol is None ==> forall|i: int|
                0 <= i < self.helpers@.len() ==> (#[trigger] self.helpers@[i]).name@ != name@,
    {
        let mut i: usize = 0;
        while i < self.helpers.len()
            invariant
                i <= self.helpers@.len(),
                forall|j: int| 0 <= j < i ==> (#[trigger] self.helpers@[j]).name@ != name@,
            decreases self.helpers@.len() - i,
        {
            if self.helpers[i].name == *name {
                return Some(self.helpers[i].symbol);
            }
            i = i + 1;
        }
        None
    }
}

} // verus!
