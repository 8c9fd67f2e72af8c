use crate::types::module_id::ModuleId;
use vstd::prelude::*;

verus! {

/// A module that the user asked to bundle, under the name the user gave it.
#[derive(Debug)]
pub struct EntryPoint {
    pub name: Option<String>,
    pub id: ModuleId,
}

} // verus!
