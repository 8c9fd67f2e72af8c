use vstd::prelude::*;

verus! {

/// What resolving one specifier gave: the canonical path of the module, whether
/// it is left out of the bundle, and what plugins attached to it.
#[derive(Debug)]
pub struct ResolvedRequestInfo {
    pub path: String,
    pub is_external: bool,
    pub side_data: Vec<u8>,
}

} // verus!
