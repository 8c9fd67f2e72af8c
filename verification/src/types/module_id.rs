use vstd::prelude::*;

verus! {

/// Dense handle of a module, stable for the lifetime of one scan.
///
/// Handles are given out in the order in which paths are claimed, starting at zero.
#[derive(Clone, Copy, Debug, PartialEq, Eq, PartialOrd, Ord, Hash)]
pub struct ModuleId {
    pub raw: usize,
}

impl index_vec::Idx for ModuleId {
    fn from_usize(idx: usize) -> (id: Self)
        ensures
            id.raw == idx,
    {
        ModuleId { raw: idx }
    }

    fn index(self) -> (idx: usize)
        ensures
            idx == self.raw,
    {
        self.raw
    }
}

impl ModuleId {
    /// The handle with this number.
    pub fn new(raw: usize) -> (id: ModuleId)
        ensures
            id.raw == raw,
    {
        ModuleId { raw }
    }
}

} // verus!
