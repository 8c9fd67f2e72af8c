use vstd::prelude::*;

verus! {

/// One entry of the bundle: an optional name and the specifier to start from.
#[derive(Debug)]
pub struct InputItem {
    pub name: Option<String>,
    pub import: String,
}

/// What the user asked to bundle.
#[derive(Debug)]
pub struct InputOptions {
    pub input: Vec<InputItem>,
}

} // verus!
