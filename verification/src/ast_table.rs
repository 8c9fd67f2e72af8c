//! The table of syntax trees, indexed by module.

use crate::types::module_id::ModuleId;
use crate::types::syntax_tree::SyntaxTree;
use vstd::prelude::*;

verus! {

/// The syntax tree of every module that has one, under the handle of the module.
///
/// The trees are kept in an `index_vec::IndexVec`, which Verus does not look
/// into: what the table holds is known through `ast_entries` alone.
#[verifier::external_body]
#[derive(Debug)]
pub struct AstTable {
    inner: index_vec::IndexVec<ModuleId, Option<SyntaxTree>>,
}

/// The entries of the table, in the order of the handles.
pub uninterp spec fn ast_entries(table: AstTable) -> Seq<Option<SyntaxTree>>;

/// `IndexVec::new`: a table without entries.
#[verifier::external_body]
pub(crate) fn table_new() -> (table: AstTable)
    ensures
        ast_entries(table) == Seq::<Option<SyntaxTree>>::empty(),
{
    AstTable { inner: index_vec::IndexVec::new() }
}

/// `IndexSlice::len`: the number of entries.
#[verifier::external_body]
pub(crate) fn table_len(table: &AstTable) -> (len: usize)
    ensures
        len == ast_entries(*table).len(),
{
    table.inner.len()
}

/// `IndexVec::push`: adds an entry after the others and returns its handle,
/// which is the number of entries that the table had.
#[verifier::external_body]
pub(crate) fn table_push(table: &mut AstTable, entry: Option<SyntaxTree>) -> (id: ModuleId)
    ensures
        ast_entries(*final(table)) == ast_entries(*old(table)).push(entry),
        id.raw == ast_entries(*old(table)).len(),
{
    table.inner.push(entry)
}

/// `IndexSlice::index_mut`: replaces the entry under a handle that the table
/// holds. The other entries stay.
#[verifier::external_body]
pub(crate) fn table_set(table: &mut AstTable, id: ModuleId, entry: Option<SyntaxTree>)
    requires
        id.raw < ast_entries(*old(table)).len(),
    ensures
        ast_entries(*final(table)) == ast_entries(*old(table)).update(id.raw as int, entry),
{
    table.inner[id] = entry;
}

/// `IndexSlice::get`: the entry under a handle, or nothing where the table has
/// no such handle.
#[verifier::external_body]
pub(crate) fn table_get(table: &AstTable, id: ModuleId) -> (entry: Option<&Option<SyntaxTree>>)
    ensures
        entry matches Some(found) ==> id.raw < ast_entries(*table).len() && *found == ast_entries(
            *table,
        )[id.raw as int],
        entry is None ==> id.raw >= ast_entries(*table).len(),
{
    table.inner.get(id)
}

impl AstTable {
    /// A table without entries.
    pub fn new() -> (table: AstTable)
        ensures
            ast_entries(table).len() == 0,
    {
        table_new()
    }

    /// The number of modules that the table has an entry for.
    pub fn len(&self) -> (len: usize)
        ensures
            len == ast_entries(*self).len(),
    {
        table_len(self)
    }

    /// The syntax tree of a module, where the table has one.
    pub fn syntax_tree(&self, id: ModuleId) -> (tree: Option<&SyntaxTree>)
        ensures
            tree matches Some(found) ==> id.raw < ast_entries(*self).len() && ast_entries(
                *self,
            )[id.raw as int] == Some(*found),
            tree is None ==> id.raw >= ast_entries(*self).len() || ast_entries(
                *self,
            )[id.raw as int] is None,
    {
        match table_get(self, id) {
            Some(entry) => match entry {
                Some(tree) => Some(tree),
                None => None,
            },
            None => None,
        }
    }
}

} // verus!
