use crate::types::ast_symbols::{declared_in, find_declared, ScopeId, Symbol, SymbolId};
use vstd::prelude::*;

verus! {

/// A lexical block. The outermost block of a module has no parent.
#[derive(Clone, Copy, Debug)]
pub struct Scope {
    pub parent: Option<ScopeId>,
}

/// Whether `scopes` is a tree rooted at scope zero in which every parent comes
/// before its children.
pub open spec fn scope_tree(scopes: Seq<Scope>) -> bool {
    &&& scopes.len() >= 1
    &&& scopes[0].parent is None
    &&& forall|s: int|
        1 <= s < scopes.len() ==> (#[trigger] scopes[s]).parent is Some
            && scopes[s].parent.unwrap() < s
}

/// The binding that a use of `name` in `scope` refers to: the one declared in
/// the nearest enclosing scope that declares the name.
pub open spec fn resolve_in(
    scopes: Seq<Scope>,
    symbols: Seq<Symbol>,
    scope: ScopeId,
    name: Seq<char>,
) -> Option<SymbolId>
    decreases scope,
{
    match declared_in(symbols, scope, name) {
        Some(symbol) => Some(symbol),
        None => if scope < scopes.len() && scopes[scope as int].parent is Some
            && scopes[scope as int].parent.unwrap() < scope {
            resolve_in(scopes, symbols, scopes[scope as int].parent.unwrap(), name)
        } else {
            None
        },
    }
}

/// The binding that a use of `name` in `scope` refers to.
pub fn resolve_reference(
    scopes: &Vec<Scope>,
    symbols: &Vec<Symbol>,
    scope: ScopeId,
    name: &String,
) -> (found: Option<SymbolId>)
    ensures
        found == resolve_in(scopes@, symbols@, scope, name@),
{
    let mut current: usize = scope;
    loop
        invariant
            resolve_in(scopes@, symbols@, current, name@) == resolve_in(
                scopes@,
                symbols@,
                scope,
                name@,
            ),
        decreases current,
    {
        let found = find_declared(symbols, current, name);
        if found.is_some() {
            return found;
        }
        if current >= scopes.len() {
            return None;
        }
        match scopes[current].parent {
            Some(parent) => {
                if parent < current {
                    current = parent;
                } else {
                    return None;
                }
            },
            None => {
                return None;
            },
        }
    }
}

} // verus!
