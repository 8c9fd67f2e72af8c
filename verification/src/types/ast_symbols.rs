use vstd::prelude::*;

verus! {

/// Index of a symbol in the symbol table of its module.
pub type SymbolId = usize;

/// Index of a scope in the scope tree of its module.
pub type ScopeId = usize;

/// A binding of one module.
#[derive(Debug)]
pub struct Symbol {
    pub name: String,
    /// The scope that owns the symbol.
    pub scope: ScopeId,
    /// The symbol is bound by an import and has no initializer of its own.
    pub import_binding: bool,
    pub mutable: bool,
    pub exported: bool,
    /// The symbol stands for an export that has no declaration in this module.
    /// No reference can name it.
    pub placeholder: bool,
}

impl Symbol {
    /// The same symbol, marked as exported.
    pub open spec fn as_exported(self) -> Symbol {
        Symbol { exported: true, ..self }
    }

    /// The same symbol, marked as exported.
    pub fn to_exported(&self) -> (symbol: Symbol)
        ensures
            symbol == self.as_exported(),
    {
        Symbol {
            name: self.name.clone(),
            scope: self.scope,
            import_binding: self.import_binding,
            mutable: self.mutable,
            exported: true,
            placeholder: self.placeholder,
        }
    }
}

/// Whether symbol `index` is a visible binding of `name` in `scope`.
pub open spec fn binds(symbols: Seq<Symbol>, scope: ScopeId, name: Seq<char>, index: int) -> bool {
    &&& 0 <= index < symbols.len()
    &&& symbols[index].scope == scope
    &&& !symbols[index].placeholder
    &&& symbols[index].name@ == name
}

/// The first visible binding of `name` in `scope`.
pub open spec fn declared_in(symbols: Seq<Symbol>, scope: ScopeId, name: Seq<char>) -> Option<
    SymbolId,
> {
    if exists|i: int| binds(symbols, scope, name, i) {
        Some(
            (choose|i: int|
                binds(symbols, scope, name, i) && forall|j: int|
                    0 <= j < i ==> !binds(symbols, scope, name, j)) as usize,
        )
    } else {
        None
    }
}

/// The first visible binding of `name` in `scope`.
pub fn find_declared(symbols: &Vec<Symbol>, scope: ScopeId, name: &String) -> (found: Option<
    SymbolId,
>)
    ensures
        found == declared_in(symbols@, scope, name@),
        found matches Some(i) ==> binds(symbols@, scope, name@, i as int),
        found is None ==> forall|j: int| !binds(symbols@, scope, name@, j),
{
    let mut i: usize = 0;
    while i < symbols.len()
        invariant
            i <= symbols@.len(),
            forall|j: int| 0 <= j < i ==> !binds(symbols@, scope, name@, j),
        decreases symbols@.len() - i,
    {
        if symbols[i].scope == scope && !symbols[i].placeholder && symbols[i].name == *name {
            proof {
                lemma_first_binding(symbols@, scope, name@, i as int);
            }
            return Some(i);
        }
        i = i + 1;
    }
    None
}

/// The binding before which there is no other is the one that `declared_in` names.
pub proof fn lemma_first_binding(symbols: Seq<Symbol>, scope: ScopeId, name: Seq<char>, index: int)
    requires
        binds(symbols, scope, name, index),
        forall|j: int| 0 <= j < index ==> !binds(symbols, scope, name, j),
    ensures
        declared_in(symbols, scope, name) == Some(index as usize),
{
    let chosen = choose|i: int|
        binds(symbols, scope, name, i) && forall|j: int|
            0 <= j < i ==> !binds(symbols, scope, name, j);
    assert(binds(symbols, scope, name, chosen));
    if chosen < index {
        assert(!binds(symbols, scope, name, chosen));
    }
    if index < chosen {
        assert(!binds(symbols, scope, name, index));
    }
}

} // verus!
