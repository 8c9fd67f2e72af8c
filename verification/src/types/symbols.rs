use crate::types::ast_symbols::{Symbol, SymbolId};
use crate::renamer::{assign_names, final_name, lemma_final_names_distinct, texts};
use crate::types::module_id::ModuleId;
use vstd::prelude::*;

verus! {

/// A symbol of some module.
#[derive(Clone, Copy, Debug)]
pub struct SymbolRef {
    pub owner: ModuleId,
    pub symbol: SymbolId,
}

/// The canonical handles after the identities of `a` and `b` are made one: every
/// handle that had the canonical handle of `a` or of `b` gets the smaller of the
/// two, every other handle keeps its own.
pub open spec fn merge(canonical: Seq<int>, a: int, b: int) -> Seq<int> {
    Seq::new(
        canonical.len(),
        |h: int|
            if canonical[h] == canonical[a] || canonical[h] == canonical[b] {
                if canonical[a] <= canonical[b] {
                    canonical[a]
                } else {
                    canonical[b]
                }
            } else {
                canonical[h]
            },
    )
}

/// Merging the same pair twice changes nothing more.
pub proof fn lemma_merge_idempotent(canonical: Seq<int>, a: int, b: int)
    requires
        0 <= a < canonical.len(),
        0 <= b < canonical.len(),
    ensures
        merge(merge(canonical, a, b), a, b) == merge(canonical, a, b),
{
    assert(merge(merge(canonical, a, b), a, b) =~= merge(canonical, a, b));
}

/// The two handles of a merge may be exchanged.
pub proof fn lemma_merge_symmetric(canonical: Seq<int>, a: int, b: int)
    requires
        0 <= a < canonical.len(),
        0 <= b < canonical.len(),
    ensures
        merge(canonical, a, b) == merge(canonical, b, a),
{
    assert(merge(canonical, a, b) =~= merge(canonical, b, a));
}

/// Two merges give the same canonical handles in either order.
pub proof fn lemma_merge_order_independent(canonical: Seq<int>, a: int, b: int, c: int, d: int)
    requires
        0 <= a < canonical.len(),
        0 <= b < canonical.len(),
        0 <= c < canonical.len(),
        0 <= d < canonical.len(),
    ensures
        merge(merge(canonical, a, b), c, d) == merge(merge(canonical, c, d), a, b),
{
    assert(merge(merge(canonical, a, b), c, d) =~= merge(merge(canonical, c, d), a, b));
}

/// The root that `handle` leads to in a forest in which no parent is larger than its child.
pub open spec fn root_of(parents: Seq<usize>, handle: int) -> int
    decreases handle,
{
    if 0 <= handle < parents.len() && parents[handle] < handle {
        root_of(parents, parents[handle] as int)
    } else {
        handle
    }
}

/// Whether no handle has a parent larger than itself.
pub open spec fn forest(parents: Seq<usize>) -> bool {
    forall|h: int| 0 <= h < parents.len() ==> #[trigger] parents[h] <= h
}

proof fn lemma_root_is_root(parents: Seq<usize>, handle: int)
    requires
        forest(parents),
        0 <= handle < parents.len(),
    ensures
        0 <= root_of(parents, handle) <= handle,
        parents[root_of(parents, handle)] == root_of(parents, handle),
        root_of(parents, root_of(parents, handle)) == root_of(parents, handle),
    decreases handle,
{
    if parents[handle] < handle {
        lemma_root_is_root(parents, parents[handle] as int);
    }
}

proof fn lemma_link_roots(parents: Seq<usize>, low: int, high: int, handle: int)
    requires
        forest(parents),
        0 <= low < high < parents.len(),
        parents[low] == low,
        parents[high] == high,
        0 <= handle < parents.len(),
    ensures
        root_of(parents.update(high, low as usize), handle) == if root_of(parents, handle)
            == high {
            low
        } else {
            root_of(parents, handle)
        },
    decreases handle,
{
    let linked = parents.update(high, low as usize);
    if handle == high {
        assert(linked[high] == low);
        assert(root_of(linked, low) == low);
    } else if parents[handle] < handle {
        lemma_link_roots(parents, low, high, parents[handle] as int);
        assert(linked[handle] == parents[handle]);
    } else {
        assert(linked[handle] == parents[handle]);
    }
}

/// The registry of all symbols of all modules.
///
/// Every symbol has a handle, and every handle has a canonical handle: the
/// smallest handle among those that were merged with it. Symbols that name the
/// same declaration through imports and re-exports share one canonical handle.
#[derive(Debug)]
pub struct Symbols {
    /// The first handle of each module, and the number of handles after the last.
    offsets: Vec<usize>,
    parents: Vec<usize>,
    origins: Vec<SymbolRef>,
    names: Vec<String>,
    top_level: Vec<bool>,
    final_names: Vec<String>,
}

impl View for Symbols {
    type V = Seq<int>;

    /// The canonical handle of each handle.
    closed spec fn view(&self) -> Seq<int> {
        Seq::new(self.parents@.len(), |h: int| root_of(self.parents@, h))
    }
}

impl Symbols {
    /// The number of modules whose symbols were added.
    pub closed spec fn modules(self) -> nat {
        (self.offsets@.len() - 1) as nat
    }

    /// The first handle of module `module`; for the number of modules, the number of handles.
    pub closed spec fn offset(self, module: int) -> int {
        self.offsets@[module] as int
    }

    /// The symbol that each handle stands for.
    pub closed spec fn origins(self) -> Seq<SymbolRef> {
        self.origins@
    }

    /// The declared name of each handle.
    pub closed spec fn names(self) -> Seq<String> {
        self.names@
    }

    /// Whether each handle is declared in the outermost scope of its module.
    pub closed spec fn top_level(self) -> Seq<bool> {
        self.top_level@
    }

    /// The handle of a symbol, where the registry holds it.
    pub open spec fn handle_of(self, symbol: SymbolRef) -> Option<int> {
        if symbol.owner.raw < self.modules() && symbol.symbol < self.offset(symbol.owner.raw + 1int)
            - self.offset(symbol.owner.raw as int) {
            Some(self.offset(symbol.owner.raw as int) + symbol.symbol)
        } else {
            None
        }
    }

    /// Whether the registry is in order: the handles of each module follow those of
    /// the module before, and every handle leads to a canonical handle.
    pub closed spec fn wf(self) -> bool {
        &&& self.offsets@.len() >= 1
        &&& self.offsets@[0] == 0
        &&& forall|m: int, n: int|
            0 <= m <= n < self.offsets@.len() ==> self.offsets@[m] <= self.offsets@[n]
        &&& self.offsets@.last() == self.parents@.len()
        &&& self.origins@.len() == self.parents@.len()
        &&& self.names@.len() == self.parents@.len()
        &&& self.top_level@.len() == self.parents@.len()
        &&& forest(self.parents@)
        &&& forall|h: int|
            0 <= h < self.origins@.len() ==> {
                &&& (#[trigger] self.origins@[h]).owner.raw < self.offsets@.len() - 1
                &&& self.offsets@[self.origins@[h].owner.raw as int] + self.origins@[h].symbol == h
                &&& h < self.offsets@[self.origins@[h].owner.raw + 1]
            }
    }

    /// What well-formedness says of the public accessors.
    pub proof fn lemma_wf(self)
        requires
            self.wf(),
        ensures
            self@.len() == self.origins().len(),
            self@.len() == self.names().len(),
            self@.len() == self.top_level().len(),
            self.offset(0) == 0,
            self.offset(self.modules() as int) == self@.len(),
            forall|m: int, n: int|
                0 <= m <= n <= self.modules() ==> self.offset(m) <= self.offset(n),
            forall|h: int|
                0 <= h < self@.len() ==> self.handle_of(#[trigger] self.origins()[h]) == Some(h),
            forall|h: int|
                0 <= h < self@.len() ==> 0 <= #[trigger] self@[h] <= h && self@[self@[h]]
                    == self@[h],
    {
        assert forall|h: int| 0 <= h < self@.len() implies 0 <= #[trigger] self@[h] <= h
            && self@[self@[h]] == self@[h] by {
            lemma_root_is_root(self.parents@, h);
        }
    }

    /// A registry without modules.
    pub fn new() -> (symbols: Symbols)
        ensures
            symbols.wf(),
            symbols.modules() == 0,
            symbols@.len() == 0,
    {
        let mut offsets: Vec<usize> = Vec::new();
        offsets.push(0);
        Symbols {
            offsets,
            parents: Vec::new(),
            origins: Vec::new(),
            names: Vec::new(),
            top_level: Vec::new(),
            final_names: Vec::new(),
        }
    }

    /// The number of handles.
    pub fn len(&self) -> (len: usize)
        ensures
            len == self@.len(),
    {
        self.parents.len()
    }

    /// Adds the symbols of the next module, each as its own canonical handle.
    pub fn add_module(&mut self, symbols: &Vec<Symbol>) -> (module: ModuleId)
        requires
            old(self).wf(),
        ensures
            final(self).wf(),
            module.raw == old(self).modules(),
            final(self).modules() == old(self).modules() + 1,
            final(self)@ == old(self)@ + Seq::new(
                symbols@.len(),
                |s: int| old(self)@.len() + s,
            ),
            forall|m: int|
                0 <= m <= old(self).modules() ==> final(self).offset(m) == old(self).offset(m),
            final(self).offset(old(self).modules() + 1int) == old(self)@.len() + symbols@.len(),
            final(self).origins() == old(self).origins() + Seq::new(
                symbols@.len(),
                |s: int| SymbolRef { owner: module, symbol: s as usize },
            ),
            final(self).names() == old(self).names() + Seq::new(
                symbols@.len(),
                |s: int| symbols@[s].name,
            ),
            final(self).top_level() == old(self).top_level() + Seq::new(
                symbols@.len(),
                |s: int| symbols@[s].scope == 0,
            ),
    {
        let module = ModuleId { raw: self.offsets.len() - 1 };
        let base: usize = self.parents.len();
        let ghost before = *self;
        let mut s: usize = 0;
        while s < symbols.len()
            invariant
                before.wf(),
                s <= symbols@.len(),
                base == before.parents@.len(),
                module.raw == before.offsets@.len() - 1,
                self.offsets@ == before.offsets@,
                self.parents@ == before.parents@ + Seq::new(s as nat, |k: int| (base + k) as usize),
                self.origins@ == before.origins@ + Seq::new(
                    s as nat,
                    |k: int| SymbolRef { owner: module, symbol: k as usize },
                ),
                self.names@ == before.names@ + Seq::new(s as nat, |k: int| symbols@[k].name),
                self.top_level@ == before.top_level@ + Seq::new(
                    s as nat,
                    |k: int| symbols@[k].scope == 0,
                ),
            decreases symbols@.len() - s,
        {
            let handle: usize = self.parents.len();
            self.parents.push(handle);
            self.origins.push(SymbolRef { owner: module, symbol: s });
            self.names.push(symbols[s].name.clone());
            self.top_level.push(symbols[s].scope == 0);
            s = s + 1;
            assert(self.parents@ =~= before.parents@ + Seq::new(
                s as nat,
                |k: int| (base + k) as usize,
            ));
            assert(self.origins@ =~= before.origins@ + Seq::new(
                s as nat,
                |k: int| SymbolRef { owner: module, symbol: k as usize },
            ));
            assert(self.names@ =~= before.names@ + Seq::new(
                s as nat,
                |k: int| symbols@[k].name,
            ));
            assert(self.top_level@ =~= before.top_level@ + Seq::new(
                s as nat,
                |k: int| symbols@[k].scope == 0,
            ));
        }
        let end: usize = self.parents.len();
        self.offsets.push(end);
        proof {
            let count = symbols@.len();
            assert(forest(self.parents@));
            assert forall|h: int| 0 <= h < self.parents@.len() implies root_of(self.parents@, h)
                == (before@ + Seq::new(count, |k: int| before@.len() + k))[h] by {
                lemma_same_roots(before.parents@, self.parents@, h);
            }
            assert(self@ =~= before@ + Seq::new(count, |k: int| before@.len() + k));
        }
        module
    }

    /// The handle of a symbol, where the registry holds it.
    pub fn handle(&self, symbol: SymbolRef) -> (handle: Option<usize>)
        requires
            self.wf(),
        ensures
            handle matches Some(h) ==> self.handle_of(symbol) == Some(h as int) && h < self@.len(),
            handle is None ==> self.handle_of(symbol) is None,
    {
        if symbol.owner.raw < self.offsets.len() - 1 {
            let first: usize = self.offsets[symbol.owner.raw];
            let next: usize = self.offsets[symbol.owner.raw + 1];
            if symbol.symbol < next - first {
                return Some(first + symbol.symbol);
            }
        }
        None
    }

    /// The symbol that a handle stands for.
    pub fn origin(&self, handle: usize) -> (origin: SymbolRef)
        requires
            self.wf(),
            handle < self@.len(),
        ensures
            origin == self.origins()[handle as int],
    {
        self.origins[handle]
    }

    /// The canonical handle of a handle.
    pub fn canonical(&self, handle: usize) -> (root: usize)
        requires
            self.wf(),
            handle < self@.len(),
        ensures
            root == self@[handle as int],
            root <= handle,
    {
        let mut current: usize = handle;
        while self.parents[current] != current
            invariant
                self.wf(),
                current <= handle < self.parents@.len(),
                root_of(self.parents@, current as int) == root_of(self.parents@, handle as int),
            decreases current,
        {
            current = self.parents[current];
        }
        current
    }

    /// Makes the identities of two handles one. Handles that the registry does not
    /// hold are left alone.
    pub fn union(&mut self, a: usize, b: usize)
        requires
            old(self).wf(),
        ensures
            final(self).wf(),
            final(self)@ == if a < old(self)@.len() && b < old(self)@.len() {
                merge(old(self)@, a as int, b as int)
            } else {
                old(self)@
            },
            final(self).modules() == old(self).modules(),
            forall|m: int| final(self).offset(m) == old(self).offset(m),
            final(self).origins() == old(self).origins(),
            final(self).names() == old(self).names(),
            final(self).top_level() == old(self).top_level(),
    {
        if a >= self.parents.len() || b >= self.parents.len() {
            return ;
        }
        let root_a: usize = self.canonical(a);
        let root_b: usize = self.canonical(b);
        let ghost before = *self;
        proof {
            lemma_root_is_root(self.parents@, a as int);
            lemma_root_is_root(self.parents@, b as int);
        }
        if root_a == root_b {
            assert(self@ =~= merge(before@, a as int, b as int));
            return ;
        }
        let low: usize = if root_a < root_b { root_a } else { root_b };
        let high: usize = if root_a < root_b { root_b } else { root_a };
        self.parents.set(high, low);
        proof {
            assert(self.parents@ == before.parents@.update(high as int, low));
            assert forall|h: int| 0 <= h < self.parents@.len() implies root_of(self.parents@, h)
                == merge(before@, a as int, b as int)[h] by {
                lemma_link_roots(before.parents@, low as int, high as int, h);
                lemma_root_is_root(before.parents@, h);
            }
            assert(self@ =~= merge(before@, a as int, b as int));
        }
    }

    /// The name that each handle was given by the last naming.
    pub closed spec fn final_names(self) -> Seq<String> {
        self.final_names@
    }

    /// The number of the module of each handle.
    pub open spec fn owners(self) -> Seq<nat> {
        Seq::new(self.origins().len(), |h: int| self.origins()[h].owner.raw as nat)
    }

    /// Whether each handle takes part in naming: it is canonical, and declared in
    /// the outermost scope of its module.
    pub open spec fn takes_part(self) -> Seq<bool> {
        Seq::new(self@.len(), |h: int| self@[h] == h && self.top_level()[h])
    }

    /// Whether every handle has the final name that it is due as the registry
    /// stands: for a handle that takes part, the first of its candidates that
    /// no smaller handle was given; for another, its own name.
    pub open spec fn named(self) -> bool {
        &&& self.final_names().len() == self@.len()
        &&& forall|h: int|
            0 <= h < self@.len() ==> (#[trigger] self.final_names()[h])@ == final_name(
                texts(self.names()),
                self.owners(),
                self.takes_part(),
                h,
            )
    }

    /// Two canonical handles of outermost scopes never have the same final name.
    pub proof fn lemma_named_apart(self, first: int, second: int)
        requires
            self.wf(),
            self.named(),
            0 <= first < self@.len(),
            0 <= second < self@.len(),
            first != second,
            self.takes_part()[first],
            self.takes_part()[second],
        ensures
            self.final_names()[first]@ != self.final_names()[second]@,
    {
        if first < second {
            lemma_final_names_distinct(
                texts(self.names()),
                self.owners(),
                self.takes_part(),
                first,
                second,
            );
        } else {
            lemma_final_names_distinct(
                texts(self.names()),
                self.owners(),
                self.takes_part(),
                second,
                first,
            );
        }
    }

    /// Gives every handle its final name.
    pub fn assign_final_names(&mut self)
        requires
            old(self).wf(),
        ensures
            final(self).wf(),
            final(self).named(),
            final(self)@ == old(self)@,
            final(self).modules() == old(self).modules(),
            forall|m: int| final(self).offset(m) == old(self).offset(m),
            final(self).origins() == old(self).origins(),
            final(self).names() == old(self).names(),
            final(self).top_level() == old(self).top_level(),
    {
        let mut owners: Vec<usize> = Vec::new();
        let mut eligible: Vec<bool> = Vec::new();
        let mut h: usize = 0;
        while h < self.parents.len()
            invariant
                *self == *old(self),
                self.wf(),
                h <= self.parents@.len(),
                owners@.len() == h,
                eligible@.len() == h,
                forall|g: int| 0 <= g < h ==> owners@[g] == self.origins@[g].owner.raw,
                forall|g: int| 0 <= g < h ==> eligible@[g] == self.takes_part()[g],
            decreases self.parents@.len() - h,
        {
            let root: usize = self.canonical(h);
            owners.push(self.origins[h].owner.raw);
            eligible.push(root == h && self.top_level[h]);
            h = h + 1;
        }
        let finals = assign_names(&self.names, &owners, &eligible);
        proof {
            assert(owners@.map_values(|owner: usize| owner as nat) =~= self.owners());
            assert(eligible@ =~= self.takes_part());
        }
        self.final_names = finals;
    }

    /// The final name of a handle: the one that its canonical handle was given.
    pub fn final_name(&self, handle: usize) -> (name: &String)
        requires
            self.wf(),
            self.named(),
            handle < self@.len(),
        ensures
            *name == self.final_names()[self@[handle as int]],
    {
        let root: usize = self.canonical(handle);
        &self.final_names[root]
    }
}

proof fn lemma_same_roots(short: Seq<usize>, long: Seq<usize>, handle: int)
    requires
        forest(short),
        short.len() <= long.len(),
        forall|h: int| 0 <= h < short.len() ==> long[h] == short[h],
        forall|h: int| short.len() <= h < long.len() ==> long[h] == h,
        0 <= handle < long.len(),
    ensures
        root_of(long, handle) == if handle < short.len() {
            root_of(short, handle)
        } else {
            handle
        },
    decreases handle,
{
    if handle < short.len() && short[handle] < handle {
        lemma_same_roots(short, long, short[handle] as int);
    }
}

} // verus!
