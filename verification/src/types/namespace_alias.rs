use crate::types::linking_metadata::ResolvedExport;
use crate::types::module_id::ModuleId;
use crate::types::symbols::SymbolRef;
use vstd::prelude::*;

verus! {

/// One property of a namespace object.
#[derive(Debug)]
pub struct NamespaceMember {
    pub name: String,
    pub symbol: SymbolRef,
}

/// The namespace object that a module has of another: the exports of `target`
/// that can be imported, under their names.
#[derive(Debug)]
pub struct NamespaceAlias {
    pub target: ModuleId,
    pub members: Vec<NamespaceMember>,
}

/// The members of the namespace object of a module with this export surface:
/// its names that are not ambiguous, in the order of the surface.
pub open spec fn members_of(surface: Seq<ResolvedExport>) -> Seq<NamespaceMember>
    decreases surface.len(),
{
    if surface.len() == 0 {
        Seq::empty()
    } else {
        let before = members_of(surface.drop_last());
        if surface.last().ambiguous {
            before
        } else {
            before.push(NamespaceMember { name: surface.last().name, symbol: surface.last().origin })
        }
    }
}

/// Whether `member` is the entry of the surface under its name, and the name is
/// not ambiguous.
pub open spec fn is_member(surface: Seq<ResolvedExport>, member: NamespaceMember) -> bool {
    exists|j: int|
        0 <= j < surface.len() && !(#[trigger] surface[j]).ambiguous && surface[j].name
            == member.name && surface[j].origin == member.symbol
}

/// A namespace object holds the names of the surface that are not ambiguous,
/// and no others.
pub proof fn lemma_members(surface: Seq<ResolvedExport>)
    ensures
        forall|i: int|
            0 <= i < members_of(surface).len() ==> is_member(
                surface,
                #[trigger] members_of(surface)[i],
            ),
        forall|j: int|
            0 <= j < surface.len() && !(#[trigger] surface[j]).ambiguous ==> members_of(
                surface,
            ).contains(NamespaceMember { name: surface[j].name, symbol: surface[j].origin }),
    decreases surface.len(),
{
    if surface.len() > 0 {
        let earlier = surface.drop_last();
        let last = surface.len() - 1;
        lemma_members(earlier);
        let before = members_of(earlier);
        let after = members_of(surface);
        assert forall|i: int| 0 <= i < after.len() implies is_member(surface, #[trigger] after[i]) by {
            if i < before.len() {
                assert(after[i] == before[i]);
                assert(is_member(earlier, before[i]));
                let j = choose|j: int|
                    0 <= j < earlier.len() && !(#[trigger] earlier[j]).ambiguous && earlier[j].name
                        == before[i].name && earlier[j].origin == before[i].symbol;
                assert(surface[j] == earlier[j]);
            } else {
                assert(!surface[last].ambiguous);
            }
        }
        assert forall|j: int| 0 <= j < surface.len() && !(#[trigger] surface[j]).ambiguous implies after.contains(
            NamespaceMember { name: surface[j].name, symbol: surface[j].origin },
        ) by {
            let member = NamespaceMember { name: surface[j].name, symbol: surface[j].origin };
            if j < last {
                assert(earlier[j] == surface[j]);
                assert(before.contains(member));
                let i = choose|i: int| 0 <= i < before.len() && before[i] == member;
                assert(after[i] == member);
            } else {
                assert(after.last() == member);
            }
        }
    }
}

/// The modules that a list of namespace objects stands for.
pub open spec fn targets_of(namespaces: Seq<NamespaceAlias>) -> Seq<usize> {
    namespaces.map_values(|alias: NamespaceAlias| alias.target.raw)
}

/// Asking for the namespace object of `target` where objects exist for
/// `targets`: the object that exists already, or a new one after the others.
pub open spec fn request(targets: Seq<usize>, target: usize) -> (Seq<usize>, int) {
    match targets.index_of_first(target) {
        Some(index) => (targets, index),
        None => (targets.push(target), targets.len() as int),
    }
}

/// Asking twice for the namespace object of one module gives the same object,
/// and the second request adds nothing.
pub proof fn lemma_request_idempotent(targets: Seq<usize>, target: usize)
    ensures
        request(request(targets, target).0, target) == request(targets, target),
{
    targets.index_of_first_ensures(target);
    let after = request(targets, target).0;
    after.index_of_first_ensures(target);
    if targets.index_of_first(target) is None {
        assert(after[targets.len() as int] == target);
        let again = after.index_of_first(target).unwrap();
        if again < targets.len() {
            assert(targets[again] == target);
        }
    }
}

/// A request leaves the objects that exist where they are.
pub proof fn lemma_request_keeps(targets: Seq<usize>, target: usize)
    ensures
        request(targets, target).0.len() >= targets.len(),
        forall|i: int| 0 <= i < targets.len() ==> request(targets, target).0[i] == targets[i],
        0 <= request(targets, target).1 < request(targets, target).0.len(),
        request(targets, target).0[request(targets, target).1] == target,
        targets.no_duplicates() ==> request(targets, target).0.no_duplicates(),
{
    targets.index_of_first_ensures(target);
}

/// The members of the namespace object of a module with this export surface.
pub fn collect_members(surface: &Vec<ResolvedExport>) -> (members: Vec<NamespaceMember>)
    ensures
        members@ == members_of(surface@),
{
    let mut members: Vec<NamespaceMember> = Vec::new();
    let mut i: usize = 0;
    while i < surface.len()
        invariant
            i <= surface@.len(),
            members@ == members_of(surface@.take(i as int)),
        decreases surface@.len() - i,
    {
        assert(surface@.take(i + 1).drop_last() == surface@.take(i as int));
        if !surface[i].ambiguous {
            members.push(
                NamespaceMember { name: surface[i].name.clone(), symbol: surface[i].origin },
            );
        }
        i = i + 1;
    }
    assert(surface@.take(i as int) == surface@);
    members
}

/// The namespace object of `target` among `namespaces`, made from `surface` if
/// there is none yet.
pub fn namespace_for(
    namespaces: &mut Vec<NamespaceAlias>,
    target: ModuleId,
    surface: &Vec<ResolvedExport>,
) -> (id: usize)
    ensures
        (targets_of(final(namespaces)@), id as int) == request(
            targets_of(old(namespaces)@),
            target.raw,
        ),
        final(namespaces)@.len() >= old(namespaces)@.len(),
        forall|i: int|
            0 <= i < old(namespaces)@.len() ==> final(namespaces)@[i] == old(namespaces)@[i],
        final(namespaces)@.len() > old(namespaces)@.len() ==> {
            &&& final(namespaces)@.len() == old(namespaces)@.len() + 1
            &&& final(namespaces)@.last().target == target
            &&& final(namespaces)@.last().members@ == members_of(surface@)
        },
{
    let ghost before = targets_of(namespaces@);
    proof {
        before.index_of_first_ensures(target.raw);
    }
    let mut i: usize = 0;
    while i < namespaces.len()
        invariant
            i <= namespaces@.len(),
            before == targets_of(namespaces@),
            forall|j: int| 0 <= j < i ==> before[j] != target.raw,
        decreases namespaces@.len() - i,
    {
        if namespaces[i].target.raw == target.raw {
            proof {
                assert(before[i as int] == target.raw);
                assert(before.contains(target.raw));
                before.index_of_first_ensures(target.raw);
                let first = before.index_of_first(target.raw).unwrap();
                if first < i {
                    assert(before[first] != target.raw);
                }
            }
            return i;
        }
        i = i + 1;
    }
    let members = collect_members(surface);
    namespaces.push(NamespaceAlias { target, members });
    assert(targets_of(namespaces@) =~= before.push(target.raw));
    i
}

} // verus!
