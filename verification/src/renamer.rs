//! Final names: every identity that reaches the output scope gets a name that
//! no other has.

use vstd::prelude::*;
use vstd::set_lib::lemma_len_subset;

verus! {

/// The decimal digit for a number below ten.
pub open spec fn digit(value: nat) -> char {
    if value == 0 {
        '0'
    } else if value == 1 {
        '1'
    } else if value == 2 {
        '2'
    } else if value == 3 {
        '3'
    } else if value == 4 {
        '4'
    } else if value == 5 {
        '5'
    } else if value == 6 {
        '6'
    } else if value == 7 {
        '7'
    } else if value == 8 {
        '8'
    } else {
        '9'
    }
}

/// A number in decimal digits, without leading zeros.
pub open spec fn decimal(value: nat) -> Seq<char>
    decreases value,
{
    if value < 10 {
        seq![digit(value)]
    } else {
        decimal(value / 10).push(digit(value % 10))
    }
}

fn digit_text(value: usize) -> (text: &'static str)
    requires
        value < 10,
    ensures
        text@ == seq![digit(value as nat)],
{
    proof {
        reveal_strlit("0");
        reveal_strlit("1");
        reveal_strlit("2");
        reveal_strlit("3");
        reveal_strlit("4");
        reveal_strlit("5");
        reveal_strlit("6");
        reveal_strlit("7");
        reveal_strlit("8");
        reveal_strlit("9");
    }
    let text = if value == 0 {
        "0"
    } else if value == 1 {
        "1"
    } else if value == 2 {
        "2"
    } else if value == 3 {
        "3"
    } else if value == 4 {
        "4"
    } else if value == 5 {
        "5"
    } else if value == 6 {
        "6"
    } else if value == 7 {
        "7"
    } else if value == 8 {
        "8"
    } else {
        "9"
    };
    assert(text@ =~= seq![digit(value as nat)]);
    text
}

/// A number in decimal digits.
pub fn decimal_text(value: usize) -> (text: String)
    ensures
        text@ == decimal(value as nat),
    decreases value,
{
    if value < 10 {
        digit_text(value).to_owned()
    } else {
        let mut text = decimal_text(value / 10);
        text.append(digit_text(value % 10));
        assert(text@ =~= decimal((value / 10) as nat).push(digit((value % 10) as nat)));
        text
    }
}

/// The names that are tried for an identity, one after the other: its own
/// name, then the name with `$` and the number of its module, then that with
/// one more `_` at each attempt.
pub open spec fn candidate(base: Seq<char>, owner: nat, attempt: nat) -> Seq<char> {
    if attempt == 0 {
        base
    } else {
        base + seq!['$'] + decimal(owner) + Seq::new((attempt - 1) as nat, |i: int| '_')
    }
}

/// Whether `attempt` is the first whose candidate is not among `used`.
pub open spec fn first_free(
    base: Seq<char>,
    owner: nat,
    used: Seq<Seq<char>>,
    attempt: nat,
) -> bool {
    &&& !used.contains(candidate(base, owner, attempt))
    &&& forall|earlier: nat|
        earlier < attempt ==> used.contains(#[trigger] candidate(base, owner, earlier))
}

/// The first candidate that is not among `used`.
pub open spec fn fresh(base: Seq<char>, owner: nat, used: Seq<Seq<char>>) -> Seq<char> {
    candidate(base, owner, choose|attempt: nat| first_free(base, owner, used, attempt))
}

/// Later candidates are longer, so no two candidates are the same.
proof fn lemma_candidates_differ(base: Seq<char>, owner: nat, first: nat, second: nat)
    requires
        first < second,
    ensures
        candidate(base, owner, first).len() < candidate(base, owner, second).len(),
{
}

/// Candidates that are all among `used` are at most as many as `used` has names.
proof fn lemma_candidates_bounded(base: Seq<char>, owner: nat, used: Seq<Seq<char>>, count: nat)
    requires
        forall|attempt: nat|
            attempt < count ==> used.contains(#[trigger] candidate(base, owner, attempt)),
    ensures
        count <= used.len(),
{
    let tried = Seq::new(count, |attempt: int| candidate(base, owner, attempt as nat));
    assert(tried.no_duplicates()) by {
        assert forall|i: int, j: int| 0 <= i < tried.len() && 0 <= j < tried.len() && i != j implies tried[i]
            != tried[j] by {
            if i < j {
                lemma_candidates_differ(base, owner, i as nat, j as nat);
            } else {
                lemma_candidates_differ(base, owner, j as nat, i as nat);
            }
        }
    }
    tried.unique_seq_to_set();
    used.lemma_cardinality_of_set();
    assert(tried.to_set().subset_of(used.to_set())) by {
        assert forall|name: Seq<char>| tried.to_set().contains(name) implies used.to_set().contains(
            name,
        ) by {
            let i = choose|i: int| 0 <= i < tried.len() && tried[i] == name;
            assert(used.contains(candidate(base, owner, i as nat)));
        }
    }
    lemma_len_subset(tried.to_set(), used.to_set());
}

/// The names as sequences of characters.
pub open spec fn texts(names: Seq<String>) -> Seq<Seq<char>> {
    Seq::new(names.len(), |i: int| names[i]@)
}

fn is_used(used: &Vec<String>, name: &String) -> (found: bool)
    ensures
        found == texts(used@).contains(name@),
{
    let mut i: usize = 0;
    while i < used.len()
        invariant
            i <= used@.len(),
            forall|j: int| 0 <= j < i ==> texts(used@)[j] != name@,
        decreases used@.len() - i,
    {
        if used[i] == *name {
            assert(texts(used@)[i as int] == name@);
            return true;
        }
        i = i + 1;
    }
    false
}

/// The first candidate for `base` in module `owner` that is not among `used`.
pub fn fresh_name(base: &String, owner: usize, used: &Vec<String>) -> (name: String)
    ensures
        name@ == fresh(base@, owner as nat, texts(used@)),
        !texts(used@).contains(name@),
{
    let ghost taken = texts(used@);
    let mut name = base.clone();
    let mut attempt: usize = 0;
    while is_used(used, &name)
        invariant
            taken == texts(used@),
            name@ == candidate(base@, owner as nat, attempt as nat),
            forall|earlier: nat|
                earlier < attempt ==> taken.contains(
                    #[trigger] candidate(base@, owner as nat, earlier),
                ),
            attempt <= used@.len(),
        decreases used@.len() - attempt,
    {
        proof {
            lemma_candidates_bounded(base@, owner as nat, taken, (attempt + 1) as nat);
            assert(taken.len() == used@.len());
            assert(used.len() == used@.len());
            reveal_strlit("$");
            reveal_strlit("_");
        }
        if attempt == 0 {
            name.append("$");
            let number = decimal_text(owner);
            name.append(number.as_str());
            assert(name@ =~= candidate(base@, owner as nat, 1));
        } else {
            name.append("_");
            assert(name@ =~= candidate(base@, owner as nat, (attempt + 1) as nat));
        }
        attempt = attempt + 1;
    }
    proof {
        assert(first_free(base@, owner as nat, taken, attempt as nat));
        let chosen = choose|a: nat| first_free(base@, owner as nat, taken, a);
        if chosen < attempt {
            assert(taken.contains(candidate(base@, owner as nat, chosen)));
        }
        if attempt < chosen {
            assert(taken.contains(candidate(base@, owner as nat, attempt as nat)));
        }
    }
    name
}

/// The final names given to the identities among the first `upto` that take
/// part, in order.
pub open spec fn taken_names(
    names: Seq<Seq<char>>,
    owners: Seq<nat>,
    eligible: Seq<bool>,
    upto: nat,
) -> Seq<Seq<char>>
    decreases upto,
{
    if upto == 0 {
        Seq::empty()
    } else {
        let before = taken_names(names, owners, eligible, (upto - 1) as nat);
        if eligible[upto - 1] {
            before.push(fresh(names[upto - 1], owners[upto - 1], before))
        } else {
            before
        }
    }
}

/// The final name of identity `index`: for one that takes part, the first
/// candidate that no earlier identity was given; for another, its own name.
pub open spec fn final_name(
    names: Seq<Seq<char>>,
    owners: Seq<nat>,
    eligible: Seq<bool>,
    index: int,
) -> Seq<char> {
    if eligible[index] {
        fresh(names[index], owners[index], taken_names(names, owners, eligible, index as nat))
    } else {
        names[index]
    }
}

/// Some attempt gives a name that is not among `used`.
proof fn lemma_fresh_is_free(base: Seq<char>, owner: nat, used: Seq<Seq<char>>)
    ensures
        !used.contains(fresh(base, owner, used)),
        used.len() == 0 ==> fresh(base, owner, used) == base,
        !used.contains(base) ==> fresh(base, owner, used) == base,
{
    lemma_first_free_exists(base, owner, used, 0);
    let chosen = choose|a: nat| first_free(base, owner, used, a);
    if !used.contains(base) {
        assert(first_free(base, owner, used, 0));
        if chosen > 0 {
            assert(used.contains(candidate(base, owner, 0)));
        }
    }
}

proof fn lemma_first_free_exists(base: Seq<char>, owner: nat, used: Seq<Seq<char>>, from: nat)
    requires
        forall|earlier: nat| earlier < from ==> used.contains(#[trigger] candidate(base, owner, earlier)),
    ensures
        exists|attempt: nat| first_free(base, owner, used, attempt),
    decreases used.len() + 1 - from,
{
    lemma_candidates_bounded(base, owner, used, from);
    if used.contains(candidate(base, owner, from)) {
        lemma_candidates_bounded(base, owner, used, from + 1);
        lemma_first_free_exists(base, owner, used, from + 1);
    } else {
        assert(first_free(base, owner, used, from));
    }
}

/// The name given to an identity that takes part is among the names taken
/// from then on.
proof fn lemma_taken_holds(
    names: Seq<Seq<char>>,
    owners: Seq<nat>,
    eligible: Seq<bool>,
    index: int,
    upto: nat,
)
    requires
        0 <= index < upto,
        eligible[index],
    ensures
        taken_names(names, owners, eligible, upto).contains(
            final_name(names, owners, eligible, index),
        ),
    decreases upto,
{
    let before = taken_names(names, owners, eligible, (upto - 1) as nat);
    let after = taken_names(names, owners, eligible, upto);
    if index == upto - 1 {
        assert(after.last() == final_name(names, owners, eligible, index));
    } else {
        lemma_taken_holds(names, owners, eligible, index, (upto - 1) as nat);
        let at = choose|i: int|
            0 <= i < before.len() && before[i] == final_name(names, owners, eligible, index);
        assert(after[at] == before[at]);
    }
}

/// No two identities that take part are given the same final name.
pub proof fn lemma_final_names_distinct(
    names: Seq<Seq<char>>,
    owners: Seq<nat>,
    eligible: Seq<bool>,
    first: int,
    second: int,
)
    requires
        0 <= first < second,
        eligible[first],
        eligible[second],
    ensures
        final_name(names, owners, eligible, first) != final_name(names, owners, eligible, second),
{
    lemma_taken_holds(names, owners, eligible, first, second as nat);
    lemma_fresh_is_free(
        names[second],
        owners[second],
        taken_names(names, owners, eligible, second as nat),
    );
}

/// An identity keeps its own name unless an earlier identity was given that name.
pub proof fn lemma_final_name_kept(
    names: Seq<Seq<char>>,
    owners: Seq<nat>,
    eligible: Seq<bool>,
    index: int,
)
    requires
        0 <= index,
        !taken_names(names, owners, eligible, index as nat).contains(names[index]),
    ensures
        final_name(names, owners, eligible, index) == names[index],
{
    lemma_fresh_is_free(
        names[index],
        owners[index],
        taken_names(names, owners, eligible, index as nat),
    );
}

/// Gives every identity its final name. The identities that take part are named
/// in order, each with the first of its candidates that none before it was given.
pub fn assign_names(names: &Vec<String>, owners: &Vec<usize>, eligible: &Vec<bool>) -> (finals:
    Vec<String>)
    requires
        owners@.len() == names@.len(),
        eligible@.len() == names@.len(),
    ensures
        finals@.len() == names@.len(),
        forall|h: int|
            0 <= h < names@.len() ==> (#[trigger] finals@[h])@ == final_name(
                texts(names@),
                owners@.map_values(|owner: usize| owner as nat),
                eligible@,
                h,
            ),
{
    let ghost given = texts(names@);
    let ghost modules = owners@.map_values(|owner: usize| owner as nat);
    let mut finals: Vec<String> = Vec::new();
    let mut used: Vec<String> = Vec::new();
    let mut h: usize = 0;
    while h < names.len()
        invariant
            owners@.len() == names@.len(),
            eligible@.len() == names@.len(),
            given == texts(names@),
            modules == owners@.map_values(|owner: usize| owner as nat),
            h <= names@.len(),
            finals@.len() == h,
            texts(used@) == taken_names(given, modules, eligible@, h as nat),
            forall|g: int|
                0 <= g < h ==> (#[trigger] finals@[g])@ == final_name(given, modules, eligible@, g),
        decreases names@.len() - h,
    {
        if eligible[h] {
            let name = fresh_name(&names[h], owners[h], &used);
            used.push(name.clone());
            finals.push(name);
            assert(texts(used@) =~= taken_names(given, modules, eligible@, (h + 1) as nat));
        } else {
            finals.push(names[h].clone());
        }
        h = h + 1;
    }
    finals
}

} // verus!
