//! Names for the interfaces that the annotation declares.
//!
//! Every interface of one file needs a name of its own. A name that is taken
//! gets a number behind it: the first of 2, 3, 4, .. that makes it free.

use vstd::prelude::*;
use vstd::set_lib::*;
use vstd::string::*;

verus! {

/// The result of `inflector::cases::pascalcase::to_pascal_case`.
pub uninterp spec fn pascal_case(text: Seq<char>) -> Seq<char>;

/// Calls `inflector::cases::pascalcase::to_pascal_case`, which walks the
/// characters of its argument once and depends on nothing else.
#[verifier::external_body]
pub(crate) fn to_pascal_case(text: &str) -> (out: String)
    ensures
        out@ == pascal_case(text@),
{
    inflector::cases::pascalcase::to_pascal_case(text)
}

/// The digit `d` as a text.
pub open spec fn digit_text(d: int) -> Seq<char> {
    if d == 0 {
        "0"@
    } else if d == 1 {
        "1"@
    } else if d == 2 {
        "2"@
    } else if d == 3 {
        "3"@
    } else if d == 4 {
        "4"@
    } else if d == 5 {
        "5"@
    } else if d == 6 {
        "6"@
    } else if d == 7 {
        "7"@
    } else if d == 8 {
        "8"@
    } else {
        "9"@
    }
}

/// The number `n` written in decimal digits.
pub open spec fn decimal(n: nat) -> Seq<char>
    decreases n,
{
    if n < 10 {
        digit_text(n as int)
    } else {
        decimal(n / 10) + digit_text((n % 10) as int)
    }
}

/// The name with the number `index` behind it.
pub open spec fn candidate(name: Seq<char>, index: nat) -> Seq<char> {
    name + decimal(index)
}

/// The texts of a list of names.
pub open spec fn names_of(created: Seq<String>) -> Seq<Seq<char>> {
    Seq::new(created.len(), |i: int| created[i]@)
}

/// The name that `name` is given where `created` holds the names taken: the
/// name itself where it is free, else the name with the number `index`, the
/// first from 2 on that is free.
pub open spec fn is_free_choice(
    created: Seq<Seq<char>>,
    name: Seq<char>,
    chosen: Seq<char>,
) -> bool {
    &&& !created.contains(chosen)
    &&& !created.contains(name) ==> chosen == name
    &&& created.contains(name) ==> exists|index: nat|
        {
            &&& 2 <= index
            &&& chosen == #[trigger] candidate(name, index)
            &&& forall|lower: nat|
                2 <= lower < index ==> created.contains(#[trigger] candidate(name, lower))
        }
}

/// The name that [`is_free_choice`] admits.
pub open spec fn free_name(created: Seq<Seq<char>>, name: Seq<char>) -> Seq<char> {
    choose|chosen: Seq<char>| is_free_choice(created, name, chosen)
}

/// No two names are both the free choice: the choice is a function of the
/// names taken and the name asked for.
pub proof fn lemma_free_choice_unique(
    created: Seq<Seq<char>>,
    name: Seq<char>,
    first: Seq<char>,
    second: Seq<char>,
)
    requires
        is_free_choice(created, name, first),
        is_free_choice(created, name, second),
    ensures
        first == second,
{
    if created.contains(name) {
        let i = choose|index: nat|
            {
                &&& 2 <= index
                &&& first == #[trigger] candidate(name, index)
                &&& forall|lower: nat|
                    2 <= lower < index ==> created.contains(#[trigger] candidate(name, lower))
            };
        let j = choose|index: nat|
            {
                &&& 2 <= index
                &&& second == #[trigger] candidate(name, index)
                &&& forall|lower: nat|
                    2 <= lower < index ==> created.contains(#[trigger] candidate(name, lower))
            };
        if i < j {
            assert(created.contains(candidate(name, i)));
        } else if j < i {
            assert(created.contains(candidate(name, j)));
        }
    }
}

/// Two names that are picked one after the other differ: the second is free
/// of everything taken before, the first among it.
pub proof fn lemma_successive_names_differ(
    created: Seq<Seq<char>>,
    first_name: Seq<char>,
    first: Seq<char>,
    second_name: Seq<char>,
    second: Seq<char>,
)
    requires
        is_free_choice(created, first_name, first),
        is_free_choice(created.push(first), second_name, second),
    ensures
        first != second,
        !created.contains(first),
        !created.contains(second),
{
    let taken = created.push(first);
    assert(taken[created.len() as int] == first);
    assert(taken.contains(first));
    if created.contains(second) {
        let at = choose|at: int| 0 <= at < created.len() && created[at] == second;
        assert(taken[at] == second);
    }
}

proof fn lemma_digits()
    ensures
        forall|d: int| 0 <= d < 10 ==> (#[trigger] digit_text(d)).len() == 1,
        forall|d: int, e: int|
            0 <= d < 10 && 0 <= e < 10 && #[trigger] digit_text(d) == #[trigger] digit_text(e)
                ==> d == e,
{
    reveal_strlit("0");
    reveal_strlit("1");
    reveal_strlit("2");
    reveal_strlit("3");
    reveal_strlit("4");
    reveal_strlit("5");
    reveal_strlit("6");
    reveal_strlit("7");
    reveal_strlit("8");
    reveal_strlit("9");
    assert forall|d: int, e: int|
        0 <= d < 10 && 0 <= e < 10 && #[trigger] digit_text(d) == #[trigger] digit_text(
            e,
        ) implies d == e by {
        assert(digit_text(d)[0] == digit_text(e)[0]);
    }
}

proof fn lemma_decimal_length(n: nat)
    ensures
        decimal(n).len() >= 1,
        n >= 10 ==> decimal(n).len() >= 2,
    decreases n,
{
    lemma_digits();
    if n >= 10 {
        lemma_decimal_length(n / 10);
    }
}

/// Different numbers are written differently.
pub proof fn lemma_decimal_injective(a: nat, b: nat)
    requires
        decimal(a) == decimal(b),
    ensures
        a == b,
    decreases a,
{
    lemma_digits();
    lemma_decimal_length(a);
    lemma_decimal_length(b);
    if a < 10 && b < 10 {
    } else if a >= 10 && b >= 10 {
        let front_a = decimal(a / 10);
        let front_b = decimal(b / 10);
        let last_a = digit_text((a % 10) as int);
        let last_b = digit_text((b % 10) as int);
        assert(decimal(a).len() == front_a.len() + 1);
        assert(decimal(b).len() == front_b.len() + 1);
        assert(last_a =~= decimal(a).subrange(front_a.len() as int, decimal(a).len() as int));
        assert(last_b =~= decimal(b).subrange(front_b.len() as int, decimal(b).len() as int));
        assert(front_a =~= decimal(a).subrange(0, front_a.len() as int));
        assert(front_b =~= decimal(b).subrange(0, front_b.len() as int));
        lemma_decimal_injective(a / 10, b / 10);
    }
}

/// Different numbers give different candidates.
pub proof fn lemma_candidate_injective(name: Seq<char>, a: nat, b: nat)
    requires
        candidate(name, a) == candidate(name, b),
    ensures
        a == b,
{
    let left = candidate(name, a);
    let right = candidate(name, b);
    assert(decimal(a) =~= left.subrange(name.len() as int, left.len() as int));
    assert(decimal(b) =~= right.subrange(name.len() as int, right.len() as int));
    assert(left.len() == name.len() + decimal(a).len());
    assert(right.len() == name.len() + decimal(b).len());
    lemma_decimal_injective(a, b);
}

fn digit_str(d: u128) -> (text: &'static str)
    requires
        d < 10,
    ensures
        text@ == digit_text(d as int),
{
    if d == 0 {
        "0"
    } else if d == 1 {
        "1"
    } else if d == 2 {
        "2"
    } else if d == 3 {
        "3"
    } else if d == 4 {
        "4"
    } else if d == 5 {
        "5"
    } else if d == 6 {
        "6"
    } else if d == 7 {
        "7"
    } else if d == 8 {
        "8"
    } else {
        "9"
    }
}

/// Writes `n` in decimal digits.
pub fn decimal_text(n: u128) -> (text: String)
    ensures
        text@ == decimal(n as nat),
    decreases n,
{
    if n < 10 {
        digit_str(n).to_owned()
    } else {
        decimal_text(n / 10).concat(digit_str(n % 10))
    }
}

/// Where `created` holds `text`, if it does.
fn position_of(created: &Vec<String>, text: &String) -> (found: Option<usize>)
    ensures
        found.is_some() == names_of(created@).contains(text@),
        found matches Some(at) ==> at < created.len() && created[at as int]@ == text@,
{
    let mut at: usize = 0;
    while at < created.len()
        invariant
            at <= created.len(),
            forall|k: int| 0 <= k < at ==> created[k]@ != text@,
        decreases created.len() - at,
    {
        if created[at] == *text {
            assert(names_of(created@)[at as int] == text@);
            return Some(at);
        }
        at += 1;
    }
    None
}

/// Picks a name for a new interface and records it as taken: `name` itself
/// where it is free, else `name` with the first number from 2 on that makes
/// it free.
pub fn get_collision_free_typename(name: String, created_types: &mut Vec<String>) -> (unique:
    String)
    ensures
        is_free_choice(names_of(old(created_types)@), name@, unique@),
        unique@ == free_name(names_of(old(created_types)@), name@),
        names_of(final(created_types)@) == names_of(old(created_types)@).push(unique@),
{
    let ghost taken = names_of(created_types@);
    if position_of(created_types, &name).is_none() {
        created_types.push(name.clone());
        assert(names_of(created_types@) =~= taken.push(name@));
        proof {
            lemma_free_choice_unique(taken, name@, name@, free_name(taken, name@));
        }
        return name;
    }
    let mut index: u128 = 2;
    let ghost mut remaining: Set<int> = set_int_range(0, created_types.len() as int);
    proof {
        lemma_int_range(0, created_types.len() as int);
    }
    loop
        invariant
            taken == names_of(created_types@),
            created_types@ == old(created_types)@,
            taken.contains(name@),
            remaining.finite(),
            index == 2 + (taken.len() - remaining.len()),
            remaining.len() <= taken.len(),
            forall|p: int| remaining.contains(p) ==> 0 <= p < taken.len(),
            forall|p: int|
                0 <= p < taken.len() && !remaining.contains(p) ==> exists|lower: nat|
                    2 <= lower < index && #[trigger] taken[p] == candidate(name@, lower),
            forall|lower: nat|
                2 <= lower < index ==> taken.contains(#[trigger] candidate(name@, lower)),
        decreases remaining.len(),
    {
        let temp_name = name.clone().concat(decimal_text(index).as_str());
        assert(temp_name@ == candidate(name@, index as nat));
        match position_of(created_types, &temp_name) {
            None => {
                created_types.push(temp_name.clone());
                assert(names_of(created_types@) =~= taken.push(temp_name@));
                proof {
                    assert(is_free_choice(taken, name@, temp_name@));
                    lemma_free_choice_unique(taken, name@, temp_name@, free_name(taken, name@));
                }
                return temp_name;
            },
            Some(at) => {
                proof {
                    assert(taken[at as int] == candidate(name@, index as nat));
                    if !remaining.contains(at as int) {
                        let lower = choose|lower: nat|
                            2 <= lower < index && taken[at as int] == candidate(name@, lower);
                        lemma_candidate_injective(name@, lower, index as nat);
                    }
                    remaining = remaining.remove(at as int);
                }
                index += 1;
            },
        }
    }
}

} // verus!
