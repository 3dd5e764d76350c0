//! Lists of formulas and lists of names as the construction handles them:
//! copied, searched, compared, and added to at the end without repetition.

use vstd::prelude::*;
use crate::adjoin::adjoin;
use crate::adjoin::adjoin_all;
use crate::adjoin::adjoin_all_unless_in;
use crate::ltl_formula::LtlFormula;
use crate::ltl_formula::atoms_clone_exactly;

verus! {

/// The names of a list, each as its sequence of characters.
pub open spec fn names_view(names: Seq<String>) -> Seq<Seq<char>> {
    names.map_values(|name: String| name@)
}

/// A list of the same formulas.
pub fn clone_formulas(formulas: &Vec<LtlFormula<u8>>) -> (copy: Vec<LtlFormula<u8>>)
    ensures
        copy@ == formulas@,
{
    let copy = formulas.clone();
    assert(atoms_clone_exactly::<u8>());
    assert forall|i: int| 0 <= i < formulas@.len() implies copy@[i] == formulas@[i] by {
        assert(cloned::<LtlFormula<u8>>(formulas[i], copy[i]));
    }
    assert(copy@ =~= formulas@);
    copy
}

/// A list of the same names.
pub fn clone_names(names: &Vec<String>) -> (copy: Vec<String>)
    ensures
        copy@ == names@,
{
    let copy = names.clone();
    assert forall|i: int| 0 <= i < names@.len() implies copy@[i] == names@[i] by {
        assert(cloned::<String>(names[i], copy[i]));
    }
    assert(copy@ =~= names@);
    copy
}

/// Whether the two lists hold the same formulas in the same order.
pub fn same_formulas(left: &Vec<LtlFormula<u8>>, right: &Vec<LtlFormula<u8>>) -> (same: bool)
    ensures
        same == (left@ == right@),
{
    if left.len() != right.len() {
        return false;
    }
    let mut i: usize = 0;
    while i < left.len()
        invariant
            i <= left.len(),
            left.len() == right.len(),
            forall|j: int| 0 <= j < i ==> left@[j] == right@[j],
        decreases left.len() - i,
    {
        if left[i] != right[i] {
            return false;
        }
        i = i + 1;
    }
    assert(left@ =~= right@);
    true
}

/// Whether the list holds the formula.
pub fn contains_formula(formulas: &Vec<LtlFormula<u8>>, formula: &LtlFormula<u8>) -> (found: bool)
    ensures
        found == formulas@.contains(*formula),
{
    let mut i: usize = 0;
    while i < formulas.len()
        invariant
            i <= formulas.len(),
            forall|j: int| 0 <= j < i ==> formulas@[j] != *formula,
        decreases formulas.len() - i,
    {
        if formulas[i] == *formula {
            return true;
        }
        i = i + 1;
    }
    false
}

/// Adjoins the formula to the list.
pub fn adjoin_formula(list: &mut Vec<LtlFormula<u8>>, formula: LtlFormula<u8>)
    ensures
        final(list)@ == adjoin(old(list)@, formula),
{
    if !contains_formula(list, &formula) {
        list.push(formula);
    }
}

/// Adjoins the formulas to the list, one after the other.
pub fn adjoin_formulas(list: &mut Vec<LtlFormula<u8>>, formulas: &Vec<LtlFormula<u8>>)
    ensures
        final(list)@ == adjoin_all(old(list)@, formulas@),
{
    let mut i: usize = 0;
    assert(formulas@.take(0) =~= Seq::empty());
    while i < formulas.len()
        invariant
            i <= formulas.len(),
            list@ == adjoin_all(old(list)@, formulas@.take(i as int)),
        decreases formulas.len() - i,
    {
        proof {
            let longer = formulas@.take(i + 1);
            assert(longer.drop_last() =~= formulas@.take(i as int));
            assert(longer.last() == formulas@[i as int]);
        }
        adjoin_formula(list, formulas[i].clone());
        i = i + 1;
    }
    assert(formulas@.take(i as int) =~= formulas@);
}

/// Adjoins to the list, one after the other, those of the formulas that `seen` does not hold.
pub fn adjoin_formulas_unless_in(
    list: &mut Vec<LtlFormula<u8>>,
    formulas: &Vec<LtlFormula<u8>>,
    seen: &Vec<LtlFormula<u8>>,
)
    ensures
        final(list)@ == adjoin_all_unless_in(old(list)@, formulas@, seen@),
{
    let mut i: usize = 0;
    assert(formulas@.take(0) =~= Seq::empty());
    while i < formulas.len()
        invariant
            i <= formulas.len(),
            list@ == adjoin_all_unless_in(old(list)@, formulas@.take(i as int), seen@),
        decreases formulas.len() - i,
    {
        proof {
            let longer = formulas@.take(i + 1);
            assert(longer.drop_last() =~= formulas@.take(i as int));
            assert(longer.last() == formulas@[i as int]);
        }
        if !contains_formula(seen, &formulas[i]) {
            adjoin_formula(list, formulas[i].clone());
        }
        i = i + 1;
    }
    assert(formulas@.take(i as int) =~= formulas@);
}

/// Whether the list holds the name.
pub fn contains_name(names: &Vec<String>, name: &String) -> (found: bool)
    ensures
        found == names_view(names@).contains(name@),
{
    let mut i: usize = 0;
    while i < names.len()
        invariant
            i <= names.len(),
            forall|j: int| 0 <= j < i ==> names_view(names@)[j] != name@,
        decreases names.len() - i,
    {
        if names[i] == *name {
            assert(names_view(names@)[i as int] == name@);
            return true;
        }
        i = i + 1;
    }
    false
}

/// Adjoins the names to the list, one after the other.
pub fn adjoin_names(list: &mut Vec<String>, names: &Vec<String>)
    ensures
        names_view(final(list)@) == adjoin_all(names_view(old(list)@), names_view(names@)),
{
    let mut i: usize = 0;
    assert(names_view(names@).take(0) =~= Seq::empty());
    while i < names.len()
        invariant
            i <= names.len(),
            names_view(list@) == adjoin_all(
                names_view(old(list)@),
                names_view(names@).take(i as int),
            ),
        decreases names.len() - i,
    {
        proof {
            let longer = names_view(names@).take(i + 1);
            assert(longer.drop_last() =~= names_view(names@).take(i as int));
            assert(longer.last() == names@[i as int]@);
        }
        if !contains_name(list, &names[i]) {
            let ghost before = names_view(list@);
            list.push(names[i].clone());
            assert(names_view(list@) =~= before.push(names@[i as int]@));
        }
        i = i + 1;
    }
    assert(names_view(names@).take(i as int) =~= names_view(names@));
}

} // verus!
