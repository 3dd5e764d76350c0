//! The key by which a fully expanded node is looked up: a hash of the bytes that
//! encode its `old` and its `next`. Nodes of the same shape have the same key,
//! and nodes of different shape are hashed from different bytes.

use vstd::prelude::*;
use vstd::std_specs::hash::DefaultHasherAdditionalSpecFns;
use std::collections::hash_map::DefaultHasher;
use std::hash::Hasher;
use crate::ltl_formula::LtlFormula;

verus! {

pub const TAG_ATOM: u8 = 0;

pub const TAG_NOT: u8 = 1;

pub const TAG_OR: u8 = 2;

pub const TAG_AND: u8 = 3;

pub const TAG_NEXT: u8 = 4;

pub const TAG_UNTIL: u8 = 5;

pub const TAG_RELEASE: u8 = 6;

pub const TAG_TOP: u8 = 7;

pub const TAG_BOTTOM: u8 = 8;

/// Closes a list of formulas; no encoding of a formula starts with it.
pub const TAG_END: u8 = 9;

/// A formula in prefix notation: the tag of its connective, then its operands.
pub open spec fn formula_bytes(formula: LtlFormula<u8>) -> Seq<u8>
    decreases formula,
{
    match formula {
        LtlFormula::Atom(value) => seq![TAG_ATOM, value],
        LtlFormula::Not(inner) => seq![TAG_NOT] + formula_bytes(*inner),
        LtlFormula::Or(left, right) => seq![TAG_OR] + formula_bytes(*left) + formula_bytes(*right),
        LtlFormula::And(left, right) => seq![TAG_AND] + formula_bytes(*left) + formula_bytes(
            *right,
        ),
        LtlFormula::Next(inner) => seq![TAG_NEXT] + formula_bytes(*inner),
        LtlFormula::Until(left, right) => seq![TAG_UNTIL] + formula_bytes(*left) + formula_bytes(
            *right,
        ),
        LtlFormula::Release(left, right) => seq![TAG_RELEASE] + formula_bytes(*left)
            + formula_bytes(*right),
        LtlFormula::Top => seq![TAG_TOP],
        LtlFormula::Bottom => seq![TAG_BOTTOM],
    }
}

/// The formulas of a list one after the other, in order.
pub open spec fn list_bytes(formulas: Seq<LtlFormula<u8>>) -> Seq<u8>
    decreases formulas.len(),
{
    if formulas.len() == 0 {
        Seq::empty()
    } else {
        list_bytes(formulas.drop_last()) + formula_bytes(formulas.last())
    }
}

/// Both lists of a node, each closed by the end tag.
pub open spec fn shape_bytes(old: Seq<LtlFormula<u8>>, next: Seq<LtlFormula<u8>>) -> Seq<u8> {
    list_bytes(old).push(TAG_END) + list_bytes(next).push(TAG_END)
}

/// The key of a node with the given `old` and `next`.
pub open spec fn structural_key(old: Seq<LtlFormula<u8>>, next: Seq<LtlFormula<u8>>) -> u64 {
    DefaultHasher::spec_finish(seq![shape_bytes(old, next)])
}

/// The encoding of a formula starts with the tag of its connective.
pub open spec fn tag(formula: LtlFormula<u8>) -> u8 {
    match formula {
        LtlFormula::Atom(_) => TAG_ATOM,
        LtlFormula::Not(_) => TAG_NOT,
        LtlFormula::Or(_, _) => TAG_OR,
        LtlFormula::And(_, _) => TAG_AND,
        LtlFormula::Next(_) => TAG_NEXT,
        LtlFormula::Until(_, _) => TAG_UNTIL,
        LtlFormula::Release(_, _) => TAG_RELEASE,
        LtlFormula::Top => TAG_TOP,
        LtlFormula::Bottom => TAG_BOTTOM,
    }
}

pub proof fn lemma_formula_bytes_start(formula: LtlFormula<u8>)
    ensures
        formula_bytes(formula).len() >= 1,
        formula_bytes(formula)[0] == tag(formula),
{
}

/// The encoding of a formula tells where it ends: encodings that are followed
/// by anything whatever, and agree, are encodings of the same formula, followed
/// by the same.
pub proof fn lemma_formula_bytes_prefix_free(
    first: LtlFormula<u8>,
    after_first: Seq<u8>,
    second: LtlFormula<u8>,
    after_second: Seq<u8>,
)
    requires
        formula_bytes(first) + after_first == formula_bytes(second) + after_second,
    ensures
        first == second,
        after_first == after_second,
    decreases first,
{
    let left = formula_bytes(first) + after_first;
    let right = formula_bytes(second) + after_second;
    lemma_formula_bytes_start(first);
    lemma_formula_bytes_start(second);
    assert(left[0] == tag(first));
    assert(right[0] == tag(second));
    match (first, second) {
        (LtlFormula::Atom(value_1), LtlFormula::Atom(value_2)) => {
            assert(left[1] == value_1);
            assert(right[1] == value_2);
            assert(after_first =~= left.skip(2));
            assert(after_second =~= right.skip(2));
        },
        (LtlFormula::Not(inner_1), LtlFormula::Not(inner_2))
        | (LtlFormula::Next(inner_1), LtlFormula::Next(inner_2)) => {
            assert(left.skip(1) =~= formula_bytes(*inner_1) + after_first);
            assert(right.skip(1) =~= formula_bytes(*inner_2) + after_second);
            lemma_formula_bytes_prefix_free(*inner_1, after_first, *inner_2, after_second);
        },
        (LtlFormula::Or(left_1, right_1), LtlFormula::Or(left_2, right_2))
        | (LtlFormula::And(left_1, right_1), LtlFormula::And(left_2, right_2))
        | (LtlFormula::Until(left_1, right_1), LtlFormula::Until(left_2, right_2))
        | (LtlFormula::Release(left_1, right_1), LtlFormula::Release(left_2, right_2)) => {
            let tail_1 = formula_bytes(*right_1) + after_first;
            let tail_2 = formula_bytes(*right_2) + after_second;
            assert(left.skip(1) =~= formula_bytes(*left_1) + tail_1);
            assert(right.skip(1) =~= formula_bytes(*left_2) + tail_2);
            lemma_formula_bytes_prefix_free(*left_1, tail_1, *left_2, tail_2);
            lemma_formula_bytes_prefix_free(*right_1, after_first, *right_2, after_second);
        },
        (LtlFormula::Top, LtlFormula::Top) | (LtlFormula::Bottom, LtlFormula::Bottom) => {
            assert(after_first =~= left.skip(1));
            assert(after_second =~= right.skip(1));
        },
        _ => {},
    }
}

/// The encoding of a list starts with the encoding of its first formula.
pub proof fn lemma_list_bytes_front(formulas: Seq<LtlFormula<u8>>)
    requires
        formulas.len() > 0,
    ensures
        list_bytes(formulas) == formula_bytes(formulas[0]) + list_bytes(formulas.skip(1)),
    decreases formulas.len(),
{
    if formulas.len() == 1 {
        assert(formulas.drop_last() =~= Seq::<LtlFormula<u8>>::empty());
        assert(formulas.skip(1) =~= Seq::<LtlFormula<u8>>::empty());
        assert(list_bytes(formulas) =~= formula_bytes(formulas[0]) + list_bytes(formulas.skip(1)));
    } else {
        let shorter = formulas.drop_last();
        lemma_list_bytes_front(shorter);
        assert(shorter.skip(1) =~= formulas.skip(1).drop_last());
        assert(formulas.skip(1).last() == formulas.last());
        assert(list_bytes(formulas) =~= formula_bytes(formulas[0]) + list_bytes(formulas.skip(1)));
    }
}

/// The encoding of a closed list tells where it ends.
pub proof fn lemma_closed_list_prefix_free(
    first: Seq<LtlFormula<u8>>,
    after_first: Seq<u8>,
    second: Seq<LtlFormula<u8>>,
    after_second: Seq<u8>,
)
    requires
        list_bytes(first).push(TAG_END) + after_first == list_bytes(second).push(TAG_END)
            + after_second,
    ensures
        first == second,
        after_first == after_second,
    decreases first.len(),
{
    let left = list_bytes(first).push(TAG_END) + after_first;
    let right = list_bytes(second).push(TAG_END) + after_second;
    if first.len() > 0 {
        lemma_list_bytes_front(first);
        lemma_formula_bytes_start(first[0]);
        assert(left[0] == tag(first[0]));
    } else {
        assert(left[0] == TAG_END);
    }
    if second.len() > 0 {
        lemma_list_bytes_front(second);
        lemma_formula_bytes_start(second[0]);
        assert(right[0] == tag(second[0]));
    } else {
        assert(right[0] == TAG_END);
    }
    if first.len() == 0 || second.len() == 0 {
        assert(first.len() == 0 && second.len() == 0);
        assert(first =~= second);
        assert(after_first =~= left.skip(1));
        assert(after_second =~= right.skip(1));
    } else {
        let tail_1 = list_bytes(first.skip(1)).push(TAG_END) + after_first;
        let tail_2 = list_bytes(second.skip(1)).push(TAG_END) + after_second;
        assert(left =~= formula_bytes(first[0]) + tail_1);
        assert(right =~= formula_bytes(second[0]) + tail_2);
        lemma_formula_bytes_prefix_free(first[0], tail_1, second[0], tail_2);
        lemma_closed_list_prefix_free(first.skip(1), after_first, second.skip(1), after_second);
        assert(first =~= seq![first[0]] + first.skip(1));
        assert(second =~= seq![second[0]] + second.skip(1));
    }
}

/// Nodes of different shape are hashed from different bytes: their keys are
/// the same only where the hasher gives the same for different bytes.
pub proof fn lemma_shape_bytes_injective(
    old_1: Seq<LtlFormula<u8>>,
    next_1: Seq<LtlFormula<u8>>,
    old_2: Seq<LtlFormula<u8>>,
    next_2: Seq<LtlFormula<u8>>,
)
    requires
        shape_bytes(old_1, next_1) == shape_bytes(old_2, next_2),
    ensures
        old_1 == old_2,
        next_1 == next_2,
{
    lemma_closed_list_prefix_free(
        old_1,
        list_bytes(next_1).push(TAG_END),
        old_2,
        list_bytes(next_2).push(TAG_END),
    );
    let nothing = Seq::<u8>::empty();
    assert(list_bytes(next_1).push(TAG_END) + nothing =~= list_bytes(next_1).push(TAG_END));
    assert(list_bytes(next_2).push(TAG_END) + nothing =~= list_bytes(next_2).push(TAG_END));
    lemma_closed_list_prefix_free(next_1, nothing, next_2, nothing);
}

fn write_formula(formula: &LtlFormula<u8>, out: &mut Vec<u8>)
    ensures
        final(out)@ == old(out)@ + formula_bytes(*formula),
    decreases formula,
{
    match formula {
        LtlFormula::Atom(value) => {
            out.push(TAG_ATOM);
            out.push(*value);
        },
        LtlFormula::Not(inner) => {
            out.push(TAG_NOT);
            write_formula(inner, out);
        },
        LtlFormula::Or(left, right) => {
            out.push(TAG_OR);
            write_formula(left, out);
            write_formula(right, out);
        },
        LtlFormula::And(left, right) => {
            out.push(TAG_AND);
            write_formula(left, out);
            write_formula(right, out);
        },
        LtlFormula::Next(inner) => {
            out.push(TAG_NEXT);
            write_formula(inner, out);
        },
        LtlFormula::Until(left, right) => {
            out.push(TAG_UNTIL);
            write_formula(left, out);
            write_formula(right, out);
        },
        LtlFormula::Release(left, right) => {
            out.push(TAG_RELEASE);
            write_formula(left, out);
            write_formula(right, out);
        },
        LtlFormula::Top => {
            out.push(TAG_TOP);
        },
        LtlFormula::Bottom => {
            out.push(TAG_BOTTOM);
        },
    }
    assert(out@ =~= old(out)@ + formula_bytes(*formula));
}

fn write_list(formulas: &Vec<LtlFormula<u8>>, out: &mut Vec<u8>)
    ensures
        final(out)@ == old(out)@ + list_bytes(formulas@),
{
    let mut i: usize = 0;
    assert(formulas@.take(0) =~= Seq::empty());
    assert(out@ =~= old(out)@ + list_bytes(formulas@.take(0)));
    while i < formulas.len()
        invariant
            i <= formulas.len(),
            out@ == old(out)@ + list_bytes(formulas@.take(i as int)),
        decreases formulas.len() - i,
    {
        write_formula(&formulas[i], out);
        proof {
            let longer = formulas@.take(i + 1);
            assert(longer.drop_last() =~= formulas@.take(i as int));
            assert(longer.last() == formulas@[i as int]);
            assert(out@ =~= old(out)@ + list_bytes(longer));
        }
        i = i + 1;
    }
    assert(formulas@.take(i as int) =~= formulas@);
}

/// Hashes the encoding of the two lists with the standard library's default hasher.
pub fn key_of_shape(old: &Vec<LtlFormula<u8>>, next: &Vec<LtlFormula<u8>>) -> (key: u64)
    ensures
        key == structural_key(old@, next@),
{
    let mut bytes: Vec<u8> = Vec::new();
    write_list(old, &mut bytes);
    bytes.push(TAG_END);
    write_list(next, &mut bytes);
    bytes.push(TAG_END);
    assert(bytes@ =~= shape_bytes(old@, next@));
    let mut state = DefaultHasher::new();
    state.write(bytes.as_slice());
    assert(state@ =~= seq![shape_bytes(old@, next@)]);
    state.finish()
}

} // verus!
