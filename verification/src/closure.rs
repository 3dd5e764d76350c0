//! How many states a graph can have: no more than there are pairs of lists
//! that hold parts of the formula, each part at most once.

use vstd::prelude::*;
use vstd::arithmetic::power::pow;
use vstd::arithmetic::power::lemma_pow_increases;
use vstd::arithmetic::power::lemma_pow_positive;
use vstd::set_lib::lemma_int_range;
use vstd::set_lib::lemma_len_subset;
use vstd::set_lib::set_int_range;
use crate::adjoin::adjoin;
use crate::adjoin::adjoin_all;
use crate::adjoin::lemma_adjoin_all;
use crate::adjoin::lemma_adjoin_members;
use crate::laws::all_parts_of;
use crate::ltl_formula::LtlFormula;
use crate::node_name::digit;
use crate::tableau::NodeView;

verus! {

/// The parts of a formula, each once.
pub open spec fn closure(whole: LtlFormula<u8>) -> Seq<LtlFormula<u8>>
    decreases whole,
{
    match whole {
        LtlFormula::Not(inner) | LtlFormula::Next(inner) => adjoin(closure(*inner), whole),
        LtlFormula::Or(left, right)
        | LtlFormula::And(left, right)
        | LtlFormula::Until(left, right)
        | LtlFormula::Release(left, right) => adjoin(
            adjoin_all(closure(*left), closure(*right)),
            whole,
        ),
        _ => seq![whole],
    }
}

/// The closure of a formula holds the parts of the formula and nothing else, and none twice.
pub proof fn lemma_closure(whole: LtlFormula<u8>)
    ensures
        closure(whole).no_duplicates(),
        forall|part: LtlFormula<u8>| #[trigger]
            closure(whole).contains(part) <==> part.is_part_of(whole),
    decreases whole,
{
    match whole {
        LtlFormula::Not(inner) | LtlFormula::Next(inner) => {
            lemma_closure(*inner);
            lemma_adjoin_members(closure(*inner), whole);
        },
        LtlFormula::Or(left, right)
        | LtlFormula::And(left, right)
        | LtlFormula::Until(left, right)
        | LtlFormula::Release(left, right) => {
            lemma_closure(*left);
            lemma_closure(*right);
            lemma_adjoin_all(closure(*left), closure(*right));
            lemma_adjoin_members(adjoin_all(closure(*left), closure(*right)), whole);
        },
        _ => {
            assert forall|part: LtlFormula<u8>| #[trigger]
                closure(whole).contains(part) <==> part.is_part_of(whole) by {
                if part == whole {
                    assert(closure(whole)[0] == part);
                }
            }
        },
    }
}

/// A list that holds nothing twice is no longer than a list that holds all its members.
pub proof fn lemma_no_longer_than_what_holds_it<T>(list: Seq<T>, all: Seq<T>)
    requires
        list.no_duplicates(),
        forall|i: int| 0 <= i < list.len() ==> all.contains(#[trigger] list[i]),
    ensures
        list.len() <= all.len(),
{
    let ranks = Seq::new(list.len(), |i: int| all.index_of(list[i]));
    assert forall|i: int, j: int|
        0 <= i < ranks.len() && 0 <= j < ranks.len() && i != j implies ranks[i] != ranks[j] by {
        assert(all.contains(list[i]));
        assert(all.contains(list[j]));
        assert(all[ranks[i]] == list[i]);
        assert(all[ranks[j]] == list[j]);
    }
    ranks.unique_seq_to_set();
    lemma_int_range(0, all.len() as int);
    assert forall|rank: int| ranks.to_set().contains(rank) implies set_int_range(
        0,
        all.len() as int,
    ).contains(rank) by {
        let i = choose|i: int| 0 <= i < ranks.len() && ranks[i] == rank;
        assert(all.contains(list[i]));
    }
    lemma_len_subset(ranks.to_set(), set_int_range(0, all.len() as int));
}

/// The list read as a numeral: its digits are the places, counted from one,
/// that its members have in `all`, and its base is one more than the length of `all`.
pub open spec fn rank_code<T>(list: Seq<T>, all: Seq<T>) -> nat
    decreases list.len(),
{
    if list.len() == 0 {
        0
    } else {
        (rank_code(list.drop_last(), all) * (all.len() + 1) + all.index_of(list.last()) + 1) as nat
    }
}

proof fn lemma_digit_joins(high: int, digit: int, base: int, bound: int)
    requires
        0 <= high < bound,
        0 <= digit < base,
    ensures
        0 <= high * base + digit < bound * base,
{
    assert(high * base + digit < bound * base) by (nonlinear_arith)
        requires
            0 <= high < bound,
            0 <= digit < base,
    ;
    assert(0 <= high * base) by (nonlinear_arith)
        requires
            0 <= high,
            0 < base,
    ;
}

proof fn lemma_digit_parts(high_1: int, digit_1: int, high_2: int, digit_2: int, base: int)
    requires
        0 <= digit_1 < base,
        0 <= digit_2 < base,
        high_1 * base + digit_1 == high_2 * base + digit_2,
    ensures
        high_1 == high_2,
        digit_1 == digit_2,
{
    assert(high_1 == high_2) by (nonlinear_arith)
        requires
            0 <= digit_1 < base,
            0 <= digit_2 < base,
            high_1 * base + digit_1 == high_2 * base + digit_2,
    ;
}

/// The numeral of a list has as many digits as the list has members.
pub proof fn lemma_rank_code_bound<T>(list: Seq<T>, all: Seq<T>)
    requires
        forall|i: int| 0 <= i < list.len() ==> all.contains(#[trigger] list[i]),
    ensures
        rank_code(list, all) < pow(all.len() + 1 as int, list.len()),
    decreases list.len(),
{
    let base = all.len() + 1;
    reveal(pow);
    if list.len() > 0 {
        let shorter = list.drop_last();
        assert forall|i: int| 0 <= i < shorter.len() implies all.contains(
            #[trigger] shorter[i],
        ) by {
            assert(shorter[i] == list[i]);
        }
        lemma_rank_code_bound(shorter, all);
        assert(all.contains(list[list.len() - 1]));
        let digit = all.index_of(list.last()) + 1;
        lemma_digit_joins(
            rank_code(shorter, all) as int,
            digit,
            base as int,
            pow(base as int, shorter.len()),
        );
        assert(pow(base as int, list.len()) == base * pow(base as int, shorter.len()));
        assert(pow(base as int, shorter.len()) * base == base * pow(base as int, shorter.len()))
            by (nonlinear_arith);
    }
}

/// Lists of members of `all` that have the same numeral are the same list.
pub proof fn lemma_rank_code_injective<T>(first: Seq<T>, second: Seq<T>, all: Seq<T>)
    requires
        forall|i: int| 0 <= i < first.len() ==> all.contains(#[trigger] first[i]),
        forall|i: int| 0 <= i < second.len() ==> all.contains(#[trigger] second[i]),
        rank_code(first, all) == rank_code(second, all),
    ensures
        first == second,
    decreases first.len(),
{
    let base = (all.len() + 1) as int;
    if first.len() == 0 || second.len() == 0 {
        if first.len() > 0 {
            assert(all.contains(first[first.len() - 1]));
            assert(0 <= rank_code(first.drop_last(), all) * base) by (nonlinear_arith)
                requires
                    0 <= rank_code(first.drop_last(), all),
                    0 < base,
            ;
        }
        if second.len() > 0 {
            assert(all.contains(second[second.len() - 1]));
            assert(0 <= rank_code(second.drop_last(), all) * base) by (nonlinear_arith)
                requires
                    0 <= rank_code(second.drop_last(), all),
                    0 < base,
            ;
        }
        assert(first =~= second);
    } else {
        let shorter_1 = first.drop_last();
        let shorter_2 = second.drop_last();
        assert(all.contains(first[first.len() - 1]));
        assert(all.contains(second[second.len() - 1]));
        let digit_1 = all.index_of(first.last()) + 1;
        let digit_2 = all.index_of(second.last()) + 1;
        assert(0 <= rank_code(shorter_1, all) * base) by (nonlinear_arith)
            requires
                0 <= rank_code(shorter_1, all),
                0 < base,
        ;
        assert(0 <= rank_code(shorter_2, all) * base) by (nonlinear_arith)
            requires
                0 <= rank_code(shorter_2, all),
                0 < base,
        ;
        lemma_digit_parts(
            rank_code(shorter_1, all) as int,
            digit_1,
            rank_code(shorter_2, all) as int,
            digit_2,
            base,
        );
        assert forall|i: int| 0 <= i < shorter_1.len() implies all.contains(
            #[trigger] shorter_1[i],
        ) by {
            assert(shorter_1[i] == first[i]);
        }
        assert forall|i: int| 0 <= i < shorter_2.len() implies all.contains(
            #[trigger] shorter_2[i],
        ) by {
            assert(shorter_2[i] == second[i]);
        }
        lemma_rank_code_injective(shorter_1, shorter_2, all);
        assert(first.last() == second.last());
        assert(first =~= shorter_1.push(first.last()));
        assert(second =~= shorter_2.push(second.last()));
    }
}

/// The number of pairs of lists that hold some of `parts` things, each at most once, is below this.
pub open spec fn shape_limit(parts: nat) -> nat {
    (pow(parts + 1 as int, parts) * pow(parts + 1 as int, parts)) as nat
}

/// States that differ in shape, and whose `old` and `next` hold parts of a
/// formula, each at most once, are no more than the closure of the formula allows.
pub proof fn lemma_states_are_few(states: Seq<NodeView>, whole: LtlFormula<u8>)
    requires
        forall|i: int|
            0 <= i < states.len() ==> {
                &&& (#[trigger] states[i]).old.no_duplicates()
                &&& states[i].next.no_duplicates()
                &&& all_parts_of(states[i].old, whole)
                &&& all_parts_of(states[i].next, whole)
            },
        forall|i: int, j: int|
            0 <= i < j < states.len() ==> !(#[trigger] states[i]).same_shape(#[trigger] states[j]),
    ensures
        states.len() <= shape_limit(closure(whole).len()),
{
    let all = closure(whole);
    let parts = all.len();
    let base = parts + 1;
    let page = pow(base as int, parts);
    lemma_closure(whole);
    lemma_pow_positive(base as int, parts);
    let codes = Seq::new(
        states.len(),
        |i: int| rank_code(states[i].old, all) * page + rank_code(states[i].next, all),
    );
    assert forall|i: int| 0 <= i < states.len() implies {
        &&& 0 <= rank_code((#[trigger] states[i]).old, all) < page
        &&& 0 <= rank_code(states[i].next, all) < page
        &&& 0 <= codes[i] < page * page
        &&& forall|k: int| 0 <= k < states[i].old.len() ==> all.contains(#[trigger] states[i].old[k])
        &&& forall|k: int|
            0 <= k < states[i].next.len() ==> all.contains(#[trigger] states[i].next[k])
    } by {
        let old = states[i].old;
        let next = states[i].next;
        assert forall|k: int| 0 <= k < old.len() implies all.contains(#[trigger] old[k]) by {
            assert(old[k].is_part_of(whole));
        }
        assert forall|k: int| 0 <= k < next.len() implies all.contains(#[trigger] next[k]) by {
            assert(next[k].is_part_of(whole));
        }
        lemma_no_longer_than_what_holds_it(old, all);
        lemma_no_longer_than_what_holds_it(next, all);
        lemma_rank_code_bound(old, all);
        lemma_rank_code_bound(next, all);
        lemma_pow_increases(base, old.len(), parts);
        lemma_pow_increases(base, next.len(), parts);
        lemma_digit_joins(rank_code(old, all) as int, rank_code(next, all) as int, page, page);
    }
    assert forall|i: int, j: int|
        0 <= i < codes.len() && 0 <= j < codes.len() && i != j implies codes[i] != codes[j] by {
        if codes[i] == codes[j] {
            assert(0 <= rank_code(states[i].next, all) < page);
            assert(0 <= rank_code(states[j].next, all) < page);
            lemma_digit_parts(
                rank_code(states[i].old, all) as int,
                rank_code(states[i].next, all) as int,
                rank_code(states[j].old, all) as int,
                rank_code(states[j].next, all) as int,
                page,
            );
            lemma_rank_code_injective(states[i].old, states[j].old, all);
            lemma_rank_code_injective(states[i].next, states[j].next, all);
            if i < j {
                assert(states[i].same_shape(states[j]));
            } else {
                assert(states[j].same_shape(states[i]));
            }
        }
    }
    codes.unique_seq_to_set();
    assert(0 <= page * page) by (nonlinear_arith)
        requires
            0 < page,
    ;
    lemma_int_range(0, page * page);
    assert forall|code: int| codes.to_set().contains(code) implies set_int_range(
        0,
        page * page,
    ).contains(code) by {
        let i = choose|i: int| 0 <= i < codes.len() && codes[i] == code;
        assert(0 <= codes[i] < page * page);
    }
    lemma_len_subset(codes.to_set(), set_int_range(0, page * page));
}

} // verus!
