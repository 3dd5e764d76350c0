//! How many names a construction can need: a number that depends on the
//! formula alone, and under which no construction fails.

use vstd::prelude::*;
use crate::automaton::lemma_initial_well_formed;
use crate::automaton::lemma_rules_lighten;
use crate::automaton::lemma_step_keeps_well_formed;
use crate::closure::closure;
use crate::closure::lemma_closure;
use crate::closure::lemma_no_longer_than_what_holds_it;
use crate::closure::lemma_states_are_few;
use crate::closure::shape_limit;
use crate::laws::all_parts_of;
use crate::ltl_formula::LtlFormula;
use crate::node_name::decimal;
use crate::tableau::NodeView;
use crate::tableau::TableauView;
use crate::tableau::holds_shape;
use crate::tableau::lemma_step_decreases;
use crate::tableau::lemma_total_weight_push;
use crate::tableau::pending_weight;
use crate::tableau::splits;
use crate::tableau::total_weight;
use crate::tableau::weight;

verus! {

/// The names that the expansion of a node can take whose new obligations have
/// this weight, up to the fully expanded nodes that come of it: a step takes two
/// names at most and leaves two nodes at most, each of less weight.
pub open spec fn expansion_cost(weight: nat) -> nat
    decreases weight,
{
    if weight == 0 {
        0
    } else {
        2 + 2 * expansion_cost((weight - 1) as nat)
    }
}

/// No list of parts of the formula, each at most once, weighs more than this.
pub open spec fn heaviest_list(formula: LtlFormula<u8>) -> nat {
    closure(formula).len() * weight(formula)
}

/// The names that a new state can take: one for its successor seed, and those
/// of the expansion of the seed.
pub open spec fn state_cost(formula: LtlFormula<u8>) -> nat {
    1 + expansion_cost(heaviest_list(formula))
}

/// With this many names no construction for the formula fails.
pub open spec fn names_needed(formula: LtlFormula<u8>) -> nat {
    1 + expansion_cost(weight(formula)) + shape_limit(closure(formula).len()) * state_cost(
        formula,
    )
}

/// The names that the expansion of the nodes on the stack can take.
pub open spec fn pending_cost(pending: Seq<NodeView>) -> nat
    decreases pending.len(),
{
    if pending.len() == 0 {
        0
    } else {
        pending_cost(pending.drop_last()) + expansion_cost(total_weight(pending.last().new))
    }
}

impl TableauView {
    /// The names handed out, those that the stack can take and those that the
    /// states can take which do not exist yet, are together no more than the
    /// formula needs.
    pub open spec fn within_supply(self, formula: LtlFormula<u8>) -> bool {
        let most = shape_limit(closure(formula).len());
        &&& self.states.len() <= most
        &&& self.counter + pending_cost(self.pending) + (most - self.states.len()) * state_cost(
            formula,
        ) <= names_needed(formula)
    }
}

pub proof fn lemma_expansion_cost_grows(lighter: nat, heavier: nat)
    requires
        lighter <= heavier,
    ensures
        expansion_cost(lighter) <= expansion_cost(heavier),
    decreases heavier,
{
    if lighter < heavier {
        lemma_expansion_cost_grows(lighter, (heavier - 1) as nat);
    }
}

pub proof fn lemma_pending_cost_push(pending: Seq<NodeView>, node: NodeView)
    ensures
        pending_cost(pending.push(node)) == pending_cost(pending) + expansion_cost(
            total_weight(node.new),
        ),
{
    assert(pending.push(node).drop_last() =~= pending);
}

/// A part of a formula weighs no more than the formula.
pub proof fn lemma_part_weighs_less(part: LtlFormula<u8>, whole: LtlFormula<u8>)
    requires
        part.is_part_of(whole),
    ensures
        weight(part) <= weight(whole),
    decreases whole,
{
    if part != whole {
        match whole {
            LtlFormula::Not(formula) | LtlFormula::Next(formula) => {
                lemma_part_weighs_less(part, *formula);
            },
            LtlFormula::Or(left, right)
            | LtlFormula::And(left, right)
            | LtlFormula::Until(left, right)
            | LtlFormula::Release(left, right) => {
                if part.is_part_of(*left) {
                    lemma_part_weighs_less(part, *left);
                } else {
                    lemma_part_weighs_less(part, *right);
                }
            },
            _ => {},
        }
    }
}

/// A list of parts of a formula weighs no more than as many formulas.
pub proof fn lemma_list_of_parts_weight(list: Seq<LtlFormula<u8>>, whole: LtlFormula<u8>)
    requires
        all_parts_of(list, whole),
    ensures
        total_weight(list) <= list.len() * weight(whole),
    decreases list.len(),
{
    if list.len() > 0 {
        let shorter = list.drop_last();
        assert forall|i: int| 0 <= i < shorter.len() implies (#[trigger] shorter[i]).is_part_of(
            whole,
        ) by {
            assert(shorter[i] == list[i]);
        }
        lemma_list_of_parts_weight(shorter, whole);
        assert(list[list.len() - 1].is_part_of(whole));
        lemma_part_weighs_less(list.last(), whole);
        assert(shorter.len() * weight(whole) + weight(whole) == list.len() * weight(whole))
            by (nonlinear_arith)
            requires
                shorter.len() + 1 == list.len(),
        ;
    }
}

/// A list of parts of a formula, each at most once, weighs no more than the heaviest list.
pub proof fn lemma_duplicate_free_list_weight(list: Seq<LtlFormula<u8>>, whole: LtlFormula<u8>)
    requires
        all_parts_of(list, whole),
        list.no_duplicates(),
    ensures
        total_weight(list) <= heaviest_list(whole),
{
    lemma_closure(whole);
    assert forall|i: int| 0 <= i < list.len() implies closure(whole).contains(
        #[trigger] list[i],
    ) by {
        assert(list[i].is_part_of(whole));
    }
    lemma_no_longer_than_what_holds_it(list, closure(whole));
    lemma_list_of_parts_weight(list, whole);
    assert(list.len() * weight(whole) <= closure(whole).len() * weight(whole))
        by (nonlinear_arith)
        requires
            list.len() <= closure(whole).len(),
    ;
}

proof fn lemma_one_state_less(most: int, states: int, cost: int)
    requires
        0 <= states < most,
        0 <= cost,
    ensures
        (most - states) * cost == (most - (states + 1)) * cost + cost,
        0 <= (most - (states + 1)) * cost,
{
    assert((most - states) * cost == (most - (states + 1)) * cost + cost) by (nonlinear_arith);
    assert(0 <= (most - (states + 1)) * cost) by (nonlinear_arith)
        requires
            0 <= most - (states + 1),
            0 <= cost,
    ;
}

/// Under a limit that is no less than what the formula needs, a step of a
/// well-formed construction within the supply succeeds and stays within the supply.
pub proof fn lemma_step_within_supply(before: TableauView, formula: LtlFormula<u8>)
    requires
        before.pending.len() > 0,
        before.well_formed(formula),
        before.within_supply(formula),
        before.limit >= names_needed(formula),
    ensures
        before.step() is Some,
        before.step().unwrap().within_supply(formula),
{
    let node = before.pending.last();
    let rest = before.pending.drop_last();
    let most = shape_limit(closure(formula).len());
    let per_state = state_cost(formula);
    let reserve = (most - before.states.len()) * per_state;
    let load = total_weight(node.new);
    assert(node == before.pending[before.pending.len() - 1]);
    assert(node.in_normal_form() && node.duplicate_free() && node.drawn_from(formula));
    assert(pending_cost(before.pending) == pending_cost(rest) + expansion_cost(load));
    assert(0 <= reserve) by (nonlinear_arith)
        requires
            reserve == (most - before.states.len()) * per_state,
            0 <= most - before.states.len(),
            0 <= per_state,
    ;
    if node.is_fully_expanded() {
        if !holds_shape(before.states, node) {
            let more = before.states.push(node);
            assert forall|i: int| 0 <= i < more.len() implies {
                &&& (#[trigger] more[i]).old.no_duplicates()
                &&& more[i].next.no_duplicates()
                &&& all_parts_of(more[i].old, formula)
                &&& all_parts_of(more[i].next, formula)
            } by {
                if i < before.states.len() {
                    assert(before.states[i].duplicate_free());
                    assert(before.states[i].drawn_from(formula));
                }
            }
            assert forall|i: int, j: int| 0 <= i < j < more.len() implies !(
            #[trigger] more[i]).same_shape(#[trigger] more[j]) by {
                if j < before.states.len() {
                    assert(!before.states[i].same_shape(before.states[j]));
                } else {
                    assert(!before.states[i].same_shape(node));
                }
            }
            lemma_states_are_few(more, formula);
            lemma_one_state_less(most as int, before.states.len() as int, per_state as int);
            let seed = node.successor_seed(decimal(before.counter + 1));
            lemma_duplicate_free_list_weight(node.next, formula);
            lemma_expansion_cost_grows(total_weight(seed.new), heaviest_list(formula));
            lemma_pending_cost_push(rest, seed);
        }
    } else {
        let formula_popped = node.new.last();
        let popped = node.without_last_new();
        let first_name = decimal(before.counter + 1);
        let second_name = decimal(before.counter + 2);
        lemma_rules_lighten(node, first_name);
        lemma_rules_lighten(node, second_name);
        assert(load >= 1);
        assert(expansion_cost(load) == 2 + 2 * expansion_cost((load - 1) as nat));
        assert(formula_popped.in_normal_form());
        if formula_popped.spec_is_literal() {
            if !(formula_popped == LtlFormula::<u8>::Bottom || popped.contradicts(formula_popped)) {
                let successor = popped.with_literal(formula_popped, first_name);
                lemma_expansion_cost_grows(total_weight(successor.new), (load - 1) as nat);
                lemma_pending_cost_push(rest, successor);
            }
        } else if splits(formula_popped) {
            let first = popped.first_branch(formula_popped, first_name);
            let second = popped.second_branch(formula_popped, second_name);
            lemma_expansion_cost_grows(total_weight(first.new), (load - 1) as nat);
            lemma_expansion_cost_grows(total_weight(second.new), (load - 1) as nat);
            lemma_pending_cost_push(rest, second);
            lemma_pending_cost_push(rest.push(second), first);
        } else {
            match formula_popped {
                LtlFormula::And(left, right) => {
                    let successor = popped.with_conjuncts(*left, *right, formula_popped);
                    lemma_expansion_cost_grows(total_weight(successor.new), (load - 1) as nat);
                    lemma_pending_cost_push(rest, successor);
                },
                LtlFormula::Next(inner) => {
                    let successor = popped.with_next(formula_popped, *inner);
                    lemma_expansion_cost_grows(total_weight(successor.new), (load - 1) as nat);
                    lemma_pending_cost_push(rest, successor);
                },
                _ => {},
            }
        }
    }
}

/// Under a limit that is no less than what the formula needs, a well-formed
/// construction within the supply comes to its end.
pub proof fn lemma_run_within_supply(start: TableauView, formula: LtlFormula<u8>)
    requires
        start.well_formed(formula),
        start.within_supply(formula),
        start.limit >= names_needed(formula),
    ensures
        start.run() is Some,
    decreases start.limit - start.counter, pending_weight(start.pending),
{
    if start.pending.len() > 0 {
        lemma_step_within_supply(start, formula);
        lemma_step_keeps_well_formed(start, formula);
        lemma_step_decreases(start);
        lemma_run_within_supply(start.step().unwrap(), formula);
    }
}

/// A construction for a formula in normal form succeeds where it may hand out
/// as many names as the formula needs.
pub proof fn lemma_enough_names_suffice(formula: LtlFormula<u8>, limit: nat)
    requires
        formula.in_normal_form(),
        limit >= names_needed(formula),
    ensures
        TableauView::construct(formula, limit) is Some,
{
    let start = TableauView::initial(formula, limit);
    let most = shape_limit(closure(formula).len());
    lemma_initial_well_formed(formula, limit);
    assert(start.pending.drop_last() =~= Seq::<NodeView>::empty());
    assert(pending_cost(start.pending) == expansion_cost(weight(formula))) by {
        assert(start.pending.last().new =~= Seq::<LtlFormula<u8>>::empty().push(formula));
        lemma_total_weight_push(Seq::<LtlFormula<u8>>::empty(), formula);
        assert(pending_cost(start.pending.drop_last()) == 0);
    }
    assert((most - 0) * state_cost(formula) == most * state_cost(formula));
    lemma_run_within_supply(start, formula);
}

} // verus!
