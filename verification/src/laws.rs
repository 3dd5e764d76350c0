//! What holds of a construction before its first step and after each step:
//! the properties, and for each of them the proof that a step keeps it.

use vstd::prelude::*;
use crate::adjoin::adjoin;
use crate::adjoin::adjoin_all;
use crate::adjoin::adjoin_all_unless_in;
use crate::adjoin::lemma_adjoin_all;
use crate::adjoin::lemma_adjoin_all_unless_in;
use crate::ltl_formula::LtlFormula;
use crate::ltl_formula::lemma_part_of_part;
use crate::node_name::decimal;
use crate::node_name::lemma_decimal_injective;
use crate::tableau::NodeView;
use crate::tableau::TableauView;
use crate::tableau::holds_shape;
use crate::tableau::new_1;
use crate::tableau::new_2;
use crate::tableau::next_1;
use crate::tableau::position_of_shape;
use crate::tableau::splits;

verus! {

/// Every formula of the list is in normal form.
pub open spec fn all_in_normal_form(formulas: Seq<LtlFormula<u8>>) -> bool {
    forall|i: int| 0 <= i < formulas.len() ==> (#[trigger] formulas[i]).in_normal_form()
}

/// Every formula of the list is a part of `whole`.
pub open spec fn all_parts_of(formulas: Seq<LtlFormula<u8>>, whole: LtlFormula<u8>) -> bool {
    forall|i: int| 0 <= i < formulas.len() ==> (#[trigger] formulas[i]).is_part_of(whole)
}

/// The list holds neither `Bottom` nor a formula together with its negation.
pub open spec fn free_of_contradiction(formulas: Seq<LtlFormula<u8>>) -> bool {
    &&& !formulas.contains(LtlFormula::Bottom)
    &&& forall|formula: LtlFormula<u8>|
        !(formulas.contains(formula) && #[trigger] formulas.contains(
            LtlFormula::Not(Box::new(formula)),
        ))
}

/// `name` is the numeral of one of the numbers from 1 to `counter`.
pub open spec fn is_name_up_to(name: Seq<char>, counter: nat) -> bool {
    exists|number: nat| 1 <= number <= counter && name == #[trigger] decimal(number)
}

impl NodeView {
    /// Every obligation of the node is in normal form.
    pub open spec fn in_normal_form(self) -> bool {
        &&& all_in_normal_form(self.old)
        &&& all_in_normal_form(self.next)
        &&& all_in_normal_form(self.new)
    }

    /// Every obligation of the node is a part of `whole`.
    pub open spec fn drawn_from(self, whole: LtlFormula<u8>) -> bool {
        &&& all_parts_of(self.old, whole)
        &&& all_parts_of(self.next, whole)
        &&& all_parts_of(self.new, whole)
    }

    /// None of the lists of the node holds anything twice.
    pub open spec fn duplicate_free(self) -> bool {
        &&& self.incoming.no_duplicates()
        &&& self.old.no_duplicates()
        &&& self.next.no_duplicates()
        &&& self.new.no_duplicates()
    }
}

impl TableauView {
    /// Every obligation of every node and state is in normal form.
    pub open spec fn in_normal_form(self) -> bool {
        &&& forall|i: int| 0 <= i < self.states.len() ==> (#[trigger] self.states[i]).in_normal_form()
        &&& forall|i: int|
            0 <= i < self.pending.len() ==> (#[trigger] self.pending[i]).in_normal_form()
    }

    /// Every obligation of every node and state is a part of `whole`.
    pub open spec fn drawn_from(self, whole: LtlFormula<u8>) -> bool {
        &&& forall|i: int|
            0 <= i < self.states.len() ==> (#[trigger] self.states[i]).drawn_from(whole)
        &&& forall|i: int|
            0 <= i < self.pending.len() ==> (#[trigger] self.pending[i]).drawn_from(whole)
    }

    /// None of the lists of a node or of a state holds anything twice.
    pub open spec fn duplicate_free(self) -> bool {
        &&& forall|i: int|
            0 <= i < self.states.len() ==> (#[trigger] self.states[i]).duplicate_free()
        &&& forall|i: int|
            0 <= i < self.pending.len() ==> (#[trigger] self.pending[i]).duplicate_free()
    }

    /// No more names were handed out than the limit allows, and no more nodes
    /// and states exist than names were handed out.
    pub open spec fn bounded(self) -> bool {
        &&& self.counter <= self.limit
        &&& self.states.len() + self.pending.len() <= self.counter
    }

    /// Every state is fully expanded, and no two states have the same shape.
    pub open spec fn states_distinct(self) -> bool {
        &&& forall|i: int| 0 <= i < self.states.len() ==> (#[trigger] self.states[i]).is_fully_expanded()
        &&& forall|i: int, j: int|
            0 <= i < j < self.states.len() ==> !(#[trigger] self.states[i]).same_shape(
                #[trigger] self.states[j],
            )
    }

    /// No state and no node has processed `Bottom`, or a formula together with its negation.
    pub open spec fn free_of_contradiction(self) -> bool {
        &&& forall|i: int|
            0 <= i < self.states.len() ==> free_of_contradiction((#[trigger] self.states[i]).old)
        &&& forall|i: int|
            0 <= i < self.pending.len() ==> free_of_contradiction(
                (#[trigger] self.pending[i]).old,
            )
    }

    /// States and nodes are named by numerals of numbers that were handed out,
    /// and no two of them have the same name.
    pub open spec fn names_distinct(self) -> bool {
        &&& forall|i: int|
            0 <= i < self.states.len() ==> is_name_up_to(
                (#[trigger] self.states[i]).name,
                self.counter,
            )
        &&& forall|i: int|
            0 <= i < self.pending.len() ==> is_name_up_to(
                (#[trigger] self.pending[i]).name,
                self.counter,
            )
        &&& forall|i: int, j: int|
            0 <= i < j < self.states.len() ==> (#[trigger] self.states[i]).name != (
            #[trigger] self.states[j]).name
        &&& forall|i: int, j: int|
            0 <= i < j < self.pending.len() ==> (#[trigger] self.pending[i]).name != (
            #[trigger] self.pending[j]).name
        &&& forall|i: int, j: int|
            0 <= i < self.states.len() && 0 <= j < self.pending.len() ==> (
            #[trigger] self.states[i]).name != (#[trigger] self.pending[j]).name
    }
}

/// Adjoining formulas in normal form keeps a list in normal form.
pub proof fn lemma_adjoined_in_normal_form(
    list: Seq<LtlFormula<u8>>,
    formulas: Seq<LtlFormula<u8>>,
    seen: Seq<LtlFormula<u8>>,
)
    requires
        all_in_normal_form(list),
        all_in_normal_form(formulas),
    ensures
        all_in_normal_form(adjoin_all(list, formulas)),
        all_in_normal_form(adjoin_all_unless_in(list, formulas, seen)),
    decreases formulas.len(),
{
    if formulas.len() > 0 {
        lemma_adjoined_in_normal_form(list, formulas.drop_last(), seen);
    }
}

/// The operands of a formula in normal form are in normal form.
pub proof fn lemma_split_parts_in_normal_form(formula: LtlFormula<u8>)
    requires
        formula.in_normal_form(),
        splits(formula),
    ensures
        new_1(formula).in_normal_form(),
        all_in_normal_form(new_2(formula)),
        all_in_normal_form(next_1(formula)),
{
}

/// A step keeps every obligation in normal form.
pub proof fn lemma_step_keeps_normal_form(before: TableauView)
    requires
        before.pending.len() > 0,
        before.in_normal_form(),
        before.step() is Some,
    ensures
        before.step().unwrap().in_normal_form(),
{
    let node = before.pending.last();
    let after = before.step().unwrap();
    assert(node.in_normal_form());
    if node.is_fully_expanded() {
    } else {
        let formula = node.new.last();
        let rest = node.without_last_new();
        assert(formula.in_normal_form());
        assert(rest.in_normal_form());
        if formula.spec_is_literal() {
        } else {
            match formula {
                LtlFormula::Until(_, _) | LtlFormula::Release(_, _) | LtlFormula::Or(_, _) => {
                    lemma_split_parts_in_normal_form(formula);
                    lemma_adjoined_in_normal_form(rest.new, new_2(formula), rest.old);
                    lemma_adjoined_in_normal_form(rest.next, next_1(formula), rest.old);
                },
                _ => {},
            }
        }
    }
}

/// A step hands out a name for every node and every state that it adds.
pub proof fn lemma_step_keeps_bounded(before: TableauView)
    requires
        before.pending.len() > 0,
        before.bounded(),
        before.step() is Some,
    ensures
        before.step().unwrap().bounded(),
{
}

/// A step adds a state only where no state has the shape of the node.
pub proof fn lemma_step_keeps_states_distinct(before: TableauView)
    requires
        before.pending.len() > 0,
        before.states_distinct(),
        before.step() is Some,
    ensures
        before.step().unwrap().states_distinct(),
{
    let node = before.pending.last();
    let after = before.step().unwrap();
    if node.is_fully_expanded() {
        if holds_shape(before.states, node) {
            let at = position_of_shape(before.states, node);
            assert forall|i: int| 0 <= i < after.states.len() implies (
            #[trigger] after.states[i]).is_fully_expanded() && after.states[i].same_shape(
                before.states[i],
            ) by {
                assert(before.states[i].is_fully_expanded());
            }
            assert forall|i: int, j: int| 0 <= i < j < after.states.len() implies !(
            #[trigger] after.states[i]).same_shape(#[trigger] after.states[j]) by {
                assert(after.states[i].same_shape(before.states[i]));
                assert(after.states[j].same_shape(before.states[j]));
                assert(!before.states[i].same_shape(before.states[j]));
            }
        } else {
            assert forall|i: int, j: int| 0 <= i < j < after.states.len() implies !(
            #[trigger] after.states[i]).same_shape(#[trigger] after.states[j]) by {
                if j < before.states.len() {
                    assert(!before.states[i].same_shape(before.states[j]));
                } else {
                    assert(!before.states[i].same_shape(node));
                }
            }
        }
    }
}

/// A formula in normal form that is no literal negates nothing, and nothing in normal form negates it.
pub proof fn lemma_processed_formula_contradicts_nothing(
    old: Seq<LtlFormula<u8>>,
    formula: LtlFormula<u8>,
)
    requires
        all_in_normal_form(old),
        free_of_contradiction(old),
        formula.in_normal_form(),
        !formula.spec_is_literal(),
    ensures
        free_of_contradiction(old.push(formula)),
        free_of_contradiction(adjoin(old, formula)),
{
    let longer = old.push(formula);
    if longer.contains(LtlFormula::Bottom) {
        let i = choose|i: int| 0 <= i < longer.len() && longer[i] == LtlFormula::<u8>::Bottom;
        assert(old[i] == LtlFormula::<u8>::Bottom);
        assert(old.contains(LtlFormula::Bottom));
    }
    assert forall|other: LtlFormula<u8>|
        !(longer.contains(other) && #[trigger] longer.contains(
            LtlFormula::Not(Box::new(other)),
        )) by {
        let negation = LtlFormula::Not(Box::new(other));
        if longer.contains(other) && longer.contains(negation) {
            let i = choose|i: int| 0 <= i < longer.len() && longer[i] == other;
            let j = choose|j: int| 0 <= j < longer.len() && longer[j] == negation;
            assert(negation != formula);
            assert(old[j] == negation);
            assert(old.contains(negation));
            if i < old.len() {
                assert(old[i] == other);
                assert(old.contains(other));
            } else {
                assert(old[j].in_normal_form());
            }
        }
    }
}

/// A literal other than `Bottom` that the node does not contradict can join what the node has processed.
pub proof fn lemma_committed_literal_contradicts_nothing(
    node: NodeView,
    literal: LtlFormula<u8>,
)
    requires
        free_of_contradiction(node.old),
        literal != LtlFormula::<u8>::Bottom,
        !node.contradicts(literal),
    ensures
        free_of_contradiction(node.old.push(literal)),
        free_of_contradiction(adjoin(node.old, literal)),
{
    let old = node.old;
    let longer = old.push(literal);
    if longer.contains(LtlFormula::Bottom) {
        let i = choose|i: int| 0 <= i < longer.len() && longer[i] == LtlFormula::<u8>::Bottom;
        assert(old[i] == LtlFormula::<u8>::Bottom);
        assert(old.contains(LtlFormula::Bottom));
    }
    assert forall|other: LtlFormula<u8>|
        !(longer.contains(other) && #[trigger] longer.contains(
            LtlFormula::Not(Box::new(other)),
        )) by {
        let negation = LtlFormula::Not(Box::new(other));
        if longer.contains(other) && longer.contains(negation) {
            let i = choose|i: int| 0 <= i < longer.len() && longer[i] == other;
            let j = choose|j: int| 0 <= j < longer.len() && longer[j] == negation;
            if i < old.len() {
                assert(old[i] == other);
                assert(old.contains(other));
                if j < old.len() {
                    assert(old[j] == negation);
                    assert(old.contains(negation));
                } else {
                    assert(literal == negation);
                }
            } else {
                assert(other == literal);
                assert(j < old.len());
                assert(old[j] == negation);
                assert(old.contains(negation));
            }
        }
    }
}

/// A step never lets a formula and its negation come together in `old`.
pub proof fn lemma_step_keeps_free_of_contradiction(before: TableauView)
    requires
        before.pending.len() > 0,
        before.in_normal_form(),
        before.free_of_contradiction(),
        before.step() is Some,
    ensures
        before.step().unwrap().free_of_contradiction(),
{
    let node = before.pending.last();
    let after = before.step().unwrap();
    assert(node.in_normal_form());
    assert(free_of_contradiction(node.old));
    assert(free_of_contradiction(Seq::<LtlFormula<u8>>::empty()));
    if node.is_fully_expanded() {
        if holds_shape(before.states, node) {
            let at = position_of_shape(before.states, node);
            assert forall|i: int| 0 <= i < after.states.len() implies free_of_contradiction(
                (#[trigger] after.states[i]).old,
            ) by {
                assert(after.states[i].old == before.states[i].old);
            }
        }
    } else {
        let formula = node.new.last();
        let rest = node.without_last_new();
        if formula.spec_is_literal() {
            if !(formula == LtlFormula::<u8>::Bottom || rest.contradicts(formula)) {
                lemma_committed_literal_contradicts_nothing(rest, formula);
            }
        } else {
            lemma_processed_formula_contradicts_nothing(rest.old, formula);
        }
    }
}

/// A name that is newly handed out differs from every name in use.
pub proof fn lemma_new_name_is_fresh(name: Seq<char>, counter: nat, later: nat)
    requires
        is_name_up_to(name, counter),
        counter < later,
    ensures
        name != decimal(later),
        is_name_up_to(name, later),
{
    let number = choose|number: nat| 1 <= number <= counter && name == #[trigger] decimal(number);
    if name == decimal(later) {
        lemma_decimal_injective(number, later);
    }
}

/// A step names what it adds by numerals that were not in use.
pub proof fn lemma_step_keeps_names_distinct(before: TableauView)
    requires
        before.pending.len() > 0,
        before.names_distinct(),
        before.step() is Some,
    ensures
        before.step().unwrap().names_distinct(),
{
    let node = before.pending.last();
    let rest = before.pending.drop_last();
    let last = before.pending.len() - 1;
    let after = before.step().unwrap();
    let first_name = decimal(before.counter + 1);
    let second_name = decimal(before.counter + 2);
    assert(is_name_up_to(first_name, before.counter + 1));
    assert(is_name_up_to(first_name, before.counter + 2));
    assert(is_name_up_to(second_name, before.counter + 2));
    if first_name == second_name {
        lemma_decimal_injective(before.counter + 1, before.counter + 2);
    }
    assert(node == before.pending[last]);
    assert forall|i: int| 0 <= i < before.states.len() implies {
        &&& (#[trigger] before.states[i]).name != first_name
        &&& before.states[i].name != second_name
        &&& is_name_up_to(before.states[i].name, before.counter + 1)
        &&& is_name_up_to(before.states[i].name, before.counter + 2)
    } by {
        lemma_new_name_is_fresh(before.states[i].name, before.counter, before.counter + 1);
        lemma_new_name_is_fresh(before.states[i].name, before.counter, before.counter + 2);
    }
    assert forall|i: int| 0 <= i < before.pending.len() implies {
        &&& (#[trigger] before.pending[i]).name != first_name
        &&& before.pending[i].name != second_name
        &&& is_name_up_to(before.pending[i].name, before.counter + 1)
        &&& is_name_up_to(before.pending[i].name, before.counter + 2)
    } by {
        lemma_new_name_is_fresh(before.pending[i].name, before.counter, before.counter + 1);
        lemma_new_name_is_fresh(before.pending[i].name, before.counter, before.counter + 2);
    }
    assert forall|i: int| 0 <= i < rest.len() implies #[trigger] rest[i] == before.pending[i] by {}
    if node.is_fully_expanded() {
        if holds_shape(before.states, node) {
            let at = position_of_shape(before.states, node);
            assert forall|i: int| 0 <= i < after.states.len() implies (
            #[trigger] after.states[i]).name == before.states[i].name by {}
        } else {
        }
    } else {
    }
}

/// Adjoining parts of a formula keeps a list of parts of that formula.
pub proof fn lemma_adjoined_parts(
    list: Seq<LtlFormula<u8>>,
    formulas: Seq<LtlFormula<u8>>,
    seen: Seq<LtlFormula<u8>>,
    whole: LtlFormula<u8>,
)
    requires
        all_parts_of(list, whole),
        all_parts_of(formulas, whole),
    ensures
        all_parts_of(adjoin_all(list, formulas), whole),
        all_parts_of(adjoin_all_unless_in(list, formulas, seen), whole),
    decreases formulas.len(),
{
    if formulas.len() > 0 {
        lemma_adjoined_parts(list, formulas.drop_last(), seen, whole);
    }
}

/// What a rule hands on of a part of a formula is a part of that formula.
pub proof fn lemma_operands_are_parts(formula: LtlFormula<u8>, whole: LtlFormula<u8>)
    requires
        formula.is_part_of(whole),
    ensures
        splits(formula) ==> new_1(formula).is_part_of(whole) && all_parts_of(
            new_2(formula),
            whole,
        ) && all_parts_of(next_1(formula), whole),
        formula matches LtlFormula::And(left, right) ==> left.is_part_of(whole)
            && right.is_part_of(whole),
        formula matches LtlFormula::Next(inner) ==> inner.is_part_of(whole),
{
    match formula {
        LtlFormula::Or(left, right)
        | LtlFormula::And(left, right)
        | LtlFormula::Until(left, right)
        | LtlFormula::Release(left, right) => {
            assert(left.is_part_of(*left));
            assert(right.is_part_of(*right));
            lemma_part_of_part(*left, formula, whole);
            lemma_part_of_part(*right, formula, whole);
        },
        LtlFormula::Next(inner) => {
            assert(inner.is_part_of(*inner));
            lemma_part_of_part(*inner, formula, whole);
        },
        _ => {},
    }
}

/// A step hands on parts of the formula only.
pub proof fn lemma_step_keeps_drawn_from(before: TableauView, whole: LtlFormula<u8>)
    requires
        before.pending.len() > 0,
        before.drawn_from(whole),
        before.step() is Some,
    ensures
        before.step().unwrap().drawn_from(whole),
{
    let node = before.pending.last();
    let after = before.step().unwrap();
    assert(node.drawn_from(whole));
    if node.is_fully_expanded() {
        if holds_shape(before.states, node) {
            let at = position_of_shape(before.states, node);
            assert forall|i: int| 0 <= i < after.states.len() implies (
            #[trigger] after.states[i]).drawn_from(whole) by {
                assert(before.states[i].drawn_from(whole));
            }
        }
    } else {
        let formula = node.new.last();
        let rest = node.without_last_new();
        assert(formula.is_part_of(whole));
        assert(rest.drawn_from(whole));
        lemma_operands_are_parts(formula, whole);
        if splits(formula) {
            lemma_adjoined_parts(rest.new, new_2(formula), rest.old, whole);
            lemma_adjoined_parts(rest.next, next_1(formula), rest.old, whole);
        }
    }
}

/// A step adjoins, so that no list comes to hold anything twice.
pub proof fn lemma_step_keeps_duplicate_free(before: TableauView)
    requires
        before.pending.len() > 0,
        before.duplicate_free(),
        before.step() is Some,
    ensures
        before.step().unwrap().duplicate_free(),
{
    let node = before.pending.last();
    let after = before.step().unwrap();
    assert(node.duplicate_free());
    if node.is_fully_expanded() {
        if holds_shape(before.states, node) {
            let at = position_of_shape(before.states, node);
            lemma_adjoin_all(before.states[at].incoming, node.incoming);
            assert forall|i: int| 0 <= i < after.states.len() implies (
            #[trigger] after.states[i]).duplicate_free() by {
                assert(before.states[i].duplicate_free());
            }
        } else {
            assert(seq![node.name].no_duplicates());
            assert(Seq::<LtlFormula<u8>>::empty().no_duplicates());
        }
    } else {
        let formula = node.new.last();
        let rest = node.without_last_new();
        assert(rest.new.no_duplicates());
        if splits(formula) {
            lemma_adjoin_all(rest.next, next_1(formula));
            lemma_adjoin_all_unless_in(rest.new, new_2(formula), rest.old);
        }
    }
}

} // verus!
