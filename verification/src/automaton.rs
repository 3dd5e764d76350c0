//! The graph of a formula, said without the order in which it is built: which
//! fully expanded nodes come of a node by the rules, which states a graph has
//! to have, and which edges.

use vstd::prelude::*;
use crate::adjoin::adjoin;
use crate::adjoin::adjoin_all;
use crate::adjoin::adjoin_all_unless_in;
use crate::adjoin::lemma_adjoin_all;
use crate::closure::closure;
use crate::closure::lemma_states_are_few;
use crate::closure::shape_limit;
use crate::laws::free_of_contradiction;
use crate::laws::is_name_up_to;
use crate::laws::lemma_step_keeps_bounded;
use crate::laws::lemma_step_keeps_drawn_from;
use crate::laws::lemma_step_keeps_duplicate_free;
use crate::laws::lemma_step_keeps_free_of_contradiction;
use crate::laws::lemma_step_keeps_names_distinct;
use crate::laws::lemma_step_keeps_normal_form;
use crate::laws::lemma_step_keeps_states_distinct;
use crate::ltl_formula::LtlFormula;
use crate::node_name::INIT;
use crate::node_name::decimal;
use crate::node_name::lemma_init_is_no_numeral;
use crate::tableau::NodeView;
use crate::tableau::TableauView;
use crate::tableau::holds_shape;
use crate::tableau::lemma_step_decreases;
use crate::tableau::lemma_total_weight_push;
use crate::tableau::lemma_weight_positive;
use crate::tableau::new_1;
use crate::tableau::new_2;
use crate::tableau::pending_weight;
use crate::tableau::position_of_shape;
use crate::tableau::splits;
use crate::tableau::total_weight;
use crate::tableau::weight;

verus! {

/// Adjoining formulas adds no more weight than the formulas have.
pub proof fn lemma_adjoined_weight(
    list: Seq<LtlFormula<u8>>,
    formulas: Seq<LtlFormula<u8>>,
    seen: Seq<LtlFormula<u8>>,
)
    ensures
        total_weight(adjoin_all_unless_in(list, formulas, seen)) <= total_weight(list)
            + total_weight(formulas),
    decreases formulas.len(),
{
    if formulas.len() > 0 {
        lemma_adjoined_weight(list, formulas.drop_last(), seen);
        lemma_total_weight_push(
            adjoin_all_unless_in(list, formulas.drop_last(), seen),
            formulas.last(),
        );
    }
}

/// What a rule leaves to process weighs less than what the node had to process.
pub proof fn lemma_rules_lighten(node: NodeView, name: Seq<char>)
    requires
        !node.is_fully_expanded(),
    ensures
        ({
            let formula = node.new.last();
            let rest = node.without_last_new();
            &&& total_weight(rest.new) < total_weight(node.new)
            &&& splits(formula) ==> total_weight(rest.first_branch(formula, name).new)
                < total_weight(node.new)
            &&& splits(formula) ==> total_weight(rest.second_branch(formula, name).new)
                < total_weight(node.new)
            &&& formula matches LtlFormula::And(left, right) ==> total_weight(
                rest.with_conjuncts(*left, *right, formula).new,
            ) < total_weight(node.new)
        }),
{
    let formula = node.new.last();
    let rest = node.without_last_new();
    lemma_weight_positive(formula);
    if splits(formula) {
        lemma_total_weight_push(rest.new, new_1(formula));
        lemma_adjoined_weight(rest.new, new_2(formula), rest.old);
        let parts = new_2(formula);
        if parts.len() == 2 {
            assert(parts.drop_last().drop_last() =~= Seq::<LtlFormula<u8>>::empty());
            assert(total_weight(parts) == weight(parts[0]) + weight(parts[1])) by {
                assert(total_weight(parts.drop_last()) == weight(parts[0])) by {
                    assert(parts.drop_last().last() == parts[0]);
                    assert(total_weight(parts.drop_last().drop_last()) == 0);
                }
            }
        } else {
            assert(parts.drop_last() =~= Seq::<LtlFormula<u8>>::empty());
            assert(total_weight(parts) == weight(parts[0])) by {
                assert(total_weight(parts.drop_last()) == 0);
            }
        }
    }
    match formula {
        LtlFormula::And(left, right) => {
            let with_left = adjoin(rest.new, *left);
            lemma_total_weight_push(rest.new, *left);
            lemma_total_weight_push(with_left, *right);
        },
        _ => {},
    }
}

/// A fully expanded node with this `old` and this `next` comes of `node` by the
/// rules: `node` is it, or it comes of what a rule makes of `node`.
pub open spec fn completes(
    node: NodeView,
    old: Seq<LtlFormula<u8>>,
    next: Seq<LtlFormula<u8>>,
) -> bool
    decreases total_weight(node.new),
{
    if node.is_fully_expanded() {
        node.old == old && node.next == next
    } else {
        let formula = node.new.last();
        let rest = node.without_last_new();
        proof {
            lemma_rules_lighten(node, rest.name);
        }
        if formula.spec_is_literal() {
            &&& formula != LtlFormula::<u8>::Bottom
            &&& !rest.contradicts(formula)
            &&& completes(rest.with_literal(formula, rest.name), old, next)
        } else {
            match formula {
                LtlFormula::Until(_, _) | LtlFormula::Release(_, _) | LtlFormula::Or(_, _) => {
                    ||| completes(rest.first_branch(formula, rest.name), old, next)
                    ||| completes(rest.second_branch(formula, rest.name), old, next)
                },
                LtlFormula::And(left, right) => completes(
                    rest.with_conjuncts(*left, *right, formula),
                    old,
                    next,
                ),
                LtlFormula::Next(inner) => completes(rest.with_next(formula, *inner), old, next),
                _ => false,
            }
        }
    }
}

/// The two nodes have the same `old`, the same `next` and the same `new`.
pub open spec fn same_obligations(first: NodeView, second: NodeView) -> bool {
    first.old == second.old && first.next == second.next && first.new == second.new
}

/// What comes of a node depends on its obligations only, not on its name or its edges.
pub proof fn lemma_completes_by_obligations(
    first: NodeView,
    second: NodeView,
    old: Seq<LtlFormula<u8>>,
    next: Seq<LtlFormula<u8>>,
)
    requires
        same_obligations(first, second),
    ensures
        completes(first, old, next) == completes(second, old, next),
    decreases total_weight(first.new),
{
    if !first.is_fully_expanded() {
        let formula = first.new.last();
        let rest_1 = first.without_last_new();
        let rest_2 = second.without_last_new();
        lemma_rules_lighten(first, rest_1.name);
        if formula.spec_is_literal() {
            lemma_completes_by_obligations(
                rest_1.with_literal(formula, rest_1.name),
                rest_2.with_literal(formula, rest_2.name),
                old,
                next,
            );
        } else {
            match formula {
                LtlFormula::Until(_, _) | LtlFormula::Release(_, _) | LtlFormula::Or(_, _) => {
                    lemma_completes_by_obligations(
                        rest_1.first_branch(formula, rest_1.name),
                        rest_2.first_branch(formula, rest_2.name),
                        old,
                        next,
                    );
                    lemma_completes_by_obligations(
                        rest_1.second_branch(formula, rest_1.name),
                        rest_2.second_branch(formula, rest_2.name),
                        old,
                        next,
                    );
                },
                LtlFormula::And(left, right) => {
                    lemma_completes_by_obligations(
                        rest_1.with_conjuncts(*left, *right, formula),
                        rest_2.with_conjuncts(*left, *right, formula),
                        old,
                        next,
                    );
                },
                LtlFormula::Next(inner) => {
                    lemma_completes_by_obligations(
                        rest_1.with_next(formula, *inner),
                        rest_2.with_next(formula, *inner),
                        old,
                        next,
                    );
                },
                _ => {},
            }
        }
    }
}

/// What comes of a node is what comes of the nodes that its rule makes of it,
/// whatever their names are.
pub proof fn lemma_completes_unfolds(
    node: NodeView,
    old: Seq<LtlFormula<u8>>,
    next: Seq<LtlFormula<u8>>,
    first_name: Seq<char>,
    second_name: Seq<char>,
)
    requires
        !node.is_fully_expanded(),
    ensures
        ({
            let formula = node.new.last();
            let rest = node.without_last_new();
            if formula.spec_is_literal() {
                completes(node, old, next) == {
                    &&& formula != LtlFormula::<u8>::Bottom
                    &&& !rest.contradicts(formula)
                    &&& completes(rest.with_literal(formula, first_name), old, next)
                }
            } else if splits(formula) {
                completes(node, old, next) == {
                    ||| completes(rest.first_branch(formula, first_name), old, next)
                    ||| completes(rest.second_branch(formula, second_name), old, next)
                }
            } else {
                match formula {
                    LtlFormula::And(left, right) => completes(node, old, next) == completes(
                        rest.with_conjuncts(*left, *right, formula),
                        old,
                        next,
                    ),
                    LtlFormula::Next(inner) => completes(node, old, next) == completes(
                        rest.with_next(formula, *inner),
                        old,
                        next,
                    ),
                    _ => !completes(node, old, next),
                }
            }
        }),
{
    let formula = node.new.last();
    let rest = node.without_last_new();
    if formula.spec_is_literal() {
        lemma_completes_by_obligations(
            rest.with_literal(formula, rest.name),
            rest.with_literal(formula, first_name),
            old,
            next,
        );
    } else if splits(formula) {
        lemma_completes_by_obligations(
            rest.first_branch(formula, rest.name),
            rest.first_branch(formula, first_name),
            old,
            next,
        );
        lemma_completes_by_obligations(
            rest.second_branch(formula, rest.name),
            rest.second_branch(formula, second_name),
            old,
            next,
        );
    }
}

impl TableauView {
    /// A fully expanded node with this `old` and this `next` comes of the node
    /// that `source` stands for: of the initial node of `formula` where `source`
    /// is the marker, of the successor seed of a state where `source` names it.
    pub open spec fn comes_from(
        self,
        formula: LtlFormula<u8>,
        source: Seq<char>,
        old: Seq<LtlFormula<u8>>,
        next: Seq<LtlFormula<u8>>,
    ) -> bool {
        ||| source == INIT@ && completes(NodeView::initial(decimal(1), formula), old, next)
        ||| exists|j: int|
            0 <= j < self.states.len() && (#[trigger] self.states[j]).name == source && completes(
                self.states[j].successor_seed(source),
                old,
                next,
            )
    }

    /// A state with this `old` and this `next` has an edge from `source`, or a
    /// node on the stack that `source` reaches will still come to them.
    pub open spec fn reached(
        self,
        source: Seq<char>,
        old: Seq<LtlFormula<u8>>,
        next: Seq<LtlFormula<u8>>,
    ) -> bool {
        ||| exists|i: int|
            0 <= i < self.states.len() && (#[trigger] self.states[i]).old == old
                && self.states[i].next == next && self.states[i].incoming.contains(source)
        ||| exists|i: int|
            0 <= i < self.pending.len() && (#[trigger] self.pending[i]).incoming == seq![source]
                && completes(self.pending[i], old, next)
    }

    /// Every edge into a state is one that the rules give, and every node on the
    /// stack can come only to what the rules give to its source.
    pub open spec fn sound(self, formula: LtlFormula<u8>) -> bool {
        &&& forall|i: int, k: int|
            0 <= i < self.states.len() && 0 <= k < self.states[i].incoming.len()
                ==> self.comes_from(
                formula,
                #[trigger] self.states[i].incoming[k],
                self.states[i].old,
                self.states[i].next,
            )
        &&& forall|i: int, old: Seq<LtlFormula<u8>>, next: Seq<LtlFormula<u8>>|
            0 <= i < self.pending.len() && #[trigger] completes(self.pending[i], old, next)
                ==> self.comes_from(formula, self.pending[i].incoming[0], old, next)
    }

    /// Every state and every edge that the rules give is there, or will come of
    /// a node on the stack.
    pub open spec fn complete(self, formula: LtlFormula<u8>) -> bool {
        forall|source: Seq<char>, old: Seq<LtlFormula<u8>>, next: Seq<LtlFormula<u8>>| #[trigger]
            self.comes_from(formula, source, old, next) ==> self.reached(source, old, next)
    }

    /// The first edge into a state comes from the marker or from an earlier
    /// state, and the one edge into a node on the stack from the marker or from a state.
    pub open spec fn rooted(self) -> bool {
        &&& forall|i: int|
            0 <= i < self.states.len() ==> {
                &&& (#[trigger] self.states[i]).incoming.len() > 0
                &&& (self.states[i].incoming[0] == INIT@ || exists|j: int|
                    0 <= j < i && (#[trigger] self.states[j]).name == self.states[i].incoming[0])
            }
        &&& forall|i: int|
            0 <= i < self.pending.len() ==> {
                &&& (#[trigger] self.pending[i]).incoming.len() == 1
                &&& (self.pending[i].incoming[0] == INIT@ || exists|j: int|
                    0 <= j < self.states.len() && (#[trigger] self.states[j]).name
                        == self.pending[i].incoming[0])
            }
    }
}

/// A step leaves the states where they are, with their names and their shapes,
/// and adds edges behind those that a state has.
pub proof fn lemma_step_extends_states(before: TableauView)
    requires
        before.pending.len() > 0,
        before.step() is Some,
    ensures
        ({
            let after = before.step().unwrap();
            &&& before.states.len() <= after.states.len() <= before.states.len() + 1
            &&& forall|j: int|
                0 <= j < before.states.len() ==> {
                    &&& (#[trigger] after.states[j]).name == before.states[j].name
                    &&& after.states[j].old == before.states[j].old
                    &&& after.states[j].next == before.states[j].next
                    &&& before.states[j].incoming.is_prefix_of(after.states[j].incoming)
                }
        }),
{
    let node = before.pending.last();
    let after = before.step().unwrap();
    if node.is_fully_expanded() && holds_shape(before.states, node) {
        let at = position_of_shape(before.states, node);
        assert forall|j: int| 0 <= j < before.states.len() implies {
            &&& (#[trigger] after.states[j]).name == before.states[j].name
            &&& after.states[j].old == before.states[j].old
            &&& after.states[j].next == before.states[j].next
            &&& before.states[j].incoming.is_prefix_of(after.states[j].incoming)
        } by {
            if j == at {
                lemma_adjoin_all(before.states[j].incoming, node.incoming);
            }
        }
    }
}

/// What comes from a source before a step comes from it after the step.
pub proof fn lemma_step_keeps_sources(
    before: TableauView,
    formula: LtlFormula<u8>,
    source: Seq<char>,
    old: Seq<LtlFormula<u8>>,
    next: Seq<LtlFormula<u8>>,
)
    requires
        before.pending.len() > 0,
        before.step() is Some,
        before.comes_from(formula, source, old, next),
    ensures
        before.step().unwrap().comes_from(formula, source, old, next),
{
    let after = before.step().unwrap();
    lemma_step_extends_states(before);
    if !(source == INIT@ && completes(NodeView::initial(decimal(1), formula), old, next)) {
        let j = choose|j: int|
            0 <= j < before.states.len() && (#[trigger] before.states[j]).name == source
                && completes(before.states[j].successor_seed(source), old, next);
        lemma_completes_by_obligations(
            before.states[j].successor_seed(source),
            after.states[j].successor_seed(source),
            old,
            next,
        );
        assert(after.states[j].name == source);
    }
}

/// A step hangs every node that it adds under the marker or under a state.
pub proof fn lemma_step_keeps_rooted(before: TableauView)
    requires
        before.pending.len() > 0,
        before.rooted(),
        before.step() is Some,
    ensures
        before.step().unwrap().rooted(),
{
    let node = before.pending.last();
    let rest = before.pending.drop_last();
    let after = before.step().unwrap();
    let source = node.incoming[0];
    lemma_step_extends_states(before);
    assert(node == before.pending[before.pending.len() - 1]);
    assert(node.incoming.len() == 1);
    assert(node.incoming =~= seq![source]);
    assert forall|i: int| 0 <= i < after.states.len() implies {
        &&& (#[trigger] after.states[i]).incoming.len() > 0
        &&& (after.states[i].incoming[0] == INIT@ || exists|j: int|
            0 <= j < i && (#[trigger] after.states[j]).name == after.states[i].incoming[0])
    } by {
        if i < before.states.len() {
            let entry = before.states[i].incoming[0];
            assert(after.states[i].incoming[0] == entry);
            if entry != INIT@ {
                let j = choose|j: int| 0 <= j < i && (#[trigger] before.states[j]).name == entry;
                assert(after.states[j].name == entry);
            }
        } else {
            assert(after.states[i] == node);
            if source != INIT@ {
                let j = choose|j: int|
                    0 <= j < before.states.len() && (#[trigger] before.states[j]).name == source;
                assert(after.states[j].name == source);
            }
        }
    }
    assert forall|i: int| 0 <= i < after.pending.len() implies {
        &&& (#[trigger] after.pending[i]).incoming.len() == 1
        &&& (after.pending[i].incoming[0] == INIT@ || exists|j: int|
            0 <= j < after.states.len() && (#[trigger] after.states[j]).name
                == after.pending[i].incoming[0])
    } by {
        if i < rest.len() {
            let entry = before.pending[i].incoming[0];
            assert(after.pending[i] == before.pending[i]);
            if entry != INIT@ {
                let j = choose|j: int|
                    0 <= j < before.states.len() && (#[trigger] before.states[j]).name == entry;
                assert(after.states[j].name == entry);
            }
        } else if node.is_fully_expanded() {
            let j = before.states.len() as int;
            assert(after.states[j] == node);
            assert(after.pending[i].incoming[0] == after.states[j].name);
        } else {
            assert(after.pending[i].incoming == node.incoming);
            if source != INIT@ {
                let j = choose|j: int|
                    0 <= j < before.states.len() && (#[trigger] before.states[j]).name == source;
                assert(after.states[j].name == source);
            }
        }
    }
}

/// A step adds only states and edges that the rules give.
pub proof fn lemma_step_keeps_sound(before: TableauView, formula: LtlFormula<u8>)
    requires
        before.pending.len() > 0,
        before.rooted(),
        before.sound(formula),
        before.step() is Some,
    ensures
        before.step().unwrap().sound(formula),
{
    let node = before.pending.last();
    let rest = before.pending.drop_last();
    let last = before.pending.len() - 1;
    let after = before.step().unwrap();
    let source = node.incoming[0];
    let first_name = decimal(before.counter + 1);
    let second_name = decimal(before.counter + 2);
    lemma_step_extends_states(before);
    assert(node == before.pending[last]);
    assert(node.incoming =~= seq![source]);
    assert forall|i: int, k: int|
        0 <= i < after.states.len() && 0 <= k < after.states[i].incoming.len()
        implies after.comes_from(
        formula,
        #[trigger] after.states[i].incoming[k],
        after.states[i].old,
        after.states[i].next,
    ) by {
        let old = after.states[i].old;
        let next = after.states[i].next;
        if i < before.states.len() && k < before.states[i].incoming.len() {
            assert(after.states[i].incoming[k] == before.states[i].incoming[k]);
            lemma_step_keeps_sources(before, formula, before.states[i].incoming[k], old, next);
        } else {
            // the edge is the one that the node brought along
            assert(node.is_fully_expanded());
            let entry = after.states[i].incoming[k];
            assert(after.states[i].incoming.contains(entry));
            if i < before.states.len() {
                lemma_adjoin_all(before.states[i].incoming, node.incoming);
                if before.states[i].incoming.contains(entry) {
                    let earlier = choose|earlier: int|
                        0 <= earlier < before.states[i].incoming.len()
                            && before.states[i].incoming[earlier] == entry;
                    assert(before.comes_from(
                        formula,
                        before.states[i].incoming[earlier],
                        old,
                        next,
                    ));
                    lemma_step_keeps_sources(before, formula, entry, old, next);
                } else {
                    assert(node.incoming.contains(entry));
                    assert(entry == source);
                    assert(completes(before.pending[last], old, next));
                    lemma_step_keeps_sources(before, formula, source, old, next);
                }
            } else {
                assert(entry == source);
                assert(completes(before.pending[last], old, next));
                lemma_step_keeps_sources(before, formula, source, old, next);
            }
        }
    }
    assert forall|i: int, old: Seq<LtlFormula<u8>>, next: Seq<LtlFormula<u8>>|
        0 <= i < after.pending.len() && #[trigger] completes(
            after.pending[i],
            old,
            next,
        ) implies after.comes_from(formula, after.pending[i].incoming[0], old, next) by {
        if i < rest.len() {
            assert(after.pending[i] == before.pending[i]);
            lemma_step_keeps_sources(before, formula, before.pending[i].incoming[0], old, next);
        } else if node.is_fully_expanded() {
            let j = before.states.len() as int;
            assert(after.states[j] == node);
            lemma_completes_by_obligations(
                node.successor_seed(first_name),
                after.states[j].successor_seed(node.name),
                old,
                next,
            );
        } else {
            lemma_completes_unfolds(node, old, next, first_name, second_name);
            assert(after.pending[i].incoming == node.incoming);
            assert(completes(before.pending[last], old, next));
            lemma_step_keeps_sources(before, formula, source, old, next);
        }
    }
}

/// What is reached before a step is reached after it.
pub proof fn lemma_step_keeps_reached(
    before: TableauView,
    source: Seq<char>,
    old: Seq<LtlFormula<u8>>,
    next: Seq<LtlFormula<u8>>,
)
    requires
        before.pending.len() > 0,
        before.step() is Some,
        before.reached(source, old, next),
    ensures
        before.step().unwrap().reached(source, old, next),
{
    let node = before.pending.last();
    let rest = before.pending.drop_last();
    let last = before.pending.len() - 1;
    let after = before.step().unwrap();
    let first_name = decimal(before.counter + 1);
    let second_name = decimal(before.counter + 2);
    lemma_step_extends_states(before);
    if exists|i: int|
        0 <= i < before.states.len() && (#[trigger] before.states[i]).old == old
            && before.states[i].next == next && before.states[i].incoming.contains(source) {
        let i = choose|i: int|
            0 <= i < before.states.len() && (#[trigger] before.states[i]).old == old
                && before.states[i].next == next && before.states[i].incoming.contains(source);
        let k = choose|k: int|
            0 <= k < before.states[i].incoming.len() && before.states[i].incoming[k] == source;
        assert(after.states[i].incoming[k] == source);
        assert(after.states[i].old == old);
    } else {
        let i = choose|i: int|
            0 <= i < before.pending.len() && (#[trigger] before.pending[i]).incoming
                == seq![source] && completes(before.pending[i], old, next);
        if i < last {
            assert(after.pending[i] == before.pending[i]);
        } else if node.is_fully_expanded() {
            if holds_shape(before.states, node) {
                let at = position_of_shape(before.states, node);
                lemma_adjoin_all(before.states[at].incoming, node.incoming);
                assert(node.incoming[0] == source);
                assert(node.incoming.contains(source));
                assert(after.states[at].incoming.contains(source));
                assert(after.states[at].old == old);
            } else {
                let at = before.states.len() as int;
                assert(after.states[at] == node);
                assert(node.incoming[0] == source);
            }
        } else {
            lemma_completes_unfolds(node, old, next, first_name, second_name);
            let formula = node.new.last();
            let top = after.pending.len() - 1;
            if splits(formula) && !formula.spec_is_literal() {
                if completes(after.pending[top], old, next) {
                    assert(after.pending[top].incoming == seq![source]);
                } else {
                    assert(completes(after.pending[top - 1], old, next));
                    assert(after.pending[top - 1].incoming == seq![source]);
                }
            } else {
                assert(completes(after.pending[top], old, next));
                assert(after.pending[top].incoming == seq![source]);
            }
        }
    }
}

/// A step loses no state and no edge that the rules give.
pub proof fn lemma_step_keeps_complete(before: TableauView, formula: LtlFormula<u8>)
    requires
        before.pending.len() > 0,
        before.complete(formula),
        before.step() is Some,
    ensures
        before.step().unwrap().complete(formula),
{
    let node = before.pending.last();
    let after = before.step().unwrap();
    let first_name = decimal(before.counter + 1);
    lemma_step_extends_states(before);
    assert forall|source: Seq<char>, old: Seq<LtlFormula<u8>>, next: Seq<LtlFormula<u8>>| #[trigger]
        after.comes_from(formula, source, old, next) implies after.reached(source, old, next) by {
        if source == INIT@ && completes(NodeView::initial(decimal(1), formula), old, next) {
            assert(before.comes_from(formula, source, old, next));
            lemma_step_keeps_reached(before, source, old, next);
        } else {
            let j = choose|j: int|
                0 <= j < after.states.len() && (#[trigger] after.states[j]).name == source
                    && completes(after.states[j].successor_seed(source), old, next);
            if j < before.states.len() {
                lemma_completes_by_obligations(
                    after.states[j].successor_seed(source),
                    before.states[j].successor_seed(source),
                    old,
                    next,
                );
                assert(before.states[j].name == source);
                assert(before.comes_from(formula, source, old, next));
                lemma_step_keeps_reached(before, source, old, next);
            } else {
                // the state is the node of this step, and its seed went on the stack
                assert(after.states[j] == node);
                let top = after.pending.len() - 1;
                assert(after.pending[top] == node.successor_seed(first_name));
                lemma_completes_by_obligations(
                    after.states[j].successor_seed(source),
                    after.pending[top],
                    old,
                    next,
                );
                assert(after.pending[top].incoming == seq![source]);
            }
        }
    }
}

impl TableauView {
    /// What holds of a construction for `formula` before its first step and after each step.
    pub open spec fn well_formed(self, formula: LtlFormula<u8>) -> bool {
        &&& self.in_normal_form()
        &&& self.drawn_from(formula)
        &&& self.duplicate_free()
        &&& self.bounded()
        &&& self.states_distinct()
        &&& self.free_of_contradiction()
        &&& self.names_distinct()
        &&& self.rooted()
        &&& self.sound(formula)
        &&& self.complete(formula)
    }

    /// `self` is the graph of `formula`: nothing is left on the stack; its
    /// states are fully expanded, hold parts of `formula` only, none twice, and
    /// no contradiction, and differ in shape and in name; they are no more than
    /// the closure of `formula` allows; a state has an edge from a source
    /// exactly where the rules lead from that source to the shape of the state;
    /// and every state can be reached from the marker.
    pub open spec fn is_graph_of(self, formula: LtlFormula<u8>) -> bool {
        &&& self.pending.len() == 0
        &&& self.well_formed(formula)
        &&& self.states.len() <= shape_limit(closure(formula).len())
    }
}

/// A construction is well formed when it starts.
pub proof fn lemma_initial_well_formed(formula: LtlFormula<u8>, limit: nat)
    requires
        formula.in_normal_form(),
        limit > 0,
    ensures
        TableauView::initial(formula, limit).well_formed(formula),
{
    let start = TableauView::initial(formula, limit);
    let node = NodeView::initial(decimal(1), formula);
    assert(start.pending[0] == node);
    assert(is_name_up_to(decimal(1), 1));
    assert(free_of_contradiction(node.old));
    assert forall|source: Seq<char>, old: Seq<LtlFormula<u8>>, next: Seq<LtlFormula<u8>>| #[trigger]
        start.comes_from(formula, source, old, next) implies start.reached(source, old, next) by {
        assert(start.pending[0].incoming == seq![source]);
        assert(completes(start.pending[0], old, next));
    }
}

/// A step of a well-formed construction gives one that is well formed.
pub proof fn lemma_step_keeps_well_formed(before: TableauView, formula: LtlFormula<u8>)
    requires
        before.pending.len() > 0,
        before.well_formed(formula),
        before.step() is Some,
    ensures
        before.step().unwrap().well_formed(formula),
{
    lemma_step_keeps_normal_form(before);
    lemma_step_keeps_drawn_from(before, formula);
    lemma_step_keeps_duplicate_free(before);
    lemma_step_keeps_bounded(before);
    lemma_step_keeps_states_distinct(before);
    lemma_step_keeps_free_of_contradiction(before);
    lemma_step_keeps_names_distinct(before);
    lemma_step_keeps_rooted(before);
    lemma_step_keeps_sound(before, formula);
    lemma_step_keeps_complete(before, formula);
}

/// A well-formed construction that comes to its end ends in the graph of the formula.
pub proof fn lemma_run_stays_well_formed(start: TableauView, formula: LtlFormula<u8>)
    requires
        start.well_formed(formula),
        start.run() is Some,
    ensures
        start.run().unwrap().is_graph_of(formula),
    decreases start.limit - start.counter, pending_weight(start.pending),
{
    if start.pending.len() > 0 {
        lemma_step_keeps_well_formed(start, formula);
        lemma_step_decreases(start);
        lemma_run_stays_well_formed(start.step().unwrap(), formula);
    } else {
        lemma_well_formed_states_are_few(start, formula);
    }
}

/// A well-formed construction has no more states than the closure of the formula allows.
pub proof fn lemma_well_formed_states_are_few(graph: TableauView, formula: LtlFormula<u8>)
    requires
        graph.well_formed(formula),
    ensures
        graph.states.len() <= shape_limit(closure(formula).len()),
{
    assert forall|i: int| 0 <= i < graph.states.len() implies {
        &&& (#[trigger] graph.states[i]).old.no_duplicates()
        &&& graph.states[i].next.no_duplicates()
        &&& graph.states[i].drawn_from(formula)
    } by {
        assert(graph.states[i].duplicate_free());
    }
    lemma_states_are_few(graph.states, formula);
}

/// One step under a greater limit does what it does under the limit, where it succeeds under the limit.
pub proof fn lemma_step_under_greater_limit(before: TableauView, greater: nat)
    requires
        before.pending.len() > 0,
        before.step() is Some,
        before.limit <= greater,
    ensures
        (TableauView { limit: greater, ..before }).step() == Some(
            TableauView { limit: greater, ..before.step().unwrap() },
        ),
{
}

/// A construction that comes to its end under a limit comes to the same end under a greater limit.
pub proof fn lemma_run_under_greater_limit(start: TableauView, greater: nat)
    requires
        start.run() is Some,
        start.limit <= greater,
    ensures
        (TableauView { limit: greater, ..start }).run() == Some(
            TableauView { limit: greater, ..start.run().unwrap() },
        ),
    decreases start.limit - start.counter, pending_weight(start.pending),
{
    if start.pending.len() > 0 {
        lemma_step_under_greater_limit(start, greater);
        lemma_step_decreases(start);
        lemma_run_under_greater_limit(start.step().unwrap(), greater);
    }
}

/// The limit cuts a construction off; it does not change what is built: a
/// formula that has a graph under a limit has the same graph under a greater limit.
pub proof fn lemma_greater_limit_same_graph(formula: LtlFormula<u8>, limit: nat, greater: nat)
    requires
        TableauView::construct(formula, limit) is Some,
        limit <= greater,
    ensures
        TableauView::construct(formula, greater) == Some(
            TableauView { limit: greater, ..TableauView::construct(formula, limit).unwrap() },
        ),
{
    lemma_run_under_greater_limit(TableauView::initial(formula, limit), greater);
}

/// What a construction builds from a formula in normal form is the graph of that formula.
pub proof fn lemma_construction_builds_the_graph(formula: LtlFormula<u8>, limit: nat)
    requires
        formula.in_normal_form(),
        TableauView::construct(formula, limit) is Some,
    ensures
        TableauView::construct(formula, limit).unwrap().is_graph_of(formula),
{
    lemma_initial_well_formed(formula, limit);
    lemma_run_stays_well_formed(TableauView::initial(formula, limit), formula);
}

/// In the graph of a formula a state is initial exactly where it comes of the
/// initial node of the formula.
pub proof fn lemma_initial_states(graph: TableauView, formula: LtlFormula<u8>, state: int)
    requires
        graph.is_graph_of(formula),
        0 <= state < graph.states.len(),
    ensures
        graph.states[state].incoming.contains(INIT@) == completes(
            NodeView::initial(decimal(1), formula),
            graph.states[state].old,
            graph.states[state].next,
        ),
{
    let old = graph.states[state].old;
    let next = graph.states[state].next;
    if graph.states[state].incoming.contains(INIT@) {
        let k = choose|k: int|
            0 <= k < graph.states[state].incoming.len() && graph.states[state].incoming[k]
                == INIT@;
        assert(graph.comes_from(formula, graph.states[state].incoming[k], old, next));
        if exists|j: int| 0 <= j < graph.states.len() && (#[trigger] graph.states[j]).name == INIT@ {
            let j = choose|j: int|
                0 <= j < graph.states.len() && (#[trigger] graph.states[j]).name == INIT@;
            let number = choose|number: nat|
                1 <= number <= graph.counter && graph.states[j].name == #[trigger] decimal(number);
            lemma_init_is_no_numeral(number);
        }
    }
    if completes(NodeView::initial(decimal(1), formula), old, next) {
        assert(graph.comes_from(formula, INIT@, old, next));
        assert(graph.reached(INIT@, old, next));
        let i = choose|i: int|
            0 <= i < graph.states.len() && (#[trigger] graph.states[i]).old == old
                && graph.states[i].next == next && graph.states[i].incoming.contains(INIT@);
        if i < state {
            assert(!graph.states[i].same_shape(graph.states[state]));
        } else if state < i {
            assert(!graph.states[state].same_shape(graph.states[i]));
        }
    }
}

/// In the graph of a formula a state has an edge from another state exactly
/// where it comes of the successor seed of that state.
pub proof fn lemma_edges_between_states(
    graph: TableauView,
    formula: LtlFormula<u8>,
    from: int,
    to: int,
)
    requires
        graph.is_graph_of(formula),
        0 <= from < graph.states.len(),
        0 <= to < graph.states.len(),
    ensures
        graph.states[to].incoming.contains(graph.states[from].name) == completes(
            graph.states[from].successor_seed(graph.states[from].name),
            graph.states[to].old,
            graph.states[to].next,
        ),
{
    let source = graph.states[from].name;
    let old = graph.states[to].old;
    let next = graph.states[to].next;
    if graph.states[to].incoming.contains(source) {
        let k = choose|k: int|
            0 <= k < graph.states[to].incoming.len() && graph.states[to].incoming[k] == source;
        assert(graph.comes_from(formula, graph.states[to].incoming[k], old, next));
        if source == INIT@ {
            let number = choose|number: nat|
                1 <= number <= graph.counter && source == #[trigger] decimal(number);
            lemma_init_is_no_numeral(number);
        }
        let j = choose|j: int|
            0 <= j < graph.states.len() && (#[trigger] graph.states[j]).name == source
                && completes(graph.states[j].successor_seed(source), old, next);
        if j < from {
            assert(graph.states[j].name != graph.states[from].name);
        } else if from < j {
            assert(graph.states[from].name != graph.states[j].name);
        }
    }
    if completes(graph.states[from].successor_seed(source), old, next) {
        assert(graph.comes_from(formula, source, old, next));
        assert(graph.reached(source, old, next));
        let i = choose|i: int|
            0 <= i < graph.states.len() && (#[trigger] graph.states[i]).old == old
                && graph.states[i].next == next && graph.states[i].incoming.contains(source);
        if i < to {
            assert(!graph.states[i].same_shape(graph.states[to]));
        } else if to < i {
            assert(!graph.states[to].same_shape(graph.states[i]));
        }
    }
}

/// A path of `edges` edges at most leads from the marker to the state.
pub open spec fn reached_within(graph: TableauView, state: int, edges: nat) -> bool
    decreases edges,
{
    &&& 0 <= state < graph.states.len()
    &&& edges > 0
    &&& {
        ||| graph.states[state].incoming.contains(INIT@)
        ||| exists|from: int|
            0 <= from < graph.states.len() && graph.states[state].incoming.contains(
                (#[trigger] graph.states[from]).name,
            ) && reached_within(graph, from, (edges - 1) as nat)
    }
}

/// A path that is short enough is short enough for any greater length.
pub proof fn lemma_reached_within_more(graph: TableauView, state: int, edges: nat, more: nat)
    requires
        reached_within(graph, state, edges),
        edges <= more,
    ensures
        reached_within(graph, state, more),
    decreases edges,
{
    if !graph.states[state].incoming.contains(INIT@) {
        let from = choose|from: int|
            0 <= from < graph.states.len() && graph.states[state].incoming.contains(
                (#[trigger] graph.states[from]).name,
            ) && reached_within(graph, from, (edges - 1) as nat);
        lemma_reached_within_more(graph, from, (edges - 1) as nat, (more - 1) as nat);
    }
}

/// Every state of a well-formed construction can be reached from the marker,
/// over no more edges than states were made up to it.
pub proof fn lemma_every_state_is_reached(graph: TableauView, state: int)
    requires
        graph.rooted(),
        0 <= state < graph.states.len(),
    ensures
        reached_within(graph, state, (state + 1) as nat),
    decreases state,
{
    let first = graph.states[state].incoming[0];
    assert(graph.states[state].incoming.contains(first));
    if first != INIT@ {
        let from = choose|from: int|
            0 <= from < state && (#[trigger] graph.states[from]).name == first;
        lemma_every_state_is_reached(graph, from);
        lemma_reached_within_more(graph, from, (from + 1) as nat, state as nat);
    }
}

/// Two fully expanded nodes with the same `old` and the same `next`, processed
/// one after the other, are one state, and no other state has their shape. Its
/// edges are the union of those that a state of their shape had before, of
/// those of the first node and of those of the second.
pub proof fn lemma_nodes_of_one_shape_are_one_state(
    graph: TableauView,
    first: NodeView,
    second: NodeView,
)
    requires
        graph.states_distinct(),
        first.is_fully_expanded(),
        first.same_shape(second),
        graph.process_fully_expanded_node(first) is Some,
        graph.process_fully_expanded_node(first).unwrap().process_fully_expanded_node(second)
            is Some,
    ensures
        ({
            let after = graph.process_fully_expanded_node(first).unwrap().process_fully_expanded_node(
                second,
            ).unwrap();
            let at = position_of_shape(after.states, first);
            let known = holds_shape(graph.states, first);
            &&& 0 <= at < after.states.len()
            &&& forall|i: int|
                0 <= i < after.states.len() ==> ((#[trigger] after.states[i]).same_shape(first)
                    <==> i == at)
            &&& known ==> after.states.len() == graph.states.len() && after.states[at].incoming
                == adjoin_all(adjoin_all(graph.states[at].incoming, first.incoming), second.incoming)
            &&& !known ==> after.states.len() == graph.states.len() + 1
                && after.states[at].incoming == adjoin_all(first.incoming, second.incoming)
        }),
{
    let between = graph.process_fully_expanded_node(first).unwrap();
    let after = between.process_fully_expanded_node(second).unwrap();
    let known = holds_shape(graph.states, first);
    // after the first node a state has the shape, at the place `place`
    let place = if known {
        position_of_shape(graph.states, first)
    } else {
        graph.states.len() as int
    };
    assert(between.states[place].same_shape(first));
    assert(between.states[place].same_shape(second));
    assert forall|i: int|
        0 <= i < between.states.len() && (#[trigger] between.states[i]).same_shape(
            first,
        ) implies i == place by {
        if known {
            assert(between.states[i].same_shape(graph.states[i]));
            if i < place {
                assert(!graph.states[i].same_shape(graph.states[place]));
            } else if place < i {
                assert(!graph.states[place].same_shape(graph.states[i]));
            }
        } else if i < graph.states.len() {
            assert(graph.states[i].same_shape(first));
        }
    }
    assert(holds_shape(between.states, second));
    let merged_at = position_of_shape(between.states, second);
    assert(between.states[merged_at].same_shape(first));
    assert(merged_at == place);
    assert(after.states[place].same_shape(first));
    assert forall|i: int| 0 <= i < after.states.len() implies ((
    #[trigger] after.states[i]).same_shape(first) <==> i == place) by {
        assert(after.states[i].same_shape(between.states[i]));
    }
    assert(holds_shape(after.states, first));
    let at = position_of_shape(after.states, first);
    assert(at == place);
    assert(after.states[at].incoming == adjoin_all(between.states[at].incoming, second.incoming));
}

/// What a construction builds depends on the formula and on the limit alone:
/// two constructions for one formula under one limit end in the same graph.
pub proof fn lemma_same_formula_same_graph(
    formula: LtlFormula<u8>,
    limit: nat,
    first: TableauView,
    second: TableauView,
)
    requires
        TableauView::construct(formula, limit) == Some(first),
        TableauView::construct(formula, limit) == Some(second),
    ensures
        first == second,
{
}

} // verus!
