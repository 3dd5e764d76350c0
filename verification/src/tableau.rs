//! The tableau construction as mathematics: what a node is, what each expansion
//! rule makes of it, and what graph the rules build from a formula.
//!
//! A node carries three lists of obligations. `new` holds what is still to be
//! processed and is used as a stack, `old` what has been processed, `next` what
//! is deferred to the successor state. A node whose `new` is empty is fully
//! expanded: it becomes a state of the automaton, or merges into the state that
//! has the same `old` and `next`.

use vstd::prelude::*;
use crate::adjoin::adjoin;
use crate::adjoin::adjoin_all;
use crate::adjoin::adjoin_all_unless_in;
use crate::adjoin::adjoin_unless_in;
use crate::ltl_formula::LtlFormula;
use crate::node_name::INIT;
use crate::node_name::decimal;
use crate::structural_key::structural_key;

verus! {

/// What a node holds: its name, the name of the node that it came of by a
/// split, the sources of the edges into it, and its three lists of obligations.
pub struct NodeView {
    pub name: Seq<char>,
    pub father: Seq<char>,
    pub incoming: Seq<Seq<char>>,
    pub old: Seq<LtlFormula<u8>>,
    pub next: Seq<LtlFormula<u8>>,
    pub new: Seq<LtlFormula<u8>>,
}

/// The rules that branch apply to these three connectives.
pub open spec fn splits(formula: LtlFormula<u8>) -> bool {
    formula is Until || formula is Release || formula is Or
}

/// What the first branch of a split has to process.
pub open spec fn new_1(formula: LtlFormula<u8>) -> LtlFormula<u8>
    recommends
        splits(formula),
{
    match formula {
        LtlFormula::Until(left, _) => *left,
        LtlFormula::Release(_, right) => *right,
        LtlFormula::Or(left, _) => *left,
        _ => formula,
    }
}

/// What the second branch of a split has to process.
pub open spec fn new_2(formula: LtlFormula<u8>) -> Seq<LtlFormula<u8>>
    recommends
        splits(formula),
{
    match formula {
        LtlFormula::Until(_, right) => seq![*right],
        LtlFormula::Release(left, right) => seq![*left, *right],
        LtlFormula::Or(_, right) => seq![*right],
        _ => Seq::empty(),
    }
}

/// What the first branch of a split defers to its successor.
pub open spec fn next_1(formula: LtlFormula<u8>) -> Seq<LtlFormula<u8>>
    recommends
        splits(formula),
{
    match formula {
        LtlFormula::Until(_, _) | LtlFormula::Release(_, _) => seq![formula],
        _ => Seq::empty(),
    }
}

impl NodeView {
    /// The node that a construction starts from.
    pub open spec fn initial(name: Seq<char>, formula: LtlFormula<u8>) -> NodeView {
        NodeView {
            name,
            father: name,
            incoming: seq![INIT@],
            old: Seq::empty(),
            next: Seq::empty(),
            new: seq![formula],
        }
    }

    /// Nothing is left to process.
    pub open spec fn is_fully_expanded(self) -> bool {
        self.new.len() == 0
    }

    /// Two nodes have the same shape when their `old` and their `next` are the
    /// same. Fully expanded nodes of the same shape are one state.
    pub open spec fn same_shape(self, other: NodeView) -> bool {
        self.old == other.old && self.next == other.next
    }

    /// Nodes of the same shape have the same key.
    pub open spec fn key(self) -> u64 {
        structural_key(self.old, self.next)
    }

    /// The node after its topmost new obligation was taken off.
    pub open spec fn without_last_new(self) -> NodeView {
        NodeView { new: self.new.drop_last(), ..self }
    }

    /// `old` holds the negation of `literal`, or `literal` negates a member of `old`.
    pub open spec fn contradicts(self, literal: LtlFormula<u8>) -> bool {
        ||| self.old.contains(LtlFormula::Not(Box::new(literal)))
        ||| literal matches LtlFormula::Not(inner) && self.old.contains(*inner)
    }

    /// A literal is committed to `old` under a fresh name.
    pub open spec fn with_literal(self, literal: LtlFormula<u8>, name: Seq<char>) -> NodeView {
        NodeView { name, old: adjoin(self.old, literal), ..self }
    }

    /// The first branch of a split on `formula`.
    pub open spec fn first_branch(self, formula: LtlFormula<u8>, name: Seq<char>) -> NodeView {
        NodeView {
            name,
            father: self.name,
            incoming: self.incoming,
            new: adjoin_unless_in(self.new, new_1(formula), self.old),
            old: adjoin(self.old, formula),
            next: adjoin_all(self.next, next_1(formula)),
        }
    }

    /// The second branch of a split on `formula`.
    pub open spec fn second_branch(self, formula: LtlFormula<u8>, name: Seq<char>) -> NodeView {
        NodeView {
            name,
            father: self.name,
            incoming: self.incoming,
            new: adjoin_all_unless_in(self.new, new_2(formula), self.old),
            old: adjoin(self.old, formula),
            next: self.next,
        }
    }

    /// A conjunction hands both conjuncts to `new`, each unless `new` has it already.
    pub open spec fn with_conjuncts(
        self,
        left: LtlFormula<u8>,
        right: LtlFormula<u8>,
        formula: LtlFormula<u8>,
    ) -> NodeView {
        NodeView {
            new: adjoin(adjoin(self.new, left), right),
            old: adjoin(self.old, formula),
            ..self
        }
    }

    /// A next-step formula defers its operand to the successor.
    pub open spec fn with_next(self, formula: LtlFormula<u8>, inner: LtlFormula<u8>) -> NodeView {
        NodeView { old: adjoin(self.old, formula), next: adjoin(self.next, inner), ..self }
    }

    /// The node that starts the successor of the state `self`.
    pub open spec fn successor_seed(self, name: Seq<char>) -> NodeView {
        NodeView {
            name,
            father: name,
            incoming: seq![self.name],
            new: self.next,
            old: Seq::empty(),
            next: Seq::empty(),
        }
    }

    /// The state `self` after a node of its shape reached it over `incoming`.
    pub open spec fn merged_with(self, incoming: Seq<Seq<char>>) -> NodeView {
        NodeView { incoming: adjoin_all(self.incoming, incoming), ..self }
    }
}

/// Some state has the shape of `node`.
pub open spec fn holds_shape(states: Seq<NodeView>, node: NodeView) -> bool {
    exists|i: int| 0 <= i < states.len() && (#[trigger] states[i]).same_shape(node)
}

/// Where the state with the shape of `node` stands.
pub open spec fn position_of_shape(states: Seq<NodeView>, node: NodeView) -> int
    recommends
        holds_shape(states, node),
{
    choose|i: int| 0 <= i < states.len() && (#[trigger] states[i]).same_shape(node)
}

/// The weight of a formula exceeds the weights of its operands taken together.
pub open spec fn weight(formula: LtlFormula<u8>) -> nat
    decreases formula,
{
    match formula {
        LtlFormula::Atom(_) | LtlFormula::Top | LtlFormula::Bottom => 1,
        LtlFormula::Not(inner) | LtlFormula::Next(inner) => 1 + weight(*inner),
        LtlFormula::Or(left, right)
        | LtlFormula::And(left, right)
        | LtlFormula::Until(left, right)
        | LtlFormula::Release(left, right) => 1 + weight(*left) + weight(*right),
    }
}

/// The weights of the formulas of the list taken together.
pub open spec fn total_weight(formulas: Seq<LtlFormula<u8>>) -> nat
    decreases formulas.len(),
{
    if formulas.len() == 0 {
        0
    } else {
        total_weight(formulas.drop_last()) + weight(formulas.last())
    }
}

/// What is left to do on the stack: one for each node, and the weight of its new obligations.
pub open spec fn pending_weight(pending: Seq<NodeView>) -> nat
    decreases pending.len(),
{
    if pending.len() == 0 {
        0
    } else {
        pending_weight(pending.drop_last()) + 1 + total_weight(pending.last().new)
    }
}

/// A construction under way: the number of names handed out so far, the
/// number that may be handed out at most, the states of the automaton in the
/// order of their creation, and the stack of nodes to expand.
pub struct TableauView {
    pub counter: nat,
    pub limit: nat,
    pub states: Seq<NodeView>,
    pub pending: Seq<NodeView>,
}

impl TableauView {
    /// No name handed out, no state, nothing to expand.
    pub open spec fn empty(limit: nat) -> TableauView {
        TableauView { counter: 0, limit, states: Seq::empty(), pending: Seq::empty() }
    }

    /// The construction for `formula` before its first step.
    pub open spec fn initial(formula: LtlFormula<u8>, limit: nat) -> TableauView {
        TableauView {
            counter: 1,
            limit,
            states: Seq::empty(),
            pending: seq![NodeView::initial(decimal(1), formula)],
        }
    }

    /// A fully expanded node merges into the state of its shape, or becomes a
    /// state and seeds its successor. `None`: no name is left for the successor.
    pub open spec fn process_fully_expanded_node(self, node: NodeView) -> Option<TableauView> {
        if holds_shape(self.states, node) {
            let at = position_of_shape(self.states, node);
            Some(
                TableauView {
                    states: self.states.update(at, self.states[at].merged_with(node.incoming)),
                    ..self
                },
            )
        } else if self.counter < self.limit {
            Some(
                TableauView {
                    counter: self.counter + 1,
                    states: self.states.push(node),
                    pending: self.pending.push(node.successor_seed(decimal(self.counter + 1))),
                    ..self
                },
            )
        } else {
            None
        }
    }

    /// `Bottom` and a literal that contradicts `old` discard the node; any other
    /// literal is committed. `None`: no name is left for the node.
    pub open spec fn process_literal(self, node: NodeView, literal: LtlFormula<u8>) -> Option<
        TableauView,
    > {
        if literal == LtlFormula::<u8>::Bottom || node.contradicts(literal) {
            Some(self)
        } else if self.counter < self.limit {
            Some(
                TableauView {
                    counter: self.counter + 1,
                    pending: self.pending.push(
                        node.with_literal(literal, decimal(self.counter + 1)),
                    ),
                    ..self
                },
            )
        } else {
            None
        }
    }

    /// Both branches go on the stack, the first on top. `None`: fewer than two names are left.
    pub open spec fn split_node(self, node: NodeView, formula: LtlFormula<u8>) -> Option<
        TableauView,
    > {
        if self.counter + 2 <= self.limit {
            Some(
                TableauView {
                    counter: self.counter + 2,
                    pending: self.pending.push(
                        node.second_branch(formula, decimal(self.counter + 2)),
                    ).push(node.first_branch(formula, decimal(self.counter + 1))),
                    ..self
                },
            )
        } else {
            None
        }
    }

    /// The node goes back on the stack with both conjuncts to process. No name
    /// is handed out and no state is made.
    pub open spec fn expand_conjunction(
        self,
        node: NodeView,
        left: LtlFormula<u8>,
        right: LtlFormula<u8>,
        formula: LtlFormula<u8>,
    ) -> TableauView {
        TableauView { pending: self.pending.push(node.with_conjuncts(left, right, formula)), ..self }
    }

    /// The node goes back on the stack with the operand deferred. No name is
    /// handed out and no state is made.
    pub open spec fn expand_next(
        self,
        node: NodeView,
        formula: LtlFormula<u8>,
        inner: LtlFormula<u8>,
    ) -> TableauView {
        TableauView { pending: self.pending.push(node.with_next(formula, inner)), ..self }
    }

    /// The topmost new obligation of `node` is taken off and its rule applied.
    /// `None` also for a negation of a formula that is no literal.
    pub open spec fn process_node(self, node: NodeView) -> Option<TableauView>
        recommends
            !node.is_fully_expanded(),
    {
        let formula = node.new.last();
        let rest = node.without_last_new();
        if formula.spec_is_literal() {
            self.process_literal(rest, formula)
        } else {
            match formula {
                LtlFormula::Until(_, _) | LtlFormula::Release(_, _) | LtlFormula::Or(_, _) => {
                    self.split_node(rest, formula)
                },
                LtlFormula::And(left, right) => Some(
                    self.expand_conjunction(rest, *left, *right, formula),
                ),
                LtlFormula::Next(inner) => Some(self.expand_next(rest, formula, *inner)),
                _ => None,
            }
        }
    }

    /// One step of the construction on a node that was taken off the stack.
    pub open spec fn expand(self, node: NodeView) -> Option<TableauView> {
        if node.is_fully_expanded() {
            self.process_fully_expanded_node(node)
        } else {
            self.process_node(node)
        }
    }

    /// One step of the construction on the topmost node of the stack.
    pub open spec fn step(self) -> Option<TableauView>
        recommends
            self.pending.len() > 0,
    {
        TableauView { pending: self.pending.drop_last(), ..self }.expand(self.pending.last())
    }

    /// What a construction for `formula` builds where it may hand out `limit`
    /// names. `None`: the names do not suffice, or a negation of a formula that
    /// is no literal came up.
    pub open spec fn construct(formula: LtlFormula<u8>, limit: nat) -> Option<TableauView> {
        if limit == 0 {
            None
        } else {
            TableauView::initial(formula, limit).run()
        }
    }

    /// Steps until the stack is empty. `None`: a step failed on the way.
    pub open spec fn run(self) -> Option<TableauView>
        decreases self.limit - self.counter, pending_weight(self.pending),
    {
        if self.pending.len() == 0 {
            Some(self)
        } else {
            match self.step() {
                Some(after) => {
                    proof {
                        lemma_step_decreases(self);
                    }
                    after.run()
                },
                None => None,
            }
        }
    }
}

/// A formula at the end of a list adds its weight; an adjoined formula adds no more.
pub proof fn lemma_total_weight_push(formulas: Seq<LtlFormula<u8>>, formula: LtlFormula<u8>)
    ensures
        total_weight(formulas.push(formula)) == total_weight(formulas) + weight(formula),
        total_weight(adjoin(formulas, formula)) <= total_weight(formulas) + weight(formula),
{
    assert(formulas.push(formula).drop_last() =~= formulas);
}

/// Every formula has weight.
pub proof fn lemma_weight_positive(formula: LtlFormula<u8>)
    ensures
        weight(formula) >= 1,
{
}

/// A node on top of the stack adds one and the weight of its new obligations.
pub proof fn lemma_pending_weight_push(pending: Seq<NodeView>, node: NodeView)
    ensures
        pending_weight(pending.push(node)) == pending_weight(pending) + 1 + total_weight(node.new),
{
    assert(pending.push(node).drop_last() =~= pending);
}

/// A step that hands out no name leaves less weight on the stack; no step takes a name back.
pub proof fn lemma_expand_decreases(before: TableauView, node: NodeView)
    requires
        before.expand(node) is Some,
    ensures
        ({
            let after = before.expand(node).unwrap();
            &&& after.limit == before.limit
            &&& {
                ||| before.counter < after.counter <= after.limit
                ||| after.counter == before.counter && pending_weight(after.pending)
                    < pending_weight(before.pending) + 1 + total_weight(node.new)
            }
        }),
{
    let after = before.expand(node).unwrap();
    if node.is_fully_expanded() {
    } else {
        let formula = node.new.last();
        let rest = node.without_last_new();
        assert(total_weight(node.new) == total_weight(rest.new) + weight(formula));
        lemma_weight_positive(formula);
        if formula.spec_is_literal() {
        } else {
            match formula {
                LtlFormula::And(left, right) => {
                    let with_left = adjoin(rest.new, *left);
                    lemma_total_weight_push(rest.new, *left);
                    lemma_total_weight_push(with_left, *right);
                    lemma_pending_weight_push(
                        before.pending,
                        rest.with_conjuncts(*left, *right, formula),
                    );
                },
                LtlFormula::Next(inner) => {
                    lemma_pending_weight_push(before.pending, rest.with_next(formula, *inner));
                },
                _ => {},
            }
        }
    }
}

/// A step hands out a name, or leaves less weight on the stack; it keeps the limit.
pub proof fn lemma_step_decreases(before: TableauView)
    requires
        before.pending.len() > 0,
        before.step() is Some,
    ensures
        ({
            let after = before.step().unwrap();
            &&& after.limit == before.limit
            &&& {
                ||| before.counter < after.counter <= after.limit
                ||| after.counter == before.counter && pending_weight(after.pending)
                    < pending_weight(before.pending)
            }
        }),
{
    lemma_expand_decreases(
        TableauView { pending: before.pending.drop_last(), ..before },
        before.pending.last(),
    );
}

} // verus!
