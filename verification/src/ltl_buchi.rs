//! The on-the-fly construction of a generalized Buchi automaton from a formula
//! of linear temporal logic, as a graph of tableau nodes.

use vstd::prelude::*;
use vstd::string::StringExecFns;
use std::collections::HashMap;
use crate::automaton::lemma_construction_builds_the_graph;
use crate::laws::lemma_step_keeps_normal_form;
use crate::lists::adjoin_formula;
use crate::lists::adjoin_formulas;
use crate::lists::adjoin_formulas_unless_in;
use crate::lists::adjoin_names;
use crate::lists::clone_formulas;
use crate::lists::clone_names;
use crate::lists::contains_formula;
use crate::lists::names_view;
use crate::lists::same_formulas;
use crate::ltl_formula::LtlFormula;
use crate::name_supply::lemma_enough_names_suffice;
use crate::name_supply::names_needed;
use crate::node_name::INIT;
use crate::node_name::decimal;
use crate::node_name::numeral;
use crate::structural_key::key_of_shape;
use crate::tableau::NodeView;
use crate::tableau::TableauView;
use crate::tableau::holds_shape;
use crate::tableau::lemma_step_decreases;
use crate::tableau::new_1;
use crate::tableau::new_2;
use crate::tableau::next_1;
use crate::tableau::pending_weight;
use crate::tableau::position_of_shape;
use crate::tableau::splits;

verus! {

/// The nodes of a list, each as its view.
pub open spec fn nodes_view(nodes: Seq<Node>) -> Seq<NodeView> {
    nodes.map_values(|node: Node| node@)
}

/// A node of the tableau. Its view says what its fields hold.
#[derive(Debug)]
pub struct Node {
    name: String,
    father: String,
    incoming: Vec<String>,
    old: Vec<LtlFormula<u8>>,
    next: Vec<LtlFormula<u8>>,
    new: Vec<LtlFormula<u8>>,
}

impl View for Node {
    type V = NodeView;

    closed spec fn view(&self) -> NodeView {
        NodeView {
            name: self.name@,
            father: self.father@,
            incoming: names_view(self.incoming@),
            old: self.old@,
            next: self.next@,
            new: self.new@,
        }
    }
}

impl Clone for Node {
    fn clone(&self) -> (copy: Self)
        ensures
            copy@ == self@,
    {
        Node {
            name: self.name.clone(),
            father: self.father.clone(),
            incoming: clone_names(&self.incoming),
            old: clone_formulas(&self.old),
            next: clone_formulas(&self.next),
            new: clone_formulas(&self.new),
        }
    }
}

impl Node {
    /// The node that a construction starts from: it has the formula to process
    /// and an edge from the initial marker.
    pub fn init_formula(name: &str, ltl_formula: &LtlFormula<u8>) -> (node: Self)
        ensures
            node@ == NodeView::initial(name@, *ltl_formula),
    {
        let node = Node {
            name: String::from_str(name),
            father: String::from_str(name),
            incoming: vec![String::from_str(INIT)],
            old: Vec::new(),
            next: Vec::new(),
            new: vec![ltl_formula.clone()],
        };
        assert(node@.incoming =~= seq![INIT@]);
        assert(node@.new =~= seq![*ltl_formula]);
        node
    }

    /// Whether nothing is left to process.
    pub fn is_fully_expanded(&self) -> (fully_expanded: bool)
        ensures
            fully_expanded == self@.is_fully_expanded(),
    {
        self.new.len() == 0
    }

    /// Takes off the obligation that was added last to those still to process.
    pub fn pop_new_formula(&mut self) -> (formula: Option<LtlFormula<u8>>)
        ensures
            old(self)@.is_fully_expanded() ==> formula is None && final(self)@ == old(self)@,
            !old(self)@.is_fully_expanded() ==> formula == Some(old(self)@.new.last())
                && final(self)@ == old(self)@.without_last_new(),
    {
        let formula = self.new.pop();
        assert(self@.new =~= old(self)@.new.drop_last() || old(self)@.new.len() == 0);
        formula
    }

    /// Whether the formula is among those that the node has processed.
    pub fn contains_processed_formula(&self, ltl_formula: &LtlFormula<u8>) -> (found: bool)
        ensures
            found == self@.old.contains(*ltl_formula),
    {
        contains_formula(&self.old, ltl_formula)
    }

    /// The key of the node: a hash of `old` and `next` and of nothing else.
    pub fn calculate_hash_fully_expanded_node(&self) -> (key: u64)
        ensures
            key == self@.key(),
    {
        key_of_shape(&self.old, &self.next)
    }

    /// The name of the node.
    pub fn name(&self) -> (name: &String)
        ensures
            name@ == self@.name,
    {
        &self.name
    }

    /// The name of the node that this node came of by a split, or its own.
    pub fn father(&self) -> (father: &String)
        ensures
            father@ == self@.father,
    {
        &self.father
    }

    /// The initial marker and the names of states that have an edge to the node.
    pub fn incoming(&self) -> (incoming: &Vec<String>)
        ensures
            names_view(incoming@) == self@.incoming,
    {
        &self.incoming
    }

    /// The obligations that the node has processed.
    pub fn old_formulae(&self) -> (formulae: &Vec<LtlFormula<u8>>)
        ensures
            formulae@ == self@.old,
    {
        &self.old
    }

    /// The obligations that the node defers to its successor.
    pub fn next_formulae(&self) -> (formulae: &Vec<LtlFormula<u8>>)
        ensures
            formulae@ == self@.next,
    {
        &self.next
    }

    /// The obligations that the node has still to process.
    pub fn new_formulae(&self) -> (formulae: &Vec<LtlFormula<u8>>)
        ensures
            formulae@ == self@.new,
    {
        &self.new
    }
}

/// The states of the automaton in the order of their creation, and for each key
/// the places of the states that have it. No two states have the same shape.
#[derive(Debug)]
struct NodeSet {
    nodes: Vec<Node>,
    node_by_fully_expanded_node_hash_code: HashMap<u64, Vec<usize>>,
}

impl View for NodeSet {
    type V = Seq<NodeView>;

    closed spec fn view(&self) -> Seq<NodeView> {
        nodes_view(self.nodes@)
    }
}

impl NodeSet {
    /// No two states have the same shape, and the index holds under each key
    /// the places of the states with that key, and no other place.
    closed spec fn wf(&self) -> bool {
        let index = self.node_by_fully_expanded_node_hash_code@;
        &&& forall|i: int, j: int|
            0 <= i < j < self.nodes@.len() ==> !(#[trigger] self.nodes@[i])@.same_shape(
                (#[trigger] self.nodes@[j])@,
            )
        &&& forall|key: u64, j: int|
            index.contains_key(key) && 0 <= j < index[key]@.len() ==> {
                &&& (#[trigger] index[key]@[j]) < self.nodes@.len()
                &&& self.nodes@[index[key]@[j] as int]@.key() == key
            }
        &&& forall|i: int|
            0 <= i < self.nodes@.len() ==> {
                &&& index.contains_key((#[trigger] self.nodes@[i])@.key())
                &&& index[self.nodes@[i]@.key()]@.contains(i as usize)
            }
    }

    /// A state of the shape of `node` is the only one, so that it is the one
    /// that the construction speaks of.
    proof fn lemma_found(&self, node: NodeView, place: int)
        requires
            self.wf(),
            0 <= place < self.nodes@.len(),
            self.nodes@[place]@.same_shape(node),
        ensures
            holds_shape(self@, node),
            position_of_shape(self@, node) == place,
    {
        assert(self@[place].same_shape(node));
        let chosen = position_of_shape(self@, node);
        assert(self.nodes@[chosen]@.same_shape(node));
        if chosen < place {
            assert(!self.nodes@[chosen]@.same_shape(self.nodes@[place]@));
        } else if place < chosen {
            assert(!self.nodes@[place]@.same_shape(self.nodes@[chosen]@));
        }
    }

    /// No state.
    fn new() -> (set: Self)
        ensures
            set.wf(),
            set@ == Seq::<NodeView>::empty(),
    {
        let set = NodeSet {
            nodes: Vec::new(),
            node_by_fully_expanded_node_hash_code: HashMap::with_capacity(10),
        };
        assert(set@ =~= Seq::<NodeView>::empty());
        set
    }

    /// Forgets every state.
    fn clear(&mut self)
        ensures
            final(self).wf(),
            final(self)@ == Seq::<NodeView>::empty(),
    {
        self.nodes.clear();
        self.node_by_fully_expanded_node_hash_code.clear();
        assert(self@ =~= Seq::<NodeView>::empty());
    }

    /// The place of the state that has the shape of `node`.
    fn find(&self, node: &Node) -> (found: Option<usize>)
        requires
            self.wf(),
        ensures
            match found {
                Some(place) => holds_shape(self@, node@) && place == position_of_shape(
                    self@,
                    node@,
                ) && place < self.nodes@.len(),
                None => !holds_shape(self@, node@),
            },
    {
        let fully_expanded_node_hash_code = node.calculate_hash_fully_expanded_node();
        match self.node_by_fully_expanded_node_hash_code.get(&fully_expanded_node_hash_code) {
            Some(places) => {
                let mut j: usize = 0;
                while j < places.len()
                    invariant
                        self.wf(),
                        j <= places.len(),
                        self.node_by_fully_expanded_node_hash_code@.contains_key(
                            fully_expanded_node_hash_code,
                        ),
                        *places
                            == self.node_by_fully_expanded_node_hash_code@[fully_expanded_node_hash_code],
                        forall|k: int|
                            0 <= k < j ==> !self.nodes@[(#[trigger] places@[k]) as int]@.same_shape(
                                node@,
                            ),
                    decreases places.len() - j,
                {
                    let place = places[j];
                    let state = &self.nodes[place];
                    if same_formulas(&state.old, &node.old) && same_formulas(
                        &state.next,
                        &node.next,
                    ) {
                        proof {
                            self.lemma_found(node@, place as int);
                        }
                        return Some(place);
                    }
                    j = j + 1;
                }
                proof {
                    if holds_shape(self@, node@) {
                        let at = position_of_shape(self@, node@);
                        assert(0 <= at < self.nodes@.len());
                        assert(self@[at] == self.nodes@[at]@);
                        assert(self.nodes@[at]@.key() == fully_expanded_node_hash_code);
                        assert(self.nodes@[at]@.same_shape(node@));
                        assert(self.nodes@.len() == self.nodes.len());
                        let place = at as usize;
                        assert(place == at);
                        assert(places@.contains(place));
                        let k = choose|k: int| 0 <= k < places@.len() && places@[k] == place;
                        assert(!self.nodes@[places@[k] as int]@.same_shape(node@));
                    }
                }
                None
            },
            None => {
                proof {
                    if holds_shape(self@, node@) {
                        let at = position_of_shape(self@, node@);
                        assert(0 <= at < self.nodes@.len());
                        assert(self@[at] == self.nodes@[at]@);
                        assert(self.nodes@[at]@.key() == fully_expanded_node_hash_code);
                    }
                }
                None
            },
        }
    }

    /// Whether a state has the shape of `node`.
    fn contains(&self, node: &Node) -> (found: bool)
        requires
            self.wf(),
        ensures
            found == holds_shape(self@, node@),
    {
        self.find(node).is_some()
    }

    /// Takes the node in as a state unless a state has its shape already.
    fn add(&mut self, node: Node) -> (added: bool)
        requires
            old(self).wf(),
        ensures
            final(self).wf(),
            added == !holds_shape(old(self)@, node@),
            final(self)@ == if added {
                old(self)@.push(node@)
            } else {
                old(self)@
            },
    {
        let fully_expanded_node_hash_code = node.calculate_hash_fully_expanded_node();
        if self.contains(&node) {
            return false;
        }
        let place = self.nodes.len();
        let mut places = match self.node_by_fully_expanded_node_hash_code.remove(
            &fully_expanded_node_hash_code,
        ) {
            Some(places) => places,
            None => Vec::new(),
        };
        let ghost others = places@;
        places.push(place);
        self.node_by_fully_expanded_node_hash_code.insert(fully_expanded_node_hash_code, places);
        self.nodes.push(node);
        proof {
            let index = self.node_by_fully_expanded_node_hash_code@;
            let before = old(self).node_by_fully_expanded_node_hash_code@;
            assert(self@ =~= old(self)@.push(node@));
            assert forall|i: int, j: int| 0 <= i < j < self.nodes@.len() implies !(
            #[trigger] self.nodes@[i])@.same_shape((#[trigger] self.nodes@[j])@) by {
                if j == place {
                    assert(old(self)@[i] == self.nodes@[i]@);
                }
            }
            assert forall|key: u64, j: int|
                index.contains_key(key) && 0 <= j < index[key]@.len() implies {
                &&& (#[trigger] index[key]@[j]) < self.nodes@.len()
                &&& self.nodes@[index[key]@[j] as int]@.key() == key
            } by {
                if key == fully_expanded_node_hash_code {
                    if j < others.len() {
                        assert(before.contains_key(key));
                        assert(index[key]@[j] == before[key]@[j]);
                    }
                } else {
                    assert(before.contains_key(key));
                    assert(index[key] == before[key]);
                }
            }
            assert forall|i: int| 0 <= i < self.nodes@.len() implies {
                &&& index.contains_key((#[trigger] self.nodes@[i])@.key())
                &&& index[self.nodes@[i]@.key()]@.contains(i as usize)
            } by {
                let key = self.nodes@[i]@.key();
                if i == place {
                    assert(index[key]@[others.len() as int] == place);
                } else {
                    assert(before.contains_key(key));
                    let k = before[key]@.index_of(i as usize);
                    assert(index[key]@[k] == i);
                }
            }
        }
        true
    }

    /// The state that has the shape of `node`, to be changed in place. Its `old`
    /// and `next` have to stay as they are.
    fn get_mut(&mut self, node: &Node) -> (state: Option<&mut Node>)
        requires
            old(self).wf(),
        ensures
            match state {
                Some(found) => {
                    let at = position_of_shape(old(self)@, node@);
                    &&& holds_shape(old(self)@, node@)
                    &&& 0 <= at < old(self).nodes@.len()
                    &&& *found == old(self).nodes@[at]
                    &&& final(self).nodes@ == old(self).nodes@.update(at, *final(found))
                    &&& final(self).node_by_fully_expanded_node_hash_code
                        == old(self).node_by_fully_expanded_node_hash_code
                },
                None => !holds_shape(old(self)@, node@) && *final(self) == *old(self),
            },
    {
        match self.find(node) {
            Some(place) => Some(&mut self.nodes[place]),
            None => None,
        }
    }
}

/// Why a construction gave no graph.
#[derive(Debug, Clone, Copy, PartialEq, Eq)]
pub enum BuildError {
    /// The formula negates something that is no literal.
    NotInNormalForm,
    /// The construction needs more names than the builder may hand out.
    OutOfNames,
}

/// The builder: a counter for the names of nodes, the states that were made,
/// and the stack of nodes that are still to expand. Its view says what it holds.
#[derive(Debug)]
pub struct OnTheFlyLtl {
    node_sequence_counter: u64,
    name_limit: u64,
    node_set: NodeSet,
    pending: Vec<Node>,
}

impl View for OnTheFlyLtl {
    type V = TableauView;

    closed spec fn view(&self) -> TableauView {
        TableauView {
            counter: self.node_sequence_counter as nat,
            limit: self.name_limit as nat,
            states: self.node_set@,
            pending: nodes_view(self.pending@),
        }
    }
}

impl OnTheFlyLtl {
    /// The states are in order.
    closed spec fn wf(&self) -> bool {
        self.node_set.wf()
    }

    /// A builder that hands out as many names as the counter can count.
    pub fn new() -> (builder: Self)
        ensures
            builder@ == TableauView::empty(u64::MAX as nat),
    {
        Self::with_name_limit(u64::MAX)
    }

    /// A builder that hands out `name_limit` names at most in one construction.
    pub fn with_name_limit(name_limit: u64) -> (builder: Self)
        ensures
            builder@ == TableauView::empty(name_limit as nat),
    {
        let builder = OnTheFlyLtl {
            node_sequence_counter: 0,
            name_limit,
            node_set: NodeSet::new(),
            pending: Vec::new(),
        };
        assert(builder@.pending =~= Seq::<NodeView>::empty());
        builder
    }

    /// The numeral of the next number, which no node has yet.
    fn generate_new_node_name(&mut self) -> (name: String)
        requires
            old(self).node_sequence_counter < old(self).name_limit,
        ensures
            final(self).node_sequence_counter == old(self).node_sequence_counter + 1,
            final(self).name_limit == old(self).name_limit,
            final(self).node_set == old(self).node_set,
            final(self).pending == old(self).pending,
            name@ == decimal(final(self).node_sequence_counter as nat),
    {
        self.node_sequence_counter += 1;
        numeral(self.node_sequence_counter)
    }

    /// The node will be expanded before those that are on the stack already.
    fn put_on_stack(&mut self, node: Node)
        ensures
            final(self).node_sequence_counter == old(self).node_sequence_counter,
            final(self).name_limit == old(self).name_limit,
            final(self).node_set == old(self).node_set,
            final(self)@.pending == old(self)@.pending.push(node@),
    {
        self.pending.push(node);
        assert(self@.pending =~= old(self)@.pending.push(node@));
    }

    /// Builds the graph of `ltl_formula` in place of whatever the builder held.
    ///
    /// A formula that is not in normal form is refused before anything is
    /// built. A formula in normal form has its graph built unless that takes more
    /// names than the builder may hand out; `names_needed` is a number of names
    /// that is always enough. After a failure the builder holds no state.
    pub fn create_graph(&mut self, ltl_formula: &LtlFormula<u8>) -> (result: Result<
        (),
        BuildError,
    >)
        ensures
            final(self)@.limit == old(self)@.limit,
            ltl_formula.in_normal_form() && old(self)@.limit >= names_needed(*ltl_formula)
                ==> result is Ok,
            match result {
                Ok(_) => {
                    &&& ltl_formula.in_normal_form()
                    &&& TableauView::construct(*ltl_formula, old(self)@.limit) == Some(
                        final(self)@,
                    )
                    &&& final(self)@.is_graph_of(*ltl_formula)
                },
                Err(BuildError::NotInNormalForm) => {
                    &&& !ltl_formula.in_normal_form()
                    &&& final(self)@ == TableauView::empty(old(self)@.limit)
                },
                Err(BuildError::OutOfNames) => {
                    &&& ltl_formula.in_normal_form()
                    &&& TableauView::construct(*ltl_formula, old(self)@.limit) is None
                    &&& final(self)@ == TableauView::empty(old(self)@.limit)
                },
            },
    {
        self.reset();
        if !ltl_formula.is_normal_form() {
            return Err(BuildError::NotInNormalForm);
        }
        if self.name_limit == 0 {
            return Err(BuildError::OutOfNames);
        }
        let name = self.generate_new_node_name();
        let formula_node = Node::init_formula(name.as_str(), ltl_formula);
        self.put_on_stack(formula_node);
        let ghost limit = self@.limit;
        assert(self@ == TableauView::initial(*ltl_formula, limit)) by {
            assert(self@.pending =~= TableauView::initial(*ltl_formula, limit).pending);
        }
        while self.pending.len() > 0
            invariant
                ltl_formula.in_normal_form(),
                limit == old(self)@.limit,
                limit > 0,
                self.wf(),
                self@.limit == limit,
                self@.in_normal_form(),
                self@.run() == TableauView::initial(*ltl_formula, limit).run(),
            decreases self.name_limit - self.node_sequence_counter, pending_weight(self@.pending),
        {
            let ghost before = self@;
            let node = self.pending.pop().unwrap();
            assert(self@ == (TableauView { pending: before.pending.drop_last(), ..before })) by {
                assert(self@.pending =~= before.pending.drop_last());
            }
            assert(node@ == before.pending.last());
            let ghost rest = self@;
            match self.expand(node) {
                Ok(_) => {
                    proof {
                        lemma_step_keeps_normal_form(before);
                        lemma_step_decreases(before);
                    }
                },
                Err(error) => {
                    assert(before.step() is None);
                    assert(before.run() is None);
                    proof {
                        if limit >= names_needed(*ltl_formula) {
                            lemma_enough_names_suffice(*ltl_formula, limit);
                        }
                    }
                    self.reset();
                    return Err(error);
                },
            }
        }
        proof {
            lemma_construction_builds_the_graph(*ltl_formula, limit);
        }
        Ok(())
    }

    /// The states of the automaton, in the order of their creation.
    pub fn states(&self) -> (states: &Vec<Node>)
        ensures
            nodes_view(states@) == self@.states,
    {
        &self.node_set.nodes
    }

    /// Forgets the states, the stack and the names.
    fn reset(&mut self)
        ensures
            final(self).wf(),
            final(self)@ == TableauView::empty(old(self)@.limit),
    {
        self.node_set.clear();
        self.pending.clear();
        self.node_sequence_counter = 0;
        assert(self@.pending =~= Seq::<NodeView>::empty());
    }

    /// One step of the construction on a node that was taken off the stack.
    fn expand(&mut self, node: Node) -> (result: Result<(), BuildError>)
        requires
            old(self).wf(),
            node@.in_normal_form(),
        ensures
            final(self).wf(),
            match old(self)@.expand(node@) {
                Some(after) => result is Ok && final(self)@ == after,
                None => result == Err::<(), BuildError>(BuildError::OutOfNames) && final(self)@
                    == old(self)@,
            },
    {
        if node.is_fully_expanded() {
            self.process_fully_expanded_node(node)
        } else {
            self.process_node(node)
        }
    }

    /// Merges the node into the state of its shape, or makes it a state and
    /// puts the seed of its successor on the stack.
    fn process_fully_expanded_node(&mut self, node: Node) -> (result: Result<(), BuildError>)
        requires
            old(self).wf(),
        ensures
            final(self).wf(),
            match old(self)@.process_fully_expanded_node(node@) {
                Some(after) => result is Ok && final(self)@ == after,
                None => result == Err::<(), BuildError>(BuildError::OutOfNames) && final(self)@
                    == old(self)@,
            },
    {
        let ghost shape = node@;
        match self.node_set.get_mut(&node) {
            Some(state) => {
                let ghost merged = state@.merged_with(node@.incoming);
                adjoin_names(&mut state.incoming, &node.incoming);
                assert(state@ == merged);
                let ghost at = position_of_shape(old(self)@.states, shape);
                assert(self@.states =~= old(self)@.states.update(at, merged));
                assert(self.node_set.wf());
                Ok(())
            },
            None => {
                if self.node_sequence_counter >= self.name_limit {
                    return Err(BuildError::OutOfNames);
                }
                let node_name = node.name.clone();
                let node_next_formulae = clone_formulas(&node.next);
                let new_node_name = self.generate_new_node_name();
                self.node_set.add(node);
                let seed = Node {
                    name: new_node_name.clone(),
                    father: new_node_name,
                    incoming: vec![node_name],
                    new: node_next_formulae,
                    old: Vec::new(),
                    next: Vec::new(),
                };
                assert(seed@ == node@.successor_seed(decimal(self.node_sequence_counter as nat)))
                    by {
                    assert(seed@.incoming =~= seq![node@.name]);
                }
                self.put_on_stack(seed);
                Ok(())
            },
        }
    }

    /// Takes the topmost new obligation off the node and applies its rule.
    fn process_node(&mut self, node: Node) -> (result: Result<(), BuildError>)
        requires
            old(self).wf(),
            !node@.is_fully_expanded(),
            node@.in_normal_form(),
        ensures
            final(self).wf(),
            match old(self)@.process_node(node@) {
                Some(after) => result is Ok && final(self)@ == after,
                None => result == Err::<(), BuildError>(BuildError::OutOfNames) && final(self)@
                    == old(self)@,
            },
    {
        let mut node = node;
        let new_formula = node.pop_new_formula().unwrap();
        assert(new_formula.in_normal_form());
        match &new_formula {
            LtlFormula::Until(_, _) | LtlFormula::Release(_, _) | LtlFormula::Or(_, _) => {
                self.split_node(node, new_formula.clone())
            },
            LtlFormula::And(left_formula, right_formula) => {
                self.expand_conjunction(
                    node,
                    (**left_formula).clone(),
                    (**right_formula).clone(),
                    new_formula.clone(),
                );
                Ok(())
            },
            LtlFormula::Next(inner_next_formula) => {
                self.expand_next(node, new_formula.clone(), (**inner_next_formula).clone());
                Ok(())
            },
            LtlFormula::Atom(_) | LtlFormula::Top | LtlFormula::Bottom | LtlFormula::Not(_) => {
                self.process_literal(node, new_formula.clone())
            },
        }
    }

    /// Discards the node on `Bottom` and on a contradiction; commits the literal otherwise.
    fn process_literal(&mut self, node: Node, literal: LtlFormula<u8>) -> (result: Result<
        (),
        BuildError,
    >)
        requires
            old(self).wf(),
        ensures
            final(self).wf(),
            match old(self)@.process_literal(node@, literal) {
                Some(after) => result is Ok && final(self)@ == after,
                None => result == Err::<(), BuildError>(BuildError::OutOfNames) && final(self)@
                    == old(self)@,
            },
    {
        if literal == LtlFormula::Bottom {
            return Ok(());
        }
        if node.contains_processed_formula(&LtlFormula::not(literal.clone())) {
            return Ok(());
        }
        let negates_processed = match &literal {
            LtlFormula::Not(inner) => node.contains_processed_formula(inner),
            _ => false,
        };
        if negates_processed {
            return Ok(());
        }
        if self.node_sequence_counter >= self.name_limit {
            return Err(BuildError::OutOfNames);
        }
        let mut node_clone = node;
        node_clone.name = self.generate_new_node_name();
        adjoin_formula(&mut node_clone.old, literal);
        self.put_on_stack(node_clone);
        Ok(())
    }

    /// Puts the two branches of a split on the stack, the first on top.
    fn split_node(&mut self, node: Node, formula: LtlFormula<u8>) -> (result: Result<
        (),
        BuildError,
    >)
        requires
            old(self).wf(),
            splits(formula),
        ensures
            final(self).wf(),
            match old(self)@.split_node(node@, formula) {
                Some(after) => result is Ok && final(self)@ == after,
                None => result == Err::<(), BuildError>(BuildError::OutOfNames) && final(self)@
                    == old(self)@,
            },
    {
        if self.name_limit < 2 || self.node_sequence_counter > self.name_limit - 2 {
            return Err(BuildError::OutOfNames);
        }
        let new_1_formula = Self::new_1(&formula);
        let mut new_node_1_new = clone_formulas(&node.new);
        if !contains_formula(&node.old, &new_1_formula) {
            adjoin_formula(&mut new_node_1_new, new_1_formula);
        }
        let mut new_node_1_old = clone_formulas(&node.old);
        adjoin_formula(&mut new_node_1_old, formula.clone());
        let mut new_node_1_next = clone_formulas(&node.next);
        adjoin_formulas(&mut new_node_1_next, &Self::next_1(&formula));
        let node_1 = Node {
            name: self.generate_new_node_name(),
            father: node.name.clone(),
            incoming: clone_names(&node.incoming),
            new: new_node_1_new,
            old: new_node_1_old,
            next: new_node_1_next,
        };

        let mut new_node_2_new = clone_formulas(&node.new);
        adjoin_formulas_unless_in(&mut new_node_2_new, &Self::new_2(&formula), &node.old);
        let mut new_node_2_old = clone_formulas(&node.old);
        adjoin_formula(&mut new_node_2_old, formula.clone());
        let node_2 = Node {
            name: self.generate_new_node_name(),
            father: node.name.clone(),
            incoming: clone_names(&node.incoming),
            new: new_node_2_new,
            old: new_node_2_old,
            next: clone_formulas(&node.next),
        };

        self.put_on_stack(node_2);
        self.put_on_stack(node_1);
        Ok(())
    }

    /// What the first branch of a split on the formula has to process.
    fn new_1(ltl_formula: &LtlFormula<u8>) -> (formula: LtlFormula<u8>)
        requires
            splits(*ltl_formula),
        ensures
            formula == new_1(*ltl_formula),
    {
        match ltl_formula {
            LtlFormula::Until(left_formula, _) => (**left_formula).clone(),
            LtlFormula::Release(_, right_formula) => (**right_formula).clone(),
            LtlFormula::Or(left_formula, _) => (**left_formula).clone(),
            _ => unreached(),
        }
    }

    /// What the second branch of a split on the formula has to process.
    fn new_2(ltl_formula: &LtlFormula<u8>) -> (formulae: Vec<LtlFormula<u8>>)
        requires
            splits(*ltl_formula),
        ensures
            formulae@ == new_2(*ltl_formula),
    {
        let formulae = match ltl_formula {
            LtlFormula::Until(_, right_formula) => vec![(**right_formula).clone()],
            LtlFormula::Release(left_formula, right_formula) => vec![
                (**left_formula).clone(),
                (**right_formula).clone(),
            ],
            LtlFormula::Or(_, right_formula) => vec![(**right_formula).clone()],
            _ => unreached(),
        };
        assert(formulae@ =~= new_2(*ltl_formula));
        formulae
    }

    /// What the first branch of a split on the formula defers to its successor.
    fn next_1(ltl_formula: &LtlFormula<u8>) -> (formulae: Vec<LtlFormula<u8>>)
        requires
            splits(*ltl_formula),
        ensures
            formulae@ == next_1(*ltl_formula),
    {
        let formulae = match ltl_formula {
            LtlFormula::Until(_, _) | LtlFormula::Release(_, _) => vec![ltl_formula.clone()],
            LtlFormula::Or(_, _) => Vec::new(),
            _ => unreached(),
        };
        assert(formulae@ =~= next_1(*ltl_formula));
        formulae
    }

    /// Hands both conjuncts to the node and puts it back on the stack under its name.
    fn expand_conjunction(
        &mut self,
        node: Node,
        left_formula: LtlFormula<u8>,
        right_formula: LtlFormula<u8>,
        formula: LtlFormula<u8>,
    )
        requires
            old(self).wf(),
        ensures
            final(self).wf(),
            final(self)@ == old(self)@.expand_conjunction(
                node@,
                left_formula,
                right_formula,
                formula,
            ),
    {
        let mut new_node = node;
        adjoin_formula(&mut new_node.new, left_formula);
        adjoin_formula(&mut new_node.new, right_formula);
        adjoin_formula(&mut new_node.old, formula);
        self.put_on_stack(new_node);
    }

    /// Defers the operand of a next-step formula and puts the node back on the stack.
    fn expand_next(
        &mut self,
        node: Node,
        next_formula: LtlFormula<u8>,
        inner_next_formula: LtlFormula<u8>,
    )
        requires
            old(self).wf(),
        ensures
            final(self).wf(),
            final(self)@ == old(self)@.expand_next(node@, next_formula, inner_next_formula),
    {
        let mut new_node = node;
        adjoin_formula(&mut new_node.old, next_formula);
        adjoin_formula(&mut new_node.next, inner_next_formula);
        self.put_on_stack(new_node);
    }
}

} // verus!
