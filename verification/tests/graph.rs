use rust_model_checking::BuildError;
use rust_model_checking::LtlFormula;
use rust_model_checking::Node;
use rust_model_checking::OnTheFlyLtl;

fn p() -> LtlFormula<u8> {
    LtlFormula::atom(1)
}

fn q() -> LtlFormula<u8> {
    LtlFormula::atom(2)
}

fn c() -> LtlFormula<u8> {
    LtlFormula::atom(3)
}

fn names(list: &[&str]) -> Vec<String> {
    list.iter().map(|name| name.to_string()).collect()
}

fn built(formula: &LtlFormula<u8>) -> OnTheFlyLtl {
    let mut builder = OnTheFlyLtl::new();
    assert_eq!(builder.create_graph(formula), Ok(()));
    builder
}

fn assert_state(
    node: &Node,
    name: &str,
    incoming: &[&str],
    old: Vec<LtlFormula<u8>>,
    next: Vec<LtlFormula<u8>>,
) {
    assert_eq!(node.name(), name);
    assert_eq!(node.incoming(), &names(incoming));
    assert_eq!(node.old_formulae(), &old);
    assert_eq!(node.next_formulae(), &next);
    assert!(node.is_fully_expanded());
}

#[test]
fn a_new_builder_holds_no_state() {
    let builder = OnTheFlyLtl::new();
    assert!(builder.states().is_empty());
}

#[test]
fn always_p_has_one_state_with_a_self_loop() {
    let always = LtlFormula::release(LtlFormula::Bottom, p());
    let builder = built(&always);
    let states = builder.states();
    assert_eq!(states.len(), 1);
    assert_state(&states[0], "4", &["INIT", "4"], vec![always.clone(), p()], vec![always]);
}

#[test]
fn p_until_q_has_a_waiting_state_a_fulfilled_state_and_a_final_state() {
    let until = LtlFormula::until(p(), q());
    let builder = built(&until);
    let states = builder.states();
    assert_eq!(states.len(), 3);
    assert_state(&states[0], "4", &["INIT", "4"], vec![until.clone(), p()], vec![until.clone()]);
    assert_state(&states[1], "9", &["4", "INIT"], vec![until.clone(), q()], vec![]);
    assert_state(&states[2], "10", &["9", "10"], vec![], vec![]);
}

#[test]
fn only_states_that_come_from_the_formula_are_initial() {
    let builder = built(&LtlFormula::until(p(), q()));
    let initial: Vec<&str> = builder
        .states()
        .iter()
        .filter(|state| state.incoming().iter().any(|name| name == "INIT"))
        .map(|state| state.name().as_str())
        .collect();
    assert_eq!(initial, vec!["4", "9"]);
}

#[test]
fn every_edge_starts_at_the_marker_or_at_a_state() {
    let builder = built(&LtlFormula::until(p(), LtlFormula::release(q(), LtlFormula::next(c()))));
    let known: Vec<&String> = builder.states().iter().map(|state| state.name()).collect();
    assert!(!builder.states().is_empty());
    for state in builder.states() {
        assert!(!state.incoming().is_empty());
        for source in state.incoming() {
            assert!(source == "INIT" || known.contains(&source));
        }
    }
}

#[test]
fn states_have_names_of_their_own_and_keys_of_their_own() {
    let builder = built(&LtlFormula::until(p(), LtlFormula::release(q(), LtlFormula::next(c()))));
    let states = builder.states();
    for i in 0..states.len() {
        for j in 0..i {
            assert_ne!(states[i].name(), states[j].name());
            assert_ne!(
                states[i].calculate_hash_fully_expanded_node(),
                states[j].calculate_hash_fully_expanded_node()
            );
            assert!(
                states[i].old_formulae() != states[j].old_formulae()
                    || states[i].next_formulae() != states[j].next_formulae()
            );
        }
    }
}

#[test]
fn an_atom_has_a_state_for_it_and_a_final_state() {
    let builder = built(&p());
    let states = builder.states();
    assert_eq!(states.len(), 2);
    assert_state(&states[0], "2", &["INIT"], vec![p()], vec![]);
    assert_state(&states[1], "3", &["2", "3"], vec![], vec![]);
}

#[test]
fn top_is_committed_like_any_literal() {
    let builder = built(&LtlFormula::Top);
    let states = builder.states();
    assert_eq!(states.len(), 2);
    assert_state(&states[0], "2", &["INIT"], vec![LtlFormula::Top], vec![]);
    assert_state(&states[1], "3", &["2", "3"], vec![], vec![]);
}

#[test]
fn bottom_leaves_no_state() {
    let builder = built(&LtlFormula::Bottom);
    assert!(builder.states().is_empty());
}

#[test]
fn bottom_discards_the_node_whatever_else_it_holds() {
    assert!(built(&LtlFormula::and(p(), LtlFormula::Bottom)).states().is_empty());
    assert!(built(&LtlFormula::and(LtlFormula::Bottom, p())).states().is_empty());
    assert!(built(&LtlFormula::and(LtlFormula::next(p()), LtlFormula::Bottom)).states().is_empty());
}

#[test]
fn an_atom_after_its_negation_discards_the_node() {
    let builder = built(&LtlFormula::and(p(), LtlFormula::not(p())));
    assert!(builder.states().is_empty());
}

#[test]
fn a_negation_after_its_atom_discards_the_node() {
    let builder = built(&LtlFormula::and(LtlFormula::not(p()), p()));
    assert!(builder.states().is_empty());
}

#[test]
fn a_contradiction_discards_one_branch_only() {
    let formula = LtlFormula::and(p(), LtlFormula::or(LtlFormula::not(p()), q()));
    let builder = built(&formula);
    let states = builder.states();
    assert_eq!(states.len(), 2);
    let or = LtlFormula::or(LtlFormula::not(p()), q());
    assert_state(&states[0], "6", &["INIT"], vec![formula.clone(), or, q(), p()], vec![]);
    assert_state(&states[1], "7", &["6", "7"], vec![], vec![]);
}

#[test]
fn no_state_holds_a_formula_and_its_negation() {
    let formula = LtlFormula::until(
        LtlFormula::or(p(), LtlFormula::not(q())),
        LtlFormula::and(LtlFormula::not(p()), LtlFormula::or(q(), p())),
    );
    let builder = built(&formula);
    assert!(!builder.states().is_empty());
    for state in builder.states() {
        for formula in state.old_formulae() {
            assert!(!state.contains_processed_formula(&LtlFormula::not(formula.clone())));
        }
    }
}

#[test]
fn a_conjunction_hands_on_both_conjuncts_under_the_same_name() {
    let and = LtlFormula::and(p(), q());
    let builder = built(&and);
    let states = builder.states();
    assert_eq!(states.len(), 2);
    assert_state(&states[0], "3", &["INIT"], vec![and.clone(), q(), p()], vec![]);
    assert_eq!(states[0].father(), "1");
    assert_state(&states[1], "4", &["3", "4"], vec![], vec![]);
}

#[test]
fn a_conjunction_of_equal_conjuncts_hands_on_one() {
    let and = LtlFormula::and(p(), p());
    let builder = built(&and);
    let states = builder.states();
    assert_eq!(states.len(), 2);
    assert_state(&states[0], "2", &["INIT"], vec![and.clone(), p()], vec![]);
}

#[test]
fn a_next_formula_defers_its_operand() {
    let next = LtlFormula::next(p());
    let builder = built(&next);
    let states = builder.states();
    assert_eq!(states.len(), 3);
    assert_state(&states[0], "1", &["INIT"], vec![next.clone()], vec![p()]);
    assert_eq!(states[0].father(), "1");
    assert_state(&states[1], "3", &["1"], vec![p()], vec![]);
    assert_eq!(states[1].father(), "2");
    assert_state(&states[2], "4", &["3", "4"], vec![], vec![]);
}

#[test]
fn a_disjunction_branches_without_deferring() {
    let or = LtlFormula::or(p(), q());
    let builder = built(&or);
    let states = builder.states();
    assert_eq!(states.len(), 3);
    assert_state(&states[0], "4", &["INIT"], vec![or.clone(), p()], vec![]);
    assert_eq!(states[0].father(), "1");
    assert_state(&states[1], "5", &["4", "5", "7"], vec![], vec![]);
    assert_state(&states[2], "7", &["INIT"], vec![or.clone(), q()], vec![]);
    assert_eq!(states[2].father(), "1");
}

#[test]
fn nodes_of_equal_old_and_next_merge_into_one_state() {
    let or = LtlFormula::or(p(), p());
    let builder = built(&or);
    let states = builder.states();
    assert_eq!(states.len(), 2);
    assert_state(&states[0], "4", &["INIT"], vec![or.clone(), p()], vec![]);
    assert_state(&states[1], "5", &["4", "5"], vec![], vec![]);
}

#[test]
fn building_twice_gives_the_same_graph() {
    let until = LtlFormula::until(p(), q());
    let once = built(&until);
    let mut twice = OnTheFlyLtl::new();
    assert_eq!(twice.create_graph(&until), Ok(()));
    assert_eq!(twice.create_graph(&until), Ok(()));
    assert_eq!(twice.states().len(), once.states().len());
    for (second, first) in twice.states().iter().zip(once.states().iter()) {
        assert_eq!(second.name(), first.name());
        assert_eq!(second.father(), first.father());
        assert_eq!(second.incoming(), first.incoming());
        assert_eq!(second.old_formulae(), first.old_formulae());
        assert_eq!(second.next_formulae(), first.next_formulae());
    }
}

#[test]
fn a_builder_forgets_the_graph_it_held() {
    let mut builder = OnTheFlyLtl::new();
    assert_eq!(builder.create_graph(&LtlFormula::until(p(), q())), Ok(()));
    assert_eq!(builder.states().len(), 3);
    let always = LtlFormula::release(LtlFormula::Bottom, p());
    assert_eq!(builder.create_graph(&always), Ok(()));
    assert_eq!(builder.states().len(), 1);
    assert_state(&builder.states()[0], "4", &["INIT", "4"], vec![always.clone(), p()], vec![always]);
}

#[test]
fn a_negated_conjunction_is_refused() {
    let mut builder = OnTheFlyLtl::new();
    let formula = LtlFormula::not(LtlFormula::and(p(), q()));
    assert_eq!(builder.create_graph(&formula), Err(BuildError::NotInNormalForm));
    assert!(builder.states().is_empty());
}

#[test]
fn a_negation_deep_inside_is_refused_before_any_state_is_made() {
    let mut builder = OnTheFlyLtl::new();
    let formula = LtlFormula::or(p(), LtlFormula::next(LtlFormula::not(LtlFormula::until(p(), q()))));
    assert_eq!(builder.create_graph(&formula), Err(BuildError::NotInNormalForm));
    assert!(builder.states().is_empty());
}

#[test]
fn a_refused_formula_clears_the_graph_that_was_there() {
    let mut builder = OnTheFlyLtl::new();
    assert_eq!(builder.create_graph(&p()), Ok(()));
    assert_eq!(builder.states().len(), 2);
    let formula = LtlFormula::not(LtlFormula::next(p()));
    assert_eq!(builder.create_graph(&formula), Err(BuildError::NotInNormalForm));
    assert!(builder.states().is_empty());
}

#[test]
fn a_construction_that_needs_more_names_than_allowed_gives_no_graph() {
    let until = LtlFormula::until(p(), q());
    let mut builder = OnTheFlyLtl::with_name_limit(11);
    assert_eq!(builder.create_graph(&until), Err(BuildError::OutOfNames));
    assert!(builder.states().is_empty());
}

#[test]
fn a_construction_that_needs_as_many_names_as_allowed_gives_the_graph() {
    let until = LtlFormula::until(p(), q());
    let mut builder = OnTheFlyLtl::with_name_limit(12);
    assert_eq!(builder.create_graph(&until), Ok(()));
    let unbounded = built(&until);
    assert_eq!(builder.states().len(), 3);
    for (state, other) in builder.states().iter().zip(unbounded.states().iter()) {
        assert_eq!(state.name(), other.name());
        assert_eq!(state.incoming(), other.incoming());
        assert_eq!(state.old_formulae(), other.old_formulae());
        assert_eq!(state.next_formulae(), other.next_formulae());
    }
}

#[test]
fn an_atom_needs_four_names() {
    assert_eq!(OnTheFlyLtl::with_name_limit(3).create_graph(&p()), Err(BuildError::OutOfNames));
    assert_eq!(OnTheFlyLtl::with_name_limit(4).create_graph(&p()), Ok(()));
}

#[test]
fn no_name_allowed_means_no_graph() {
    let mut builder = OnTheFlyLtl::with_name_limit(0);
    assert_eq!(builder.create_graph(&p()), Err(BuildError::OutOfNames));
    assert_eq!(builder.create_graph(&LtlFormula::Bottom), Err(BuildError::OutOfNames));
    assert!(builder.states().is_empty());
}

#[test]
fn a_split_needs_two_names_at_once() {
    let or = LtlFormula::or(LtlFormula::Bottom, LtlFormula::Bottom);
    assert_eq!(OnTheFlyLtl::with_name_limit(2).create_graph(&or), Err(BuildError::OutOfNames));
    assert_eq!(OnTheFlyLtl::with_name_limit(3).create_graph(&or), Ok(()));
}

#[test]
fn the_normal_form_is_checked_before_names_are_counted() {
    let formula = LtlFormula::not(LtlFormula::next(p()));
    let mut builder = OnTheFlyLtl::with_name_limit(0);
    assert_eq!(builder.create_graph(&formula), Err(BuildError::NotInNormalForm));
}

#[test]
fn a_builder_works_again_after_running_out_of_names() {
    let mut builder = OnTheFlyLtl::with_name_limit(4);
    assert_eq!(builder.create_graph(&LtlFormula::until(p(), q())), Err(BuildError::OutOfNames));
    assert!(builder.states().is_empty());
    assert_eq!(builder.create_graph(&p()), Ok(()));
    assert_eq!(builder.states().len(), 2);
    assert_eq!(builder.states()[0].name(), "2");
}

#[test]
fn running_out_of_names_clears_the_graph_that_was_there() {
    let mut builder = OnTheFlyLtl::with_name_limit(4);
    assert_eq!(builder.create_graph(&p()), Ok(()));
    assert_eq!(builder.states().len(), 2);
    assert_eq!(builder.create_graph(&LtlFormula::until(p(), q())), Err(BuildError::OutOfNames));
    assert!(builder.states().is_empty());
}

#[test]
fn always_eventually_p_has_four_states() {
    let eventually = LtlFormula::until(LtlFormula::Top, p());
    let always = LtlFormula::release(LtlFormula::Bottom, eventually.clone());
    let builder = built(&always);
    let states = builder.states();
    assert_eq!(states.len(), 4);
    for state in states {
        assert!(state.old_formulae().contains(&always));
        assert!(state.old_formulae().contains(&eventually));
        assert!(state.next_formulae().contains(&always));
        assert!(!state.incoming().is_empty());
    }
}

#[test]
fn no_list_of_a_state_holds_anything_twice() {
    let inner = LtlFormula::until(p(), q());
    let formula = LtlFormula::and(inner.clone(), LtlFormula::until(inner, c()));
    let builder = built(&formula);
    assert_eq!(builder.states().len(), 16);
    for state in builder.states() {
        for (i, formula) in state.old_formulae().iter().enumerate() {
            assert!(!state.old_formulae()[..i].contains(formula));
        }
        for (i, formula) in state.next_formulae().iter().enumerate() {
            assert!(!state.next_formulae()[..i].contains(formula));
        }
        for (i, source) in state.incoming().iter().enumerate() {
            assert!(!state.incoming()[..i].contains(source));
        }
    }
}

#[test]
fn states_hold_parts_of_the_formula_only() {
    let until = LtlFormula::until(p(), LtlFormula::next(q()));
    let formula = LtlFormula::release(LtlFormula::not(c()), until.clone());
    let parts = vec![
        formula.clone(),
        LtlFormula::not(c()),
        c(),
        until,
        p(),
        LtlFormula::next(q()),
        q(),
    ];
    let builder = built(&formula);
    assert!(!builder.states().is_empty());
    for state in builder.states() {
        for formula in state.old_formulae().iter().chain(state.next_formulae().iter()) {
            assert!(parts.contains(formula));
        }
    }
}

#[test]
fn a_double_negation_contradicts_the_negation() {
    let negation = LtlFormula::not(p());
    let double = LtlFormula::not(negation.clone());
    assert!(built(&LtlFormula::and(double.clone(), negation.clone())).states().is_empty());
    assert!(built(&LtlFormula::and(negation, double.clone())).states().is_empty());
    let builder = built(&LtlFormula::and(double.clone(), p()));
    assert_eq!(builder.states().len(), 2);
    assert_eq!(
        builder.states()[0].old_formulae(),
        &vec![LtlFormula::and(double.clone(), p()), p(), double]
    );
}

fn parts(formula: &LtlFormula<u8>, found: &mut Vec<LtlFormula<u8>>) {
    match formula {
        LtlFormula::Not(inner) | LtlFormula::Next(inner) => parts(inner, found),
        LtlFormula::Or(left, right)
        | LtlFormula::And(left, right)
        | LtlFormula::Until(left, right)
        | LtlFormula::Release(left, right) => {
            parts(left, found);
            parts(right, found);
        }
        _ => {}
    }
    if !found.contains(formula) {
        found.push(formula.clone());
    }
}

#[test]
fn the_states_are_no_more_than_the_parts_of_the_formula_allow() {
    let eventually = LtlFormula::until(LtlFormula::Top, p());
    let formulas = vec![
        p(),
        LtlFormula::until(p(), q()),
        LtlFormula::release(LtlFormula::Bottom, eventually.clone()),
        LtlFormula::and(eventually, LtlFormula::next(LtlFormula::not(q()))),
    ];
    for formula in formulas {
        let mut closure = vec![];
        parts(&formula, &mut closure);
        let base = closure.len() as u128 + 1;
        let lists = base.pow(closure.len() as u32);
        let builder = built(&formula);
        assert!(!builder.states().is_empty());
        assert!((builder.states().len() as u128) <= lists * lists);
        for state in builder.states() {
            assert!(state.old_formulae().len() <= closure.len());
            assert!(state.next_formulae().len() <= closure.len());
        }
    }
}

#[test]
fn a_formula_that_defers_itself_in_two_ways_has_a_finite_graph() {
    let inner = LtlFormula::until(p(), q());
    let formula = LtlFormula::and(inner.clone(), LtlFormula::until(inner, c()));
    let builder = built(&formula);
    assert_eq!(builder.states().len(), 16);
    assert_eq!(builder.states()[0].incoming()[0], "INIT");
    for state in builder.states() {
        assert!(state.old_formulae().contains(&formula) || !state.incoming().contains(&"INIT".to_string()));
    }
}

#[test]
fn a_greater_limit_gives_the_same_graph() {
    let formula = LtlFormula::release(q(), LtlFormula::until(p(), LtlFormula::next(c())));
    let mut tight = OnTheFlyLtl::with_name_limit(200);
    let mut wide = OnTheFlyLtl::with_name_limit(20_000);
    assert_eq!(tight.create_graph(&formula), Ok(()));
    assert_eq!(wide.create_graph(&formula), Ok(()));
    assert_eq!(tight.states().len(), wide.states().len());
    for (state, other) in tight.states().iter().zip(wide.states().iter()) {
        assert_eq!(state.name(), other.name());
        assert_eq!(state.father(), other.father());
        assert_eq!(state.incoming(), other.incoming());
        assert_eq!(state.old_formulae(), other.old_formulae());
        assert_eq!(state.next_formulae(), other.next_formulae());
    }
}

#[test]
fn every_state_is_reached_from_the_marker() {
    let formula = LtlFormula::until(p(), LtlFormula::release(q(), LtlFormula::next(c())));
    let builder = built(&formula);
    let states = builder.states();
    let mut reached = vec![false; states.len()];
    for (i, state) in states.iter().enumerate() {
        let first = &state.incoming()[0];
        reached[i] = first == "INIT"
            || states[..i].iter().zip(reached.iter()).any(|(earlier, ok)| *ok && earlier.name() == first);
    }
    assert!(reached.iter().all(|ok| *ok));
}
