use rust_model_checking::node_name::numeral;
use rust_model_checking::node_name::INIT;
use rust_model_checking::structural_key::key_of_shape;
use rust_model_checking::LtlFormula;
use rust_model_checking::Node;

fn p() -> LtlFormula<u8> {
    LtlFormula::atom(1)
}

fn q() -> LtlFormula<u8> {
    LtlFormula::atom(2)
}

#[test]
fn the_initial_node_holds_the_formula_as_its_only_obligation() {
    let formula = LtlFormula::until(p(), q());
    let node = Node::init_formula("1", &formula);
    assert_eq!(node.name(), "1");
    assert_eq!(node.father(), "1");
    assert_eq!(node.incoming(), &vec!["INIT".to_string()]);
    assert_eq!(node.new_formulae(), &vec![formula]);
    assert!(node.old_formulae().is_empty());
    assert!(node.next_formulae().is_empty());
}

#[test]
fn the_initial_marker_reads_init() {
    assert_eq!(INIT, "INIT");
}

#[test]
fn a_node_with_a_new_obligation_is_not_fully_expanded() {
    let mut node = Node::init_formula("1", &p());
    assert!(!node.is_fully_expanded());
    assert_eq!(node.pop_new_formula(), Some(p()));
    assert!(node.is_fully_expanded());
}

#[test]
fn popping_takes_the_obligation_and_leaves_the_rest() {
    let mut node = Node::init_formula("7", &LtlFormula::next(q()));
    assert_eq!(node.pop_new_formula(), Some(LtlFormula::next(q())));
    assert!(node.new_formulae().is_empty());
    assert_eq!(node.name(), "7");
    assert_eq!(node.incoming(), &vec!["INIT".to_string()]);
    assert!(node.old_formulae().is_empty());
}

#[test]
fn popping_a_fully_expanded_node_gives_nothing() {
    let mut node = Node::init_formula("1", &p());
    node.pop_new_formula();
    assert_eq!(node.pop_new_formula(), None);
    assert!(node.is_fully_expanded());
    assert_eq!(node.name(), "1");
}

#[test]
fn a_fresh_node_has_processed_nothing() {
    let node = Node::init_formula("1", &p());
    assert!(!node.contains_processed_formula(&p()));
    assert!(!node.contains_processed_formula(&LtlFormula::not(p())));
}

#[test]
fn a_clone_of_a_node_has_the_same_fields() {
    let node = Node::init_formula("12", &LtlFormula::and(p(), q()));
    let copy = node.clone();
    assert_eq!(copy.name(), node.name());
    assert_eq!(copy.father(), node.father());
    assert_eq!(copy.incoming(), node.incoming());
    assert_eq!(copy.new_formulae(), node.new_formulae());
    assert_eq!(copy.old_formulae(), node.old_formulae());
    assert_eq!(copy.next_formulae(), node.next_formulae());
}

#[test]
fn the_key_of_a_node_is_the_key_of_its_old_and_next() {
    let mut node = Node::init_formula("1", &p());
    node.pop_new_formula();
    assert_eq!(node.calculate_hash_fully_expanded_node(), key_of_shape(&vec![], &vec![]));
}

#[test]
fn the_key_ignores_name_and_new_obligations() {
    let first = Node::init_formula("1", &p());
    let second = Node::init_formula("2", &q());
    assert_eq!(
        first.calculate_hash_fully_expanded_node(),
        second.calculate_hash_fully_expanded_node()
    );
}

#[test]
fn equal_lists_have_equal_keys() {
    let old = vec![LtlFormula::until(p(), q()), p()];
    let next = vec![LtlFormula::until(p(), q())];
    assert_eq!(key_of_shape(&old, &next), key_of_shape(&old.clone(), &next.clone()));
}

#[test]
fn the_key_tells_old_from_next() {
    let list = vec![p()];
    let empty: Vec<LtlFormula<u8>> = vec![];
    assert_ne!(key_of_shape(&list, &empty), key_of_shape(&empty, &list));
}

#[test]
fn the_key_tells_different_lists_apart() {
    let empty: Vec<LtlFormula<u8>> = vec![];
    assert_ne!(key_of_shape(&vec![p()], &empty), key_of_shape(&vec![q()], &empty));
    assert_ne!(key_of_shape(&vec![p(), q()], &empty), key_of_shape(&vec![q(), p()], &empty));
    assert_ne!(
        key_of_shape(&vec![LtlFormula::until(p(), q())], &empty),
        key_of_shape(&vec![LtlFormula::release(p(), q())], &empty)
    );
    assert_ne!(
        key_of_shape(&vec![LtlFormula::not(p())], &empty),
        key_of_shape(&vec![LtlFormula::next(p())], &empty)
    );
}

#[test]
fn numerals_are_decimal_without_leading_zeros() {
    assert_eq!(numeral(0), "0");
    assert_eq!(numeral(7), "7");
    assert_eq!(numeral(9), "9");
    assert_eq!(numeral(10), "10");
    assert_eq!(numeral(42), "42");
    assert_eq!(numeral(99), "99");
    assert_eq!(numeral(100), "100");
    assert_eq!(numeral(109), "109");
    assert_eq!(numeral(255), "255");
    assert_eq!(numeral(256), "256");
    assert_eq!(numeral(1_000_000), "1000000");
    assert_eq!(numeral(9_876_543_210), "9876543210");
    assert_eq!(numeral(u64::MAX), "18446744073709551615");
}

#[test]
fn small_numerals_are_what_the_standard_library_prints() {
    for number in 0..=2000u64 {
        assert_eq!(numeral(number), number.to_string());
    }
}

#[test]
fn numerals_around_powers_of_ten_are_what_the_standard_library_prints() {
    let mut power: u64 = 1;
    loop {
        for number in [power - 1, power, power + 1] {
            assert_eq!(numeral(number), number.to_string());
        }
        match power.checked_mul(10) {
            Some(next) => power = next,
            None => break,
        }
    }
    assert_eq!(numeral(u64::MAX - 1), (u64::MAX - 1).to_string());
}
