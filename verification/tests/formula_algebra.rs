use rust_model_checking::LtlFormula;
use rust_model_checking::LtlFormula::{And, Atom, Bottom, Next, Not, Or, Release, Top, Until};

fn p() -> LtlFormula<u8> {
    LtlFormula::atom(1)
}

fn q() -> LtlFormula<u8> {
    LtlFormula::atom(2)
}

#[test]
fn atom_wraps_its_value() {
    assert_eq!(LtlFormula::atom(3u8), Atom(3u8));
}

#[test]
fn not_wraps_its_operand() {
    assert_eq!(LtlFormula::not(p()), Not(Box::new(Atom(1))));
}

#[test]
fn or_wraps_its_operands_in_order() {
    assert_eq!(LtlFormula::or(p(), q()), Or(Box::new(Atom(1)), Box::new(Atom(2))));
    assert_ne!(LtlFormula::or(p(), q()), LtlFormula::or(q(), p()));
}

#[test]
fn and_wraps_its_operands_in_order() {
    assert_eq!(LtlFormula::and(p(), q()), And(Box::new(Atom(1)), Box::new(Atom(2))));
    assert_ne!(LtlFormula::and(p(), q()), LtlFormula::and(q(), p()));
}

#[test]
fn next_wraps_its_operand() {
    assert_eq!(LtlFormula::next(p()), Next(Box::new(Atom(1))));
}

#[test]
fn until_wraps_its_operands_in_order() {
    assert_eq!(LtlFormula::until(p(), q()), Until(Box::new(Atom(1)), Box::new(Atom(2))));
    assert_ne!(LtlFormula::until(p(), q()), LtlFormula::until(q(), p()));
}

#[test]
fn release_wraps_its_operands_in_order() {
    assert_eq!(
        LtlFormula::release(Bottom, p()),
        Release(Box::new(Bottom), Box::new(Atom(1)))
    );
    assert_ne!(LtlFormula::release(Bottom, p()), LtlFormula::release(p(), Bottom));
}

#[test]
fn connectives_differ_from_each_other() {
    assert_ne!(LtlFormula::or(p(), q()), LtlFormula::and(p(), q()));
    assert_ne!(LtlFormula::until(p(), q()), LtlFormula::release(p(), q()));
    assert_ne!(LtlFormula::not(p()), LtlFormula::next(p()));
    assert_ne!(LtlFormula::<u8>::Top, LtlFormula::<u8>::Bottom);
    assert_ne!(p(), q());
}

#[test]
fn equality_goes_by_shape_and_leaves() {
    let left = LtlFormula::until(LtlFormula::and(p(), LtlFormula::not(q())), LtlFormula::next(p()));
    let right = LtlFormula::until(LtlFormula::and(p(), LtlFormula::not(q())), LtlFormula::next(p()));
    let other = LtlFormula::until(LtlFormula::and(p(), LtlFormula::not(q())), LtlFormula::next(q()));
    assert_eq!(left, right);
    assert_ne!(left, other);
}

#[test]
fn a_clone_equals_its_source() {
    let formula = LtlFormula::release(
        LtlFormula::or(p(), Top),
        LtlFormula::next(LtlFormula::not(q())),
    );
    assert_eq!(formula.clone(), formula);
}

#[test]
fn formulas_over_other_atoms_compare_and_clone() {
    let formula = LtlFormula::and(LtlFormula::atom("a"), LtlFormula::not(LtlFormula::atom("b")));
    assert_eq!(formula.clone(), formula);
    assert_ne!(formula, LtlFormula::atom("a"));
}

#[test]
fn atoms_and_constants_are_literals() {
    assert!(p().is_literal());
    assert!(LtlFormula::<u8>::Top.is_literal());
    assert!(LtlFormula::<u8>::Bottom.is_literal());
}

#[test]
fn negated_literals_are_literals() {
    assert!(LtlFormula::not(p()).is_literal());
    assert!(LtlFormula::not(LtlFormula::<u8>::Top).is_literal());
    assert!(LtlFormula::not(LtlFormula::<u8>::Bottom).is_literal());
    assert!(LtlFormula::not(LtlFormula::not(p())).is_literal());
}

#[test]
fn compound_formulas_are_no_literals() {
    assert!(!LtlFormula::or(p(), q()).is_literal());
    assert!(!LtlFormula::and(p(), q()).is_literal());
    assert!(!LtlFormula::next(p()).is_literal());
    assert!(!LtlFormula::until(p(), q()).is_literal());
    assert!(!LtlFormula::release(p(), q()).is_literal());
    assert!(!LtlFormula::not(LtlFormula::and(p(), q())).is_literal());
    assert!(!LtlFormula::not(LtlFormula::not(LtlFormula::next(p()))).is_literal());
}

#[test]
fn normal_form_allows_negation_of_literals_only() {
    assert!(p().is_normal_form());
    assert!(LtlFormula::not(p()).is_normal_form());
    assert!(LtlFormula::until(LtlFormula::not(p()), LtlFormula::next(q())).is_normal_form());
    assert!(LtlFormula::release(Bottom, p()).is_normal_form());
    assert!(!LtlFormula::not(LtlFormula::and(p(), q())).is_normal_form());
    assert!(!LtlFormula::or(p(), LtlFormula::not(LtlFormula::next(q()))).is_normal_form());
    assert!(!LtlFormula::next(LtlFormula::not(LtlFormula::until(p(), q()))).is_normal_form());
}
