//! Formulas of linear temporal logic over an abstract type of atomic propositions.
//!
//! A formula is an immutable tree. Two formulas are equal when their shapes and
//! their leaves are equal; `==` and `clone` are verified to agree with that.

use vstd::prelude::*;
use vstd::std_specs::cmp::PartialEqSpec;
use vstd::std_specs::cmp::PartialEqSpecImpl;

verus! {

/// A formula of linear temporal logic over atomic propositions of type `AP`.
#[derive(Debug, Hash)]
pub enum LtlFormula<AP> {
    Atom(AP),
    Not(Box<LtlFormula<AP>>),
    Or(Box<LtlFormula<AP>>, Box<LtlFormula<AP>>),
    And(Box<LtlFormula<AP>>, Box<LtlFormula<AP>>),
    Next(Box<LtlFormula<AP>>),
    Until(Box<LtlFormula<AP>>, Box<LtlFormula<AP>>),
    Release(Box<LtlFormula<AP>>, Box<LtlFormula<AP>>),
    Top,
    Bottom,
}

/// The executable `==` of the atoms decides their equality.
pub open spec fn atoms_compare_structurally<AP: PartialEq>() -> bool {
    &&& AP::obeys_eq_spec()
    &&& forall|a: AP, b: AP| #[trigger] a.eq_spec(&b) == (a == b)
}

/// A clone of an atom is that atom.
pub open spec fn atoms_clone_exactly<AP: Clone>() -> bool {
    forall|a: AP, b: AP| #[trigger] cloned::<AP>(a, b) ==> a == b
}

impl<AP: PartialEq> PartialEq for LtlFormula<AP> {
    fn eq(&self, other: &Self) -> (r: bool)
        decreases self,
    {
        match (self, other) {
            (LtlFormula::Atom(a), LtlFormula::Atom(b)) => a == b,
            (LtlFormula::Not(a), LtlFormula::Not(b)) => (**a).eq(&**b),
            (LtlFormula::Or(a1, a2), LtlFormula::Or(b1, b2)) => {
                (**a1).eq(&**b1) && (**a2).eq(&**b2)
            },
            (LtlFormula::And(a1, a2), LtlFormula::And(b1, b2)) => {
                (**a1).eq(&**b1) && (**a2).eq(&**b2)
            },
            (LtlFormula::Next(a), LtlFormula::Next(b)) => (**a).eq(&**b),
            (LtlFormula::Until(a1, a2), LtlFormula::Until(b1, b2)) => {
                (**a1).eq(&**b1) && (**a2).eq(&**b2)
            },
            (LtlFormula::Release(a1, a2), LtlFormula::Release(b1, b2)) => {
                (**a1).eq(&**b1) && (**a2).eq(&**b2)
            },
            (LtlFormula::Top, LtlFormula::Top) => true,
            (LtlFormula::Bottom, LtlFormula::Bottom) => true,
            _ => false,
        }
    }
}

impl<AP: PartialEq> PartialEqSpecImpl for LtlFormula<AP> {
    open spec fn obeys_eq_spec() -> bool {
        atoms_compare_structurally::<AP>()
    }

    open spec fn eq_spec(&self, other: &Self) -> bool {
        *self == *other
    }
}

impl<AP: Eq> Eq for LtlFormula<AP> {

}

impl<AP: Clone> Clone for LtlFormula<AP> {
    fn clone(&self) -> (copy: Self)
        ensures
            atoms_clone_exactly::<AP>() ==> copy == *self,
        decreases self,
    {
        match self {
            LtlFormula::Atom(a) => {
                let value = a.clone();
                assert(cloned::<AP>(*a, value));
                LtlFormula::Atom(value)
            },
            LtlFormula::Not(a) => LtlFormula::Not(Box::new((**a).clone())),
            LtlFormula::Or(a, b) => LtlFormula::Or(
                Box::new((**a).clone()),
                Box::new((**b).clone()),
            ),
            LtlFormula::And(a, b) => LtlFormula::And(
                Box::new((**a).clone()),
                Box::new((**b).clone()),
            ),
            LtlFormula::Next(a) => LtlFormula::Next(Box::new((**a).clone())),
            LtlFormula::Until(a, b) => LtlFormula::Until(
                Box::new((**a).clone()),
                Box::new((**b).clone()),
            ),
            LtlFormula::Release(a, b) => LtlFormula::Release(
                Box::new((**a).clone()),
                Box::new((**b).clone()),
            ),
            LtlFormula::Top => LtlFormula::Top,
            LtlFormula::Bottom => LtlFormula::Bottom,
        }
    }
}

impl<AP> LtlFormula<AP> {
    /// A literal is an atom, `Top`, `Bottom`, or the negation of a literal.
    pub open spec fn spec_is_literal(&self) -> bool
        decreases self,
    {
        match self {
            LtlFormula::Atom(_) | LtlFormula::Top | LtlFormula::Bottom => true,
            LtlFormula::Not(formula) => formula.spec_is_literal(),
            _ => false,
        }
    }

    /// Negation is applied to literals only, anywhere in the formula.
    pub open spec fn in_normal_form(&self) -> bool
        decreases self,
    {
        match self {
            LtlFormula::Atom(_) | LtlFormula::Top | LtlFormula::Bottom => true,
            LtlFormula::Not(formula) => formula.spec_is_literal(),
            LtlFormula::Next(formula) => formula.in_normal_form(),
            LtlFormula::Or(left, right)
            | LtlFormula::And(left, right)
            | LtlFormula::Until(left, right)
            | LtlFormula::Release(left, right) => left.in_normal_form() && right.in_normal_form(),
        }
    }

    /// `self` is `whole` or occurs in an operand of `whole`.
    pub open spec fn is_part_of(self, whole: Self) -> bool
        decreases whole,
    {
        ||| self == whole
        ||| match whole {
            LtlFormula::Not(formula) | LtlFormula::Next(formula) => self.is_part_of(*formula),
            LtlFormula::Or(left, right)
            | LtlFormula::And(left, right)
            | LtlFormula::Until(left, right)
            | LtlFormula::Release(left, right) => self.is_part_of(*left) || self.is_part_of(
                *right,
            ),
            _ => false,
        }
    }

    /// The atomic proposition `value`.
    pub fn atom(value: AP) -> (formula: Self)
        ensures
            formula == LtlFormula::Atom(value),
    {
        LtlFormula::Atom(value)
    }

    /// The negation of `ltl_formula`.
    pub fn not(ltl_formula: Self) -> (formula: Self)
        ensures
            formula == LtlFormula::Not(Box::new(ltl_formula)),
    {
        LtlFormula::Not(Box::new(ltl_formula))
    }

    /// The disjunction of the two formulas.
    pub fn or(ltl_formula_left: Self, ltl_formula_right: Self) -> (formula: Self)
        ensures
            formula == LtlFormula::Or(Box::new(ltl_formula_left), Box::new(ltl_formula_right)),
    {
        LtlFormula::Or(Box::new(ltl_formula_left), Box::new(ltl_formula_right))
    }

    /// The conjunction of the two formulas.
    pub fn and(ltl_formula_left: Self, ltl_formula_right: Self) -> (formula: Self)
        ensures
            formula == LtlFormula::And(Box::new(ltl_formula_left), Box::new(ltl_formula_right)),
    {
        LtlFormula::And(Box::new(ltl_formula_left), Box::new(ltl_formula_right))
    }

    /// `ltl_formula` holds at the next step.
    pub fn next(ltl_formula: Self) -> (formula: Self)
        ensures
            formula == LtlFormula::Next(Box::new(ltl_formula)),
    {
        LtlFormula::Next(Box::new(ltl_formula))
    }

    /// The left formula holds until the right one does, and the right one will.
    pub fn until(ltl_formula_left: Self, ltl_formula_right: Self) -> (formula: Self)
        ensures
            formula == LtlFormula::Until(Box::new(ltl_formula_left), Box::new(ltl_formula_right)),
    {
        LtlFormula::Until(Box::new(ltl_formula_left), Box::new(ltl_formula_right))
    }

    /// The right formula holds up to and at the step at which the left one
    /// holds, and for ever if the left one never does.
    pub fn release(ltl_formula_left: Self, ltl_formula_right: Self) -> (formula: Self)
        ensures
            formula == LtlFormula::Release(
                Box::new(ltl_formula_left),
                Box::new(ltl_formula_right),
            ),
    {
        LtlFormula::Release(Box::new(ltl_formula_left), Box::new(ltl_formula_right))
    }

    /// Whether the formula is an atom, `Top`, `Bottom`, or the negation of a literal.
    pub fn is_literal(&self) -> (literal: bool)
        ensures
            literal == self.spec_is_literal(),
        decreases self,
    {
        match self {
            LtlFormula::Atom(_) | LtlFormula::Top | LtlFormula::Bottom => true,
            LtlFormula::Not(formula) => formula.is_literal(),
            _ => false,
        }
    }

    /// Whether negation is applied to literals only, anywhere in the formula.
    pub fn is_normal_form(&self) -> (normal: bool)
        ensures
            normal == self.in_normal_form(),
        decreases self,
    {
        match self {
            LtlFormula::Atom(_) | LtlFormula::Top | LtlFormula::Bottom => true,
            LtlFormula::Not(formula) => formula.is_literal(),
            LtlFormula::Next(formula) => formula.is_normal_form(),
            LtlFormula::Or(left, right)
            | LtlFormula::And(left, right)
            | LtlFormula::Until(left, right)
            | LtlFormula::Release(left, right) => left.is_normal_form() && right.is_normal_form(),
        }
    }
}

/// A part of a part of a formula is a part of that formula.
pub proof fn lemma_part_of_part<AP>(inner: LtlFormula<AP>, part: LtlFormula<AP>, whole: LtlFormula<AP>)
    requires
        inner.is_part_of(part),
        part.is_part_of(whole),
    ensures
        inner.is_part_of(whole),
    decreases whole,
{
    if part != whole {
        match whole {
            LtlFormula::Not(formula) | LtlFormula::Next(formula) => {
                lemma_part_of_part(inner, part, *formula);
            },
            LtlFormula::Or(left, right)
            | LtlFormula::And(left, right)
            | LtlFormula::Until(left, right)
            | LtlFormula::Release(left, right) => {
                if part.is_part_of(*left) {
                    lemma_part_of_part(inner, part, *left);
                } else {
                    lemma_part_of_part(inner, part, *right);
                }
            },
            _ => {},
        }
    }
}

} // verus!
