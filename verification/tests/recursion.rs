use rust_model_checking::BuildError;
use rust_model_checking::LtlFormula;
use rust_model_checking::LtlFormula::{And, Atom, Bottom, Next, Not, Or, Release, Top, Until};
use rust_model_checking::OnTheFlyLtl;

type Formula = LtlFormula<u8>;

#[derive(Clone, Debug, PartialEq)]
struct Plain {
    name: String,
    father: String,
    incoming: Vec<String>,
    old: Vec<Formula>,
    next: Vec<Formula>,
    new: Vec<Formula>,
}

fn adjoin<T: PartialEq>(list: &mut Vec<T>, item: T) {
    if !list.contains(&item) {
        list.push(item);
    }
}

/// The construction written as plain recursion over the rules, with a list for
/// the states and a search through it for the one of the same `old` and `next`.
struct Recursion {
    counter: u64,
    limit: u64,
    states: Vec<Plain>,
    out_of_names: bool,
}

impl Recursion {
    fn build(formula: &Formula, limit: u64) -> Result<Vec<Plain>, BuildError> {
        if !formula.is_normal_form() {
            return Err(BuildError::NotInNormalForm);
        }
        let mut recursion = Recursion { counter: 0, limit, states: vec![], out_of_names: false };
        let name = match recursion.name() {
            Some(name) => name,
            None => return Err(BuildError::OutOfNames),
        };
        recursion.expand(Plain {
            name: name.clone(),
            father: name,
            incoming: vec!["INIT".to_string()],
            old: vec![],
            next: vec![],
            new: vec![formula.clone()],
        });
        if recursion.out_of_names {
            Err(BuildError::OutOfNames)
        } else {
            Ok(recursion.states)
        }
    }

    fn name(&mut self) -> Option<String> {
        if self.counter < self.limit {
            self.counter += 1;
            Some(self.counter.to_string())
        } else {
            self.out_of_names = true;
            None
        }
    }

    fn expand(&mut self, mut node: Plain) {
        if self.out_of_names {
            return;
        }
        let formula = match node.new.pop() {
            Some(formula) => formula,
            None => {
                let found = self
                    .states
                    .iter_mut()
                    .find(|state| state.old == node.old && state.next == node.next);
                if let Some(state) = found {
                    for source in node.incoming {
                        adjoin(&mut state.incoming, source);
                    }
                    return;
                }
                let seed_name = match self.name() {
                    Some(name) => name,
                    None => return,
                };
                let seed = Plain {
                    name: seed_name.clone(),
                    father: seed_name,
                    incoming: vec![node.name.clone()],
                    old: vec![],
                    next: vec![],
                    new: node.next.clone(),
                };
                self.states.push(node);
                self.expand(seed);
                return;
            }
        };
        match &formula {
            Atom(_) | Top | Bottom | Not(_) => {
                let negated = Not(Box::new(formula.clone()));
                let negates = match &formula {
                    Not(inner) => node.old.contains(inner),
                    _ => false,
                };
                if formula == Bottom || node.old.contains(&negated) || negates {
                    return;
                }
                node.name = match self.name() {
                    Some(name) => name,
                    None => return,
                };
                adjoin(&mut node.old, formula);
                self.expand(node);
            }
            Until(left, right) | Release(left, right) | Or(left, right) => {
                if self.limit - self.counter < 2 {
                    self.out_of_names = true;
                    return;
                }
                let (new_1, new_2, next_1) = match &formula {
                    Until(_, _) => (left, vec![right], vec![formula.clone()]),
                    Release(_, _) => (right, vec![left, right], vec![formula.clone()]),
                    _ => (left, vec![right], vec![]),
                };
                let mut first = node.clone();
                if !node.old.contains(new_1) {
                    adjoin(&mut first.new, (**new_1).clone());
                }
                adjoin(&mut first.old, formula.clone());
                for deferred in next_1 {
                    adjoin(&mut first.next, deferred);
                }
                first.name = self.name().unwrap();
                first.father = node.name.clone();
                let mut second = node.clone();
                for part in new_2 {
                    if !node.old.contains(part) {
                        adjoin(&mut second.new, (**part).clone());
                    }
                }
                adjoin(&mut second.old, formula.clone());
                second.name = self.name().unwrap();
                second.father = node.name.clone();
                self.expand(first);
                self.expand(second);
            }
            And(left, right) => {
                adjoin(&mut node.new, (**left).clone());
                adjoin(&mut node.new, (**right).clone());
                adjoin(&mut node.old, formula.clone());
                self.expand(node);
            }
            Next(inner) => {
                adjoin(&mut node.old, formula.clone());
                adjoin(&mut node.next, (**inner).clone());
                self.expand(node);
            }
        }
    }
}

fn leaves() -> Vec<Formula> {
    vec![Atom(1), Atom(2), Top, Bottom]
}

fn one_level_above(parts: &[Formula]) -> Vec<Formula> {
    let mut formulas = vec![];
    for left in parts {
        formulas.push(LtlFormula::not(left.clone()));
        formulas.push(LtlFormula::next(left.clone()));
        for right in parts {
            formulas.push(LtlFormula::or(left.clone(), right.clone()));
            formulas.push(LtlFormula::and(left.clone(), right.clone()));
            formulas.push(LtlFormula::until(left.clone(), right.clone()));
            formulas.push(LtlFormula::release(left.clone(), right.clone()));
        }
    }
    formulas
}

fn assert_same_graph_under(formula: &Formula, limit: u64) -> bool {
    let mut builder = OnTheFlyLtl::with_name_limit(limit);
    let result = builder.create_graph(formula);
    match Recursion::build(formula, limit) {
        Err(error) => {
            assert_eq!(result, Err(error), "{:?}", formula);
            assert!(builder.states().is_empty());
            false
        }
        Ok(expected) => {
            assert_eq!(result, Ok(()), "{:?}", formula);
            let states = builder.states();
            assert_eq!(states.len(), expected.len(), "{:?}", formula);
            for (state, plain) in states.iter().zip(expected.iter()) {
                assert_eq!(state.name(), &plain.name, "{:?}", formula);
                assert_eq!(state.father(), &plain.father, "{:?}", formula);
                assert_eq!(state.incoming(), &plain.incoming, "{:?}", formula);
                assert_eq!(state.old_formulae(), &plain.old, "{:?}", formula);
                assert_eq!(state.next_formulae(), &plain.next, "{:?}", formula);
                assert!(state.new_formulae().is_empty());
            }
            true
        }
    }
}

fn assert_same_graph(formula: &Formula) -> bool {
    assert_same_graph_under(formula, u64::MAX)
}

fn nested_temporal_formulas() -> Vec<Formula> {
    let p = || Atom(1u8);
    let q = || Atom(2u8);
    let r = || Atom(3u8);
    vec![
        LtlFormula::until(p(), LtlFormula::until(q(), r())),
        LtlFormula::release(p(), LtlFormula::until(q(), r())),
        LtlFormula::until(LtlFormula::release(p(), q()), r()),
        LtlFormula::and(LtlFormula::until(p(), q()), LtlFormula::release(q(), r())),
        LtlFormula::or(LtlFormula::next(LtlFormula::until(p(), q())), LtlFormula::not(r())),
        LtlFormula::release(Bottom, LtlFormula::until(Top, p())),
        LtlFormula::until(Top, LtlFormula::release(Bottom, p())),
        LtlFormula::release(Bottom, LtlFormula::or(LtlFormula::not(p()), LtlFormula::next(q()))),
        LtlFormula::and(
            LtlFormula::until(p(), q()),
            LtlFormula::until(LtlFormula::until(p(), q()), r()),
        ),
        LtlFormula::next(LtlFormula::next(LtlFormula::and(p(), LtlFormula::not(p())))),
        LtlFormula::and(
            LtlFormula::release(Bottom, LtlFormula::until(Top, p())),
            LtlFormula::release(Bottom, LtlFormula::until(Top, q())),
        ),
        LtlFormula::until(
            LtlFormula::or(p(), LtlFormula::next(q())),
            LtlFormula::release(r(), LtlFormula::and(p(), LtlFormula::next(LtlFormula::not(q())))),
        ),
    ]
}

#[test]
fn the_stack_builds_what_recursion_builds_from_leaves_and_one_connective() {
    let mut built = 0;
    for formula in leaves().iter().chain(one_level_above(&leaves()).iter()) {
        if assert_same_graph(formula) {
            built += 1;
        }
    }
    assert_eq!(built, 76);
}

#[test]
fn the_stack_builds_what_recursion_builds_from_two_connectives() {
    let mut parts = leaves();
    parts.extend(one_level_above(&[Atom(1), Atom(2), Bottom]));
    let mut built = 0;
    let mut refused = 0;
    for formula in one_level_above(&parts) {
        if assert_same_graph(&formula) {
            built += 1;
        } else {
            refused += 1;
        }
    }
    assert!(built > 3000);
    assert!(refused > 0);
}

#[test]
fn the_stack_builds_what_recursion_builds_from_nested_temporal_formulas() {
    for formula in nested_temporal_formulas() {
        assert!(assert_same_graph(&formula));
    }
}

#[test]
fn the_stack_runs_out_of_names_where_recursion_does() {
    let mut built = 0;
    let mut refused = 0;
    for formula in nested_temporal_formulas() {
        for limit in 0..120 {
            if assert_same_graph_under(&formula, limit) {
                built += 1;
            } else {
                refused += 1;
            }
        }
    }
    assert!(built > 0);
    assert!(refused > 0);
}
