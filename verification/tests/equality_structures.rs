use scarlet::definitions::{DDecision, DOther, DPopulatedStruct, DUnique, DVariable, Definition};
use scarlet::environment::Environment;
use scarlet::equal::Equal;
use scarlet::item::{ItemPtr, Scope};
use scarlet::resolvable::UnresolvedItemError;
use scarlet::substitutions::Substitutions;
use scarlet::util::unchecked_substitution;
use scarlet::variable::{VariableOrder, VariablePtr};

const LIMIT: usize = 32;

fn unique(env: &mut Environment) -> ItemPtr {
    let id = env.push_unique();
    env.push_item(Definition::Unique(DUnique::new(id)), Scope::Root)
}

fn variable_full_with_deps(env: &mut Environment, deps: Vec<ItemPtr>) -> (ItemPtr, VariablePtr) {
    let order = VariableOrder::new(0, 0, env.num_variables() as u32);
    let item = DVariable::new(env, vec![], deps, order, Scope::Root);
    match env.definition(item) {
        Definition::Variable(d) => (item, *d.get_variable()),
        _ => panic!("a new variable item stands for a variable"),
    }
}

fn variable_full(env: &mut Environment) -> (ItemPtr, VariablePtr) {
    variable_full_with_deps(env, vec![])
}

fn decision(env: &mut Environment, a: ItemPtr, b: ItemPtr, c: ItemPtr, d: ItemPtr) -> ItemPtr {
    env.push_item(Definition::Decision(DDecision::new(a, b, c, d)), Scope::Root)
}

fn other(env: &mut Environment, p: ItemPtr) -> ItemPtr {
    env.push_item(Definition::Other(DOther::new(p)), Scope::Root)
}

/// A structure of the given fields, each labelled, ending in `rest`.
fn structt(env: &mut Environment, fields: Vec<(&str, ItemPtr)>, rest: ItemPtr) -> ItemPtr {
    let mut body = rest;
    for (label, value) in fields.into_iter().rev() {
        body = env.push_item(
            Definition::PopulatedStruct(DPopulatedStruct::new(body, label.to_owned(), value)),
            Scope::Root,
        );
    }
    body
}

fn subs(entries: Vec<(VariablePtr, ItemPtr)>) -> Substitutions {
    Substitutions::from_entries(entries)
}

fn trivial_yes(r: &Result<Equal, UnresolvedItemError>) -> bool {
    matches!(r, Ok(Equal::Yes(l, rr)) if l.len() == 0 && rr.len() == 0)
}

#[test]
fn sneaky_substitution() {
    let mut env = Environment::new();
    let a = unique(&mut env);
    let b = unique(&mut env);
    let t = unique(&mut env);
    let f = unique(&mut env);
    let x = variable_full(&mut env);
    let y = variable_full(&mut env);
    let fx = variable_full_with_deps(&mut env, vec![x.0]);
    let x_eq_y = decision(&mut env, x.0, y.0, t, f);
    let _a_eq_b = decision(&mut env, a, b, t, f);
    let this_subs = subs(vec![(fx.1, x_eq_y), (x.1, a), (y.1, b)]);
    let _tricky_sub = unchecked_substitution(&mut env, fx.0, &this_subs);
}

#[test]
fn x_x_is_y_y() {
    let mut env = Environment::new();
    let x = variable_full(&mut env);
    let y = variable_full(&mut env);
    let void = unique(&mut env);
    let x_x = structt(&mut env, vec![("", x.0), ("", x.0)], void);
    let y_y = structt(&mut env, vec![("", y.0), ("", y.0)], void);
    match x_x.get_trimmed_equality(&mut env, &y_y, LIMIT) {
        Ok(Equal::Yes(l, _)) => {
            assert_eq!(l.len(), 1);
            assert_eq!(l.iter_entries()[0], (x.1, y.0));
        }
        other => panic!("expected Yes, got {:?}", other),
    }
}

#[test]
fn x_x_is_y_other_y_other() {
    let mut env = Environment::new();
    let x = variable_full(&mut env);
    let y = variable_full(&mut env);
    let void = unique(&mut env);
    let x_x = structt(&mut env, vec![("", x.0), ("", x.0)], void);
    let y_other_0 = other(&mut env, y.0);
    let y_other_1 = other(&mut env, y.0);
    let y_y = structt(&mut env, vec![("", y_other_0), ("", y_other_1)], void);
    match x_x.get_trimmed_equality(&mut env, &y_y, LIMIT) {
        Ok(Equal::Yes(l, _)) => {
            assert_eq!(l.len(), 1);
            assert_eq!(l.iter_entries()[0], (x.1, y.0));
        }
        other => panic!("expected Yes, got {:?}", other),
    }
}

#[test]
fn other_fx_is_self() {
    let mut env = Environment::new();
    let x = variable_full(&mut env);
    let f = variable_full_with_deps(&mut env, vec![x.0]);
    let other_base = other(&mut env, f.0);
    let other_0 = other(&mut env, other_base);
    let other_1 = other(&mut env, other_base);
    assert!(trivial_yes(&other_0.get_trimmed_equality(&mut env, &other_1, LIMIT)));
}
