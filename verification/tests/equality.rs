use scarlet::definitions::{DDecision, DUnique, DVariable, Definition};
use scarlet::environment::Environment;
use scarlet::equal::Equal;
use scarlet::item::{ItemPtr, Scope};
use scarlet::resolvable::UnresolvedItemError;
use scarlet::substitutions::Substitutions;
use scarlet::util::{unchecked_substitution, unchecked_substitution_without_shortcuts};
use scarlet::variable::{VariableOrder, VariablePtr};

const LIMIT: usize = 32;

fn unique(env: &mut Environment) -> ItemPtr {
    let id = env.push_unique();
    env.push_item(Definition::Unique(DUnique::new(id)), Scope::Root)
}

fn variable_full(env: &mut Environment) -> (ItemPtr, VariablePtr) {
    let order = VariableOrder::new(0, 0, env.num_variables() as u32);
    let item = DVariable::new(env, vec![], vec![], order, Scope::Root);
    match env.definition(item) {
        Definition::Variable(d) => (item, *d.get_variable()),
        _ => panic!("a new variable item stands for a variable"),
    }
}

fn decision(env: &mut Environment, a: ItemPtr, b: ItemPtr, c: ItemPtr, d: ItemPtr) -> ItemPtr {
    env.push_item(Definition::Decision(DDecision::new(a, b, c, d)), Scope::Root)
}

fn subs(entries: Vec<(VariablePtr, ItemPtr)>) -> Substitutions {
    Substitutions::from_entries(entries)
}

fn assert_yes(
    result: Result<Equal, UnresolvedItemError>,
    left: Vec<(VariablePtr, ItemPtr)>,
    right: Vec<(VariablePtr, ItemPtr)>,
) {
    match result {
        Ok(Equal::Yes(l, r)) => {
            assert_eq!(l.iter_entries().to_vec(), left);
            assert_eq!(r.iter_entries().to_vec(), right);
        }
        other => panic!("expected Yes, got {:?}", other),
    }
}

fn assert_no(result: Result<Equal, UnresolvedItemError>) {
    match result {
        Ok(Equal::No) => {}
        other => panic!("expected No, got {:?}", other),
    }
}

#[test]
fn something_equals_itself() {
    let mut env = Environment::new();
    let thing = unique(&mut env);
    assert_yes(thing.get_trimmed_equality(&mut env, &thing, LIMIT), vec![], vec![]);
}

#[test]
fn variable_equals_something() {
    let mut env = Environment::new();
    let (var_con, var_id) = variable_full(&mut env);
    let thing = unique(&mut env);
    assert_yes(var_con.get_trimmed_equality(&mut env, &thing, LIMIT), vec![(var_id, thing)], vec![]);
}

#[test]
fn variable_equals_variable() {
    let mut env = Environment::new();
    let x = variable_full(&mut env);
    let y = variable_full(&mut env);
    assert_yes(x.0.get_trimmed_equality(&mut env, &y.0, LIMIT), vec![(x.1, y.0)], vec![]);
}

#[test]
fn var_sub_something_equals_something() {
    let mut env = Environment::new();
    let thing = unique(&mut env);
    let another = unique(&mut env);
    let (var_con, var_id) = variable_full(&mut env);
    let var_sub_thing = unchecked_substitution(&mut env, var_con, &subs(vec![(var_id, thing)]));
    assert_yes(var_sub_thing.get_trimmed_equality(&mut env, &thing, LIMIT), vec![], vec![]);
    assert_yes(thing.get_trimmed_equality(&mut env, &var_sub_thing, LIMIT), vec![], vec![]);
    assert_no(var_sub_thing.get_trimmed_equality(&mut env, &another, LIMIT));
    assert_no(another.get_trimmed_equality(&mut env, &var_sub_thing, LIMIT));
}

#[test]
fn decision_equals_identical_decision() {
    let mut env = Environment::new();
    let a = unique(&mut env);
    let b = unique(&mut env);
    let c = unique(&mut env);
    let d = unique(&mut env);
    let dec1 = decision(&mut env, a, b, c, d);
    let dec2 = decision(&mut env, a, b, c, d);
    assert_yes(dec1.get_trimmed_equality(&mut env, &dec2, LIMIT), vec![], vec![]);
    assert_yes(dec2.get_trimmed_equality(&mut env, &dec1, LIMIT), vec![], vec![]);
}

#[test]
fn aabc_is_ddef() {
    let mut env = Environment::new();
    let a = variable_full(&mut env);
    let b = variable_full(&mut env);
    let c = variable_full(&mut env);
    let d = variable_full(&mut env);
    let e = variable_full(&mut env);
    let f = variable_full(&mut env);
    let dec1 = decision(&mut env, a.0, a.0, b.0, c.0);
    let dec2 = decision(&mut env, d.0, d.0, e.0, f.0);
    assert_yes(
        dec1.get_trimmed_equality(&mut env, &dec2, LIMIT),
        vec![(a.1, d.0), (b.1, e.0), (c.1, f.0)],
        vec![],
    );
    assert_yes(
        dec2.get_trimmed_equality(&mut env, &dec1, LIMIT),
        vec![(d.1, a.0), (e.1, b.0), (f.1, c.0)],
        vec![],
    );
}

#[test]
fn xxbc_is_aabc() {
    let mut env = Environment::new();
    let a = unique(&mut env);
    let b = unique(&mut env);
    let c = unique(&mut env);
    let x = variable_full(&mut env);
    let dec1 = decision(&mut env, x.0, x.0, b, c);
    let dec2 = decision(&mut env, a, a, b, c);
    assert_yes(dec1.get_trimmed_equality(&mut env, &dec2, LIMIT), vec![(x.1, a)], vec![]);
}

#[test]
fn aabc_eq_b_is_ddef_eq_e() {
    let mut env = Environment::new();
    let truee = unique(&mut env);
    let falsee = unique(&mut env);
    let a = variable_full(&mut env);
    let b = variable_full(&mut env);
    let c = variable_full(&mut env);
    let d = variable_full(&mut env);
    let e = variable_full(&mut env);
    let f = variable_full(&mut env);
    let dec1 = decision(&mut env, a.0, a.0, b.0, c.0);
    let dec1 = decision(&mut env, dec1, b.0, truee, falsee);
    let dec2 = decision(&mut env, d.0, d.0, e.0, f.0);
    let dec2 = decision(&mut env, dec2, e.0, truee, falsee);
    assert_yes(
        dec1.get_trimmed_equality(&mut env, &dec2, LIMIT),
        vec![(a.1, d.0), (b.1, e.0), (c.1, f.0)],
        vec![],
    );
    assert_yes(
        dec2.get_trimmed_equality(&mut env, &dec1, LIMIT),
        vec![(d.1, a.0), (e.1, b.0), (f.1, c.0)],
        vec![],
    );
}

#[test]
fn decision_equals_decision_with_subs() {
    let mut env = Environment::new();
    let a = variable_full(&mut env);
    let b = variable_full(&mut env);
    let c = variable_full(&mut env);
    let d = variable_full(&mut env);
    let w = unique(&mut env);
    let x = unique(&mut env);
    let y = unique(&mut env);
    let z = unique(&mut env);
    let dec1 = decision(&mut env, a.0, b.0, c.0, d.0);
    let dec2 = decision(&mut env, w, x, y, z);
    assert_yes(
        dec1.get_trimmed_equality(&mut env, &dec2, LIMIT),
        vec![(a.1, w), (b.1, x), (c.1, y), (d.1, z)],
        vec![],
    );
}

#[test]
fn a_is_y_sub_a() {
    let mut env = Environment::new();
    let a = unique(&mut env);
    let y = variable_full(&mut env);
    let y_sub_a = unchecked_substitution_without_shortcuts(&mut env, y.0, &subs(vec![(y.1, a)]));
    assert_yes(a.get_equality_left(&mut env, &y_sub_a, LIMIT), vec![], vec![]);
    assert_yes(a.get_trimmed_equality(&mut env, &y_sub_a, LIMIT), vec![], vec![]);
}
