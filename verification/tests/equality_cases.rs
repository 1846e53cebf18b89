use scarlet::definitions::{DVariable, Definition};
use scarlet::environment::Environment;
use scarlet::equal::Equal;
use scarlet::item::{ItemPtr, Scope};
use scarlet::resolvable::UnresolvedItemError;
use scarlet::substitutions::Substitutions;
use scarlet::util::unchecked_substitution;
use scarlet::variable::{VariableOrder, VariablePtr};

const LIMIT: usize = 32;

fn variable_full_with_deps(env: &mut Environment, deps: Vec<ItemPtr>) -> (ItemPtr, VariablePtr) {
    let order = VariableOrder::new(0, 0, env.num_variables() as u32);
    let item = DVariable::new(env, vec![], deps, order, Scope::Root);
    match env.definition(item) {
        Definition::Variable(d) => (item, *d.get_variable()),
        _ => panic!("a new variable item stands for a variable"),
    }
}

fn variable_full(env: &mut Environment) -> (ItemPtr, VariablePtr) {
    variable_full_with_deps(env, vec![])
}

fn subs(entries: Vec<(VariablePtr, ItemPtr)>) -> Substitutions {
    Substitutions::from_entries(entries)
}

fn left(r: Result<Equal, UnresolvedItemError>) -> Vec<(VariablePtr, ItemPtr)> {
    match r {
        Ok(Equal::Yes(l, _)) => l.iter_entries().to_vec(),
        other => panic!("expected Yes, got {:?}", other),
    }
}

fn assert_substitution_of(env: &Environment, item: ItemPtr, base: ItemPtr, expected: Vec<(VariablePtr, ItemPtr)>) {
    match env.definition(item) {
        Definition::Substitution(s) => {
            assert_eq!(*s.base(), base);
            assert_eq!(s.substitutions().iter_entries().to_vec(), expected);
        }
        _ => panic!("expected a substitution"),
    }
}

#[test]
fn fx_is_gy() {
    let mut env = Environment::new();
    let x = variable_full(&mut env);
    let y = variable_full(&mut env);
    let f = variable_full_with_deps(&mut env, vec![x.0]);
    let g = variable_full_with_deps(&mut env, vec![y.0]);
    let l = left(f.0.get_trimmed_equality(&mut env, &g.0, LIMIT));
    assert_eq!(l.len(), 2);
    assert_eq!(l[0], (x.1, y.0));
    assert_eq!(l[1].0, f.1);
    assert_substitution_of(&env, l[1].1, g.0, vec![(y.1, x.0)]);
    assert!(matches!(g.0.get_trimmed_equality(&mut env, &f.0, LIMIT), Ok(Equal::Yes(..))));
}

#[test]
fn fx_sub_nothing_is_gy_sub_nothing() {
    let mut env = Environment::new();
    let x = variable_full(&mut env);
    let y = variable_full(&mut env);
    let f = variable_full_with_deps(&mut env, vec![x.0]);
    let f_sub = unchecked_substitution(&mut env, f.0, &subs(vec![]));
    let g = variable_full_with_deps(&mut env, vec![y.0]);
    let g_sub = unchecked_substitution(&mut env, g.0, &subs(vec![]));
    assert!(matches!(g_sub.get_trimmed_equality(&mut env, &f_sub, LIMIT), Ok(Equal::Yes(..))));
    let l = left(f_sub.get_trimmed_equality(&mut env, &g_sub, LIMIT));
    assert_eq!(l.len(), 2);
    assert_eq!(l[0], (x.1, y.0));
    assert_eq!(l[1].0, f.1);
    assert_substitution_of(&env, l[1].1, g.0, vec![(y.1, x.0)]);
}
