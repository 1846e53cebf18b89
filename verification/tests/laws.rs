use scarlet::definitions::{DOther, DUnique, DVariable, Definition, RSubstitution, RVariable, Resolvable};
use scarlet::diagnostic::Position;
use scarlet::environment::Environment;
use scarlet::equal::Equal;
use scarlet::item::{ItemPtr, Scope};
use scarlet::query::MaybeTemporary;
use scarlet::substitutions::Substitutions;
use scarlet::variable::{VariableOrder, VariablePtr};

fn unique(env: &mut Environment) -> ItemPtr {
    let id = env.push_unique();
    env.push_item(Definition::Unique(DUnique::new(id)), Scope::Root)
}

fn variable(env: &mut Environment, dependencies: Vec<ItemPtr>) -> (ItemPtr, VariablePtr) {
    let order = VariableOrder::new(0, 0, env.num_variables() as u32);
    let item = DVariable::new(env, vec![], dependencies, order, Scope::Root);
    match env.definition(item) {
        Definition::Variable(d) => (item, *d.get_variable()),
        _ => panic!("a new variable item stands for a variable"),
    }
}

fn yes_with(entries: Vec<(VariablePtr, ItemPtr)>) -> Equal {
    Equal::yes1(Substitutions::from_entries(entries), Substitutions::new())
}

fn left_entries(e: &Equal) -> Vec<(VariablePtr, ItemPtr)> {
    match e {
        Equal::Yes(l, _) => l.iter_entries().to_vec(),
        other => panic!("expected Yes, got {:?}", other),
    }
}

#[test]
fn and_with_a_no_is_unknown() {
    let env = Environment::new();
    let r = Equal::and(&env, vec![Equal::yes(), Equal::No]);
    assert!(matches!(r, Equal::Unknown));
    let r = Equal::and(&env, vec![Equal::Unknown, Equal::yes()]);
    assert!(matches!(r, Equal::Unknown));
}

#[test]
fn and_of_trivial_yeses_is_trivial_yes() {
    let env = Environment::new();
    assert!(Equal::and(&env, vec![]).is_trivial_yes());
    assert!(Equal::and(&env, vec![Equal::yes(), Equal::yes()]).is_trivial_yes());
}

#[test]
fn and_joins_agreeing_substitutions() {
    let mut env = Environment::new();
    let a = unique(&mut env);
    let b = unique(&mut env);
    let (_, x) = variable(&mut env, vec![]);
    let (_, y) = variable(&mut env, vec![]);
    let r = Equal::and(&env, vec![yes_with(vec![(x, a)]), yes_with(vec![(y, b)])]);
    assert_eq!(left_entries(&r), vec![(x, a), (y, b)]);
    let r = Equal::and(&env, vec![yes_with(vec![(x, a)]), yes_with(vec![(x, a)])]);
    assert_eq!(left_entries(&r), vec![(x, a)]);
    // The same variable given two different values: unknown.
    let r = Equal::and(&env, vec![yes_with(vec![(x, a)]), yes_with(vec![(x, b)])]);
    assert!(matches!(r, Equal::Unknown));
}

#[test]
fn or_takes_first_yes() {
    let mut env = Environment::new();
    let a = unique(&mut env);
    let (_, x) = variable(&mut env, vec![]);
    let r = Equal::or(vec![Equal::No, yes_with(vec![(x, a)]), Equal::yes()]);
    assert_eq!(left_entries(&r), vec![(x, a)]);
    assert!(matches!(Equal::or(vec![]), Equal::No));
    assert!(matches!(Equal::or(vec![Equal::No, Equal::No]), Equal::No));
    assert!(matches!(Equal::or(vec![Equal::No, Equal::Unknown]), Equal::Unknown));
}

#[test]
fn without_subs_forgets_substitutions() {
    let mut env = Environment::new();
    let a = unique(&mut env);
    let (_, x) = variable(&mut env, vec![]);
    assert!(yes_with(vec![(x, a)]).without_subs().is_trivial_yes());
    assert!(matches!(Equal::No.without_subs(), Equal::No));
    assert!(!Equal::Unknown.without_subs().is_yes());
}

#[test]
fn distinct_uniques_are_not_equal() {
    let mut env = Environment::new();
    let a = unique(&mut env);
    let b = unique(&mut env);
    assert!(matches!(a.get_trimmed_equality(&mut env, &b, 16), Ok(Equal::No)));
    assert!(matches!(b.get_equality(&env, &a, 16), Ok(Equal::No)));
}

#[test]
fn dereference_follows_other_items_and_stops_at_cycles() {
    let mut env = Environment::new();
    let target = unique(&mut env);
    let first = env.push_item(Definition::Other(DOther::new(target)), Scope::Root);
    let second = env.push_item(Definition::Other(DOther::new(first)), Scope::Root);
    assert_eq!(second.dereference(&env), target);
    assert_eq!(second.dereference_once(&env), Some(first));
    assert_eq!(target.dereference_once(&env), None);
    // A loop of items that are each other: dereferencing comes back round
    // and stops.
    let loop_a = env.push_item(Definition::Other(DOther::new(target)), Scope::Root);
    let loop_b = env.push_item(Definition::Other(DOther::new(loop_a)), Scope::Root);
    env.redefine(loop_a, Definition::Other(DOther::new(loop_b)));
    assert_eq!(loop_a.dereference(&env), loop_a);
}

#[test]
fn dereference_is_idempotent() {
    let mut env = Environment::new();
    let target = unique(&mut env);
    let first = env.push_item(Definition::Other(DOther::new(target)), Scope::Root);
    let second = env.push_item(Definition::Other(DOther::new(first)), Scope::Root);
    let once = second.dereference(&env);
    assert_eq!(once.dereference(&env), once);
    let loop_a = env.push_item(Definition::Other(DOther::new(target)), Scope::Root);
    let loop_b = env.push_item(Definition::Other(DOther::new(loop_a)), Scope::Root);
    env.redefine(loop_a, Definition::Other(DOther::new(loop_b)));
    let around = loop_b.dereference(&env);
    assert_eq!(around.dereference(&env), around);
}

#[test]
fn variable_depends_on_itself_after_its_dependencies() {
    let mut env = Environment::new();
    let (x_item, x) = variable(&mut env, vec![]);
    let (f_item, f) = variable(&mut env, vec![x_item]);
    let deps = f_item.get_dependencies(&env);
    let vars: Vec<VariablePtr> = deps.as_variables().iter().map(|d| d.var).collect();
    assert_eq!(vars, vec![x, f]);
    assert!(deps.contains_var(f));
    let u = unique(&mut env);
    assert_eq!(u.get_dependencies(&env).num_variables(), 0);
}

#[test]
fn invariants_of_a_variable_refer_to_it_as_self() {
    let mut env = Environment::new();
    let (x_item, _) = variable(&mut env, vec![]);
    let id = env.push_unique();
    let inside = env.push_item(Definition::Unique(DUnique::new(id)), Scope::VariableInvariants(x_item));
    assert_eq!(inside.lookup_ident(&env, &"SELF".to_owned()), Some(x_item));
    assert_eq!(inside.lookup_ident(&env, &"other".to_owned()), None);
}

#[test]
fn maybe_temporary_keeps_its_kind() {
    let f: MaybeTemporary<u32> = MaybeTemporary::new_final(3);
    let t: MaybeTemporary<u32> = MaybeTemporary::new_temporary(4);
    assert!(f.is_final());
    assert!(t.is_temporary());
    let both = MaybeTemporary::and2(f, t);
    assert!(both.is_temporary());
    assert_eq!(both.into_temporary(), Some((3, 4)));
    let g: MaybeTemporary<u32> = MaybeTemporary::new_final(5);
    assert_eq!(g.map(|v| v + 1).into_final(), Some(6));
}

#[test]
fn substitutions_to_resolve_compare_named_values_in_any_order() {
    let mut env = Environment::new();
    let base = unique(&mut env);
    let a = unique(&mut env);
    let b = unique(&mut env);
    let p = Position::placeholder();
    let first = RSubstitution {
        base,
        position: p,
        named_subs: vec![(p, "x".to_owned(), a), (p, "y".to_owned(), b)],
        named_proofs: vec![],
        anonymous_subs: vec![a],
    };
    let swapped = RSubstitution {
        base,
        position: p,
        named_subs: vec![(p, "y".to_owned(), b), (p, "x".to_owned(), a)],
        named_proofs: vec![],
        anonymous_subs: vec![a],
    };
    let other_value = RSubstitution {
        base,
        position: p,
        named_subs: vec![(p, "x".to_owned(), b), (p, "y".to_owned(), b)],
        named_proofs: vec![],
        anonymous_subs: vec![a],
    };
    assert!(first == swapped);
    assert!(first != other_value);
    let v1 = RVariable { invariants: vec![a], dependencies: vec![], order: VariableOrder::new(0, 0, 0) };
    let v2 = RVariable { invariants: vec![a], dependencies: vec![], order: VariableOrder::new(0, 0, 1) };
    assert!(v1 != v2);
    assert!(Resolvable::Substitution(first) != Resolvable::Variable(v1));
}
