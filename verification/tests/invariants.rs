use scarlet::definitions::{DAxiom, DDecision, DPopulatedStruct, DResolvable, DUnique, DVariable, Definition, RIdentifier, Resolvable};
use scarlet::environment::Environment;
use scarlet::item::{ItemPtr, Scope};
use scarlet::justify::{JustifyAllError, JustifyError, LookupInvariantError};
use scarlet::variable::VariableOrder;

fn unique(env: &mut Environment) -> ItemPtr {
    let id = env.push_unique();
    env.push_item(Definition::Unique(DUnique::new(id)), Scope::Root)
}

fn variable_with_invariants(env: &mut Environment, invariants: Vec<ItemPtr>) -> ItemPtr {
    let order = VariableOrder::new(0, 0, env.num_variables() as u32);
    DVariable::new(env, invariants, vec![], order, Scope::Root)
}

#[test]
fn variable_invariants_are_its_statements() {
    let mut env = Environment::new();
    let inv = unique(&mut env);
    let x = variable_with_invariants(&mut env, vec![inv]);
    let s = x.get_invariants(&mut env).expect("a variable is resolved");
    let set = env.get_set(s);
    assert_eq!(set.context, x);
    assert_eq!(set.statements, vec![inv]);
    assert_eq!(set.dependencies, vec![x]);
    assert!(set.justification_requirements.is_empty());
    assert!(set.connected_to_root);
    // The set is recorded: asking again gives the same one.
    assert_eq!(x.get_invariants(&mut env).unwrap(), s);
    assert_eq!(env.get(x).invariants, Some(s));
}

#[test]
fn decision_keeps_the_statements_of_its_equal_outcome() {
    let mut env = Environment::new();
    let inv_a = unique(&mut env);
    let inv_b = unique(&mut env);
    let when_equal = variable_with_invariants(&mut env, vec![inv_a, inv_b]);
    let when_not_equal = unique(&mut env);
    let left = unique(&mut env);
    let right = unique(&mut env);
    let d = env.push_item(
        Definition::Decision(DDecision::new(left, right, when_equal, when_not_equal)),
        Scope::Root,
    );
    let s = d.get_invariants(&mut env).expect("everything is resolved");
    let w = env.get(when_equal).invariants.expect("the outcome's invariants are recorded");
    let set = env.get_set(s);
    assert_eq!(set.context, d);
    assert_eq!(set.statements, vec![inv_a, inv_b]);
    assert!(!set.connected_to_root);
    assert!(!set.required);
    let justification = set.set_justification.clone().expect("each statement is justified");
    assert_eq!(justification.len(), 2);
    for ways in justification {
        assert_eq!(ways, vec![vec![w, w]]);
    }
}

#[test]
fn unique_has_no_invariants() {
    let mut env = Environment::new();
    let u = unique(&mut env);
    let s = u.get_invariants(&mut env).unwrap();
    let set = env.get_set(s);
    assert_eq!(set.context, u);
    assert!(set.statements.is_empty());
    assert!(!set.connected_to_root);
    assert!(!set.required);
}

#[test]
fn stated_item_states_its_statement() {
    let mut env = Environment::new();
    let statement = unique(&mut env);
    let relied = unique(&mut env);
    env.define_language_item("t_statement", statement);
    let statement_of_t = DAxiom::from_name(&env, "t", vec![relied]).expect("the statement is a language item");
    assert!(DAxiom::from_name(&env, "u", vec![]).is_none());
    let a = env.push_item(Definition::Axiom(statement_of_t), Scope::Root);
    let s = a.get_invariants(&mut env).unwrap();
    let set = env.get_set(s);
    assert_eq!(set.statements, vec![statement]);
    assert_eq!(set.dependencies, vec![relied]);
    assert!(set.connected_to_root);
}

#[test]
fn unresolved_item_has_no_invariants_yet() {
    let mut env = Environment::new();
    let p = env.push_item(
        Definition::Resolvable(DResolvable::new(Resolvable::Identifier(RIdentifier("a".to_owned())))),
        Scope::Root,
    );
    match p.get_invariants(&mut env) {
        Err(e) => assert_eq!(e.0, p),
        Ok(_) => panic!("an unresolved item has no invariants"),
    }
}

#[test]
fn statement_of_field_is_justified_in_structure() {
    let mut env = Environment::new();
    let inv = unique(&mut env);
    let x = variable_with_invariants(&mut env, vec![inv]);
    let body = unique(&mut env);
    let s = env.push_item(
        Definition::PopulatedStruct(DPopulatedStruct::new(body, "x".to_owned(), x)),
        Scope::Root,
    );
    let id = env.push_unique();
    let context = env.push_item(Definition::Unique(DUnique::new(id)), Scope::FieldAndRest(s));
    match env.justify(s, context, inv, 8) {
        Ok(ways) => {
            assert!(!ways.is_empty());
            let x_set = env.get(x).invariants.unwrap();
            assert_eq!(ways[0], vec![x_set]);
        }
        Err(_) => panic!("the invariant of the field justifies the statement"),
    }
    let other = unique(&mut env);
    assert!(matches!(
        env.justify(s, context, other, 8),
        Err(JustifyError::Lookup(LookupInvariantError::MightNotExist))
    ));
}

#[test]
fn justify_all_succeeds_with_nothing_required() {
    let mut env = Environment::new();
    let inv = unique(&mut env);
    let x = variable_with_invariants(&mut env, vec![inv]);
    let body = unique(&mut env);
    let s = env.push_item(
        Definition::PopulatedStruct(DPopulatedStruct::new(body, "x".to_owned(), x)),
        Scope::Root,
    );
    assert!(env.justify_all(s).is_ok());
}

#[test]
fn justify_all_needs_resolved_items() {
    let mut env = Environment::new();
    let p = env.push_item(
        Definition::Resolvable(DResolvable::new(Resolvable::Identifier(RIdentifier("a".to_owned())))),
        Scope::Root,
    );
    assert!(matches!(env.justify_all(p), Err(JustifyAllError::Unresolved(_))));
}
