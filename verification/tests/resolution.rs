use scarlet::definitions::{
    BuiltinFunction, DBuiltinFunction, DPlaceholder, DPopulatedStruct, DResolvable, DUnique, DVariable, Definition,
    RFrom, RIdentifier, RNamedMember, RSubstitution, RVariable, Resolvable,
};
use scarlet::diagnostic::Position;
use scarlet::environment::Environment;
use scarlet::from::create_from_dex;
use scarlet::item::{ItemPtr, Scope};
use scarlet::resolvable::ResolveError;
use scarlet::resolve::{decision, equals, has_placeholders, is_bool, resolve, resolve_all, resolve_from};
use scarlet::variable::{VariableOrder, VariablePtr};

fn unique(env: &mut Environment) -> ItemPtr {
    let id = env.push_unique();
    env.push_item(Definition::Unique(DUnique::new(id)), Scope::Root)
}

fn variable(env: &mut Environment) -> (ItemPtr, VariablePtr) {
    let order = VariableOrder::new(0, 0, env.num_variables() as u32);
    let item = DVariable::new(env, vec![], vec![], order, Scope::Root);
    match env.definition(item) {
        Definition::Variable(d) => (item, *d.get_variable()),
        _ => panic!("a new variable item stands for a variable"),
    }
}

fn identifier(env: &mut Environment, name: &str, scope: Scope) -> ItemPtr {
    env.push_item(
        Definition::Resolvable(DResolvable::new(Resolvable::Identifier(RIdentifier(name.to_owned())))),
        scope,
    )
}

fn structure(env: &mut Environment, body: ItemPtr, label: &str, value: ItemPtr) -> ItemPtr {
    env.push_item(
        Definition::PopulatedStruct(DPopulatedStruct::new(body, label.to_owned(), value)),
        Scope::Root,
    )
}

/// Defines the language items a dex is built from; `x` is a variable.
fn define_dex_items(env: &mut Environment) -> (ItemPtr, VariablePtr) {
    let (x, x_var) = variable(env);
    env.define_language_item("x", x);
    for name in ["y", "when_equal", "when_not_equal", "and", "true", "false"] {
        let item = unique(env);
        env.define_language_item(name, item);
    }
    (x, x_var)
}

fn other_of(env: &Environment, item: ItemPtr) -> ItemPtr {
    match env.definition(item) {
        Definition::Other(d) => *d.other(),
        _ => panic!("expected an item that is another item"),
    }
}

#[test]
fn language_item_is_what_was_defined_last() {
    let mut env = Environment::new();
    let a = unique(&mut env);
    let b = unique(&mut env);
    assert_eq!(env.get_language_item("true"), None);
    env.define_language_item("true", a);
    env.define_language_item("false", b);
    assert_eq!(env.get_language_item("true"), Some(a));
    assert_eq!(env.get_language_item("false"), Some(b));
    env.define_language_item("true", b);
    assert_eq!(env.get_language_item("true"), Some(b));
    assert_eq!(env.get_language_item("false"), Some(b));
    assert_eq!(env.language_item_names(), vec!["true".to_owned(), "false".to_owned()]);
}

#[test]
fn builtin_names_round_trip() {
    let mut env = Environment::new();
    define_dex_items(&mut env);
    for name in ["decision", "body", "tail_label", "tail_value", "has_tail"] {
        let f = DBuiltinFunction::from_name(&env, name).expect("a builtin function");
        assert_eq!(f.get_name(), name);
    }
    assert!(DBuiltinFunction::from_name(&env, "not_a_builtin").is_none());
    let decision = DBuiltinFunction::from_name(&env, "decision").unwrap();
    assert_eq!(decision.get_function(), BuiltinFunction::Decision);
    assert_eq!(decision.args.len(), 4);
    assert_eq!(decision.args[0], env.get_language_item("x").unwrap());
    assert_eq!(decision.args[3], env.get_language_item("when_not_equal").unwrap());
}

#[test]
fn identifier_resolves_to_field_of_enclosing_structure() {
    let mut env = Environment::new();
    let body = unique(&mut env);
    let value = unique(&mut env);
    let s = structure(&mut env, body, "a", value);
    let ident = identifier(&mut env, "a", Scope::FieldAndRest(s));
    assert!(matches!(resolve(&mut env, ident, 0), Ok(true)));
    assert_eq!(other_of(&env, ident), value);
    // Resolving what is resolved already does nothing.
    assert!(matches!(resolve(&mut env, ident, 0), Ok(false)));
    assert_eq!(other_of(&env, ident), value);
}

#[test]
fn unknown_identifier_is_a_diagnostic() {
    let mut env = Environment::new();
    let ident = identifier(&mut env, "nowhere", Scope::Root);
    match resolve(&mut env, ident, 0) {
        Err(ResolveError::Diagnostic(d)) => {
            assert_eq!(d.lines, vec!["Cannot find what nowhere refers to".to_owned()]);
        }
        other => panic!("expected a diagnostic, got {:?}", other),
    }
    assert!(ident.is_unresolved(&env));
}

#[test]
fn named_member_of_unresolved_base_is_unresolved() {
    let mut env = Environment::new();
    let base = identifier(&mut env, "later", Scope::Root);
    let member = env.push_item(
        Definition::Resolvable(DResolvable::new(Resolvable::NamedMember(RNamedMember {
            base,
            member_name: "a".to_owned(),
            position: Position::placeholder(),
        }))),
        Scope::Root,
    );
    match resolve(&mut env, member, 0) {
        Err(ResolveError::Unresolved(e)) => assert_eq!(e.0, base),
        other => panic!("expected an unresolved error, got {:?}", other),
    }
}

#[test]
fn named_member_finds_field_in_body() {
    let mut env = Environment::new();
    let inner_body = unique(&mut env);
    let a = unique(&mut env);
    let b = unique(&mut env);
    let inner = structure(&mut env, inner_body, "a", a);
    let outer = structure(&mut env, inner, "b", b);
    let member = env.push_item(
        Definition::Resolvable(DResolvable::new(Resolvable::NamedMember(RNamedMember {
            base: outer,
            member_name: "a".to_owned(),
            position: Position::placeholder(),
        }))),
        Scope::Root,
    );
    assert!(matches!(resolve(&mut env, member, 0), Ok(true)));
    assert_eq!(other_of(&env, member), a);
}

#[test]
fn placeholder_cannot_be_resolved() {
    let mut env = Environment::new();
    let p = env.push_item(Definition::Placeholder(DPlaceholder { name: "p".to_owned() }), Scope::Root);
    assert!(has_placeholders(&env));
    assert!(matches!(resolve(&mut env, p, 0), Err(ResolveError::Placeholder)));
}

#[test]
fn variable_resolvable_creates_a_variable() {
    let mut env = Environment::new();
    let inv = unique(&mut env);
    let v = env.push_item(
        Definition::Resolvable(DResolvable::new(Resolvable::Variable(RVariable {
            invariants: vec![inv],
            dependencies: vec![],
            order: VariableOrder::new(1, 2, 3),
        }))),
        Scope::Root,
    );
    let variables_before = env.num_variables();
    assert!(matches!(resolve(&mut env, v, 0), Ok(true)));
    assert_eq!(env.num_variables(), variables_before + 1);
    let new_item = other_of(&env, v);
    match env.definition(new_item) {
        Definition::Variable(d) => {
            let var = env.get_variable(*d.get_variable());
            assert_eq!(var.invariants(), &[inv]);
            assert_eq!(var.order(), &VariableOrder::new(1, 2, 3));
        }
        _ => panic!("expected a variable"),
    }
}

#[test]
fn resolve_all_resolves_everything_reachable() {
    let mut env = Environment::new();
    let body = unique(&mut env);
    let value = unique(&mut env);
    let inner = structure(&mut env, body, "a", value);
    let ident = identifier(&mut env, "a", Scope::FieldAndRest(inner));
    let root = structure(&mut env, inner, "b", ident);
    assert!(resolve_all(&mut env, root).is_ok());
    assert_eq!(other_of(&env, ident), value);
}

#[test]
fn resolve_all_reports_unknown_names() {
    let mut env = Environment::new();
    let body = unique(&mut env);
    let ident = identifier(&mut env, "missing", Scope::Root);
    let root = structure(&mut env, body, "b", ident);
    match resolve_all(&mut env, root) {
        Err(problems) => {
            assert_eq!(problems.len(), 1);
            assert_eq!(problems[0].lines, vec!["Cannot find what missing refers to".to_owned()]);
        }
        Ok(()) => panic!("an unknown name cannot be resolved"),
    }
}

#[test]
fn dex_of_unique_is_a_decision() {
    let mut env = Environment::new();
    let (x, _) = define_dex_items(&mut env);
    let u = unique(&mut env);
    let dex = create_from_dex(&mut env, u, Position::placeholder());
    assert_eq!(env.get(u).from_dex, Some(dex));
    match env.definition(dex) {
        Definition::Resolvable(d) => match d.resolvable() {
            Resolvable::Substitution(s) => {
                assert_eq!(
                    s.anonymous_subs,
                    vec![
                        x,
                        u,
                        env.get_language_item("true").unwrap(),
                        env.get_language_item("false").unwrap()
                    ]
                );
                match env.definition(s.base) {
                    Definition::BuiltinFunction(f) => assert_eq!(f.get_function(), BuiltinFunction::Decision),
                    _ => panic!("expected the decision builtin"),
                }
            }
            _ => panic!("expected a substitution"),
        },
        _ => panic!("expected a definition still to be resolved"),
    }
    // Asking again gives the dex made before.
    assert_eq!(u.get_from_dex(&mut env), dex);
}

#[test]
fn dex_of_variable_substitutes_x() {
    let mut env = Environment::new();
    let (x, _) = define_dex_items(&mut env);
    let (v, v_var) = variable(&mut env);
    let dex = v.get_from_dex(&mut env);
    match env.definition(dex) {
        Definition::Substitution(s) => {
            assert_eq!(s.base, env.get_language_item("true").unwrap());
            assert_eq!(s.substitutions().iter_entries(), &[(v_var, x)]);
        }
        _ => panic!("expected a substitution"),
    }
}

#[test]
fn from_substitutes_left_for_x_in_dex() {
    let mut env = Environment::new();
    let (_, x_var) = define_dex_items(&mut env);
    let left = unique(&mut env);
    let right = unique(&mut env);
    let r = resolve_from(&mut env, &RFrom { left, right });
    let dex = env.get(right).from_dex.expect("a dex was made");
    match r {
        Ok(Definition::Substitution(s)) => {
            assert_eq!(s.base, dex);
            assert_eq!(s.substitutions().iter_entries(), &[(x_var, left)]);
        }
        other => panic!("expected a substitution, got {:?}", other),
    }
}

/// Defines the parameters of the decision builtin as variables, and `true`
/// and `false` as uniques.
fn define_decision_items(env: &mut Environment) -> Vec<VariablePtr> {
    let mut vars = Vec::new();
    for name in ["x", "y", "when_equal", "when_not_equal"] {
        let (item, var) = variable(env);
        env.define_language_item(name, item);
        vars.push(var);
    }
    for name in ["true", "false"] {
        let item = unique(env);
        env.define_language_item(name, item);
    }
    vars
}

#[test]
fn decision_gives_the_builtin_its_arguments() {
    let mut env = Environment::new();
    let vars = define_decision_items(&mut env);
    let a = unique(&mut env);
    let b = unique(&mut env);
    let c = unique(&mut env);
    let d = unique(&mut env);
    let dec = decision(&mut env, a, b, c, d).expect("the decision resolves");
    match env.definition(dec) {
        Definition::Substitution(s) => {
            match env.definition(*s.base()) {
                Definition::BuiltinFunction(f) => assert_eq!(f.get_function(), BuiltinFunction::Decision),
                _ => panic!("expected the decision builtin"),
            }
            assert_eq!(
                s.substitutions().iter_entries(),
                &[(vars[0], a), (vars[1], b), (vars[2], c), (vars[3], d)]
            );
        }
        _ => panic!("expected a substitution"),
    }
}

#[test]
fn equals_and_is_bool_resolve() {
    let mut env = Environment::new();
    define_decision_items(&mut env);
    let a = unique(&mut env);
    let b = unique(&mut env);
    let eq = equals(&mut env, a, b).expect("the decision resolves");
    assert!(!eq.is_unresolved(&env));
    let t = env.get_language_item("true").unwrap();
    let f = env.get_language_item("false").unwrap();
    match env.definition(eq) {
        Definition::Substitution(s) => {
            let values: Vec<ItemPtr> = s.substitutions().iter_entries().iter().map(|e| e.1).collect();
            assert_eq!(values, vec![a, b, t, f]);
        }
        _ => panic!("expected a substitution"),
    }
    let bool_test = is_bool(&mut env, a).expect("the decision resolves");
    assert!(!bool_test.is_unresolved(&env));
}

#[test]
fn decision_without_variable_parameters_has_too_many_arguments() {
    let mut env = Environment::new();
    for name in ["x", "y", "when_equal", "when_not_equal"] {
        let item = unique(&mut env);
        env.define_language_item(name, item);
    }
    let a = unique(&mut env);
    match decision(&mut env, a, a, a, a) {
        Err(problems) => {
            assert_eq!(problems.len(), 1);
            assert_eq!(problems[0].lines, vec!["This substitution has too many arguments:".to_owned()]);
        }
        Ok(_) => panic!("the builtin has no dependencies to give values to"),
    }
}

/// The base and arguments of an item that applies something, still to be resolved.
fn applied(env: &Environment, item: ItemPtr) -> (ItemPtr, Vec<ItemPtr>) {
    match env.definition(item) {
        Definition::Resolvable(d) => match d.resolvable() {
            Resolvable::Substitution(s) => (s.base, s.anonymous_subs.clone()),
            _ => panic!("expected a substitution"),
        },
        _ => panic!("expected a definition still to be resolved"),
    }
}

/// The two sides of an item that is one item from another.
fn from_parts(env: &Environment, item: ItemPtr) -> (ItemPtr, ItemPtr) {
    match env.definition(item) {
        Definition::Resolvable(d) => match d.resolvable() {
            Resolvable::From(f) => (f.left, f.right),
            _ => panic!("expected a from"),
        },
        _ => panic!("expected a definition still to be resolved"),
    }
}

fn builtin_of(env: &Environment, item: ItemPtr) -> BuiltinFunction {
    match env.definition(item) {
        Definition::BuiltinFunction(f) => f.get_function(),
        _ => panic!("expected a builtin function"),
    }
}

#[test]
fn dex_of_struct_checks_tail_value_and_body() {
    let mut env = Environment::new();
    let (x, _) = define_dex_items(&mut env);
    let and = env.get_language_item("and").unwrap();
    let value = unique(&mut env);
    let body = unique(&mut env);
    let s = structure(&mut env, body, "label", value);
    let dex = create_from_dex(&mut env, s, Position::placeholder());
    assert_eq!(env.get(s).from_dex, Some(dex));

    let (base, args) = applied(&env, dex);
    assert_eq!(base, and);
    assert_eq!(args.len(), 2);
    let (first_two, rest) = (args[0], args[1]);

    let (base, args) = applied(&env, first_two);
    assert_eq!(base, and);
    let (has_tail, value_from) = (args[0], args[1]);
    let (f, f_args) = applied(&env, has_tail);
    assert_eq!(builtin_of(&env, f), BuiltinFunction::HasTail);
    assert_eq!(f_args, vec![x]);
    let (x_value, right) = from_parts(&env, value_from);
    assert_eq!(right, value);
    let (f, f_args) = applied(&env, x_value);
    assert_eq!(builtin_of(&env, f), BuiltinFunction::TailValue);
    assert_eq!(f_args, vec![x]);

    let (x_body, right) = from_parts(&env, rest);
    assert_eq!(right, body);
    let (f, f_args) = applied(&env, x_body);
    assert_eq!(builtin_of(&env, f), BuiltinFunction::Body);
    assert_eq!(f_args, vec![x]);
}

#[test]
fn dex_of_variable_joins_its_invariants_with_and() {
    let mut env = Environment::new();
    let (x, _) = define_dex_items(&mut env);
    let and = env.get_language_item("and").unwrap();
    let a = unique(&mut env);
    let b = unique(&mut env);
    let c = unique(&mut env);
    let order = VariableOrder::new(0, 0, env.num_variables() as u32);
    let v = DVariable::new(&mut env, vec![a, b, c], vec![], order, Scope::Root);
    let v_var = match env.definition(v) {
        Definition::Variable(d) => *d.get_variable(),
        _ => panic!("a new variable item stands for a variable"),
    };
    let dex = v.get_from_dex(&mut env);
    match env.definition(dex) {
        Definition::Substitution(s) => {
            assert_eq!(s.substitutions().iter_entries(), &[(v_var, x)]);
            let (base, args) = applied(&env, s.base);
            assert_eq!(base, and);
            assert_eq!(args[1], c);
            let (base, args) = applied(&env, args[0]);
            assert_eq!(base, and);
            assert_eq!(args, vec![a, b]);
        }
        _ => panic!("expected a substitution"),
    }
}

fn variable_with(env: &mut Environment, dependencies: Vec<ItemPtr>, major: u8) -> (ItemPtr, VariablePtr) {
    let order = VariableOrder::new(major, 0, env.num_variables() as u32);
    let item = DVariable::new(env, vec![], dependencies, order, Scope::Root);
    match env.definition(item) {
        Definition::Variable(d) => (item, *d.get_variable()),
        _ => panic!("a new variable item stands for a variable"),
    }
}

fn substitution(env: &mut Environment, base: ItemPtr, anonymous_subs: Vec<ItemPtr>) -> ItemPtr {
    env.push_item(
        Definition::Resolvable(DResolvable::new(Resolvable::Substitution(RSubstitution {
            base,
            position: Position::placeholder(),
            named_subs: vec![],
            named_proofs: vec![],
            anonymous_subs,
        }))),
        Scope::Root,
    )
}

#[test]
fn substituted_value_takes_the_dependencies_of_its_variable() {
    let mut env = Environment::new();
    let (a, _) = variable_with(&mut env, vec![], 1);
    let (x, x_var) = variable_with(&mut env, vec![a], 0);
    let (y, _) = variable_with(&mut env, vec![], 2);
    // `x[y]`: `y` is given to `x`, and `y`, which depends on itself, is made
    // to depend on `a` instead, as `x` does; what is left is `a`.
    let item = substitution(&mut env, x, vec![y]);
    assert!(matches!(resolve(&mut env, item, 0), Ok(true)));
    match env.definition(item) {
        Definition::Substitution(s) => {
            assert_eq!(s.base, x);
            assert_eq!(s.substitutions().iter_entries(), &[(x_var, a)]);
        }
        _ => panic!("expected a substitution"),
    }
}

#[test]
fn substituted_variable_with_a_dependency_that_is_no_variable_is_refused() {
    let mut env = Environment::new();
    let u = unique(&mut env);
    let (x, _) = variable_with(&mut env, vec![u], 0);
    let (y, _) = variable_with(&mut env, vec![], 2);
    let item = substitution(&mut env, x, vec![y]);
    assert!(matches!(resolve(&mut env, item, 0), Err(ResolveError::Diagnostic(_))));
    assert!(matches!(env.definition(item), Definition::Resolvable(_)));
}

#[test]
fn resolve_all_reports_a_missing_member_once_and_leaves_it_unresolved() {
    let mut env = Environment::new();
    let u0 = unique(&mut env);
    let u1 = unique(&mut env);
    let s = structure(&mut env, u0, "a", u1);
    let root = env.push_item(
        Definition::Resolvable(DResolvable::new(Resolvable::NamedMember(RNamedMember {
            base: s,
            member_name: "zz".to_owned(),
            position: Position::placeholder(),
        }))),
        Scope::Root,
    );
    match resolve_all(&mut env, root) {
        Err(problems) => {
            assert_eq!(problems.len(), 1);
            assert!(problems[0].lines[0].starts_with("Failed to find a member named zz"));
        }
        Ok(()) => panic!("there is no member named zz"),
    }
    assert!(matches!(env.definition(root), Definition::Resolvable(_)));
}

#[test]
fn resolve_all_reports_each_unresolved_item_once() {
    let mut env = Environment::new();
    let a = identifier(&mut env, "missing_a", Scope::Root);
    let b = identifier(&mut env, "missing_b", Scope::Root);
    let inner = structure(&mut env, a, "x", b);
    let root = structure(&mut env, inner, "y", a);
    match resolve_all(&mut env, root) {
        Err(problems) => {
            assert_eq!(problems.len(), 2);
            let mut lines: Vec<String> = problems.iter().map(|p| p.lines[0].clone()).collect();
            lines.sort();
            assert_eq!(
                lines,
                vec!["Cannot find what missing_a refers to".to_owned(), "Cannot find what missing_b refers to".to_owned()]
            );
        }
        Ok(()) => panic!("unknown names cannot be resolved"),
    }
}

#[test]
fn dex_of_struct_needs_only_x_and_and() {
    let mut env = Environment::new();
    let (x, _) = variable(&mut env);
    env.define_language_item("x", x);
    let and = unique(&mut env);
    env.define_language_item("and", and);
    let value = unique(&mut env);
    let body = unique(&mut env);
    let s = structure(&mut env, body, "label", value);
    let dex = create_from_dex(&mut env, s, Position::placeholder());
    let (base, args) = applied(&env, dex);
    assert_eq!(base, and);
    assert_eq!(args.len(), 2);
}

#[test]
fn dex_of_variable_needs_only_x_and_true() {
    let mut env = Environment::new();
    let (x, _) = variable(&mut env);
    env.define_language_item("x", x);
    let truee = unique(&mut env);
    env.define_language_item("true", truee);
    let (v, v_var) = variable(&mut env);
    let dex = create_from_dex(&mut env, v, Position::placeholder());
    match env.definition(dex) {
        Definition::Substitution(s) => {
            assert_eq!(s.base, truee);
            assert_eq!(s.substitutions().iter_entries(), &[(v_var, x)]);
        }
        _ => panic!("expected a substitution"),
    }
}

#[test]
fn deep_contents_come_after_what_contains_them() {
    let mut env = Environment::new();
    let a = unique(&mut env);
    let b = unique(&mut env);
    let inner = structure(&mut env, a, "x", b);
    let root = structure(&mut env, inner, "y", a);
    let order = root.for_self_and_deep_contents(&env);
    assert_eq!(order.len(), 4);
    assert_eq!(order[0], root);
    let pos = |p: ItemPtr| order.iter().position(|q| *q == p).unwrap();
    assert!(pos(inner) > pos(root));
    assert!(pos(b) > pos(inner));
    assert!(pos(a) > pos(root));
}
