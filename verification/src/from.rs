use vstd::prelude::*;

use crate::builtins::params_defined;
use crate::definitions::{
    BuiltinFunction, DResolvable, DSubstitution, Definition, RFrom, RSubstitution, Resolvable,
};
use crate::diagnostic::Position;
use crate::ecc::no_placeholders;
use crate::environment::Environment;
use crate::item::{Item, ItemPtr, Scope};
use crate::substitutions::Substitutions;
use crate::util::appended;

verus! {

/// The language items that the dex of `from` is built from are defined: `x`
/// always; `and` for a structure; `true`, and `and` where there are two
/// invariants or more, for a variable; for anything else what the decision
/// builtin needs (`y`, `when_equal`, `when_not_equal`), `true` and `false`.
pub open spec fn dex_language_items_defined(env: &Environment, from: ItemPtr) -> bool {
    &&& env.spec_get_language_item("x"@) is Some
    &&& match env.def(from) {
        Definition::PopulatedStruct(_) => env.spec_get_language_item("and"@) is Some,
        Definition::Variable(d) => {
            &&& env.spec_get_language_item("true"@) is Some
            &&& env.var(d.0).spec_invariants().len() > 1 ==> env.spec_get_language_item("and"@) is Some
        },
        _ => {
            &&& env.spec_get_language_item("y"@) is Some
            &&& env.spec_get_language_item("when_equal"@) is Some
            &&& env.spec_get_language_item("when_not_equal"@) is Some
            &&& env.spec_get_language_item("true"@) is Some
            &&& env.spec_get_language_item("false"@) is Some
        },
    }
}

/// Whether the language items that the dex of `from` is built from are
/// defined.
pub fn check_dex_language_items(env: &Environment, from: ItemPtr) -> (r: bool)
    requires
        env.wf(),
        env.valid_item(from),
    ensures
        r == dex_language_items_defined(env, from),
{
    if env.get_language_item("x").is_none() {
        return false;
    }
    match env.definition(from) {
        Definition::PopulatedStruct(_) => env.get_language_item("and").is_some(),
        Definition::Variable(d) => {
            proof {
                crate::ecc::lemma_def_parts_valid(env, from);
            }
            env.get_language_item("true").is_some() && (env.get_variable(d.0).invariants().len() <= 1
                || env.get_language_item("and").is_some())
        },
        _ => env.get_language_item("y").is_some() && env.get_language_item("when_equal").is_some()
            && env.get_language_item("when_not_equal").is_some() && env.get_language_item("true").is_some()
            && env.get_language_item("false").is_some(),
    }
}

/// A dex can be made for `from`: it is not a variable with dependencies.
pub open spec fn dex_supported(env: &Environment, from: ItemPtr) -> bool {
    env.def(from) matches Definition::Variable(d) ==> env.var(d.0).spec_dependencies().len() == 0
}

/// `new` is `old` with items and invariant sets added, and with the dex of
/// `from` recorded; nothing else changed.
pub open spec fn appended_but_dex(old: &Environment, new: &Environment, from: ItemPtr) -> bool {
    &&& new.spec_items().len() >= old.spec_items().len()
    &&& forall|i: int|
        0 <= i < old.spec_items().len() && i != from.index() ==> #[trigger] new.spec_items()[i] == old.spec_items()[i]
    &&& new.item(from) == (Item { from_dex: new.item(from).from_dex, ..old.item(from) })
    &&& new.spec_sets().len() >= old.spec_sets().len()
    &&& forall|i: int| 0 <= i < old.spec_sets().len() ==> #[trigger] new.spec_sets()[i] == old.spec_sets()[i]
    &&& new.spec_variables() == old.spec_variables()
    &&& new.spec_language_items() == old.spec_language_items()
}

/// `p` is `and` applied to `a` and `b`, still to be resolved.
pub open spec fn is_and_of(env: &Environment, p: ItemPtr, a: ItemPtr, b: ItemPtr) -> bool {
    env.def(p) matches Definition::Resolvable(d) && d.0 matches Resolvable::Substitution(s) && Some(s.base)
        == env.spec_get_language_item("and"@) && s.anonymous_subs@ == seq![a, b] && s.named_subs@.len() == 0
        && s.named_proofs@.len() == 0
}

/// `p` is the builtin function `f` applied to `args`, still to be resolved.
pub open spec fn is_call_of(env: &Environment, p: ItemPtr, f: BuiltinFunction, args: Seq<ItemPtr>) -> bool {
    env.def(p) matches Definition::Resolvable(d) && d.0 matches Resolvable::Substitution(s) && env.def(s.base) matches Definition::BuiltinFunction(b)
        && b.func == f && s.anonymous_subs@ == args
}

/// `p` is `left` from `right`, still to be resolved.
pub open spec fn is_from_of(env: &Environment, p: ItemPtr, left: ItemPtr, right: ItemPtr) -> bool {
    env.def(p) matches Definition::Resolvable(d) && d.0 == Resolvable::From(RFrom { left, right })
}

/// `dex` is the dex of a structure with value `value` and body `body`:
/// `has_tail(x)`, `tail_value(x)` from `value` and `body(x)` from `body`,
/// joined by `and`.
pub open spec fn is_struct_dex(env: &Environment, dex: ItemPtr, value: ItemPtr, body: ItemPtr, x: ItemPtr) -> bool {
    exists|first_two: ItemPtr, rest: ItemPtr, has_tail: ItemPtr, value_from: ItemPtr, x_value: ItemPtr, x_body: ItemPtr|
        {
            &&& is_and_of(env, dex, first_two, rest)
            &&& is_and_of(env, first_two, has_tail, value_from)
            &&& is_call_of(env, has_tail, BuiltinFunction::HasTail, seq![x])
            &&& is_from_of(env, value_from, x_value, value)
            &&& is_call_of(env, x_value, BuiltinFunction::TailValue, seq![x])
            &&& is_from_of(env, rest, x_body, body)
            &&& is_call_of(env, x_body, BuiltinFunction::Body, seq![x])
        }
}

/// `statement` says all of `invariants` hold: `true` for none, the one
/// for one, else `and` of what says all but the last and the last.
pub open spec fn is_all_of(env: &Environment, statement: ItemPtr, invariants: Seq<ItemPtr>) -> bool
    decreases invariants.len(),
{
    if invariants.len() == 0 {
        Some(statement) == env.spec_get_language_item("true"@)
    } else if invariants.len() == 1 {
        statement == invariants[0]
    } else {
        exists|prev: ItemPtr| #[trigger] is_and_of(env, statement, prev, invariants.last()) && is_all_of(
            env,
            prev,
            invariants.drop_last(),
        )
    }
}

/// Every item of `a` has the same definition in `b`, and the language
/// items are the same.
pub open spec fn defs_kept(a: &Environment, b: &Environment) -> bool {
    &&& b.spec_items().len() >= a.spec_items().len()
    &&& forall|i: int| 0 <= i < a.spec_items().len() ==> (#[trigger] b.spec_items()[i]).definition == a.spec_items()[i].definition
    &&& b.spec_language_items() == a.spec_language_items()
}

proof fn lemma_call_kept(a: &Environment, b: &Environment, p: ItemPtr, f: BuiltinFunction, args: Seq<ItemPtr>)
    requires
        a.wf(),
        a.valid_item(p),
        defs_kept(a, b),
        is_call_of(a, p, f, args),
    ensures
        is_call_of(b, p, f, args),
{
    assert(b.spec_items()[p.index() as int].definition == a.spec_items()[p.index() as int].definition);
    assert(a.item_valid(a.spec_items()[p.index() as int]));
    let s = a.def(p)->Resolvable_0.0->Substitution_0;
    assert(crate::item::content_items(a.def(p))[0] == s.base);
    assert(b.spec_items()[s.base.index() as int].definition == a.spec_items()[s.base.index() as int].definition);
}

proof fn lemma_and_kept(a: &Environment, b: &Environment, p: ItemPtr, x: ItemPtr, y: ItemPtr)
    requires
        a.valid_item(p),
        defs_kept(a, b),
        is_and_of(a, p, x, y),
    ensures
        is_and_of(b, p, x, y),
{
    assert(b.spec_items()[p.index() as int].definition == a.spec_items()[p.index() as int].definition);
}

proof fn lemma_from_kept(a: &Environment, b: &Environment, p: ItemPtr, x: ItemPtr, y: ItemPtr)
    requires
        a.valid_item(p),
        defs_kept(a, b),
        is_from_of(a, p, x, y),
    ensures
        is_from_of(b, p, x, y),
{
    assert(b.spec_items()[p.index() as int].definition == a.spec_items()[p.index() as int].definition);
}

proof fn lemma_all_of_kept(a: &Environment, b: &Environment, statement: ItemPtr, invariants: Seq<ItemPtr>)
    requires
        a.wf(),
        defs_kept(a, b),
        is_all_of(a, statement, invariants),
        invariants.len() > 1 ==> a.valid_item(statement),
    ensures
        is_all_of(b, statement, invariants),
    decreases invariants.len(),
{
    if invariants.len() > 1 {
        let prev = choose|prev: ItemPtr| #[trigger] is_and_of(a, statement, prev, invariants.last()) && is_all_of(
            a,
            prev,
            invariants.drop_last(),
        );
        lemma_and_kept(a, b, statement, prev, invariants.last());
        assert(a.item_valid(a.spec_items()[statement.index() as int]));
        assert(crate::item::content_items(a.def(statement))[1] == prev);
        lemma_all_of_kept(a, b, prev, invariants.drop_last());
        assert(is_and_of(b, statement, prev, invariants.last()) && is_all_of(b, prev, invariants.drop_last()));
    }
}

proof fn lemma_appended_defs_kept(a: &Environment, b: &Environment)
    requires
        appended(a, b),
    ensures
        defs_kept(a, b),
{
}

proof fn lemma_params_defined(env: &Environment)
    requires
        env.spec_get_language_item("x"@) is Some,
    ensures
        params_defined(env, BuiltinFunction::Body),
        params_defined(env, BuiltinFunction::TailValue),
        params_defined(env, BuiltinFunction::HasTail),
        env.spec_get_language_item("y"@) is Some && env.spec_get_language_item("when_equal"@) is Some
            && env.spec_get_language_item("when_not_equal"@) is Some ==> params_defined(env, BuiltinFunction::Decision),
{
}

proof fn lemma_language_items_kept(a: &Environment, b: &Environment)
    requires
        b.spec_language_items() == a.spec_language_items(),
    ensures
        forall|n: Seq<char>| #[trigger] b.spec_get_language_item(n) == a.spec_get_language_item(n),
{
}

/// The language item named `name`, which is defined.
fn language_item(env: &Environment, name: &str) -> (r: ItemPtr)
    requires
        env.wf(),
        env.spec_get_language_item(name@) is Some,
    ensures
        Some(r) == env.spec_get_language_item(name@),
        env.valid_item(r),
{
    match env.get_language_item(name) {
        Some(p) => p,
        None => {
            proof {
                assert(false);
            }
            ItemPtr(0)
        },
    }
}

/// Adds an item, still to be resolved, that is `and` applied to `left` and
/// `right`.
pub fn create_and(env: &mut Environment, left: ItemPtr, right: ItemPtr, scope: Scope) -> (r: ItemPtr)
    requires
        old(env).wf(),
        old(env).valid_item(left),
        old(env).valid_item(right),
        old(env).scope_valid(scope),
        old(env).spec_get_language_item("and"@) is Some,
    ensures
        final(env).wf(),
        appended(old(env), final(env)),
        final(env).spec_items().len() == old(env).spec_items().len() + 1,
        r.index() == old(env).spec_items().len(),
        final(env).item(r).scope == scope,
        is_and_of(final(env), r, left, right),
        no_placeholders(old(env)) ==> no_placeholders(final(env)),
{
    let and = language_item(env, "and");
    let def = and_definition(and, left, right);
    proof {
        let c = crate::item::content_items(def);
        assert(c =~= seq![and, left, right]);
    }
    push_keeping(env, def, scope)
}

/// `and` applied to `left` and `right`, still to be resolved.
fn and_definition(and: ItemPtr, left: ItemPtr, right: ItemPtr) -> (r: Definition)
    ensures
        r matches Definition::Resolvable(d) && d.0 matches Resolvable::Substitution(s) && s.base == and
            && s.anonymous_subs@ == seq![left, right] && s.named_subs@.len() == 0 && s.named_proofs@.len() == 0,
        crate::item::content_items(r) == seq![and, left, right],
{
    let anonymous = vec![left, right];
    let r = Definition::Resolvable(
        DResolvable::new(
            Resolvable::Substitution(
                RSubstitution {
                    base: and,
                    position: Position::placeholder(),
                    named_subs: Vec::new(),
                    named_proofs: Vec::new(),
                    anonymous_subs: anonymous,
                },
            ),
        ),
    );
    proof {
        assert(crate::item::content_items(r) =~= seq![and, left, right]);
    }
    r
}

/// Adds an item, keeping the environment free of placeholders when it was.
fn push_keeping(env: &mut Environment, def: Definition, scope: Scope) -> (r: ItemPtr)
    requires
        old(env).wf(),
        old(env).definition_valid(def),
        old(env).scope_valid(scope),
        !(def is Placeholder),
    ensures
        final(env).wf(),
        appended(old(env), final(env)),
        final(env).spec_items().len() == old(env).spec_items().len() + 1,
        r.index() == old(env).spec_items().len(),
        final(env).item(r).scope == scope,
        final(env).def(r) == def,
        final(env).item(r).from_dex is None,
        no_placeholders(old(env)) ==> no_placeholders(final(env)),
{
    let ghost env0 = *env;
    let r = env.push_item(def, scope);
    proof {
        if no_placeholders(&env0) {
            assert forall|i: int| 0 <= i < env.spec_items().len() implies !((#[trigger] env.spec_items()[i]).definition is Placeholder) by {
                if i < env0.spec_items().len() {
                    assert(env.spec_items()[i] == env0.spec_items()[i]);
                }
            }
        }
    }
    r
}

/// Adds an item that is a builtin function call still to be resolved.
fn push_call(env: &mut Environment, call: RSubstitution, scope: Scope) -> (r: ItemPtr)
    requires
        old(env).wf(),
        old(env).valid_item(call.base),
        old(env).valid_items(call.anonymous_subs@),
        call.named_subs@.len() == 0,
        call.named_proofs@.len() == 0,
        old(env).scope_valid(scope),
    ensures
        final(env).wf(),
        appended(old(env), final(env)),
        final(env).spec_items().len() == old(env).spec_items().len() + 1,
        r.index() == old(env).spec_items().len(),
        final(env).item(r).scope == scope,
        final(env).def(r) matches Definition::Resolvable(d) && d.0 matches Resolvable::Substitution(s) && s.base
            == call.base && s.anonymous_subs@ == call.anonymous_subs@,
        no_placeholders(old(env)) ==> no_placeholders(final(env)),
{
    let def = Definition::Resolvable(DResolvable::new(Resolvable::Substitution(call)));
    proof {
        let c = crate::item::content_items(def);
        assert(crate::item::named_values(call.named_subs@) =~= Seq::<ItemPtr>::empty());
        assert(crate::item::named_values(call.named_proofs@) =~= Seq::<ItemPtr>::empty());
        assert forall|i: int| 0 <= i < c.len() implies env.valid_item(#[trigger] c[i]) by {
            if i > 0 {
                assert(c[i] == call.anonymous_subs@[i - 1]);
            }
        }
    }
    push_keeping(env, def, scope)
}

/// Makes a dex for `from`: an item that, with a value put in for the
/// language item `x`, is true exactly when that value could have been
/// produced by `from`, and records it as the dex of `from`. For a structure,
/// the value has a tail, its tail value comes from the structure's value and
/// its body from the structure's body; for a variable, the value meets the
/// variable's invariants; for anything else, the value is `from`.
pub fn create_from_dex(env: &mut Environment, from: ItemPtr, position: Position) -> (r: ItemPtr)
    requires
        old(env).wf(),
        old(env).valid_item(from),
        dex_language_items_defined(old(env), from),
        dex_supported(old(env), from),
    ensures
        final(env).wf(),
        final(env).spec_items().len() > old(env).spec_items().len(),
        r.index() == final(env).spec_items().len() - 1,
        forall|i: int|
            0 <= i < old(env).spec_items().len() && i != from.index() ==> #[trigger] final(env).spec_items()[i]
                == old(env).spec_items()[i],
        final(env).item(from) == (Item { from_dex: Some(r), ..old(env).item(from) }),
        final(env).spec_sets().len() >= old(env).spec_sets().len(),
        forall|i: int| 0 <= i < old(env).spec_sets().len() ==> #[trigger] final(env).spec_sets()[i] == old(env).spec_sets()[i],
        final(env).spec_variables() == old(env).spec_variables(),
        final(env).spec_language_items() == old(env).spec_language_items(),
        final(env).item(r).scope == Scope::Plain(from),
        old(env).def(from) matches Definition::PopulatedStruct(st) ==> is_struct_dex(
            final(env),
            r,
            st.value,
            st.body,
            old(env).spec_get_language_item("x"@)->0,
        ),
        old(env).def(from) matches Definition::Variable(dv) ==> (final(env).def(r) matches Definition::Substitution(d)
            && d.subs@ == seq![(dv.0, old(env).spec_get_language_item("x"@)->0)] && is_all_of(
            final(env),
            d.base,
            old(env).var(dv.0).spec_invariants(),
        )),
        !(old(env).def(from) is PopulatedStruct) && !(old(env).def(from) is Variable) ==> is_call_of(
            final(env),
            r,
            BuiltinFunction::Decision,
            seq![
                old(env).spec_get_language_item("x"@)->0,
                from,
                old(env).spec_get_language_item("true"@)->0,
                old(env).spec_get_language_item("false"@)->0,
            ],
        ),
        no_placeholders(old(env)) ==> no_placeholders(final(env)),
{
    let ghost env0 = *env;
    let scope = Scope::Plain(from);
    let x = language_item(env, "x");
    proof {
        lemma_params_defined(env);
        crate::ecc::lemma_def_parts_valid(env, from);
    }
    let ghost mut parts: Seq<ItemPtr> = Seq::empty();
    let ghost mut statement_made: ItemPtr = from;
    let into_def = match env.definition(from) {
        Definition::PopulatedStruct(s) => {
            let value = s.value;
            let body = s.body;
            let has_tail_call = crate::definitions::DBuiltinFunction::has_tail(env, x, scope, position);
            let ghost ea = *env;
            let has_tail = push_call(env, has_tail_call, scope);
            let ghost e1 = *env;
            proof {
                lemma_language_items_kept(&env0, env);
                lemma_params_defined(env);
                env0.lemma_valid_mono(env);
                lemma_appended_defs_kept(&ea, env);
                assert(env.spec_items()[has_tail_call.base.index() as int].definition == ea.spec_items()[has_tail_call.base.index() as int].definition);
                assert(is_call_of(env, has_tail, BuiltinFunction::HasTail, seq![x]));
            }
            let x_value_call = crate::definitions::DBuiltinFunction::tail_value(env, x, scope, position);
            let ghost eb = *env;
            let x_value = push_call(env, x_value_call, scope);
            let ghost e1b = *env;
            proof {
                lemma_language_items_kept(&env0, env);
                lemma_params_defined(env);
                env0.lemma_valid_mono(env);
                crate::util::lemma_appended_trans(&env0, &e1, env);
                assert(env.spec_items()[x_value_call.base.index() as int].definition == eb.spec_items()[x_value_call.base.index() as int].definition);
                assert(is_call_of(env, x_value, BuiltinFunction::TailValue, seq![x]));
                crate::util::lemma_appended_trans(&e1, &eb, env);
                lemma_appended_defs_kept(&e1, env);
                lemma_call_kept(&e1, env, has_tail, BuiltinFunction::HasTail, seq![x]);
            }
            let value_from_value = push_keeping(
                env,
                Definition::Resolvable(DResolvable::new(Resolvable::From(RFrom { left: x_value, right: value }))),
                scope,
            );
            let ghost e2 = *env;
            proof {
                lemma_language_items_kept(&env0, env);
                lemma_params_defined(env);
                env0.lemma_valid_mono(env);
                crate::util::lemma_appended_trans(&env0, &e1, env);
                lemma_appended_defs_kept(&e1b, env);
                lemma_call_kept(&e1b, env, has_tail, BuiltinFunction::HasTail, seq![x]);
                lemma_call_kept(&e1b, env, x_value, BuiltinFunction::TailValue, seq![x]);
                assert(is_from_of(env, value_from_value, x_value, value));
            }
            let x_body_call = crate::definitions::DBuiltinFunction::body(env, x, scope, position);
            let ghost ec = *env;
            let x_body = push_call(env, x_body_call, scope);
            let ghost e2b = *env;
            proof {
                lemma_language_items_kept(&env0, env);
                env0.lemma_valid_mono(env);
                crate::util::lemma_appended_trans(&env0, &e2, env);
                assert(env.spec_items()[x_body_call.base.index() as int].definition == ec.spec_items()[x_body_call.base.index() as int].definition);
                assert(is_call_of(env, x_body, BuiltinFunction::Body, seq![x]));
                crate::util::lemma_appended_trans(&e2, &ec, env);
                lemma_appended_defs_kept(&e2, env);
                lemma_call_kept(&e2, env, has_tail, BuiltinFunction::HasTail, seq![x]);
                lemma_call_kept(&e2, env, x_value, BuiltinFunction::TailValue, seq![x]);
                lemma_from_kept(&e2, env, value_from_value, x_value, value);
            }
            let rest_from_rest = push_keeping(
                env,
                Definition::Resolvable(DResolvable::new(Resolvable::From(RFrom { left: x_body, right: body }))),
                scope,
            );
            let ghost e3 = *env;
            proof {
                lemma_language_items_kept(&env0, env);
                env0.lemma_valid_mono(env);
                crate::util::lemma_appended_trans(&env0, &e2, env);
                e1.lemma_valid_mono(env);
                e2.lemma_valid_mono(env);
                lemma_appended_defs_kept(&e2b, env);
                lemma_call_kept(&e2b, env, has_tail, BuiltinFunction::HasTail, seq![x]);
                lemma_call_kept(&e2b, env, x_value, BuiltinFunction::TailValue, seq![x]);
                lemma_call_kept(&e2b, env, x_body, BuiltinFunction::Body, seq![x]);
                lemma_from_kept(&e2b, env, value_from_value, x_value, value);
                assert(is_from_of(env, rest_from_rest, x_body, body));
            }
            let first_two = create_and(env, has_tail, value_from_value, scope);
            proof {
                lemma_language_items_kept(&env0, env);
                env0.lemma_valid_mono(env);
                e3.lemma_valid_mono(env);
                crate::util::lemma_appended_trans(&env0, &e3, env);
                lemma_appended_defs_kept(&e3, env);
                lemma_call_kept(&e3, env, has_tail, BuiltinFunction::HasTail, seq![x]);
                lemma_call_kept(&e3, env, x_value, BuiltinFunction::TailValue, seq![x]);
                lemma_call_kept(&e3, env, x_body, BuiltinFunction::Body, seq![x]);
                lemma_from_kept(&e3, env, value_from_value, x_value, value);
                lemma_from_kept(&e3, env, rest_from_rest, x_body, body);
                parts = seq![first_two, rest_from_rest, has_tail, value_from_value, x_value, x_body];
            }
            let and = language_item(env, "and");
            let def = and_definition(and, first_two, rest_from_rest);
            def
        },
        Definition::Variable(dv) => {
            let var = dv.0;
            let invariants = crate::definitions::clone_slice(env.get_variable(var).invariants());
            proof {
                assert(env.variable_valid(env.spec_variables()[var.index() as int]));
            }
            let truee = language_item(env, "true");
            let mut statement = truee;
            proof {
                if invariants@.len() == 0 {
                    assert(is_all_of(env, statement, invariants@));
                }
            }
            if invariants.len() > 0 {
                statement = invariants[0];
                let mut k: usize = 1;
                proof {
                    assert(invariants@.take(1).len() == 1);
                    assert(invariants@.take(1)[0] == statement);
                    assert(is_all_of(env, statement, invariants@.take(1)));
                }
                while k < invariants.len()
                    invariant
                        env.wf(),
                        appended(&env0, env),
                        env.spec_language_items() == env0.spec_language_items(),
                        invariants@.len() > 1 ==> env.spec_get_language_item("and"@) is Some,
                        env.valid_items(invariants@),
                        env.valid_item(statement),
                        env.valid_item(from),
                        env.valid_item(x),
                        env.scope_valid(scope),
                        no_placeholders(&env0) ==> no_placeholders(env),
                        1 <= k <= invariants@.len(),
                        is_all_of(env, statement, invariants@.take(k as int)),
                    decreases invariants@.len() - k,
                {
                    let ghost before = *env;
                    let ghost prev = statement;
                    assert(env.valid_item(invariants@[k as int]));
                    statement = create_and(env, statement, invariants[k], scope);
                    proof {
                        crate::util::lemma_appended_trans(&env0, &before, env);
                        before.lemma_valid_mono(env);
                        lemma_language_items_kept(&before, env);
                        lemma_appended_defs_kept(&before, env);
                        lemma_all_of_kept(&before, env, prev, invariants@.take(k as int));
                        let t = invariants@.take(k + 1);
                        assert(t.drop_last() =~= invariants@.take(k as int));
                        assert(t.last() == invariants@[k as int]);
                        assert(is_and_of(env, statement, prev, t.last()) && is_all_of(env, prev, t.drop_last()));
                        assert(is_all_of(env, statement, t));
                    }
                    k += 1;
                }
                proof {
                    assert(invariants@.take(k as int) =~= invariants@);
                }
            }
            proof {
                statement_made = statement;
            }
            let mut subs = Substitutions::new();
            subs.insert_no_replace(var, x);
            let ghost before = *env;
            proof {
                assert(env.valid_var(var));
                assert(crate::ecc::entries_ok(env, subs@));
            }
            proof {
                assert(env.valid_item(statement));
                assert(is_all_of(env, statement, invariants@));
            }
            let def = DSubstitution::new_unchecked(env, statement, subs);
            proof {
                crate::util::lemma_appended_trans(&env0, &before, env);
                before.lemma_valid_mono(env);
                assert(defs_kept(&before, env));
                lemma_all_of_kept(&before, env, statement, invariants@);
                assert(invariants@ == env0.var(dv.0).spec_invariants());
                assert(env.valid_item(statement));
            }
            Definition::Substitution(def)
        },
        _ => {
            let truee = language_item(env, "true");
            let falsee = language_item(env, "false");
            let call = crate::definitions::DBuiltinFunction::decision(env, x, from, truee, falsee, scope, position);
            proof {
                env0.lemma_valid_mono(env);
                lemma_language_items_kept(&env0, env);
                parts = seq![call.base];
            }
            Definition::Resolvable(DResolvable::new(Resolvable::Substitution(call)))
        },
    };
    let ghost before = *env;
    let into = push_keeping(env, into_def, scope);
    let ghost mid = *env;
    proof {
        crate::util::lemma_appended_trans(&env0, &before, &mid);
        env0.lemma_valid_mono(&mid);
    }
    env.set_from_dex(from, into);
    proof {
        assert(defs_kept(&before, env)) by {
            assert forall|i: int| 0 <= i < before.spec_items().len() implies (#[trigger] env.spec_items()[i]).definition
                == before.spec_items()[i].definition by {
                assert(mid.spec_items()[i] == before.spec_items()[i]);
            }
        }
        assert(env.def(into) == into_def) by {
            assert(mid.def(into) == into_def);
        }
        match env0.def(from) {
            Definition::PopulatedStruct(st) => {
                let first_two = parts[0];
                let rest = parts[1];
                let has_tail = parts[2];
                let value_from = parts[3];
                let x_value = parts[4];
                let x_body = parts[5];
                lemma_and_kept(&before, env, first_two, has_tail, value_from);
                lemma_call_kept(&before, env, has_tail, BuiltinFunction::HasTail, seq![x]);
                lemma_call_kept(&before, env, x_value, BuiltinFunction::TailValue, seq![x]);
                lemma_call_kept(&before, env, x_body, BuiltinFunction::Body, seq![x]);
                lemma_from_kept(&before, env, value_from, x_value, st.value);
                lemma_from_kept(&before, env, rest, x_body, st.body);
                assert(is_and_of(env, into, first_two, rest));
                assert(is_struct_dex(env, into, st.value, st.body, x));
            },
            Definition::Variable(dv) => {
                lemma_all_of_kept(&before, env, statement_made, env0.var(dv.0).spec_invariants());
            },
            _ => {
                let base = parts[0];
                assert(env.spec_items()[base.index() as int].definition == before.spec_items()[base.index() as int].definition);
            },
        }
        if no_placeholders(&env0) {
            assert forall|i: int| 0 <= i < env.spec_items().len() implies !((#[trigger] env.spec_items()[i]).definition is Placeholder) by {
                assert(mid.spec_items()[i].definition == env.spec_items()[i].definition);
            }
        }
    }
    into
}

impl ItemPtr {
    /// The dex of this item: the one recorded before, or else a new one made
    /// by `create_from_dex`.
    pub fn get_from_dex(&self, env: &mut Environment) -> (r: ItemPtr)
        requires
            old(env).wf(),
            old(env).valid_item(*self),
            old(env).item(*self).from_dex is None ==> dex_language_items_defined(old(env), *self) && dex_supported(
                old(env),
                *self,
            ),
        ensures
            final(env).wf(),
            final(env).valid_item(r),
            appended_but_dex(old(env), final(env), *self),
            final(env).item(*self).from_dex == Some(r),
            old(env).item(*self).from_dex matches Some(d) ==> r == d && *final(env) == *old(env),
            old(env).item(*self).from_dex is None ==> r.index() == final(env).spec_items().len() - 1
                && final(env).item(r).scope == Scope::Plain(*self),
            no_placeholders(old(env)) ==> no_placeholders(final(env)),
    {
        match env.get(*self).from_dex {
            Some(d) => {
                proof {
                    assert(env.item_valid(env.item(*self)));
                }
                d
            },
            None => create_from_dex(env, *self, Position::placeholder()),
        }
    }
}

} // verus!
