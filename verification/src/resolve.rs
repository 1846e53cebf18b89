use vstd::prelude::*;
use vstd::string::StringExecFns;

use crate::dcc::n_items;
use crate::definitions::{DOther, DSubstitution, DVariable, Definition, RFrom, RNamedMember, RSubstitution, RVariable, Resolvable, clone_items};
use crate::dependencies::DependencyView;
use crate::deref::{lemma_dereference_same, same_definitions, spec_dereference};
use crate::diagnostic::{Diagnostic, Position};
use crate::ecc::{entries_ok, no_placeholders};
use crate::environment::Environment;
use crate::from::{appended_but_dex, dex_language_items_defined, dex_supported};
use crate::invariants::InvariantSet;
use crate::item::{ItemPtr, Scope};
use crate::resolvable::{ResolveError, UnresolvedItemError};
use crate::scopes::spec_lookup_ident;
use crate::substitutions::{Substitutions, entry_keys, keys_distinct};
use crate::util::appended;
use crate::variable::VariablePtr;

verus! {

/// Where dereferencing `p` stops, unless that item is not resolved yet.
pub open spec fn spec_deref_resolved(env: &Environment, p: ItemPtr) -> Result<ItemPtr, UnresolvedItemError> {
    let d = spec_dereference(env, p);
    if env.def(d) is Resolvable {
        Err(UnresolvedItemError(d))
    } else {
        Ok(d)
    }
}

/// Where dereferencing `p` stops; fails with that item when it is not
/// resolved yet.
pub fn deref_resolved(env: &Environment, p: ItemPtr) -> (r: Result<ItemPtr, UnresolvedItemError>)
    requires
        env.wf(),
        env.valid_item(p),
    ensures
        r == spec_deref_resolved(env, p),
        r matches Ok(q) ==> env.valid_item(q),
{
    let d = p.dereference(env);
    match d.resolved(env) {
        Ok(()) => Ok(d),
        Err(e) => Err(e),
    }
}

/// The value labelled `name` in the structure `inn` stands for, or in one of
/// its bodies.
pub open spec fn spec_extract_member(env: &Environment, inn: ItemPtr, name: Seq<char>, fuel: nat) -> Result<
    Option<ItemPtr>,
    UnresolvedItemError,
>
    decreases fuel,
{
    match spec_deref_resolved(env, inn) {
        Err(e) => Err(e),
        Ok(d) => match env.def(d) {
            Definition::PopulatedStruct(s) => if s.label@ == name {
                Ok(Some(s.value))
            } else if fuel == 0 {
                Ok(None)
            } else {
                spec_extract_member(env, s.body, name, (fuel - 1) as nat)
            },
            _ => Ok(None),
        },
    }
}

/// How many bodies in from the structure `inn` stands for the field
/// labelled `name` is.
pub open spec fn spec_find_member(env: &Environment, inn: ItemPtr, name: Seq<char>, fuel: nat) -> Result<
    Option<nat>,
    UnresolvedItemError,
>
    decreases fuel,
{
    match spec_deref_resolved(env, inn) {
        Err(e) => Err(e),
        Ok(d) => match env.def(d) {
            Definition::PopulatedStruct(s) => if s.label@ == name {
                Ok(Some(0))
            } else if fuel == 0 {
                Ok(None)
            } else {
                match spec_find_member(env, s.body, name, (fuel - 1) as nat) {
                    Err(e) => Err(e),
                    Ok(Some(k)) => Ok(Some(k + 1)),
                    Ok(None) => Ok(None),
                }
            },
            _ => Ok(None),
        },
    }
}

/// The value labelled `name` in the structure `inn` stands for, or in one of
/// its bodies, looking at most `fuel` bodies in.
pub fn extract_member(env: &Environment, inn: ItemPtr, name: &String, fuel: usize) -> (r: Result<
    Option<ItemPtr>,
    UnresolvedItemError,
>)
    requires
        env.wf(),
        env.valid_item(inn),
    ensures
        r == spec_extract_member(env, inn, name@, fuel as nat),
        r matches Ok(Some(m)) ==> env.valid_item(m),
    decreases fuel,
{
    let d = deref_resolved(env, inn)?;
    proof {
        crate::ecc::lemma_def_parts_valid(env, d);
    }
    match env.definition(d) {
        Definition::PopulatedStruct(s) => {
            if s.label == *name {
                Ok(Some(s.value))
            } else if fuel == 0 {
                Ok(None)
            } else {
                extract_member(env, s.body, name, fuel - 1)
            }
        },
        _ => Ok(None),
    }
}

/// How many bodies in from the structure `inn` the field labelled `name`
/// is, looking at most `fuel` bodies in.
pub fn find_member(env: &Environment, inn: ItemPtr, name: &String, fuel: u32) -> (r: Result<
    Option<u32>,
    UnresolvedItemError,
>)
    requires
        env.wf(),
        env.valid_item(inn),
    ensures
        match (r, spec_find_member(env, inn, name@, fuel as nat)) {
            (Ok(Some(a)), Ok(Some(b))) => a == b,
            (Ok(None), Ok(None)) => true,
            (Err(a), Err(b)) => a == b,
            _ => false,
        },
        r matches Ok(Some(k)) ==> k <= fuel,
    decreases fuel,
{
    let d = deref_resolved(env, inn)?;
    proof {
        crate::ecc::lemma_def_parts_valid(env, d);
    }
    match env.definition(d) {
        Definition::PopulatedStruct(s) => {
            if s.label == *name {
                Ok(Some(0))
            } else if fuel == 0 {
                Ok(None)
            } else {
                match find_member(env, s.body, name, fuel - 1)? {
                    Some(k) => Ok(Some(k + 1)),
                    None => Ok(None),
                }
            }
        },
        _ => Ok(None),
    }
}

/// What an identifier stands for: the item its name names in the scope of
/// the item it stands in.
pub fn resolve_identifier(env: &Environment, name: &String, scope: Scope) -> (r: Result<Definition, ResolveError>)
    requires
        env.wf(),
    ensures
        match spec_lookup_ident(env, scope, name@, n_items(env) as nat) {
            Some(x) => r matches Ok(Definition::Other(d)) && d.other == x,
            None => r matches Err(ResolveError::Diagnostic(_)),
        },
{
    match scope.lookup_ident(env, name) {
        Some(identified) => Ok(Definition::Other(DOther::new(identified))),
        None => {
            let text = "Cannot find what ".to_owned().concat(name.as_str()).concat(" refers to");
            Err(ResolveError::Diagnostic(Diagnostic::new().with_text_error(text)))
        },
    }
}

/// What a member access stands for: the value of the field of that name in
/// the base structure.
pub fn resolve_named_member(env: &Environment, member: &RNamedMember) -> (r: Result<Definition, ResolveError>)
    requires
        env.wf(),
        env.valid_item(member.base),
    ensures
        match spec_extract_member(env, member.base, member.member_name@, n_items(env) as nat) {
            Ok(Some(m)) => r matches Ok(Definition::Other(d)) && d.other == m,
            Ok(None) => r matches Err(ResolveError::Diagnostic(_)),
            Err(e) => r matches Err(ResolveError::Unresolved(e2)) && e2 == e,
        },
        r matches Ok(Definition::Other(d)) ==> env.valid_item(d.other),
{
    match extract_member(env, member.base, &member.member_name, env.num_items()) {
        Err(e) => Err(ResolveError::Unresolved(e)),
        Ok(Some(m)) => Ok(Definition::Other(DOther::new(m))),
        Ok(None) => {
            let text = "Failed to find a member named ".to_owned().concat(member.member_name.as_str()).concat(":");
            Err(ResolveError::Diagnostic(Diagnostic::new().with_text_error(text)))
        },
    }
}

/// A variable to be created: the new variable's item, in `scope`.
pub fn resolve_variable(env: &mut Environment, variable: &RVariable, scope: Scope) -> (r: Definition)
    requires
        old(env).wf(),
        old(env).valid_items(variable.invariants@),
        old(env).valid_items(variable.dependencies@),
        old(env).scope_valid(scope),
    ensures
        final(env).wf(),
        final(env).spec_variables().len() == old(env).spec_variables().len() + 1,
        forall|i: int|
            0 <= i < old(env).spec_variables().len() ==> #[trigger] final(env).spec_variables()[i] == old(
                env,
            ).spec_variables()[i],
        final(env).spec_language_items() == old(env).spec_language_items(),
        final(env).spec_items().len() == old(env).spec_items().len() + 1,
        forall|i: int| 0 <= i < old(env).spec_items().len() ==> #[trigger] final(env).spec_items()[i] == old(env).spec_items()[i],
        final(env).spec_sets() == old(env).spec_sets(),
        r matches Definition::Other(d) && d.other.index() == old(env).spec_items().len() && ({
            let v = final(env).spec_variables()[old(env).spec_variables().len() as int];
            &&& final(env).def(d.other) matches Definition::Variable(dv) && dv.0.index() == old(env).spec_variables().len()
            &&& v.spec_invariants() == variable.invariants@
            &&& v.spec_dependencies() == variable.dependencies@
            &&& v.spec_order() == variable.order
            &&& final(env).item(d.other).scope == scope
        }),
        crate::ecc::no_placeholders(old(env)) ==> crate::ecc::no_placeholders(final(env)),
{
    let ghost env0 = *env;
    let invariants = clone_items(&variable.invariants);
    let dependencies = clone_items(&variable.dependencies);
    let id = DVariable::new(env, invariants, dependencies, variable.order, scope);
    proof {
        if crate::ecc::no_placeholders(&env0) {
            assert forall|i: int| 0 <= i < env.spec_items().len() implies !((#[trigger] env.spec_items()[i]).definition is Placeholder) by {
                if i < env0.spec_items().len() {
                    assert(env.spec_items()[i] == env0.spec_items()[i]);
                }
            }
        }
    }
    Definition::Other(DOther::new(id))
}

/// A diagnostic made of one line of error text.
fn error_text(text: String) -> (r: ResolveError)
    ensures
        r matches ResolveError::Diagnostic(d) && d.lines@ == seq![text],
{
    let d = Diagnostic::new().with_text_error(text);
    assert(d.lines@ =~= seq![text]);
    ResolveError::Diagnostic(d)
}

/// The variable `name` stands for in `scope`: what the name is found to
/// name there, dereferenced, when that is a resolved variable.
pub open spec fn named_key(env: &Environment, scope: Scope, name: Seq<char>) -> Option<VariablePtr> {
    match spec_lookup_ident(env, scope, name, n_items(env) as nat) {
        Some(t) => if env.valid_item(t) {
            match spec_deref_resolved(env, t) {
                Ok(d) => match env.def(d) {
                    Definition::Variable(dv) => Some(dv.0),
                    _ => None,
                },
                Err(_) => None,
            }
        } else {
            None
        },
        None => None,
    }
}

/// The entries a list of named values gives: each named variable with its
/// value.
pub open spec fn named_entries(env: &Environment, scope: Scope, named: Seq<(Position, String, ItemPtr)>) -> Seq<
    (VariablePtr, ItemPtr),
> {
    named.map_values(|e: (Position, String, ItemPtr)| (named_key(env, scope, e.1@)->0, e.2))
}

/// Every name stands for a variable, and no variable is given a value twice,
/// counting the entries `before`.
pub open spec fn named_ok(
    env: &Environment,
    scope: Scope,
    named: Seq<(Position, String, ItemPtr)>,
    before: Seq<(VariablePtr, ItemPtr)>,
) -> bool {
    &&& forall|k: int| 0 <= k < named.len() ==> (#[trigger] named_key(env, scope, named[k].1@)) is Some
    &&& keys_distinct(before + named_entries(env, scope, named))
}

/// The dependencies `vars` without those on the variables `keys`.
pub open spec fn remove_vars(vars: Seq<DependencyView>, keys: Seq<VariablePtr>) -> Seq<DependencyView>
    decreases keys.len(),
{
    if keys.len() == 0 {
        vars
    } else {
        remove_vars(vars, keys.drop_last()).filter(|d: DependencyView| d.var != keys.last())
    }
}

/// Replaces each variable named in `named` (looked up in the scope of the
/// base) by its value, and drops it from the dependencies still to be
/// given a value.
fn resolve_named_subs(
    env: &Environment,
    base_scope: Scope,
    named: &Vec<(Position, String, ItemPtr)>,
    subs: &mut Substitutions,
    remaining_deps: &mut crate::dependencies::Dependencies,
) -> (r: Result<(), ResolveError>)
    requires
        env.wf(),
        old(subs).wf(),
        entries_ok(env, old(subs)@),
        old(remaining_deps).wf(),
        env.valid_items(crate::item::named_values(named@)),
    ensures
        final(subs).wf(),
        entries_ok(env, final(subs)@),
        final(remaining_deps).wf(),
        r is Ok <==> named_ok(env, base_scope, named@, old(subs)@),
        r is Ok ==> final(subs)@ == old(subs)@ + named_entries(env, base_scope, named@),
        r is Ok ==> final(remaining_deps)@.vars == remove_vars(
            old(remaining_deps)@.vars,
            entry_keys(named_entries(env, base_scope, named@)),
        ),
        final(remaining_deps)@.error == old(remaining_deps)@.error,
{
    let ghost subs0 = subs@;
    let ghost vars0 = remaining_deps@.vars;
    let ghost all = named_entries(env, base_scope, named@);
    let mut k: usize = 0;
    while k < named.len()
        invariant
            env.wf(),
            subs.wf(),
            entries_ok(env, subs@),
            remaining_deps.wf(),
            env.valid_items(crate::item::named_values(named@)),
            k <= named@.len(),
            subs0 == old(subs)@,
            vars0 == old(remaining_deps)@.vars,
            all == named_entries(env, base_scope, named@),
            subs@ == subs0 + all.take(k as int),
            remaining_deps@.vars == remove_vars(vars0, entry_keys(all.take(k as int))),
            remaining_deps@.error == old(remaining_deps)@.error,
            forall|j: int| 0 <= j < k ==> (#[trigger] named_key(env, base_scope, named@[j].1@)) is Some,
        decreases named@.len() - k,
    {
        let (_, name, value) = &named[k];
        assert(crate::item::named_values(named@)[k as int] == *value);
        let target = match base_scope.lookup_ident(env, name) {
            Some(t) => t,
            None => {
                let text = "The name \"".to_owned().concat(name.as_str()).concat(
                    "\" does not refer to a variable in the scope of the function being called:",
                );
                proof {
                    assert(named_key(env, base_scope, named@[k as int].1@) is None);
                }
                return Err(error_text(text));
            },
        };
        if target.0 >= env.num_items() {
            let text = "The name \"".to_owned().concat(name.as_str()).concat(
                "\" does not refer to a variable in the scope of the function being called:",
            );
            proof {
                assert(named_key(env, base_scope, named@[k as int].1@) is None);
            }
            return Err(error_text(text));
        }
        let target = match deref_resolved(env, target) {
            Ok(t) => t,
            Err(e) => {
                proof {
                    assert(named_key(env, base_scope, named@[k as int].1@) is None);
                }
                return Err(ResolveError::Unresolved(e));
            },
        };
        proof {
            crate::ecc::lemma_def_parts_valid(env, target);
        }
        match env.definition(target) {
            Definition::Variable(dv) => {
                let var = dv.0;
                proof {
                    crate::substitutions::lemma_entries_get(subs@, var);
                    assert(all[k as int] == (var, *value));
                }
                if subs.get(&var).is_some() {
                    let text = name.clone().concat(" is given a value twice:");
                    proof {
                        let i = choose|i: int| 0 <= i < subs@.len() && (#[trigger] subs@[i]).0 == var;
                        let whole = subs0 + all;
                        let j = subs0.len() + k;
                        assert(subs@ == subs0 + all.take(k as int));
                        if i < subs0.len() {
                            assert(whole[i] == subs0[i]);
                        } else {
                            assert(whole[i] == all[i - subs0.len()]);
                            assert(all.take(k as int)[i - subs0.len()] == all[i - subs0.len()]);
                        }
                        assert(whole[i].0 == var);
                        assert(whole[j] == all[k as int]);
                        assert(whole[j].0 == var);
                        assert(i != j);
                        assert(!keys_distinct(whole));
                    }
                    return Err(error_text(text));
                }
                let ghost before = subs@;
                subs.insert_no_replace(var, *value);
                proof {
                    assert(all.take(k + 1) =~= all.take(k as int).push((var, *value)));
                    assert(subs@ =~= subs0 + all.take(k + 1));
                    assert forall|i: int| 0 <= i < subs@.len() implies env.valid_item((#[trigger] subs@[i]).1)
                        && env.valid_var(subs@[i].0) by {
                        if i < before.len() {
                            assert(subs@[i] == before[i]);
                        }
                    }
                    let ks = entry_keys(all.take(k + 1));
                    assert(ks.drop_last() =~= entry_keys(all.take(k as int)));
                    assert(ks.last() == var);
                }
                remaining_deps.remove(var);
            },
            _ => {
                let text = name.clone().concat(" is used as a variable here but it is actually something else:");
                proof {
                    assert(named_key(env, base_scope, named@[k as int].1@) is None);
                }
                return Err(error_text(text));
            },
        }
        k += 1;
    }
    proof {
        assert(all.take(k as int) =~= all);
    }
    Ok(())
}

/// The entries `anonymous` gives: the `k`th value to the `k`th of the
/// dependencies `remaining`.
pub open spec fn anonymous_entries(remaining: Seq<DependencyView>, anonymous: Seq<ItemPtr>) -> Seq<
    (VariablePtr, ItemPtr),
> {
    Seq::new(anonymous.len(), |k: int| (remaining[k].var, anonymous[k]))
}

/// There is a dependency for every value, each an existing variable, and no
/// variable is given a value twice, counting the entries `before`.
pub open spec fn anonymous_ok(
    env: &Environment,
    remaining: Seq<DependencyView>,
    anonymous: Seq<ItemPtr>,
    before: Seq<(VariablePtr, ItemPtr)>,
) -> bool {
    &&& anonymous.len() <= remaining.len()
    &&& forall|k: int| 0 <= k < anonymous.len() ==> env.valid_var(#[trigger] remaining[k].var)
    &&& keys_distinct(before + anonymous_entries(remaining, anonymous))
}

/// Gives the dependencies still without a value, in order, the values of
/// `anonymous`.
fn resolve_anonymous_subs(
    env: &Environment,
    remaining_deps: crate::dependencies::Dependencies,
    anonymous: &Vec<ItemPtr>,
    subs: &mut Substitutions,
) -> (r: Result<(), ResolveError>)
    requires
        env.wf(),
        old(subs).wf(),
        entries_ok(env, old(subs)@),
        remaining_deps.wf(),
        env.valid_items(anonymous@),
    ensures
        final(subs).wf(),
        entries_ok(env, final(subs)@),
        r is Ok <==> anonymous_ok(env, remaining_deps@.vars, anonymous@, old(subs)@),
        r is Ok ==> final(subs)@ == old(subs)@ + anonymous_entries(remaining_deps@.vars, anonymous@),
        r matches Err(ResolveError::Unresolved(e)) ==> remaining_deps@.error == Some(e),
{
    let ghost subs0 = subs@;
    let ghost vars0 = remaining_deps@.vars;
    let ghost error0 = remaining_deps@.error;
    let ghost all = anonymous_entries(vars0, anonymous@);
    let mut rest = remaining_deps;
    let mut k: usize = 0;
    while k < anonymous.len()
        invariant
            env.wf(),
            subs.wf(),
            entries_ok(env, subs@),
            rest.wf(),
            env.valid_items(anonymous@),
            k <= anonymous@.len(),
            k <= vars0.len(),
            subs0 == old(subs)@,
            all == anonymous_entries(vars0, anonymous@),
            vars0 == remaining_deps@.vars,
            error0 == remaining_deps@.error,
            rest@.vars == vars0.skip(k as int),
            rest@.error == error0,
            subs@ == subs0 + all.take(k as int),
            forall|j: int| 0 <= j < k ==> env.valid_var(#[trigger] vars0[j].var),
        decreases anonymous@.len() - k,
    {
        if rest.num_variables() == 0 {
            proof {
                assert(vars0.skip(k as int).len() == vars0.len() - k);
                assert(vars0.len() == k);
            }
            match rest.error() {
                Some(e) => {
                    proof {
                        assert(!anonymous_ok(env, vars0, anonymous@, subs0));
                    }
                    return Err(ResolveError::Unresolved(e));
                },
                None => {
                    return Err(error_text("This substitution has too many arguments:".to_owned()));
                },
            }
        }
        let dep = rest.pop_front();
        let var = dep.var;
        proof {
            assert(var == vars0[k as int].var);
            assert(all[k as int] == (var, anonymous@[k as int]));
            crate::substitutions::lemma_entries_get(subs@, var);
        }
        if var.0 >= env.num_variables() || subs.get(&var).is_some() {
            proof {
                if env.valid_var(var) {
                    let i = choose|i: int| 0 <= i < subs@.len() && (#[trigger] subs@[i]).0 == var;
                    let whole = subs0 + all;
                    let j = subs0.len() + k;
                    if i < subs0.len() {
                        assert(whole[i] == subs0[i]);
                    } else {
                        assert(whole[i] == all[i - subs0.len()]);
                        assert(all.take(k as int)[i - subs0.len()] == all[i - subs0.len()]);
                    }
                    assert(whole[i].0 == var);
                    assert(whole[j] == all[k as int]);
                    assert(whole[j].0 == var);
                    assert(!keys_distinct(whole));
                }
                assert(!anonymous_ok(env, vars0, anonymous@, subs0));
            }
            return Err(error_text("This substitution gives a dependency two values:".to_owned()));
        }
        let value = anonymous[k];
        assert(env.valid_item(anonymous@[k as int]));
        let ghost before = subs@;
        subs.insert_no_replace(var, value);
        proof {
            assert(all.take(k + 1) =~= all.take(k as int).push((var, value)));
            assert(subs@ =~= subs0 + all.take(k + 1));
            assert(rest@.vars =~= vars0.skip(k + 1));
            assert forall|i: int| 0 <= i < subs@.len() implies env.valid_item((#[trigger] subs@[i]).1)
                && env.valid_var(subs@[i].0) by {
                if i < before.len() {
                    assert(subs@[i] == before[i]);
                }
            }
        }
        k += 1;
    }
    proof {
        assert(all.take(k as int) =~= all);
    }
    Ok(())
}

/// The variable that a dependency of a replaced variable stands for, once
/// dereferenced; none where it is not a variable.
pub open spec fn dep_target_var(env: &Environment, d: ItemPtr) -> Option<VariablePtr> {
    match env.def(spec_dereference(env, d)) {
        Definition::Variable(dv) => Some(dv.0),
        _ => None,
    }
}

/// The variables `value` depends on, in order.
pub open spec fn spec_value_vars(env: &Environment, value: ItemPtr) -> Seq<VariablePtr> {
    crate::dcc::dep_vars(crate::dcc::spec_deps_of(env, env.spec_items().len(), Seq::empty(), value).vars)
}

/// Not every dependency of `value` could be found.
pub open spec fn value_deps_incomplete(env: &Environment, value: ItemPtr) -> bool {
    crate::dcc::spec_deps_of(env, env.spec_items().len(), Seq::empty(), value).error is Some
}

/// The `j`th dependency of the variable `entry.0` cannot be matched with a
/// dependency of the value `entry.1`: it is not a variable, or the value has
/// no `j`th dependency while some of its dependencies are not known.
pub open spec fn dep_fails(env: &Environment, entry: (VariablePtr, ItemPtr), j: int) -> bool {
    let tdeps = env.var(entry.0).spec_dependencies();
    ||| dep_target_var(env, tdeps[j]) is None
    ||| j >= spec_value_vars(env, entry.1).len() && value_deps_incomplete(env, entry.1)
}

/// Some dependency of the variable `entry.0` cannot be matched with one of
/// the value `entry.1`.
pub open spec fn entry_fails(env: &Environment, entry: (VariablePtr, ItemPtr)) -> bool {
    exists|j: int| 0 <= j < env.var(entry.0).spec_dependencies().len() && #[trigger] dep_fails(env, entry, j)
}

/// For the first `n` dependencies of the variable `entry.0`: where the
/// value's dependency in the same place is another variable, not given a
/// replacement yet, it is replaced by the item of the variable's dependency.
pub open spec fn dep_match(env: &Environment, entry: (VariablePtr, ItemPtr), n: nat) -> Seq<(VariablePtr, ItemPtr)>
    decreases n,
{
    if n == 0 {
        Seq::empty()
    } else {
        let prev = dep_match(env, entry, (n - 1) as nat);
        let j = n - 1;
        let vvars = spec_value_vars(env, entry.1);
        let wanted = dep_target_var(env, env.var(entry.0).spec_dependencies()[j])->0;
        if j < vvars.len() && vvars[j] != wanted && vvars[j].index() < env.spec_variables().len()
            && !entry_keys(prev).contains(vvars[j]) {
            prev.push((vvars[j], env.var(wanted).spec_item()))
        } else {
            prev
        }
    }
}

/// The substitution that makes the dependencies of the value `entry.1` those
/// of the variable `entry.0` it is given to.
pub open spec fn matched_subs(env: &Environment, entry: (VariablePtr, ItemPtr)) -> Seq<(VariablePtr, ItemPtr)> {
    dep_match(env, entry, env.var(entry.0).spec_dependencies().len())
}

/// The substitution that makes the dependencies of `value` those of the
/// variable `target` it is given to.
fn entry_dep_match(env: &Environment, target: VariablePtr, value: ItemPtr) -> (r: Result<Substitutions, ResolveError>)
    requires
        env.wf(),
        env.valid_var(target),
        env.valid_item(value),
    ensures
        r is Err <==> entry_fails(env, (target, value)),
        r matches Ok(s) ==> s.wf() && s@ == matched_subs(env, (target, value)) && entries_ok(env, s@),
{
    let ghost entry = (target, value);
    let value_deps = value.get_dependencies(env);
    let value_vars = value_deps.as_variables();
    let ghost vvars = spec_value_vars(env, value);
    proof {
        assert(value_vars@.len() == vvars.len());
        assert forall|i: int| 0 <= i < value_vars@.len() implies (#[trigger] value_vars@[i]).var == vvars[i] by {
            assert(crate::dependencies::dep_views(value_vars@)[i] == value_vars@[i]@);
        }
    }
    let target_var = env.get_variable(target);
    proof {
        assert(env.variable_valid(env.spec_variables()[target.index() as int]));
    }
    let target_deps = target_var.dependencies();
    let mut dep_subs = Substitutions::new();
    let mut idx: usize = 0;
    let mut j: usize = 0;
    while j < target_deps.len()
        invariant
            env.wf(),
            env.valid_items(target_deps@),
            target_deps@ == env.var(target).spec_dependencies(),
            entry == (target, value),
            j <= target_deps@.len(),
            idx as int == (if j < value_vars@.len() { j as int } else { value_vars@.len() as int }),
            value_vars@.len() == vvars.len(),
            vvars == spec_value_vars(env, value),
            forall|i: int| 0 <= i < value_vars@.len() ==> (#[trigger] value_vars@[i]).var == vvars[i],
            value_deps@ == crate::dcc::spec_deps_of(env, env.spec_items().len(), Seq::empty(), value),
            dep_subs.wf(),
            dep_subs@ == dep_match(env, entry, j as nat),
            entries_ok(env, dep_subs@),
            forall|i: int| 0 <= i < j ==> !#[trigger] dep_fails(env, entry, i),
        decreases target_deps@.len() - j,
    {
        assert(env.valid_item(target_deps@[j as int]));
        let target_dep = target_deps[j].dereference(env);
        proof {
            crate::ecc::lemma_def_parts_valid(env, target_dep);
        }
        let dep_var = match env.definition(target_dep) {
            Definition::Resolvable(_) => {
                proof {
                    assert(dep_fails(env, entry, j as int));
                }
                return Err(ResolveError::Unresolved(UnresolvedItemError(target_dep)));
            },
            Definition::Variable(dv) => dv.0,
            _ => {
                proof {
                    assert(dep_fails(env, entry, j as int));
                }
                return Err(error_text("A dependency of a substituted variable is not a variable:".to_owned()));
            },
        };
        let ghost prev = dep_subs@;
        proof {
            assert(target_dep == spec_dereference(env, target_deps@[j as int]));
            assert(dep_target_var(env, env.var(entry.0).spec_dependencies()[j as int]) == Some(dep_var));
            assert(dep_subs@ == dep_match(env, entry, j as nat));
        }
        if idx < value_vars.len() {
            let existing = value_vars[idx].var;
            proof {
                assert(idx == j);
                assert(existing == vvars[j as int]);
            }
            idx += 1;
            if existing != dep_var && existing.0 < env.num_variables() {
                let desired = *env.get_variable(dep_var).item();
                proof {
                    assert(env.variable_valid(env.spec_variables()[dep_var.index() as int]));
                    crate::ecc::lemma_insert_if_absent_ok(env, dep_subs@, existing, desired);
                    crate::substitutions::lemma_entries_get(dep_subs@, existing);
                    if entry_keys(prev).contains(existing) {
                        let i = choose|i: int| 0 <= i < entry_keys(prev).len() && entry_keys(prev)[i] == existing;
                        assert(prev[i].0 == existing);
                    }
                    if dep_subs.spec_get(existing).is_none() {
                        assert(!entry_keys(prev).contains(existing));
                    }
                }
                if dep_subs.get(&existing).is_none() {
                    dep_subs.insert_no_replace(existing, desired);
                    assert(dep_subs@ == dep_match(env, entry, (j + 1) as nat));
                } else {
                    proof {
                        let i = choose|i: int| 0 <= i < prev.len() && (#[trigger] prev[i]).0 == existing;
                        assert(entry_keys(prev)[i] == existing);
                    }
                }
            } else {
                assert(dep_subs@ == dep_match(env, entry, (j + 1) as nat));
            }
        } else {
            match value_deps.error() {
                Some(e) => {
                    proof {
                        assert(dep_fails(env, entry, j as int));
                    }
                    return Err(ResolveError::Unresolved(e));
                },
                None => {},
            }
        }
        proof {
            assert(!dep_fails(env, entry, j as int));
            assert(dep_subs@ == dep_match(env, entry, (j + 1) as nat));
        }
        j += 1;
    }
    proof {
        if entry_fails(env, entry) {
            let w = choose|w: int| 0 <= w < env.var(entry.0).spec_dependencies().len() && #[trigger] dep_fails(env, entry, w);
            assert(!dep_fails(env, entry, w));
        }
    }
    Ok(dep_subs)
}

/// For each entry of `subs`, the substitution that makes its value's
/// dependencies those of the variable it is given to.
fn dep_match_all(env: &Environment, subs: &Substitutions) -> (r: Result<Vec<Substitutions>, ResolveError>)
    requires
        env.wf(),
        entries_ok(env, subs@),
    ensures
        r is Err <==> exists|k: int| 0 <= k < subs@.len() && #[trigger] entry_fails(env, subs@[k]),
        r matches Ok(v) ==> v@.len() == subs@.len() && forall|k: int|
            0 <= k < v@.len() ==> (#[trigger] v@[k]).wf() && v@[k]@ == matched_subs(env, subs@[k]) && entries_ok(
                env,
                v@[k]@,
            ),
{
    let mut all: Vec<Substitutions> = Vec::new();
    let mut k: usize = 0;
    while k < subs.len()
        invariant
            env.wf(),
            entries_ok(env, subs@),
            k <= subs@.len(),
            all@.len() == k,
            forall|i: int|
                0 <= i < k ==> (#[trigger] all@[i]).wf() && all@[i]@ == matched_subs(env, subs@[i]) && entries_ok(
                    env,
                    all@[i]@,
                ),
            forall|i: int| 0 <= i < k ==> !#[trigger] entry_fails(env, subs@[i]),
        decreases subs@.len() - k,
    {
        let (target, value) = subs.iter_entries()[k];
        proof {
            assert(subs@[k as int] == (target, value));
            assert(env.valid_item(subs@[k as int].1) && env.valid_var(subs@[k as int].0));
        }
        match entry_dep_match(env, target, value) {
            Ok(s) => {
                all.push(s);
            },
            Err(e) => {
                proof {
                    assert(entry_fails(env, subs@[k as int]));
                }
                return Err(e);
            },
        }
        k += 1;
    }
    Ok(all)
}

/// Makes the dependencies of each value match those of the variable it
/// replaces: where the value's `i`th dependency is not the variable's `i`th
/// one, the value gets that dependency replaced by the variable's.
fn resolve_dep_subs(env: &mut Environment, subs: &mut Substitutions) -> (r: Result<(), ResolveError>)
    requires
        old(env).wf(),
        no_placeholders(old(env)),
        old(subs).wf(),
        entries_ok(old(env), old(subs)@),
    ensures
        final(env).wf(),
        no_placeholders(final(env)),
        appended(old(env), final(env)),
        final(subs).wf(),
        entries_ok(final(env), final(subs)@),
        final(subs)@.len() == old(subs)@.len(),
        forall|i: int| 0 <= i < final(subs)@.len() ==> (#[trigger] final(subs)@[i]).0 == old(subs)@[i].0,
        r is Err <==> exists|k: int| 0 <= k < old(subs)@.len() && #[trigger] entry_fails(old(env), old(subs)@[k]),
        r is Ok ==> forall|i: int|
            0 <= i < old(subs)@.len() ==> crate::util::is_substituted(
                final(env),
                (#[trigger] final(subs)@[i]).1,
                old(subs)@[i].1,
                matched_subs(old(env), old(subs)@[i]),
            ),
{
    let ghost env0 = *env;
    let ghost subs0 = subs@;
    let all = match dep_match_all(env, subs) {
        Ok(a) => a,
        Err(e) => {
            return Err(e);
        },
    };
    let mut k: usize = 0;
    while k < subs.len()
        invariant
            env0.wf(),
            env.wf(),
            no_placeholders(env),
            appended(&env0, env),
            env0 == *old(env),
            subs0 == old(subs)@,
            entries_ok(&env0, subs0),
            subs.wf(),
            entries_ok(env, subs@),
            subs@.len() == subs0.len(),
            forall|i: int| 0 <= i < subs@.len() ==> (#[trigger] subs@[i]).0 == subs0[i].0,
            forall|i: int| k <= i < subs@.len() ==> (#[trigger] subs@[i]) == subs0[i],
            all@.len() == subs0.len(),
            forall|i: int|
                0 <= i < all@.len() ==> (#[trigger] all@[i]).wf() && all@[i]@ == matched_subs(&env0, subs0[i])
                    && entries_ok(&env0, all@[i]@),
            forall|i: int|
                0 <= i < k ==> crate::util::is_substituted(
                    env,
                    (#[trigger] subs@[i]).1,
                    subs0[i].1,
                    matched_subs(&env0, subs0[i]),
                ),
            k <= subs@.len(),
        decreases subs@.len() - k,
    {
        let value = subs.iter_entries()[k].1;
        proof {
            assert(subs@[k as int] == subs0[k as int]);
            assert(env0.valid_item(subs0[k as int].1));
        }
        if all[k].len() > 0 {
            let ghost before = *env;
            let ghost m = all@[k as int]@;
            proof {
                env0.lemma_valid_mono(env);
                assert(entries_ok(env, m));
            }
            let new_value = crate::util::unchecked_substitution(env, value, &all[k]);
            proof {
                crate::util::lemma_appended_trans(&env0, &before, env);
                before.lemma_valid_mono(env);
                env0.lemma_valid_mono(&before);
                assert(crate::util::is_substituted(env, new_value, value, m));
                assert forall|i: int| 0 <= i < k implies crate::util::is_substituted(
                    env,
                    (#[trigger] subs@[i]).1,
                    subs0[i].1,
                    matched_subs(&env0, subs0[i]),
                ) by {
                    assert(env0.valid_item(subs0[i].1));
                    crate::util::lemma_substituted_appended(&before, env, subs@[i].1, subs0[i].1, matched_subs(&env0, subs0[i]));
                }
                assert(env.valid_item(new_value));
            }
            let ghost subs_before = subs@;
            subs.set_value(k, new_value);
            proof {
                assert forall|i: int| 0 <= i < subs@.len() implies env.valid_item((#[trigger] subs@[i]).1)
                    && env.valid_var(subs@[i].0) by {
                    if i != k {
                        assert(subs@[i] == subs_before[i]);
                        assert(before.valid_item(subs_before[i].1));
                    }
                }
                assert(subs@[k as int].1 == new_value);
            }
        } else {
            proof {
                assert(all@[k as int]@.len() == 0);
            }
        }
        k += 1;
    }
    Ok(())
}

/// The entries a substitution gives, before the values' dependencies are
/// matched: the named ones, then the anonymous ones, given in order to the
/// dependencies of the base that are left.
pub open spec fn given_entries(env: &Environment, sub: RSubstitution, base: ItemPtr) -> Seq<(VariablePtr, ItemPtr)> {
    let named = named_entries(env, env.item(base).scope, sub.named_subs@);
    let rest = remove_vars(
        crate::dcc::spec_deps_of(env, env.spec_items().len(), Seq::empty(), sub.base).vars,
        entry_keys(named),
    );
    named + anonymous_entries(rest, sub.anonymous_subs@)
}

/// The values a substitution gives can be given: every name stands for a
/// variable of the base, nothing is given twice, no value is given by the
/// text of a requirement, and every anonymous value has a dependency left.
pub open spec fn given_ok(env: &Environment, sub: RSubstitution, base: ItemPtr) -> bool {
    let scope = env.item(base).scope;
    let named = named_entries(env, scope, sub.named_subs@);
    let rest = remove_vars(
        crate::dcc::spec_deps_of(env, env.spec_items().len(), Seq::empty(), sub.base).vars,
        entry_keys(named),
    );
    &&& named_ok(env, scope, sub.named_subs@, Seq::empty())
    &&& sub.named_proofs@.len() == 0
    &&& anonymous_ok(env, rest, sub.anonymous_subs@, named)
}

/// The invariants of the variables `keys`, in order: what a substitution
/// giving them values must justify, with the values put in.
pub open spec fn requirement_bases(env: &Environment, keys: Seq<VariablePtr>) -> Seq<ItemPtr>
    decreases keys.len(),
{
    if keys.len() == 0 {
        Seq::empty()
    } else {
        requirement_bases(env, keys.drop_last()) + env.var(keys.last()).spec_invariants()
    }
}

/// What a substitution to be resolved stands for: its base with the named
/// variables, then the remaining dependencies in order, replaced by the
/// given values, each value's dependencies made to match those of the
/// variable it replaces. The invariants of the replaced variables, with the
/// replacements made, are what must be justified for it.
pub fn resolve_substitution(env: &mut Environment, sub: &RSubstitution, this: ItemPtr) -> (r: Result<
    Definition,
    ResolveError,
>)
    requires
        old(env).wf(),
        no_placeholders(old(env)),
        old(env).valid_item(this),
        old(env).valid_item(sub.base),
        old(env).valid_items(crate::item::named_values(sub.named_subs@)),
        old(env).valid_items(sub.anonymous_subs@),
    ensures
        final(env).wf(),
        no_placeholders(final(env)),
        appended(old(env), final(env)),
        spec_deref_resolved(old(env), sub.base) matches Err(e) ==> r matches Err(ResolveError::Unresolved(e2)) && e2 == e,
        r matches Ok(def) ==> final(env).definition_valid(def),
        r matches Ok(def) ==> (def matches Definition::Substitution(d) && d.base == sub.base && d.subs@.len()
            == sub.named_subs@.len() + sub.anonymous_subs@.len() && final(env).set(d.invs).context == this
            && final(env).set(d.invs).statements@.len() == 0),
        r is Ok ==> sub.named_proofs@.len() == 0,
        spec_deref_resolved(old(env), sub.base) matches Ok(b) && !given_ok(old(env), *sub, b) ==> r is Err,
        r matches Ok(Definition::Substitution(d)) ==> spec_deref_resolved(old(env), sub.base) matches Ok(b)
            && entry_keys(d.subs@) == entry_keys(given_entries(old(env), *sub, b)),
        spec_deref_resolved(old(env), sub.base) matches Ok(b) ==> given_ok(old(env), *sub, b) ==> (r is Err <==> exists|
            k: int,
        |
            0 <= k < given_entries(old(env), *sub, b).len() && #[trigger] entry_fails(
                old(env),
                given_entries(old(env), *sub, b)[k],
            )),
        r matches Ok(Definition::Substitution(d)) ==> spec_deref_resolved(old(env), sub.base) matches Ok(b) && forall|
            i: int,
        |
            0 <= i < d.subs@.len() ==> crate::util::is_substituted(
                final(env),
                (#[trigger] d.subs@[i]).1,
                given_entries(old(env), *sub, b)[i].1,
                matched_subs(old(env), given_entries(old(env), *sub, b)[i]),
            ),
        r matches Ok(Definition::Substitution(d)) ==> ({
            let set = final(env).set(d.invs);
            let bases = requirement_bases(old(env), entry_keys(d.subs@));
            &&& set.required
            &&& !set.connected_to_root
            &&& set.set_justification is None
            &&& set.dependencies@.len() == 0
            &&& set.justification_requirements@.len() == bases.len()
            &&& forall|i: int|
                0 <= i < bases.len() ==> crate::util::is_substituted(
                    final(env),
                    #[trigger] set.justification_requirements@[i],
                    bases[i],
                    d.subs@,
                )
        }),
{
    let ghost env0 = *env;
    let base = match deref_resolved(env, sub.base) {
        Ok(b) => b,
        Err(e) => {
            return Err(ResolveError::Unresolved(e));
        },
    };
    let base_scope = env.get(base).scope;
    let mut subs = Substitutions::new();
    let mut remaining_deps = sub.base.get_dependencies(env);
    resolve_named_subs(env, base_scope, &sub.named_subs, &mut subs, &mut remaining_deps)?;
    if sub.named_proofs.len() > 0 {
        let (_, text, _) = &sub.named_proofs[0];
        let message = "The function has no requirement whose text matches \"".to_owned().concat(text.as_str()).concat(
            "\"",
        );
        return Err(error_text(message));
    }
    resolve_anonymous_subs(env, remaining_deps, &sub.anonymous_subs, &mut subs)?;
    let ghost given = subs@;
    proof {
        assert(given == given_entries(&env0, *sub, base));
    }
    resolve_dep_subs(env, &mut subs)?;
    let ghost env1 = *env;
    proof {
        assert(entry_keys(subs@) =~= entry_keys(given));
        assert(forall|i: int| 0 <= i < given.len() ==> env0.valid_item(#[trigger] given[i].1));
    }
    // What must be justified: each invariant of each replaced variable, with
    // the replacements made.
    let mut requirements: Vec<ItemPtr> = Vec::new();
    let entries_len = subs.len();
    let ghost keys = entry_keys(subs@);
    let mut k: usize = 0;
    while k < entries_len
        invariant
            env.wf(),
            no_placeholders(env),
            appended(&env1, env),
            appended(&env0, env),
            entries_len == subs@.len(),
            keys == entry_keys(subs@),
            subs.wf(),
            entries_ok(env, subs@),
            env.valid_items(requirements@),
            k <= entries_len,
            requirements@.len() == requirement_bases(&env0, keys.take(k as int)).len(),
            forall|i: int|
                0 <= i < requirements@.len() ==> crate::util::is_substituted(
                    env,
                    #[trigger] requirements@[i],
                    requirement_bases(&env0, keys.take(k as int))[i],
                    subs@,
                ),
        decreases entries_len - k,
    {
        let target = subs.iter_entries()[k].0;
        assert(env.valid_var(subs@[k as int].0));
        let target_var = env.get_variable(target);
        proof {
            assert(env.variable_valid(env.spec_variables()[target.index() as int]));
        }
        let invariants = crate::definitions::clone_slice(target_var.invariants());
        let ghost done = requirement_bases(&env0, keys.take(k as int));
        proof {
            assert(keys.take(k + 1).drop_last() =~= keys.take(k as int));
            assert(keys.take(k + 1).last() == target);
            assert(env.spec_variables() == env0.spec_variables());
            assert(requirement_bases(&env0, keys.take(k + 1)) == done + invariants@);
        }
        let mut m: usize = 0;
        while m < invariants.len()
            invariant
                env.wf(),
                no_placeholders(env),
                appended(&env1, env),
                appended(&env0, env),
                subs.wf(),
                entries_ok(env, subs@),
                env.valid_items(invariants@),
                env.valid_items(requirements@),
                m <= invariants@.len(),
                requirements@.len() == done.len() + m,
                forall|i: int|
                    0 <= i < requirements@.len() ==> crate::util::is_substituted(
                        env,
                        #[trigger] requirements@[i],
                        (done + invariants@)[i],
                        subs@,
                    ),
            decreases invariants@.len() - m,
        {
            assert(env.valid_item(invariants@[m as int]));
            let ghost before = *env;
            let requirement = crate::util::unchecked_substitution(env, invariants[m], &subs);
            proof {
                before.lemma_valid_mono(env);
                crate::util::lemma_appended_trans(&env1, &before, env);
                crate::util::lemma_appended_trans(&env0, &before, env);
                assert forall|i: int| 0 <= i < subs@.len() implies env.valid_item((#[trigger] subs@[i]).1)
                    && env.valid_var(subs@[i].0) by {
                    assert(before.valid_item(subs@[i].1));
                }
                assert forall|i: int| 0 <= i < invariants@.len() implies env.valid_item(#[trigger] invariants@[i]) by {
                    assert(before.valid_item(invariants@[i]));
                }
                assert forall|i: int| 0 <= i < requirements@.len() implies env.valid_item(#[trigger] requirements@[i]) by {
                    assert(before.valid_item(requirements@[i]));
                }
                if requirement.index() < before.spec_items().len() {
                    assert(before.valid_item(requirement));
                }
            }
            let ghost reqs_before = requirements@;
            requirements.push(requirement);
            proof {
                assert forall|i: int| 0 <= i < requirements@.len() implies env.valid_item(#[trigger] requirements@[i]) by {
                    if i < reqs_before.len() {
                        assert(requirements@[i] == reqs_before[i]);
                    }
                }
                assert((done + invariants@)[done.len() + m] == invariants@[m as int]);
                assert forall|i: int| 0 <= i < requirements@.len() implies crate::util::is_substituted(
                    env,
                    #[trigger] requirements@[i],
                    (done + invariants@)[i],
                    subs@,
                ) by {
                    if i < reqs_before.len() {
                        assert(requirements@[i] == reqs_before[i]);
                        crate::util::lemma_substituted_appended(&before, env, reqs_before[i], (done + invariants@)[i], subs@);
                    }
                }
            }
            m += 1;
        }
        k += 1;
    }
    let set = InvariantSet {
        context: this,
        statements: Vec::new(),
        justification_requirements: requirements,
        dependencies: Vec::new(),
        set_justification: None,
        connected_to_root: false,
        required: true,
    };
    let ghost before = *env;
    proof {
        env0.lemma_valid_mono(env);
    }
    let invs = env.push_invariant_set(set);
    proof {
        before.lemma_valid_mono(env);
        crate::util::lemma_appended_trans(&env0, &before, env);
        assert forall|i: int| 0 <= i < env.spec_items().len() implies !((#[trigger] env.spec_items()[i]).definition is Placeholder) by {
            assert(env.spec_items()[i] == before.spec_items()[i]);
        }
        assert forall|i: int| 0 <= i < subs@.len() implies env.valid_item((#[trigger] subs@[i]).1) && env.valid_var(
            subs@[i].0,
        ) by {
            assert(before.valid_item(subs@[i].1));
        }
    }
    proof {
        assert(keys.take(k as int) =~= keys);
        assert forall|i: int| 0 <= i < requirements@.len() implies crate::util::is_substituted(
            env,
            #[trigger] env.set(invs).justification_requirements@[i],
            requirement_bases(&env0, keys)[i],
            subs@,
        ) by {
            assert(env.set(invs).justification_requirements@[i] == requirements@[i]);
            crate::util::lemma_substituted_appended(&before, env, requirements@[i], requirement_bases(&env0, keys)[i], subs@);
        }
    }
    proof {
        crate::util::lemma_appended_trans(&env1, &before, env);
        assert forall|i: int| 0 <= i < subs@.len() implies crate::util::is_substituted(
            env,
            (#[trigger] subs@[i]).1,
            given[i].1,
            matched_subs(&env0, given[i]),
        ) by {
            crate::util::lemma_substituted_appended(&env1, env, subs@[i].1, given[i].1, matched_subs(&env0, given[i]));
        }
    }
    let def = DSubstitution::new(sub.base, subs, invs);
    proof {
        crate::util::lemma_substitution_valid(env, def);
    }
    Ok(Definition::Substitution(def))
}

/// What `left from right` stands for: the dex of `right` with the variable
/// that the language item `x` stands for replaced by `left`, with nothing to
/// justify.
pub fn resolve_from(env: &mut Environment, from: &RFrom) -> (r: Result<Definition, ResolveError>)
    requires
        old(env).wf(),
        old(env).valid_item(from.left),
        old(env).valid_item(from.right),
        old(env).spec_get_language_item("x"@) is Some,
        old(env).item(from.right).from_dex is None ==> dex_language_items_defined(old(env), from.right) && dex_supported(
            old(env),
            from.right,
        ),
        spec_deref_resolved(old(env), old(env).spec_get_language_item("x"@)->0) matches Ok(d) ==> old(env).def(
            d,
        ) is Variable,
    ensures
        final(env).wf(),
        appended_but_dex(old(env), final(env), from.right),
        final(env).item(from.right).from_dex is Some,
        old(env).item(from.right).from_dex matches Some(d) ==> final(env).item(from.right).from_dex == Some(d),
        no_placeholders(old(env)) ==> no_placeholders(final(env)),
        spec_deref_resolved(old(env), old(env).spec_get_language_item("x"@)->0) matches Err(e) ==> r matches Err(
            ResolveError::Unresolved(e2),
        ) && e2 == e,
        spec_deref_resolved(old(env), old(env).spec_get_language_item("x"@)->0) matches Ok(xd) ==> (
        old(env).def(xd) matches Definition::Variable(dv) && r matches Ok(Definition::Substitution(s))
            && Some(s.base) == final(env).item(from.right).from_dex && s.subs@ == seq![(dv.0, from.left)]
            && final(env).set(s.invs).context == s.base && final(env).set(s.invs).statements@.len() == 0
            && final(env).set(s.invs).justification_requirements@.len() == 0),
        r matches Ok(def) ==> final(env).definition_valid(def),
{
    let ghost env0 = *env;
    let x = match env.get_language_item("x") {
        Some(x) => x,
        None => {
            proof {
                assert(false);
            }
            return Err(ResolveError::Placeholder);
        },
    };
    let base = from.right.get_from_dex(env);
    proof {
        assert(same_definitions(&env0, env)) by {
            assert forall|i: int| 0 <= i < env0.spec_items().len() implies (#[trigger] env.spec_items()[i]).definition
                == env0.spec_items()[i].definition by {
                if i == from.right.index() {
                    assert(env.item(from.right).definition == env0.item(from.right).definition);
                }
            }
        }
        lemma_dereference_same(&env0, env, x);
        crate::deref::lemma_stop_exists(&env0, x);
        let n = choose|n: nat| crate::deref::chain_stops_at(&env0, x, n);
        crate::deref::lemma_deref_steps_valid(&env0, x, n);
        let d = spec_dereference(&env0, x);
        assert(env.spec_items()[d.index() as int].definition == env0.spec_items()[d.index() as int].definition);
    }
    let xd = match deref_resolved(env, x) {
        Ok(d) => d,
        Err(e) => {
            return Err(ResolveError::Unresolved(e));
        },
    };
    let var = match env.definition(xd) {
        Definition::Variable(dv) => dv.0,
        _ => {
            proof {
                assert(false);
            }
            return Err(ResolveError::Placeholder);
        },
    };
    let mut subs = Substitutions::new();
    subs.insert_no_replace(var, from.left);
    let ghost env2 = *env;
    proof {
        crate::ecc::lemma_def_parts_valid(env, xd);
        assert(entries_ok(env, subs@));
    }
    let def = DSubstitution::new_unchecked(env, base, subs);
    proof {
        if no_placeholders(&env0) {
            assert forall|i: int| 0 <= i < env.spec_items().len() implies !((#[trigger] env.spec_items()[i]).definition is Placeholder) by {
                assert(env.spec_items()[i] == env2.spec_items()[i]);
                if i < env0.spec_items().len() {
                    assert(env2.spec_items()[i].definition == env0.spec_items()[i].definition);
                }
            }
        }
    }
    Ok(Definition::Substitution(def))
}

/// Some item of the environment is a placeholder.
pub fn has_placeholders(env: &Environment) -> (r: bool)
    ensures
        r == !no_placeholders(env),
{
    let n = env.num_items();
    let mut i: usize = 0;
    while i < n
        invariant
            n == env.spec_items().len(),
            i <= n,
            forall|j: int| 0 <= j < i ==> !((#[trigger] env.spec_items()[j]).definition is Placeholder),
        decreases n - i,
    {
        if let Definition::Placeholder(_) = env.definition(ItemPtr(i)) {
            return true;
        }
        i += 1;
    }
    false
}

/// What resolving `left from right` needs: the language item `x`, which
/// stands for a variable where it is resolved, and what making a dex for
/// `right` needs where it has none yet.
pub open spec fn from_ready(env: &Environment, f: RFrom) -> bool {
    &&& env.spec_get_language_item("x"@) is Some
    &&& env.item(f.right).from_dex is None ==> dex_language_items_defined(env, f.right) && dex_supported(env, f.right)
    &&& spec_deref_resolved(env, env.spec_get_language_item("x"@)->0) matches Ok(d) ==> env.def(d) is Variable
}

fn check_from_ready(env: &Environment, f: RFrom) -> (r: bool)
    requires
        env.wf(),
        env.valid_item(f.right),
    ensures
        r == from_ready(env, f),
{
    let x = match env.get_language_item("x") {
        Some(x) => x,
        None => {
            return false;
        },
    };
    if env.get(f.right).from_dex.is_none() {
        if !crate::from::check_dex_language_items(env, f.right) {
            return false;
        }
        if let Definition::Variable(dv) = env.definition(f.right) {
            proof {
                crate::ecc::lemma_def_parts_valid(env, f.right);
            }
            if env.get_variable(dv.0).dependencies().len() > 0 {
                return false;
            }
        }
    }
    match deref_resolved(env, x) {
        Ok(d) => match env.definition(d) {
            Definition::Variable(_) => true,
            _ => false,
        },
        Err(_) => true,
    }
}

/// Resolving left every item of `old` with its definition and scope, and
/// every variable and invariant set in place, only adding new ones.
pub open spec fn resolution_frame(old: &Environment, new: &Environment) -> bool {
    &&& new.spec_items().len() >= old.spec_items().len()
    &&& forall|i: int|
        0 <= i < old.spec_items().len() ==> (#[trigger] new.spec_items()[i]).definition == old.spec_items()[i].definition
            && new.spec_items()[i].scope == old.spec_items()[i].scope
    &&& new.spec_variables().len() >= old.spec_variables().len()
    &&& forall|i: int| 0 <= i < old.spec_variables().len() ==> #[trigger] new.spec_variables()[i] == old.spec_variables()[i]
    &&& new.spec_sets().len() >= old.spec_sets().len()
    &&& forall|i: int| 0 <= i < old.spec_sets().len() ==> #[trigger] new.spec_sets()[i] == old.spec_sets()[i]
    &&& new.spec_language_items() == old.spec_language_items()
    &&& no_placeholders(old) ==> no_placeholders(new)
}

/// What the item `item`, still to be resolved in `old`, resolves to, `new`
/// being the environment after resolving.
pub open spec fn resolution_outcome(old: &Environment, new: &Environment, item: ItemPtr, res: Result<
    Definition,
    ResolveError,
>) -> bool {
    match old.def(item) {
        Definition::Resolvable(d) => match d.0 {
            Resolvable::Identifier(id) => {
                match spec_lookup_ident(old, old.item(item).scope, id.0@, n_items(old) as nat) {
                    Some(x) => res == Ok::<Definition, ResolveError>(Definition::Other(DOther { other: x })),
                    None => res matches Err(ResolveError::Diagnostic(_)),
                }
            },
            Resolvable::NamedMember(m) => {
                match spec_extract_member(old, m.base, m.member_name@, n_items(old) as nat) {
                    Ok(Some(x)) => res == Ok::<Definition, ResolveError>(Definition::Other(DOther { other: x })),
                    Ok(None) => res matches Err(ResolveError::Diagnostic(_)),
                    Err(e) => res == Err::<Definition, ResolveError>(ResolveError::Unresolved(e)),
                }
            },
            Resolvable::Variable(v) => {
                &&& res matches Ok(Definition::Other(o))
                &&& new.valid_item(res->Ok_0->Other_0.other)
                &&& res->Ok_0->Other_0.other.index() == old.spec_items().len()
                &&& new.def(res->Ok_0->Other_0.other) matches Definition::Variable(dv)
                &&& new.def(res->Ok_0->Other_0.other)->Variable_0.0.index() == old.spec_variables().len()
                &&& new.spec_variables()[old.spec_variables().len() as int].spec_invariants() == v.invariants@
                &&& new.spec_variables()[old.spec_variables().len() as int].spec_dependencies() == v.dependencies@
                &&& new.spec_variables()[old.spec_variables().len() as int].spec_order() == v.order
                &&& new.item(res->Ok_0->Other_0.other).scope == old.item(item).scope
            },
            Resolvable::Placeholder(_) => res == Err::<Definition, ResolveError>(ResolveError::Placeholder),
            Resolvable::Substitution(sub) => if !no_placeholders(old) {
                res == Err::<Definition, ResolveError>(ResolveError::Placeholder)
            } else {
                &&& spec_deref_resolved(old, sub.base) matches Err(e) ==> res == Err::<Definition, ResolveError>(
                    ResolveError::Unresolved(e),
                )
                &&& res matches Ok(def) ==> (def matches Definition::Substitution(ds) && ds.base == sub.base
                    && ds.subs@.len() == sub.named_subs@.len() + sub.anonymous_subs@.len() && new.set(ds.invs).context
                    == item && new.set(ds.invs).statements@.len() == 0)
                &&& res is Ok ==> sub.named_proofs@.len() == 0
                &&& (spec_deref_resolved(old, sub.base) matches Ok(b) && !given_ok(old, sub, b)) ==> res is Err
                &&& res matches Ok(Definition::Substitution(ds)) ==> (spec_deref_resolved(old, sub.base) matches Ok(b)
                    && entry_keys(ds.subs@) == entry_keys(given_entries(old, sub, b)))
                &&& spec_deref_resolved(old, sub.base) matches Ok(b) ==> given_ok(old, sub, b) ==> (res is Err <==> exists|
                    k: int,
                |
                    0 <= k < given_entries(old, sub, b).len() && #[trigger] entry_fails(
                        old,
                        given_entries(old, sub, b)[k],
                    ))
            },
            Resolvable::From(f) => if !from_ready(old, f) {
                res matches Err(ResolveError::Diagnostic(_))
            } else {
                &&& new.item(f.right).from_dex is Some
                &&& old.item(f.right).from_dex matches Some(dx) ==> new.item(f.right).from_dex == Some(dx)
                &&& spec_deref_resolved(old, old.spec_get_language_item("x"@)->0) matches Err(e) ==> res
                    == Err::<Definition, ResolveError>(ResolveError::Unresolved(e))
                &&& spec_deref_resolved(old, old.spec_get_language_item("x"@)->0) matches Ok(xd) ==> (old.def(
                    xd,
                ) matches Definition::Variable(dv) && res matches Ok(Definition::Substitution(ds)) && Some(ds.base)
                    == new.item(f.right).from_dex && ds.subs@ == seq![(dv.0, f.left)] && new.set(ds.invs).context
                    == ds.base && new.set(ds.invs).statements@.len() == 0
                    && new.set(ds.invs).justification_requirements@.len() == 0)
            },
        },
        _ => true,
    }
}

/// The items a definition still to be resolved refers to are items of the
/// environment.
proof fn lemma_resolvable_parts_valid(env: &Environment, p: ItemPtr)
    requires
        env.wf(),
        env.valid_item(p),
    ensures
        env.scope_valid(env.item(p).scope),
        env.def(p) matches Definition::Resolvable(d) ==> match d.0 {
            Resolvable::NamedMember(m) => env.valid_item(m.base),
            Resolvable::Variable(v) => env.valid_items(v.invariants@) && env.valid_items(v.dependencies@),
            Resolvable::Substitution(sub) => env.valid_item(sub.base) && env.valid_items(
                crate::item::named_values(sub.named_subs@),
            ) && env.valid_items(sub.anonymous_subs@),
            Resolvable::From(f) => env.valid_item(f.left) && env.valid_item(f.right),
            _ => true,
        },
{
    assert(env.item_valid(env.spec_items()[p.index() as int]));
    let c = crate::item::content_items(env.def(p));
    assert(env.valid_items(c));
    if let Definition::Resolvable(d) = env.def(p) {
        match d.0 {
            Resolvable::NamedMember(m) => {
                assert(c[0] == m.base);
            },
            Resolvable::Variable(v) => {
                let n = v.invariants@.len();
                assert forall|i: int| 0 <= i < n implies env.valid_item(#[trigger] v.invariants@[i]) by {
                    assert(c[i] == v.invariants@[i]);
                }
                assert forall|i: int| 0 <= i < v.dependencies@.len() implies env.valid_item(
                    #[trigger] v.dependencies@[i],
                ) by {
                    assert(c[n + i] == v.dependencies@[i]);
                }
            },
            Resolvable::Substitution(sub) => {
                let nv = crate::item::named_values(sub.named_subs@);
                let pv = crate::item::named_values(sub.named_proofs@);
                assert(c[0] == sub.base);
                assert forall|i: int| 0 <= i < nv.len() implies env.valid_item(#[trigger] nv[i]) by {
                    assert(c[1 + i] == nv[i]);
                }
                assert forall|i: int| 0 <= i < sub.anonymous_subs@.len() implies env.valid_item(
                    #[trigger] sub.anonymous_subs@[i],
                ) by {
                    assert(c[1 + nv.len() + pv.len() + i] == sub.anonymous_subs@[i]);
                }
            },
            Resolvable::From(f) => {
                assert(c[0] == f.left);
                assert(c[1] == f.right);
            },
            _ => {},
        }
    }
}

/// Resolving left every item of `old` but `item` with its definition, and
/// every item with its scope; variables and invariant sets were only
/// added.
pub open spec fn resolved_frame(old: &Environment, new: &Environment, item: ItemPtr) -> bool {
    &&& new.spec_items().len() >= old.spec_items().len()
    &&& forall|i: int|
        0 <= i < old.spec_items().len() && i != item.index() ==> (#[trigger] new.spec_items()[i]).definition
            == old.spec_items()[i].definition
    &&& forall|i: int| 0 <= i < old.spec_items().len() ==> (#[trigger] new.spec_items()[i]).scope == old.spec_items()[i].scope
    &&& new.spec_variables().len() >= old.spec_variables().len()
    &&& forall|i: int| 0 <= i < old.spec_variables().len() ==> #[trigger] new.spec_variables()[i] == old.spec_variables()[i]
    &&& new.spec_sets().len() >= old.spec_sets().len()
    &&& forall|i: int| 0 <= i < old.spec_sets().len() ==> #[trigger] new.spec_sets()[i] == old.spec_sets()[i]
    &&& new.spec_language_items() == old.spec_language_items()
    &&& no_placeholders(old) ==> no_placeholders(new)
}

/// What the item `item`, still to be resolved, resolves to: its new
/// definition, or why it cannot be resolved yet.
#[verifier::spinoff_prover]
pub fn resolve_definition(env: &mut Environment, item: ItemPtr) -> (r: Result<Definition, ResolveError>)
    requires
        old(env).wf(),
        old(env).valid_item(item),
        old(env).def(item) is Resolvable,
    ensures
        final(env).wf(),
        resolved_frame(old(env), final(env), item),
        final(env).def(item) == old(env).def(item),
        resolution_outcome(old(env), final(env), item, r),
        r matches Ok(def) ==> final(env).definition_valid(def) && !(def is Resolvable) && !(def is Placeholder),
        old(env).def(item) matches Definition::Resolvable(d) ==> d.0 matches Resolvable::Substitution(sub) ==> r matches Ok(
            Definition::Substitution(ds),
        ) ==> spec_deref_resolved(old(env), sub.base) matches Ok(b) && ({
            let given = given_entries(old(env), sub, b);
            let set = final(env).set(ds.invs);
            let bases = requirement_bases(old(env), entry_keys(ds.subs@));
            &&& forall|i: int|
                0 <= i < ds.subs@.len() ==> crate::util::is_substituted(
                    final(env),
                    (#[trigger] ds.subs@[i]).1,
                    given[i].1,
                    matched_subs(old(env), given[i]),
                )
            &&& set.required
            &&& !set.connected_to_root
            &&& set.set_justification is None
            &&& set.dependencies@.len() == 0
            &&& set.justification_requirements@.len() == bases.len()
            &&& forall|i: int|
                0 <= i < bases.len() ==> crate::util::is_substituted(
                    final(env),
                    #[trigger] set.justification_requirements@[i],
                    bases[i],
                    ds.subs@,
                )
        }),
        (old(env).def(item) matches Definition::Resolvable(d) && (d.0 is Identifier || d.0 is NamedMember
            || d.0 is Placeholder || (d.0 is Substitution && !no_placeholders(old(env))) || (d.0 matches Resolvable::From(
            f,
        ) && !from_ready(old(env), f)))) ==> *final(env) == *old(env),
{
    let ghost env0 = *env;
    proof {
        lemma_resolvable_parts_valid(env, item);
    }
    let scope = env.get(item).scope;
    let res = match env.definition(item) {
        Definition::Resolvable(d) => d.resolvable(),
        _ => {
            proof {
                assert(false);
            }
            return Err(ResolveError::Placeholder);
        },
    };
    match res {
        Resolvable::Identifier(id) => {
            let name = id.0.clone();
            proof {
                crate::scopes::lemma_lookup_valid(env, scope, name@, n_items(env) as nat);
            }
            let r = resolve_identifier(env, &name, scope);
            proof {
                if let Ok(Definition::Other(d)) = r {
                    assert(env.valid_item(d.other));
                    assert(crate::item::content_items(Definition::Other(d)) =~= seq![d.other]);
                    assert(env.definition_valid(Definition::Other(d)));
                }
                assert(r matches Ok(def) ==> env.definition_valid(def));
            }
            r
        },
        Resolvable::NamedMember(m) => {
            let member = RNamedMember { base: m.base, member_name: m.member_name.clone(), position: m.position };
            let r = resolve_named_member(env, &member);
            proof {
                if let Ok(Definition::Other(d)) = r {
                    assert(env.valid_item(d.other));
                    assert(crate::item::content_items(Definition::Other(d)) =~= seq![d.other]);
                }
            }
            r
        },
        Resolvable::Variable(v) => {
            let variable = RVariable {
                invariants: clone_items(&v.invariants),
                dependencies: clone_items(&v.dependencies),
                order: v.order,
            };
            let r = resolve_variable(env, &variable, scope);
            proof {
                if let Definition::Other(d) = r {
                    assert(crate::item::content_items(Definition::Other(d)) =~= seq![d.other]);
                }
                assert(env.spec_items()[item.index() as int] == env0.spec_items()[item.index() as int]);
            }
            Ok(r)
        },
        Resolvable::Placeholder(_) => Err(ResolveError::Placeholder),
        Resolvable::Substitution(sub) => {
            let sub = RSubstitution {
                base: sub.base,
                position: sub.position,
                named_subs: crate::definitions::clone_named(&sub.named_subs),
                named_proofs: crate::definitions::clone_named(&sub.named_proofs),
                anonymous_subs: clone_items(&sub.anonymous_subs),
            };
            if has_placeholders(env) {
                return Err(ResolveError::Placeholder);
            }
            let r = resolve_substitution(env, &sub, item);
            proof {
                assert(env.spec_items()[item.index() as int] == env0.spec_items()[item.index() as int]);
                let orig = env0.def(item)->Resolvable_0.0->Substitution_0;
                if let Ok(b) = spec_deref_resolved(&env0, sub.base) {
                    assert(given_entries(&env0, orig, b) == given_entries(&env0, sub, b));
                    assert(given_ok(&env0, orig, b) == given_ok(&env0, sub, b));
                }
            }
            r
        },
        Resolvable::From(f) => {
            let f = *f;
            if !check_from_ready(env, f) {
                return Err(error_text("The language items needed to resolve `from` are missing or unresolved".to_owned()));
            }
            let r = resolve_from(env, &f);
            proof {
                assert(env.spec_items()[item.index() as int].definition == env0.spec_items()[item.index() as int].definition);
                assert(env.spec_items()[item.index() as int].scope == env0.spec_items()[item.index() as int].scope);
            }
            r
        },
    }
}

/// Resolves `item` if it is still to be resolved: `Ok(true)` when it was
/// given its resolved definition, `Ok(false)` when there was nothing to
/// resolve, and the reason when it cannot be resolved yet or is a
/// placeholder. No kind of resolution looks at the recursion limit.
pub fn resolve(env: &mut Environment, item: ItemPtr, _limit: u32) -> (r: Result<bool, ResolveError>)
    requires
        old(env).wf(),
        old(env).valid_item(item),
    ensures
        final(env).wf(),
        resolved_frame(old(env), final(env), item),
        !(old(env).def(item) is Resolvable) ==> *final(env) == *old(env),
        old(env).def(item) is Placeholder ==> r == Err::<bool, ResolveError>(ResolveError::Placeholder),
        !(old(env).def(item) is Resolvable) && !(old(env).def(item) is Placeholder) ==> r == Ok::<
            bool,
            ResolveError,
        >(false),
        old(env).def(item) is Resolvable ==> resolution_outcome(
            old(env),
            final(env),
            item,
            match r {
                Ok(_) => Ok(final(env).def(item)),
                Err(e) => Err(e),
            },
        ),
        old(env).def(item) is Resolvable ==> (r is Ok <==> r == Ok::<bool, ResolveError>(true)),
        r == Ok::<bool, ResolveError>(true) ==> !(final(env).def(item) is Resolvable) && !(final(env).def(
            item,
        ) is Placeholder),
        r is Err ==> final(env).def(item) == old(env).def(item),
{
    let ghost env0 = *env;
    proof {
        lemma_resolvable_parts_valid(env, item);
    }
    match env.definition(item) {
        Definition::Resolvable(_) => {},
        Definition::Placeholder(_) => {
            return Err(ResolveError::Placeholder);
        },
        _ => {
            return Ok(false);
        },
    }
    match resolve_definition(env, item) {
        Ok(def) => {
            let ghost mid = *env;
            proof {
                assert(mid.valid_item(item));
            }
            env.redefine(item, def);
            proof {
                assert(env.spec_sets() == mid.spec_sets());
                assert(env.spec_variables() == mid.spec_variables());
                if let Definition::Resolvable(d) = env0.def(item) {
                    match d.0 {
                        Resolvable::Variable(_) => {
                            assert(resolution_outcome(&env0, &mid, item, Ok(def)));
                            assert(def is Other);
                            let o = def->Other_0.other;
                            assert(o.index() == env0.spec_items().len());
                            assert(mid.valid_item(o));
                            assert(env.spec_items()[o.index() as int] == mid.spec_items()[o.index() as int]);
                        },
                        Resolvable::From(f) => {
                            assert(env.item(f.right).from_dex == mid.item(f.right).from_dex);
                        },
                        _ => {},
                    }
                }
                assert(resolution_outcome(&env0, &mid, item, Ok(def)));
                assert(env.def(item) == def);
                assert(resolution_outcome(&env0, env, item, Ok(def)));
                if no_placeholders(&env0) {
                    assert forall|i: int| 0 <= i < env.spec_items().len() implies !((#[trigger] env.spec_items()[i]).definition is Placeholder) by {
                        if i != item.index() {
                            assert(env.spec_items()[i] == mid.spec_items()[i]);
                        }
                    }
                }
                assert forall|i: int| 0 <= i < env0.spec_items().len() implies (#[trigger] env.spec_items()[i]).scope
                    == env0.spec_items()[i].scope by {
                    assert(mid.spec_items()[i].scope == env0.spec_items()[i].scope);
                }
                assert forall|i: int| 0 <= i < env0.spec_items().len() && i != item.index() implies (
                #[trigger] env.spec_items()[i]).definition == env0.spec_items()[i].definition by {
                    assert(mid.spec_items()[i].definition == env0.spec_items()[i].definition);
                }
            }
            Ok(true)
        },
        Err(e) => Err(e),
    }
}

/// Resolving left every item that was not still to be resolved with its
/// definition, every item with its scope, and every variable and invariant
/// set in place.
pub open spec fn resolve_all_frame(old: &Environment, new: &Environment) -> bool {
    &&& new.spec_items().len() >= old.spec_items().len()
    &&& forall|i: int|
        0 <= i < old.spec_items().len() && !(old.spec_items()[i].definition is Resolvable) ==> (
        #[trigger] new.spec_items()[i]).definition == old.spec_items()[i].definition
    &&& forall|i: int| 0 <= i < old.spec_items().len() ==> (#[trigger] new.spec_items()[i]).scope == old.spec_items()[i].scope
    &&& new.spec_variables().len() >= old.spec_variables().len()
    &&& forall|i: int| 0 <= i < old.spec_variables().len() ==> #[trigger] new.spec_variables()[i] == old.spec_variables()[i]
    &&& new.spec_sets().len() >= old.spec_sets().len()
    &&& forall|i: int| 0 <= i < old.spec_sets().len() ==> #[trigger] new.spec_sets()[i] == old.spec_sets()[i]
    &&& new.spec_language_items() == old.spec_language_items()
    &&& no_placeholders(old) ==> no_placeholders(new)
}

proof fn lemma_frame_step(a: &Environment, b: &Environment, c: &Environment, item: ItemPtr)
    requires
        resolve_all_frame(a, b),
        resolved_frame(b, c, item),
        b.valid_item(item),
        !(b.def(item) is Resolvable) ==> *c == *b,
    ensures
        resolve_all_frame(a, c),
{
    assert forall|i: int|
        0 <= i < a.spec_items().len() && !(a.spec_items()[i].definition is Resolvable) implies (
        #[trigger] c.spec_items()[i]).definition == a.spec_items()[i].definition by {
        assert(b.spec_items()[i].definition == a.spec_items()[i].definition);
    }
    assert forall|i: int| 0 <= i < a.spec_items().len() implies (#[trigger] c.spec_items()[i]).scope
        == a.spec_items()[i].scope by {
        assert(b.spec_items()[i].scope == a.spec_items()[i].scope);
    }
    assert forall|i: int| 0 <= i < a.spec_variables().len() implies #[trigger] c.spec_variables()[i]
        == a.spec_variables()[i] by {
        assert(b.spec_variables()[i] == a.spec_variables()[i]);
    }
    assert forall|i: int| 0 <= i < a.spec_sets().len() implies #[trigger] c.spec_sets()[i] == a.spec_sets()[i] by {
        assert(b.spec_sets()[i] == a.spec_sets()[i]);
    }
}

proof fn lemma_frame_refl(e: &Environment)
    ensures
        resolve_all_frame(e, e),
{
}

/// Every item of `old` that is still to be resolved in `new` has the
/// definition it had in `old`.
pub open spec fn kept_unresolved(old: &Environment, new: &Environment) -> bool {
    forall|i: int|
        0 <= i < old.spec_items().len() && (#[trigger] new.spec_items()[i]).definition is Resolvable
            ==> new.spec_items()[i].definition == old.spec_items()[i].definition
}

/// The item numbered `i`, to be resolved in `old`, was resolved between
/// `old` and `new`: in an environment `a` it had its definition from `old`,
/// and resolving it there gave, in `b`, the definition it has in `new`.
pub open spec fn resolved_between(old: &Environment, new: &Environment, i: int) -> bool {
    exists|a: Environment, b: Environment|
        resolve_all_frame(old, &a) && resolve_all_frame(&b, new) && a.spec_items()[i].definition
            == old.spec_items()[i].definition && #[trigger] resolution_outcome(
            &a,
            &b,
            ItemPtr(i as usize),
            Ok(new.spec_items()[i].definition),
        )
}

/// Every item of `old` to be resolved there that is resolved in `new` holds
/// what its resolution gave.
pub open spec fn resolved_by(old: &Environment, new: &Environment) -> bool {
    forall|i: int|
        0 <= i < old.spec_items().len() && old.spec_items()[i].definition is Resolvable && !((
        #[trigger] new.spec_items()[i]).definition is Resolvable) ==> resolved_between(old, new, i)
}

/// One call of `resolve` on `x`, taking `before` to `after` with result
/// `res`, keeps what has been resolved, and what has not, accounted for.
proof fn lemma_resolve_step(
    old: &Environment,
    before: &Environment,
    after: &Environment,
    x: ItemPtr,
    res: Result<bool, ResolveError>,
)
    requires
        resolve_all_frame(old, before),
        resolved_by(old, before),
        kept_unresolved(old, before),
        before.valid_item(x),
        resolved_frame(before, after, x),
        !(before.def(x) is Resolvable) ==> *after == *before,
        before.def(x) is Resolvable ==> resolution_outcome(
            before,
            after,
            x,
            match res {
                Ok(_) => Ok(after.def(x)),
                Err(e) => Err(e),
            },
        ),
        before.def(x) is Resolvable ==> (res is Ok <==> res == Ok::<bool, ResolveError>(true)),
        res == Ok::<bool, ResolveError>(true) ==> !(after.def(x) is Resolvable),
        res is Err ==> after.def(x) == before.def(x),
    ensures
        resolve_all_frame(before, after),
        resolve_all_frame(old, after),
        resolved_by(old, after),
        kept_unresolved(old, after),
{
    lemma_frame_refl(before);
    lemma_frame_step(before, before, after, x);
    lemma_frame_step(old, before, after, x);
    lemma_frame_refl(after);
    assert forall|i: int|
        0 <= i < old.spec_items().len() && (#[trigger] after.spec_items()[i]).definition is Resolvable implies after.spec_items()[i].definition
            == old.spec_items()[i].definition by {
        if i != x.index() {
            assert(after.spec_items()[i].definition == before.spec_items()[i].definition);
        } else if before.def(x) is Resolvable {
            assert(after.def(x) == before.def(x));
        }
    }
    assert forall|i: int|
        0 <= i < old.spec_items().len() && old.spec_items()[i].definition is Resolvable && !((
        #[trigger] after.spec_items()[i]).definition is Resolvable) implies resolved_between(old, after, i) by {
        if i == x.index() && before.spec_items()[i].definition is Resolvable {
            assert(res == Ok::<bool, ResolveError>(true));
            assert(ItemPtr(i as usize) == x);
            assert(before.spec_items()[i].definition == old.spec_items()[i].definition);
            assert(resolution_outcome(before, after, ItemPtr(i as usize), Ok(after.spec_items()[i].definition)));
        } else {
            if i != x.index() {
                assert(after.spec_items()[i].definition == before.spec_items()[i].definition);
            }
            assert(before.spec_items()[i].definition == after.spec_items()[i].definition);
            assert(resolved_between(old, before, i));
            let (a, b) = choose|a: Environment, b: Environment|
                resolve_all_frame(old, &a) && resolve_all_frame(&b, before) && a.spec_items()[i].definition
                    == old.spec_items()[i].definition && #[trigger] resolution_outcome(
                    &a,
                    &b,
                    ItemPtr(i as usize),
                    Ok(before.spec_items()[i].definition),
                );
            lemma_frame_trans(&b, before, after);
            assert(resolution_outcome(&a, &b, ItemPtr(i as usize), Ok(after.spec_items()[i].definition)));
        }
    }
}

/// What was resolved up to `mid`, and from `mid` to `new`, was resolved
/// from `old` to `new`.
proof fn lemma_resolved_by_trans(old: &Environment, mid: &Environment, new: &Environment)
    requires
        resolve_all_frame(old, mid),
        resolved_by(old, mid),
        kept_unresolved(old, mid),
        resolve_all_frame(mid, new),
        resolved_by(mid, new),
        kept_unresolved(mid, new),
    ensures
        resolve_all_frame(old, new),
        resolved_by(old, new),
        kept_unresolved(old, new),
{
    lemma_frame_trans(old, mid, new);
    assert forall|i: int|
        0 <= i < old.spec_items().len() && (#[trigger] new.spec_items()[i]).definition is Resolvable implies new.spec_items()[i].definition
            == old.spec_items()[i].definition by {
        if !(mid.spec_items()[i].definition is Resolvable) {
            assert(new.spec_items()[i].definition == mid.spec_items()[i].definition);
        }
    }
    assert forall|i: int|
        0 <= i < old.spec_items().len() && old.spec_items()[i].definition is Resolvable && !((
        #[trigger] new.spec_items()[i]).definition is Resolvable) implies resolved_between(old, new, i) by {
        if !(mid.spec_items()[i].definition is Resolvable) {
            assert(new.spec_items()[i].definition == mid.spec_items()[i].definition);
            assert(resolved_between(old, mid, i));
            let (a, b) = choose|a: Environment, b: Environment|
                resolve_all_frame(old, &a) && resolve_all_frame(&b, mid) && a.spec_items()[i].definition
                    == old.spec_items()[i].definition && #[trigger] resolution_outcome(
                    &a,
                    &b,
                    ItemPtr(i as usize),
                    Ok(mid.spec_items()[i].definition),
                );
            lemma_frame_trans(&b, mid, new);
            assert(resolution_outcome(&a, &b, ItemPtr(i as usize), Ok(new.spec_items()[i].definition)));
        } else {
            assert(mid.spec_items()[i].definition == old.spec_items()[i].definition);
            assert(resolved_between(mid, new, i));
            let (a, b) = choose|a: Environment, b: Environment|
                resolve_all_frame(mid, &a) && resolve_all_frame(&b, new) && a.spec_items()[i].definition
                    == mid.spec_items()[i].definition && #[trigger] resolution_outcome(
                    &a,
                    &b,
                    ItemPtr(i as usize),
                    Ok(new.spec_items()[i].definition),
                );
            lemma_frame_trans(old, mid, &a);
            assert(resolution_outcome(&a, &b, ItemPtr(i as usize), Ok(new.spec_items()[i].definition)));
        }
    }
}

/// The items among `items` that are still to be resolved, in order.
#[verifier::spinoff_prover]
fn unresolved_among(env: &Environment, items: &Vec<ItemPtr>) -> (r: Vec<ItemPtr>)
    requires
        env.valid_items(items@),
    ensures
        env.valid_items(r@),
        forall|y: ItemPtr| r@.contains(y) <==> items@.contains(y) && env.def(y) is Resolvable,
{
    let mut r: Vec<ItemPtr> = Vec::new();
    let mut i: usize = 0;
    while i < items.len()
        invariant
            env.valid_items(items@),
            env.valid_items(r@),
            i <= items@.len(),
            forall|y: ItemPtr| r@.contains(y) <==> items@.take(i as int).contains(y) && env.def(y) is Resolvable,
        decreases items@.len() - i,
    {
        let p = items[i];
        assert(env.valid_item(items@[i as int]));
        let ghost before = r@;
        if p.is_unresolved(env) {
            r.push(p);
        }
        let ghost t = items@.take(i + 1);
        proof {
            assert(items@.take(i + 1) =~= items@.take(i as int).push(p));
            assert(t[i as int] == p);
            assert forall|y: ItemPtr| r@.contains(y) <==> t.contains(y) && env.def(y) is Resolvable by {
                if r@.contains(y) {
                    let k = choose|k: int| 0 <= k < r@.len() && r@[k] == y;
                    if k < before.len() {
                        assert(before[k] == y);
                        assert(before.contains(y));
                        let j = choose|j: int| 0 <= j < i && items@.take(i as int)[j] == y;
                        assert(t[j] == y);
                    } else {
                        assert(y == p);
                    }
                }
                if t.contains(y) && env.def(y) is Resolvable {
                    let j = choose|j: int| 0 <= j < t.len() && t[j] == y;
                    if j < i {
                        assert(items@.take(i as int)[j] == y);
                        assert(before.contains(y));
                        let k = choose|k: int| 0 <= k < before.len() && before[k] == y;
                        assert(r@[k] == y);
                    } else {
                        assert(y == p);
                        assert(r@[r@.len() - 1] == p);
                    }
                }
            }
            assert forall|k: int| 0 <= k < r@.len() implies env.valid_item(#[trigger] r@[k]) by {
                if k < before.len() {
                    assert(r@[k] == before[k]);
                }
            }
        }
        i += 1;
        assert(items@.take(i as int) == t);
    }
    proof {
        assert(items@.take(i as int) =~= items@);
    }
    r
}

/// Adds `p` to `v` unless it is there already.
fn insert_new(v: &mut Vec<ItemPtr>, p: ItemPtr)
    ensures
        forall|y: ItemPtr| final(v)@.contains(y) <==> old(v)@.contains(y) || y == p,
        forall|k: int| 0 <= k < old(v)@.len() ==> final(v)@[k] == old(v)@[k],
        final(v)@.len() <= old(v)@.len() + 1,
        final(v)@.len() >= old(v)@.len(),
        forall|k: int| old(v)@.len() <= k < final(v)@.len() ==> final(v)@[k] == p,
{
    let mut i: usize = 0;
    while i < v.len()
        invariant
            i <= v@.len(),
            v@ == old(v)@,
            forall|k: int| 0 <= k < i ==> v@[k] != p,
        decreases v@.len() - i,
    {
        if v[i].is_same_instance_as(&p) {
            return;
        }
        i += 1;
    }
    v.push(p);
    proof {
        assert forall|y: ItemPtr| v@.contains(y) <==> old(v)@.contains(y) || y == p by {
            if v@.contains(y) && y != p {
                let k = choose|k: int| 0 <= k < v@.len() && v@[k] == y;
                assert(old(v)@[k] == y);
            }
            if old(v)@.contains(y) {
                let k = choose|k: int| 0 <= k < old(v)@.len() && old(v)@[k] == y;
                assert(v@[k] == y);
            }
            if y == p {
                assert(v@[v@.len() - 1] == p);
            }
        }
    }
}

/// Removes `p` from `v`.
#[verifier::spinoff_prover]
fn remove_all(v: &Vec<ItemPtr>, p: ItemPtr) -> (r: Vec<ItemPtr>)
    ensures
        forall|y: ItemPtr| r@.contains(y) <==> v@.contains(y) && y != p,
        forall|k: int| 0 <= k < r@.len() ==> v@.contains(#[trigger] r@[k]),
{
    let mut r: Vec<ItemPtr> = Vec::new();
    let mut i: usize = 0;
    while i < v.len()
        invariant
            i <= v@.len(),
            forall|y: ItemPtr| r@.contains(y) <==> v@.take(i as int).contains(y) && y != p,
            forall|k: int| 0 <= k < r@.len() ==> v@.contains(#[trigger] r@[k]),
        decreases v@.len() - i,
    {
        let q = v[i];
        let ghost before = r@;
        if !q.is_same_instance_as(&p) {
            r.push(q);
        }
        proof {
            assert(v@.take(i + 1) =~= v@.take(i as int).push(q));
            let t = v@.take(i + 1);
            assert(t[i as int] == q);
            assert forall|y: ItemPtr| r@.contains(y) <==> t.contains(y) && y != p by {
                if r@.contains(y) {
                    let k = choose|k: int| 0 <= k < r@.len() && r@[k] == y;
                    if k < before.len() {
                        assert(before[k] == y);
                        assert(before.contains(y));
                        let j = choose|j: int| 0 <= j < i && v@.take(i as int)[j] == y;
                        assert(t[j] == y);
                    } else {
                        assert(y == q);
                    }
                }
                if t.contains(y) && y != p {
                    let j = choose|j: int| 0 <= j < t.len() && t[j] == y;
                    if j < i {
                        assert(v@.take(i as int)[j] == y);
                        assert(before.contains(y));
                        let k = choose|k: int| 0 <= k < before.len() && before[k] == y;
                        assert(r@[k] == y);
                    } else {
                        assert(y == q);
                        assert(r@[r@.len() - 1] == q);
                    }
                }
            }
            assert forall|k: int| 0 <= k < r@.len() implies v@.contains(#[trigger] r@[k]) by {
                if k < before.len() {
                    assert(r@[k] == before[k]);
                } else {
                    assert(v@[i as int] == q);
                }
            }
        }
        i += 1;
    }
    proof {
        assert(v@.take(i as int) =~= v@);
    }
    r
}

/// The diagnostic reported for an item that could not be resolved.
/// `d` is the diagnostic that reports the failure `e`.
pub open spec fn is_problem_of(d: Diagnostic, e: ResolveError) -> bool {
    match e {
        ResolveError::Diagnostic(x) => d.lines@ == x.lines@,
        ResolveError::Unresolved(_) => d.lines@.len() == 1 && d.lines@[0]@
            == "This relies on something that could not be resolved"@,
        ResolveError::InvariantDeadEnd(t) => d.lines@.len() == 1 && d.lines@[0]@
            == "No invariant could be found that is needed here: "@ + t@,
        ResolveError::MaybeInvariantDoesNotExist => d.lines@.len() == 1 && d.lines@[0]@
            == "The search for an invariant needed here went too deep"@,
        ResolveError::Placeholder => d.lines@.len() == 1 && d.lines@[0]@ == "This is a placeholder and cannot be resolved"@,
    }
}

fn problem_of(err: ResolveError) -> (d: Diagnostic)
    ensures
        is_problem_of(d, err),
{
    match err {
        ResolveError::Diagnostic(d) => d,
        ResolveError::Unresolved(_) => {
            let d = Diagnostic::new().with_text_error("This relies on something that could not be resolved".to_owned());
            d
        },
        ResolveError::InvariantDeadEnd(text) => {
            let d = Diagnostic::new().with_text_error(
                "No invariant could be found that is needed here: ".to_owned().concat(text.as_str()),
            );
            d
        },
        ResolveError::MaybeInvariantDoesNotExist => {
            let d = Diagnostic::new().with_text_error(
                "The search for an invariant needed here went too deep".to_owned(),
            );
            d
        },
        ResolveError::Placeholder => {
            let d = Diagnostic::new().with_text_error("This is a placeholder and cannot be resolved".to_owned());
            d
        },
    }
}

/// `p` is one of `v`.
fn contains_item(v: &Vec<ItemPtr>, p: ItemPtr) -> (r: bool)
    ensures
        r == v@.contains(p),
{
    let mut i: usize = 0;
    while i < v.len()
        invariant
            i <= v@.len(),
            forall|k: int| 0 <= k < i ==> v@[k] != p,
        decreases v@.len() - i,
    {
        if v[i].is_same_instance_as(&p) {
            return true;
        }
        i += 1;
    }
    false
}

/// One pass of resolution over `unresolved`: each item is resolved if it
/// can be; what is left to resolve is returned, with the unresolved items
/// contained in the items resolved, and whether every failure was for want
/// of an invariant.
fn resolve_pass(env: &mut Environment, unresolved: &Vec<ItemPtr>, limit: u32) -> (r: (Vec<ItemPtr>, bool))
    requires
        old(env).wf(),
        old(env).valid_items(unresolved@),
    ensures
        final(env).wf(),
        resolve_all_frame(old(env), final(env)),
        resolved_by(old(env), final(env)),
        kept_unresolved(old(env), final(env)),
        final(env).valid_items(r.0@),
{
    let ghost env0 = *env;
    let mut still: Vec<ItemPtr> = Vec::new();
    let mut all_dead_ends = true;
    let mut k: usize = 0;
    while k < unresolved.len()
        invariant
            env.wf(),
            resolve_all_frame(&env0, env),
            resolved_by(&env0, env),
            kept_unresolved(&env0, env),
            env0.valid_items(unresolved@),
            env.valid_items(still@),
            k <= unresolved@.len(),
        decreases unresolved@.len() - k,
    {
        let id = unresolved[k];
        assert(env0.valid_item(unresolved@[k as int]));
        let ghost before = *env;
        let res = resolve(env, id, limit);
        proof {
            lemma_resolve_step(&env0, &before, env, id, res);
            assert forall|i: int| 0 <= i < still@.len() implies env.valid_item(#[trigger] still@[i]) by {
                assert(before.valid_item(still@[i]));
            }
        }
        match res {
            Ok(true) => {
                still = remove_all(&still, id);
                proof {
                    assert forall|i: int| 0 <= i < still@.len() implies env.valid_item(#[trigger] still@[i]) by {
                        assert(still@.contains(still@[i]));
                    }
                }
                let deep = id.for_self_and_deep_contents(env);
                let deep_unresolved = unresolved_among(env, &deep);
                let mut j: usize = 0;
                while j < deep_unresolved.len()
                    invariant
                        env.valid_items(deep_unresolved@),
                        env.valid_items(still@),
                        j <= deep_unresolved@.len(),
                    decreases deep_unresolved@.len() - j,
                {
                    assert(env.valid_item(deep_unresolved@[j as int]));
                    let ghost prev = still@;
                    insert_new(&mut still, deep_unresolved[j]);
                    proof {
                        assert forall|i: int| 0 <= i < still@.len() implies env.valid_item(#[trigger] still@[i]) by {
                            if i < prev.len() {
                                assert(still@[i] == prev[i]);
                            }
                        }
                    }
                    j += 1;
                }
            },
            other => {
                if let Err(ResolveError::InvariantDeadEnd(_)) = other {
                } else {
                    all_dead_ends = false;
                }
                let ghost prev = still@;
                insert_new(&mut still, id);
                proof {
                    assert forall|i: int| 0 <= i < still@.len() implies env.valid_item(#[trigger] still@[i]) by {
                        if i < prev.len() {
                            assert(still@[i] == prev[i]);
                        }
                    }
                }
            },
        }
        k += 1;
    }
    (still, all_dead_ends)
}

/// An item that is still to be resolved, or a placeholder.
pub open spec fn unresolved_item(env: &Environment, y: ItemPtr) -> bool {
    env.def(y) is Resolvable || env.def(y) is Placeholder
}

/// Where `item` is recorded among `failed`, which records it.
fn recorded_problem(failed: &Vec<(ItemPtr, Diagnostic)>, item: ItemPtr) -> (r: usize)
    requires
        exists|k: int| 0 <= k < failed@.len() && #[trigger] failed@[k].0 == item,
    ensures
        r < failed@.len() && failed@[r as int].0 == item,
{
    let mut i: usize = 0;
    while failed[i].0 != item
        invariant
            i < failed@.len(),
            exists|k: int| i <= k < failed@.len() && #[trigger] failed@[k].0 == item,
        decreases failed@.len() - i,
    {
        proof {
            let k = choose|k: int| i <= k < failed@.len() && #[trigger] failed@[k].0 == item;
            assert(k != i);
            assert(k < failed.len());
        }
        i += 1;
    }
    i
}

/// Resolving `y` failed with an error that `d` reports: in an environment
/// `a` between `old` and `new`, giving `b`, from which `new` follows.
pub open spec fn failed_between(old: &Environment, new: &Environment, y: ItemPtr, d: Diagnostic) -> bool {
    exists|a: Environment, b: Environment, e: ResolveError|
        resolve_all_frame(old, &a) && resolve_all_frame(&b, new) && #[trigger] resolution_outcome(&a, &b, y, Err(e))
            && is_problem_of(d, e)
}

/// What `resolve_all` from `root` does, taking `old` to `new`: it only
/// resolves items, each to what its resolution gives; it succeeds exactly
/// when every item reachable from `root` is resolved; and otherwise it
/// reports one diagnostic for each reachable item still unresolved, that of
/// a resolution of it which failed during the call.
pub open spec fn resolve_all_outcome(old: &Environment, new: &Environment, root: ItemPtr, r: Result<(), Vec<Diagnostic>>) -> bool {
    &&& new.wf()
    &&& resolve_all_frame(old, new)
    &&& resolved_by(old, new)
    &&& kept_unresolved(old, new)
    &&& (r is Ok <==> forall|y: ItemPtr|
        #[trigger] crate::traversal::reachable(new, root, y) ==> !unresolved_item(new, y))
    &&& r matches Err(ps) ==> exists|ys: Seq<ItemPtr>|
        {
            &&& ys.len() == ps@.len()
            &&& ys.no_duplicates()
            &&& forall|i: int|
                0 <= i < ys.len() ==> crate::traversal::reachable(new, root, #[trigger] ys[i]) && unresolved_item(
                    new,
                    ys[i],
                ) && failed_between(old, new, ys[i], ps@[i])
            &&& forall|y: ItemPtr|
                #[trigger] crate::traversal::reachable(new, root, y) && unresolved_item(new, y) ==> ys.contains(y)
        }
}

/// Resolves everything `root` contains, directly or not. Passes are made
/// over what is still to be resolved, at most sixteen, stopping early
/// when every failure of a pass was for want of an invariant; then every
/// item reachable from `root` is resolved once more, depth first. The
/// problems are reported one for each item reachable from `root` that is
/// still unresolved, with the diagnostic of its last failed resolution.
/// `Ok` means that every item reachable from `root` is resolved.
pub fn resolve_all(env: &mut Environment, root: ItemPtr) -> (r: Result<(), Vec<Diagnostic>>)
    requires
        old(env).wf(),
        old(env).valid_item(root),
    ensures
        resolve_all_outcome(old(env), final(env), root, r),
{
    let ghost env0 = *env;
    let everything = root.for_self_and_deep_contents(env);
    let mut unresolved = unresolved_among(env, &everything);
    let mut limit: u32 = 0;
    while limit < 16
        invariant
            env.wf(),
            resolve_all_frame(&env0, env),
            resolved_by(&env0, env),
            kept_unresolved(&env0, env),
            env.valid_items(unresolved@),
            env.valid_item(root),
            limit <= 16,
        decreases 16 - limit,
    {
        let ghost before = *env;
        let (still, all_dead_ends) = resolve_pass(env, &unresolved, limit);
        proof {
            lemma_resolved_by_trans(&env0, &before, env);
        }
        unresolved = still;
        limit += 1;
        if all_dead_ends {
            break;
        }
    }
    // One more resolution of everything reachable, depth first, keeping the
    // diagnostic of each failure.
    let mut visited: Vec<ItemPtr> = Vec::new();
    let mut stack: Vec<ItemPtr> = Vec::new();
    stack.push(root);
    let mut failed: Vec<(ItemPtr, Diagnostic)> = Vec::new();
    // Each round visits an item not visited before, so the rounds are fewer
    // than the items of the environment, which a `usize` counts.
    let mut fuel: usize = usize::MAX;
    proof {
        assert(stack@[0] == root);
    }
    while stack.len() > 0
        invariant
            env.wf(),
            resolve_all_frame(&env0, env),
            resolved_by(&env0, env),
            kept_unresolved(&env0, env),
            forall|k: int| 0 <= k < failed@.len() ==> #[trigger] failed_between(&env0, env, failed@[k].0, failed@[k].1),
            env.valid_item(root),
            env.valid_items(visited@),
            env.valid_items(stack@),
            visited@.no_duplicates(),
            stack@.no_duplicates(),
            forall|i: int, k: int| 0 <= i < visited@.len() && 0 <= k < stack@.len() ==> visited@[i] != stack@[k],
            visited@.contains(root) || stack@.contains(root),
            forall|v: ItemPtr, c: ItemPtr|
                visited@.contains(v) && #[trigger] crate::traversal::contains_directly(env, v, c) ==> visited@.contains(c)
                    || stack@.contains(c),
            forall|v: ItemPtr|
                #[trigger] visited@.contains(v) && unresolved_item(env, v) ==> exists|k: int|
                    0 <= k < failed@.len() && #[trigger] failed@[k].0 == v,
            fuel + visited@.len() == usize::MAX,
        decreases fuel,
    {
        proof {
            let all = visited@ + stack@;
            assert(all.no_duplicates()) by {
                assert forall|a: int, b: int| 0 <= a < all.len() && 0 <= b < all.len() && a != b implies all[a] != all[b] by {
                    if a < visited@.len() && b < visited@.len() {
                        assert(visited@[a] != visited@[b]);
                    } else if a >= visited@.len() && b >= visited@.len() {
                        assert(stack@[a - visited@.len()] != stack@[b - visited@.len()]);
                    } else if a < visited@.len() {
                        assert(visited@[a] != stack@[b - visited@.len()]);
                    } else {
                        assert(visited@[b] != stack@[a - visited@.len()]);
                    }
                }
            }
            assert forall|i: int| 0 <= i < all.len() implies env.valid_item(#[trigger] all[i]) by {
                if i < visited@.len() {
                    assert(all[i] == visited@[i]);
                } else {
                    assert(all[i] == stack@[i - visited@.len()]);
                }
            }
            crate::deref::lemma_distinct_bounded(all, env.spec_items().len());
            env.lemma_items_len_bounded();
        }
        fuel -= 1;
        let ghost stack0 = stack@;
        let x = stack.pop().unwrap();
        proof {
            assert(x == stack0[stack0.len() - 1]);
            assert(env.valid_item(x));
            assert forall|i: int| 0 <= i < stack@.len() implies env.valid_item(#[trigger] stack@[i]) by {
                assert(stack@[i] == stack0[i]);
            }
            assert(!visited@.contains(x)) by {
                if visited@.contains(x) {
                    let i = choose|i: int| 0 <= i < visited@.len() && visited@[i] == x;
                    assert(visited@[i] != stack0[stack0.len() - 1]);
                }
            }
            assert(!stack@.contains(x)) by {
                if stack@.contains(x) {
                    let i = choose|i: int| 0 <= i < stack@.len() && stack@[i] == x;
                    assert(stack0[i] == x);
                }
            }
        }
        let ghost before = *env;
        let ghost visited0 = visited@;
        let ghost stack1 = stack@;
        let ghost failed0 = failed@;
        let res = resolve(env, x, 0);
        proof {
            lemma_resolve_step(&env0, &before, env, x, res);
            before.lemma_valid_mono(env);
            assert forall|k: int| 0 <= k < failed@.len() implies #[trigger] failed_between(&env0, env, failed@[k].0, failed@[k].1) by {
                assert(failed_between(&env0, &before, failed@[k].0, failed@[k].1));
                let (a, b, e) = choose|a: Environment, b: Environment, e: ResolveError|
                    resolve_all_frame(&env0, &a) && resolve_all_frame(&b, &before) && #[trigger] resolution_outcome(
                        &a,
                        &b,
                        failed@[k].0,
                        Err(e),
                    ) && is_problem_of(failed@[k].1, e);
                lemma_frame_trans(&b, &before, env);
            }
        }
        match res {
            Err(e) => {
                let d = problem_of(e);
                proof {
                    lemma_frame_refl(env);
                    assert(resolution_outcome(&before, env, x, Err(e)));
                    assert(failed_between(&env0, env, x, d));
                }
                let ghost f0 = failed@;
                failed.push((x, d));
                proof {
                    assert forall|k: int| 0 <= k < failed@.len() implies #[trigger] failed_between(&env0, env, failed@[k].0, failed@[k].1) by {
                        if k < f0.len() {
                            assert(failed@[k] == f0[k]);
                        }
                    }
                }
            },
            Ok(_) => {},
        }
        proof {
            // What is unresolved among the items visited before has not changed,
            // and `x` is unresolved only where its resolution failed.
            assert forall|k: int| 0 <= k < failed0.len() implies #[trigger] failed@[k] == failed0[k] by {}
            assert(!unresolved_item(env, x) || (failed@.len() > 0 && failed@[failed@.len() - 1].0 == x));
        }
        visited.push(x);
        let contents = x.visit_contents(env);
        proof {
            crate::ecc::lemma_def_parts_valid(env, x);
            assert forall|i: int| 0 <= i < visited@.len() implies env.valid_item(#[trigger] visited@[i]) by {
                if i < visited0.len() {
                    assert(before.valid_item(visited0[i]));
                }
            }
            assert forall|i: int| 0 <= i < stack@.len() implies env.valid_item(#[trigger] stack@[i]) by {
                assert(before.valid_item(stack1[i]));
            }
            assert forall|i: int, k: int| 0 <= i < visited@.len() && 0 <= k < stack@.len() implies visited@[i] != stack@[k] by {
                if i < visited0.len() {
                    assert(visited0[i] != stack0[k]);
                } else {
                    assert(stack@[k] == stack0[k]);
                    assert(stack0[k] != stack0[stack0.len() - 1]);
                }
            }
            assert(visited@.no_duplicates()) by {
                assert forall|a: int, b: int| 0 <= a < visited@.len() && 0 <= b < visited@.len() && a != b implies visited@[a] != visited@[b] by {
                    if a < visited0.len() && b < visited0.len() {
                        assert(visited0[a] != visited0[b]);
                    } else if a < visited0.len() {
                        assert(visited0.contains(visited0[a]));
                    } else if b < visited0.len() {
                        assert(visited0.contains(visited0[b]));
                    }
                }
            }
        }
        let mut j: usize = contents.len();
        while j > 0
            invariant
                env.wf(),
                j <= contents@.len(),
                contents@ == crate::item::definition_contents(env.def(x)),
                env.valid_items(crate::item::content_items(env.def(x))),
                env.valid_items(stack@),
                stack@.no_duplicates(),
                forall|i: int, k: int| 0 <= i < visited@.len() && 0 <= k < stack@.len() ==> visited@[i] != stack@[k],
                forall|k: int|
                    j <= k < contents@.len() ==> visited@.contains(
                        #[trigger] crate::item::content_items(env.def(x))[k],
                    ) || stack@.contains(crate::item::content_items(env.def(x))[k]),
                forall|y: ItemPtr| stack1.contains(y) ==> #[trigger] stack@.contains(y),
            decreases j,
        {
            j -= 1;
            let c = contents[j].1;
            proof {
                assert(crate::item::content_items(env.def(x))[j as int] == c);
            }
            if !contains_item(&visited, c) && !contains_item(&stack, c) {
                let ghost prev = stack@;
                stack.push(c);
                proof {
                    assert forall|i: int| 0 <= i < stack@.len() implies env.valid_item(#[trigger] stack@[i]) by {
                        if i < prev.len() {
                            assert(stack@[i] == prev[i]);
                        }
                    }
                    assert(stack@.no_duplicates()) by {
                        assert forall|a: int, b: int| 0 <= a < stack@.len() && 0 <= b < stack@.len() && a != b implies stack@[a] != stack@[b] by {
                            if a < prev.len() && b < prev.len() {
                                assert(prev[a] != prev[b]);
                            } else if a < prev.len() {
                                assert(prev.contains(prev[a]));
                            } else if b < prev.len() {
                                assert(prev.contains(prev[b]));
                            }
                        }
                    }
                    assert forall|i: int, k: int| 0 <= i < visited@.len() && 0 <= k < stack@.len() implies visited@[i] != stack@[k] by {
                        if k < prev.len() {
                            assert(stack@[k] == prev[k]);
                        } else {
                            assert(visited@.contains(visited@[i]));
                        }
                    }
                    assert forall|k: int|
                        j <= k < contents@.len() implies visited@.contains(
                            #[trigger] crate::item::content_items(env.def(x))[k],
                        ) || stack@.contains(crate::item::content_items(env.def(x))[k]) by {
                        let y = crate::item::content_items(env.def(x))[k];
                        if k == j {
                            assert(stack@[prev.len() as int] == c);
                        } else if prev.contains(y) {
                            let w = choose|w: int| 0 <= w < prev.len() && prev[w] == y;
                            assert(stack@[w] == y);
                        }
                    }
                    assert forall|y: ItemPtr| stack1.contains(y) implies #[trigger] stack@.contains(y) by {
                        assert(prev.contains(y));
                        let w = choose|w: int| 0 <= w < prev.len() && prev[w] == y;
                        assert(stack@[w] == y);
                    }
                }
            }
        }
        proof {
            assert(visited@ == visited0.push(x));
            assert(visited@.contains(root) || stack@.contains(root)) by {
                if root == x {
                    assert(visited@[visited0.len() as int] == x);
                } else if visited0.contains(root) {
                    let w = choose|w: int| 0 <= w < visited0.len() && visited0[w] == root;
                    assert(visited@[w] == root);
                } else {
                    assert(stack0.contains(root));
                    let w = choose|w: int| 0 <= w < stack0.len() && stack0[w] == root;
                    assert(stack1[w] == root);
                    assert(stack1.contains(root));
                }
            }
            assert forall|v: ItemPtr, c: ItemPtr|
                visited@.contains(v) && #[trigger] crate::traversal::contains_directly(env, v, c) implies visited@.contains(c)
                    || stack@.contains(c) by {
                if v == x {
                    let k = choose|k: int| 0 <= k < crate::item::content_items(env.def(x)).len()
                        && crate::item::content_items(env.def(x))[k] == c;
                } else {
                    let w = choose|w: int| 0 <= w < visited@.len() && visited@[w] == v;
                    assert(visited0[w] == v);
                    assert(visited0.contains(v));
                    assert(before.valid_item(v));
                    assert(env.def(v) == before.def(v));
                    assert(crate::traversal::contains_directly(&before, v, c));
                    if visited0.contains(c) {
                        let w2 = choose|w2: int| 0 <= w2 < visited0.len() && visited0[w2] == c;
                        assert(visited@[w2] == c);
                    } else {
                        assert(stack0.contains(c));
                        if c == x {
                            assert(visited@[visited0.len() as int] == x);
                        } else {
                            let w2 = choose|w2: int| 0 <= w2 < stack0.len() && stack0[w2] == c;
                            assert(w2 < stack0.len() - 1);
                            assert(stack1[w2] == c);
                            assert(stack1.contains(c));
                        }
                    }
                }
            }
            assert forall|v: ItemPtr|
                #[trigger] visited@.contains(v) && unresolved_item(env, v) implies exists|k: int|
                    0 <= k < failed@.len() && #[trigger] failed@[k].0 == v by {
                if v == x {
                    assert(failed@[failed@.len() - 1].0 == x);
                } else {
                    let w = choose|w: int| 0 <= w < visited@.len() && visited@[w] == v;
                    assert(visited0[w] == v);
                    assert(visited0.contains(v));
                    assert(before.valid_item(v));
                    assert(env.def(v) == before.def(v));
                    let k = choose|k: int| 0 <= k < failed0.len() && #[trigger] failed0[k].0 == v;
                    assert(failed@[k] == failed0[k]);
                }
            }
        }
    }
    proof {
        assert forall|a: ItemPtr, c: ItemPtr|
            visited@.contains(a) && crate::traversal::contains_directly(env, a, c) implies visited@.contains(c) by {
            assert(!stack@.contains(c));
        }
        assert(visited@.contains(root));
        assert forall|y: ItemPtr|
            crate::traversal::reachable(env, root, y) && unresolved_item(env, y) implies exists|k: int|
                0 <= k < failed@.len() && #[trigger] failed@[k].0 == y by {
            crate::traversal::lemma_closed_contains_reachable(env, visited@, root, y);
        }
    }
    // The report: one problem for each reachable item still unresolved.
    let reach = root.for_self_and_deep_contents(env);
    proof {
        assert forall|y: ItemPtr| #[trigger] reach@.contains(y) && unresolved_item(env, y) implies exists|kk: int|
            0 <= kk < failed@.len() && #[trigger] failed@[kk].0 == y by {
            assert(crate::traversal::reachable(env, root, y));
        }
    }
    let mut problems: Vec<Diagnostic> = Vec::new();
    let ghost mut ys: Seq<ItemPtr> = Seq::empty();
    let mut k: usize = 0;
    while k < reach.len()
        invariant
            env.wf(),
            reach@.no_duplicates(),
            forall|i: int| 0 <= i < reach@.len() ==> env.valid_item(#[trigger] reach@[i]),
            k <= reach@.len(),
            problems@.len() == ys.len(),
            ys.no_duplicates(),
            forall|i: int|
                0 <= i < ys.len() ==> unresolved_item(env, #[trigger] ys[i]) && exists|m: int|
                    0 <= m < k && reach@[m] == ys[i],
            forall|m: int| 0 <= m < k && unresolved_item(env, #[trigger] reach@[m]) ==> ys.contains(reach@[m]),
            forall|kk: int| 0 <= kk < failed@.len() ==> #[trigger] failed_between(&env0, env, failed@[kk].0, failed@[kk].1),
            forall|i: int| 0 <= i < ys.len() ==> failed_between(&env0, env, #[trigger] ys[i], problems@[i]),
            forall|y: ItemPtr|
                #[trigger] reach@.contains(y) && unresolved_item(env, y) ==> exists|kk: int|
                    0 <= kk < failed@.len() && #[trigger] failed@[kk].0 == y,
        decreases reach@.len() - k,
    {
        let y = reach[k];
        let is_unresolved = match env.definition(y) {
            Definition::Resolvable(_) => true,
            Definition::Placeholder(_) => true,
            _ => false,
        };
        if is_unresolved {
            proof {
                assert(reach@.contains(y) && unresolved_item(env, y)) by {
                    assert(reach@[k as int] == y);
                }
            }
            let j = recorded_problem(&failed, y);
            let d = failed[j].1.copy();
            proof {
                assert(failed_between(&env0, env, failed@[j as int].0, failed@[j as int].1));
                let (a, b, e) = choose|a: Environment, b: Environment, e: ResolveError|
                    resolve_all_frame(&env0, &a) && resolve_all_frame(&b, env) && #[trigger] resolution_outcome(
                        &a,
                        &b,
                        y,
                        Err(e),
                    ) && is_problem_of(failed@[j as int].1, e);
                assert(is_problem_of(d, e));
                assert(failed_between(&env0, env, y, d));
            }
            let ghost p0 = problems@;
            proof {
                assert forall|i: int| 0 <= i < ys.len() implies ys[i] != y by {
                    let m = choose|m: int| 0 <= m < k && reach@[m] == ys[i];
                    assert(reach@[m] != reach@[k as int]);
                }
                let ys0 = ys;
                ys = ys.push(y);
                assert(ys.no_duplicates()) by {
                    assert forall|a: int, b: int| 0 <= a < ys.len() && 0 <= b < ys.len() && a != b implies ys[a] != ys[b] by {
                        if a < ys0.len() && b < ys0.len() {
                            assert(ys0[a] != ys0[b]);
                        }
                    }
                }
                assert forall|i: int| 0 <= i < ys.len() implies unresolved_item(env, #[trigger] ys[i]) && exists|m: int|
                    0 <= m < k + 1 && reach@[m] == ys[i] by {
                    if i < ys0.len() {
                        assert(ys[i] == ys0[i]);
                        let m = choose|m: int| 0 <= m < k && reach@[m] == ys0[i];
                    } else {
                        assert(reach@[k as int] == ys[i]);
                    }
                }
                assert forall|m: int| 0 <= m < k + 1 && unresolved_item(env, #[trigger] reach@[m]) implies ys.contains(reach@[m]) by {
                    if m < k {
                        assert(ys0.contains(reach@[m]));
                        let w = choose|w: int| 0 <= w < ys0.len() && ys0[w] == reach@[m];
                        assert(ys[w] == ys0[w]);
                    } else {
                        assert(ys[ys0.len() as int] == y);
                    }
                }
            }
            problems.push(d);
            proof {
                assert forall|i: int| 0 <= i < ys.len() implies failed_between(&env0, env, #[trigger] ys[i], problems@[i]) by {
                    if i < p0.len() {
                        assert(problems@[i] == p0[i]);
                    } else {
                        assert(problems@[i] == d);
                        assert(ys[i] == y);
                    }
                }
            }
        } else {
            proof {
                assert forall|i: int| 0 <= i < ys.len() implies unresolved_item(env, #[trigger] ys[i]) && exists|m: int|
                    0 <= m < k + 1 && reach@[m] == ys[i] by {
                    let m = choose|m: int| 0 <= m < k && reach@[m] == ys[i];
                }
            }
        }
        k += 1;
    }
    proof {
        assert forall|i: int| 0 <= i < ys.len() implies crate::traversal::reachable(env, root, #[trigger] ys[i])
            && unresolved_item(env, ys[i]) by {
            let m = choose|m: int| 0 <= m < reach@.len() && reach@[m] == ys[i];
            assert(reach@.contains(ys[i]));
        }
        assert forall|y: ItemPtr| #[trigger] crate::traversal::reachable(env, root, y) && unresolved_item(env, y) implies ys.contains(y) by {
            assert(reach@.contains(y));
            let m = choose|m: int| 0 <= m < reach@.len() && reach@[m] == y;
        }
    }
    if problems.len() == 0 {
        proof {
            assert forall|y: ItemPtr| #[trigger] crate::traversal::reachable(env, root, y) implies !unresolved_item(env, y) by {
                if unresolved_item(env, y) {
                    assert(ys.contains(y));
                }
            }
        }
        Ok(())
    } else {
        proof {
            let y = ys[0];
            assert(crate::traversal::reachable(env, root, y) && unresolved_item(env, y));
        }
        Err(problems)
    }
}

proof fn lemma_frame_trans(a: &Environment, b: &Environment, c: &Environment)
    requires
        resolve_all_frame(a, b),
        resolve_all_frame(b, c),
    ensures
        resolve_all_frame(a, c),
{
    assert forall|i: int|
        0 <= i < a.spec_items().len() && !(a.spec_items()[i].definition is Resolvable) implies (
        #[trigger] c.spec_items()[i]).definition == a.spec_items()[i].definition by {
        assert(b.spec_items()[i].definition == a.spec_items()[i].definition);
    }
    assert forall|i: int| 0 <= i < a.spec_items().len() implies (#[trigger] c.spec_items()[i]).scope
        == a.spec_items()[i].scope by {
        assert(b.spec_items()[i].scope == a.spec_items()[i].scope);
    }
    assert forall|i: int| 0 <= i < a.spec_variables().len() implies #[trigger] c.spec_variables()[i]
        == a.spec_variables()[i] by {
        assert(b.spec_variables()[i] == a.spec_variables()[i]);
    }
    assert forall|i: int| 0 <= i < a.spec_sets().len() implies #[trigger] c.spec_sets()[i] == a.spec_sets()[i] by {
        assert(b.spec_sets()[i] == a.spec_sets()[i]);
    }
}

/// Appending items and sets changes no definition.
pub proof fn lemma_appended_frame(a: &Environment, b: &Environment)
    requires
        appended(a, b),
        no_placeholders(a) ==> no_placeholders(b),
    ensures
        resolve_all_frame(a, b),
{
    assert forall|i: int|
        0 <= i < a.spec_items().len() && !(a.spec_items()[i].definition is Resolvable) implies (
        #[trigger] b.spec_items()[i]).definition == a.spec_items()[i].definition by {}
}

/// `r` is what adding the decision builtin applied to `args` as a new item,
/// in the scope of `args[0]`, and resolving it with `resolve_all` gives,
/// taking `old` to `new`: the new item is numbered after the builtin item
/// made for it; the call succeeds with that item exactly when resolving it
/// does, and otherwise fails with what resolving it reported.
pub open spec fn decision_made(old: &Environment, new: &Environment, args: Seq<ItemPtr>, r: Result<
    ItemPtr,
    Vec<Diagnostic>,
>) -> bool {
    let p = ItemPtr((old.spec_items().len() + 1) as usize);
    &&& r matches Ok(q) ==> q == p
    &&& exists|mid: Environment|
        {
            &&& resolve_all_frame(old, &mid)
            &&& mid.spec_items().len() == old.spec_items().len() + 2
            &&& mid.item(p).scope == old.item(args[0]).scope
            &&& #[trigger] crate::from::is_call_of(&mid, p, crate::definitions::BuiltinFunction::Decision, args)
            &&& resolve_all_outcome(
                &mid,
                new,
                p,
                match r {
                    Ok(_) => Ok::<(), Vec<Diagnostic>>(()),
                    Err(ps) => Err(ps),
                },
            )
        }
}

/// Adds the decision `left` = `right` ? `when_equal` : `when_not_equal`,
/// written in the scope of `left`, and resolves it with everything it
/// contains.
pub fn decision(env: &mut Environment, left: ItemPtr, right: ItemPtr, when_equal: ItemPtr, when_not_equal: ItemPtr) -> (r:
    Result<ItemPtr, Vec<Diagnostic>>)
    requires
        old(env).wf(),
        old(env).valid_item(left),
        old(env).valid_item(right),
        old(env).valid_item(when_equal),
        old(env).valid_item(when_not_equal),
        crate::builtins::params_defined(old(env), crate::definitions::BuiltinFunction::Decision),
    ensures
        final(env).wf(),
        resolve_all_frame(old(env), final(env)),
        r matches Ok(p) ==> p.index() == old(env).spec_items().len() + 1 && final(env).valid_item(p)
            && final(env).item(p).scope == old(env).item(left).scope && forall|y: ItemPtr|
            #[trigger] crate::traversal::reachable(final(env), p, y) ==> !(final(env).def(y) is Resolvable) && !(
            final(env).def(y) is Placeholder),
        decision_made(old(env), final(env), seq![left, right, when_equal, when_not_equal], r),
{
    let ghost env0 = *env;
    let scope = left.clone_scope(env);
    proof {
        assert(env.item_valid(env.spec_items()[left.index() as int]));
    }
    let call = crate::definitions::DBuiltinFunction::decision(
        env,
        left,
        right,
        when_equal,
        when_not_equal,
        Scope::Root,
        Position::placeholder(),
    );
    let ghost env1 = *env;
    proof {
        env0.lemma_valid_mono(env);
        assert(env.item_valid(env.spec_items()[left.index() as int]));
        let def = Definition::Resolvable(crate::definitions::DResolvable(Resolvable::Substitution(call)));
        let c = crate::item::content_items(def);
        assert(crate::item::named_values(call.named_subs@) =~= Seq::<ItemPtr>::empty());
        assert(crate::item::named_values(call.named_proofs@) =~= Seq::<ItemPtr>::empty());
        assert forall|i: int| 0 <= i < c.len() implies env.valid_item(#[trigger] c[i]) by {
            if i > 0 {
                assert(c[i] == call.anonymous_subs@[i - 1]);
            }
        }
    }
    let item = env.push_item(
        Definition::Resolvable(crate::definitions::DResolvable::new(Resolvable::Substitution(call))),
        scope,
    );
    let ghost env2 = *env;
    proof {
        if no_placeholders(&env0) {
            assert forall|i: int| 0 <= i < env.spec_items().len() implies !((#[trigger] env.spec_items()[i]).definition is Placeholder) by {
                if i < env1.spec_items().len() {
                    assert(env.spec_items()[i] == env1.spec_items()[i]);
                }
            }
        }
        assert(appended(&env1, env)) by {
            assert forall|i: int| 0 <= i < env1.spec_items().len() implies #[trigger] env.spec_items()[i] == env1.spec_items()[i] by {}
            assert forall|i: int| 0 <= i < env1.spec_sets().len() implies #[trigger] env.spec_sets()[i] == env1.spec_sets()[i] by {}
        }
        crate::util::lemma_appended_trans(&env0, &env1, env);
        lemma_appended_frame(&env0, env);
    }
    let r = resolve_all(env, item);
    proof {
        lemma_frame_trans(&env0, &env2, env);
        assert(item == ItemPtr((env0.spec_items().len() + 1) as usize));
        assert(crate::from::is_call_of(&env2, item, crate::definitions::BuiltinFunction::Decision, seq![left, right, when_equal, when_not_equal]));
        assert(resolve_all_outcome(&env2, env, item, r));
    }
    match r {
        Ok(()) => Ok(item),
        Err(ps) => Err(ps),
    }
}

/// Adds the decision that is the language item `true` when `left` equals
/// `right` and `false` otherwise, resolved.
pub fn equals(env: &mut Environment, left: ItemPtr, right: ItemPtr) -> (r: Result<ItemPtr, Vec<Diagnostic>>)
    requires
        old(env).wf(),
        old(env).valid_item(left),
        old(env).valid_item(right),
        crate::builtins::params_defined(old(env), crate::definitions::BuiltinFunction::Decision),
        old(env).spec_get_language_item("true"@) is Some,
        old(env).spec_get_language_item("false"@) is Some,
    ensures
        final(env).wf(),
        resolve_all_frame(old(env), final(env)),
        r matches Ok(p) ==> p.index() == old(env).spec_items().len() + 1 && final(env).valid_item(p)
            && final(env).item(p).scope == old(env).item(left).scope && forall|y: ItemPtr|
            #[trigger] crate::traversal::reachable(final(env), p, y) ==> !(final(env).def(y) is Resolvable) && !(
            final(env).def(y) is Placeholder),
        decision_made(
            old(env),
            final(env),
            seq![
                left,
                right,
                old(env).spec_get_language_item("true"@)->0,
                old(env).spec_get_language_item("false"@)->0,
            ],
            r,
        ),
{
    let truee = match env.get_language_item("true") {
        Some(t) => t,
        None => {
            proof {
                assert(false);
            }
            return Err(Vec::new());
        },
    };
    let falsee = match env.get_language_item("false") {
        Some(f) => f,
        None => {
            proof {
                assert(false);
            }
            return Err(Vec::new());
        },
    };
    decision(env, left, right, truee, falsee)
}

/// The arguments of the decision that `item` equals `f`: `f`, with `t` when
/// equal and `f` otherwise.
pub open spec fn equals_args(item: ItemPtr, t: ItemPtr, f: ItemPtr) -> Seq<ItemPtr> {
    seq![item, f, t, f]
}

/// `r` is what `is_bool` gives from `old` to `new`: first the decision
/// whether `item` equals `f`, made and resolved; when that succeeds with
/// `q`, then the decision that is `t` when `item` equals `t` and `q`
/// otherwise; when it fails, its failure.
pub open spec fn is_bool_made(old: &Environment, new: &Environment, item: ItemPtr, t: ItemPtr, f: ItemPtr, r: Result<
    ItemPtr,
    Vec<Diagnostic>,
>) -> bool {
    exists|mid: Environment, q: Result<ItemPtr, Vec<Diagnostic>>|
        #[trigger] decision_made(old, &mid, equals_args(item, t, f), q) && match q {
            Ok(qp) => decision_made(&mid, new, seq![item, t, t, qp], r),
            Err(ps) => r == Err::<ItemPtr, Vec<Diagnostic>>(ps) && mid == *new,
        }
}

/// Adds the item that is `true` exactly when `item_to_test` is `true` or
/// `false`, resolved.
pub fn is_bool(env: &mut Environment, item_to_test: ItemPtr) -> (r: Result<ItemPtr, Vec<Diagnostic>>)
    requires
        old(env).wf(),
        old(env).valid_item(item_to_test),
        crate::builtins::params_defined(old(env), crate::definitions::BuiltinFunction::Decision),
        old(env).spec_get_language_item("true"@) is Some,
        old(env).spec_get_language_item("false"@) is Some,
    ensures
        final(env).wf(),
        resolve_all_frame(old(env), final(env)),
        r matches Ok(p) ==> final(env).valid_item(p) && final(env).item(p).scope == old(env).item(item_to_test).scope
            && forall|y: ItemPtr|
            #[trigger] crate::traversal::reachable(final(env), p, y) ==> !(final(env).def(y) is Resolvable) && !(
            final(env).def(y) is Placeholder),
        is_bool_made(
            old(env),
            final(env),
            item_to_test,
            old(env).spec_get_language_item("true"@)->0,
            old(env).spec_get_language_item("false"@)->0,
            r,
        ),
{
    let ghost env0 = *env;
    let truee = match env.get_language_item("true") {
        Some(t) => t,
        None => {
            proof {
                assert(false);
            }
            return Err(Vec::new());
        },
    };
    let falsee = match env.get_language_item("false") {
        Some(f) => f,
        None => {
            proof {
                assert(false);
            }
            return Err(Vec::new());
        },
    };
    let q = equals(env, item_to_test, falsee);
    let ghost env1 = *env;
    let item_is_false = match q {
        Ok(p) => p,
        Err(ps) => {
            proof {
                assert(decision_made(&env0, &env1, equals_args(item_to_test, truee, falsee), q));
            }
            return Err(ps);
        },
    };
    proof {
        assert(env0.valid_item(truee));
        assert(env.spec_language_items() == env0.spec_language_items());
        assert forall|i: int|
            0 <= i < crate::builtins::builtin_param_names(crate::definitions::BuiltinFunction::Decision).len() implies (
        #[trigger] env.spec_get_language_item(
            crate::builtins::builtin_param_names(crate::definitions::BuiltinFunction::Decision)[i],
        )) is Some by {
            assert(env0.spec_get_language_item(
                crate::builtins::builtin_param_names(crate::definitions::BuiltinFunction::Decision)[i],
            ) is Some);
        }
        assert(env.spec_items()[item_to_test.index() as int].scope == env0.spec_items()[item_to_test.index() as int].scope);
    }
    let r = decision(env, item_to_test, truee, truee, item_is_false);
    proof {
        assert(decision_made(&env0, &env1, equals_args(item_to_test, truee, falsee), q));
        assert(decision_made(&env1, env, seq![item_to_test, truee, truee, item_is_false], r));
        lemma_frame_trans(&env0, &env1, env);
        if let Ok(p) = r {
            assert(env.spec_items()[item_to_test.index() as int].scope == env1.spec_items()[item_to_test.index() as int].scope);
        }
    }
    r
}

} // verus!
