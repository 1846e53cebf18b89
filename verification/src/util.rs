use vstd::prelude::*;

use crate::definitions::{DSubstitution, Definition};
use crate::ecc::{entries_ok, no_placeholders, var_item, PendingItems, PendingView};
use crate::environment::Environment;
use crate::equal::{value_deref, SubEntries};
use crate::invariants::InvariantSet;
use crate::item::{content_items, ItemPtr};
use crate::substitutions::Substitutions;

verus! {

/// `p` is an unchecked substitution of `subs` into `base`: it has nothing
/// to justify and the scope of `base`.
pub open spec fn is_unchecked_substitution(env: &Environment, p: ItemPtr, base: ItemPtr, subs: SubEntries) -> bool {
    &&& env.valid_item(p)
    &&& env.valid_item(base)
    &&& env.def(p) matches Definition::Substitution(d) && d.base == base && d.subs@ == subs && env.valid_set(d.invs)
        && env.set(d.invs) == InvariantSet {
        context: base,
        ..env.set(d.invs)
    } && env.set(d.invs).statements@.len() == 0 && env.set(d.invs).justification_requirements@.len() == 0
        && env.set(d.invs).dependencies@.len() == 0
    &&& env.item(p).scope == env.item(base).scope
}

/// `new` is `old` with items appended and nothing else changed but new
/// invariant sets appended.
pub open spec fn appended(old: &Environment, new: &Environment) -> bool {
    &&& new.spec_items().len() >= old.spec_items().len()
    &&& forall|i: int| 0 <= i < old.spec_items().len() ==> #[trigger] new.spec_items()[i] == old.spec_items()[i]
    &&& new.spec_sets().len() >= old.spec_sets().len()
    &&& forall|i: int| 0 <= i < old.spec_sets().len() ==> #[trigger] new.spec_sets()[i] == old.spec_sets()[i]
    &&& new.spec_variables() == old.spec_variables()
    &&& new.spec_language_items() == old.spec_language_items()
    &&& new.spec_next_unique() == old.spec_next_unique()
}

pub proof fn lemma_appended_trans(a: &Environment, b: &Environment, c: &Environment)
    requires
        appended(a, b),
        appended(b, c),
    ensures
        appended(a, c),
{
    assert forall|i: int| 0 <= i < a.spec_items().len() implies #[trigger] c.spec_items()[i] == a.spec_items()[i] by {
        assert(b.spec_items()[i] == a.spec_items()[i]);
    }
    assert forall|i: int| 0 <= i < a.spec_sets().len() implies #[trigger] c.spec_sets()[i] == a.spec_sets()[i] by {
        assert(b.spec_sets()[i] == a.spec_sets()[i]);
    }
}

/// `new` is `old` with the pending substituted items created, in order, as
/// unchecked substitutions.
pub open spec fn materialized(old: &Environment, new: &Environment, pending: PendingView) -> bool {
    &&& appended(old, new)
    &&& new.spec_items().len() == old.spec_items().len() + pending.len()
    &&& forall|k: int|
        0 <= k < pending.len() ==> is_unchecked_substitution(
            new,
            ItemPtr((old.spec_items().len() + k) as usize),
            (#[trigger] pending[k]).0,
            pending[k].1,
        )
}

pub proof fn lemma_substitution_valid(env: &Environment, d: DSubstitution)
    requires
        env.valid_item(d.base),
        entries_ok(env, d.subs@),
        env.valid_set(d.invs),
    ensures
        env.definition_valid(Definition::Substitution(d)),
{
    let c = content_items(Definition::Substitution(d));
    assert forall|i: int| 0 <= i < c.len() implies env.valid_item(#[trigger] c[i]) by {
        if i > 0 {
            assert(c[i] == d.subs@[i - 1].1);
        }
    }
    assert forall|i: int| 0 <= i < d.subs@.len() implies env.valid_var(
        #[trigger] crate::substitutions::entry_keys(d.subs@)[i],
    ) by {
        assert(crate::substitutions::entry_keys(d.subs@)[i] == d.subs@[i].0);
    }
}

/// Creates the item `base` with the variables of `subs` replaced, with
/// nothing to justify.
pub fn unchecked_substitution_without_shortcuts(env: &mut Environment, base: ItemPtr, subs: &Substitutions) -> (r: ItemPtr)
    requires
        old(env).wf(),
        old(env).valid_item(base),
        entries_ok(old(env), subs@),
    ensures
        final(env).wf(),
        appended(old(env), final(env)),
        final(env).spec_items().len() == old(env).spec_items().len() + 1,
        r.index() == old(env).spec_items().len(),
        is_unchecked_substitution(final(env), r, base, subs@),
        no_placeholders(old(env)) ==> no_placeholders(final(env)),
{
    let ghost env0 = *env;
    let scope = env.get(base).scope;
    proof {
        assert(env.item_valid(env.spec_items()[base.index() as int]));
    }
    let def = DSubstitution::new_unchecked(env, base, subs.clone_subs());
    let ghost env1 = *env;
    let r = env.push_item(Definition::Substitution(def), scope);
    proof {
        assert(env.item(r).scope == env0.item(base).scope);
        assert(env.spec_items()[base.index() as int] == env0.spec_items()[base.index() as int]);
        assert(env.set(def.invs) == env1.set(def.invs));
        if no_placeholders(&env0) {
            assert forall|i: int| 0 <= i < env.spec_items().len() implies !((#[trigger] env.spec_items()[i]).definition is Placeholder) by {
                if i < env0.spec_items().len() {
                    assert(env.spec_items()[i] == env0.spec_items()[i]);
                }
            }
        }
    }
    r
}

/// `base` with the variables of `subs` replaced: `base` itself when there is
/// nothing to replace, the value when the one replacement replaces what
/// `base` stands for, else a new unchecked substitution.
pub fn unchecked_substitution(env: &mut Environment, base: ItemPtr, subs: &Substitutions) -> (r: ItemPtr)
    requires
        old(env).wf(),
        old(env).valid_item(base),
        entries_ok(old(env), subs@),
    ensures
        final(env).wf(),
        appended(old(env), final(env)),
        no_placeholders(old(env)) ==> no_placeholders(final(env)),
        subs@.len() == 0 ==> r == base && *final(env) == *old(env),
        subs@.len() == 1 && var_item(old(env), subs@[0].0) == Some(value_deref(old(env), base)) ==> r
            == subs@[0].1 && *final(env) == *old(env),
        !(subs@.len() == 0 || (subs@.len() == 1 && var_item(old(env), subs@[0].0) == Some(
            value_deref(old(env), base),
        ))) ==> r.index() == old(env).spec_items().len() && is_unchecked_substitution(final(env), r, base, subs@),
{
    if subs.len() == 0 {
        return base;
    }
    if subs.len() == 1 {
        let (target, value) = subs.iter_entries()[0];
        let target_item = crate::ecc::var_item_exec(env, target);
        let base_d = crate::equal::deref_value(env, base);
        if target_item == Some(base_d) {
            return value;
        }
    }
    unchecked_substitution_without_shortcuts(env, base, subs)
}

/// Creates the pending substituted items, in order.
pub fn materialize(env: &mut Environment, pending: PendingItems)
    requires
        old(env).wf(),
        crate::ecc::pending_ok(old(env), pending@),
    ensures
        final(env).wf(),
        materialized(old(env), final(env), pending@),
        no_placeholders(old(env)) ==> no_placeholders(final(env)),
{
    let ghost env0 = *env;
    let ghost pv = pending@;
    let entries = pending.into_entries();
    let mut k: usize = 0;
    while k < entries.len()
        invariant
            env.wf(),
            entries@.map_values(|e: (ItemPtr, Substitutions)| (e.0, e.1@)) == pv,
            crate::ecc::pending_ok(&env0, pv),
            k <= entries@.len(),
            appended(&env0, env),
            env.spec_items().len() == env0.spec_items().len() + k,
            forall|m: int|
                0 <= m < k ==> is_unchecked_substitution(
                    env,
                    ItemPtr((env0.spec_items().len() + m) as usize),
                    (#[trigger] pv[m]).0,
                    pv[m].1,
                ),
            no_placeholders(&env0) ==> no_placeholders(env),
        decreases entries@.len() - k,
    {
        let (base, subs) = &entries[k];
        assert(pv[k as int] == (*base, subs@));
        let ghost before = *env;
        proof {
            assert(env0.valid_item(*base) && entries_ok(&env0, subs@));
            env0.lemma_valid_mono(env);
            assert forall|i: int| 0 <= i < subs@.len() implies env.valid_item((#[trigger] subs@[i]).1) && env.valid_var(subs@[i].0) by {
                assert(env0.valid_item(subs@[i].1));
            }
        }
        let r = unchecked_substitution_without_shortcuts(env, *base, subs);
        proof {
            assert forall|m: int| 0 <= m < k + 1 implies is_unchecked_substitution(
                env,
                ItemPtr((env0.spec_items().len() + m) as usize),
                (#[trigger] pv[m]).0,
                pv[m].1,
            ) by {
                if m < k {
                    let p = ItemPtr((env0.spec_items().len() + m) as usize);
                    assert(is_unchecked_substitution(&before, p, pv[m].0, pv[m].1));
                    assert(env.spec_items()[p.index() as int] == before.spec_items()[p.index() as int]);
                    assert(env.spec_items()[pv[m].0.index() as int] == before.spec_items()[pv[m].0.index() as int]);
                    if let Definition::Substitution(d) = before.def(p) {
                        assert(env.spec_sets()[d.invs.index() as int] == before.spec_sets()[d.invs.index() as int]);
                    }
                }
            }
        }
        k += 1;
    }
}

/// `r` is `base` with the variables of `subs` replaced: `base` itself when
/// nothing is replaced, the one value given when that is what `base` stands
/// for, or an unchecked substitution.
pub open spec fn is_substituted(env: &Environment, r: ItemPtr, base: ItemPtr, subs: SubEntries) -> bool {
    ||| subs.len() == 0 && r == base
    ||| subs.len() == 1 && var_item(env, subs[0].0) == Some(value_deref(env, base)) && r == subs[0].1
    ||| is_unchecked_substitution(env, r, base, subs)
}

/// Appending items and sets keeps what was a substitution one.
pub proof fn lemma_substituted_appended(a: &Environment, b: &Environment, r: ItemPtr, base: ItemPtr, subs: SubEntries)
    requires
        a.wf(),
        a.valid_item(base),
        appended(a, b),
        is_substituted(a, r, base, subs),
    ensures
        is_substituted(b, r, base, subs),
{
    assert(crate::deref::same_definitions(a, b)) by {
        assert forall|i: int| 0 <= i < a.spec_items().len() implies (#[trigger] b.spec_items()[i]).definition
            == a.spec_items()[i].definition by {
            assert(b.spec_items()[i] == a.spec_items()[i]);
        }
    }
    crate::deref::lemma_dereference_same(a, b, base);
    if is_unchecked_substitution(a, r, base, subs) {
        assert(b.spec_items()[r.index() as int] == a.spec_items()[r.index() as int]);
        assert(b.spec_items()[base.index() as int] == a.spec_items()[base.index() as int]);
        let d = a.def(r)->Substitution_0;
        assert(b.spec_sets()[d.invs.index() as int] == a.spec_sets()[d.invs.index() as int]);
    }
}

impl DSubstitution {
    /// `base` with the variables of `subs` replaced, with nothing to
    /// justify: its invariant set is a new empty set about `base`.
    pub fn new_unchecked(env: &mut Environment, base: ItemPtr, subs: Substitutions) -> (r: Self)
        requires
            old(env).wf(),
            old(env).valid_item(base),
            entries_ok(old(env), subs@),
        ensures
            final(env).wf(),
            appended(old(env), final(env)),
            final(env).spec_items() == old(env).spec_items(),
            final(env).spec_sets().len() == old(env).spec_sets().len() + 1,
            r.base == base,
            r.subs@ == subs@,
            r.invs.index() == old(env).spec_sets().len(),
            final(env).set(r.invs).context == base,
            final(env).set(r.invs).statements@.len() == 0,
            final(env).set(r.invs).justification_requirements@.len() == 0,
            final(env).set(r.invs).dependencies@.len() == 0,
            final(env).definition_valid(Definition::Substitution(r)),
    {
        let invs = env.push_invariant_set(InvariantSet::new_empty(base));
        let r = DSubstitution::new(base, subs, invs);
        proof {
            assert(entries_ok(env, r.subs@));
            lemma_substitution_valid(env, r);
        }
        r
    }
}

impl crate::variable::Variable {
    /// What giving the variable `this` the value `value`, alongside
    /// `other_subs`, must justify: each of its invariants with all those
    /// values put in.
    pub fn assignment_justifications(
        env: &mut Environment,
        this: crate::variable::VariablePtr,
        value: ItemPtr,
        other_subs: &Substitutions,
    ) -> (r: Vec<ItemPtr>)
        requires
            old(env).wf(),
            old(env).valid_var(this),
            old(env).valid_item(value),
            other_subs.wf(),
            entries_ok(old(env), other_subs@),
            other_subs.spec_get(this) is None,
        ensures
            final(env).wf(),
            appended(old(env), final(env)),
            no_placeholders(old(env)) ==> no_placeholders(final(env)),
            r@.len() == old(env).var(this).spec_invariants().len(),
            forall|i: int|
                0 <= i < r@.len() ==> is_substituted(
                    final(env),
                    #[trigger] r@[i],
                    old(env).var(this).spec_invariants()[i],
                    other_subs@.push((this, value)),
                ),
    {
        let ghost env0 = *env;
        let mut substitutions = other_subs.clone_subs();
        substitutions.insert_no_replace(this, value);
        let var = env.get_variable(this);
        proof {
            assert(env.variable_valid(env.spec_variables()[this.index() as int]));
        }
        let invariants = crate::definitions::clone_slice(var.invariants());
        let mut justifications: Vec<ItemPtr> = Vec::new();
        let mut i: usize = 0;
        while i < invariants.len()
            invariant
                env.wf(),
                appended(&env0, env),
                no_placeholders(&env0) ==> no_placeholders(env),
                invariants@ == env0.var(this).spec_invariants(),
                env.valid_items(invariants@),
                substitutions.wf(),
                substitutions@ == other_subs@.push((this, value)),
                entries_ok(env, substitutions@),
                i <= invariants@.len(),
                justifications@.len() == i,
                forall|k: int|
                    0 <= k < i ==> is_substituted(env, #[trigger] justifications@[k], invariants@[k], substitutions@),
            decreases invariants@.len() - i,
        {
            assert(env.valid_item(invariants@[i as int]));
            let ghost before = *env;
            let subbed = unchecked_substitution(env, invariants[i], &substitutions);
            proof {
                lemma_appended_trans(&env0, &before, env);
                before.lemma_valid_mono(env);
                assert forall|k: int| 0 <= k < substitutions@.len() implies env.valid_item((#[trigger] substitutions@[k]).1)
                    && env.valid_var(substitutions@[k].0) by {
                    assert(before.valid_item(substitutions@[k].1));
                }
                assert forall|k: int| 0 <= k < i implies is_substituted(
                    env,
                    #[trigger] justifications@[k],
                    invariants@[k],
                    substitutions@,
                ) by {
                    lemma_substituted_appended(&before, env, justifications@[k], invariants@[k], substitutions@);
                }
            }
            let ghost prev = justifications@;
            justifications.push(subbed);
            proof {
                assert forall|k: int| 0 <= k < i + 1 implies is_substituted(
                    env,
                    #[trigger] justifications@[k],
                    invariants@[k],
                    substitutions@,
                ) by {
                    if k < i {
                        assert(justifications@[k] == prev[k]);
                    }
                }
            }
            i += 1;
        }
        justifications
    }
}

} // verus!
