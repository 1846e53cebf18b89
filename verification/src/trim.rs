use vstd::prelude::*;

use crate::dcc::n_items;
use crate::definitions::Definition;
use crate::ecc::{
    no_placeholders, res_view, spec_left, spec_right, var_item, var_item_exec, EccView, EqualityCalculationContext,
    EqualityTestSide, PendingItems,
};
use crate::environment::Environment;
use crate::equal::{deref_value, is_trivial_yes_view, value_deref, Equal, EqualView, SubEntries};
use crate::item::ItemPtr;
use crate::resolvable::UnresolvedItemError;
use crate::substitutions::{entries_get, entries_remove, Substitutions};
use crate::util::{materialize, materialized};

verus! {

/// The test of whether `a` equals `b`, both dereferenced, before anything
/// was met.
pub open spec fn initial_ctx(env: &Environment, a: ItemPtr, b: ItemPtr) -> EccView {
    EccView {
        lhs: crate::deref::spec_dereference(env, a),
        lhs_subs: Seq::empty(),
        rhs: crate::deref::spec_dereference(env, b),
        rhs_subs: Seq::empty(),
        side: EqualityTestSide::Left,
    }
}

/// The base, the substitutions and whether nothing is to be justified, of a
/// substitution item.
pub open spec fn sub_parts(env: &Environment, p: ItemPtr) -> Option<(ItemPtr, SubEntries, bool)> {
    if env.valid_item(p) {
        match env.def(p) {
            Definition::Substitution(d) => Some(
                (d.base, d.subs@, env.set(d.invs).justification_requirements@.len() == 0),
            ),
            _ => None,
        }
    } else {
        None
    }
}

/// The value of the first substitution whose variable's item stands for
/// `item`.
pub open spec fn first_match(env: &Environment, subs: SubEntries, item: ItemPtr) -> Option<ItemPtr>
    decreases subs.len(),
{
    if subs.len() == 0 {
        None
    } else if var_item(env, subs[0].0) matches Some(t) && value_deref(env, t) == item {
        Some(subs[0].1)
    } else {
        first_match(env, subs.drop_first(), item)
    }
}

/// An item with its redundant substitutions taken away: an unchecked
/// substitution whose base is what one of its variables stands for is that
/// variable's value, and one with nothing left to substitute is its base.
pub open spec fn spec_trim_item(env: &Environment, item: ItemPtr, fuel: nat) -> ItemPtr
    decreases fuel, 0nat, 0nat,
{
    let item = value_deref(env, item);
    if fuel == 0 {
        item
    } else {
        match sub_parts(env, item) {
            Some((base, subs, true)) => {
                let new_base = value_deref(env, spec_trim_item(env, base, (fuel - 1) as nat));
                let subs2 = spec_trim_subs(env, subs, (fuel - 1) as nat);
                match first_match(env, subs2, new_base) {
                    Some(v) => v,
                    None => if subs2.len() == 0 {
                        new_base
                    } else {
                        item
                    },
                }
            },
            _ => item,
        }
    }
}

/// Each value trimmed.
pub open spec fn spec_trim_values(env: &Environment, subs: SubEntries, fuel: nat) -> SubEntries
    decreases fuel, 1nat, subs.len(),
{
    if subs.len() == 0 {
        subs
    } else {
        seq![(subs[0].0, spec_trim_item(env, subs[0].1, fuel))] + spec_trim_values(env, subs.drop_first(), fuel)
    }
}

/// The substitutions with each value dereferenced, without those whose
/// value stands for the variable's own item.
pub open spec fn spec_remove_identity(env: &Environment, subs: SubEntries) -> SubEntries
    decreases subs.len(),
{
    if subs.len() == 0 {
        subs
    } else {
        let t = subs[0].0;
        let vd = value_deref(env, subs[0].1);
        let rest = spec_remove_identity(env, subs.drop_first());
        if var_item(env, t) matches Some(ti) && value_deref(env, ti) == vd {
            rest
        } else {
            seq![(t, vd)] + rest
        }
    }
}

pub open spec fn spec_trim_subs(env: &Environment, subs: SubEntries, fuel: nat) -> SubEntries
    decreases fuel, 2nat, 0nat,
{
    spec_remove_identity(env, spec_trim_values(env, subs, fuel))
}

/// Drops, from both sides, each variable of `snap` from position `k` that
/// both sides give values standing for one item.
pub open spec fn spec_remove_common_left(
    env: &Environment,
    snap: SubEntries,
    k: int,
    l: SubEntries,
    r: SubEntries,
) -> (SubEntries, SubEntries)
    decreases snap.len() - k,
{
    if k < 0 || k >= snap.len() {
        (l, r)
    } else {
        let (t, lv) = snap[k];
        match entries_get(r, t) {
            Some(rv) => if value_deref(env, lv) == value_deref(env, rv) {
                spec_remove_common_left(env, snap, k + 1, entries_remove(l, t), entries_remove(r, t))
            } else {
                spec_remove_common_left(env, snap, k + 1, l, r)
            },
            None => spec_remove_common_left(env, snap, k + 1, l, r),
        }
    }
}

/// The same, going through the right side's variables.
pub open spec fn spec_remove_common_right(
    env: &Environment,
    snap: SubEntries,
    k: int,
    l: SubEntries,
    r: SubEntries,
) -> (SubEntries, SubEntries)
    decreases snap.len() - k,
{
    if k < 0 || k >= snap.len() {
        (l, r)
    } else {
        let (t, rv) = snap[k];
        match entries_get(l, t) {
            Some(lv) => if value_deref(env, lv) == value_deref(env, rv) {
                spec_remove_common_right(env, snap, k + 1, entries_remove(l, t), entries_remove(r, t))
            } else {
                spec_remove_common_right(env, snap, k + 1, l, r)
            },
            None => spec_remove_common_right(env, snap, k + 1, l, r),
        }
    }
}

/// Both sides trimmed, then the variables both sides give the same item
/// dropped from both.
pub open spec fn spec_mostly_trim_yes(env: &Environment, l: SubEntries, r: SubEntries) -> (SubEntries, SubEntries) {
    let fuel = n_items(env) as nat;
    let l1 = spec_trim_subs(env, l, fuel);
    let r1 = spec_trim_subs(env, r, fuel);
    let (l2, r2) = spec_remove_common_left(env, l1, 0, l1, r1);
    spec_remove_common_right(env, r2, 0, l2, r2)
}

pub open spec fn spec_mostly_trim_result(env: &Environment, e: EqualView) -> EqualView {
    match e {
        EqualView::Yes(l, r) => {
            let (l2, r2) = spec_mostly_trim_yes(env, l, r);
            EqualView::Yes(l2, r2)
        },
        _ => e,
    }
}

/// Drops each substitution of `snap` from position `k` whose value, tested
/// against the variable's item, is equal without substitutions once
/// trimmed.
pub open spec fn spec_thoroughly(env: &Environment, snap: SubEntries, k: int, subs: SubEntries, limit: nat) -> Result<
    SubEntries,
    UnresolvedItemError,
>
    decreases snap.len() - k,
{
    if k < 0 || k >= snap.len() {
        Ok(subs)
    } else {
        let (t, v) = snap[k];
        match var_item(env, t) {
            Some(ti) => if env.valid_item(v) {
                match spec_left(env, initial_ctx(env, v, ti), Seq::empty(), limit).res {
                    Err(e) => Err(e),
                    Ok(e) => if is_trivial_yes_view(spec_mostly_trim_result(env, e)) {
                        spec_thoroughly(env, snap, k + 1, entries_remove(subs, t), limit)
                    } else {
                        spec_thoroughly(env, snap, k + 1, subs, limit)
                    },
                }
            } else {
                spec_thoroughly(env, snap, k + 1, subs, limit)
            },
            None => spec_thoroughly(env, snap, k + 1, subs, limit),
        }
    }
}

/// The result with redundant substitutions trimmed away.
pub open spec fn spec_trim_result(env: &Environment, e: EqualView, limit: nat) -> Result<EqualView, UnresolvedItemError> {
    match e {
        EqualView::Yes(l, r) => {
            let (l1, r1) = spec_mostly_trim_yes(env, l, r);
            match spec_thoroughly(env, l1, 0, l1, limit) {
                Err(x) => Err(x),
                Ok(l2) => match spec_thoroughly(env, r1, 0, r1, limit) {
                    Err(x) => Err(x),
                    Ok(r2) => Ok(EqualView::Yes(l2, r2)),
                },
            }
        },
        _ => Ok(e),
    }
}

/// Trimming values keeps every variable in its place.
pub proof fn lemma_trim_values_at(env: &Environment, subs: SubEntries, fuel: nat)
    ensures
        spec_trim_values(env, subs, fuel).len() == subs.len(),
        forall|i: int| 0 <= i < subs.len() ==> #[trigger] spec_trim_values(env, subs, fuel)[i] == (
            subs[i].0,
            spec_trim_item(env, subs[i].1, fuel),
        ),
    decreases subs.len(),
{
    if subs.len() > 0 {
        lemma_trim_values_at(env, subs.drop_first(), fuel);
        assert forall|i: int| 0 <= i < subs.len() implies #[trigger] spec_trim_values(env, subs, fuel)[i] == (
            subs[i].0,
            spec_trim_item(env, subs[i].1, fuel),
        ) by {
            if i > 0 {
                assert(subs.drop_first()[i - 1] == subs[i]);
            }
        }
    }
}

/// Removing identities keeps the variables distinct, and keeps only
/// variables that were there.
pub proof fn lemma_remove_identity_keys(env: &Environment, subs: SubEntries)
    ensures
        crate::substitutions::keys_distinct(subs) ==> crate::substitutions::keys_distinct(spec_remove_identity(env, subs)),
        forall|i: int| 0 <= i < spec_remove_identity(env, subs).len() ==> exists|j: int|
            0 <= j < subs.len() && subs[j].0 == (#[trigger] spec_remove_identity(env, subs)[i]).0,
    decreases subs.len(),
{
    if subs.len() > 0 {
        let rest = subs.drop_first();
        lemma_remove_identity_keys(env, rest);
        let r = spec_remove_identity(env, subs);
        let rr = spec_remove_identity(env, rest);
        assert forall|i: int| 0 <= i < r.len() implies exists|j: int| 0 <= j < subs.len() && subs[j].0 == (#[trigger] r[i]).0 by {
            if r.len() == rr.len() {
                let j = choose|j: int| 0 <= j < rest.len() && rest[j].0 == rr[i].0;
                assert(subs[j + 1] == rest[j]);
            } else if i == 0 {
                assert(subs[0].0 == r[0].0);
            } else {
                assert(r[i] == rr[i - 1]);
                let j = choose|j: int| 0 <= j < rest.len() && rest[j].0 == rr[i - 1].0;
                assert(subs[j + 1] == rest[j]);
            }
        }
        if crate::substitutions::keys_distinct(subs) {
            assert(crate::substitutions::keys_distinct(rest)) by {
                assert forall|a: int, b: int| 0 <= a < rest.len() && 0 <= b < rest.len() && a != b implies #[trigger] rest[a].0
                    != #[trigger] rest[b].0 by {
                    assert(rest[a] == subs[a + 1] && rest[b] == subs[b + 1]);
                }
            }
            if r.len() != rr.len() {
                assert forall|a: int, b: int| 0 <= a < r.len() && 0 <= b < r.len() && a != b implies #[trigger] r[a].0
                    != #[trigger] r[b].0 by {
                    if a > 0 && b > 0 {
                        assert(r[a] == rr[a - 1] && r[b] == rr[b - 1]);
                    } else if a == 0 {
                        assert(r[b] == rr[b - 1]);
                        let j = choose|j: int| 0 <= j < rest.len() && rest[j].0 == rr[b - 1].0;
                        assert(subs[j + 1].0 != subs[0].0);
                    } else {
                        assert(r[a] == rr[a - 1]);
                        let j = choose|j: int| 0 <= j < rest.len() && rest[j].0 == rr[a - 1].0;
                        assert(subs[j + 1].0 != subs[0].0);
                    }
                }
            }
        }
    }
}

/// The item with redundant substitutions taken away.
pub fn trim_item(env: &Environment, item: ItemPtr, fuel: usize) -> (r: ItemPtr)
    requires
        env.wf(),
    ensures
        r == spec_trim_item(env, item, fuel as nat),
    decreases fuel, 0nat, 0nat,
{
    let it = deref_value(env, item);
    if fuel == 0 {
        return it;
    }
    if it.0 >= env.num_items() {
        return it;
    }
    match env.definition(it) {
        Definition::Substitution(d) => {
            proof {
                assert(env.item_valid(env.spec_items()[it.index() as int]));
                crate::ecc::lemma_def_parts_valid(env, it);
            }
            if env.get_set(d.invs).justification_requirements().len() != 0 {
                return it;
            }
            let nb = trim_item(env, d.base, fuel - 1);
            let new_base = deref_value(env, nb);
            let subs2 = trim_substitutions(env, &d.subs, fuel - 1);
            let entries = subs2.iter_entries();
            let mut k: usize = 0;
            assert(subs2@.skip(0) =~= subs2@);
            let ghost expected = match first_match(env, subs2@, new_base) {
                Some(v) => v,
                None => if subs2@.len() == 0 {
                    new_base
                } else {
                    it
                },
            };
            assert(spec_trim_item(env, item, fuel as nat) == expected);
            while k < entries.len()
                invariant
                    env.wf(),
                    spec_trim_item(env, item, fuel as nat) == expected,
                    expected == match first_match(env, subs2@, new_base) {
                        Some(v) => v,
                        None => if subs2@.len() == 0 {
                            new_base
                        } else {
                            it
                        },
                    },
                    entries@ == subs2@,
                    k <= entries@.len(),
                    first_match(env, subs2@, new_base) == first_match(env, subs2@.skip(k as int), new_base),
                decreases entries@.len() - k,
            {
                let (t, v) = entries[k];
                proof {
                    assert(subs2@.skip(k as int)[0] == entries@[k as int]);
                    assert(subs2@.skip(k as int).drop_first() =~= subs2@.skip(k + 1));
                }
                match var_item_exec(env, t) {
                    Some(ti) => {
                        if deref_value(env, ti) == new_base {
                            return v;
                        }
                    },
                    None => {},
                }
                k += 1;
            }
            assert(subs2@.skip(k as int) =~= Seq::<(crate::variable::VariablePtr, ItemPtr)>::empty());
            if subs2.len() == 0 {
                return new_base;
            }
            it
        },
        _ => it,
    }
}

/// Each value trimmed, then the substitutions whose value stands for the
/// variable's own item dropped.
pub fn trim_substitutions(env: &Environment, subs: &Substitutions, fuel: usize) -> (r: Substitutions)
    requires
        env.wf(),
    ensures
        r@ == spec_trim_subs(env, subs@, fuel as nat),
        subs.wf() ==> r.wf(),
    decreases fuel, 2nat, 0nat,
{
    let mut trimmed = subs.clone_subs();
    let mut i: usize = 0;
    proof {
        lemma_trim_values_at(env, subs@, fuel as nat);
    }
    while i < trimmed.len()
        invariant
            env.wf(),
            i <= trimmed@.len(),
            trimmed@.len() == subs@.len(),
            trimmed.wf() == subs.wf(),
            forall|j: int| 0 <= j < i ==> #[trigger] trimmed@[j] == (subs@[j].0, spec_trim_item(env, subs@[j].1, fuel as nat)),
            forall|j: int| i <= j < trimmed@.len() ==> #[trigger] trimmed@[j] == subs@[j],
        decreases trimmed@.len() - i,
    {
        let value = trimmed.iter_entries()[i].1;
        let t = trim_item(env, value, fuel);
        trimmed.set_value(i, t);
        i += 1;
    }
    proof {
        lemma_trim_values_at(env, subs@, fuel as nat);
        assert(trimmed@ =~= spec_trim_values(env, subs@, fuel as nat));
    }
    remove_identity_substitutions(env, &trimmed)
}

/// The substitutions with each value dereferenced, dropping those whose
/// value stands for the variable's own item.
pub fn remove_identity_substitutions(env: &Environment, subs: &Substitutions) -> (r: Substitutions)
    requires
        env.wf(),
    ensures
        r@ == spec_remove_identity(env, subs@),
        subs.wf() ==> r.wf(),
{
    let entries = subs.iter_entries();
    let mut filtered: Vec<(crate::variable::VariablePtr, ItemPtr)> = Vec::new();
    let mut k: usize = 0;
    assert(subs@.skip(0) =~= subs@);
    while k < entries.len()
        invariant
            env.wf(),
            entries@ == subs@,
            k <= entries@.len(),
            spec_remove_identity(env, subs@) == filtered@ + spec_remove_identity(env, subs@.skip(k as int)),
        decreases entries@.len() - k,
    {
        let (t, v) = entries[k];
        let vd = deref_value(env, v);
        proof {
            assert(subs@.skip(k as int)[0] == entries@[k as int]);
            assert(subs@.skip(k as int).drop_first() =~= subs@.skip(k + 1));
        }
        let is_identity = match var_item_exec(env, t) {
            Some(ti) => deref_value(env, ti) == vd,
            None => false,
        };
        if !is_identity {
            let ghost before = filtered@;
            filtered.push((t, vd));
            assert(before + (seq![(t, vd)] + spec_remove_identity(env, subs@.skip(k + 1))) =~= filtered@
                + spec_remove_identity(env, subs@.skip(k + 1)));
        }
        k += 1;
    }
    assert(subs@.skip(k as int) =~= Seq::<(crate::variable::VariablePtr, ItemPtr)>::empty());
    assert(filtered@ + Seq::<(crate::variable::VariablePtr, ItemPtr)>::empty() =~= filtered@);
    proof {
        lemma_remove_identity_keys(env, subs@);
    }
    Substitutions::from_entries(filtered)
}

/// Both sides trimmed, then the variables that both sides give values
/// standing for one item dropped from both.
pub fn mostly_trim_yes(env: &Environment, left: &mut Substitutions, right: &mut Substitutions)
    requires
        env.wf(),
        old(left).wf(),
        old(right).wf(),
    ensures
        final(left).wf(),
        final(right).wf(),
        (final(left)@, final(right)@) == spec_mostly_trim_yes(env, old(left)@, old(right)@),
{
    let fuel = env.num_items();
    let l1 = trim_substitutions(env, left, fuel);
    let r1 = trim_substitutions(env, right, fuel);
    *left = l1;
    *right = r1;
    let ghost l1v = left@;
    let ghost r1v = right@;
    let snap = left.clone_subs();
    let entries = snap.iter_entries();
    let mut k: usize = 0;
    while k < entries.len()
        invariant
            env.wf(),
            entries@ == l1v,
            k <= entries@.len(),
            left.wf(),
            right.wf(),
            spec_remove_common_left(env, l1v, 0, l1v, r1v) == spec_remove_common_left(
                env,
                l1v,
                k as int,
                left@,
                right@,
            ),
        decreases entries@.len() - k,
    {
        let (t, lv) = entries[k];
        match right.get(&t) {
            Some(rv) => {
                if deref_value(env, lv) == deref_value(env, rv) {
                    left.remove(&t);
                    right.remove(&t);
                }
            },
            None => {},
        }
        k += 1;
    }
    let ghost l2v = left@;
    let ghost r2v = right@;
    let snap2 = right.clone_subs();
    let entries2 = snap2.iter_entries();
    let mut k: usize = 0;
    while k < entries2.len()
        invariant
            env.wf(),
            entries2@ == r2v,
            k <= entries2@.len(),
            left.wf(),
            right.wf(),
            spec_remove_common_right(env, r2v, 0, l2v, r2v) == spec_remove_common_right(
                env,
                r2v,
                k as int,
                left@,
                right@,
            ),
        decreases entries2@.len() - k,
    {
        let (t, rv) = entries2[k];
        match left.get(&t) {
            Some(lv) => {
                if deref_value(env, lv) == deref_value(env, rv) {
                    left.remove(&t);
                    right.remove(&t);
                }
            },
            None => {},
        }
        k += 1;
    }
}

/// The result with both sides of an equal result mostly trimmed.
pub fn mostly_trim_result(env: &Environment, result: &mut Equal)
    requires
        env.wf(),
        old(result).wf(),
    ensures
        final(result).wf(),
        final(result)@ == spec_mostly_trim_result(env, old(result)@),
{
    match result {
        Equal::Yes(left, right) => {
            mostly_trim_yes(env, left, right);
        },
        _ => {},
    }
}

/// Drops each substitution whose value, tested against the variable's item,
/// is equal without substitutions once trimmed.
pub fn thoroughly_remove_identity_substitutions(
    env: &Environment,
    subs: &mut Substitutions,
    limit: usize,
) -> (r: Result<(), UnresolvedItemError>)
    requires
        env.wf(),
        no_placeholders(env),
        old(subs).wf(),
    ensures
        final(subs).wf(),
        match spec_thoroughly(env, old(subs)@, 0, old(subs)@, limit as nat) {
            Ok(s) => r is Ok && final(subs)@ == s,
            Err(e) => r == Err::<(), UnresolvedItemError>(e),
        },
{
    let snap = subs.clone_subs();
    let ghost s0 = old(subs)@;
    let entries = snap.iter_entries();
    let mut k: usize = 0;
    while k < entries.len()
        invariant
            env.wf(),
            no_placeholders(env),
            entries@ == s0,
            s0 == old(subs)@,
            k <= entries@.len(),
            subs.wf(),
            spec_thoroughly(env, s0, 0, s0, limit as nat) == spec_thoroughly(env, s0, k as int, subs@, limit as nat),
        decreases entries@.len() - k,
    {
        let (t, v) = entries[k];
        match var_item_exec(env, t) {
            Some(ti) => {
                if v.0 < env.num_items() {
                    let mut ctx = EqualityCalculationContext::new(env, v, ti);
                    let mut pending = PendingItems::new();
                    proof {
                        assert(ctx@ == initial_ctx(env, v, ti));
                    }
                    let r = ctx.get_equality_left_impl(env, &mut pending, limit);
                    match r {
                        Err(e) => {
                            return Err(e);
                        },
                        Ok(e) => {
                            let mut e = e;
                            mostly_trim_result(env, &mut e);
                            if e.is_trivial_yes() {
                                subs.remove(&t);
                            }
                        },
                    }
                }
            },
            None => {},
        }
        k += 1;
    }
    Ok(())
}

/// Trims away the redundant substitutions of an equal result.
pub fn trim_result(env: &Environment, result: &mut Equal, limit: usize) -> (r: Result<(), UnresolvedItemError>)
    requires
        env.wf(),
        no_placeholders(env),
        old(result).wf(),
    ensures
        final(result).wf(),
        match spec_trim_result(env, old(result)@, limit as nat) {
            Ok(e) => r is Ok && final(result)@ == e,
            Err(x) => r == Err::<(), UnresolvedItemError>(x),
        },
{
    match result {
        Equal::Yes(left, right) => {
            mostly_trim_yes(env, left, right);
            thoroughly_remove_identity_substitutions(env, left, limit)?;
            thoroughly_remove_identity_substitutions(env, right, limit)?;
            Ok(())
        },
        _ => Ok(()),
    }
}

impl ItemPtr {
    /// Whether this item equals `other`, asking this item first and `other`
    /// when this one does not know; `limit` bounds how deep the tests nest.
    /// The substituted items the answer refers to are created in `env`.
    pub fn get_equality_left(&self, env: &mut Environment, other: &ItemPtr, limit: usize) -> (r: Result<
        Equal,
        UnresolvedItemError,
    >)
        requires
            old(env).wf(),
            no_placeholders(old(env)),
            old(env).valid_item(*self),
            old(env).valid_item(*other),
        ensures
            final(env).wf(),
            no_placeholders(final(env)),
            r matches Ok(e) ==> e.wf(),
            ({
                let o = spec_left(old(env), initial_ctx(old(env), *self, *other), Seq::empty(), limit as nat);
                &&& res_view(r) == o.res
                &&& materialized(old(env), final(env), o.pending)
            }),
    {
        let mut ctx = EqualityCalculationContext::new(env, *self, *other);
        let mut pending = PendingItems::new();
        let r = ctx.get_equality_left_impl(env, &mut pending, limit);
        materialize(env, pending);
        r
    }

    /// Whether this item equals `other`, asking this item first, without
    /// creating the substituted items the answer may mention: a value that
    /// refers to one is a position past the environment's last item. Only
    /// whether the items are equal, and which variables are substituted, is
    /// meant to be read from it.
    pub fn get_equality(&self, env: &Environment, other: &ItemPtr, limit: usize) -> (r: Result<
        Equal,
        UnresolvedItemError,
    >)
        requires
            env.wf(),
            no_placeholders(env),
            env.valid_item(*self),
            env.valid_item(*other),
        ensures
            r matches Ok(e) ==> e.wf(),
            res_view(r) == spec_left(env, initial_ctx(env, *self, *other), Seq::empty(), limit as nat).res,
    {
        let mut ctx = EqualityCalculationContext::new(env, *self, *other);
        let mut pending = PendingItems::new();
        ctx.get_equality_left_impl(env, &mut pending, limit)
    }

    /// Whether this item equals `other`, asking `other` only.
    pub fn get_equality_right(&self, env: &mut Environment, other: &ItemPtr, limit: usize) -> (r: Result<
        Equal,
        UnresolvedItemError,
    >)
        requires
            old(env).wf(),
            no_placeholders(old(env)),
            old(env).valid_item(*self),
            old(env).valid_item(*other),
        ensures
            final(env).wf(),
            no_placeholders(final(env)),
            r matches Ok(e) ==> e.wf(),
            ({
                let o = spec_right(old(env), initial_ctx(old(env), *self, *other), Seq::empty(), limit as nat);
                &&& res_view(r) == o.res
                &&& materialized(old(env), final(env), o.pending)
            }),
    {
        let mut ctx = EqualityCalculationContext::new(env, *self, *other);
        let mut pending = PendingItems::new();
        let r = ctx.get_equality_right_impl(env, &mut pending, limit);
        materialize(env, pending);
        r
    }

    /// Whether this item equals `other`, with redundant substitutions such
    /// as `x -> x` trimmed away.
    pub fn get_trimmed_equality(&self, env: &mut Environment, other: &ItemPtr, limit: usize) -> (r: Result<
        Equal,
        UnresolvedItemError,
    >)
        requires
            old(env).wf(),
            no_placeholders(old(env)),
            old(env).valid_item(*self),
            old(env).valid_item(*other),
        ensures
            final(env).wf(),
            no_placeholders(final(env)),
            r matches Ok(e) ==> e.wf(),
            ({
                let o = spec_left(old(env), initial_ctx(old(env), *self, *other), Seq::empty(), limit as nat);
                &&& materialized(old(env), final(env), o.pending)
                &&& res_view(r) == match o.res {
                    Err(e) => Err(e),
                    Ok(e) => spec_trim_result(final(env), e, limit as nat),
                }
            }),
    {
        let result = self.get_equality_left(env, other, limit);
        match result {
            Err(e) => Err(e),
            Ok(e) => {
                let mut e = e;
                match trim_result(env, &mut e, limit) {
                    Err(x) => Err(x),
                    Ok(()) => Ok(e),
                }
            },
        }
    }
}

} // verus!
