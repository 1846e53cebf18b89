use vstd::prelude::*;

use crate::deref::spec_dereference;
use crate::environment::Environment;
use crate::item::ItemPtr;
use crate::substitutions::{entries_get, Substitutions};
use crate::variable::VariablePtr;

verus! {

/// The entries of a map of substitutions.
pub type SubEntries = Seq<(VariablePtr, ItemPtr)>;

/// Whether two items are equal, and if they are, which substitutions on the
/// left and on the right make them so.
#[derive(Debug)]
pub enum Equal {
    Yes(Substitutions, Substitutions),
    Unknown,
    No,
}

/// What an `Equal` says, with the substitutions as their entries.
pub enum EqualView {
    Yes(SubEntries, SubEntries),
    Unknown,
    No,
}

impl View for Equal {
    type V = EqualView;

    open spec fn view(&self) -> EqualView {
        match self {
            Equal::Yes(l, r) => EqualView::Yes(l@, r@),
            Equal::Unknown => EqualView::Unknown,
            Equal::No => EqualView::No,
        }
    }
}

/// The views of a list of results.
pub open spec fn equal_views(s: Seq<Equal>) -> Seq<EqualView> {
    s.map_values(|e: Equal| e@)
}

/// Equal without any substitution.
pub open spec fn yes_view() -> EqualView {
    EqualView::Yes(Seq::empty(), Seq::empty())
}

/// The item `p` stands for: where dereferencing it stops when it is an item
/// of the environment, itself when it is an item still to be created.
pub open spec fn value_deref(env: &Environment, p: ItemPtr) -> ItemPtr {
    if env.valid_item(p) {
        spec_dereference(env, p)
    } else {
        p
    }
}

pub fn deref_value(env: &Environment, p: ItemPtr) -> (r: ItemPtr)
    requires
        env.wf(),
    ensures
        r == value_deref(env, p),
{
    if p.0 < env.num_items() {
        p.dereference(env)
    } else {
        p
    }
}

/// Adds the substitutions of `from` to `target`, each value dereferenced;
/// fails where both give one variable values that stand for different items.
pub open spec fn spec_combine(env: &Environment, from: SubEntries, target: SubEntries) -> Option<
    SubEntries,
>
    decreases from.len(),
{
    if from.len() == 0 {
        Some(target)
    } else {
        let t = from[0].0;
        let value = value_deref(env, from[0].1);
        match entries_get(target, t) {
            Some(other) => if value_deref(env, other) == value_deref(env, value) {
                spec_combine(env, from.drop_first(), target)
            } else {
                None
            },
            None => spec_combine(env, from.drop_first(), target.push((t, value))),
        }
    }
}

/// One step of `and`: the result so far combined with the next result.
pub open spec fn spec_and_step(env: &Environment, acc: EqualView, b: EqualView) -> EqualView {
    match b {
        EqualView::Yes(l, r) => match acc {
            EqualView::Yes(al, ar) => match (spec_combine(env, l, al), spec_combine(env, r, ar)) {
                (Some(nl), Some(nr)) => EqualView::Yes(nl, nr),
                _ => EqualView::Unknown,
            },
            _ => acc,
        },
        _ => EqualView::Unknown,
    }
}

/// `and` of the results `over`, starting from `acc`.
pub open spec fn spec_and_from(env: &Environment, acc: EqualView, over: Seq<EqualView>) -> EqualView
    decreases over.len(),
{
    if over.len() == 0 {
        acc
    } else {
        spec_and_from(env, spec_and_step(env, acc, over[0]), over.drop_first())
    }
}

/// Equal exactly when all are, under the substitutions of all of them
/// together.
pub open spec fn spec_and(env: &Environment, over: Seq<EqualView>) -> EqualView {
    spec_and_from(env, yes_view(), over)
}

/// The first result that says equal; failing that, unknown if any is
/// unknown, else not equal.
pub open spec fn spec_or(over: Seq<EqualView>) -> EqualView
    decreases over.len(),
{
    if over.len() == 0 {
        EqualView::No
    } else {
        match over[0] {
            EqualView::Yes(..) => over[0],
            _ => {
                let rest = spec_or(over.drop_first());
                if rest is Yes {
                    rest
                } else if over[0] is Unknown {
                    EqualView::Unknown
                } else {
                    rest
                }
            },
        }
    }
}

/// Equal with no substitution at all on either side.
pub open spec fn is_trivial_yes_view(e: EqualView) -> bool {
    e matches EqualView::Yes(l, r) && l.len() == 0 && r.len() == 0
}

/// The same result without its substitutions.
pub open spec fn without_subs_view(e: EqualView) -> EqualView {
    match e {
        EqualView::Yes(..) => yes_view(),
        _ => e,
    }
}

pub open spec fn subs_distinct(e: SubEntries) -> bool {
    crate::substitutions::keys_distinct(e)
}

/// Combining keeps the keys of the target distinct.
pub proof fn lemma_combine_distinct(env: &Environment, from: SubEntries, target: SubEntries)
    requires
        subs_distinct(target),
    ensures
        spec_combine(env, from, target) matches Some(t) ==> subs_distinct(t),
    decreases from.len(),
{
    if from.len() > 0 {
        let t = from[0].0;
        let value = value_deref(env, from[0].1);
        crate::substitutions::lemma_entries_get(target, t);
        match entries_get(target, t) {
            Some(other) => {
                lemma_combine_distinct(env, from.drop_first(), target);
            },
            None => {
                let pushed = target.push((t, value));
                assert(subs_distinct(pushed)) by {
                    assert forall|i: int, j: int|
                        0 <= i < pushed.len() && 0 <= j < pushed.len() && i != j implies #[trigger] pushed[i].0
                            != #[trigger] pushed[j].0 by {
                        if i < target.len() && j < target.len() {
                            assert(pushed[i] == target[i] && pushed[j] == target[j]);
                        } else if i < target.len() {
                            assert(pushed[i] == target[i]);
                        } else if j < target.len() {
                            assert(pushed[j] == target[j]);
                        }
                    }
                }
                lemma_combine_distinct(env, from.drop_first(), pushed);
            },
        }
    }
}

/// Adds the substitutions of `from` to `target_subs`, each value
/// dereferenced, and fails where both give a variable values that stand for
/// different items.
pub fn combine_substitutions(
    env: &Environment,
    from: Substitutions,
    target_subs: &mut Substitutions,
) -> (r: Result<(), ()>)
    requires
        env.wf(),
        old(target_subs).wf(),
    ensures
        final(target_subs).wf(),
        r is Ok <==> spec_combine(env, from@, old(target_subs)@) is Some,
        spec_combine(env, from@, old(target_subs)@) matches Some(t) ==> final(target_subs)@ == t,
{
    let entries = from.iter_entries();
    let mut i: usize = 0;
    assert(from@.skip(0) =~= from@);
    while i < entries.len()
        invariant
            env.wf(),
            i <= entries@.len(),
            entries@ == from@,
            target_subs.wf(),
            spec_combine(env, from@, old(target_subs)@) == spec_combine(
                env,
                from@.skip(i as int),
                target_subs@,
            ),
        decreases entries@.len() - i,
    {
        let (target, value) = entries[i];
        let value = deref_value(env, value);
        proof {
            assert(from@.skip(i as int).drop_first() =~= from@.skip(i + 1));
            assert(from@.skip(i as int)[0] == entries@[i as int]);
        }
        match target_subs.get(&target) {
            Some(other) => {
                if deref_value(env, other) == deref_value(env, value) {
                } else {
                    return Err(());
                }
            },
            None => {
                target_subs.insert_no_replace(target, value);
            },
        }
        i += 1;
    }
    proof {
        assert(from@.skip(i as int) =~= Seq::<(VariablePtr, ItemPtr)>::empty());
    }
    Ok(())
}

impl Equal {
    pub open spec fn wf(&self) -> bool {
        match self {
            Equal::Yes(l, r) => l.wf() && r.wf(),
            _ => true,
        }
    }

    /// Equal, with no substitution needed.
    pub fn yes() -> (r: Self)
        ensures
            r@ == yes_view(),
            r.wf(),
    {
        Equal::Yes(Substitutions::new(), Substitutions::new())
    }

    /// Equal under the given substitutions of the left and the right side.
    pub fn yes1(left: Substitutions, right: Substitutions) -> (r: Self)
        ensures
            r@ == EqualView::Yes(left@, right@),
            r.wf() == (left.wf() && right.wf()),
    {
        Equal::Yes(left, right)
    }

    /// Equal with no substitution on either side.
    pub fn is_trivial_yes(&self) -> (r: bool)
        ensures
            r == is_trivial_yes_view(self@),
    {
        match self {
            Equal::Yes(left, right) => left.len() == 0 && right.len() == 0,
            _ => false,
        }
    }

    /// Equal when every one of `over` is, under all their substitutions
    /// together (a variable given two values that stand for different items
    /// makes it unknown); unknown as soon as one is unknown or not equal.
    pub fn and(env: &Environment, over: Vec<Self>) -> (r: Self)
        requires
            env.wf(),
            forall|i: int| 0 <= i < over@.len() ==> (#[trigger] over@[i]).wf(),
        ensures
            r@ == spec_and(env, equal_views(over@)),
            r.wf(),
    {
        let mut over = over;
        let mut default = Self::yes();
        let ghost all = equal_views(over@);
        let ghost mut k: int = 0;
        while over.len() > 0
            invariant
                env.wf(),
                0 <= k <= all.len(),
                equal_views(over@) == all.skip(k),
                forall|i: int| 0 <= i < over@.len() ==> (#[trigger] over@[i]).wf(),
                default.wf(),
                spec_and(env, all) == spec_and_from(env, default@, all.skip(k)),
            decreases over@.len(),
        {
            let b = over.remove(0);
            proof {
                assert(all.skip(k)[0] == b@);
                assert(all.skip(k).drop_first() =~= all.skip(k + 1));
                assert(equal_views(over@) =~= all.skip(k + 1));
                k = k + 1;
            }
            match b {
                Self::Yes(left, right) => {
                    match default {
                        Self::Yes(mut exleft, mut exright) => {
                            let success = combine_substitutions(env, left, &mut exleft);
                            let success2 = combine_substitutions(env, right, &mut exright);
                            if success.is_ok() && success2.is_ok() {
                                default = Self::Yes(exleft, exright);
                            } else {
                                default = Self::Unknown;
                            }
                        },
                        other => {
                            default = other;
                        },
                    }
                },
                _ => {
                    default = Self::Unknown;
                },
            }
        }
        proof {
            assert(all.skip(k) =~= Seq::<EqualView>::empty());
        }
        default
    }

    /// The first of `over` that is equal; failing that, unknown if any is
    /// unknown, else not equal.
    pub fn or(over: Vec<Self>) -> (r: Self)
        ensures
            r@ == spec_or(equal_views(over@)),
            (forall|i: int| 0 <= i < over@.len() ==> (#[trigger] over@[i]).wf()) ==> r.wf(),
    {
        let mut rest = over;
        let ghost all = rest@;
        let ghost views = equal_views(all);
        let mut result = Self::No;
        let mut done = false;
        let ghost mut k: int = 0;
        while !done && rest.len() > 0
            invariant
                views == equal_views(all),
                0 <= k <= all.len(),
                rest@ == all.skip(k),
                (forall|i: int| 0 <= i < all.len() ==> (#[trigger] all[i]).wf()) ==> result.wf(),
                done ==> result@ == spec_or(views),
                !done ==> forall|i: int| 0 <= i < k ==> !((#[trigger] all[i])@ is Yes),
                !done ==> (result@ is No <==> forall|i: int| 0 <= i < k ==> (#[trigger] all[i])@ is No),
                !done ==> (result@ is Unknown <==> !(result@ is No)),
            decreases rest@.len(),
        {
            let b = rest.remove(0);
            proof {
                assert(all.skip(k)[0] == b);
                assert(all.skip(k).drop_first() =~= all.skip(k + 1));
                k = k + 1;
            }
            match b {
                Self::Yes(..) => {
                    proof {
                        assert(b == all[k - 1]);
                        assert(views[k - 1] == b@);
                        assert forall|i: int| 0 <= i < k - 1 implies !(#[trigger] views[i] is Yes) by {
                            assert(views[i] == all[i]@);
                        }
                        lemma_or_first_yes(views, k - 1);
                    }
                    result = b;
                    done = true;
                },
                Self::Unknown => {
                    result = Self::Unknown;
                },
                Self::No => {},
            }
        }
        proof {
            if !done {
                assert(all.skip(k).len() == 0);
                assert forall|i: int| 0 <= i < views.len() implies !(#[trigger] views[i] is Yes) by {
                    assert(views[i] == all[i]@);
                }
                assert forall|i: int| 0 <= i < views.len() implies ((#[trigger] views[i]) is No <==> all[i]@ is No) by {
                    assert(views[i] == all[i]@);
                }
                lemma_or_no_yes(views);
                assert(k == all.len());
                if result@ is No {
                    assert forall|i: int| 0 <= i < views.len() implies (#[trigger] views[i]) is No by {
                        assert(all[i]@ is No);
                    }
                    assert(spec_or(views) is No);
                } else {
                    let j = choose|j: int| 0 <= j < k && !((#[trigger] all[j])@ is No);
                    assert(!(views[j] is No));
                    assert(spec_or(views) is Unknown);
                    assert(result@ is Unknown);
                }
            }
        }
        result
    }

    /// The same result, with no substitutions where it is equal.
    pub fn without_subs(self) -> (r: Self)
        ensures
            r@ == without_subs_view(self@),
            self.wf() ==> r.wf(),
    {
        match self {
            Self::Yes(..) => Self::yes(),
            other => other,
        }
    }

    pub fn is_yes(&self) -> (r: bool)
        ensures
            r == (self@ is Yes),
    {
        match self {
            Self::Yes(..) => true,
            _ => false,
        }
    }
}

/// `or` gives the first result that says equal.
pub proof fn lemma_or_first_yes(over: Seq<EqualView>, k: int)
    requires
        0 <= k < over.len(),
        over[k] is Yes,
        forall|i: int| 0 <= i < k ==> !(#[trigger] over[i] is Yes),
    ensures
        spec_or(over) == over[k],
    decreases k,
{
    if k > 0 {
        assert forall|i: int| 0 <= i < k - 1 implies !(#[trigger] over.drop_first()[i] is Yes) by {
            assert(over.drop_first()[i] == over[i + 1]);
        }
        lemma_or_first_yes(over.drop_first(), k - 1);
        assert(!(over[0] is Yes));
    }
}

/// Where no result says equal, `or` is not equal exactly when none is
/// unknown.
pub proof fn lemma_or_no_yes(over: Seq<EqualView>)
    requires
        forall|i: int| 0 <= i < over.len() ==> !(#[trigger] over[i] is Yes),
    ensures
        spec_or(over) is No <==> forall|i: int| 0 <= i < over.len() ==> (#[trigger] over[i]) is No,
        spec_or(over) is Unknown <==> !(spec_or(over) is No),
    decreases over.len(),
{
    if over.len() > 0 {
        assert forall|i: int| 0 <= i < over.drop_first().len() implies !(#[trigger] over.drop_first()[i] is Yes) by {
            assert(over.drop_first()[i] == over[i + 1]);
        }
        lemma_or_no_yes(over.drop_first());
        assert(!(over[0] is Yes));
        if forall|i: int| 0 <= i < over.drop_first().len() ==> (#[trigger] over.drop_first()[i]) is No {
            assert forall|i: int| 0 <= i < over.len() && over[0] is No implies (#[trigger] over[i]) is No by {
                if i > 0 {
                    assert(over.drop_first()[i - 1] == over[i]);
                }
            }
        } else {
            let j = choose|j: int| 0 <= j < over.drop_first().len() && !((#[trigger] over.drop_first()[j]) is No);
            assert(!(over[j + 1] is No));
        }
    }
}

/// Once `and` is unknown it stays unknown.
proof fn lemma_and_from_unknown(env: &Environment, over: Seq<EqualView>)
    ensures
        spec_and_from(env, EqualView::Unknown, over) is Unknown,
    decreases over.len(),
{
    if over.len() > 0 {
        lemma_and_from_unknown(env, over.drop_first());
    }
}

/// `and` of results of which one is unknown or not equal is unknown.
pub proof fn lemma_and_with_unknown_or_no(env: &Environment, over: Seq<EqualView>, k: int)
    requires
        0 <= k < over.len(),
        !(over[k] is Yes),
    ensures
        spec_and(env, over) is Unknown,
{
    lemma_and_from_not_yes(env, yes_view(), over, k);
}

proof fn lemma_and_from_not_yes(env: &Environment, acc: EqualView, over: Seq<EqualView>, k: int)
    requires
        0 <= k < over.len(),
        !(over[k] is Yes),
        !(acc is No),
    ensures
        spec_and_from(env, acc, over) is Unknown,
    decreases k,
{
    if k == 0 {
        lemma_and_from_unknown(env, over.drop_first());
    } else {
        let next = spec_and_step(env, acc, over[0]);
        assert(over.drop_first()[k - 1] == over[k]);
        lemma_and_from_not_yes(env, next, over.drop_first(), k - 1);
    }
}

/// `and` of results that are all equal without substitutions is equal
/// without substitutions; in particular `and` of nothing is.
pub proof fn lemma_and_all_trivial(env: &Environment, over: Seq<EqualView>)
    requires
        forall|i: int| 0 <= i < over.len() ==> is_trivial_yes_view(#[trigger] over[i]),
    ensures
        is_trivial_yes_view(spec_and(env, over)),
    decreases over.len(),
{
    if over.len() > 0 {
        assert(is_trivial_yes_view(over[0]));
        assert(spec_and_step(env, yes_view(), over[0]) == yes_view());
        assert forall|i: int| 0 <= i < over.drop_first().len() implies is_trivial_yes_view(
            #[trigger] over.drop_first()[i],
        ) by {
            assert(over.drop_first()[i] == over[i + 1]);
        }
        lemma_and_all_trivial(env, over.drop_first());
    }
}

/// Dropping substitutions twice is dropping them once, and keeps whether the
/// result is equal.
pub proof fn lemma_without_subs_idempotent(e: EqualView)
    ensures
        without_subs_view(without_subs_view(e)) == without_subs_view(e),
        (without_subs_view(e) is Yes) == (e is Yes),
        e is Yes ==> is_trivial_yes_view(without_subs_view(e)),
{
}

/// `or` of nothing is not equal; `or` is equal exactly when one of the
/// results is.
pub proof fn lemma_or_yes_iff(over: Seq<EqualView>)
    ensures
        over.len() == 0 ==> spec_or(over) is No,
        spec_or(over) is Yes <==> exists|i: int| 0 <= i < over.len() && (#[trigger] over[i]) is Yes,
    decreases over.len(),
{
    if over.len() > 0 {
        lemma_or_yes_iff(over.drop_first());
        if exists|i: int| 0 <= i < over.drop_first().len() && (#[trigger] over.drop_first()[i]) is Yes {
            let i = choose|i: int| 0 <= i < over.drop_first().len() && (#[trigger] over.drop_first()[i]) is Yes;
            assert(over[i + 1] is Yes);
        }
        if exists|i: int| 0 <= i < over.len() && (#[trigger] over[i]) is Yes {
            let i = choose|i: int| 0 <= i < over.len() && (#[trigger] over[i]) is Yes;
            if i > 0 {
                assert(over.drop_first()[i - 1] is Yes);
            }
        }
    }
}

} // verus!
