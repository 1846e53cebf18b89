use vstd::prelude::*;

use crate::dcc::spec_deps_list;
use crate::definitions::Definition;
use crate::deref::{chain_stops_at, lemma_chain_stop_unique, spec_dereference};
use crate::ecc::{spec_left, spec_try_select, select_in_list, var_item, EqualityTestSide};
use crate::environment::Environment;
use crate::equal::{is_trivial_yes_view, value_deref, yes_view, EqualView, SubEntries};
use crate::item::ItemPtr;
use crate::trim::{initial_ctx, spec_trim_result, spec_mostly_trim_yes, spec_thoroughly};
use crate::variable::VariablePtr;

verus! {

/// An item that is not another item under a second name dereferences to
/// itself.
pub proof fn lemma_deref_non_other(env: &Environment, p: ItemPtr)
    requires
        !(env.def(p) is Other),
    ensures
        spec_dereference(env, p) == p,
{
    assert(chain_stops_at(env, p, 0));
    let n = choose|n: nat| chain_stops_at(env, p, n);
    lemma_chain_stop_unique(env, p, n, 0);
}

/// A unique item equals itself, with no substitutions and nothing created.
pub proof fn law_unique_equals_itself(env: &Environment, u: ItemPtr, limit: nat)
    requires
        env.wf(),
        env.valid_item(u),
        env.def(u) is Unique,
        limit >= 1,
    ensures
        spec_left(env, initial_ctx(env, u, u), Seq::empty(), limit).res == Ok::<
            EqualView,
            crate::resolvable::UnresolvedItemError,
        >(yes_view()),
        spec_left(env, initial_ctx(env, u, u), Seq::empty(), limit).pending.len() == 0,
{
    lemma_deref_non_other(env, u);
}

/// Two unique items of different identities are not equal.
pub proof fn law_distinct_uniques_not_equal(env: &Environment, a: ItemPtr, b: ItemPtr, limit: nat)
    requires
        env.wf(),
        env.valid_item(a),
        env.valid_item(b),
        env.def(a) matches Definition::Unique(x) && env.def(b) matches Definition::Unique(y) && x.0 != y.0,
        limit >= 1,
    ensures
        spec_left(env, initial_ctx(env, a, b), Seq::empty(), limit).res == Ok::<
            EqualView,
            crate::resolvable::UnresolvedItemError,
        >(EqualView::No),
{
    lemma_deref_non_other(env, a);
    lemma_deref_non_other(env, b);
}

/// Two structures whose fields carry different labels are not equal,
/// whatever their bodies and values, asked either way round.
pub proof fn law_structures_with_different_labels_differ(env: &Environment, a: ItemPtr, b: ItemPtr, limit: nat)
    requires
        env.wf(),
        env.valid_item(a),
        env.valid_item(b),
        env.def(a) matches Definition::PopulatedStruct(x) && env.def(b) matches Definition::PopulatedStruct(y)
            && x.label@ != y.label@,
        limit >= 1,
    ensures
        spec_left(env, initial_ctx(env, a, b), Seq::empty(), limit).res == Ok::<
            EqualView,
            crate::resolvable::UnresolvedItemError,
        >(EqualView::No),
        spec_left(env, initial_ctx(env, b, a), Seq::empty(), limit).res == Ok::<
            EqualView,
            crate::resolvable::UnresolvedItemError,
        >(EqualView::No),
{
    lemma_deref_non_other(env, a);
    lemma_deref_non_other(env, b);
}

/// Both items are unique items of the environment with the same identity.
pub open spec fn same_unique(env: &Environment, p: ItemPtr, q: ItemPtr) -> bool {
    env.def(p) matches Definition::Unique(x) && env.def(q) matches Definition::Unique(y) && x.0 == y.0
}

/// `p` is a unique item of the environment.
pub open spec fn is_unique_item(env: &Environment, p: ItemPtr) -> bool {
    env.valid_item(p) && env.def(p) is Unique
}

/// Comparing two unique items, whichever side asks, changes nothing pending
/// and never fails; it finds them equal, with nothing to substitute, when
/// they are the same and it may look, and never equal otherwise.
proof fn lemma_unique_pair(
    env: &Environment,
    c: crate::ecc::EccView,
    p: ItemPtr,
    q: ItemPtr,
    pending: crate::ecc::PendingView,
    fuel: nat,
)
    requires
        is_unique_item(env, p),
        is_unique_item(env, q),
    ensures
        spec_left(env, crate::ecc::with_primary_and_other(env, c, p, q), pending, fuel).pending == pending,
        spec_left(env, crate::ecc::with_primary_and_other(env, c, p, q), pending, fuel).res is Ok,
        fuel >= 1 && same_unique(env, p, q) ==> spec_left(
            env,
            crate::ecc::with_primary_and_other(env, c, p, q),
            pending,
            fuel,
        ).res == Ok::<EqualView, crate::resolvable::UnresolvedItemError>(yes_view()),
        !same_unique(env, p, q) ==> !(spec_left(
            env,
            crate::ecc::with_primary_and_other(env, c, p, q),
            pending,
            fuel,
        ).res->Ok_0 is Yes),
{
    lemma_deref_non_other(env, p);
    lemma_deref_non_other(env, q);
}

/// The sub-tests of pairs of unique items from position `k` all succeed, in
/// order, each as `lemma_unique_pair` says, after those already made.
proof fn lemma_unique_pairs(
    env: &Environment,
    c: crate::ecc::EccView,
    pairs: Seq<(ItemPtr, ItemPtr)>,
    k: int,
    pending: crate::ecc::PendingView,
    fuel: nat,
    acc: Seq<EqualView>,
)
    requires
        0 <= k <= pairs.len(),
        forall|i: int| 0 <= i < pairs.len() ==> is_unique_item(env, (#[trigger] pairs[i]).0) && is_unique_item(env, pairs[i].1),
    ensures
        ({
            let (r, p) = crate::ecc::spec_pairs(env, c, pairs, k, pending, fuel, acc);
            &&& p == pending
            &&& r is Ok
            &&& r->Ok_0.len() == acc.len() + pairs.len() - k
            &&& forall|j: int| 0 <= j < acc.len() ==> r->Ok_0[j] == acc[j]
            &&& forall|i: int|
                k <= i < pairs.len() ==> r->Ok_0[acc.len() + i - k] == (#[trigger] spec_left(
                    env,
                    crate::ecc::with_primary_and_other(env, c, pairs[i].0, pairs[i].1),
                    pending,
                    fuel,
                )).res->Ok_0
        }),
    decreases pairs.len() - k,
{
    if k < pairs.len() {
        lemma_unique_pair(env, c, pairs[k].0, pairs[k].1, pending, fuel);
        let o = spec_left(env, crate::ecc::with_primary_and_other(env, c, pairs[k].0, pairs[k].1), pending, fuel);
        let acc2 = acc.push(o.res->Ok_0);
        lemma_unique_pairs(env, c, pairs, k + 1, pending, fuel, acc2);
        assert forall|j: int| 0 <= j < acc.len() implies acc2[j] == acc[j] by {}
        assert(acc2[acc.len() as int] == o.res->Ok_0);
    }
}

/// The four pairs of corresponding parts of two decisions.
pub open spec fn decision_part_pairs(a: crate::definitions::DDecision, b: crate::definitions::DDecision) -> Seq<
    (ItemPtr, ItemPtr),
> {
    seq![(a.left, b.left), (a.right, b.right), (a.when_equal, b.when_equal), (a.when_not_equal, b.when_not_equal)]
}

/// The parts of two decisions, paired in order, are all unique items.
pub open spec fn unique_parts(env: &Environment, x: crate::definitions::DDecision, y: crate::definitions::DDecision) -> bool {
    forall|i: int|
        0 <= i < 4 ==> is_unique_item(env, (#[trigger] decision_part_pairs(x, y)[i]).0) && is_unique_item(
            env,
            decision_part_pairs(x, y)[i].1,
        )
}

/// The corresponding parts of two decisions are the same uniques.
pub open spec fn same_parts(env: &Environment, x: crate::definitions::DDecision, y: crate::definitions::DDecision) -> bool {
    forall|i: int|
        0 <= i < 4 ==> same_unique(env, (#[trigger] decision_part_pairs(x, y)[i]).0, decision_part_pairs(x, y)[i].1)
}

/// A decision between unique items asked, by its definition, whether it
/// equals another: equal with nothing to substitute when all parts are the
/// same and it may look, unknown when one pair differs.
#[verifier::rlimit(40)]
proof fn lemma_decision_asked(env: &Environment, c: crate::ecc::EccView, pending: crate::ecc::PendingView, fuel: nat)
    requires
        env.valid_item(crate::ecc::primary_of(c)),
        env.valid_item(crate::ecc::other_of(c)),
        env.def(crate::ecc::primary_of(c)) is Decision,
        env.def(crate::ecc::other_of(c)) is Decision,
        unique_parts(
            env,
            env.def(crate::ecc::primary_of(c))->Decision_0,
            env.def(crate::ecc::other_of(c))->Decision_0,
        ),
    ensures
        crate::ecc::spec_def(env, c, pending, fuel).ctx == c,
        crate::ecc::spec_def(env, c, pending, fuel).pending == pending,
        same_parts(env, env.def(crate::ecc::primary_of(c))->Decision_0, env.def(crate::ecc::other_of(c))->Decision_0)
            && fuel >= 1 ==> crate::ecc::spec_def(env, c, pending, fuel).res == Ok::<
            EqualView,
            crate::resolvable::UnresolvedItemError,
        >(yes_view()),
        !same_parts(env, env.def(crate::ecc::primary_of(c))->Decision_0, env.def(crate::ecc::other_of(c))->Decision_0)
            ==> crate::ecc::spec_def(env, c, pending, fuel).res == Ok::<
            EqualView,
            crate::resolvable::UnresolvedItemError,
        >(EqualView::Unknown),
{
    let x = env.def(crate::ecc::primary_of(c))->Decision_0;
    let y = env.def(crate::ecc::other_of(c))->Decision_0;
    let pairs = decision_part_pairs(x, y);
    lemma_unique_pairs(env, c, pairs, 0, pending, fuel, Seq::empty());
    let results = crate::ecc::spec_pairs(env, c, pairs, 0, pending, fuel, Seq::empty()).0->Ok_0;
    if same_parts(env, x, y) && fuel >= 1 {
        assert forall|i: int| 0 <= i < results.len() implies is_trivial_yes_view(#[trigger] results[i]) by {
            lemma_unique_pair(env, c, pairs[i].0, pairs[i].1, pending, fuel);
            assert(results[0 + i - 0] == spec_left(
                env,
                crate::ecc::with_primary_and_other(env, c, pairs[i].0, pairs[i].1),
                pending,
                fuel,
            ).res->Ok_0);
        }
        crate::equal::lemma_and_all_trivial(env, results);
        let e = crate::equal::spec_and(env, results);
        assert(e->Yes_0 =~= Seq::<(VariablePtr, ItemPtr)>::empty());
        assert(e->Yes_1 =~= Seq::<(VariablePtr, ItemPtr)>::empty());
    }
    if !same_parts(env, x, y) {
        let k = choose|i: int| 0 <= i < 4 && !same_unique(env, (#[trigger] pairs[i]).0, pairs[i].1);
        lemma_unique_pair(env, c, pairs[k].0, pairs[k].1, pending, fuel);
        assert(results[0 + k - 0] == spec_left(
            env,
            crate::ecc::with_primary_and_other(env, c, pairs[k].0, pairs[k].1),
            pending,
            fuel,
        ).res->Ok_0);
        crate::equal::lemma_and_with_unknown_or_no(env, results, k);
    }
}

/// Two decisions between unique items are equal, with nothing to
/// substitute, when all four of their parts (the two items compared and the
/// two outcomes) are the same uniques; when any one of the four differs,
/// they are not found equal.
pub proof fn law_decisions_of_uniques(env: &Environment, a: ItemPtr, b: ItemPtr, limit: nat)
    requires
        env.wf(),
        env.valid_item(a),
        env.valid_item(b),
        env.def(a) is Decision,
        env.def(b) is Decision,
        unique_parts(env, env.def(a)->Decision_0, env.def(b)->Decision_0),
        limit >= 2,
    ensures
        same_parts(env, env.def(a)->Decision_0, env.def(b)->Decision_0) ==> spec_left(
            env,
            initial_ctx(env, a, b),
            Seq::empty(),
            limit,
        ).res == Ok::<EqualView, crate::resolvable::UnresolvedItemError>(yes_view()),
        !same_parts(env, env.def(a)->Decision_0, env.def(b)->Decision_0) ==> !(spec_left(
            env,
            initial_ctx(env, a, b),
            Seq::empty(),
            limit,
        ).res->Ok_0 is Yes),
{
    lemma_deref_non_other(env, a);
    lemma_deref_non_other(env, b);
    let x = env.def(a)->Decision_0;
    let y = env.def(b)->Decision_0;
    let c0 = initial_ctx(env, a, b);
    let cl = crate::ecc::EccView { side: EqualityTestSide::Left, ..c0 };
    lemma_decision_asked(env, cl, Seq::empty(), (limit - 1) as nat);
    if !same_parts(env, x, y) {
        let o = crate::ecc::spec_def(env, cl, Seq::empty(), (limit - 1) as nat);
        let cr = crate::ecc::EccView { side: EqualityTestSide::Right, ..o.ctx };
        assert(unique_parts(env, y, x)) by {
            assert forall|i: int| 0 <= i < 4 implies is_unique_item(env, (#[trigger] decision_part_pairs(y, x)[i]).0)
                && is_unique_item(env, decision_part_pairs(y, x)[i].1) by {
                assert(decision_part_pairs(y, x)[i] == (decision_part_pairs(x, y)[i].1, decision_part_pairs(x, y)[i].0));
            }
        }
        assert(!same_parts(env, y, x)) by {
            let k = choose|i: int| 0 <= i < 4 && !same_unique(env, (#[trigger] decision_part_pairs(x, y)[i]).0, decision_part_pairs(x, y)[i].1);
            assert(decision_part_pairs(y, x)[k] == (decision_part_pairs(x, y)[k].1, decision_part_pairs(x, y)[k].0));
            assert(!same_unique(env, decision_part_pairs(y, x)[k].0, decision_part_pairs(y, x)[k].1));
        }
        lemma_decision_asked(env, cr, o.pending, (limit - 2) as nat);
    }
}

/// The pairs of corresponding parts, body then value, of two structures.
pub open spec fn struct_part_pairs(
    a: crate::definitions::DPopulatedStruct,
    b: crate::definitions::DPopulatedStruct,
) -> Seq<(ItemPtr, ItemPtr)> {
    seq![(a.body, b.body), (a.value, b.value)]
}

/// A structure whose body and value are unique items asked, by its
/// definition, whether it equals another such structure with the same
/// label: equal with nothing to substitute when body and value are the same
/// and it may look, unknown when one of them differs.
#[verifier::rlimit(40)]
proof fn lemma_struct_asked(env: &Environment, c: crate::ecc::EccView, pending: crate::ecc::PendingView, fuel: nat)
    requires
        env.valid_item(crate::ecc::primary_of(c)),
        env.valid_item(crate::ecc::other_of(c)),
        env.def(crate::ecc::primary_of(c)) matches Definition::PopulatedStruct(x) && env.def(crate::ecc::other_of(c))
            matches Definition::PopulatedStruct(y) && x.label@ == y.label@ && forall|i: int|
            0 <= i < 2 ==> is_unique_item(env, (#[trigger] struct_part_pairs(x, y)[i]).0) && is_unique_item(
                env,
                struct_part_pairs(x, y)[i].1,
            ),
    ensures
        ({
            let x = env.def(crate::ecc::primary_of(c))->PopulatedStruct_0;
            let y = env.def(crate::ecc::other_of(c))->PopulatedStruct_0;
            let o = crate::ecc::spec_def(env, c, pending, fuel);
            &&& o.ctx == c
            &&& o.pending == pending
            &&& same_unique(env, x.body, y.body) && same_unique(env, x.value, y.value) && fuel >= 1 ==> o.res == Ok::<
                EqualView,
                crate::resolvable::UnresolvedItemError,
            >(yes_view())
            &&& !(same_unique(env, x.body, y.body) && same_unique(env, x.value, y.value)) ==> o.res == Ok::<
                EqualView,
                crate::resolvable::UnresolvedItemError,
            >(EqualView::Unknown)
        }),
{
    let x = env.def(crate::ecc::primary_of(c))->PopulatedStruct_0;
    let y = env.def(crate::ecc::other_of(c))->PopulatedStruct_0;
    let pairs = struct_part_pairs(x, y);
    lemma_unique_pairs(env, c, pairs, 0, pending, fuel, Seq::empty());
    let results = crate::ecc::spec_pairs(env, c, pairs, 0, pending, fuel, Seq::empty()).0->Ok_0;
    lemma_unique_pair(env, c, x.body, y.body, pending, fuel);
    lemma_unique_pair(env, c, x.value, y.value, pending, fuel);
    assert(results[0] == spec_left(env, crate::ecc::with_primary_and_other(env, c, x.body, y.body), pending, fuel).res->Ok_0);
    assert(results[1] == spec_left(env, crate::ecc::with_primary_and_other(env, c, pairs[1].0, pairs[1].1), pending, fuel).res->Ok_0);
    if same_unique(env, x.body, y.body) && same_unique(env, x.value, y.value) && fuel >= 1 {
        crate::equal::lemma_and_all_trivial(env, results);
        let e = crate::equal::spec_and(env, results);
        assert(e->Yes_0 =~= Seq::<(VariablePtr, ItemPtr)>::empty());
        assert(e->Yes_1 =~= Seq::<(VariablePtr, ItemPtr)>::empty());
    }
    if !same_unique(env, x.body, y.body) {
        crate::equal::lemma_and_with_unknown_or_no(env, results, 0);
    } else if !same_unique(env, x.value, y.value) {
        crate::equal::lemma_and_with_unknown_or_no(env, results, 1);
    }
}

/// Two structures with the same label whose bodies and values are unique
/// items are equal, with nothing to substitute, when their bodies are the
/// same and their values are the same; when either differs they are not
/// found equal.
pub proof fn law_structures_of_uniques(env: &Environment, a: ItemPtr, b: ItemPtr, limit: nat)
    requires
        env.wf(),
        env.valid_item(a),
        env.valid_item(b),
        env.def(a) matches Definition::PopulatedStruct(x) && env.def(b) matches Definition::PopulatedStruct(y)
            && x.label@ == y.label@ && is_unique_item(env, x.body) && is_unique_item(env, y.body) && is_unique_item(
            env,
            x.value,
        ) && is_unique_item(env, y.value),
        limit >= 2,
    ensures
        ({
            let x = env.def(a)->PopulatedStruct_0;
            let y = env.def(b)->PopulatedStruct_0;
            let r = spec_left(env, initial_ctx(env, a, b), Seq::empty(), limit).res;
            &&& same_unique(env, x.body, y.body) && same_unique(env, x.value, y.value) ==> r == Ok::<
                EqualView,
                crate::resolvable::UnresolvedItemError,
            >(yes_view())
            &&& !(same_unique(env, x.body, y.body) && same_unique(env, x.value, y.value)) ==> !(r->Ok_0 is Yes)
        }),
{
    lemma_deref_non_other(env, a);
    lemma_deref_non_other(env, b);
    let x = env.def(a)->PopulatedStruct_0;
    let y = env.def(b)->PopulatedStruct_0;
    let c0 = initial_ctx(env, a, b);
    let cl = crate::ecc::EccView { side: EqualityTestSide::Left, ..c0 };
    assert forall|i: int| 0 <= i < 2 implies is_unique_item(env, (#[trigger] struct_part_pairs(x, y)[i]).0)
        && is_unique_item(env, struct_part_pairs(x, y)[i].1) by {}
    lemma_struct_asked(env, cl, Seq::empty(), (limit - 1) as nat);
    if !(same_unique(env, x.body, y.body) && same_unique(env, x.value, y.value)) {
        let o = crate::ecc::spec_def(env, cl, Seq::empty(), (limit - 1) as nat);
        let cr = crate::ecc::EccView { side: EqualityTestSide::Right, ..o.ctx };
        assert forall|i: int| 0 <= i < 2 implies is_unique_item(env, (#[trigger] struct_part_pairs(y, x)[i]).0)
            && is_unique_item(env, struct_part_pairs(y, x)[i].1) by {}
        lemma_struct_asked(env, cr, o.pending, (limit - 2) as nat);
    }
}

/// Trimming an equal result without substitutions leaves it as it is.
pub proof fn law_trim_trivial_yes(env: &Environment, limit: nat)
    ensures
        spec_trim_result(env, yes_view(), limit) == Ok::<EqualView, crate::resolvable::UnresolvedItemError>(
            yes_view(),
        ),
{
    let e: SubEntries = Seq::empty();
    assert(crate::trim::spec_trim_values(env, e, crate::dcc::n_items(env) as nat) == e);
    assert(crate::trim::spec_remove_identity(env, e) == e);
    assert(spec_mostly_trim_yes(env, e, e) == (e, e));
    assert(spec_thoroughly(env, e, 0, e, limit) == Ok::<SubEntries, crate::resolvable::UnresolvedItemError>(e));
}

/// A variable that depends on nothing equals any other resolved item that
/// is not itself, by giving it that item.
pub proof fn law_variable_equals_anything(env: &Environment, v: ItemPtr, o: ItemPtr, limit: nat)
    requires
        env.wf(),
        env.valid_item(v),
        env.valid_item(o),
        env.def(v) matches Definition::Variable(d) && env.var(d.0).spec_dependencies().len() == 0,
        !(env.def(o) is Other),
        !(env.def(o) is Resolvable),
        !(env.def(o) matches Definition::Variable(od) && env.def(v) matches Definition::Variable(d) && od.0
            == d.0),
        limit >= 1,
    ensures
        env.def(v) matches Definition::Variable(d) && spec_left(env, initial_ctx(env, v, o), Seq::empty(), limit).res
            == Ok::<EqualView, crate::resolvable::UnresolvedItemError>(
            EqualView::Yes(seq![(d.0, o)], Seq::empty()),
        ),
        spec_left(env, initial_ctx(env, v, o), Seq::empty(), limit).pending.len() == 0,
{
    lemma_deref_non_other(env, v);
    lemma_deref_non_other(env, o);
    if let Definition::Variable(d) = env.def(v) {
        let c = crate::ecc::EccView { side: EqualityTestSide::Left, ..initial_ctx(env, v, o) };
        assert(env.valid_var(d.0)) by {
            crate::ecc::lemma_def_parts_valid(env, v);
        }
        let deps0 = spec_deps_list(
            env,
            crate::dcc::n_items(env) as nat,
            Seq::empty(),
            crate::dependencies::deps_empty(),
            env.var(d.0).spec_dependencies(),
        );
        assert(deps0 == crate::dependencies::deps_empty());
        assert(select_in_list(env, Seq::empty(), 0, d.0, deps0, Seq::empty()) == (deps0, Seq::<SubEntries>::empty(), None::<ItemPtr>));
        assert(spec_try_select(env, c, d.0) == Ok::<Option<crate::ecc::EccView>, crate::resolvable::UnresolvedItemError>(None));
    }
}

/// Trimming leaves the substitution of a unique item for a variable that
/// depends on nothing: the unique item is not what the variable stands for,
/// and testing it against the variable gives that same substitution back.
pub proof fn law_trim_keeps_variable_for_unique(env: &Environment, v: ItemPtr, var: VariablePtr, u: ItemPtr, limit: nat)
    requires
        env.wf(),
        env.valid_item(v),
        env.valid_item(u),
        env.def(v) matches Definition::Variable(d) && d.0 == var,
        var_item(env, var) == Some(v),
        env.var(var).spec_dependencies().len() == 0,
        env.def(u) is Unique,
        limit >= 2,
    ensures
        spec_trim_result(env, EqualView::Yes(seq![(var, u)], Seq::empty()), limit) == Ok::<
            EqualView,
            crate::resolvable::UnresolvedItemError,
        >(EqualView::Yes(seq![(var, u)], Seq::empty())),
{
    lemma_deref_non_other(env, v);
    lemma_deref_non_other(env, u);
    let n = crate::dcc::n_items(env) as nat;
    let l: SubEntries = seq![(var, u)];
    let e: SubEntries = Seq::empty();
    assert(crate::trim::spec_trim_item(env, u, n) == u);
    assert(crate::trim::spec_trim_values(env, l.drop_first(), n) == e);
    assert(crate::trim::spec_trim_values(env, l, n) == l);
    assert(crate::trim::spec_remove_identity(env, l.drop_first()) == e);
    assert(crate::trim::spec_remove_identity(env, l) == l);
    assert(crate::trim::spec_trim_values(env, e, n) == e);
    assert(crate::trim::spec_remove_identity(env, e) == e);
    assert(crate::trim::spec_remove_common_left(env, l, 1, l, e) == (l, e));
    assert(crate::trim::spec_remove_common_left(env, l, 0, l, e) == (l, e));
    assert(crate::trim::spec_remove_common_right(env, e, 0, l, e) == (l, e));
    assert(spec_mostly_trim_yes(env, l, e) == (l, e));
    // Testing `u` against the variable's item.
    law_variable_equals_anything_right(env, u, v, var, (limit - 1) as nat);
    let back = spec_left(env, initial_ctx(env, u, v), Seq::empty(), limit).res;
    assert(back == Ok::<EqualView, crate::resolvable::UnresolvedItemError>(EqualView::Yes(e, l)));
    assert(crate::trim::spec_remove_common_left(env, e, 0, e, l) == (e, l));
    assert(crate::trim::spec_remove_common_right(env, l, 1, e, l) == (e, l));
    assert(crate::trim::spec_remove_common_right(env, l, 0, e, l) == (e, l));
    assert(spec_mostly_trim_yes(env, e, l) == (e, l));
    assert(!is_trivial_yes_view(crate::trim::spec_mostly_trim_result(env, EqualView::Yes(e, l))));
    assert(spec_thoroughly(env, l, 1, l, limit) == Ok::<SubEntries, crate::resolvable::UnresolvedItemError>(l));
    assert(spec_thoroughly(env, l, 0, l, limit) == Ok::<SubEntries, crate::resolvable::UnresolvedItemError>(l));
    assert(spec_thoroughly(env, e, 0, e, limit) == Ok::<SubEntries, crate::resolvable::UnresolvedItemError>(e));
}

/// A unique item tested against a variable that depends on nothing: the
/// unique item does not know, and the variable takes it.
proof fn law_variable_equals_anything_right(env: &Environment, u: ItemPtr, v: ItemPtr, var: VariablePtr, fuel: nat)
    requires
        env.wf(),
        env.valid_item(v),
        env.valid_item(u),
        env.def(v) matches Definition::Variable(d) && d.0 == var,
        env.var(var).spec_dependencies().len() == 0,
        env.def(u) is Unique,
        fuel >= 1,
    ensures
        spec_left(env, initial_ctx(env, u, v), Seq::empty(), fuel + 1).res == Ok::<
            EqualView,
            crate::resolvable::UnresolvedItemError,
        >(EqualView::Yes(Seq::empty(), seq![(var, u)])),
{
    lemma_deref_non_other(env, v);
    lemma_deref_non_other(env, u);
    let c0 = initial_ctx(env, u, v);
    let c = crate::ecc::EccView { side: EqualityTestSide::Right, ..c0 };
    assert(env.valid_var(var)) by {
        crate::ecc::lemma_def_parts_valid(env, v);
    }
    let deps0 = spec_deps_list(
        env,
        crate::dcc::n_items(env) as nat,
        Seq::empty(),
        crate::dependencies::deps_empty(),
        env.var(var).spec_dependencies(),
    );
    assert(deps0 == crate::dependencies::deps_empty());
    assert(select_in_list(env, Seq::empty(), 0, var, deps0, Seq::empty()) == (deps0, Seq::<SubEntries>::empty(), None::<ItemPtr>));
    assert(spec_try_select(env, c, var) == Ok::<Option<crate::ecc::EccView>, crate::resolvable::UnresolvedItemError>(None));
    let cl = crate::ecc::EccView { side: EqualityTestSide::Left, ..c0 };
    let unknown = Ok::<EqualView, crate::resolvable::UnresolvedItemError>(EqualView::Unknown);
    let expected = Ok::<EqualView, crate::resolvable::UnresolvedItemError>(EqualView::Yes(Seq::empty(), seq![(var, u)]));
    assert(crate::ecc::spec_def(env, cl, Seq::empty(), fuel).res == unknown);
    assert(crate::ecc::spec_def(env, cl, Seq::empty(), fuel).ctx == cl);
    assert(crate::ecc::spec_var(env, c, var, Seq::empty(), (fuel - 1) as nat).res == expected);
    assert(crate::ecc::spec_def(env, c, Seq::empty(), (fuel - 1) as nat).res == expected);
    assert(crate::ecc::EccView { side: EqualityTestSide::Right, ..cl } == c);
    assert(crate::ecc::spec_right(env, cl, Seq::empty(), fuel).res == expected);
}

/// Removing identity substitutions leaves none: no variable kept is given a
/// value that stands for the variable's own item, and every variable kept
/// was given a value before.
pub proof fn law_no_identity_after_removal(env: &Environment, subs: SubEntries)
    ensures
        forall|i: int|
            0 <= i < crate::trim::spec_remove_identity(env, subs).len() ==> !(var_item(
                env,
                (#[trigger] crate::trim::spec_remove_identity(env, subs)[i]).0,
            ) matches Some(ti) && value_deref(env, ti) == crate::trim::spec_remove_identity(env, subs)[i].1),
        forall|i: int|
            0 <= i < crate::trim::spec_remove_identity(env, subs).len() ==> exists|j: int|
                0 <= j < subs.len() && subs[j].0 == (#[trigger] crate::trim::spec_remove_identity(env, subs)[i]).0,
    decreases subs.len(),
{
    if subs.len() > 0 {
        let rest = crate::trim::spec_remove_identity(env, subs.drop_first());
        law_no_identity_after_removal(env, subs.drop_first());
        let r = crate::trim::spec_remove_identity(env, subs);
        let t = subs[0].0;
        let vd = value_deref(env, subs[0].1);
        if var_item(env, t) matches Some(ti) && value_deref(env, ti) == vd {
            assert(r == rest);
            assert forall|i: int| 0 <= i < r.len() implies exists|j: int|
                0 <= j < subs.len() && subs[j].0 == (#[trigger] r[i]).0 by {
                let j = choose|j: int| 0 <= j < subs.drop_first().len() && subs.drop_first()[j].0 == rest[i].0;
                assert(subs[j + 1] == subs.drop_first()[j]);
            }
        } else {
            assert(r == seq![(t, vd)] + rest);
            assert forall|i: int| 0 <= i < r.len() implies !(var_item(env, (#[trigger] r[i]).0) matches Some(ti)
                && value_deref(env, ti) == r[i].1) by {
                if i > 0 {
                    assert(r[i] == rest[i - 1]);
                }
            }
            assert forall|i: int| 0 <= i < r.len() implies exists|j: int|
                0 <= j < subs.len() && subs[j].0 == (#[trigger] r[i]).0 by {
                if i == 0 {
                    assert(subs[0].0 == r[0].0);
                } else {
                    assert(r[i] == rest[i - 1]);
                    let j = choose|j: int| 0 <= j < subs.drop_first().len() && subs.drop_first()[j].0 == rest[i - 1].0;
                    assert(subs[j + 1] == subs.drop_first()[j]);
                }
            }
        }
    }
}

} // verus!
