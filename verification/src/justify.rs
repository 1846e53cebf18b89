use vstd::prelude::*;

use crate::dcc::n_items;
use crate::ecc::no_placeholders;
use crate::environment::Environment;
use crate::equal::EqualView;
use crate::invariants::{InvariantSet, InvariantSetPtr, SetJustification, StatementJustifications};
use crate::item::ItemPtr;
use crate::scopes::spec_invariant_sets;
use crate::trim::initial_ctx;

verus! {

/// The invariant set behind `p` exists and follows from the root assumptions.
pub open spec fn is_connected(env: &Environment, p: InvariantSetPtr) -> bool {
    env.valid_set(p) && env.set(p).connected_to_root
}

/// Every set a justification names is connected to the root.
pub open spec fn justification_connected(env: &Environment, j: Seq<InvariantSetPtr>) -> bool {
    forall|k: int| 0 <= k < j.len() ==> is_connected(env, #[trigger] j[k])
}

/// At least one of the ways found to justify a statement is connected to the
/// root.
pub open spec fn any_justification_connected(
    env: &Environment,
    js: Seq<Vec<InvariantSetPtr>>,
) -> bool {
    exists|i: int| 0 <= i < js.len() && justification_connected(env, (#[trigger] js[i])@)
}

/// Every statement of a set justification has a way of being justified that
/// is connected to the root.
pub open spec fn justification_ready(env: &Environment, j: Seq<Vec<Vec<InvariantSetPtr>>>) -> bool {
    forall|a: int| 0 <= a < j.len() ==> any_justification_connected(env, (#[trigger] j[a])@)
}

/// A set may be connected to the root: it has been justified, and every
/// statement it requires has a justification connected to the root.
pub open spec fn set_ready(env: &Environment, s: InvariantSet) -> bool {
    match s.set_justification {
        Some(j) => justification_ready(env, j@),
        None => false,
    }
}

/// Every set connected to the root in `a` is connected to the root in `b`.
pub open spec fn connectivity_grows(a: &Environment, b: &Environment) -> bool {
    forall|p: InvariantSetPtr| #[trigger] is_connected(a, p) ==> is_connected(b, p)
}

/// `b` holds the invariant sets of `a`, where some may have become connected
/// to the root; nothing else differs.
pub open spec fn only_connectedness_changed(a: &Environment, b: &Environment) -> bool {
    &&& b.spec_items() == a.spec_items()
    &&& b.spec_variables() == a.spec_variables()
    &&& b.spec_language_items() == a.spec_language_items()
    &&& b.spec_next_unique() == a.spec_next_unique()
    &&& b.spec_sets().len() == a.spec_sets().len()
    &&& forall|i: int|
        0 <= i < a.spec_sets().len() ==> (#[trigger] b.spec_sets()[i]) == InvariantSet {
            connected_to_root: b.spec_sets()[i].connected_to_root,
            ..a.spec_sets()[i]
        }
    &&& forall|i: int|
        0 <= i < a.spec_sets().len() && (#[trigger] a.spec_sets()[i]).connected_to_root
            ==> b.spec_sets()[i].connected_to_root
}

/// Readiness is kept when more sets become connected to the root.
pub proof fn lemma_ready_mono(a: &Environment, b: &Environment, s: InvariantSet)
    requires
        connectivity_grows(a, b),
        set_ready(a, s),
    ensures
        set_ready(b, s),
{
    let j = s.set_justification.unwrap()@;
    assert forall|x: int| 0 <= x < j.len() implies any_justification_connected(
        b,
        (#[trigger] j[x])@,
    ) by {
        assert(any_justification_connected(a, j[x]@));
        let js = j[x]@;
        let i = choose|i: int| 0 <= i < js.len() && justification_connected(a, (#[trigger] js[i])@);
        assert forall|k: int| 0 <= k < js[i]@.len() implies is_connected(b, #[trigger] js[i]@[k]) by {
            assert(is_connected(a, js[i]@[k]));
        }
        assert(justification_connected(b, js[i]@));
    }
}

/// Whether one of the ways found to justify a statement uses only sets that
/// are connected to the root.
pub fn is_any_statement_justification_connected_to_root(
    env: &Environment,
    justifications: &StatementJustifications,
) -> (r: bool)
    requires
        forall|b: int, c: int|
            0 <= b < justifications@.len() && 0 <= c < justifications@[b]@.len()
                ==> env.valid_set(#[trigger] justifications@[b]@[c]),
    ensures
        r == any_justification_connected(env, justifications@),
{
    let mut b: usize = 0;
    while b < justifications.len()
        invariant
            b <= justifications@.len(),
            forall|b: int, c: int|
                0 <= b < justifications@.len() && 0 <= c < justifications@[b]@.len()
                    ==> env.valid_set(#[trigger] justifications@[b]@[c]),
            forall|i: int| 0 <= i < b ==> !justification_connected(env, (#[trigger] justifications@[i])@),
        decreases justifications@.len() - b,
    {
        let justification = &justifications[b];
        let mut all_connected = true;
        let mut c: usize = 0;
        while c < justification.len() && all_connected
            invariant
                b < justifications@.len(),
                *justification == justifications@[b as int],
                c <= justification@.len(),
                forall|c: int|
                    0 <= c < justification@.len() ==> env.valid_set(#[trigger] justification@[c]),
                all_connected ==> forall|k: int| 0 <= k < c ==> is_connected(env, #[trigger] justification@[k]),
                !all_connected ==> exists|k: int|
                    0 <= k < justification@.len() && !is_connected(env, #[trigger] justification@[k]),
            decreases justification@.len() - c,
        {
            assert(env.valid_set(justification@[c as int]));
            if !env.get_set(justification[c]).connected_to_root {
                all_connected = false;
                assert(!is_connected(env, justification@[c as int]));
            }
            c = c + 1;
        }
        if all_connected {
            assert(c == justification@.len());
            assert(justification_connected(env, justifications@[b as int]@));
            return true;
        }
        b = b + 1;
    }
    false
}

/// Whether every statement of a set justification has a justification
/// connected to the root.
fn is_set_justification_connected_to_root(env: &Environment, just: &SetJustification) -> (r: bool)
    requires
        env.justification_valid(just@),
    ensures
        r == justification_ready(env, just@),
{
    let mut a: usize = 0;
    while a < just.len()
        invariant
            a <= just@.len(),
            env.justification_valid(just@),
            forall|x: int| 0 <= x < a ==> any_justification_connected(env, (#[trigger] just@[x])@),
        decreases just@.len() - a,
    {
        let statement_justifications = &just[a];
        assert forall|b: int, c: int|
            0 <= b < statement_justifications@.len() && 0 <= c < statement_justifications@[b]@.len()
                implies env.valid_set(#[trigger] statement_justifications@[b]@[c]) by {
            assert(env.valid_set(just@[a as int]@[b]@[c]));
        }
        if !is_any_statement_justification_connected_to_root(env, statement_justifications) {
            return false;
        }
        a = a + 1;
    }
    true
}

/// The number of sets not yet connected to the root.
pub open spec fn unconnected_count(sets: Seq<InvariantSet>) -> nat
    decreases sets.len(),
{
    if sets.len() == 0 {
        0
    } else {
        unconnected_count(sets.drop_last()) + if sets.last().connected_to_root {
            0nat
        } else {
            1nat
        }
    }
}

/// Connecting sets never raises the number of unconnected ones, and
/// connecting one lowers it.
pub proof fn lemma_unconnected_count_mono(a: Seq<InvariantSet>, b: Seq<InvariantSet>)
    requires
        a.len() == b.len(),
        forall|i: int| 0 <= i < a.len() && (#[trigger] a[i]).connected_to_root ==> b[i].connected_to_root,
    ensures
        unconnected_count(b) <= unconnected_count(a),
        (exists|i: int| 0 <= i < a.len() && !(#[trigger] a[i]).connected_to_root && b[i].connected_to_root)
            ==> unconnected_count(b) < unconnected_count(a),
    decreases a.len(),
{
    if a.len() > 0 {
        let n = a.len() - 1;
        assert forall|i: int| 0 <= i < a.drop_last().len() && (#[trigger] a.drop_last()[i]).connected_to_root
            implies b.drop_last()[i].connected_to_root by {
            assert(a[i].connected_to_root);
        }
        lemma_unconnected_count_mono(a.drop_last(), b.drop_last());
        assert(a[n].connected_to_root ==> b[n].connected_to_root);
        if exists|i: int| 0 <= i < a.len() && !(#[trigger] a[i]).connected_to_root && b[i].connected_to_root {
            let i = choose|i: int| 0 <= i < a.len() && !(#[trigger] a[i]).connected_to_root && b[i].connected_to_root;
            if i < n {
                assert(!a.drop_last()[i].connected_to_root && b.drop_last()[i].connected_to_root);
            }
        }
    }
}

/// The indices of the sets of `env` connected to the root.
pub open spec fn connected_indices(env: &Environment) -> Set<int> {
    Set::new(|i: int| 0 <= i < env.spec_sets().len() && env.spec_sets()[i].connected_to_root)
}

/// `p` names a set of `env` whose index is in `conn`.
pub open spec fn connected_among(env: &Environment, p: InvariantSetPtr, conn: Set<int>) -> bool {
    env.valid_set(p) && conn.contains(p.index() as int)
}

/// One way of justifying a statement uses only sets whose indices are in
/// `conn`.
pub open spec fn way_among(env: &Environment, w: Seq<InvariantSetPtr>, conn: Set<int>) -> bool {
    forall|k: int| 0 <= k < w.len() ==> connected_among(env, #[trigger] w[k], conn)
}

/// Some way of justifying a statement uses only sets whose indices are in
/// `conn`.
pub open spec fn some_way_among(env: &Environment, ws: Seq<Vec<InvariantSetPtr>>, conn: Set<int>) -> bool {
    exists|i: int| 0 <= i < ws.len() && way_among(env, (#[trigger] ws[i])@, conn)
}

/// The set `s` has been justified, and each statement it requires has a way
/// of being justified that uses only sets whose indices are in `conn`.
pub open spec fn ready_among(env: &Environment, s: InvariantSet, conn: Set<int>) -> bool {
    match s.set_justification {
        Some(j) => forall|a: int| 0 <= a < j@.len() ==> some_way_among(env, (#[trigger] j@[a])@, conn),
        None => false,
    }
}

/// The `k`th set of `order` is a set of `of`, not connected in `old`, and
/// ready using only the sets connected in `old` and those before it in
/// `order`.
pub open spec fn connected_in_turn(old: &Environment, of: Seq<InvariantSetPtr>, order: Seq<int>, k: int) -> bool {
    let i = order[k];
    &&& 0 <= i < old.spec_sets().len()
    &&& !old.spec_sets()[i].connected_to_root
    &&& exists|j: int| 0 <= j < of.len() && (#[trigger] of[j]).index() == i
    &&& ready_among(old, old.spec_sets()[i], connected_indices(old) + order.take(k).to_set())
}

/// The sets connected in `new` are those connected in `old` and those of
/// `order`, each of which became ready, in turn, from the ones before it:
/// a set is connected only when its justification leads back to sets
/// connected at the start, never through a circle.
pub open spec fn connection_order(old: &Environment, new: &Environment, of: Seq<InvariantSetPtr>, order: Seq<int>) -> bool {
    &&& order.no_duplicates()
    &&& forall|k: int| 0 <= k < order.len() ==> #[trigger] connected_in_turn(old, of, order, k)
    &&& forall|i: int|
        0 <= i < old.spec_sets().len() ==> ((#[trigger] new.spec_sets()[i]).connected_to_root <==> (
        old.spec_sets()[i].connected_to_root || order.contains(i)))
}

/// A set ready in `env` is ready using the sets connected in `env`, and so
/// using any indices that include those.
proof fn lemma_ready_among(env: &Environment, s: InvariantSet, conn: Set<int>)
    requires
        set_ready(env, s),
        connected_indices(env).subset_of(conn),
    ensures
        ready_among(env, s, conn),
{
    let j = s.set_justification.unwrap()@;
    assert forall|a: int| 0 <= a < j.len() implies some_way_among(env, (#[trigger] j[a])@, conn) by {
        assert(any_justification_connected(env, j[a]@));
        let ws = j[a]@;
        let i = choose|i: int| 0 <= i < ws.len() && justification_connected(env, (#[trigger] ws[i])@);
        assert forall|k: int| 0 <= k < ws[i]@.len() implies connected_among(env, #[trigger] ws[i]@[k], conn) by {
            assert(is_connected(env, ws[i]@[k]));
            assert(connected_indices(env).contains(ws[i]@[k].index() as int));
        }
        assert(way_among(env, ws[i]@, conn));
    }
}

/// Readiness among indices depends on the validity of handles and the
/// justification only, which only connectedness changes keep.
proof fn lemma_ready_among_same(a: &Environment, b: &Environment, s: InvariantSet, conn: Set<int>)
    requires
        a.spec_sets().len() == b.spec_sets().len(),
        ready_among(b, s, conn),
    ensures
        ready_among(a, s, conn),
{
    let j = s.set_justification.unwrap()@;
    assert forall|x: int| 0 <= x < j.len() implies some_way_among(a, (#[trigger] j[x])@, conn) by {
        let ws = j[x]@;
        assert(some_way_among(b, ws, conn));
        let i = choose|i: int| 0 <= i < ws.len() && way_among(b, (#[trigger] ws[i])@, conn);
        assert forall|k: int| 0 <= k < ws[i]@.len() implies connected_among(a, #[trigger] ws[i]@[k], conn) by {
            assert(connected_among(b, ws[i]@[k], conn));
        }
        assert(way_among(a, ws[i]@, conn));
    }
}

/// Marks as connected to the root, again and again until nothing changes,
/// every set of `of` whose required statements each have a justification
/// connected to the root.
///
/// Only sets of `of` that are ready become connected, sets never lose their
/// connection, and when it returns every set of `of` that is still
/// unconnected is not ready.
pub fn propogate_root_connectedness(env: &mut Environment, of: &[InvariantSetPtr])
    requires
        old(env).wf(),
        forall|i: int| 0 <= i < of@.len() ==> old(env).valid_set(#[trigger] of@[i]),
    ensures
        final(env).wf(),
        only_connectedness_changed(old(env), final(env)),
        forall|i: int|
            0 <= i < old(env).spec_sets().len() && !(#[trigger] old(env).spec_sets()[i]).connected_to_root
                && final(env).spec_sets()[i].connected_to_root ==> exists|j: int| 0 <= j < of@.len() && (#[trigger] of@[j]).index() == i
                && set_ready(final(env), final(env).spec_sets()[i]),
        forall|i: int|
            0 <= i < of@.len() && !final(env).set(#[trigger] of@[i]).connected_to_root ==> !set_ready(
                final(env),
                final(env).set(of@[i]),
            ),
        exists|order: Seq<int>| connection_order(old(env), final(env), of@, order),
{
    let ghost env0 = *env;
    let ghost mut order: Seq<int> = Seq::empty();
    proof {
        assert(connection_order(&env0, env, of@, order));
    }
    loop
        invariant
            connection_order(&env0, env, of@, order),
            env.wf(),
            forall|i: int| 0 <= i < of@.len() ==> env0.valid_set(#[trigger] of@[i]),
            only_connectedness_changed(&env0, env),
            forall|i: int|
                0 <= i < env0.spec_sets().len() && !(#[trigger] env0.spec_sets()[i]).connected_to_root
                    && env.spec_sets()[i].connected_to_root ==> exists|j: int| 0 <= j < of@.len() && (#[trigger] of@[j]).index() == i
                    && set_ready(env, env.spec_sets()[i]),
        ensures
            forall|i: int|
                0 <= i < of@.len() && !env.set(#[trigger] of@[i]).connected_to_root ==> !set_ready(
                    env,
                    env.set(of@[i]),
                ),
        decreases unconnected_count(env.spec_sets()),
    {
        let ghost env_round = *env;
        let mut progress = false;
        let mut idx: usize = 0;
        while idx < of.len()
            invariant
                env.wf(),
                idx <= of@.len(),
                forall|i: int| 0 <= i < of@.len() ==> env0.valid_set(#[trigger] of@[i]),
                only_connectedness_changed(&env0, env),
                only_connectedness_changed(&env_round, env),
                forall|i: int|
                    0 <= i < env0.spec_sets().len() && !(#[trigger] env0.spec_sets()[i]).connected_to_root
                        && env.spec_sets()[i].connected_to_root ==> exists|j: int| 0 <= j < of@.len() && (#[trigger] of@[j]).index() == i
                        && set_ready(env, env.spec_sets()[i]),
                !progress ==> *env == env_round,
                progress ==> exists|i: int|
                    0 <= i < env_round.spec_sets().len() && !(#[trigger] env_round.spec_sets()[i]).connected_to_root
                        && env.spec_sets()[i].connected_to_root,
                !progress ==> forall|j: int|
                    0 <= j < idx && !env.set(#[trigger] of@[j]).connected_to_root ==> !set_ready(
                        env,
                        env.set(of@[j]),
                    ),
                connection_order(&env0, env, of@, order),
            decreases of@.len() - idx,
        {
            let p = of[idx];
            assert(env.valid_set(p)) by {
                assert(env0.valid_set(of@[idx as int]));
            }
            let set = env.get_set(p);
            if !set.connected_to_root {
                let ready = match &set.set_justification {
                    Some(just) => {
                        assert(env.set_valid(env.spec_sets()[p.index() as int]));
                        is_set_justification_connected_to_root(env, just)
                    },
                    None => false,
                };
                if ready {
                    let ghost before = *env;
                    proof {
                        let i = p.index() as int;
                        assert(of@[idx as int].index() == i);
                        assert(!order.contains(i));
                        let conn = connected_indices(&env0) + order.to_set();
                        assert(connected_indices(env).subset_of(conn)) by {
                            assert forall|x: int| connected_indices(env).contains(x) implies conn.contains(x) by {
                                assert(env.spec_sets()[x].connected_to_root);
                                if !env0.spec_sets()[x].connected_to_root {
                                    assert(order.contains(x));
                                    assert(order.to_set().contains(x));
                                } else {
                                    assert(connected_indices(&env0).contains(x));
                                }
                            }
                        }
                        lemma_ready_among(env, env.spec_sets()[i], conn);
                        lemma_ready_among_same(&env0, env, env.spec_sets()[i], conn);
                        assert(env.spec_sets()[i].set_justification == env0.spec_sets()[i].set_justification);
                        assert(ready_among(&env0, env0.spec_sets()[i], conn));
                        let order0 = order;
                        order = order.push(i);
                        assert(order.take(order0.len() as int) =~= order0);
                        assert(order.no_duplicates()) by {
                            assert forall|a: int, b: int| 0 <= a < order.len() && 0 <= b < order.len() && a != b implies order[a] != order[b] by {
                                if a < order0.len() && b < order0.len() {
                                    assert(order0[a] != order0[b]);
                                } else if a < order0.len() {
                                    assert(order0.contains(order0[a]));
                                } else {
                                    assert(order0.contains(order0[b]));
                                }
                            }
                        }
                        assert forall|k: int| 0 <= k < order.len() implies #[trigger] connected_in_turn(&env0, of@, order, k) by {
                            if k < order0.len() {
                                assert(connected_in_turn(&env0, of@, order0, k));
                                assert(order.take(k) =~= order0.take(k));
                                assert(order[k] == order0[k]);
                            } else {
                                assert(order[k] == i);
                                assert(!env0.spec_sets()[i].connected_to_root);
                            }
                        }
                    }
                    env.set_connected_to_root(p);
                    proof {
                        let i = p.index() as int;
                        assert forall|x: int| 0 <= x < env0.spec_sets().len() implies ((#[trigger] env.spec_sets()[x]).connected_to_root <==> (
                            env0.spec_sets()[x].connected_to_root || order.contains(x))) by {
                            if x != i {
                                assert(env.spec_sets()[x] == before.spec_sets()[x]);
                                assert(order.contains(x) <==> order.drop_last().contains(x)) by {
                                    if order.contains(x) {
                                        let w = choose|w: int| 0 <= w < order.len() && order[w] == x;
                                        assert(w < order.len() - 1);
                                        assert(order.drop_last()[w] == x);
                                    }
                                    if order.drop_last().contains(x) {
                                        let w = choose|w: int| 0 <= w < order.drop_last().len() && order.drop_last()[w] == x;
                                        assert(order[w] == x);
                                    }
                                }
                            } else {
                                assert(order[order.len() - 1] == i);
                            }
                        }
                        assert(connection_order(&env0, env, of@, order));
                        assert forall|q: InvariantSetPtr| #[trigger] is_connected(&before, q) implies is_connected(
                            env,
                            q,
                        ) by {
                            if q.index() != p.index() {
                                assert(env.spec_sets()[q.index() as int] == before.spec_sets()[q.index() as int]);
                            }
                        }
                        assert forall|i: int|
                            0 <= i < env0.spec_sets().len() && !(#[trigger] env0.spec_sets()[i]).connected_to_root
                                && env.spec_sets()[i].connected_to_root implies (exists|j: int|
                                0 <= j < of@.len() && (#[trigger] of@[j]).index() == i) && set_ready(env, env.spec_sets()[i]) by {
                            if i == p.index() {
                                assert(of@[idx as int].index() == i);
                                lemma_ready_mono(&before, env, before.spec_sets()[i]);
                            } else {
                                assert(env.spec_sets()[i] == before.spec_sets()[i]);
                                lemma_ready_mono(&before, env, before.spec_sets()[i]);
                            }
                        }
                        assert(!env_round.spec_sets()[p.index() as int].connected_to_root);
                    }
                    progress = true;
                }
            }
            idx = idx + 1;
        }
        if !progress {
            break;
        }
        proof {
            lemma_unconnected_count_mono(env_round.spec_sets(), env.spec_sets());
        }
    }
}

/// Why a statement could not be justified.
#[derive(Clone, Copy, Debug, PartialEq, Eq, Structural)]
pub enum LookupInvariantError {
    /// No available invariant was found to be the statement; with more
    /// effort one might be.
    MightNotExist,
    /// No available invariant can be the statement.
    DefinitelyDoesNotExist,
}

/// `candidate` is the statement, under no substitution of the statement's
/// own variables.
pub open spec fn statement_matches(env: &Environment, statement: ItemPtr, candidate: ItemPtr, limit: nat) -> bool {
    &&& env.valid_item(candidate)
    &&& spec_left_res_matches(env, statement, candidate, limit)
}

pub open spec fn spec_left_res_matches(env: &Environment, statement: ItemPtr, candidate: ItemPtr, limit: nat) -> bool {
    crate::ecc::spec_left(env, initial_ctx(env, statement, candidate), Seq::empty(), limit).res matches Ok(
        EqualView::Yes(l, _),
    ) && l.len() == 0
}

/// One of the statements of the set `s` is the statement.
pub open spec fn set_justifies(env: &Environment, statement: ItemPtr, s: InvariantSetPtr, limit: nat) -> bool {
    &&& env.valid_set(s)
    &&& exists|i: int|
        0 <= i < env.set(s).statements@.len() && statement_matches(env, statement, #[trigger] env.set(s).statements@[i], limit)
}

/// The sets available where `context` stands that justify the statement,
/// in the order the scopes give them.
pub open spec fn spec_justifying_sets(env: &Environment, context: ItemPtr, statement: ItemPtr, limit: nat) -> Seq<
    InvariantSetPtr,
> {
    spec_invariant_sets(env, env.item(context).scope, n_items(env) as nat).filter(
        |s: InvariantSetPtr| set_justifies(env, statement, s, limit),
    )
}

/// Each set as a way of justifying on its own.
pub open spec fn single_ways(sets: Seq<InvariantSetPtr>) -> Seq<Seq<InvariantSetPtr>> {
    sets.map_values(|s: InvariantSetPtr| seq![s])
}

pub open spec fn ways_view(j: Seq<Vec<InvariantSetPtr>>) -> Seq<Seq<InvariantSetPtr>> {
    j.map_values(|w: Vec<InvariantSetPtr>| w@)
}

/// Whether a statement of the set `s` is the statement.
fn set_justifies_exec(env: &Environment, statement: ItemPtr, s: InvariantSetPtr, limit: usize) -> (r: bool)
    requires
        env.wf(),
        no_placeholders(env),
        env.valid_item(statement),
    ensures
        r == set_justifies(env, statement, s, limit as nat),
{
    if s.0 >= env.num_invariant_sets() {
        return false;
    }
    let set = env.get_set(s);
    proof {
        assert(env.set_valid(env.spec_sets()[s.index() as int]));
    }
    let statements = set.statements();
    let mut j: usize = 0;
    while j < statements.len()
        invariant
            env.wf(),
            no_placeholders(env),
            env.valid_item(statement),
            env.valid_set(s),
            statements@ == env.set(s).statements@,
            env.valid_items(statements@),
            j <= statements@.len(),
            forall|k: int| 0 <= k < j ==> !statement_matches(env, statement, #[trigger] statements@[k], limit as nat),
        decreases statements@.len() - j,
    {
        let other_statement = statements[j];
        assert(env.valid_item(statements@[j as int]));
        let eq = statement.get_equality(env, &other_statement, limit);
        let found = match &eq {
            Ok(crate::equal::Equal::Yes(subs, _)) => subs.len() == 0,
            _ => false,
        };
        if found {
            assert(statement_matches(env, statement, statements@[j as int], limit as nat));
            return true;
        }
        j += 1;
    }
    false
}

/// The ways of justifying `statement` where `context` stands: each
/// available invariant set one of whose statements is the statement, under
/// no substitution of its own variables.
pub fn justify_statement(
    env: &Environment,
    context: ItemPtr,
    statement: ItemPtr,
    limit: usize,
) -> (r: Result<StatementJustifications, LookupInvariantError>)
    requires
        env.wf(),
        no_placeholders(env),
        env.valid_item(context),
        env.valid_item(statement),
    ensures
        match r {
            Ok(ways) => ways_view(ways@) == single_ways(spec_justifying_sets(env, context, statement, limit as nat))
                && ways@.len() > 0,
            Err(e) => e == LookupInvariantError::MightNotExist && spec_justifying_sets(
                env,
                context,
                statement,
                limit as nat,
            ).len() == 0,
        },
        r matches Ok(ways) ==> forall|a: int, b: int|
            0 <= a < ways@.len() && 0 <= b < ways@[a]@.len() ==> env.valid_set(#[trigger] ways@[a]@[b]),
{
    let scope = context.clone_scope(env);
    let available = scope.get_invariant_sets(env);
    let ghost all = available@;
    let ghost pred = |s: InvariantSetPtr| set_justifies(env, statement, s, limit as nat);
    let mut result: StatementJustifications = Vec::new();
    let mut i: usize = 0;
    assert(all.take(0).filter(pred) =~= Seq::<InvariantSetPtr>::empty());
    assert(ways_view(result@) =~= Seq::<Seq<InvariantSetPtr>>::empty());
    while i < available.len()
        invariant
            env.wf(),
            no_placeholders(env),
            env.valid_item(statement),
            available@ == all,
            i <= all.len(),
            pred == (|s: InvariantSetPtr| set_justifies(env, statement, s, limit as nat)),
            ways_view(result@) == single_ways(all.take(i as int).filter(pred)),
            forall|a: int, b: int|
                0 <= a < result@.len() && 0 <= b < result@[a]@.len() ==> env.valid_set(#[trigger] result@[a]@[b]),
        decreases all.len() - i,
    {
        let other_set = available[i];
        let found = set_justifies_exec(env, statement, other_set, limit);
        proof {
            assert(all.take(i + 1) =~= all.take(i as int).push(all[i as int]));
            all.take(i as int).lemma_filter_push(all[i as int], pred);
        }
        if found {
            let mut way: Vec<InvariantSetPtr> = Vec::new();
            way.push(other_set);
            let ghost before = result@;
            result.push(way);
            proof {
                assert(way@ =~= seq![other_set]);
                assert(ways_view(result@) =~= ways_view(before).push(seq![other_set]));
                assert(single_ways(all.take(i + 1).filter(pred)) =~= single_ways(all.take(i as int).filter(pred)).push(
                    seq![other_set],
                ));
                assert forall|a: int, b: int|
                    0 <= a < result@.len() && 0 <= b < result@[a]@.len() implies env.valid_set(#[trigger] result@[a]@[b]) by {
                    if a < before.len() {
                        assert(result@[a] == before[a]);
                    } else {
                        assert(result@[a]@ == seq![other_set]);
                    }
                }
            }
        }
        i += 1;
    }
    assert(all.take(i as int) =~= all);
    if result.len() == 0 {
        Err(LookupInvariantError::MightNotExist)
    } else {
        Ok(result)
    }
}

/// Justifies each statement the set `set` requires, records the
/// justification in the set, and returns it; fails with the first
/// statement that cannot be justified, recording nothing.
pub fn justify_set(env: &mut Environment, set: InvariantSetPtr, limit: usize) -> (r: Result<
    SetJustification,
    LookupInvariantError,
>)
    requires
        old(env).wf(),
        no_placeholders(old(env)),
        old(env).valid_set(set),
    ensures
        final(env).wf(),
        no_placeholders(final(env)),
        match r {
            Ok(j) => {
                let reqs = old(env).set(set).justification_requirements@;
                &&& j@.len() == reqs.len()
                &&& forall|a: int| 0 <= a < reqs.len() ==> ways_view((#[trigger] j@[a])@) == single_ways(
                    spec_justifying_sets(old(env), old(env).set(set).context, reqs[a], limit as nat),
                )
                &&& final(env).spec_sets().len() == old(env).spec_sets().len()
                &&& forall|i: int|
                    0 <= i < old(env).spec_sets().len() && i != set.index() ==> #[trigger] final(env).spec_sets()[i]
                        == old(env).spec_sets()[i]
                &&& final(env).set(set) == InvariantSet {
                    set_justification: final(env).set(set).set_justification,
                    ..old(env).set(set)
                }
                &&& final(env).set(set).set_justification matches Some(rec) && rec@.len() == j@.len() && forall|a: int|
                    0 <= a < j@.len() ==> ways_view((#[trigger] rec@[a])@) == ways_view(j@[a]@)
            },
            Err(e) => *final(env) == *old(env) && exists|a: int|
                0 <= a < old(env).set(set).justification_requirements@.len() && spec_justifying_sets(
                    old(env),
                    old(env).set(set).context,
                    #[trigger] old(env).set(set).justification_requirements@[a],
                    limit as nat,
                ).len() == 0,
        },
        r is Ok ==> ({
            &&& final(env).spec_items() == old(env).spec_items()
            &&& final(env).spec_variables() == old(env).spec_variables()
            &&& final(env).spec_language_items() == old(env).spec_language_items()
            &&& final(env).spec_next_unique() == old(env).spec_next_unique()
        }),
{
    let s = env.get_set(set);
    proof {
        assert(env.set_valid(env.spec_sets()[set.index() as int]));
    }
    let context = s.context;
    let requirements = s.justification_requirements();
    let mut justifications: SetJustification = Vec::new();
    let mut a: usize = 0;
    while a < requirements.len()
        invariant
            env.wf(),
            no_placeholders(env),
            env.valid_item(context),
            context == env.set(set).context,
            requirements@ == env.set(set).justification_requirements@,
            env.valid_items(requirements@),
            a <= requirements@.len(),
            justifications@.len() == a,
            forall|k: int| 0 <= k < a ==> ways_view((#[trigger] justifications@[k])@) == single_ways(
                spec_justifying_sets(env, context, requirements@[k], limit as nat),
            ),
            env.justification_valid(justifications@),
        decreases requirements@.len() - a,
    {
        assert(env.valid_item(requirements@[a as int]));
        let justified_by = justify_statement(env, context, requirements[a], limit);
        match justified_by {
            Err(e) => {
                return Err(e);
            },
            Ok(ways) => {
                let ghost before = justifications@;
                justifications.push(ways);
                proof {
                    let j = justifications@;
                    assert forall|x: int, b: int, c: int|
                        0 <= x < j.len() && 0 <= b < j[x]@.len() && 0 <= c < j[x]@[b]@.len()
                            implies env.valid_set(#[trigger] j[x]@[b]@[c]) by {
                        if x < before.len() {
                            assert(j[x] == before[x]);
                        }
                    }
                }
            },
        }
        a += 1;
    }
    let recorded = clone_justification(&justifications);
    proof {
        let j = recorded@;
        assert forall|x: int, b: int, c: int|
            0 <= x < j.len() && 0 <= b < j[x]@.len() && 0 <= c < j[x]@[b]@.len() implies env.valid_set(
            #[trigger] j[x]@[b]@[c],
        ) by {
            assert(j[x]@[b]@ == justifications@[x]@[b]@);
            assert(env.valid_set(justifications@[x]@[b]@[c]));
        }
    }
    env.set_set_justification(set, recorded);
    Ok(justifications)
}

/// A copy of a set justification.
fn clone_justification(j: &SetJustification) -> (r: SetJustification)
    ensures
        r@.len() == j@.len(),
        forall|a: int| 0 <= a < j@.len() ==> ways_view((#[trigger] r@[a])@) == ways_view(j@[a]@),
        forall|a: int, b: int| 0 <= a < j@.len() && 0 <= b < j@[a]@.len() ==> (#[trigger] r@[a]@[b])@ == j@[a]@[b]@,
{
    let mut r: SetJustification = Vec::new();
    let mut a: usize = 0;
    while a < j.len()
        invariant
            a <= j@.len(),
            r@.len() == a,
            forall|x: int| 0 <= x < a ==> ways_view((#[trigger] r@[x])@) == ways_view(j@[x]@),
            forall|x: int, b: int| 0 <= x < a && 0 <= b < j@[x]@.len() ==> (#[trigger] r@[x]@[b])@ == j@[x]@[b]@,
        decreases j@.len() - a,
    {
        let ways = &j[a];
        let mut copy: StatementJustifications = Vec::new();
        let mut b: usize = 0;
        while b < ways.len()
            invariant
                b <= ways@.len(),
                copy@.len() == b,
                forall|y: int| 0 <= y < b ==> (#[trigger] copy@[y])@ == ways@[y]@,
            decreases ways@.len() - b,
        {
            let way = &ways[b];
            let mut w: Vec<InvariantSetPtr> = Vec::new();
            let mut c: usize = 0;
            while c < way.len()
                invariant
                    c <= way@.len(),
                    w@ == way@.take(c as int),
                decreases way@.len() - c,
            {
                w.push(way[c]);
                c += 1;
                assert(w@ =~= way@.take(c as int));
            }
            assert(way@.take(c as int) =~= way@);
            copy.push(w);
            b += 1;
        }
        proof {
            assert(ways_view(copy@) =~= ways_view(ways@));
        }
        r.push(copy);
        a += 1;
    }
    r
}

/// Why justifying every invariant set failed.
#[derive(Debug)]
pub enum JustifyAllError {
    /// An item whose invariants were needed is not resolved yet.
    Unresolved(crate::resolvable::UnresolvedItemError),
    /// The sets that could not be connected to the root in the last round.
    NotJustified(Vec<InvariantSetPtr>),
}

/// Every item reachable from `root` in `a` has, in `b`, one of `sets` as its
/// invariant set.
pub open spec fn sets_cover(a: &Environment, b: &Environment, root: ItemPtr, sets: Seq<InvariantSetPtr>) -> bool {
    forall|p: ItemPtr|
        crate::traversal::reachable(a, root, p) ==> exists|k: int|
            0 <= k < sets.len() && b.item(p).invariants == Some(#[trigger] sets[k])
}

/// An unresolved item reachable, once invariants were computed, from an
/// item reachable from `root` was unresolved and reachable from `root` before.
proof fn lemma_unresolved_found(env0: &Environment, before: &Environment, root: ItemPtr, item: ItemPtr)
    requires
        env0.wf(),
        env0.valid_item(item),
        crate::icc::invariants_grown(env0, before),
        crate::traversal::reachable(env0, root, item),
    ensures
        forall|y: ItemPtr|
            #[trigger] crate::traversal::reachable(before, item, y) && before.def(y) is Resolvable
                ==> crate::traversal::reachable(env0, root, y) && env0.def(y) is Resolvable,
{
    assert forall|y: ItemPtr| #[trigger] crate::traversal::reachable(before, item, y) && before.def(y) is Resolvable
        implies crate::traversal::reachable(env0, root, y) && env0.def(y) is Resolvable by {
        assert forall|i: int| 0 <= i < env0.spec_items().len() implies (#[trigger] before.spec_items()[i]).definition
            == env0.spec_items()[i].definition by {}
        crate::traversal::lemma_reachable_same(env0, before, item, y);
        assert(before.spec_items()[y.index() as int].definition == env0.spec_items()[y.index() as int].definition);
        crate::traversal::lemma_reachable_trans(env0, root, item, y);
    }
}

/// The invariant sets of this item and of everything it contains, computed
/// where they were not yet.
pub fn collect_invariant_sets(env: &mut Environment, root: ItemPtr) -> (r: Result<
    Vec<InvariantSetPtr>,
    crate::resolvable::UnresolvedItemError,
>)
    requires
        old(env).wf(),
        no_placeholders(old(env)),
        old(env).valid_item(root),
    ensures
        final(env).wf(),
        no_placeholders(final(env)),
        crate::icc::invariants_grown(old(env), final(env)),
        crate::icc::caches_kept(old(env), final(env)),
        r matches Ok(sets) ==> forall|i: int| 0 <= i < sets@.len() ==> final(env).valid_set(#[trigger] sets@[i]),
        match r {
            Ok(sets) => {
                &&& sets_cover(old(env), final(env), root, sets@)
                &&& forall|k: int|
                    0 <= k < sets@.len() ==> exists|p: ItemPtr|
                        crate::traversal::reachable(old(env), root, p) && final(env).item(p).invariants == Some(
                            #[trigger] sets@[k],
                        )
            },
            Err(e) => crate::traversal::reachable(old(env), root, e.0) && old(env).def(e.0) is Resolvable,
        },
{
    let items = root.for_self_and_deep_contents(env);
    let ghost env0 = *env;
    let mut result: Vec<InvariantSetPtr> = Vec::new();
    let mut k: usize = 0;
    proof {
        crate::icc::lemma_invariants_grown_trans(&env0, &env0, &env0);
        assert(crate::icc::invariants_grown(&env0, &env0)) by {
            assert forall|i: int| 0 <= i < env0.spec_items().len() implies #[trigger] env0.spec_items()[i] == (crate::item::Item {
                invariants: env0.spec_items()[i].invariants,
                ..env0.spec_items()[i]
            }) by {}
        }
    }
    assert(crate::icc::caches_kept(&env0, &env0));
    while k < items.len()
        invariant
            env.wf(),
            env0 == *old(env),
            no_placeholders(env),
            crate::icc::invariants_grown(&env0, env),
            crate::icc::caches_kept(&env0, env),
            forall|i: int| 0 <= i < items@.len() ==> env0.valid_item(#[trigger] items@[i]),
            forall|i: int| 0 <= i < result@.len() ==> env.valid_set(#[trigger] result@[i]),
            result@.len() == k,
            forall|i: int| 0 <= i < k ==> env.item(#[trigger] items@[i]).invariants == Some(result@[i]),
            k <= items@.len(),
            items@.len() > 0,
            env0.wf(),
            forall|y: ItemPtr| items@.contains(y) <==> crate::traversal::reachable(&env0, root, y),
        decreases items@.len() - k,
    {
        let item = items[k];
        assert(env0.valid_item(items@[k as int]));
        let ghost before = *env;
        proof {
            assert(items@.contains(items@[k as int]));
            lemma_unresolved_found(&env0, &before, root, item);
        }
        let s = item.get_invariants(env)?;
        proof {
            crate::icc::lemma_invariants_grown_trans(&env0, &before, env);
            crate::icc::lemma_caches_kept_trans(&env0, &before, env);
            assert forall|i: int| 0 <= i < result@.len() implies env.valid_set(#[trigger] result@[i]) by {
                assert(before.valid_set(result@[i]));
            }
            assert forall|i: int| 0 <= i < k implies env.item(#[trigger] items@[i]).invariants == Some(result@[i]) by {
                assert(before.item(items@[i]).invariants == Some(result@[i]));
                assert(before.spec_items()[items@[i].index() as int].invariants is Some);
            }
        }
        result.push(s);
        k += 1;
    }
    proof {
        assert forall|p: ItemPtr| crate::traversal::reachable(old(env), root, p) implies exists|k: int|
            0 <= k < result@.len() && env.item(p).invariants == Some(#[trigger] result@[k]) by {
            assert(crate::traversal::reachable(&env0, root, p));
            assert(items@.contains(p));
            let k = choose|k: int| 0 <= k < items@.len() && items@[k] == p;
            assert(env.item(items@[k]).invariants == Some(result@[k]));
        }
        assert(sets_cover(old(env), env, root, result@));
        assert forall|k: int| 0 <= k < result@.len() implies exists|p: ItemPtr|
            crate::traversal::reachable(old(env), root, p) && env.item(p).invariants == Some(#[trigger] result@[k]) by {
            assert(items@.contains(items@[k]));
            assert(env.item(items@[k]).invariants == Some(result@[k]));
        }
    }
    Ok(result)
}

/// Sets keep what they say and their justifications; only connectedness and
/// the justifications of unconnected sets change.
pub open spec fn justification_progress(a: &Environment, b: &Environment) -> bool {
    &&& b.spec_items() == a.spec_items()
    &&& b.spec_variables() == a.spec_variables()
    &&& b.spec_language_items() == a.spec_language_items()
    &&& b.spec_next_unique() == a.spec_next_unique()
    &&& b.spec_sets().len() == a.spec_sets().len()
    &&& forall|i: int|
        0 <= i < a.spec_sets().len() ==> (#[trigger] b.spec_sets()[i]) == InvariantSet {
            connected_to_root: b.spec_sets()[i].connected_to_root,
            set_justification: b.spec_sets()[i].set_justification,
            ..a.spec_sets()[i]
        }
    &&& forall|i: int|
        0 <= i < a.spec_sets().len() && (#[trigger] a.spec_sets()[i]).connected_to_root ==> b.spec_sets()[i].connected_to_root
            && b.spec_sets()[i].set_justification == a.spec_sets()[i].set_justification
}

/// In `a`, the requirements of the set `u` were looked for with effort
/// `limit`: one of them had no justifying set there, or `new` records for
/// `u` the ways of justifying each that were found there.
pub open spec fn found_at(a: &Environment, new: &Environment, u: InvariantSetPtr, limit: nat) -> bool {
    let s = a.set(u);
    let reqs = s.justification_requirements@;
    ||| exists|k: int| 0 <= k < reqs.len() && #[trigger] spec_justifying_sets(a, s.context, reqs[k], limit).len() == 0
    ||| new.set(u).set_justification matches Some(rec) && rec@.len() == reqs.len() && forall|k: int|
        0 <= k < reqs.len() ==> ways_view((#[trigger] rec@[k])@) == single_ways(
            spec_justifying_sets(a, s.context, reqs[k], limit),
        )
}

/// The requirements of the set `u` were looked for with effort `limit` in an
/// environment between `old` and `new`.
pub open spec fn looked_for_at(old: &Environment, new: &Environment, u: InvariantSetPtr, limit: nat) -> bool {
    exists|a: Environment|
        justification_progress(old, &a) && justification_progress(&a, new) && #[trigger] found_at(&a, new, u, limit)
}

proof fn lemma_looked_kept(old: &Environment, mid: &Environment, new: &Environment, u: InvariantSetPtr, limit: nat)
    requires
        looked_for_at(old, mid, u, limit),
        justification_progress(mid, new),
        new.set(u).set_justification == mid.set(u).set_justification,
    ensures
        looked_for_at(old, new, u, limit),
{
    let a = choose|a: Environment|
        justification_progress(old, &a) && justification_progress(&a, mid) && #[trigger] found_at(&a, mid, u, limit);
    lemma_progress_trans(&a, mid, new);
    assert(found_at(&a, new, u, limit));
}

/// Every set connected to the root in `env` that was not in `env0` is
/// ready: each statement it requires has a justification connected to the
/// root.
pub open spec fn newly_connected_ready(env0: &Environment, env: &Environment) -> bool {
    forall|i: int|
        0 <= i < env0.spec_sets().len() && !(#[trigger] env0.spec_sets()[i]).connected_to_root
            && env.spec_sets()[i].connected_to_root ==> set_ready(env, env.spec_sets()[i])
}

proof fn lemma_progress_trans(a: &Environment, b: &Environment, c: &Environment)
    requires
        justification_progress(a, b),
        justification_progress(b, c),
    ensures
        justification_progress(a, c),
{
    assert forall|i: int| 0 <= i < a.spec_sets().len() implies (#[trigger] c.spec_sets()[i]) == InvariantSet {
        connected_to_root: c.spec_sets()[i].connected_to_root,
        set_justification: c.spec_sets()[i].set_justification,
        ..a.spec_sets()[i]
    } by {
        assert(b.spec_sets()[i] == InvariantSet {
            connected_to_root: b.spec_sets()[i].connected_to_root,
            set_justification: b.spec_sets()[i].set_justification,
            ..a.spec_sets()[i]
        });
    }
    assert forall|i: int|
        0 <= i < a.spec_sets().len() && (#[trigger] a.spec_sets()[i]).connected_to_root implies c.spec_sets()[i].connected_to_root
            && c.spec_sets()[i].set_justification == a.spec_sets()[i].set_justification by {
        assert(b.spec_sets()[i].connected_to_root);
    }
}

proof fn lemma_progress_refl(a: &Environment)
    ensures
        justification_progress(a, a),
{
    assert forall|i: int| 0 <= i < a.spec_sets().len() implies (#[trigger] a.spec_sets()[i]) == InvariantSet {
        connected_to_root: a.spec_sets()[i].connected_to_root,
        set_justification: a.spec_sets()[i].set_justification,
        ..a.spec_sets()[i]
    } by {}
}

/// Justifies each set of `sets` that is not connected to the root, with
/// ever more effort, propagating connection to the root after each round,
/// until every required set is connected or the effort runs out. Fails
/// with the sets still unconnected in the last round.
pub fn justify_sets(env: &mut Environment, sets: &Vec<InvariantSetPtr>) -> (r: Result<(), Vec<InvariantSetPtr>>)
    requires
        old(env).wf(),
        no_placeholders(old(env)),
        forall|i: int| 0 <= i < sets@.len() ==> old(env).valid_set(#[trigger] sets@[i]),
    ensures
        final(env).wf(),
        no_placeholders(final(env)),
        justification_progress(old(env), final(env)),
        newly_connected_ready(old(env), final(env)),
        r is Ok <==> forall|i: int|
            0 <= i < sets@.len() && final(env).set(#[trigger] sets@[i]).required ==> final(env).set(sets@[i]).connected_to_root,
        r matches Err(unjustified) ==> unjustified@.len() > 0 && (forall|i: int|
            0 <= i < unjustified@.len() ==> sets@.contains(#[trigger] unjustified@[i]) && final(env).set(
                unjustified@[i],
            ).required && !final(env).set(unjustified@[i]).connected_to_root) && (forall|i: int|
            0 <= i < sets@.len() && final(env).set(#[trigger] sets@[i]).required && !final(env).set(
                sets@[i],
            ).connected_to_root ==> unjustified@.contains(sets@[i])),
        r matches Err(unjustified) ==> forall|i: int|
            0 <= i < unjustified@.len() ==> looked_for_at(old(env), final(env), #[trigger] unjustified@[i], 15),
{
    let ghost env0 = *env;
    let max_limit: usize = 16;
    let mut limit: usize = 0;
    proof {
        lemma_progress_refl(env);
    }
    while limit < max_limit
        invariant
            env.wf(),
            no_placeholders(env),
            forall|i: int| 0 <= i < sets@.len() ==> env0.valid_set(#[trigger] sets@[i]),
            justification_progress(&env0, env),
            newly_connected_ready(&env0, env),
            max_limit == 16,
            limit <= max_limit,
            limit == max_limit ==> forall|j: int|
                0 <= j < sets@.len() && !env.set(#[trigger] sets@[j]).connected_to_root ==> looked_for_at(
                    &env0,
                    env,
                    sets@[j],
                    15,
                ),
        ensures
            env.wf(),
            no_placeholders(env),
            justification_progress(&env0, env),
            newly_connected_ready(&env0, env),
            limit == max_limit ==> forall|j: int|
                0 <= j < sets@.len() && !env.set(#[trigger] sets@[j]).connected_to_root ==> looked_for_at(
                    &env0,
                    env,
                    sets@[j],
                    15,
                ),
            limit < max_limit ==> forall|i: int|
                0 <= i < sets@.len() && env.set(#[trigger] sets@[i]).required ==> env.set(sets@[i]).connected_to_root,
        decreases max_limit - limit,
    {
        let mut k: usize = 0;
        while k < sets.len()
            invariant
                env.wf(),
                no_placeholders(env),
                forall|i: int| 0 <= i < sets@.len() ==> env0.valid_set(#[trigger] sets@[i]),
                justification_progress(&env0, env),
                newly_connected_ready(&env0, env),
                k <= sets@.len(),
                limit < max_limit,
                max_limit == 16,
                limit == 15 ==> forall|j: int|
                    0 <= j < k && !env.set(#[trigger] sets@[j]).connected_to_root ==> looked_for_at(
                        &env0,
                        env,
                        sets@[j],
                        15,
                    ),
            decreases sets@.len() - k,
        {
            let p = sets[k];
            assert(env0.valid_set(sets@[k as int]));
            let ghost before_step = *env;
            if !env.get_set(p).connected_to_root {
                let ghost before = *env;
                let res = justify_set(env, p, limit as usize);
                proof {
                    match res {
                        Ok(_) => {
                            assert(justification_progress(&before, env)) by {
                                assert forall|i: int| 0 <= i < before.spec_sets().len() implies (#[trigger] env.spec_sets()[i])
                                    == InvariantSet {
                                    connected_to_root: env.spec_sets()[i].connected_to_root,
                                    set_justification: env.spec_sets()[i].set_justification,
                                    ..before.spec_sets()[i]
                                } by {}
                            }
                            assert forall|q: InvariantSetPtr| #[trigger] is_connected(&before, q) implies is_connected(env, q) by {
                                if q.index() != p.index() {
                                    assert(env.spec_sets()[q.index() as int] == before.spec_sets()[q.index() as int]);
                                }
                            }
                            assert forall|q: InvariantSetPtr| #[trigger] is_connected(env, q) implies is_connected(&before, q) by {
                                if q.index() != p.index() {
                                    assert(env.spec_sets()[q.index() as int] == before.spec_sets()[q.index() as int]);
                                }
                            }
                            assert forall|i: int|
                                0 <= i < env0.spec_sets().len() && !(#[trigger] env0.spec_sets()[i]).connected_to_root
                                    && env.spec_sets()[i].connected_to_root implies set_ready(env, env.spec_sets()[i]) by {
                                if i != p.index() {
                                    assert(env.spec_sets()[i] == before.spec_sets()[i]);
                                    lemma_ready_mono(&before, env, before.spec_sets()[i]);
                                }
                            }
                        },
                        Err(_) => {},
                    }
                    lemma_progress_trans(&env0, &before, env);
                    if limit == 15 {
                        assert(found_at(&before, env, p, 15));
                        lemma_progress_refl(env);
                        assert(looked_for_at(&env0, env, p, 15));
                        assert forall|j: int|
                            0 <= j < k + 1 && !env.set(#[trigger] sets@[j]).connected_to_root implies looked_for_at(
                                &env0,
                                env,
                                sets@[j],
                                15,
                            ) by {
                            if sets@[j] != p {
                                assert(env0.valid_set(sets@[j]));
                                assert(env.spec_sets()[sets@[j].index() as int] == before.spec_sets()[sets@[j].index() as int]);
                                lemma_looked_kept(&env0, &before, env, sets@[j], 15);
                            }
                        }
                    }
                }
            }
            proof {
                if limit == 15 {
                    assert forall|j: int|
                        0 <= j < k + 1 && !env.set(#[trigger] sets@[j]).connected_to_root implies looked_for_at(
                            &env0,
                            env,
                            sets@[j],
                            15,
                        ) by {
                        if j == k {
                            assert(env.set(sets@[j]).connected_to_root || !before_step.set(p).connected_to_root);
                        }
                    }
                }
            }
            k += 1;
        }
        let ghost before = *env;
        propogate_root_connectedness(env, sets.as_slice());
        proof {
            assert(justification_progress(&before, env)) by {
                assert forall|i: int| 0 <= i < before.spec_sets().len() implies (#[trigger] env.spec_sets()[i]) == InvariantSet {
                    connected_to_root: env.spec_sets()[i].connected_to_root,
                    set_justification: env.spec_sets()[i].set_justification,
                    ..before.spec_sets()[i]
                } by {
                    assert(env.spec_sets()[i] == InvariantSet {
                        connected_to_root: env.spec_sets()[i].connected_to_root,
                        ..before.spec_sets()[i]
                    });
                }
                assert forall|i: int|
                    0 <= i < before.spec_sets().len() && (#[trigger] before.spec_sets()[i]).connected_to_root implies env.spec_sets()[i].connected_to_root
                        && env.spec_sets()[i].set_justification == before.spec_sets()[i].set_justification by {
                    assert(env.spec_sets()[i] == InvariantSet {
                        connected_to_root: env.spec_sets()[i].connected_to_root,
                        ..before.spec_sets()[i]
                    });
                }
            }
            assert forall|q: InvariantSetPtr| #[trigger] is_connected(&before, q) implies is_connected(env, q) by {
                if before.valid_set(q) {
                    assert(before.spec_sets()[q.index() as int].connected_to_root ==> env.spec_sets()[q.index() as int].connected_to_root);
                }
            }
            assert forall|i: int|
                0 <= i < env0.spec_sets().len() && !(#[trigger] env0.spec_sets()[i]).connected_to_root
                    && env.spec_sets()[i].connected_to_root implies set_ready(env, env.spec_sets()[i]) by {
                if before.spec_sets()[i].connected_to_root {
                    lemma_ready_mono(&before, env, before.spec_sets()[i]);
                    assert(env.spec_sets()[i].set_justification == before.spec_sets()[i].set_justification);
                    assert(env.spec_sets()[i] == InvariantSet {
                        connected_to_root: env.spec_sets()[i].connected_to_root,
                        ..before.spec_sets()[i]
                    });
                }
            }
            lemma_progress_trans(&env0, &before, env);
            if limit == 15 {
                assert forall|j: int|
                    0 <= j < sets@.len() && !env.set(#[trigger] sets@[j]).connected_to_root implies looked_for_at(
                        &env0,
                        env,
                        sets@[j],
                        15,
                    ) by {
                    assert(env0.valid_set(sets@[j]));
                    let x = sets@[j].index() as int;
                    assert(env.spec_sets()[x] == InvariantSet { connected_to_root: env.spec_sets()[x].connected_to_root, ..before.spec_sets()[x] });
                    lemma_looked_kept(&env0, &before, env, sets@[j], 15);
                }
            }
        }
        let ghost after_round = *env;
        let mut all_connected = true;
        let mut k: usize = 0;
        while k < sets.len()
            invariant
                env.wf(),
                forall|i: int| 0 <= i < sets@.len() ==> env0.valid_set(#[trigger] sets@[i]),
                justification_progress(&env0, env),
                k <= sets@.len(),
                all_connected ==> forall|i: int|
                    0 <= i < k && env.set(#[trigger] sets@[i]).required ==> env.set(sets@[i]).connected_to_root,
                !all_connected ==> exists|i: int|
                    0 <= i < sets@.len() && !env.set(#[trigger] sets@[i]).connected_to_root,
            decreases sets@.len() - k,
        {
            let p = sets[k];
            assert(env0.valid_set(sets@[k as int]));
            let set = env.get_set(p);
            if !set.connected_to_root && set.required {
                all_connected = false;
                assert(!env.set(sets@[k as int]).connected_to_root);
            }
            k += 1;
        }
        if all_connected {
            break;
        }
        limit += 1;
    }
    // What is left unjustified: the required sets still not connected.
    let mut unjustified: Vec<InvariantSetPtr> = Vec::new();
    let mut k: usize = 0;
    while k < sets.len()
        invariant
            env.wf(),
            forall|i: int| 0 <= i < sets@.len() ==> env0.valid_set(#[trigger] sets@[i]),
            justification_progress(&env0, env),
            k <= sets@.len(),
            forall|i: int|
                0 <= i < unjustified@.len() ==> sets@.contains(#[trigger] unjustified@[i]) && env.set(
                    unjustified@[i],
                ).required && !env.set(unjustified@[i]).connected_to_root,
            forall|i: int|
                0 <= i < k && env.set(#[trigger] sets@[i]).required && !env.set(sets@[i]).connected_to_root
                    ==> unjustified@.contains(sets@[i]),
        decreases sets@.len() - k,
    {
        let p = sets[k];
        assert(env0.valid_set(sets@[k as int]));
        let set = env.get_set(p);
        if !set.connected_to_root && set.required {
            let ghost u0 = unjustified@;
            unjustified.push(p);
            proof {
                assert(sets@.contains(sets@[k as int]));
                assert forall|i: int| 0 <= i < k + 1 && env.set(#[trigger] sets@[i]).required && !env.set(
                    sets@[i],
                ).connected_to_root implies unjustified@.contains(sets@[i]) by {
                    if i < k {
                        let w = choose|w: int| 0 <= w < u0.len() && u0[w] == sets@[i];
                        assert(unjustified@[w] == sets@[i]);
                    } else {
                        assert(unjustified@[u0.len() as int] == sets@[i]);
                    }
                }
            }
        }
        k += 1;
    }
    if unjustified.len() == 0 {
        proof {
            assert forall|i: int| 0 <= i < sets@.len() && env.set(#[trigger] sets@[i]).required implies env.set(
                sets@[i],
            ).connected_to_root by {
                if !env.set(sets@[i]).connected_to_root {
                    assert(unjustified@.contains(sets@[i]));
                }
            }
        }
        Ok(())
    } else {
        proof {
            assert(sets@.contains(unjustified@[0]));
            let i = choose|i: int| 0 <= i < sets@.len() && sets@[i] == unjustified@[0];
            assert(env.set(sets@[i]).required && !env.set(sets@[i]).connected_to_root);
            assert(limit == max_limit);
            assert forall|i: int| 0 <= i < unjustified@.len() implies looked_for_at(&env0, env, #[trigger] unjustified@[i], 15) by {
                assert(sets@.contains(unjustified@[i]));
                let j = choose|j: int| 0 <= j < sets@.len() && sets@[j] == unjustified@[i];
                assert(!env.set(sets@[j]).connected_to_root);
            }
        }
        Err(unjustified)
    }
}

impl Environment {
    /// Computes the invariant sets of `root` and of everything it contains,
    /// and justifies them.
    pub fn justify_all(&mut self, root: ItemPtr) -> (r: Result<(), JustifyAllError>)
        requires
            old(self).wf(),
            no_placeholders(old(self)),
            old(self).valid_item(root),
        ensures
            final(self).wf(),
            no_placeholders(final(self)),
            r is Ok ==> forall|p: ItemPtr|
                crate::traversal::reachable(old(self), root, p) ==> (final(self).item(p).invariants matches Some(s)
                    && (final(self).set(s).required ==> final(self).set(s).connected_to_root)),
            r matches Err(JustifyAllError::Unresolved(e)) ==> crate::traversal::reachable(old(self), root, e.0)
                && old(self).def(e.0) is Resolvable,
            !(r matches Err(JustifyAllError::Unresolved(_))) ==> (r is Ok <==> forall|p: ItemPtr|
                crate::traversal::reachable(old(self), root, p) ==> (final(self).item(p).invariants matches Some(s)
                    && (final(self).set(s).required ==> final(self).set(s).connected_to_root))),
            r matches Err(JustifyAllError::NotJustified(u)) ==> u@.len() > 0 && forall|i: int|
                0 <= i < u@.len() ==> final(self).set(#[trigger] u@[i]).required && !final(self).set(
                    u@[i],
                ).connected_to_root && (exists|p: ItemPtr|
                    crate::traversal::reachable(old(self), root, p) && final(self).item(p).invariants == Some(u@[i]))
                    && exists|a: Environment|
                    justification_progress(&a, final(self)) && #[trigger] found_at(&a, final(self), u@[i], 15),
    {
        let all_sets = match collect_invariant_sets(self, root) {
            Ok(sets) => sets,
            Err(e) => {
                return Err(JustifyAllError::Unresolved(e));
            },
        };
        let ghost env1 = *self;
        match justify_sets(self, &all_sets) {
            Ok(()) => {
                proof {
                    assert forall|p: ItemPtr| crate::traversal::reachable(old(self), root, p) implies (self.item(p).invariants matches Some(s)
                        && (self.set(s).required ==> self.set(s).connected_to_root)) by {
                        let k = choose|k: int| 0 <= k < all_sets@.len() && env1.item(p).invariants == Some(#[trigger] all_sets@[k]);
                        assert(env1.valid_set(all_sets@[k]));
                        assert(self.spec_items() == env1.spec_items());
                        assert(self.spec_sets()[all_sets@[k].index() as int] == InvariantSet {
                            connected_to_root: self.spec_sets()[all_sets@[k].index() as int].connected_to_root,
                            set_justification: self.spec_sets()[all_sets@[k].index() as int].set_justification,
                            ..env1.spec_sets()[all_sets@[k].index() as int]
                        });
                    }
                }
                Ok(())
            },
            Err(unjustified) => {
                proof {
                    assert forall|i: int| 0 <= i < unjustified@.len() implies exists|p: ItemPtr|
                        crate::traversal::reachable(old(self), root, p) && self.item(p).invariants == Some(
                            #[trigger] unjustified@[i],
                        ) by {
                        assert(all_sets@.contains(unjustified@[i]));
                        let k = choose|k: int| 0 <= k < all_sets@.len() && all_sets@[k] == unjustified@[i];
                        let p = choose|p: ItemPtr|
                            crate::traversal::reachable(old(self), root, p) && env1.item(p).invariants == Some(
                                #[trigger] all_sets@[k],
                            );
                        assert(self.spec_items() == env1.spec_items());
                        assert(looked_for_at(&env1, self, unjustified@[i], 15));
                        let a = choose|a: Environment|
                            justification_progress(&env1, &a) && justification_progress(&a, self) && #[trigger] found_at(
                                &a,
                                self,
                                unjustified@[i],
                                15,
                            );
                        assert(justification_progress(&a, self) && found_at(&a, self, unjustified@[i], 15));
                    }
                    let u0 = unjustified@[0];
                    let p = choose|p: ItemPtr|
                        crate::traversal::reachable(old(self), root, p) && self.item(p).invariants == Some(u0);
                    assert(!(self.item(p).invariants matches Some(s) && (self.set(s).required ==> self.set(s).connected_to_root)));
                }
                Err(JustifyAllError::NotJustified(unjustified))
            },
        }
    }

    /// The ways of justifying `statement` where `context` stands, once the
    /// invariant sets of `root` and everything it contains are computed.
    pub fn justify(&mut self, root: ItemPtr, context: ItemPtr, statement: ItemPtr, limit: usize) -> (r: Result<
        StatementJustifications,
        JustifyError,
    >)
        requires
            old(self).wf(),
            no_placeholders(old(self)),
            old(self).valid_item(root),
            old(self).valid_item(context),
            old(self).valid_item(statement),
        ensures
            final(self).wf(),
            no_placeholders(final(self)),
            crate::icc::invariants_grown(old(self), final(self)),
            match r {
                Ok(ways) => ways_view(ways@) == single_ways(
                    spec_justifying_sets(final(self), context, statement, limit as nat),
                ) && ways@.len() > 0,
                Err(JustifyError::Lookup(e)) => e == LookupInvariantError::MightNotExist && spec_justifying_sets(
                    final(self),
                    context,
                    statement,
                    limit as nat,
                ).len() == 0,
                Err(JustifyError::Unresolved(e)) => crate::traversal::reachable(old(self), root, e.0) && old(
                    self,
                ).def(e.0) is Resolvable,
            },
    {
        match collect_invariant_sets(self, root) {
            Ok(_) => {},
            Err(e) => {
                return Err(JustifyError::Unresolved(e));
            },
        }
        proof {
            crate::icc::lemma_grown_keeps(old(self), self);
        }
        match justify_statement(self, context, statement, limit) {
            Ok(ways) => Ok(ways),
            Err(e) => Err(JustifyError::Lookup(e)),
        }
    }
}

/// Why a statement could not be justified.
#[derive(Debug)]
pub enum JustifyError {
    /// An item whose invariants were needed is not resolved yet.
    Unresolved(crate::resolvable::UnresolvedItemError),
    Lookup(LookupInvariantError),
}

} // verus!
