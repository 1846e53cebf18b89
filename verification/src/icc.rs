use vstd::prelude::*;

use crate::definitions::{clone_items, Definition};
use crate::ecc::no_placeholders;
use crate::environment::Environment;
use crate::invariants::{InvariantSet, InvariantSetPtr, SetJustification, StatementJustifications};
use crate::item::{Item, ItemPtr};
use crate::resolvable::UnresolvedItemError;

verus! {

/// Computing invariants changed nothing but the invariant sets recorded for
/// items and which sets exist (sets are only added).
pub open spec fn invariants_grown(old: &Environment, new: &Environment) -> bool {
    &&& new.spec_items().len() == old.spec_items().len()
    &&& forall|i: int|
        0 <= i < old.spec_items().len() ==> #[trigger] new.spec_items()[i] == (Item {
            invariants: new.spec_items()[i].invariants,
            ..old.spec_items()[i]
        })
    &&& new.spec_sets().len() >= old.spec_sets().len()
    &&& forall|i: int| 0 <= i < old.spec_sets().len() ==> #[trigger] new.spec_sets()[i] == old.spec_sets()[i]
    &&& new.spec_variables() == old.spec_variables()
    &&& new.spec_language_items() == old.spec_language_items()
    &&& new.spec_next_unique() == old.spec_next_unique()
}

/// Every invariant set recorded for an item in `old` is still recorded in
/// `new`.
pub open spec fn caches_kept(old: &Environment, new: &Environment) -> bool {
    forall|i: int|
        0 <= i < old.spec_items().len() && (#[trigger] old.spec_items()[i]).invariants is Some ==> new.spec_items()[i].invariants
            == old.spec_items()[i].invariants
}

pub proof fn lemma_caches_kept_trans(a: &Environment, b: &Environment, c: &Environment)
    requires
        caches_kept(a, b),
        caches_kept(b, c),
        b.spec_items().len() == a.spec_items().len(),
    ensures
        caches_kept(a, c),
{
    assert forall|i: int|
        0 <= i < a.spec_items().len() && (#[trigger] a.spec_items()[i]).invariants is Some implies c.spec_items()[i].invariants
            == a.spec_items()[i].invariants by {
        assert(b.spec_items()[i].invariants == a.spec_items()[i].invariants);
    }
}

pub proof fn lemma_invariants_grown_trans(a: &Environment, b: &Environment, c: &Environment)
    requires
        invariants_grown(a, b),
        invariants_grown(b, c),
    ensures
        invariants_grown(a, c),
{
    assert forall|i: int| 0 <= i < a.spec_items().len() implies #[trigger] c.spec_items()[i] == (Item {
        invariants: c.spec_items()[i].invariants,
        ..a.spec_items()[i]
    }) by {
        assert(b.spec_items()[i] == (Item { invariants: b.spec_items()[i].invariants, ..a.spec_items()[i] }));
        assert(c.spec_items()[i] == (Item { invariants: c.spec_items()[i].invariants, ..b.spec_items()[i] }));
    }
    assert forall|i: int| 0 <= i < a.spec_sets().len() implies #[trigger] c.spec_sets()[i] == a.spec_sets()[i] by {
        assert(b.spec_sets()[i] == a.spec_sets()[i]);
    }
}

proof fn lemma_invariants_grown_refl(a: &Environment)
    ensures
        invariants_grown(a, a),
{
    assert forall|i: int| 0 <= i < a.spec_items().len() implies #[trigger] a.spec_items()[i] == (Item {
        invariants: a.spec_items()[i].invariants,
        ..a.spec_items()[i]
    }) by {}
}

/// The definitions of the items do not change when invariants are computed,
/// so no placeholder appears.
pub proof fn lemma_grown_keeps(old: &Environment, new: &Environment)
    requires
        invariants_grown(old, new),
    ensures
        no_placeholders(old) ==> no_placeholders(new),
        forall|p: ItemPtr| old.valid_item(p) ==> new.valid_item(p) && #[trigger] new.def(p) == old.def(p)
            && new.item(p).scope == old.item(p).scope,
        forall|s: InvariantSetPtr| old.valid_set(s) ==> new.valid_set(s) && #[trigger] new.set(s) == old.set(s),
{
    assert forall|p: ItemPtr| old.valid_item(p) implies new.valid_item(p) && #[trigger] new.def(p) == old.def(p)
        && new.item(p).scope == old.item(p).scope by {
        assert(new.spec_items()[p.index() as int] == (Item {
            invariants: new.spec_items()[p.index() as int].invariants,
            ..old.spec_items()[p.index() as int]
        }));
    }
    if no_placeholders(old) {
        assert forall|i: int| 0 <= i < new.spec_items().len() implies !((#[trigger] new.spec_items()[i]).definition is Placeholder) by {
            assert(new.spec_items()[i] == (Item { invariants: new.spec_items()[i].invariants, ..old.spec_items()[i] }));
            assert(!(old.spec_items()[i].definition is Placeholder));
        }
    }
}

/// The set about `this` with nothing in it.
pub open spec fn is_empty_set_about(s: InvariantSet, this: ItemPtr) -> bool {
    &&& s.context == this
    &&& s.statements@.len() == 0
    &&& s.justification_requirements@.len() == 0
    &&& s.dependencies@.len() == 0
    &&& s.set_justification is None
    &&& !s.connected_to_root
    &&& !s.required
}

/// Each statement of `set` has one way to be justified: a set, listed
/// twice, of which it is a statement.
pub open spec fn decision_justified(env: &Environment, set: InvariantSet) -> bool {
    let j = set.set_justification->0@;
    &&& j.len() == set.statements@.len()
    &&& forall|i: int|
        0 <= i < j.len() ==> {
            let ways = (#[trigger] j[i])@;
            &&& ways.len() == 1
            &&& ways[0]@.len() == 2
            &&& ways[0]@[0] == ways[0]@[1]
            &&& env.valid_set(ways[0]@[0])
            &&& env.set(ways[0]@[0]).statements@.contains(set.statements@[i])
        }
}

/// Comparing `t` with `f`, asking `t` first and looking four levels deep,
/// finds them equal with no substitution needed.
pub open spec fn trivially_equal_at(env: &Environment, t: ItemPtr, f: ItemPtr) -> bool {
    crate::ecc::spec_left(env, crate::trim::initial_ctx(env, t, f), Seq::empty(), 4).res matches Ok(e)
        && crate::equal::is_trivial_yes_view(e)
}

/// `t` is trivially equal to one of `fs`, as `trivially_equal_at` compares.
pub open spec fn trivially_equal_to_one_of(env: &Environment, t: ItemPtr, fs: Seq<ItemPtr>) -> bool {
    exists|j: int| 0 <= j < fs.len() && #[trigger] trivially_equal_at(env, t, fs[j])
}

/// The invariant set `r` that the definition of `this` gives, `new` being the
/// environment once it is computed: a variable's invariants, true by
/// assumption; a substitution's set, made with it; an axiom's statement,
/// true by assumption; for a decision, the statements of the set computed
/// for the item it gives when equal that are trivially equal to one of that
/// set's statements, in their order, each justified by that set (given
/// `fuel` to look that far); nothing for a unique, a builtin function or a
/// structure; and none yet for an unresolved item.
pub open spec fn invariants_by_definition(
    old: &Environment,
    new: &Environment,
    this: ItemPtr,
    r: Result<InvariantSetPtr, UnresolvedItemError>,
    fuel: nat,
) -> bool {
    match old.def(this) {
        Definition::Resolvable(_) => r == Err::<InvariantSetPtr, UnresolvedItemError>(UnresolvedItemError(this)),
        Definition::Substitution(d) => r == Ok::<InvariantSetPtr, UnresolvedItemError>(d.invs),
        Definition::Variable(d) => {
            &&& r is Ok
            &&& new.set(r->Ok_0).context == this
            &&& new.set(r->Ok_0).statements@ == old.var(d.0).spec_invariants()
            &&& new.set(r->Ok_0).dependencies@ == seq![this]
            &&& new.set(r->Ok_0).justification_requirements@.len() == 0
            &&& new.set(r->Ok_0).connected_to_root
        },
        Definition::Axiom(d) => {
            &&& r is Ok
            &&& new.set(r->Ok_0).context == this
            &&& new.set(r->Ok_0).statements@ == seq![d.statement]
            &&& new.set(r->Ok_0).dependencies@ == d.relying_on@
            &&& new.set(r->Ok_0).connected_to_root
        },
        Definition::Unique(_) => r is Ok && is_empty_set_about(new.set(r->Ok_0), this),
        Definition::BuiltinFunction(_) => r is Ok && is_empty_set_about(new.set(r->Ok_0), this),
        Definition::PopulatedStruct(_) => r is Ok && is_empty_set_about(new.set(r->Ok_0), this),
        Definition::Decision(d) => r is Ok ==> {
            let set = new.set(r->Ok_0);
            &&& set.context == this
            &&& !set.connected_to_root
            &&& !set.required
            &&& set.justification_requirements@.len() == 0
            &&& set.dependencies@.len() == 0
            &&& set.set_justification is Some ==> decision_justified(new, set)
            &&& set.statements@.len() > 0 ==> (new.item(d.when_equal).invariants matches Some(w) && forall|q: int|
                0 <= q < set.statements@.len() ==> new.set(w).statements@.contains(#[trigger] set.statements@[q]))
            &&& fuel > 0 ==> exists|mid: Environment|
                #[trigger] invariants_grown(old, &mid) && invariants_grown(&mid, new) && (mid.item(
                    d.when_equal,
                ).invariants matches Some(w) && mid.valid_set(w) && set.statements@ == mid.set(w).statements@.filter(
                    |t: ItemPtr| trivially_equal_to_one_of(&mid, t, mid.set(w).statements@),
                ))
        },
        _ => true,
    }
}

/// Only the invariant calculation can make one of these.
pub struct OnlyCalledByIcc(());

/// An invariant calculation in progress: the items whose invariants are
/// being computed.
pub struct InvariantCalculationContext {
    stack: Vec<ItemPtr>,
}

pub type Icc = InvariantCalculationContext;

impl View for InvariantCalculationContext {
    type V = Seq<ItemPtr>;

    closed spec fn view(&self) -> Seq<ItemPtr> {
        self.stack@
    }
}

impl InvariantCalculationContext {
    pub fn new() -> (r: Self)
        ensures
            r@ == Seq::<ItemPtr>::empty(),
    {
        InvariantCalculationContext { stack: Vec::new() }
    }

    fn on_stack(&self, p: ItemPtr) -> (r: bool)
        ensures
            r == self@.contains(p),
    {
        let mut i: usize = 0;
        while i < self.stack.len()
            invariant
                i <= self.stack@.len(),
                forall|j: int| 0 <= j < i ==> self.stack@[j] != p,
            decreases self.stack@.len() - i,
        {
            if self.stack[i] == p {
                assert(self.stack@[i as int] == p);
                return true;
            }
            i += 1;
        }
        false
    }

    /// Adds the empty set about `this`.
    fn push_empty(env: &mut Environment, this: ItemPtr) -> (r: InvariantSetPtr)
        requires
            old(env).wf(),
            old(env).valid_item(this),
        ensures
            final(env).wf(),
            invariants_grown(old(env), final(env)),
            caches_kept(old(env), final(env)),
            final(env).valid_set(r),
            is_empty_set_about(final(env).set(r), this),
    {
        let ghost before = *env;
        let r = env.push_invariant_set(InvariantSet::new_empty(this));
        proof {
            lemma_invariants_grown_refl(&before);
        }
        r
    }

    /// The invariants of `of_item`, dereferenced; an item met again while
    /// its own invariants are being computed has none.
    pub fn get_invariants(&mut self, env: &mut Environment, of_item: &ItemPtr, fuel: usize) -> (r: Result<
        InvariantSetPtr,
        UnresolvedItemError,
    >)
        requires
            old(env).wf(),
            no_placeholders(old(env)),
            old(env).valid_item(*of_item),
        ensures
            final(self)@ == old(self)@,
            final(env).wf(),
            no_placeholders(final(env)),
            invariants_grown(old(env), final(env)),
            caches_kept(old(env), final(env)),
            r matches Ok(s) ==> final(env).valid_set(s),
            ({
                let this = crate::deref::spec_dereference(old(env), *of_item);
                &&& old(self)@.contains(this) ==> (r matches Ok(s) && is_empty_set_about(final(env).set(s), this))
                &&& !old(self)@.contains(this) && old(env).def(this) is Resolvable ==> r == Err::<
                    InvariantSetPtr,
                    UnresolvedItemError,
                >(UnresolvedItemError(this))
                &&& !old(self)@.contains(this) ==> invariants_by_definition(old(env), final(env), this, r, fuel as nat)
            }),
            r matches Err(e) ==> crate::traversal::reachable(old(env), *of_item, e.0) && old(env).def(e.0) is Resolvable,
        decreases fuel, 1nat,
    {
        let this = of_item.dereference(env);
        proof {
            let n = choose|n: nat| #[trigger] crate::deref::chain_stops_at(env, *of_item, n) && this == crate::deref::deref_steps(env, *of_item, n);
            crate::traversal::lemma_deref_reachable(env, *of_item, n);
            assert forall|y: ItemPtr| #[trigger] crate::traversal::reachable(env, this, y) implies crate::traversal::reachable(env, *of_item, y) by {
                crate::traversal::lemma_reachable_trans(env, *of_item, this, y);
            }
        }
        if self.on_stack(this) {
            return Ok(Self::push_empty(env, this));
        }
        self.stack.push(this);
        let r = self.definition_invariants(env, this, fuel, OnlyCalledByIcc(()));
        self.stack.pop();
        proof {
            assert(self.stack@ =~= old(self)@);
        }
        r
    }

    /// The invariants of `this` by its definition: a variable's are its own,
    /// true by assumption; a substitution's were computed with it; a
    /// decision keeps those of the item it gives when equal that are
    /// trivially equal to one of them; an axiom has its
    /// statement, true by assumption; an unresolved item has none yet.
    fn definition_invariants(
        &mut self,
        env: &mut Environment,
        this: ItemPtr,
        fuel: usize,
        _token: OnlyCalledByIcc,
    ) -> (r: Result<
        InvariantSetPtr,
        UnresolvedItemError,
    >)
        requires
            old(env).wf(),
            no_placeholders(old(env)),
            old(env).valid_item(this),
        ensures
            final(self)@ == old(self)@,
            final(env).wf(),
            no_placeholders(final(env)),
            invariants_grown(old(env), final(env)),
            caches_kept(old(env), final(env)),
            r matches Ok(s) ==> final(env).valid_set(s),
            invariants_by_definition(old(env), final(env), this, r, fuel as nat),
            r matches Err(e) ==> crate::traversal::reachable(old(env), this, e.0) && old(env).def(e.0) is Resolvable,
        decreases fuel, 0nat,
    {
        proof {
            crate::ecc::lemma_def_parts_valid(env, this);
            assert(env.item_valid(env.spec_items()[this.index() as int]));
            crate::traversal::lemma_reachable_self(env, this);
            assert forall|c: ItemPtr, y: ItemPtr|
                #[trigger] crate::traversal::contains_directly(env, this, c) && #[trigger] crate::traversal::reachable(env, c, y)
                    implies crate::traversal::reachable(env, this, y) by {
                crate::traversal::lemma_reachable_step(env, this, c, y);
            }
        }
        match env.definition(this) {
            Definition::Resolvable(_) => Err(UnresolvedItemError(this)),
            Definition::Substitution(d) => {
                proof {
                    lemma_invariants_grown_refl(env);
                }
                Ok(d.invs)
            },
            Definition::Variable(d) => {
                let var = env.get_variable(d.0);
                proof {
                    assert(env.variable_valid(env.spec_variables()[d.0.index() as int]));
                }
                let statements = crate::definitions::clone_slice(var.invariants());
                let mut deps: Vec<ItemPtr> = Vec::new();
                deps.push(this);
                assert(deps@ =~= seq![this]);
                let set = InvariantSet::new_root_statements_depending_on(this, statements, deps);
                let ghost before = *env;
                let r = env.push_invariant_set(set);
                proof {
                    lemma_invariants_grown_refl(&before);
                }
                Ok(r)
            },
            Definition::Axiom(d) => {
                let mut statements: Vec<ItemPtr> = Vec::new();
                statements.push(d.statement);
                assert(statements@ =~= seq![d.statement]);
                let relying = clone_items(&d.relying_on);
                proof {
                    assert(env.valid_items(relying@)) by {
                        let c = crate::item::content_items(env.def(this));
                        assert forall|i: int| 0 <= i < relying@.len() implies env.valid_item(#[trigger] relying@[i]) by {
                            assert(c[1 + i] == d.relying_on@[i]);
                        }
                    }
                }
                let set = InvariantSet::new_root_statements_depending_on(this, statements, relying);
                let ghost before = *env;
                let r = env.push_invariant_set(set);
                proof {
                    lemma_invariants_grown_refl(&before);
                }
                Ok(r)
            },
            Definition::Other(d) => {
                if fuel == 0 {
                    return Ok(Self::push_empty(env, this));
                }
                let other = d.other;
                proof {
                    assert(crate::item::content_items(env.def(this))[0] == other);
                    assert(crate::traversal::contains_directly(env, this, other));
                }
                self.get_invariants(env, &other, fuel - 1)
            },
            Definition::Decision(d) => {
                if fuel == 0 {
                    return Ok(Self::push_empty(env, this));
                }
                let when_equal = d.when_equal;
                let ghost env0 = *env;
                proof {
                    assert(crate::item::content_items(env.def(this))[2] == when_equal);
                    assert(crate::traversal::contains_directly(env, this, when_equal));
                }
                let true_invs = when_equal.get_invariants_with_fuel(env, fuel - 1)?;
                let ghost env1 = *env;
                proof {
                    assert(env1.valid_item(when_equal));
                    assert(env1.spec_items()[when_equal.index() as int].invariants == Some(true_invs));
                }
                proof {
                    assert forall|y: ItemPtr| #[trigger] crate::traversal::reachable(&env1, when_equal, y) && env1.def(y) is Resolvable
                        implies crate::traversal::reachable(&env0, this, y) && env0.def(y) is Resolvable by {
                        crate::traversal::lemma_reachable_same(&env0, &env1, when_equal, y);
                        assert(env1.spec_items()[y.index() as int].definition == env0.spec_items()[y.index() as int].definition);
                    }
                }
                let false_invs = when_equal.get_invariants_with_fuel(env, fuel - 1)?;
                let ghost env2 = *env;
                proof {
                    lemma_invariants_grown_trans(&env0, &env1, &env2);
                    lemma_caches_kept_trans(&env0, &env1, &env2);
                    lemma_grown_keeps(&env0, &env2);
                    lemma_grown_keeps(&env1, &env2);
                    assert(env.set_valid(env.spec_sets()[true_invs.index() as int]));
                    assert(env.set_valid(env.spec_sets()[false_invs.index() as int]));
                }
                proof {
                    assert(true_invs == false_invs);
                }
                let true_statements = clone_items(&env.get_set(true_invs).statements);
                let false_statements = clone_items(&env.get_set(false_invs).statements);
                let ghost fs = false_statements@;
                let ghost keep = |t: ItemPtr| trivially_equal_to_one_of(&env2, t, fs);
                let mut result_statements: Vec<ItemPtr> = Vec::new();
                let mut i: usize = 0;
                proof {
                    assert(true_statements@.take(0) =~= Seq::<ItemPtr>::empty());
                    reveal_with_fuel(Seq::filter, 1);
                }
                while i < true_statements.len()
                    invariant
                        env.wf(),
                        no_placeholders(env),
                        *env == env2,
                        false_statements@ == fs,
                        forall|t: ItemPtr| #[trigger] keep(t) == trivially_equal_to_one_of(&env2, t, fs),
                        i <= true_statements@.len(),
                        env.valid_items(true_statements@),
                        env.valid_items(false_statements@),
                        env.valid_items(result_statements@),
                        forall|q: int| 0 <= q < result_statements@.len() ==> true_statements@.contains(
                            #[trigger] result_statements@[q],
                        ),
                        result_statements@ == true_statements@.take(i as int).filter(keep),
                    decreases true_statements@.len() - i,
                {
                    let true_inv = true_statements[i];
                    assert(env.valid_item(true_statements@[i as int]));
                    assert(true_statements@.contains(true_inv));
                    proof {
                        assert(true_statements@.take(i + 1) =~= true_statements@.take(i as int).push(true_inv));
                        true_statements@.take(i as int).lemma_filter_push(true_inv, keep);
                    }
                    let mut j: usize = 0;
                    while j < false_statements.len()
                        invariant_except_break
                            result_statements@ == true_statements@.take(i as int).filter(keep),
                            forall|jj: int| 0 <= jj < j ==> !#[trigger] trivially_equal_at(&env2, true_inv, fs[jj]),
                        invariant
                            env.wf(),
                            no_placeholders(env),
                            *env == env2,
                            false_statements@ == fs,
                            forall|t: ItemPtr| #[trigger] keep(t) == trivially_equal_to_one_of(&env2, t, fs),
                            j <= false_statements@.len(),
                            i < true_statements@.len(),
                            true_inv == true_statements@[i as int],
                            true_statements@.take(i as int + 1).filter(keep) == if keep(true_inv) {
                                true_statements@.take(i as int).filter(keep).push(true_inv)
                            } else {
                                true_statements@.take(i as int).filter(keep)
                            },
                            env.valid_item(true_inv),
                            true_statements@.contains(true_inv),
                            env.valid_items(false_statements@),
                            env.valid_items(result_statements@),
                            forall|q: int| 0 <= q < result_statements@.len() ==> true_statements@.contains(
                                #[trigger] result_statements@[q],
                            ),
                        ensures
                            result_statements@ == true_statements@.take(i as int + 1).filter(keep),
                        decreases false_statements@.len() - j,
                    {
                        let false_inv = false_statements[j];
                        assert(env.valid_item(false_statements@[j as int]));
                        let eq = true_inv.get_equality(env, &false_inv, 4);
                        let trivially_equal = match &eq {
                            Ok(e) => e.is_trivial_yes(),
                            Err(_) => false,
                        };
                        proof {
                            assert(trivially_equal == trivially_equal_at(&env2, true_inv, fs[j as int]));
                        }
                        if trivially_equal {
                            let ghost before = result_statements@;
                            result_statements.push(true_inv);
                            proof {
                                assert(keep(true_inv));
                                assert(result_statements@ == before.push(true_inv));
                            }
                            break;
                        }
                        j += 1;
                    }
                    i += 1;
                }
                proof {
                    assert(true_statements@.take(true_statements@.len() as int) =~= true_statements@);
                }
                let len = result_statements.len();
                let mut justification: SetJustification = Vec::new();
                let mut k: usize = 0;
                while k < len
                    invariant
                        k <= len,
                        justification@.len() == k,
                        env.valid_set(true_invs),
                        env.valid_set(false_invs),
                        true_invs == false_invs,
                        env.justification_valid(justification@),
                        forall|q: int|
                            0 <= q < k ==> (#[trigger] justification@[q])@.len() == 1 && justification@[q]@[0]@
                                == seq![true_invs, false_invs],
                    decreases len - k,
                {
                    let mut pair: Vec<InvariantSetPtr> = Vec::new();
                    pair.push(true_invs);
                    pair.push(false_invs);
                    let mut ways: StatementJustifications = Vec::new();
                    ways.push(pair);
                    let ghost before = justification@;
                    proof {
                        assert(pair@ =~= seq![true_invs, false_invs]);
                    }
                    justification.push(ways);
                    proof {
                        assert forall|q: int| 0 <= q < k + 1 implies (#[trigger] justification@[q])@.len() == 1
                            && justification@[q]@[0]@ == seq![true_invs, false_invs] by {
                            if q < k {
                                assert(justification@[q] == before[q]);
                            }
                        }
                        let j = justification@;
                        assert forall|a: int, b: int, c: int|
                            0 <= a < j.len() && 0 <= b < j[a]@.len() && 0 <= c < j[a]@[b]@.len()
                                implies env.valid_set(#[trigger] j[a]@[b]@[c]) by {
                            if a < before.len() {
                                assert(j[a] == before[a]);
                            } else {
                                assert(j[a]@[b]@[c] == true_invs || j[a]@[b]@[c] == false_invs);
                            }
                        }
                    }
                    k += 1;
                }
                let ghost stmts = result_statements@;
                let ghost just = justification@;
                let set = InvariantSet::new_justified_by(this, result_statements, justification);
                let ghost before = *env;
                let r = env.push_invariant_set(set);
                proof {
                    assert(env.set(true_invs) == before.set(true_invs));
                    assert(before == env2);
                    let kept_by = |t: ItemPtr| trivially_equal_to_one_of(&env2, t, env2.set(true_invs).statements@);
                    assert(keep =~= kept_by);
                    assert(env.set(r).statements@ == env2.set(true_invs).statements@.filter(kept_by));
                    assert(decision_justified(env, env.set(r))) by {
                        assert forall|q: int| 0 <= q < just.len() implies {
                            let ways = (#[trigger] just[q])@;
                            &&& ways.len() == 1
                            &&& ways[0]@.len() == 2
                            &&& ways[0]@[0] == ways[0]@[1]
                            &&& env.valid_set(ways[0]@[0])
                            &&& env.set(ways[0]@[0]).statements@.contains(stmts[q])
                        } by {
                            assert(true_statements@.contains(stmts[q]));
                        }
                    }
                    lemma_invariants_grown_refl(&before);
                    lemma_invariants_grown_trans(&env2, &before, env);
                    lemma_invariants_grown_trans(&env0, &env2, env);
                    lemma_caches_kept_trans(&env0, &env2, env);
                    lemma_grown_keeps(&env0, env);
                    assert(env.spec_items()[when_equal.index() as int].invariants == Some(true_invs)) by {
                        assert(env2.spec_items()[when_equal.index() as int].invariants == Some(true_invs));
                        assert(env.spec_items() == before.spec_items());
                    }
                    assert forall|q: int| 0 <= q < env.set(r).statements@.len() implies env.set(true_invs).statements@.contains(
                        #[trigger] env.set(r).statements@[q],
                    ) by {
                        assert(env.set(r).statements@ == stmts);
                        assert(true_statements@.contains(stmts[q]));
                    }
                }
                Ok(r)
            },
            Definition::Placeholder(_) => {
                proof {
                    assert(!(env.spec_items()[this.index() as int].definition is Placeholder));
                }
                Ok(Self::push_empty(env, this))
            },
            _ => Ok(Self::push_empty(env, this)),
        }
    }
}

impl ItemPtr {
    /// The invariant set of this item, computed and recorded the first time
    /// it is asked for.
    pub fn get_invariants(&self, env: &mut Environment) -> (r: Result<InvariantSetPtr, UnresolvedItemError>)
        requires
            old(env).wf(),
            no_placeholders(old(env)),
            old(env).valid_item(*self),
        ensures
            final(env).wf(),
            no_placeholders(final(env)),
            invariants_grown(old(env), final(env)),
            caches_kept(old(env), final(env)),
            r matches Ok(s) ==> final(env).valid_set(s) && final(env).item(*self).invariants == Some(s),
            old(env).item(*self).invariants matches Some(s) ==> r == Ok::<InvariantSetPtr, UnresolvedItemError>(s)
                && *final(env) == *old(env),
            old(env).item(*self).invariants is None ==> invariants_by_definition(
                old(env),
                final(env),
                crate::deref::spec_dereference(old(env), *self),
                r,
                old(env).spec_items().len(),
            ),
            r matches Err(e) ==> crate::traversal::reachable(old(env), *self, e.0) && old(env).def(e.0) is Resolvable,
    {
        let fuel = env.num_items();
        self.get_invariants_with_fuel(env, fuel)
    }

    fn get_invariants_with_fuel(&self, env: &mut Environment, fuel: usize) -> (r: Result<
        InvariantSetPtr,
        UnresolvedItemError,
    >)
        requires
            old(env).wf(),
            no_placeholders(old(env)),
            old(env).valid_item(*self),
        ensures
            final(env).wf(),
            no_placeholders(final(env)),
            invariants_grown(old(env), final(env)),
            caches_kept(old(env), final(env)),
            r matches Ok(s) ==> final(env).valid_set(s) && final(env).item(*self).invariants == Some(s),
            old(env).item(*self).invariants matches Some(s) ==> r == Ok::<InvariantSetPtr, UnresolvedItemError>(s)
                && *final(env) == *old(env),
            old(env).item(*self).invariants is None ==> invariants_by_definition(
                old(env),
                final(env),
                crate::deref::spec_dereference(old(env), *self),
                r,
                fuel as nat,
            ),
            r matches Err(e) ==> crate::traversal::reachable(old(env), *self, e.0) && old(env).def(e.0) is Resolvable,
        decreases fuel, 2nat,
    {
        match env.get(*self).invariants {
            Some(s) => {
                proof {
                    assert(env.item_valid(env.spec_items()[self.index() as int]));
                }
                return Ok(s);
            },
            None => {},
        }
        let ghost env0 = *env;
        let mut ctx = InvariantCalculationContext::new();
        let invs = ctx.get_invariants(env, self, fuel)?;
        let ghost env1 = *env;
        proof {
            lemma_grown_keeps(&env0, &env1);
        }
        env.set_invariants(*self, invs);
        proof {
            let this = crate::deref::spec_dereference(&env0, *self);
            let n = choose|n: nat| crate::deref::chain_stops_at(&env0, *self, n);
            crate::deref::lemma_deref_steps_valid(&env0, *self, n);
            if let Definition::Decision(d) = env0.def(this) {
                crate::deref::lemma_stop_exists(&env0, *self);
                assert(env0.valid_item(this));
                crate::ecc::lemma_def_parts_valid(&env0, this);
                assert(crate::item::content_items(env0.def(this))[2] == d.when_equal);
                assert(env0.valid_item(d.when_equal));
                if env1.set(invs).statements@.len() > 0 {
                    assert(env.set(invs) == env1.set(invs));
                    if d.when_equal != *self {
                        assert(env.spec_items()[d.when_equal.index() as int].invariants
                            == env1.spec_items()[d.when_equal.index() as int].invariants);
                    } else {
                        assert(env.item(d.when_equal).invariants == Some(invs));
                        assert forall|q: int| 0 <= q < env.set(invs).statements@.len() implies env.set(invs).statements@.contains(
                            #[trigger] env.set(invs).statements@[q],
                        ) by {}
                    }
                }
            }
            lemma_invariants_grown_trans(&env0, &env1, env);
            lemma_grown_keeps(&env0, env);
            assert forall|i: int|
                0 <= i < env0.spec_items().len() && (#[trigger] env0.spec_items()[i]).invariants is Some implies env.spec_items()[i].invariants
                    == env0.spec_items()[i].invariants by {
                assert(env1.spec_items()[i].invariants == env0.spec_items()[i].invariants);
            }
        }
        Ok(invs)
    }
}

} // verus!
