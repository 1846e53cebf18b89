use vstd::prelude::*;

use crate::definitions::Definition;
use crate::dependencies::{
    deps_empty, deps_error, deps_missing, has_order, lemma_append_orders, lemma_push_eager_orders, spec_append, spec_push_all, spec_push_eager,
    Dependencies, Dependency, DependencyView, DepsView,
};
use crate::deref::{lemma_distinct_bounded, spec_dereference};
use crate::environment::Environment;
use crate::item::ItemPtr;
use crate::resolvable::UnresolvedItemError;
use crate::substitutions::{entries_get, Substitutions};
use crate::variable::{Variable, VariableOrder, VariablePtr};

verus! {

pub open spec fn n_items(env: &Environment) -> int {
    env.spec_items().len() as int
}

/// The variables of a list of dependencies.
pub open spec fn dep_vars(vars: Seq<DependencyView>) -> Seq<VariablePtr> {
    vars.map_values(|d: DependencyView| d.var)
}

/// The dependencies of `x`, computed with the items of `stack` being examined
/// already (an item met again is recorded as skipped) and with `fuel` fresh
/// computations still allowed to be nested (the dependencies of a variable's
/// own dependencies are such a fresh computation).
pub open spec fn spec_deps_of(env: &Environment, fuel: nat, stack: Seq<ItemPtr>, x: ItemPtr) -> DepsView
    decreases fuel, n_items(env) - stack.len(), 0nat, 0nat,
{
    if !(stack.len() < n_items(env)) || !env.valid_item(x) || stack.contains(x) {
        deps_missing(x)
    } else {
        let r = spec_def_deps(env, fuel, stack.push(x), x);
        DepsView { missing: r.missing.remove(x), ..r }
    }
}

/// The dependencies of the definition of `this`, which is on top of `stack`.
pub open spec fn spec_def_deps(env: &Environment, fuel: nat, stack: Seq<ItemPtr>, this: ItemPtr) -> DepsView
    decreases fuel, n_items(env) - stack.len(), 2nat, 0nat,
{
    if !(stack.len() <= n_items(env)) || !env.valid_item(this) {
        deps_empty()
    } else {
        match env.def(this) {
            Definition::Placeholder(_) => deps_empty(),
            Definition::Unique(_) => deps_empty(),
            Definition::Other(d) => spec_deps_of(env, fuel, stack, d.other),
            Definition::Variable(d) => {
                let v = env.var(d.0);
                let a = spec_deps_list(env, fuel, stack, deps_empty(), v.spec_dependencies());
                let b = if fuel > 0 {
                    spec_push_eager(a, spec_as_dependency(env, (fuel - 1) as nat, d.0))
                } else {
                    spec_append(a, deps_missing(this))
                };
                spec_deps_list(env, fuel, stack, b, v.spec_invariants())
            },
            Definition::Decision(d) => spec_deps_list(
                env,
                fuel,
                stack,
                deps_empty(),
                seq![d.left, d.right, d.when_equal, d.when_not_equal],
            ),
            Definition::PopulatedStruct(d) => spec_deps_list(
                env,
                fuel,
                stack,
                deps_empty(),
                seq![d.body, d.value],
            ),
            Definition::Substitution(d) => {
                let base = spec_deps_of(env, fuel, stack, d.base);
                let a = spec_sub_vars(env, fuel, stack, deps_empty(), base.vars, d.subs@);
                let b = match base.error {
                    Some(e) => spec_append(a, deps_error(e)),
                    None => a,
                };
                spec_justification_deps(env, fuel, b, env.set(d.invs).dependencies@)
            },
            Definition::BuiltinFunction(d) => spec_deps_list(env, fuel, stack, deps_empty(), d.args@),
            Definition::Axiom(d) => spec_relied_on_deps(env, fuel, deps_empty(), d.relying_on@),
            Definition::Resolvable(_) => deps_error(UnresolvedItemError(this)),
        }
    }
}

/// Appends the dependencies of each item in turn.
pub open spec fn spec_deps_list(
    env: &Environment,
    fuel: nat,
    stack: Seq<ItemPtr>,
    acc: DepsView,
    items: Seq<ItemPtr>,
) -> DepsView
    decreases fuel, n_items(env) - stack.len(), 1nat, items.len(),
{
    if items.len() == 0 {
        acc
    } else {
        spec_deps_list(
            env,
            fuel,
            stack,
            spec_append(acc, spec_deps_of(env, fuel, stack, items[0])),
            items.drop_first(),
        )
    }
}

/// The dependency on variable `v`: it swallows the variables its own
/// dependencies depend on, each computed afresh.
pub open spec fn spec_as_dependency(env: &Environment, fuel: nat, v: VariablePtr) -> DependencyView
    decreases fuel, n_items(env) + 1, 0nat, 0nat,
{
    if !env.valid_var(v) {
        DependencyView { var: v, swallow: Seq::empty(), order: crate::variable::VariableOrder {
            major_order: 0,
            file_order: 0,
            minor_order: 0,
        } }
    } else {
        let deps = spec_deps_list(env, fuel, Seq::empty(), deps_empty(), env.var(v).spec_dependencies());
        DependencyView { var: v, swallow: dep_vars(deps.vars), order: env.var(v).spec_order() }
    }
}

/// The dependencies of a substitution's base, with each substituted variable
/// replaced by the dependencies of its replacement that it does not swallow.
pub open spec fn spec_sub_vars(
    env: &Environment,
    fuel: nat,
    stack: Seq<ItemPtr>,
    acc: DepsView,
    vars: Seq<DependencyView>,
    subs: Seq<(VariablePtr, ItemPtr)>,
) -> DepsView
    decreases fuel, n_items(env) - stack.len(), 1nat, vars.len(),
{
    if vars.len() == 0 {
        acc
    } else {
        let dep = vars[0];
        let next = match entries_get(subs, dep.var) {
            Some(rep) => {
                let replaced = spec_deps_of(env, fuel, stack, rep);
                let kept = replaced.vars.filter(|r: DependencyView| !dep.swallow.contains(r.var));
                let a = spec_push_all(acc, kept);
                match replaced.error {
                    Some(e) => spec_append(a, deps_error(e)),
                    None => a,
                }
            },
            None => spec_push_eager(acc, dep),
        };
        spec_sub_vars(env, fuel, stack, next, vars.drop_first(), subs)
    }
}

/// Adds what the justifications of a substitution depend on: a variable
/// contributes its own dependency, anything else its dependencies, computed
/// afresh.
pub open spec fn spec_justification_deps(
    env: &Environment,
    fuel: nat,
    acc: DepsView,
    justs: Seq<ItemPtr>,
) -> DepsView
    decreases fuel, 0int, 0nat, justs.len(),
{
    if justs.len() == 0 {
        acc
    } else {
        let j = justs[0];
        let next = if fuel == 0 || !env.valid_item(j) {
            spec_append(acc, deps_missing(j))
        } else {
            match env.def(j) {
                Definition::Variable(dv) => spec_push_eager(
                    acc,
                    spec_as_dependency(env, (fuel - 1) as nat, dv.0),
                ),
                _ => spec_append(acc, spec_deps_of(env, (fuel - 1) as nat, Seq::empty(), j)),
            }
        };
        spec_justification_deps(env, fuel, next, justs.drop_first())
    }
}

/// Adds the dependency of each relied-on item that dereferences to a
/// variable.
pub open spec fn spec_relied_on_deps(env: &Environment, fuel: nat, acc: DepsView, relied: Seq<ItemPtr>) -> DepsView
    decreases fuel, 0int, 0nat, relied.len(),
{
    if relied.len() == 0 {
        acc
    } else {
        let r = relied[0];
        let next = if !env.valid_item(r) {
            acc
        } else {
            let v = spec_dereference(env, r);
            if !env.valid_item(v) {
                acc
            } else {
                match env.def(v) {
                    Definition::Variable(dv) => if fuel > 0 {
                        spec_push_eager(acc, spec_as_dependency(env, (fuel - 1) as nat, dv.0))
                    } else {
                        spec_append(acc, deps_missing(v))
                    },
                    _ => acc,
                }
            }
        };
        spec_relied_on_deps(env, fuel, next, relied.drop_first())
    }
}

/// A stack of items being examined; an item is not examined again while it
/// is on the stack.
pub struct RecursionPreventionStack(Vec<ItemPtr>);

impl View for RecursionPreventionStack {
    type V = Seq<ItemPtr>;

    closed spec fn view(&self) -> Seq<ItemPtr> {
        self.0@
    }
}

impl RecursionPreventionStack {
    pub fn new() -> (s: Self)
        ensures
            s@ == Seq::<ItemPtr>::empty(),
    {
        Self(Vec::new())
    }

    pub fn contains(&self, key: &ItemPtr) -> (r: bool)
        ensures
            r == self@.contains(*key),
    {
        let mut i: usize = 0;
        while i < self.0.len()
            invariant
                i <= self.0@.len(),
                forall|j: int| 0 <= j < i ==> self.0@[j] != *key,
            decreases self.0@.len() - i,
        {
            if self.0[i].is_same_instance_as(key) {
                assert(self@[i as int] == *key);
                return true;
            }
            i += 1;
        }
        false
    }

    /// Runs `func` with `key` pushed, unless `key` is already on the stack.
    pub fn skip_recursion_or_execute<T, F: FnOnce() -> T>(&mut self, key: &ItemPtr, func: F) -> (r: Option<T>)
        requires
            call_requires(func, ()),
        ensures
            final(self)@ == old(self)@,
            r is None <==> old(self)@.contains(*key),
            r matches Some(v) ==> call_ensures(func, (), v),
    {
        if self.contains(key) {
            None
        } else {
            self.0.push(*key);
            let result = func();
            self.0.pop();
            proof {
                assert(self@ =~= old(self)@);
            }
            Some(result)
        }
    }

    fn push(&mut self, key: ItemPtr)
        ensures
            final(self)@ == old(self)@.push(key),
    {
        self.0.push(key);
    }

    fn pop(&mut self)
        requires
            old(self)@.len() > 0,
        ensures
            final(self)@ == old(self)@.drop_last(),
    {
        self.0.pop();
    }
}

/// Only the dependency calculation itself can make one of these.
pub struct OnlyCalledByDcc(());

/// Computes dependencies, keeping the items being examined on a stack.
pub struct DependencyCalculationContext {
    stack: RecursionPreventionStack,
    fuel: usize,
}

pub type Dcc = DependencyCalculationContext;

impl DependencyCalculationContext {
    pub closed spec fn spec_stack(&self) -> Seq<ItemPtr> {
        self.stack@
    }

    pub closed spec fn spec_fuel(&self) -> nat {
        self.fuel as nat
    }

    /// A context allowing `fuel` nested fresh computations.
    pub fn new(fuel: usize) -> (ctx: Self)
        ensures
            ctx.spec_stack() == Seq::<ItemPtr>::empty(),
            ctx.spec_fuel() == fuel,
    {
        Self { stack: RecursionPreventionStack::new(), fuel }
    }

    pub open spec fn stack_ok(&self, env: &Environment) -> bool {
        &&& self.spec_stack().no_duplicates()
        &&& env.valid_items(self.spec_stack())
    }

    /// The dependencies of `of_item`; an item already being examined is
    /// recorded as skipped instead.
    pub fn get_dependencies(&mut self, env: &Environment, of_item: &ItemPtr) -> (r: Dependencies)
        requires
            env.wf(),
            env.valid_item(*of_item),
            old(self).stack_ok(env),
        ensures
            r.wf(),
            r@ == spec_deps_of(env, old(self).spec_fuel(), old(self).spec_stack(), *of_item),
            final(self).spec_stack() == old(self).spec_stack(),
            final(self).spec_fuel() == old(self).spec_fuel(),
        decreases old(self).spec_fuel(), n_items(env) - old(self).spec_stack().len(), 0nat, 0nat,
    {
        proof {
            lemma_distinct_bounded(self.spec_stack(), env.spec_items().len());
        }
        if self.stack.contains(of_item) {
            return Dependencies::new_missing(*of_item);
        }
        let ghost stack0 = self.spec_stack();
        proof {
            let pushed = stack0.push(*of_item);
            assert(pushed.no_duplicates()) by {
                assert forall|a: int, b: int| 0 <= a < pushed.len() && 0 <= b < pushed.len() && a != b
                    implies pushed[a] != pushed[b] by {
                    if a < stack0.len() && b < stack0.len() {
                        assert(stack0[a] != stack0[b]);
                    } else if a < stack0.len() {
                        assert(stack0.contains(stack0[a]));
                    } else if b < stack0.len() {
                        assert(stack0.contains(stack0[b]));
                    }
                }
            }
            assert forall|i: int| 0 <= i < pushed.len() implies (#[trigger] pushed[i]).index()
                < env.spec_items().len() by {
                if i < stack0.len() {
                    assert(env.valid_item(stack0[i]));
                }
            }
            lemma_distinct_bounded(pushed, env.spec_items().len());
        }
        self.stack.push(*of_item);
        let mut deps = self.def_deps(env, of_item, OnlyCalledByDcc(()));
        self.stack.pop();
        proof {
            assert(self.spec_stack() =~= stack0);
        }
        deps.remove_missing(of_item);
        deps
    }

    /// The dependencies of the definition of `this`, which is on top of the
    /// stack.
    fn def_deps(&mut self, env: &Environment, this: &ItemPtr, _token: OnlyCalledByDcc) -> (r: Dependencies)
        requires
            env.wf(),
            env.valid_item(*this),
            old(self).stack_ok(env),
            old(self).spec_stack().len() <= n_items(env),
        ensures
            r.wf(),
            r@ == spec_def_deps(env, old(self).spec_fuel(), old(self).spec_stack(), *this),
            final(self).spec_stack() == old(self).spec_stack(),
            final(self).spec_fuel() == old(self).spec_fuel(),
        decreases old(self).spec_fuel(), n_items(env) - old(self).spec_stack().len(), 2nat, 0nat,
    {
        proof {
            assert(env.item_valid(env.spec_items()[this.index() as int]));
        }
        match env.definition(*this) {
            Definition::Placeholder(_) => Dependencies::new(),
            Definition::Unique(_) => Dependencies::new(),
            Definition::Other(d) => {
                proof {
                    assert(crate::item::content_items(env.def(*this))[0] == d.other);
                }
                self.get_dependencies(env, &d.other)
            },
            Definition::Variable(d) => {
                let var = env.get_variable(d.0);
                proof {
                    assert(env.variable_valid(env.spec_variables()[d.0.index() as int]));
                }
                let a = self.deps_list(env, Dependencies::new(), var.dependencies());
                let b = if self.fuel > 0 {
                    let dep = as_dependency_with_fuel(env, self.fuel - 1, d.0);
                    let mut a = a;
                    a.push_eager(dep);
                    a
                } else {
                    let mut a = a;
                    a.append(Dependencies::new_missing(*this));
                    a
                };
                self.deps_list(env, b, var.invariants())
            },
            Definition::Decision(d) => {
                let items = [d.left, d.right, d.when_equal, d.when_not_equal];
                proof {
                    assert(items@ =~= seq![d.left, d.right, d.when_equal, d.when_not_equal]);
                    let c = crate::item::content_items(env.def(*this));
                    assert(c[0] == d.left && c[1] == d.right && c[2] == d.when_equal && c[3]
                        == d.when_not_equal);
                }
                self.deps_list(env, Dependencies::new(), &items)
            },
            Definition::PopulatedStruct(d) => {
                let items = [d.body, d.value];
                proof {
                    assert(items@ =~= seq![d.body, d.value]);
                    let c = crate::item::content_items(env.def(*this));
                    assert(c[0] == d.body && c[1] == d.value);
                }
                self.deps_list(env, Dependencies::new(), &items)
            },
            Definition::Substitution(d) => {
                proof {
                    let c = crate::item::content_items(env.def(*this));
                    assert(c[0] == d.base);
                    assert forall|i: int| 0 <= i < d.subs@.len() implies env.valid_item(
                        #[trigger] d.subs@[i].1,
                    ) by {
                        assert(c[i + 1] == d.subs@[i].1);
                    }
                    assert(env.set_valid(env.spec_sets()[d.invs.index() as int]));
                }
                let base = self.get_dependencies(env, &d.base);
                let justs = env.get_set(d.invs).dependencies();
                self.sub_deps(env, base, &d.subs, justs)
            },
            Definition::BuiltinFunction(d) => {
                proof {
                    let c = crate::item::content_items(env.def(*this));
                    assert forall|i: int| 0 <= i < d.args@.len() implies env.valid_item(
                        #[trigger] d.args@[i],
                    ) by {
                        assert(c[i] == d.args@[i]);
                    }
                }
                self.deps_list(env, Dependencies::new(), d.args.as_slice())
            },
            Definition::Axiom(d) => {
                proof {
                    let c = crate::item::content_items(env.def(*this));
                    assert forall|i: int| 0 <= i < d.relying_on@.len() implies env.valid_item(
                        #[trigger] d.relying_on@[i],
                    ) by {
                        assert(c[i + 1] == d.relying_on@[i]);
                    }
                }
                relied_on_deps(env, self.fuel, Dependencies::new(), d.relying_on.as_slice())
            },
            Definition::Resolvable(_) => Dependencies::new_error(UnresolvedItemError(*this)),
        }
    }

    /// Appends the dependencies of each item in turn.
    fn deps_list(&mut self, env: &Environment, acc: Dependencies, items: &[ItemPtr]) -> (r: Dependencies)
        requires
            env.wf(),
            env.valid_items(items@),
            old(self).stack_ok(env),
            old(self).spec_stack().len() <= n_items(env),
            acc.wf(),
        ensures
            r.wf(),
            r@ == spec_deps_list(env, old(self).spec_fuel(), old(self).spec_stack(), acc@, items@),
            final(self).spec_stack() == old(self).spec_stack(),
            final(self).spec_fuel() == old(self).spec_fuel(),
        decreases old(self).spec_fuel(), n_items(env) - old(self).spec_stack().len(), 1nat, items@.len(),
    {
        let ghost acc0 = acc@;
        let mut acc = acc;
        let mut i: usize = 0;
        assert(items@.skip(0) =~= items@);
        while i < items.len()
            invariant
                env.wf(),
                env.valid_items(items@),
                self.stack_ok(env),
                self.spec_stack() == old(self).spec_stack(),
                self.spec_fuel() == old(self).spec_fuel(),
                self.spec_stack().len() <= n_items(env),
                acc.wf(),
                i <= items@.len(),
                spec_deps_list(env, old(self).spec_fuel(), old(self).spec_stack(), acc@, items@.skip(i as int))
                    == spec_deps_list(env, old(self).spec_fuel(), old(self).spec_stack(), acc0, items@),
            decreases items@.len() - i,
        {
            proof {
                assert(items@.skip(i as int).drop_first() =~= items@.skip(i + 1));
                assert(items@.skip(i as int)[0] == items@[i as int]);
            }
            let d = self.get_dependencies(env, &items[i]);
            acc.append(d);
            i += 1;
        }
        assert(items@.skip(i as int) =~= Seq::<ItemPtr>::empty());
        acc
    }

    /// The dependencies of a substitution whose base has dependencies `base`.
    pub fn sub_deps(
        &mut self,
        env: &Environment,
        base: Dependencies,
        subs: &Substitutions,
        justifications: &[ItemPtr],
    ) -> (r: Dependencies)
        requires
            env.wf(),
            old(self).stack_ok(env),
            old(self).spec_stack().len() <= n_items(env),
            base.wf(),
            subs.wf(),
            forall|i: int| 0 <= i < subs@.len() ==> env.valid_item(#[trigger] subs@[i].1),
        ensures
            r.wf(),
            r@ == ({
                let a = spec_sub_vars(
                    env,
                    old(self).spec_fuel(),
                    old(self).spec_stack(),
                    deps_empty(),
                    base@.vars,
                    subs@,
                );
                let b = match base@.error {
                    Some(e) => spec_append(a, deps_error(e)),
                    None => a,
                };
                spec_justification_deps(env, old(self).spec_fuel(), b, justifications@)
            }),
            final(self).spec_stack() == old(self).spec_stack(),
            final(self).spec_fuel() == old(self).spec_fuel(),
        decreases old(self).spec_fuel(), n_items(env) - old(self).spec_stack().len(), 1nat, base@.vars.len() + 1,
    {
        let base_error = base.error();
        let ghost base_vars = base@.vars;
        let mut vars = base.into_variables();
        let mut deps = Dependencies::new();
        while vars.len() > 0
            invariant
                env.wf(),
                self.stack_ok(env),
                self.spec_stack() == old(self).spec_stack(),
                self.spec_fuel() == old(self).spec_fuel(),
                self.spec_stack().len() <= n_items(env),
                subs.wf(),
                forall|i: int| 0 <= i < subs@.len() ==> env.valid_item(#[trigger] subs@[i].1),
                deps.wf(),
                vars@.len() <= base_vars.len(),
                crate::dependencies::dep_views(vars@) == base_vars.skip(base_vars.len() - vars@.len()),
                spec_sub_vars(env, old(self).spec_fuel(), old(self).spec_stack(), deps@, crate::dependencies::dep_views(vars@), subs@)
                    == spec_sub_vars(env, old(self).spec_fuel(), old(self).spec_stack(), deps_empty(), base_vars, subs@),
            decreases vars@.len(),
        {
            let ghost rest = crate::dependencies::dep_views(vars@);
            let dep = vars.remove(0);
            proof {
                assert(rest[0] == dep@);
                assert(crate::dependencies::dep_views(vars@) =~= rest.drop_first());
                assert(base_vars.skip(base_vars.len() - vars@.len()) =~= rest.drop_first()) by {
                    assert forall|j: int| 0 <= j < vars@.len() implies base_vars.skip(base_vars.len() - vars@.len())[j]
                        == rest.drop_first()[j] by {
                        assert(rest[j + 1] == base_vars.skip(base_vars.len() - vars@.len() - 1)[j + 1]);
                    }
                }
                subs.lemma_wf_distinct();
                crate::substitutions::lemma_entries_get(subs@, dep.var);
            }
            match subs.get(&dep.var) {
                Some(rep) => {
                    proof {
                        let k = choose|k: int| 0 <= k < subs@.len() && subs@[k].0 == dep.var;
                        assert(env.valid_item(subs@[k].1));
                    }
                    let replaced = self.get_dependencies(env, &rep);
                    let replaced_err = replaced.error();
                    let kept = keep_unswallowed(replaced.into_variables(), &dep);
                    deps.push_all(kept);
                    if let Some(err) = replaced_err {
                        deps.append(Dependencies::new_error(err));
                    }
                },
                None => {
                    deps.push_eager(dep);
                },
            }
        }
        proof {
            assert(base_vars.skip(base_vars.len() as int) =~= Seq::<DependencyView>::empty());
        }
        if let Some(err) = base_error {
            deps.append(Dependencies::new_error(err));
        }
        justification_deps(env, self.fuel, deps, justifications)
    }
}

/// Keeps the dependencies whose variable `dep` does not swallow.
fn keep_unswallowed(vars: Vec<Dependency>, dep: &Dependency) -> (r: Vec<Dependency>)
    ensures
        crate::dependencies::dep_views(r@) == crate::dependencies::dep_views(vars@).filter(
            |r: DependencyView| !dep@.swallow.contains(r.var),
        ),
{
    let ghost all = crate::dependencies::dep_views(vars@);
    let mut vars = vars;
    let mut kept: Vec<Dependency> = Vec::new();
    let mut i: usize = 0;
    let total = vars.len();
    while vars.len() > 0
        invariant
            vars@.len() + i == all.len(),
            all.len() == total,
            crate::dependencies::dep_views(vars@) == all.skip(i as int),
            crate::dependencies::dep_views(kept@) == all.take(i as int).filter(
                |r: DependencyView| !dep@.swallow.contains(r.var),
            ),
        decreases vars@.len(),
    {
        let ghost rest = all.skip(i as int);
        let d = vars.remove(0);
        proof {
            assert(rest[0] == d@);
            assert(crate::dependencies::dep_views(vars@) =~= all.skip(i + 1)) by {
                assert forall|j: int| 0 <= j < vars@.len() implies crate::dependencies::dep_views(vars@)[j]
                    == all.skip(i + 1)[j] by {
                    assert(rest[j + 1] == all.skip(i + 1)[j]);
                }
            }
            assert(all.take(i + 1) =~= all.take(i as int).push(all[i as int]));
            all.take(i as int).lemma_filter_push(all[i as int], |r: DependencyView| !dep@.swallow.contains(r.var));
        }
        let mut swallowed = false;
        let mut k: usize = 0;
        while k < dep.swallow.len()
            invariant
                k <= dep.swallow@.len(),
                swallowed == exists|m: int| 0 <= m < k && dep.swallow@[m] == d.var,
            decreases dep.swallow@.len() - k,
        {
            if dep.swallow[k].is_same_instance_as(&d.var) {
                swallowed = true;
            }
            k += 1;
        }
        if !swallowed {
            kept.push(d);
        }
        proof {
            assert(crate::dependencies::dep_views(kept@) =~= all.take(i + 1).filter(
                |r: DependencyView| !dep@.swallow.contains(r.var),
            ));
        }
        i += 1;
    }
    assert(all.take(i as int) =~= all);
    kept
}

/// Adds what the justifications of a substitution depend on.
fn justification_deps(env: &Environment, fuel: usize, acc: Dependencies, justs: &[ItemPtr]) -> (r: Dependencies)
    requires
        env.wf(),
        acc.wf(),
    ensures
        r.wf(),
        r@ == spec_justification_deps(env, fuel as nat, acc@, justs@),
    decreases fuel, 0int, 0nat, justs@.len() + 1,
{
    let ghost acc0 = acc@;
    let mut acc = acc;
    let mut i: usize = 0;
    assert(justs@.skip(0) =~= justs@);
    while i < justs.len()
        invariant
            env.wf(),
            acc.wf(),
            i <= justs@.len(),
            spec_justification_deps(env, fuel as nat, acc@, justs@.skip(i as int))
                == spec_justification_deps(env, fuel as nat, acc0, justs@),
        decreases justs@.len() - i,
    {
        proof {
            assert(justs@.skip(i as int).drop_first() =~= justs@.skip(i + 1));
            assert(justs@.skip(i as int)[0] == justs@[i as int]);
        }
        let j = justs[i];
        if fuel == 0 || j.0 >= env.num_items() {
            acc.append(Dependencies::new_missing(j));
        } else {
            match env.definition(j) {
                Definition::Variable(dv) => {
                    proof {
                        assert(env.item_valid(env.spec_items()[j.index() as int]));
                    }
                    let dep = as_dependency_with_fuel(env, fuel - 1, dv.0);
                    acc.push_eager(dep);
                },
                _ => {
                    let mut ctx = DependencyCalculationContext::new(fuel - 1);
                    let d = ctx.get_dependencies(env, &j);
                    acc.append(d);
                },
            }
        }
        i += 1;
    }
    assert(justs@.skip(i as int) =~= Seq::<ItemPtr>::empty());
    acc
}

/// Adds the dependency of each relied-on item that dereferences to a variable.
fn relied_on_deps(env: &Environment, fuel: usize, acc: Dependencies, relied: &[ItemPtr]) -> (r: Dependencies)
    requires
        env.wf(),
        acc.wf(),
        env.valid_items(relied@),
    ensures
        r.wf(),
        r@ == spec_relied_on_deps(env, fuel as nat, acc@, relied@),
    decreases fuel, 0int, 0nat, relied@.len() + 1,
{
    let ghost acc0 = acc@;
    let mut acc = acc;
    let mut i: usize = 0;
    assert(relied@.skip(0) =~= relied@);
    while i < relied.len()
        invariant
            env.wf(),
            acc.wf(),
            env.valid_items(relied@),
            i <= relied@.len(),
            spec_relied_on_deps(env, fuel as nat, acc@, relied@.skip(i as int))
                == spec_relied_on_deps(env, fuel as nat, acc0, relied@),
        decreases relied@.len() - i,
    {
        proof {
            assert(relied@.skip(i as int).drop_first() =~= relied@.skip(i + 1));
            assert(relied@.skip(i as int)[0] == relied@[i as int]);
        }
        let r = relied[i];
        let v = r.dereference(env);
        match env.definition(v) {
            Definition::Variable(dv) => {
                proof {
                    assert(env.item_valid(env.spec_items()[v.index() as int]));
                }
                if fuel > 0 {
                    let dep = as_dependency_with_fuel(env, fuel - 1, dv.0);
                    acc.push_eager(dep);
                } else {
                    acc.append(Dependencies::new_missing(v));
                }
            },
            _ => {},
        }
        i += 1;
    }
    assert(relied@.skip(i as int) =~= Seq::<ItemPtr>::empty());
    acc
}

/// The dependency on variable `v`, with `fuel` nested fresh computations
/// allowed for its swallowed variables.
pub fn as_dependency_with_fuel(env: &Environment, fuel: usize, v: VariablePtr) -> (r: Dependency)
    requires
        env.wf(),
        env.valid_var(v),
    ensures
        r@ == spec_as_dependency(env, fuel as nat, v),
    decreases fuel, n_items(env) + 1, 0nat, 0nat,
{
    let var = env.get_variable(v);
    proof {
        assert(env.variable_valid(env.spec_variables()[v.index() as int]));
    }
    let mut ctx = DependencyCalculationContext::new(fuel);
    let deps = ctx.deps_list(env, Dependencies::new(), var.dependencies());
    let vars = deps.as_variables();
    let mut swallow: Vec<VariablePtr> = Vec::new();
    let mut i: usize = 0;
    while i < vars.len()
        invariant
            i <= vars@.len(),
            crate::dependencies::dep_views(vars@) == deps@.vars,
            swallow@ == dep_vars(deps@.vars).take(i as int),
        decreases vars@.len() - i,
    {
        swallow.push(vars[i].var);
        i += 1;
        proof {
            assert(swallow@ =~= dep_vars(deps@.vars).take(i as int)) by {
                assert(crate::dependencies::dep_views(vars@)[i - 1] == vars@[i - 1]@);
            }
        }
    }
    assert(dep_vars(deps@.vars).take(i as int) =~= dep_vars(deps@.vars));
    Dependency { var: v, swallow, order: *var.order() }
}

impl Variable {
    /// What the dependencies of the variable `this` depend on, in order.
    pub fn get_var_dependencies(env: &Environment, this: VariablePtr) -> (r: Dependencies)
        requires
            env.wf(),
            env.valid_var(this),
        ensures
            r.wf(),
            r@ == spec_deps_list(
                env,
                env.spec_items().len(),
                Seq::empty(),
                deps_empty(),
                env.var(this).spec_dependencies(),
            ),
    {
        let var = env.get_variable(this);
        proof {
            assert(env.variable_valid(env.spec_variables()[this.index() as int]));
        }
        let mut ctx = DependencyCalculationContext::new(env.num_items());
        ctx.deps_list(env, Dependencies::new(), var.dependencies())
    }

    /// The dependency on the variable `this`.
    pub fn as_dependency(env: &Environment, this: VariablePtr) -> (r: Dependency)
        requires
            env.wf(),
            env.valid_var(this),
        ensures
            r@ == spec_as_dependency(env, env.spec_items().len(), this),
    {
        as_dependency_with_fuel(env, env.num_items(), this)
    }
}

impl ItemPtr {
    /// The dependencies of this item.
    pub fn get_dependencies(&self, env: &Environment) -> (r: Dependencies)
        requires
            env.wf(),
            env.valid_item(*self),
        ensures
            r.wf(),
            r@ == spec_deps_of(env, env.spec_items().len(), Seq::empty(), *self),
    {
        let mut ctx = DependencyCalculationContext::new(env.num_items());
        ctx.get_dependencies(env, self)
    }
}

/// Adding the dependencies of a list of items keeps what was there and
/// holds every order that any of the items depends on, unless the
/// computation stopped at an unresolved item.
proof fn lemma_deps_list_orders(
    env: &Environment,
    fuel: nat,
    stack: Seq<ItemPtr>,
    acc: DepsView,
    items: Seq<ItemPtr>,
    o: VariableOrder,
)
    ensures
        spec_deps_list(env, fuel, stack, acc, items).error is None ==> acc.error is None,
        spec_deps_list(env, fuel, stack, acc, items).error is None && has_order(acc.vars, o) ==> has_order(
            spec_deps_list(env, fuel, stack, acc, items).vars,
            o,
        ),
        forall|i: int|
            0 <= i < items.len() && spec_deps_list(env, fuel, stack, acc, items).error is None && has_order(
                #[trigger] spec_deps_of(env, fuel, stack, items[i]).vars,
                o,
            ) ==> has_order(spec_deps_list(env, fuel, stack, acc, items).vars, o),
    decreases items.len(),
{
    if items.len() > 0 {
        let first = spec_deps_of(env, fuel, stack, items[0]);
        let acc2 = spec_append(acc, first);
        lemma_append_orders(acc, first, o);
        lemma_deps_list_orders(env, fuel, stack, acc2, items.drop_first(), o);
        assert forall|i: int|
            0 <= i < items.len() && spec_deps_list(env, fuel, stack, acc, items).error is None && has_order(
                #[trigger] spec_deps_of(env, fuel, stack, items[i]).vars,
                o,
            ) implies has_order(spec_deps_list(env, fuel, stack, acc, items).vars, o) by {
            if i > 0 {
                assert(items.drop_first()[i - 1] == items[i]);
            }
        }
    }
}

/// A decision depends on whatever any of its four parts depends on: every
/// variable order among the dependencies of its left side, its right side,
/// or either of its outcomes, computed in the decision's own context, is
/// among the orders of the decision's dependencies, unless that computation
/// stopped at an unresolved item.
pub proof fn law_decision_depends_on_its_parts(
    env: &Environment,
    fuel: nat,
    stack: Seq<ItemPtr>,
    d: ItemPtr,
    part: ItemPtr,
    o: VariableOrder,
)
    requires
        env.valid_item(d),
        env.def(d) matches Definition::Decision(x) && (part == x.left || part == x.right || part == x.when_equal
            || part == x.when_not_equal),
        stack.len() < n_items(env),
        !stack.contains(d),
        spec_deps_of(env, fuel, stack, d).error is None,
        has_order(spec_deps_of(env, fuel, stack.push(d), part).vars, o),
    ensures
        has_order(spec_deps_of(env, fuel, stack, d).vars, o),
{
    let x = env.def(d)->Decision_0;
    let parts = seq![x.left, x.right, x.when_equal, x.when_not_equal];
    lemma_deps_list_orders(env, fuel, stack.push(d), deps_empty(), parts, o);
    if part == x.left {
        assert(parts[0] == part);
    } else if part == x.right {
        assert(parts[1] == part);
    } else if part == x.when_equal {
        assert(parts[2] == part);
    } else {
        assert(parts[3] == part);
    }
}

/// A structure depends on whatever its body and its value depend on, as a
/// decision does on its parts.
pub proof fn law_structure_depends_on_its_parts(
    env: &Environment,
    fuel: nat,
    stack: Seq<ItemPtr>,
    s: ItemPtr,
    part: ItemPtr,
    o: VariableOrder,
)
    requires
        env.valid_item(s),
        env.def(s) matches Definition::PopulatedStruct(x) && (part == x.body || part == x.value),
        stack.len() < n_items(env),
        !stack.contains(s),
        spec_deps_of(env, fuel, stack, s).error is None,
        has_order(spec_deps_of(env, fuel, stack.push(s), part).vars, o),
    ensures
        has_order(spec_deps_of(env, fuel, stack, s).vars, o),
{
    let x = env.def(s)->PopulatedStruct_0;
    let parts = seq![x.body, x.value];
    lemma_deps_list_orders(env, fuel, stack.push(s), deps_empty(), parts, o);
    if part == x.body {
        assert(parts[0] == part);
    } else {
        assert(parts[1] == part);
    }
}

/// A call of a builtin function depends on whatever any of its arguments
/// depends on, as a decision does on its parts.
pub proof fn law_builtin_call_depends_on_its_arguments(
    env: &Environment,
    fuel: nat,
    stack: Seq<ItemPtr>,
    c: ItemPtr,
    k: int,
    o: VariableOrder,
)
    requires
        env.valid_item(c),
        env.def(c) matches Definition::BuiltinFunction(x) && 0 <= k < x.args@.len() && has_order(
            spec_deps_of(env, fuel, stack.push(c), x.args@[k]).vars,
            o,
        ),
        stack.len() < n_items(env),
        !stack.contains(c),
        spec_deps_of(env, fuel, stack, c).error is None,
    ensures
        has_order(spec_deps_of(env, fuel, stack, c).vars, o),
{
    let x = env.def(c)->BuiltinFunction_0;
    lemma_deps_list_orders(env, fuel, stack.push(c), deps_empty(), x.args@, o);
}

/// A variable depends on itself, at its own order, and on whatever the
/// items it is declared to depend on depend on, unless the computation
/// stopped at an unresolved item or had no fresh computation left.
pub proof fn law_variable_depends_on_itself_and_its_dependencies(
    env: &Environment,
    fuel: nat,
    stack: Seq<ItemPtr>,
    v: ItemPtr,
    k: int,
    o: VariableOrder,
)
    requires
        env.wf(),
        env.valid_item(v),
        env.def(v) is Variable,
        fuel > 0,
        stack.len() < n_items(env),
        !stack.contains(v),
        spec_deps_of(env, fuel, stack, v).error is None,
    ensures
        has_order(spec_deps_of(env, fuel, stack, v).vars, env.var(env.def(v)->Variable_0.0).spec_order()),
        ({
            let deps = env.var(env.def(v)->Variable_0.0).spec_dependencies();
            0 <= k < deps.len() && has_order(spec_deps_of(env, fuel, stack.push(v), deps[k]).vars, o)
                ==> has_order(spec_deps_of(env, fuel, stack, v).vars, o)
        }),
{
    let var = env.def(v)->Variable_0.0;
    assert(env.item_valid(env.spec_items()[v.index() as int]));
    let st = stack.push(v);
    let x = env.var(var);
    let a = spec_deps_list(env, fuel, st, deps_empty(), x.spec_dependencies());
    let dep = spec_as_dependency(env, (fuel - 1) as nat, var);
    let b = spec_push_eager(a, dep);
    let own = x.spec_order();
    lemma_deps_list_orders(env, fuel, st, b, x.spec_invariants(), own);
    lemma_deps_list_orders(env, fuel, st, b, x.spec_invariants(), o);
    lemma_push_eager_orders(a, dep, own);
    lemma_push_eager_orders(a, dep, o);
    lemma_deps_list_orders(env, fuel, st, deps_empty(), x.spec_dependencies(), o);
}

} // verus!
