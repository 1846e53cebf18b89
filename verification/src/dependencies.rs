use vstd::prelude::*;

use crate::item::ItemPtr;
use crate::resolvable::UnresolvedItemError;
use crate::variable::{VariableOrder, VariablePtr};

verus! {

/// A variable something depends on, the variables that replacing it swallows
/// (the dependencies of its own dependencies), and its order.
#[derive(Debug)]
pub struct Dependency {
    pub var: VariablePtr,
    pub swallow: Vec<VariablePtr>,
    pub order: VariableOrder,
}

/// The values of a list of dependencies.
pub open spec fn dep_views(s: Seq<Dependency>) -> Seq<DependencyView> {
    s.map_values(|d: Dependency| d@)
}

/// The mathematical value of a `Dependency`.
pub struct DependencyView {
    pub var: VariablePtr,
    pub swallow: Seq<VariablePtr>,
    pub order: VariableOrder,
}

impl View for Dependency {
    type V = DependencyView;

    open spec fn view(&self) -> DependencyView {
        DependencyView { var: self.var, swallow: self.swallow@, order: self.order }
    }
}

impl Dependency {
    pub fn clone_dep(&self) -> (r: Self)
        ensures
            r@ == self@,
    {
        let mut swallow: Vec<VariablePtr> = Vec::new();
        let mut i: usize = 0;
        while i < self.swallow.len()
            invariant
                i <= self.swallow@.len(),
                swallow@ == self.swallow@.take(i as int),
            decreases self.swallow@.len() - i,
        {
            swallow.push(self.swallow[i]);
            i += 1;
            assert(swallow@ =~= self.swallow@.take(i as int));
        }
        assert(self.swallow@.take(i as int) =~= self.swallow@);
        Dependency { var: self.var, swallow, order: self.order }
    }

    /// Whether two dependencies are on the same variable.
    pub fn is_same_variable_as(&self, other: &Dependency) -> (r: bool)
        ensures
            r == (self.var == other.var),
    {
        self.var.is_same_instance_as(&other.var)
    }

    /// Whether the two dependencies are equal in every field.
    pub fn equals(&self, other: &Dependency) -> (r: bool)
        ensures
            r == (self@ == other@),
    {
        if !self.var.is_same_instance_as(&other.var) || !self.order.equals(&other.order)
            || self.swallow.len() != other.swallow.len() {
            return false;
        }
        let mut i: usize = 0;
        while i < self.swallow.len()
            invariant
                i <= self.swallow@.len(),
                self.swallow@.len() == other.swallow@.len(),
                forall|j: int| 0 <= j < i ==> self.swallow@[j] == other.swallow@[j],
            decreases self.swallow@.len() - i,
        {
            if !self.swallow[i].is_same_instance_as(&other.swallow[i]) {
                return false;
            }
            i += 1;
        }
        assert(self.swallow@ =~= other.swallow@);
        true
    }
}

/// The variables something depends on, ordered by their order, with the
/// items skipped because they were already being examined, and the first
/// unresolved item that stopped the computation, if any.
pub struct DepsView {
    pub vars: Seq<DependencyView>,
    pub missing: Set<ItemPtr>,
    pub error: Option<UnresolvedItemError>,
}

/// The dependencies are in strictly increasing order.
pub open spec fn sorted_by_order(vars: Seq<DependencyView>) -> bool {
    forall|i: int, j: int| 0 <= i < j < vars.len() ==> (#[trigger] vars[i]).order.spec_lt(#[trigger] vars[j].order)
}

/// `vars` with `dep` put where its order belongs.
pub open spec fn insert_sorted(vars: Seq<DependencyView>, dep: DependencyView) -> Seq<DependencyView>
    decreases vars.len(),
{
    if vars.len() == 0 {
        seq![dep]
    } else if dep.order.spec_lt(vars[0].order) {
        seq![dep] + vars
    } else {
        seq![vars[0]] + insert_sorted(vars.drop_first(), dep)
    }
}

/// Whether some dependency has the order `o`.
pub open spec fn has_order(vars: Seq<DependencyView>, o: VariableOrder) -> bool {
    exists|i: int| 0 <= i < vars.len() && (#[trigger] vars[i]).order == o
}

/// Adds a dependency unless the computation already failed or a dependency of
/// the same order is present.
pub open spec fn spec_push_eager(d: DepsView, dep: DependencyView) -> DepsView {
    if d.error.is_some() || has_order(d.vars, dep.order) {
        d
    } else {
        DepsView { vars: insert_sorted(d.vars, dep), ..d }
    }
}

/// Pushes each dependency in turn.
pub open spec fn spec_push_all(d: DepsView, vars: Seq<DependencyView>) -> DepsView
    decreases vars.len(),
{
    if vars.len() == 0 {
        d
    } else {
        spec_push_all(spec_push_eager(d, vars[0]), vars.drop_first())
    }
}

/// Adds what `other` holds, unless the computation already failed: its
/// skipped items, its error (which replaces the current one), then its
/// dependencies.
pub open spec fn spec_append(d: DepsView, other: DepsView) -> DepsView {
    if d.error.is_some() {
        d
    } else {
        spec_push_all(
            DepsView { vars: d.vars, missing: d.missing + other.missing, error: other.error },
            other.vars,
        )
    }
}

pub open spec fn deps_empty() -> DepsView {
    DepsView { vars: Seq::empty(), missing: Set::empty(), error: None }
}

pub open spec fn deps_missing(item: ItemPtr) -> DepsView {
    DepsView { vars: Seq::empty(), missing: set![item], error: None }
}

pub open spec fn deps_error(e: UnresolvedItemError) -> DepsView {
    DepsView { vars: Seq::empty(), missing: Set::empty(), error: Some(e) }
}

/// Inserting keeps the dependencies sorted and adds exactly the new one.
pub proof fn lemma_insert_sorted(vars: Seq<DependencyView>, dep: DependencyView)
    requires
        sorted_by_order(vars),
        !has_order(vars, dep.order),
    ensures
        sorted_by_order(insert_sorted(vars, dep)),
        insert_sorted(vars, dep).len() == vars.len() + 1,
        forall|x: DependencyView| #![trigger insert_sorted(vars, dep).contains(x)] #![trigger vars.contains(x)] insert_sorted(vars, dep).contains(x) <==> (vars.contains(x) || x == dep),
    decreases vars.len(),
{
    if vars.len() == 0 {
        assert(insert_sorted(vars, dep) =~= seq![dep]);
        assert forall|x: DependencyView| insert_sorted(vars, dep).contains(x) <==> (vars.contains(x) || x == dep) by {
            assert(seq![dep][0] == dep);
        }
    } else if dep.order.spec_lt(vars[0].order) {
        assert forall|i: int, j: int| 0 <= i < j < vars.len() + 1 implies (#[trigger] (seq![dep]
            + vars)[i]).order.spec_lt(#[trigger] (seq![dep] + vars)[j].order) by {
            if i == 0 {
                if j > 1 {
                    assert(vars[0].order.spec_lt(vars[j - 1].order));
                }
            } else {
                assert(vars[i - 1].order.spec_lt(vars[j - 1].order));
            }
        }
        assert(insert_sorted(vars, dep) == seq![dep] + vars);
        assert forall|x: DependencyView| insert_sorted(vars, dep).contains(x) <==> (vars.contains(x) || x
            == dep) by {
            if (seq![dep] + vars).contains(x) && x != dep {
                let k = choose|k: int| 0 <= k < vars.len() + 1 && (seq![dep] + vars)[k] == x;
                assert(vars[k - 1] == x);
            }
            if vars.contains(x) {
                let k = choose|k: int| 0 <= k < vars.len() && vars[k] == x;
                assert((seq![dep] + vars)[k + 1] == x);
            }
            if x == dep {
                assert((seq![dep] + vars)[0] == x);
            }
        }
    } else {
        let rest = vars.drop_first();
        assert(sorted_by_order(rest)) by {
            assert forall|i: int, j: int| 0 <= i < j < rest.len() implies (#[trigger] rest[i]).order.spec_lt(
                #[trigger] rest[j].order,
            ) by {
                assert(vars[i + 1].order.spec_lt(vars[j + 1].order));
            }
        }
        assert(!has_order(rest, dep.order)) by {
            if has_order(rest, dep.order) {
                let k = choose|k: int| 0 <= k < rest.len() && (#[trigger] rest[k]).order == dep.order;
                assert(vars[k + 1].order == dep.order);
            }
        }
        assert(vars[0].order != dep.order) by {
            assert(vars[0].order == dep.order ==> has_order(vars, dep.order));
        }
        lemma_insert_sorted(rest, dep);
        let ins = insert_sorted(rest, dep);
        let res = seq![vars[0]] + ins;
        assert(insert_sorted(vars, dep) == res);
        assert forall|x: DependencyView| ins.contains(x) implies vars[0].order.spec_lt(x.order) by {
            if x == dep {
                crate::variable::lemma_variable_order_strict_total(vars[0].order, dep.order, dep.order);
            } else {
                assert(insert_sorted(rest, dep).contains(x));
                assert(rest.contains(x));
                let k = choose|k: int| 0 <= k < rest.len() && rest[k] == x;
                assert(vars[0].order.spec_lt(vars[k + 1].order));
            }
        }
        assert forall|i: int, j: int| 0 <= i < j < res.len() implies (#[trigger] res[i]).order.spec_lt(
            #[trigger] res[j].order,
        ) by {
            if i == 0 {
                assert(ins.contains(res[j])) by {
                    assert(ins[j - 1] == res[j]);
                }
            } else {
                assert(res[i] == ins[i - 1] && res[j] == ins[j - 1]);
            }
        }
        assert forall|x: DependencyView| insert_sorted(vars, dep).contains(x) <==> (vars.contains(x) || x == dep) by {
            if res.contains(x) {
                let k = choose|k: int| 0 <= k < res.len() && res[k] == x;
                if k > 0 {
                    assert(ins[k - 1] == x);
                    assert(ins.contains(x));
                    assert(insert_sorted(rest, dep).contains(x));
                    if x != dep {
                        assert(rest.contains(x));
                        let m = choose|m: int| 0 <= m < rest.len() && rest[m] == x;
                        assert(vars[m + 1] == x);
                    }
                } else {
                    assert(vars[0] == x);
                }
            }
            if vars.contains(x) {
                let k = choose|k: int| 0 <= k < vars.len() && vars[k] == x;
                if k == 0 {
                    assert(res[0] == x);
                } else {
                    assert(rest[k - 1] == x);
                    assert(rest.contains(x));
                    assert(ins.contains(x));
                    let m = choose|m: int| 0 <= m < ins.len() && ins[m] == x;
                    assert(res[m + 1] == x);
                }
            }
            if x == dep {
                assert(ins.contains(x));
                let m = choose|m: int| 0 <= m < ins.len() && ins[m] == x;
                assert(res[m + 1] == x);
            }
        }
    }
}

/// `insert_sorted` puts the dependency at the first position whose
/// dependency comes after it.
pub proof fn lemma_insert_sorted_at(vars: Seq<DependencyView>, dep: DependencyView, k: int)
    requires
        0 <= k <= vars.len(),
        forall|i: int| 0 <= i < k ==> !dep.order.spec_lt(#[trigger] vars[i].order),
        k < vars.len() ==> dep.order.spec_lt(vars[k].order),
    ensures
        insert_sorted(vars, dep) == vars.take(k).push(dep) + vars.skip(k),
    decreases vars.len(),
{
    if vars.len() == 0 {
        assert(vars.take(k).push(dep) + vars.skip(k) =~= seq![dep]);
    } else if dep.order.spec_lt(vars[0].order) {
        assert(k == 0);
        assert(vars.take(k).push(dep) + vars.skip(k) =~= seq![dep] + vars);
    } else {
        assert(k > 0);
        let rest = vars.drop_first();
        assert forall|i: int| 0 <= i < k - 1 implies !dep.order.spec_lt(#[trigger] rest[i].order) by {
            assert(rest[i] == vars[i + 1]);
        }
        lemma_insert_sorted_at(rest, dep, k - 1);
        assert(seq![vars[0]] + (rest.take(k - 1).push(dep) + rest.skip(k - 1)) =~= vars.take(k).push(
            dep,
        ) + vars.skip(k));
    }
}

/// Keeping some dependencies of a sorted list keeps it sorted.
pub proof fn lemma_filter_sorted(vars: Seq<DependencyView>, f: spec_fn(DependencyView) -> bool)
    requires
        sorted_by_order(vars),
    ensures
        sorted_by_order(vars.filter(f)),
    decreases vars.len(),
{
    if vars.len() > 0 {
        let init = vars.drop_last();
        let last = vars.last();
        assert(sorted_by_order(init)) by {
            assert forall|i: int, j: int| 0 <= i < j < init.len() implies (#[trigger] init[i]).order.spec_lt(
                #[trigger] init[j].order,
            ) by {
                assert(vars[i].order.spec_lt(vars[j].order));
            }
        }
        lemma_filter_sorted(init, f);
        assert(init.push(last) =~= vars);
        init.lemma_filter_push(last, f);
        if f(last) {
            let fi = init.filter(f);
            assert forall|i: int, j: int|
                0 <= i < j < fi.len() + 1 implies (#[trigger] fi.push(last)[i]).order.spec_lt(
                #[trigger] fi.push(last)[j].order,
            ) by {
                if j == fi.len() {
                    assert(fi.contains(fi[i]));
                    init.lemma_filter_contains_rev(f, fi[i]);
                    let k = choose|k: int| 0 <= k < init.len() && init[k] == fi[i];
                    assert(vars[k].order.spec_lt(vars[vars.len() - 1].order));
                } else {
                    assert(fi.push(last)[i] == fi[i] && fi.push(last)[j] == fi[j]);
                }
            }
        }
    }
}

/// The dependencies of something, kept in order of their variables.
pub struct Dependencies {
    dependencies: Vec<Dependency>,
    skipped_due_to_recursion: Vec<ItemPtr>,
    skipped_due_to_unresolved: Option<UnresolvedItemError>,
}

impl View for Dependencies {
    type V = DepsView;

    closed spec fn view(&self) -> DepsView {
        DepsView {
            vars: dep_views(self.dependencies@),
            missing: self.skipped_due_to_recursion@.to_set(),
            error: self.skipped_due_to_unresolved,
        }
    }
}

impl Dependencies {
    pub closed spec fn wf(&self) -> bool {
        &&& sorted_by_order(self@.vars)
        &&& self.skipped_due_to_recursion@.no_duplicates()
    }

    /// Well-formed dependencies are in strictly increasing order, so no
    /// variable occurs twice among them.
    pub proof fn lemma_wf_sorted(&self)
        requires
            self.wf(),
        ensures
            sorted_by_order(self@.vars),
            forall|i: int, j: int|
                0 <= i < j < self@.vars.len() ==> (#[trigger] self@.vars[i]) != #[trigger] self@.vars[j],
    {
        assert forall|i: int, j: int| 0 <= i < j < self@.vars.len() implies (#[trigger] self@.vars[i]) != #[trigger] self@.vars[j] by {
            assert(self@.vars[i].order.spec_lt(self@.vars[j].order));
            crate::variable::lemma_variable_order_strict_total(self@.vars[i].order, self@.vars[j].order, self@.vars[j].order);
        }
    }

    pub fn new() -> (r: Self)
        ensures
            r.wf(),
            r@ == deps_empty(),
    {
        let r = Self {
            dependencies: Vec::new(),
            skipped_due_to_recursion: Vec::new(),
            skipped_due_to_unresolved: None,
        };
        assert(r@.vars =~= Seq::<DependencyView>::empty());
        assert(r@.missing =~= Set::<ItemPtr>::empty());
        r
    }

    /// Nothing but `item`, skipped because it was already being examined.
    pub fn new_missing(item: ItemPtr) -> (r: Self)
        ensures
            r.wf(),
            r@ == deps_missing(item),
    {
        let mut missing: Vec<ItemPtr> = Vec::new();
        missing.push(item);
        let r = Self {
            dependencies: Vec::new(),
            skipped_due_to_recursion: missing,
            skipped_due_to_unresolved: None,
        };
        assert(r@.vars =~= Seq::<DependencyView>::empty());
        assert(r@.missing =~= set![item]) by {
            assert(missing@ =~= seq![item]);
            assert(missing@[0] == item);
            assert(missing@.contains(item));
        }
        r
    }

    /// Nothing but the unresolved item that stopped the computation.
    pub fn new_error(error: UnresolvedItemError) -> (r: Self)
        ensures
            r.wf(),
            r@ == deps_error(error),
    {
        let r = Self {
            dependencies: Vec::new(),
            skipped_due_to_recursion: Vec::new(),
            skipped_due_to_unresolved: Some(error),
        };
        assert(r@.vars =~= Seq::<DependencyView>::empty());
        assert(r@.missing =~= Set::<ItemPtr>::empty());
        r
    }

    /// Adds `dep` in order, unless the computation already failed or a
    /// dependency of the same order is present.
    pub fn push_eager(&mut self, dep: Dependency)
        requires
            old(self).wf(),
        ensures
            final(self).wf(),
            final(self)@ == spec_push_eager(old(self)@, dep@),
    {
        if self.skipped_due_to_unresolved.is_some() {
            return;
        }
        let ghost vars = self@.vars;
        let mut k: usize = 0;
        while k < self.dependencies.len() && !dep.order.lt(&self.dependencies[k].order)
            invariant
                self.wf(),
                *self == *old(self),
                self.skipped_due_to_unresolved.is_none(),
                k <= self.dependencies@.len(),
                vars == dep_views(self.dependencies@),
                forall|i: int| 0 <= i < k ==> (#[trigger] vars[i]).order != dep.order,
                forall|i: int| 0 <= i < k ==> !dep.order.spec_lt(#[trigger] vars[i].order),
            decreases self.dependencies@.len() - k,
        {
            let o = self.dependencies[k].order;
            assert(vars[k as int].order == o);
            if o.equals(&dep.order) {
                assert(has_order(vars, dep.order));
                return;
            }
            k += 1;
        }
        proof {
            if k < vars.len() {
                assert(vars[k as int].order == self.dependencies@[k as int].order);
            }
            assert(!has_order(vars, dep.order)) by {
                if has_order(vars, dep.order) {
                    let j = choose|j: int| 0 <= j < vars.len() && (#[trigger] vars[j]).order == dep.order;
                    if j < k {
                    } else {
                        if k < vars.len() && j > k {
                            assert(vars[k as int].order.spec_lt(vars[j].order));
                            crate::variable::lemma_variable_order_strict_total(
                                dep.order,
                                vars[k as int].order,
                                vars[j].order,
                            );
                        }
                    }
                }
            }
            lemma_insert_sorted(vars, dep@);
            lemma_insert_sorted_at(vars, dep@, k as int);
        }
        self.dependencies.insert(k, dep);
        proof {
            assert(self@.vars =~= vars.take(k as int).push(dep@) + vars.skip(k as int));
        }
    }

    /// Pushes each of `vars` in turn.
    pub fn push_all(&mut self, vars: Vec<Dependency>)
        requires
            old(self).wf(),
        ensures
            final(self).wf(),
            final(self)@ == spec_push_all(old(self)@, dep_views(vars@)),
    {
        let ghost all = dep_views(vars@);
        let mut vars = vars;
        let ghost target = spec_push_all(self@, all);
        while vars.len() > 0
            invariant
                self.wf(),
                vars@.len() <= all.len(),
                dep_views(vars@) == all.skip(all.len() - vars@.len()),
                target == spec_push_all(self@, all.skip(all.len() - vars@.len())),
            decreases vars@.len(),
        {
            let ghost rest = all.skip(all.len() - vars@.len());
            let dep = vars.remove(0);
            proof {
                assert(rest[0] == dep@);
                assert(rest.drop_first() =~= all.skip(all.len() - vars@.len()));
                assert(dep_views(vars@) =~= rest.drop_first());
            }
            self.push_eager(dep);
        }
        assert(all.skip(all.len() as int) =~= Seq::<DependencyView>::empty());
    }

    /// The dependencies, in order.
    pub fn as_variables(&self) -> (r: &[Dependency])
        ensures
            dep_views(r@) == self@.vars,
    {
        self.dependencies.as_slice()
    }

    /// The dependencies, in order.
    pub fn into_variables(self) -> (r: Vec<Dependency>)
        ensures
            dep_views(r@) == self@.vars,
    {
        self.dependencies
    }

    /// Adds the skipped items, the error and the dependencies of `other`,
    /// unless this computation already failed.
    pub fn append(&mut self, other: Dependencies)
        requires
            old(self).wf(),
            other.wf(),
        ensures
            final(self).wf(),
            final(self)@ == spec_append(old(self)@, other@),
    {
        if self.skipped_due_to_unresolved.is_some() {
            return;
        }
        let ghost old_view = self@;
        let Dependencies { dependencies, skipped_due_to_recursion, skipped_due_to_unresolved } = other;
        let mut i: usize = 0;
        let ghost start = self.skipped_due_to_recursion@;
        while i < skipped_due_to_recursion.len()
            invariant
                self.dependencies == old(self).dependencies,
                self.skipped_due_to_unresolved == old(self).skipped_due_to_unresolved,
                old_view == old(self)@,
                start == old(self).skipped_due_to_recursion@,
                sorted_by_order(self@.vars),
                i <= skipped_due_to_recursion@.len(),
                self.skipped_due_to_recursion@.no_duplicates(),
                self.skipped_due_to_recursion@.to_set() == start.to_set()
                    + skipped_due_to_recursion@.take(i as int).to_set(),
            decreases skipped_due_to_recursion@.len() - i,
        {
            let item = skipped_due_to_recursion[i];
            let mut present = false;
            let mut j: usize = 0;
            while j < self.skipped_due_to_recursion.len()
                invariant
                    j <= self.skipped_due_to_recursion@.len(),
                    !present ==> forall|m: int| 0 <= m < j ==> self.skipped_due_to_recursion@[m] != item,
                    present ==> self.skipped_due_to_recursion@.contains(item),
                decreases self.skipped_due_to_recursion@.len() - j,
            {
                if self.skipped_due_to_recursion[j].is_same_instance_as(&item) {
                    present = true;
                }
                j += 1;
            }
            let ghost before = self.skipped_due_to_recursion@;
            if !present {
                self.skipped_due_to_recursion.push(item);
            }
            proof {
                assert(skipped_due_to_recursion@.take(i + 1) =~= skipped_due_to_recursion@.take(
                    i as int,
                ).push(item));
                skipped_due_to_recursion@.take(i as int).lemma_push_to_set_commute(item);
                if !present {
                    before.lemma_push_to_set_commute(item);
                    assert(self.skipped_due_to_recursion@.no_duplicates()) by {
                        assert forall|a: int, b: int|
                            0 <= a < self.skipped_due_to_recursion@.len() && 0 <= b
                                < self.skipped_due_to_recursion@.len() && a != b implies self.skipped_due_to_recursion@[a]
                                != self.skipped_due_to_recursion@[b] by {
                            if a < before.len() && b < before.len() {
                                assert(before[a] != before[b]);
                            }
                        }
                    }
                } else {
                    assert(before.to_set().contains(item));
                }
                assert(self.skipped_due_to_recursion@.to_set() =~= start.to_set()
                    + skipped_due_to_recursion@.take(i + 1).to_set());
            }
            i += 1;
        }
        assert(skipped_due_to_recursion@.take(i as int) =~= skipped_due_to_recursion@);
        self.skipped_due_to_unresolved = skipped_due_to_unresolved;
        proof {
            assert(self@ == DepsView {
                vars: old_view.vars,
                missing: old_view.missing + other@.missing,
                error: other@.error,
            });
        }
        self.push_all(dependencies);
    }

    /// Forgets that `item` was skipped.
    pub fn remove_missing(&mut self, item: &ItemPtr)
        requires
            old(self).wf(),
        ensures
            final(self).wf(),
            final(self)@ == (DepsView { missing: old(self)@.missing.remove(*item), ..old(self)@ }),
    {
        let mut i: usize = 0;
        while i < self.skipped_due_to_recursion.len()
            invariant
                *self == *old(self),
                self.wf(),
                i <= self.skipped_due_to_recursion@.len(),
                forall|j: int| 0 <= j < i ==> self.skipped_due_to_recursion@[j] != *item,
            decreases self.skipped_due_to_recursion@.len() - i,
        {
            if self.skipped_due_to_recursion[i].is_same_instance_as(item) {
                let ghost before = self.skipped_due_to_recursion@;
                self.skipped_due_to_recursion.remove(i);
                proof {
                    let after = self.skipped_due_to_recursion@;
                    assert(after =~= before.remove(i as int));
                    assert(after.no_duplicates()) by {
                        assert forall|a: int, b: int| 0 <= a < after.len() && 0 <= b < after.len() && a != b
                            implies after[a] != after[b] by {
                            let a2 = if a < i { a } else { a + 1 };
                            let b2 = if b < i { b } else { b + 1 };
                            assert(after[a] == before[a2] && after[b] == before[b2]);
                        }
                    }
                    assert(after.to_set() =~= before.to_set().remove(*item)) by {
                        assert forall|x: ItemPtr| after.to_set().contains(x) <==> before.to_set().remove(
                            *item,
                        ).contains(x) by {
                            if after.contains(x) {
                                let k = choose|k: int| 0 <= k < after.len() && after[k] == x;
                                let k2 = if k < i { k } else { k + 1 };
                                assert(before[k2] == x);
                                assert(k2 != i);
                                assert(before[i as int] == *item);
                            }
                            if before.contains(x) && x != *item {
                                let k = choose|k: int| 0 <= k < before.len() && before[k] == x;
                                assert(k != i);
                                if k < i {
                                    assert(after[k] == x);
                                } else {
                                    assert(after[k - 1] == x);
                                }
                            }
                        }
                    }
                }
                return;
            }
            i += 1;
        }
        proof {
            assert(self.skipped_due_to_recursion@.to_set() =~= old(self).skipped_due_to_recursion@.to_set().remove(*item));
        }
    }

    pub fn num_variables(&self) -> (r: usize)
        ensures
            r == self@.vars.len(),
    {
        self.dependencies.len()
    }

    /// Drops the dependency on `var`, if any.
    pub fn remove(&mut self, var: VariablePtr)
        requires
            old(self).wf(),
        ensures
            final(self).wf(),
            final(self)@.missing == old(self)@.missing,
            final(self)@.error == old(self)@.error,
            final(self)@.vars == old(self)@.vars.filter(|d: DependencyView| d.var != var),
    {
        let ghost vars = self@.vars;
        let mut kept: Vec<Dependency> = Vec::new();
        let mut deps: Vec<Dependency> = Vec::new();
        std::mem::swap(&mut deps, &mut self.dependencies);
        let ghost all = dep_views(deps@);
        assert(all == vars);
        let mut i: usize = 0;
        let total = deps.len();
        assert(all.len() == total);
        while deps.len() > 0
            invariant
                deps@.len() + i == all.len(),
                all.len() <= usize::MAX,
                dep_views(deps@) == all.skip(i as int),
                dep_views(kept@) == all.take(i as int).filter(
                    |d: DependencyView| d.var != var,
                ),
            decreases deps@.len(),
        {
            let ghost rest = all.skip(i as int);
            let d = deps.remove(0);
            proof {
                assert(rest[0] == d@);
                assert(d@ == all[i as int]);
                assert forall|j: int| 0 <= j < deps@.len() implies #[trigger] dep_views(deps@)[j] == all.skip(i + 1)[j] by {
                    assert(rest[j + 1] == all.skip(i + 1)[j]);
                }
                assert(dep_views(deps@) =~= all.skip(i + 1));
                assert(all.take(i + 1) =~= all.take(i as int).push(all[i as int]));
                all.take(i as int).lemma_filter_push(all[i as int], |d: DependencyView| d.var != var);
            }
            if !d.var.is_same_instance_as(&var) {
                kept.push(d);
                assert(dep_views(kept@) =~= all.take(i + 1).filter(
                    |d: DependencyView| d.var != var,
                ));
            } else {
                assert(dep_views(kept@) =~= all.take(i + 1).filter(
                    |d: DependencyView| d.var != var,
                ));
            }
            i += 1;
        }
        assert(all.take(i as int) =~= all);
        self.dependencies = kept;
        proof {
            lemma_filter_sorted(vars, |d: DependencyView| d.var != var);
        }
    }

    /// Removes and returns the first dependency.
    pub fn pop_front(&mut self) -> (r: Dependency)
        requires
            old(self).wf(),
            old(self)@.vars.len() > 0,
        ensures
            final(self).wf(),
            r@ == old(self)@.vars[0],
            final(self)@ == (DepsView { vars: old(self)@.vars.drop_first(), ..old(self)@ }),
    {
        let r = self.dependencies.remove(0);
        proof {
            assert(self@.vars =~= old(self)@.vars.drop_first());
        }
        r
    }

    /// Whether a dependency equal to `dep` in every field is present.
    pub fn contains(&self, dep: &Dependency) -> (r: bool)
        ensures
            r == self@.vars.contains(dep@),
    {
        let mut i: usize = 0;
        while i < self.dependencies.len()
            invariant
                i <= self.dependencies@.len(),
                forall|j: int| 0 <= j < i ==> (#[trigger] self.dependencies@[j])@ != dep@,
            decreases self.dependencies@.len() - i,
        {
            if self.dependencies[i].equals(dep) {
                assert(self@.vars[i as int] == dep@);
                return true;
            }
            i += 1;
        }
        proof {
            if self@.vars.contains(dep@) {
                let j = choose|j: int| 0 <= j < self@.vars.len() && self@.vars[j] == dep@;
                assert(self.dependencies@[j]@ == dep@);
            }
        }
        false
    }

    /// Whether some dependency is on `var`.
    pub fn contains_var(&self, var: VariablePtr) -> (r: bool)
        ensures
            r == exists|i: int| 0 <= i < self@.vars.len() && (#[trigger] self@.vars[i]).var == var,
    {
        match self.get_var(var) {
            Some(_) => true,
            None => false,
        }
    }

    /// The first dependency on `var`, if any.
    pub fn get_var(&self, var: VariablePtr) -> (r: Option<&Dependency>)
        ensures
            r matches Some(d) ==> exists|i: int|
                0 <= i < self@.vars.len() && self@.vars[i] == d@ && d.var == var && forall|j: int|
                    0 <= j < i ==> (#[trigger] self@.vars[j]).var != var,
            r is None ==> forall|i: int| 0 <= i < self@.vars.len() ==> (#[trigger] self@.vars[i]).var != var,
    {
        let mut i: usize = 0;
        while i < self.dependencies.len()
            invariant
                i <= self.dependencies@.len(),
                forall|j: int| 0 <= j < i ==> (#[trigger] self.dependencies@[j]).var != var,
            decreases self.dependencies@.len() - i,
        {
            if self.dependencies[i].var.is_same_instance_as(&var) {
                proof {
                    assert(self@.vars[i as int] == self.dependencies@[i as int]@);
                    assert forall|j: int| 0 <= j < i implies (#[trigger] self@.vars[j]).var != var by {
                        assert(self@.vars[j] == self.dependencies@[j]@);
                    }
                }
                return Some(&self.dependencies[i]);
            }
            i += 1;
        }
        proof {
            assert forall|j: int| 0 <= j < self@.vars.len() implies (#[trigger] self@.vars[j]).var != var by {
                assert(self@.vars[j] == self.dependencies@[j]@);
            }
        }
        None
    }

    /// The items skipped because they were already being examined.
    pub fn missing(&self) -> (r: &[ItemPtr])
        ensures
            r@.to_set() == self@.missing,
            r@.no_duplicates() || !self.wf(),
    {
        self.skipped_due_to_recursion.as_slice()
    }

    /// The unresolved item that stopped the computation, if any.
    pub fn error(&self) -> (r: Option<UnresolvedItemError>)
        ensures
            r == self@.error,
    {
        self.skipped_due_to_unresolved
    }
}

/// Inserting in order adds the new dependency and keeps every other one.
pub proof fn lemma_insert_sorted_orders(vars: Seq<DependencyView>, dep: DependencyView, o: VariableOrder)
    ensures
        has_order(insert_sorted(vars, dep), o) <==> has_order(vars, o) || dep.order == o,
    decreases vars.len(),
{
    let r = insert_sorted(vars, dep);
    if vars.len() == 0 {
        assert(r =~= seq![dep]);
        if dep.order == o {
            assert(r[0].order == o);
        }
    } else if dep.order.spec_lt(vars[0].order) {
        assert(r =~= seq![dep] + vars);
        if has_order(vars, o) {
            let i = choose|i: int| 0 <= i < vars.len() && (#[trigger] vars[i]).order == o;
            assert(r[i + 1] == vars[i]);
        }
        if dep.order == o {
            assert(r[0].order == o);
        }
        if has_order(r, o) {
            let i = choose|i: int| 0 <= i < r.len() && (#[trigger] r[i]).order == o;
            if i > 0 {
                assert(vars[i - 1] == r[i]);
            }
        }
    } else {
        let rest = insert_sorted(vars.drop_first(), dep);
        lemma_insert_sorted_orders(vars.drop_first(), dep, o);
        assert(r =~= seq![vars[0]] + rest);
        if has_order(vars, o) {
            let i = choose|i: int| 0 <= i < vars.len() && (#[trigger] vars[i]).order == o;
            if i == 0 {
                assert(r[0] == vars[0]);
            } else {
                assert(vars.drop_first()[i - 1] == vars[i]);
                let j = choose|j: int| 0 <= j < rest.len() && (#[trigger] rest[j]).order == o;
                assert(r[j + 1] == rest[j]);
            }
        }
        if dep.order == o {
            let j = choose|j: int| 0 <= j < rest.len() && (#[trigger] rest[j]).order == o;
            assert(r[j + 1] == rest[j]);
        }
        if has_order(r, o) {
            let i = choose|i: int| 0 <= i < r.len() && (#[trigger] r[i]).order == o;
            if i == 0 {
                assert(vars[0].order == o);
            } else {
                assert(rest[i - 1] == r[i]);
                if has_order(vars.drop_first(), o) {
                    let j = choose|j: int| 0 <= j < vars.drop_first().len() && (#[trigger] vars.drop_first()[j]).order == o;
                    assert(vars[j + 1] == vars.drop_first()[j]);
                }
            }
        }
    }
}

/// Pushing a dependency keeps the error and, where there is none, every
/// order already held, and adds the order of the new one.
pub proof fn lemma_push_eager_orders(d: DepsView, dep: DependencyView, o: VariableOrder)
    ensures
        spec_push_eager(d, dep).error == d.error,
        d.error is None ==> (has_order(spec_push_eager(d, dep).vars, o) <==> has_order(d.vars, o) || dep.order == o),
{
    if d.error is None && !has_order(d.vars, dep.order) {
        lemma_insert_sorted_orders(d.vars, dep, o);
    }
}

/// Pushing dependencies in turn keeps the error and, where there is none,
/// holds exactly the orders held before and those pushed.
pub proof fn lemma_push_all_orders(d: DepsView, vars: Seq<DependencyView>, o: VariableOrder)
    ensures
        spec_push_all(d, vars).error == d.error,
        d.error is None ==> (has_order(spec_push_all(d, vars).vars, o) <==> has_order(d.vars, o) || has_order(vars, o)),
    decreases vars.len(),
{
    if vars.len() > 0 {
        let d2 = spec_push_eager(d, vars[0]);
        lemma_push_eager_orders(d, vars[0], o);
        lemma_push_all_orders(d2, vars.drop_first(), o);
        if has_order(vars, o) {
            let i = choose|i: int| 0 <= i < vars.len() && (#[trigger] vars[i]).order == o;
            if i > 0 {
                assert(vars.drop_first()[i - 1] == vars[i]);
            }
        }
        if has_order(vars.drop_first(), o) {
            let j = choose|j: int| 0 <= j < vars.drop_first().len() && (#[trigger] vars.drop_first()[j]).order == o;
            assert(vars[j + 1] == vars.drop_first()[j]);
        }
    }
}

/// Appending succeeds only where both parts did, and then holds exactly the
/// orders of both.
pub proof fn lemma_append_orders(d: DepsView, other: DepsView, o: VariableOrder)
    ensures
        spec_append(d, other).error is None ==> d.error is None && other.error is None,
        spec_append(d, other).error is None ==> (has_order(spec_append(d, other).vars, o) <==> has_order(d.vars, o)
            || has_order(other.vars, o)),
{
    if d.error is None {
        lemma_push_all_orders(
            DepsView { vars: d.vars, missing: d.missing + other.missing, error: other.error },
            other.vars,
            o,
        );
    }
}

} // verus!
