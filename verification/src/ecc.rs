use vstd::prelude::*;

use crate::dcc::{n_items, spec_deps_list, spec_deps_of};
use crate::definitions::Definition;
use crate::dependencies::{deps_empty, spec_append, Dependencies, DependencyView, DepsView};
use crate::deref::spec_dereference;
use crate::environment::Environment;
use crate::equal::{spec_and, value_deref, yes_view, EqualView, SubEntries};
use crate::item::ItemPtr;
use crate::resolvable::UnresolvedItemError;
use crate::substitutions::{entries_get, entries_remove, Substitutions};
use crate::variable::VariablePtr;

verus! {

/// Which side of an equality test is being asked whether it equals the
/// other.
#[derive(Clone, Copy, PartialEq, Eq, Debug, Structural)]
pub enum EqualityTestSide {
    Left,
    Right,
}

/// What an equality test looks at: the two sides, each with the
/// substitutions met on the way to it (the most recent first), and which
/// side is being asked.
pub struct EccView {
    pub lhs: ItemPtr,
    pub lhs_subs: Seq<SubEntries>,
    pub rhs: ItemPtr,
    pub rhs_subs: Seq<SubEntries>,
    pub side: EqualityTestSide,
}

/// Substituted items computed during a test whose creation is left for
/// later: the `k`th stands at position `k` past the environment's last item.
pub type PendingView = Seq<(ItemPtr, SubEntries)>;

/// What a step of an equality test gives: its result, the context it leaves
/// behind and the substituted items still to be created.
pub struct EqOut {
    pub res: Result<EqualView, UnresolvedItemError>,
    pub ctx: EccView,
    pub pending: PendingView,
}

/// No item of the environment is a placeholder.
pub open spec fn no_placeholders(env: &Environment) -> bool {
    forall|i: int| 0 <= i < env.spec_items().len() ==> !((#[trigger] env.spec_items()[i]).definition is Placeholder)
}

/// The item that stands for a variable, when the variable exists.
pub open spec fn var_item(env: &Environment, v: VariablePtr) -> Option<ItemPtr> {
    if env.valid_var(v) {
        Some(env.var(v).spec_item())
    } else {
        None
    }
}

/// The entries with `(key, value)` added unless `key` has one already.
pub open spec fn insert_if_absent(e: SubEntries, key: VariablePtr, value: ItemPtr) -> SubEntries {
    if entries_get(e, key) is None {
        e.push((key, value))
    } else {
        e
    }
}

pub open spec fn primary_of(c: EccView) -> ItemPtr {
    match c.side {
        EqualityTestSide::Left => c.lhs,
        EqualityTestSide::Right => c.rhs,
    }
}

pub open spec fn other_of(c: EccView) -> ItemPtr {
    match c.side {
        EqualityTestSide::Left => c.rhs,
        EqualityTestSide::Right => c.lhs,
    }
}

pub open spec fn primary_subs_of(c: EccView) -> Seq<SubEntries> {
    match c.side {
        EqualityTestSide::Left => c.lhs_subs,
        EqualityTestSide::Right => c.rhs_subs,
    }
}

/// The context with `subs` put first among the primary side's substitutions.
pub open spec fn prepend_primary(c: EccView, subs: SubEntries) -> EccView {
    match c.side {
        EqualityTestSide::Left => EccView { lhs_subs: seq![subs] + c.lhs_subs, ..c },
        EqualityTestSide::Right => EccView { rhs_subs: seq![subs] + c.rhs_subs, ..c },
    }
}

/// The context comparing `p` (on the primary side) with `o`, both
/// dereferenced, keeping the substitutions met so far.
pub open spec fn with_primary_and_other(env: &Environment, c: EccView, p: ItemPtr, o: ItemPtr) -> EccView {
    let (l, r) = match c.side {
        EqualityTestSide::Left => (p, o),
        EqualityTestSide::Right => (o, p),
    };
    EccView { lhs: spec_dereference(env, l), rhs: spec_dereference(env, r), ..c }
}

pub open spec fn with_primary(env: &Environment, c: EccView, p: ItemPtr) -> EccView {
    with_primary_and_other(env, c, p, other_of(c))
}

/// The context with `value` in place of the primary item and `subs` as the
/// primary side's substitutions.
pub open spec fn replace_primary(c: EccView, value: ItemPtr, subs: Seq<SubEntries>) -> EccView {
    match c.side {
        EqualityTestSide::Left => EccView { lhs: value, lhs_subs: subs, ..c },
        EqualityTestSide::Right => EccView { rhs: value, rhs_subs: subs, ..c },
    }
}

/// Equal under `subs` on the side being asked.
pub open spec fn sided_yes(side: EqualityTestSide, subs: SubEntries) -> EqualView {
    match side {
        EqualityTestSide::Left => EqualView::Yes(subs, Seq::empty()),
        EqualityTestSide::Right => EqualView::Yes(Seq::empty(), subs),
    }
}

/// The dependencies of an item, computed afresh.
pub open spec fn fresh_deps(env: &Environment, p: ItemPtr) -> DepsView {
    spec_deps_of(env, n_items(env) as nat, Seq::empty(), p)
}

/// The dependencies of each item in turn, one after another.
pub open spec fn flat_deps(env: &Environment, items: Seq<ItemPtr>) -> Seq<DependencyView>
    decreases items.len(),
{
    if items.len() == 0 {
        Seq::empty()
    } else {
        fresh_deps(env, items[0]).vars + flat_deps(env, items.drop_first())
    }
}

/// What looking for a variable among the entries of one map of
/// substitutions gives: its value, or what is left of the map and of the
/// dependencies still to be matched.
pub enum SelectStep {
    Found(DepsView, ItemPtr),
    NotFound(DepsView, SubEntries, DepsView),
}

/// Looks for `target` among the entries of `sub` from position `j`; an
/// entry for a variable among `deps` is kept and replaces that dependency by
/// the dependencies of its value.
pub open spec fn select_in_sub(
    env: &Environment,
    sub: SubEntries,
    j: int,
    target: VariablePtr,
    deps: DepsView,
    new_sub: SubEntries,
    new_deps: DepsView,
) -> SelectStep
    decreases sub.len() - j,
{
    if j < 0 || j >= sub.len() {
        SelectStep::NotFound(deps, new_sub, new_deps)
    } else {
        let (t, v) = sub[j];
        if t == target {
            SelectStep::Found(deps, v)
        } else if exists|i: int| 0 <= i < deps.vars.len() && (#[trigger] deps.vars[i]).var == t {
            select_in_sub(
                env,
                sub,
                j + 1,
                target,
                DepsView { vars: deps.vars.filter(|d: DependencyView| d.var != t), ..deps },
                new_sub.push((t, v)),
                spec_append(new_deps, fresh_deps(env, v)),
            )
        } else {
            select_in_sub(env, sub, j + 1, target, deps, new_sub, new_deps)
        }
    }
}

/// Looks for `target` in the maps of substitutions from position `i`;
/// gives the dependencies left, the maps to keep and the value found.
pub open spec fn select_in_list(
    env: &Environment,
    list: Seq<SubEntries>,
    i: int,
    target: VariablePtr,
    deps: DepsView,
    kept: Seq<SubEntries>,
) -> (DepsView, Seq<SubEntries>, Option<ItemPtr>)
    decreases list.len() - i,
{
    if i < 0 || i >= list.len() {
        (deps, kept, None)
    } else {
        match select_in_sub(env, list[i], 0, target, deps, Seq::empty(), deps_empty()) {
            SelectStep::Found(d, v) => (
                d,
                kept.push(entries_remove(list[i], target)) + list.skip(i + 1),
                Some(v),
            ),
            SelectStep::NotFound(d, new_sub, new_deps) => select_in_list(
                env,
                list,
                i + 1,
                target,
                spec_append(d, new_deps),
                if new_sub.len() > 0 {
                    kept.push(new_sub)
                } else {
                    kept
                },
            ),
        }
    }
}

/// The context in which the primary item is the value that the
/// substitutions met on the primary side give `target`, if they give it one.
pub open spec fn spec_try_select(env: &Environment, c: EccView, target: VariablePtr) -> Result<
    Option<EccView>,
    UnresolvedItemError,
> {
    let deps0 = spec_deps_list(
        env,
        n_items(env) as nat,
        Seq::empty(),
        deps_empty(),
        env.var(target).spec_dependencies(),
    );
    let (deps, kept, found) = select_in_list(env, primary_subs_of(c), 0, target, deps0, Seq::empty());
    match deps.error {
        Some(e) => Err(e),
        None => match found {
            Some(v) => Ok(Some(replace_primary(c, v, kept))),
            None => Ok(None),
        },
    }
}

/// The value that the first of the maps, from position `i`, that gives
/// `target` a value gives it.
pub open spec fn first_given(list: Seq<SubEntries>, i: int, target: VariablePtr) -> Option<ItemPtr>
    decreases list.len() - i,
{
    if i < 0 || i >= list.len() {
        None
    } else {
        match crate::substitutions::entries_get(list[i], target) {
            Some(v) => Some(v),
            None => first_given(list, i + 1, target),
        }
    }
}

proof fn lemma_select_in_sub_finds(
    env: &Environment,
    sub: SubEntries,
    j: int,
    target: VariablePtr,
    deps: DepsView,
    new_sub: SubEntries,
    new_deps: DepsView,
)
    requires
        crate::substitutions::keys_distinct(sub),
        0 <= j,
    ensures
        select_in_sub(env, sub, j, target, deps, new_sub, new_deps) matches SelectStep::Found(_, v) ==> (exists|m: int|
            j <= m < sub.len() && (#[trigger] sub[m]).0 == target && sub[m].1 == v),
        !(select_in_sub(env, sub, j, target, deps, new_sub, new_deps) is Found) ==> forall|m: int|
            j <= m < sub.len() ==> (#[trigger] sub[m]).0 != target,
    decreases sub.len() - j,
{
    if j < sub.len() {
        let (t, v) = sub[j];
        if t != target {
            if exists|i: int| 0 <= i < deps.vars.len() && (#[trigger] deps.vars[i]).var == t {
                lemma_select_in_sub_finds(
                    env,
                    sub,
                    j + 1,
                    target,
                    DepsView { vars: deps.vars.filter(|d: DependencyView| d.var != t), ..deps },
                    new_sub.push((t, v)),
                    spec_append(new_deps, fresh_deps(env, v)),
                );
            } else {
                lemma_select_in_sub_finds(env, sub, j + 1, target, deps, new_sub, new_deps);
            }
        }
    }
}

proof fn lemma_select_in_list_finds(
    env: &Environment,
    list: Seq<SubEntries>,
    i: int,
    target: VariablePtr,
    deps: DepsView,
    kept: Seq<SubEntries>,
)
    requires
        forall|k: int| 0 <= k < list.len() ==> crate::substitutions::keys_distinct(#[trigger] list[k]),
        0 <= i,
    ensures
        select_in_list(env, list, i, target, deps, kept).2 == first_given(list, i, target),
    decreases list.len() - i,
{
    if i < list.len() {
        let step = select_in_sub(env, list[i], 0, target, deps, Seq::empty(), deps_empty());
        lemma_select_in_sub_finds(env, list[i], 0, target, deps, Seq::empty(), deps_empty());
        crate::substitutions::lemma_entries_get(list[i], target);
        match step {
            SelectStep::Found(d, v) => {
                let m = choose|m: int| 0 <= m < list[i].len() && (#[trigger] list[i][m]).0 == target && list[i][m].1 == v;
                assert(crate::substitutions::entries_get(list[i], target) == Some(v));
            },
            SelectStep::NotFound(d, new_sub, new_deps) => {
                assert(crate::substitutions::entries_get(list[i], target).is_none());
                lemma_select_in_list_finds(
                    env,
                    list,
                    i + 1,
                    target,
                    spec_append(d, new_deps),
                    if new_sub.len() > 0 {
                        kept.push(new_sub)
                    } else {
                        kept
                    },
                );
            },
        }
    }
}

/// Selecting the value substituted for `target` on the primary side finds,
/// where its dependencies are all known, the value that the first of the
/// primary side's maps that gives `target` one gives it, and finds nothing
/// where none does.
pub proof fn lemma_try_select_finds_first_given(env: &Environment, c: EccView, target: VariablePtr)
    requires
        forall|k: int| 0 <= k < primary_subs_of(c).len() ==> crate::substitutions::keys_distinct(
            #[trigger] primary_subs_of(c)[k],
        ),
    ensures
        spec_try_select(env, c, target) matches Ok(Some(c2)) ==> Some(primary_of(c2)) == first_given(
            primary_subs_of(c),
            0,
            target,
        ),
        spec_try_select(env, c, target) matches Ok(None) ==> first_given(primary_subs_of(c), 0, target) is None,
{
    let deps0 = spec_deps_list(
        env,
        n_items(env) as nat,
        Seq::empty(),
        deps_empty(),
        env.var(target).spec_dependencies(),
    );
    lemma_select_in_list_finds(env, primary_subs_of(c), 0, target, deps0, Seq::empty());
}

/// `base` under `subs`: `base` itself when there is nothing to substitute,
/// the value when the one substitution replaces what `base` stands for, else
/// a new substituted item (left as `base` when no position is left for it).
pub open spec fn unchecked_sub_value(
    env: &Environment,
    pending: PendingView,
    base: ItemPtr,
    subs: SubEntries,
) -> (ItemPtr, PendingView) {
    if subs.len() == 0 {
        (base, pending)
    } else if subs.len() == 1 && var_item(env, subs[0].0) == Some(value_deref(env, base)) {
        (subs[0].1, pending)
    } else if n_items(env) + pending.len() < usize::MAX {
        (ItemPtr((n_items(env) + pending.len()) as usize), pending.push((base, subs)))
    } else {
        (base, pending)
    }
}

/// The substitutions pairing the dependencies of a variable with those of
/// the item it is compared with, from position `k`: each variable of one
/// side gets the item of the matching variable of the other.
pub open spec fn pair_subs(
    env: &Environment,
    self_deps: Seq<DependencyView>,
    other_deps: Seq<DependencyView>,
    k: int,
    left: SubEntries,
    right: SubEntries,
) -> (SubEntries, SubEntries)
    decreases self_deps.len() - k,
{
    if k < 0 || k >= self_deps.len() || k >= other_deps.len() {
        (left, right)
    } else {
        let sd = self_deps[k].var;
        let od = other_deps[k].var;
        match (var_item(env, sd), var_item(env, od)) {
            (Some(si), Some(oi)) => pair_subs(
                env,
                self_deps,
                other_deps,
                k + 1,
                insert_if_absent(left, sd, oi),
                insert_if_absent(right, od, si),
            ),
            _ => pair_subs(env, self_deps, other_deps, k + 1, left, right),
        }
    }
}

/// Asks the left side whether it equals the right one, then the right side
/// when the left one does not know.
pub open spec fn spec_left(env: &Environment, c: EccView, pending: PendingView, fuel: nat) -> EqOut
    decreases fuel, 0nat, 0nat,
{
    if fuel == 0 {
        EqOut { res: Ok(EqualView::Unknown), ctx: c, pending }
    } else {
        let o = spec_def(env, EccView { side: EqualityTestSide::Left, ..c }, pending, (fuel - 1) as nat);
        if o.res == Ok::<EqualView, UnresolvedItemError>(EqualView::Unknown) {
            spec_right(env, o.ctx, o.pending, (fuel - 1) as nat)
        } else {
            o
        }
    }
}

/// Asks the right side whether it equals the left one.
pub open spec fn spec_right(env: &Environment, c: EccView, pending: PendingView, fuel: nat) -> EqOut
    decreases fuel, 0nat, 0nat,
{
    if fuel == 0 {
        EqOut { res: Ok(EqualView::Unknown), ctx: c, pending }
    } else {
        spec_def(env, EccView { side: EqualityTestSide::Right, ..c }, pending, (fuel - 1) as nat)
    }
}

/// A sub-test on a new context: its result, with the context unchanged.
pub open spec fn sub_test(env: &Environment, c: EccView, sub: EccView, pending: PendingView, fuel: nat) -> EqOut
    decreases fuel, 1nat, 0nat,
{
    let o = spec_left(env, sub, pending, fuel);
    EqOut { res: o.res, ctx: c, pending: o.pending }
}

/// The sub-tests of the pairs from position `k`, stopping at the first
/// failure; their results follow `acc`.
pub open spec fn spec_pairs(
    env: &Environment,
    c: EccView,
    pairs: Seq<(ItemPtr, ItemPtr)>,
    k: int,
    pending: PendingView,
    fuel: nat,
    acc: Seq<EqualView>,
) -> (Result<Seq<EqualView>, UnresolvedItemError>, PendingView)
    decreases fuel, 1nat, pairs.len() - k,
{
    if k < 0 || k >= pairs.len() {
        (Ok(acc), pending)
    } else {
        let o = spec_left(env, with_primary_and_other(env, c, pairs[k].0, pairs[k].1), pending, fuel);
        match o.res {
            Err(e) => (Err(e), o.pending),
            Ok(r) => spec_pairs(env, c, pairs, k + 1, o.pending, fuel, acc.push(r)),
        }
    }
}

/// `and` of the sub-tests of the pairs.
pub open spec fn spec_and_pairs(
    env: &Environment,
    c: EccView,
    pairs: Seq<(ItemPtr, ItemPtr)>,
    pending: PendingView,
    fuel: nat,
) -> EqOut
    decreases fuel, 1nat, pairs.len() + 1,
{
    let (r, p) = spec_pairs(env, c, pairs, 0, pending, fuel, Seq::empty());
    EqOut {
        res: match r {
            Ok(results) => Ok(spec_and(env, results)),
            Err(e) => Err(e),
        },
        ctx: c,
        pending: p,
    }
}

/// Pairs each item of `a` with the item of `b` at the same position.
pub open spec fn zip_items(a: Seq<ItemPtr>, b: Seq<ItemPtr>) -> Seq<(ItemPtr, ItemPtr)> {
    Seq::new(if a.len() < b.len() { a.len() } else { b.len() }, |i: int| (a[i], b[i]))
}

/// The primary item of `c` asked, by its definition, whether it equals the
/// other item.
pub open spec fn spec_def(env: &Environment, c: EccView, pending: PendingView, fuel: nat) -> EqOut
    decreases fuel, 3nat, 0nat,
{
    let p = primary_of(c);
    let o = other_of(c);
    let unknown = EqOut { res: Ok(EqualView::Unknown), ctx: c, pending };
    if !env.valid_item(p) || !env.valid_item(o) {
        unknown
    } else {
        match env.def(p) {
            Definition::Unique(u) => match env.def(o) {
                Definition::Unique(u2) => EqOut {
                    res: Ok(if u.0 == u2.0 { yes_view() } else { EqualView::No }),
                    ctx: c,
                    pending,
                },
                _ => unknown,
            },
            Definition::Other(d) => sub_test(env, c, with_primary(env, c, d.other), pending, fuel),
            Definition::Substitution(d) => {
                let c2 = prepend_primary(c, d.subs@);
                sub_test(env, c2, with_primary(env, c2, d.base), pending, fuel)
            },
            Definition::Variable(d) => spec_var(env, c, d.0, pending, fuel),
            Definition::Decision(d) => match env.def(o) {
                Definition::Decision(od) => spec_and_pairs(
                    env,
                    c,
                    seq![
                        (d.left, od.left),
                        (d.right, od.right),
                        (d.when_equal, od.when_equal),
                        (d.when_not_equal, od.when_not_equal),
                    ],
                    pending,
                    fuel,
                ),
                _ => unknown,
            },
            Definition::PopulatedStruct(d) => match env.def(o) {
                Definition::PopulatedStruct(od) => if d.label@ != od.label@ {
                    EqOut { res: Ok(EqualView::No), ctx: c, pending }
                } else {
                    spec_and_pairs(env, c, seq![(d.body, od.body), (d.value, od.value)], pending, fuel)
                },
                _ => unknown,
            },
            Definition::BuiltinFunction(d) => match env.def(o) {
                Definition::BuiltinFunction(od) => if d.func == od.func {
                    spec_and_pairs(env, c, zip_items(d.args@, od.args@), pending, fuel)
                } else {
                    unknown
                },
                _ => unknown,
            },
            Definition::Axiom(d) => match env.def(o) {
                Definition::Axiom(od) => sub_test(
                    env,
                    c,
                    with_primary_and_other(env, c, d.statement, od.statement),
                    pending,
                    fuel,
                ),
                _ => unknown,
            },
            _ => unknown,
        }
    }
}

/// A variable on the primary side asked whether it equals the other item.
pub open spec fn spec_var(env: &Environment, c: EccView, var: VariablePtr, pending: PendingView, fuel: nat) -> EqOut
    decreases fuel, 2nat, 0nat,
{
    let o = other_of(c);
    match spec_try_select(env, c, var) {
        Err(e) => EqOut { res: Err(e), ctx: c, pending },
        Ok(Some(c2)) => sub_test(env, c, c2, pending, fuel),
        Ok(None) => if env.def(o) is Resolvable {
            EqOut { res: Err(UnresolvedItemError(o)), ctx: c, pending }
        } else if env.def(o) matches Definition::Variable(od) && od.0 == var {
            EqOut { res: Ok(yes_view()), ctx: c, pending }
        } else {
            let deps = env.var(var).spec_dependencies();
            if deps.len() == 0 {
                EqOut { res: Ok(sided_yes(c.side, seq![(var, o)])), ctx: c, pending }
            } else {
                let other_deps = fresh_deps(env, o).vars;
                if other_deps.len() >= deps.len() {
                    let (left, right) = pair_subs(
                        env,
                        flat_deps(env, deps),
                        other_deps,
                        0,
                        Seq::empty(),
                        Seq::empty(),
                    );
                    let (subbed, pending2) = unchecked_sub_value(env, pending, o, right);
                    EqOut {
                        res: Ok(sided_yes(c.side, insert_if_absent(left, var, subbed))),
                        ctx: c,
                        pending: pending2,
                    }
                } else if c.side == EqualityTestSide::Right {
                    EqOut { res: Ok(EqualView::Unknown), ctx: c, pending }
                } else {
                    spec_right(env, c, pending, fuel)
                }
            }
        },
    }
}

/// The entries of a map of substitutions give distinct variables that
/// exist, and items of the environment.
pub open spec fn entries_ok(env: &Environment, e: SubEntries) -> bool {
    &&& crate::substitutions::keys_distinct(e)
    &&& forall|i: int| 0 <= i < e.len() ==> env.valid_item((#[trigger] e[i]).1) && env.valid_var(e[i].0)
}

/// The substituted items still to be created have bases and substitutions
/// in the environment.
pub open spec fn pending_ok(env: &Environment, p: PendingView) -> bool {
    forall|k: int| 0 <= k < p.len() ==> env.valid_item((#[trigger] p[k]).0) && entries_ok(env, p[k].1)
}

/// Both sides of the context and all substitutions met are in the
/// environment.
pub open spec fn ctx_ok(env: &Environment, c: EccView) -> bool {
    &&& env.valid_item(c.lhs)
    &&& env.valid_item(c.rhs)
    &&& forall|i: int| 0 <= i < c.lhs_subs.len() ==> entries_ok(env, #[trigger] c.lhs_subs[i])
    &&& forall|i: int| 0 <= i < c.rhs_subs.len() ==> entries_ok(env, #[trigger] c.rhs_subs[i])
}

pub open spec fn subs_views(v: Seq<Substitutions>) -> Seq<SubEntries> {
    v.map_values(|s: Substitutions| s@)
}

pub open spec fn res_view(r: Result<crate::equal::Equal, UnresolvedItemError>) -> Result<
    EqualView,
    UnresolvedItemError,
> {
    match r {
        Ok(e) => Ok(e@),
        Err(x) => Err(x),
    }
}

/// Substituted items whose creation is left for later.
pub struct PendingItems {
    entries: Vec<(ItemPtr, Substitutions)>,
}

impl View for PendingItems {
    type V = PendingView;

    closed spec fn view(&self) -> PendingView {
        self.entries@.map_values(|e: (ItemPtr, Substitutions)| (e.0, e.1@))
    }
}

impl PendingItems {
    pub fn new() -> (r: Self)
        ensures
            r@ == Seq::<(ItemPtr, SubEntries)>::empty(),
    {
        let r = PendingItems { entries: Vec::new() };
        assert(r@ =~= Seq::<(ItemPtr, SubEntries)>::empty());
        r
    }

    pub fn len(&self) -> (r: usize)
        ensures
            r == self@.len(),
    {
        self.entries.len()
    }

    fn push(&mut self, base: ItemPtr, subs: Substitutions)
        ensures
            final(self)@ == old(self)@.push((base, subs@)),
    {
        self.entries.push((base, subs));
        assert(self@ =~= old(self)@.push((base, subs@)));
    }

    /// The base and a copy of the substitutions of the `k`th item.
    pub fn get(&self, k: usize) -> (r: (ItemPtr, Substitutions))
        requires
            k < self@.len(),
        ensures
            r.0 == self@[k as int].0,
            r.1@ == self@[k as int].1,
    {
        let e = &self.entries[k];
        (e.0, e.1.clone_subs())
    }

    /// Takes the items out, in order.
    pub fn into_entries(self) -> (r: Vec<(ItemPtr, Substitutions)>)
        ensures
            r@.map_values(|e: (ItemPtr, Substitutions)| (e.0, e.1@)) == self@,
    {
        self.entries
    }
}

/// A copy of a list of maps of substitutions.
fn clone_subs_list(v: &Vec<Substitutions>) -> (r: Vec<Substitutions>)
    ensures
        subs_views(r@) == subs_views(v@),
{
    let mut r: Vec<Substitutions> = Vec::new();
    let mut i: usize = 0;
    while i < v.len()
        invariant
            i <= v@.len(),
            r@.len() == i,
            subs_views(r@) == subs_views(v@.take(i as int)),
        decreases v@.len() - i,
    {
        let ghost before = r@;
        let c = v[i].clone_subs();
        assert(c@ == v@[i as int]@);
        r.push(c);
        i += 1;
        assert forall|k: int| 0 <= k < i implies #[trigger] subs_views(r@)[k] == subs_views(v@.take(i as int))[k] by {
            assert(subs_views(v@.take(i as int))[k] == v@[k]@);
            assert(subs_views(r@)[k] == r@[k]@);
            if k < i - 1 {
                assert(subs_views(before)[k] == subs_views(v@.take(i - 1))[k]);
                assert(subs_views(before)[k] == before[k]@);
                assert(subs_views(v@.take(i - 1))[k] == v@[k]@);
                assert(r@[k] == before[k]);
            }
        }
        assert(subs_views(r@) =~= subs_views(v@.take(i as int)));
    }
    assert(v@.take(i as int) =~= v@);
    r
}

/// Only the equality test itself can make one of these.
pub struct OnlyCalledByEcc(());

/// An equality test in progress.
pub struct EqualityCalculationContext {
    lhs: ItemPtr,
    lhs_subs: Vec<Substitutions>,
    rhs: ItemPtr,
    rhs_subs: Vec<Substitutions>,
    self_side: EqualityTestSide,
}

pub type Ecc = EqualityCalculationContext;

impl View for EqualityCalculationContext {
    type V = EccView;

    closed spec fn view(&self) -> EccView {
        EccView {
            lhs: self.lhs,
            lhs_subs: subs_views(self.lhs_subs@),
            rhs: self.rhs,
            rhs_subs: subs_views(self.rhs_subs@),
            side: self.self_side,
        }
    }
}

impl EqualityCalculationContext {
    /// A test of whether `lhs` equals `rhs`, both dereferenced, asking the
    /// left side first.
    pub fn new(env: &Environment, lhs: ItemPtr, rhs: ItemPtr) -> (r: Self)
        requires
            env.wf(),
            env.valid_item(lhs),
            env.valid_item(rhs),
        ensures
            r@ == (EccView {
                lhs: spec_dereference(env, lhs),
                lhs_subs: Seq::empty(),
                rhs: spec_dereference(env, rhs),
                rhs_subs: Seq::empty(),
                side: EqualityTestSide::Left,
            }),
            ctx_ok(env, r@),
    {
        let r = Self {
            lhs: lhs.dereference(env),
            lhs_subs: Vec::new(),
            rhs: rhs.dereference(env),
            rhs_subs: Vec::new(),
            self_side: EqualityTestSide::Left,
        };
        assert(r@.lhs_subs =~= Seq::<SubEntries>::empty());
        assert(r@.rhs_subs =~= Seq::<SubEntries>::empty());
        r
    }

    /// The item being asked.
    pub fn primary(&self) -> (r: ItemPtr)
        ensures
            r == primary_of(self@),
    {
        match self.self_side {
            EqualityTestSide::Left => self.lhs,
            EqualityTestSide::Right => self.rhs,
        }
    }

    /// The item it is compared with.
    pub fn other(&self) -> (r: ItemPtr)
        ensures
            r == other_of(self@),
    {
        match self.self_side {
            EqualityTestSide::Left => self.rhs,
            EqualityTestSide::Right => self.lhs,
        }
    }

    pub fn currently_computing_equality_for_lhs(&self) -> (r: bool)
        ensures
            r == (self@.side == EqualityTestSide::Left),
    {
        self.self_side == EqualityTestSide::Left
    }

    pub fn currently_computing_equality_for_rhs(&self) -> (r: bool)
        ensures
            r == (self@.side == EqualityTestSide::Right),
    {
        self.self_side == EqualityTestSide::Right
    }

    pub fn lhs(&self) -> (r: ItemPtr)
        ensures
            r == self@.lhs,
    {
        self.lhs
    }

    pub fn rhs(&self) -> (r: ItemPtr)
        ensures
            r == self@.rhs,
    {
        self.rhs
    }

    /// Puts `subs` first among the substitutions of the side being asked.
    pub fn prepend_substitutions_for_primary(&mut self, subs: Substitutions)
        ensures
            final(self)@ == prepend_primary(old(self)@, subs@),
    {
        match self.self_side {
            EqualityTestSide::Left => {
                self.lhs_subs.insert(0, subs);
                assert(subs_views(self.lhs_subs@) =~= seq![subs@] + subs_views(old(self).lhs_subs@));
            },
            EqualityTestSide::Right => {
                self.rhs_subs.insert(0, subs);
                assert(subs_views(self.rhs_subs@) =~= seq![subs@] + subs_views(old(self).rhs_subs@));
            },
        }
    }

    /// The test of `new_primary`, on the side being asked, against
    /// `new_other`, both dereferenced, with the substitutions met so far.
    pub fn with_primary_and_other(&self, env: &Environment, new_primary: ItemPtr, new_other: ItemPtr) -> (r: Self)
        requires
            env.wf(),
            env.valid_item(new_primary),
            env.valid_item(new_other),
        ensures
            r@ == with_primary_and_other(env, self@, new_primary, new_other),
            ctx_ok(env, self@) ==> ctx_ok(env, r@),
    {
        let (lhs, rhs) = match self.self_side {
            EqualityTestSide::Left => (new_primary, new_other),
            EqualityTestSide::Right => (new_other, new_primary),
        };
        Self {
            lhs: lhs.dereference(env),
            lhs_subs: clone_subs_list(&self.lhs_subs),
            rhs: rhs.dereference(env),
            rhs_subs: clone_subs_list(&self.rhs_subs),
            self_side: self.self_side,
        }
    }

    pub fn with_primary(&self, env: &Environment, new_primary: ItemPtr) -> (r: Self)
        requires
            env.wf(),
            env.valid_item(new_primary),
            ctx_ok(env, self@),
        ensures
            r@ == with_primary(env, self@, new_primary),
            ctx_ok(env, r@),
    {
        let other = self.other();
        self.with_primary_and_other(env, new_primary, other)
    }
}

/// Every entry left after removing a key was an entry before.
pub proof fn lemma_entries_remove_subset(e: SubEntries, key: VariablePtr)
    ensures
        forall|x: (VariablePtr, ItemPtr)| entries_remove(e, key).contains(x) ==> e.contains(x),
    decreases e.len(),
{
    if e.len() > 0 {
        let init = e.drop_last();
        lemma_entries_remove_subset(init, key);
        assert forall|x: (VariablePtr, ItemPtr)| entries_remove(e, key).contains(x) implies e.contains(x) by {
            if init.contains(x) {
                let k = choose|k: int| 0 <= k < init.len() && init[k] == x;
                assert(e[k] == x);
            }
            if x == e.last() {
                assert(e[e.len() - 1] == x);
            }
            if e.last().0 != key {
                let r = entries_remove(init, key).push(e.last());
                if r.contains(x) {
                    let k = choose|k: int| 0 <= k < r.len() && r[k] == x;
                    if k < r.len() - 1 {
                        assert(entries_remove(init, key)[k] == x);
                    }
                }
            }
        }
    }
}

/// Entries that all occur among valid entries are valid.
pub proof fn lemma_entries_ok_subset(env: &Environment, e: SubEntries, big: SubEntries)
    requires
        entries_ok(env, big),
        crate::substitutions::keys_distinct(e),
        forall|x: (VariablePtr, ItemPtr)| e.contains(x) ==> big.contains(x),
    ensures
        entries_ok(env, e),
{
    assert forall|i: int| 0 <= i < e.len() implies env.valid_item((#[trigger] e[i]).1) && env.valid_var(e[i].0) by {
        assert(e.contains(e[i]));
        let k = choose|k: int| 0 <= k < big.len() && big[k] == e[i];
        assert(env.valid_item(big[k].1));
    }
}

impl EqualityCalculationContext {
    /// Looks among the substitutions met on the side being asked for a value
    /// of `target_to_look_for`. When one is found, gives the test with that
    /// value in place of the primary item, keeping the substitutions that
    /// come after it and, of those before, the ones for variables the value
    /// may depend on. Fails when those dependencies cannot be computed.
    pub fn try_select_value_substituted_for_var_in_primary(
        &self,
        env: &Environment,
        target_to_look_for: VariablePtr,
    ) -> (r: Result<Option<Self>, UnresolvedItemError>)
        requires
            env.wf(),
            env.valid_var(target_to_look_for),
            ctx_ok(env, self@),
        ensures
            match (r, spec_try_select(env, self@, target_to_look_for)) {
                (Ok(Some(a)), Ok(Some(b))) => a@ == b && ctx_ok(env, a@),
                (Ok(None), Ok(None)) => true,
                (Err(a), Err(b)) => a == b,
                _ => false,
            },
    {
        let sub_list = match self.self_side {
            EqualityTestSide::Left => &self.lhs_subs,
            EqualityTestSide::Right => &self.rhs_subs,
        };
        let ghost list = primary_subs_of(self@);
        assert(subs_views(sub_list@) == list);
        let ghost n = n_items(env) as nat;
        let var = env.get_variable(target_to_look_for);
        proof {
            assert(env.variable_valid(env.spec_variables()[target_to_look_for.index() as int]));
        }
        let dep_items = var.dependencies();
        let mut dependencies = Dependencies::new();
        let mut d: usize = 0;
        assert(dep_items@.skip(0) =~= dep_items@);
        while d < dep_items.len()
            invariant
                env.wf(),
                n == n_items(env),
                dependencies.wf(),
                d <= dep_items@.len(),
                env.valid_items(dep_items@),
                spec_deps_list(env, n, Seq::empty(), deps_empty(), dep_items@) == spec_deps_list(
                    env,
                    n,
                    Seq::empty(),
                    dependencies@,
                    dep_items@.skip(d as int),
                ),
            decreases dep_items@.len() - d,
        {
            assert(env.valid_item(dep_items@[d as int]));
            let deps = dep_items[d].get_dependencies(env);
            dependencies.append(deps);
            proof {
                assert(dep_items@.skip(d as int)[0] == dep_items@[d as int]);
                assert(dep_items@.skip(d as int).drop_first() =~= dep_items@.skip(d + 1));
            }
            d += 1;
        }
        let ghost deps0 = dependencies@;
        assert(dep_items@.skip(d as int) =~= Seq::<ItemPtr>::empty());
        let mut new_sub_list: Vec<Substitutions> = Vec::new();
        let mut new_value: Option<ItemPtr> = None;
        let mut i: usize = 0;
        assert(subs_views(new_sub_list@) =~= Seq::<SubEntries>::empty());
        while i < sub_list.len() && new_value.is_none()
            invariant
                env.wf(),
                ctx_ok(env, self@),
                subs_views(sub_list@) == list,
                list == primary_subs_of(self@),
                dependencies.wf(),
                i <= sub_list@.len(),
                forall|k: int| 0 <= k < new_sub_list@.len() ==> entries_ok(env, #[trigger] new_sub_list@[k]@),
                new_value.is_none() ==> select_in_list(env, list, 0, target_to_look_for, deps0, Seq::empty())
                    == select_in_list(env, list, i as int, target_to_look_for, dependencies@, subs_views(new_sub_list@)),
                new_value.is_some() ==> select_in_list(env, list, 0, target_to_look_for, deps0, Seq::empty())
                    == (dependencies@, subs_views(new_sub_list@), new_value),
                new_value matches Some(v) ==> env.valid_item(v),
            decreases sub_list@.len() - i,
        {
            let sub = &sub_list[i];
            assert(sub@ == list[i as int]);
            assert(entries_ok(env, sub@));
            let entries = sub.iter_entries();
            let mut new_sub = Substitutions::new();
            let mut new_dependencies = Dependencies::new();
            let ghost deps_i = dependencies@;
            let mut found: Option<ItemPtr> = None;
            let mut j: usize = 0;
            while j < entries.len() && found.is_none()
                invariant
                    env.wf(),
                    entries@ == sub@,
                    entries_ok(env, sub@),
                    j <= entries@.len(),
                    new_sub.wf(),
                    dependencies.wf(),
                    new_dependencies.wf(),
                    forall|x: (VariablePtr, ItemPtr)| #[trigger] new_sub@.contains(x) ==> exists|m: int|
                        0 <= m < j && sub@[m] == x,
                    found.is_none() ==> select_in_sub(
                        env,
                        sub@,
                        0,
                        target_to_look_for,
                        deps_i,
                        Seq::empty(),
                        deps_empty(),
                    ) == select_in_sub(
                        env,
                        sub@,
                        j as int,
                        target_to_look_for,
                        dependencies@,
                        new_sub@,
                        new_dependencies@,
                    ),
                    found matches Some(v) ==> select_in_sub(
                        env,
                        sub@,
                        0,
                        target_to_look_for,
                        deps_i,
                        Seq::empty(),
                        deps_empty(),
                    ) == SelectStep::Found(dependencies@, v) && env.valid_item(v),
                decreases entries@.len() - j,
            {
                let (target, value) = entries[j];
                assert(env.valid_item(sub@[j as int].1));
                if target == target_to_look_for {
                    found = Some(value);
                } else if dependencies.contains_var(target) {
                    dependencies.remove(target);
                    let value_deps = value.get_dependencies(env);
                    new_dependencies.append(value_deps);
                    proof {
                        crate::substitutions::lemma_entries_get(new_sub@, target);
                        assert forall|k: int| 0 <= k < new_sub@.len() implies (#[trigger] new_sub@[k]).0 != target by {
                            assert(new_sub@.contains(new_sub@[k]));
                            let m = choose|m: int| 0 <= m < j && sub@[m] == new_sub@[k];
                            assert(sub@[m].0 != sub@[j as int].0);
                        }
                    }
                    let ghost before = new_sub@;
                    new_sub.insert_no_replace(target, value);
                    proof {
                        assert forall|x: (VariablePtr, ItemPtr)| #[trigger] new_sub@.contains(x) implies exists|m: int|
                            0 <= m < j + 1 && sub@[m] == x by {
                            let k = choose|k: int| 0 <= k < new_sub@.len() && new_sub@[k] == x;
                            if k < before.len() {
                                assert(before[k] == x);
                                assert(before.contains(x));
                            } else {
                                assert(sub@[j as int] == x);
                            }
                        }
                    }
                } else {
                    proof {
                        assert forall|x: (VariablePtr, ItemPtr)| #[trigger] new_sub@.contains(x) implies exists|m: int|
                            0 <= m < j + 1 && sub@[m] == x by {
                            let m = choose|m: int| 0 <= m < j && sub@[m] == x;
                        }
                    }
                }
                j += 1;
            }
            proof {
                if found.is_none() {
                    assert(select_in_sub(env, sub@, j as int, target_to_look_for, dependencies@, new_sub@, new_dependencies@)
                        == SelectStep::NotFound(dependencies@, new_sub@, new_dependencies@));
                }
            }
            match found {
                Some(value) => {
                    let mut sub_without_target = sub.clone_subs();
                    sub_without_target.remove(&target_to_look_for);
                    proof {
                        lemma_entries_remove_subset(sub@, target_to_look_for);
                        lemma_entries_ok_subset(env, sub_without_target@, sub@);
                    }
                    let ghost kept = subs_views(new_sub_list@);
                    new_sub_list.push(sub_without_target);
                    assert(subs_views(new_sub_list@) =~= kept.push(entries_remove(list[i as int], target_to_look_for)));
                    let mut k: usize = i + 1;
                    while k < sub_list.len()
                        invariant
                            env.wf(),
                            ctx_ok(env, self@),
                            list == primary_subs_of(self@),
                            subs_views(sub_list@) == list,
                            i < k <= sub_list@.len(),
                            subs_views(new_sub_list@) == kept.push(entries_remove(list[i as int], target_to_look_for)) + list.subrange(i + 1, k as int),
                            forall|m: int| 0 <= m < new_sub_list@.len() ==> entries_ok(env, #[trigger] new_sub_list@[m]@),
                        decreases sub_list@.len() - k,
                    {
                        let c = sub_list[k].clone_subs();
                        assert(c@ == list[k as int]);
                        assert(entries_ok(env, list[k as int]));
                        let ghost before = subs_views(new_sub_list@);
                        new_sub_list.push(c);
                        k += 1;
                        assert(subs_views(new_sub_list@) =~= before.push(c@));
                        assert(list.subrange(i + 1, k as int) =~= list.subrange(i + 1, k - 1).push(list[k - 1]));
                    }
                    assert(list.subrange(i + 1, k as int) =~= list.skip(i + 1));
                    new_value = Some(value);
                },
                None => {
                    dependencies.append(new_dependencies);
                    if new_sub.len() > 0 {
                        proof {
                            assert forall|x: (VariablePtr, ItemPtr)| new_sub@.contains(x) implies sub@.contains(x) by {
                                let m = choose|m: int| 0 <= m < j && sub@[m] == x;
                            }
                            lemma_entries_ok_subset(env, new_sub@, sub@);
                        }
                        let ghost before = subs_views(new_sub_list@);
                        new_sub_list.push(new_sub);
                        assert(subs_views(new_sub_list@) =~= before.push(new_sub@));
                    }
                },
            }
            i += 1;
        }
        proof {
            if new_value.is_none() {
                assert(select_in_list(env, list, i as int, target_to_look_for, dependencies@, subs_views(new_sub_list@))
                    == (dependencies@, subs_views(new_sub_list@), None::<ItemPtr>));
            }
        }
        if let Some(err) = dependencies.error() {
            return Err(err);
        }
        match new_value {
            Some(value) => {
                let r = match self.self_side {
                    EqualityTestSide::Left => Self {
                        lhs: value,
                        lhs_subs: new_sub_list,
                        rhs: self.rhs,
                        rhs_subs: clone_subs_list(&self.rhs_subs),
                        self_side: self.self_side,
                    },
                    EqualityTestSide::Right => Self {
                        lhs: self.lhs,
                        lhs_subs: clone_subs_list(&self.lhs_subs),
                        rhs: value,
                        rhs_subs: new_sub_list,
                        self_side: self.self_side,
                    },
                };
                Ok(Some(r))
            },
            None => Ok(None),
        }
    }
}

/// What a valid item's definition holds is in the environment.
pub proof fn lemma_def_parts_valid(env: &Environment, p: ItemPtr)
    requires
        env.wf(),
        env.valid_item(p),
    ensures
        env.valid_items(crate::item::content_items(env.def(p))),
        env.def(p) matches Definition::Other(d) ==> env.valid_item(d.other),
        env.def(p) matches Definition::Variable(d) ==> env.valid_var(d.0),
        env.def(p) matches Definition::Substitution(d) ==> env.valid_item(d.base) && entries_ok(env, d.subs@),
        env.def(p) matches Definition::Decision(d) ==> env.valid_item(d.left) && env.valid_item(d.right)
            && env.valid_item(d.when_equal) && env.valid_item(d.when_not_equal),
        env.def(p) matches Definition::PopulatedStruct(d) ==> env.valid_item(d.body) && env.valid_item(d.value),
        env.def(p) matches Definition::BuiltinFunction(d) ==> env.valid_items(d.args@),
        env.def(p) matches Definition::Axiom(d) ==> env.valid_item(d.statement),
{
    assert(env.item_valid(env.spec_items()[p.index() as int]));
    let def = env.def(p);
    let c = crate::item::content_items(def);
    match def {
        Definition::Other(d) => {
            assert(c[0] == d.other);
        },
        Definition::Substitution(d) => {
            assert(c[0] == d.base);
            assert forall|i: int| 0 <= i < d.subs@.len() implies env.valid_item((#[trigger] d.subs@[i]).1)
                && env.valid_var(d.subs@[i].0) by {
                assert(c[1 + i] == d.subs@[i].1);
                assert(env.valid_var(crate::substitutions::entry_keys(d.subs@)[i]));
            }
        },
        Definition::Decision(d) => {
            assert(c[0] == d.left && c[1] == d.right && c[2] == d.when_equal && c[3] == d.when_not_equal);
        },
        Definition::PopulatedStruct(d) => {
            assert(c[0] == d.body && c[1] == d.value);
        },
        Definition::BuiltinFunction(d) => {
            assert forall|i: int| 0 <= i < d.args@.len() implies env.valid_item(#[trigger] d.args@[i]) by {
                assert(c[i] == d.args@[i]);
            }
        },
        Definition::Axiom(d) => {
            assert(c[0] == d.statement);
        },
        _ => {},
    }
}

/// The item that stands for `v`, when `v` exists.
pub(crate) fn var_item_exec(env: &Environment, v: VariablePtr) -> (r: Option<ItemPtr>)
    requires
        env.wf(),
    ensures
        r == var_item(env, v),
        r matches Some(p) ==> env.valid_item(p),
{
    if v.0 < env.num_variables() {
        proof {
            assert(env.variable_valid(env.spec_variables()[v.index() as int]));
        }
        Some(*env.get_variable(v).item())
    } else {
        None
    }
}

/// Adds `(key, value)` unless `key` has an entry already.
fn insert_if_absent_exec(subs: &mut Substitutions, key: VariablePtr, value: ItemPtr)
    requires
        old(subs).wf(),
    ensures
        final(subs).wf(),
        final(subs)@ == insert_if_absent(old(subs)@, key, value),
{
    if subs.get(&key).is_none() {
        subs.insert_no_replace(key, value);
    }
}

pub proof fn lemma_insert_if_absent_ok(env: &Environment, e: SubEntries, key: VariablePtr, value: ItemPtr)
    requires
        entries_ok(env, e),
        env.valid_var(key),
        env.valid_item(value),
    ensures
        entries_ok(env, insert_if_absent(e, key, value)),
{
    crate::substitutions::lemma_entries_get(e, key);
    if entries_get(e, key) is None {
        let r = e.push((key, value));
        assert forall|i: int, j: int| 0 <= i < r.len() && 0 <= j < r.len() && i != j implies #[trigger] r[i].0
            != #[trigger] r[j].0 by {
            if i < e.len() && j < e.len() {
                assert(r[i] == e[i] && r[j] == e[j]);
            } else if i < e.len() {
                assert(r[i] == e[i]);
            } else if j < e.len() {
                assert(r[j] == e[j]);
            }
        }
        assert forall|i: int| 0 <= i < r.len() implies env.valid_item((#[trigger] r[i]).1) && env.valid_var(r[i].0) by {
            if i < e.len() {
                assert(r[i] == e[i]);
            }
        }
    }
}

/// `base` under `subs`, with a new substituted item left for later when
/// neither shortcut applies.
fn unchecked_sub_value_exec(
    env: &Environment,
    pending: &mut PendingItems,
    base: ItemPtr,
    subs: Substitutions,
) -> (r: ItemPtr)
    requires
        env.wf(),
        env.valid_item(base),
        entries_ok(env, subs@),
        pending_ok(env, old(pending)@),
    ensures
        (r, final(pending)@) == unchecked_sub_value(env, old(pending)@, base, subs@),
        pending_ok(env, final(pending)@),
{
    if subs.len() == 0 {
        return base;
    }
    if subs.len() == 1 {
        let entries = subs.iter_entries();
        let (target, value) = entries[0];
        let target_item = var_item_exec(env, target);
        let base_d = crate::equal::deref_value(env, base);
        if target_item == Some(base_d) {
            return value;
        }
    }
    let n = env.num_items();
    let len = pending.len();
    if n < usize::MAX && len < usize::MAX - n {
        let p = ItemPtr(n + len);
        pending.push(base, subs);
        proof {
            let pv = pending@;
            assert forall|k: int| 0 <= k < pv.len() implies env.valid_item((#[trigger] pv[k]).0) && entries_ok(env, pv[k].1) by {
                if k < old(pending)@.len() {
                    assert(pv[k] == old(pending)@[k]);
                }
            }
        }
        p
    } else {
        base
    }
}

/// The dependencies of each item in turn, one after another.
fn flat_deps_exec(env: &Environment, items: &[ItemPtr]) -> (r: Vec<crate::dependencies::Dependency>)
    requires
        env.wf(),
        env.valid_items(items@),
    ensures
        crate::dependencies::dep_views(r@) == flat_deps(env, items@),
{
    let mut r: Vec<crate::dependencies::Dependency> = Vec::new();
    let mut k: usize = 0;
    assert(items@.skip(0) =~= items@);
    assert(crate::dependencies::dep_views(r@) =~= Seq::<DependencyView>::empty());
    while k < items.len()
        invariant
            env.wf(),
            env.valid_items(items@),
            k <= items@.len(),
            flat_deps(env, items@) == crate::dependencies::dep_views(r@) + flat_deps(env, items@.skip(k as int)),
        decreases items@.len() - k,
    {
        assert(env.valid_item(items@[k as int]));
        let deps = items[k].get_dependencies(env);
        let mut vars = deps.into_variables();
        let ghost before = r@;
        let ghost added = vars@;
        r.append(&mut vars);
        proof {
            assert(items@.skip(k as int)[0] == items@[k as int]);
            assert(items@.skip(k as int).drop_first() =~= items@.skip(k + 1));
            assert(r@ == before + added);
            assert(crate::dependencies::dep_views(r@) =~= crate::dependencies::dep_views(before)
                + crate::dependencies::dep_views(added));
            assert(flat_deps(env, items@.skip(k as int)) == fresh_deps(env, items@[k as int]).vars + flat_deps(
                env,
                items@.skip(k + 1),
            ));
            assert(crate::dependencies::dep_views(before) + flat_deps(env, items@.skip(k as int)) =~= crate::dependencies::dep_views(r@) + flat_deps(env, items@.skip(k + 1)));
        }
        k += 1;
    }
    assert(items@.skip(k as int) =~= Seq::<ItemPtr>::empty());
    assert(crate::dependencies::dep_views(r@) + Seq::<DependencyView>::empty() =~= crate::dependencies::dep_views(r@));
    r
}

/// Pairs the dependencies of a variable with those of the item it is
/// compared with.
fn pair_subs_exec(
    env: &Environment,
    self_deps: &Vec<crate::dependencies::Dependency>,
    other_deps: &Vec<crate::dependencies::Dependency>,
) -> (r: (Substitutions, Substitutions))
    requires
        env.wf(),
    ensures
        (r.0@, r.1@) == pair_subs(
            env,
            crate::dependencies::dep_views(self_deps@),
            crate::dependencies::dep_views(other_deps@),
            0,
            Seq::empty(),
            Seq::empty(),
        ),
        r.0.wf(),
        r.1.wf(),
        entries_ok(env, r.0@),
        entries_ok(env, r.1@),
{
    let ghost sd = crate::dependencies::dep_views(self_deps@);
    let ghost od = crate::dependencies::dep_views(other_deps@);
    let mut left = Substitutions::new();
    let mut right = Substitutions::new();
    let mut k: usize = 0;
    while k < self_deps.len() && k < other_deps.len()
        invariant
            env.wf(),
            sd == crate::dependencies::dep_views(self_deps@),
            od == crate::dependencies::dep_views(other_deps@),
            k <= self_deps@.len(),
            left.wf(),
            right.wf(),
            entries_ok(env, left@),
            entries_ok(env, right@),
            pair_subs(env, sd, od, 0, Seq::empty(), Seq::empty()) == pair_subs(env, sd, od, k as int, left@, right@),
        decreases self_deps@.len() - k,
    {
        let s_var = self_deps[k].var;
        let o_var = other_deps[k].var;
        assert(sd[k as int].var == s_var && od[k as int].var == o_var);
        match (var_item_exec(env, s_var), var_item_exec(env, o_var)) {
            (Some(si), Some(oi)) => {
                proof {
                    lemma_insert_if_absent_ok(env, left@, s_var, oi);
                    lemma_insert_if_absent_ok(env, right@, o_var, si);
                }
                insert_if_absent_exec(&mut left, s_var, oi);
                insert_if_absent_exec(&mut right, o_var, si);
            },
            _ => {},
        }
        k += 1;
    }
    (left, right)
}

/// Equal under `subs` on the side being asked.
fn sided_yes_exec(side: EqualityTestSide, subs: Substitutions) -> (r: crate::equal::Equal)
    ensures
        r@ == sided_yes(side, subs@),
        subs.wf() ==> r.wf(),
{
    match side {
        EqualityTestSide::Left => crate::equal::Equal::Yes(subs, Substitutions::new()),
        EqualityTestSide::Right => crate::equal::Equal::Yes(Substitutions::new(), subs),
    }
}

impl EqualityCalculationContext {
    pub open spec fn spec_ok(&self, env: &Environment) -> bool {
        ctx_ok(env, self@)
    }

    /// Asks the left side whether it equals the right one, and the right
    /// side when the left one does not know; `fuel` bounds how deep tests
    /// may nest, and a test out of fuel does not know.
    pub fn get_equality_left_impl(
        &mut self,
        env: &Environment,
        pending: &mut PendingItems,
        fuel: usize,
    ) -> (r: Result<crate::equal::Equal, UnresolvedItemError>)
        requires
            env.wf(),
            no_placeholders(env),
            ctx_ok(env, old(self)@),
            pending_ok(env, old(pending)@),
        ensures
            ctx_ok(env, final(self)@),
            pending_ok(env, final(pending)@),
            r matches Ok(e) ==> e.wf(),
            ({
                let o = spec_left(env, old(self)@, old(pending)@, fuel as nat);
                &&& res_view(r) == o.res
                &&& final(self)@ == o.ctx
                &&& final(pending)@ == o.pending
            }),
        decreases fuel, 0nat, 0nat,
    {
        if fuel == 0 {
            return Ok(crate::equal::Equal::Unknown);
        }
        self.self_side = EqualityTestSide::Left;
        let r = self.def_equality(env, pending, fuel - 1, OnlyCalledByEcc(()));
        match r {
            Ok(crate::equal::Equal::Unknown) => self.get_equality_right_impl(env, pending, fuel - 1),
            other => other,
        }
    }

    /// Asks the right side whether it equals the left one.
    pub fn get_equality_right_impl(
        &mut self,
        env: &Environment,
        pending: &mut PendingItems,
        fuel: usize,
    ) -> (r: Result<crate::equal::Equal, UnresolvedItemError>)
        requires
            env.wf(),
            no_placeholders(env),
            ctx_ok(env, old(self)@),
            pending_ok(env, old(pending)@),
        ensures
            ctx_ok(env, final(self)@),
            pending_ok(env, final(pending)@),
            r matches Ok(e) ==> e.wf(),
            ({
                let o = spec_right(env, old(self)@, old(pending)@, fuel as nat);
                &&& res_view(r) == o.res
                &&& final(self)@ == o.ctx
                &&& final(pending)@ == o.pending
            }),
        decreases fuel, 0nat, 0nat,
    {
        if fuel == 0 {
            return Ok(crate::equal::Equal::Unknown);
        }
        self.self_side = EqualityTestSide::Right;
        self.def_equality(env, pending, fuel - 1, OnlyCalledByEcc(()))
    }

    /// The sub-tests of the pairs, then `and` of their results.
    fn and_pairs(
        &self,
        env: &Environment,
        pairs: &Vec<(ItemPtr, ItemPtr)>,
        pending: &mut PendingItems,
        fuel: usize,
    ) -> (r: Result<crate::equal::Equal, UnresolvedItemError>)
        requires
            env.wf(),
            no_placeholders(env),
            ctx_ok(env, self@),
            pending_ok(env, old(pending)@),
            forall|k: int| 0 <= k < pairs@.len() ==> env.valid_item((#[trigger] pairs@[k]).0) && env.valid_item(pairs@[k].1),
        ensures
            pending_ok(env, final(pending)@),
            r matches Ok(e) ==> e.wf(),
            ({
                let o = spec_and_pairs(env, self@, pairs@, old(pending)@, fuel as nat);
                &&& res_view(r) == o.res
                &&& final(pending)@ == o.pending
            }),
        decreases fuel, 1nat, pairs@.len() + 1,
    {
        let ghost p0 = pending@;
        let mut results: Vec<crate::equal::Equal> = Vec::new();
        let mut k: usize = 0;
        assert(crate::equal::equal_views(results@) =~= Seq::<EqualView>::empty());
        while k < pairs.len()
            invariant
                env.wf(),
                no_placeholders(env),
                ctx_ok(env, self@),
                pending_ok(env, pending@),
                p0 == old(pending)@,
                k <= pairs@.len(),
                forall|m: int| 0 <= m < pairs@.len() ==> env.valid_item((#[trigger] pairs@[m]).0) && env.valid_item(pairs@[m].1),
                forall|m: int| 0 <= m < results@.len() ==> (#[trigger] results@[m]).wf(),
                spec_pairs(env, self@, pairs@, 0, p0, fuel as nat, Seq::empty()) == spec_pairs(
                    env,
                    self@,
                    pairs@,
                    k as int,
                    pending@,
                    fuel as nat,
                    crate::equal::equal_views(results@),
                ),
            decreases pairs@.len() - k,
        {
            let (a, b) = pairs[k];
            assert(env.valid_item(pairs@[k as int].0) && env.valid_item(pairs@[k as int].1));
            let mut sub = self.with_primary_and_other(env, a, b);
            let ghost pending_before = pending@;
            let ghost views_before = crate::equal::equal_views(results@);
            let r = sub.get_equality_left_impl(env, pending, fuel);
            match r {
                Err(e) => {
                    assert(spec_pairs(env, self@, pairs@, k as int, pending_before, fuel as nat, views_before)
                        == (Err::<Seq<EqualView>, UnresolvedItemError>(e), pending@));
                    return Err(e);
                },
                Ok(e) => {
                    let ghost before = results@;
                    results.push(e);
                    assert(crate::equal::equal_views(results@) =~= crate::equal::equal_views(before).push(e@));
                },
            }
            k += 1;
        }
        Ok(crate::equal::Equal::and(env, results))
    }

    /// The item being asked, by its definition, whether it equals the other.
    fn def_equality(
        &mut self,
        env: &Environment,
        pending: &mut PendingItems,
        fuel: usize,
        _token: OnlyCalledByEcc,
    ) -> (r: Result<crate::equal::Equal, UnresolvedItemError>)
        requires
            env.wf(),
            no_placeholders(env),
            ctx_ok(env, old(self)@),
            pending_ok(env, old(pending)@),
        ensures
            ctx_ok(env, final(self)@),
            pending_ok(env, final(pending)@),
            r matches Ok(e) ==> e.wf(),
            ({
                let o = spec_def(env, old(self)@, old(pending)@, fuel as nat);
                &&& res_view(r) == o.res
                &&& final(self)@ == o.ctx
                &&& final(pending)@ == o.pending
            }),
        decreases fuel, 3nat, 0nat,
    {
        let p = self.primary();
        let o = self.other();
        proof {
            lemma_def_parts_valid(env, p);
            lemma_def_parts_valid(env, o);
        }
        match env.definition(p) {
            Definition::Unique(u) => match env.definition(o) {
                Definition::Unique(u2) => {
                    if u.0.0 == u2.0.0 {
                        Ok(crate::equal::Equal::yes())
                    } else {
                        Ok(crate::equal::Equal::No)
                    }
                },
                _ => Ok(crate::equal::Equal::Unknown),
            },
            Definition::Other(d) => {
                let mut sub = self.with_primary(env, d.other);
                sub.get_equality_left_impl(env, pending, fuel)
            },
            Definition::Substitution(d) => {
                let base = d.base;
                self.prepend_substitutions_for_primary(d.subs.clone_subs());
                let mut sub = self.with_primary(env, base);
                sub.get_equality_left_impl(env, pending, fuel)
            },
            Definition::Variable(d) => self.var_equality(env, d.0, pending, fuel),
            Definition::Decision(d) => match env.definition(o) {
                Definition::Decision(od) => {
                    let pairs = vec![
                        (d.left, od.left),
                        (d.right, od.right),
                        (d.when_equal, od.when_equal),
                        (d.when_not_equal, od.when_not_equal),
                    ];
                    assert(pairs@ =~= seq![
                        (d.left, od.left),
                        (d.right, od.right),
                        (d.when_equal, od.when_equal),
                        (d.when_not_equal, od.when_not_equal),
                    ]);
                    self.and_pairs(env, &pairs, pending, fuel)
                },
                _ => Ok(crate::equal::Equal::Unknown),
            },
            Definition::PopulatedStruct(d) => match env.definition(o) {
                Definition::PopulatedStruct(od) => {
                    if d.label != od.label {
                        Ok(crate::equal::Equal::No)
                    } else {
                        let pairs = vec![(d.body, od.body), (d.value, od.value)];
                        assert(pairs@ =~= seq![(d.body, od.body), (d.value, od.value)]);
                        self.and_pairs(env, &pairs, pending, fuel)
                    }
                },
                _ => Ok(crate::equal::Equal::Unknown),
            },
            Definition::BuiltinFunction(d) => match env.definition(o) {
                Definition::BuiltinFunction(od) => {
                    if d.func == od.func {
                        let mut pairs: Vec<(ItemPtr, ItemPtr)> = Vec::new();
                        let mut k: usize = 0;
                        while k < d.args.len() && k < od.args.len()
                            invariant
                                k <= d.args@.len(),
                                pairs@ == zip_items(d.args@, od.args@).take(k as int),
                                k <= zip_items(d.args@, od.args@).len(),
                            decreases d.args@.len() - k,
                        {
                            pairs.push((d.args[k], od.args[k]));
                            k += 1;
                            assert(pairs@ =~= zip_items(d.args@, od.args@).take(k as int));
                        }
                        assert(pairs@ =~= zip_items(d.args@, od.args@));
                        self.and_pairs(env, &pairs, pending, fuel)
                    } else {
                        Ok(crate::equal::Equal::Unknown)
                    }
                },
                _ => Ok(crate::equal::Equal::Unknown),
            },
            Definition::Axiom(d) => match env.definition(o) {
                Definition::Axiom(od) => {
                    let mut sub = self.with_primary_and_other(env, d.statement, od.statement);
                    sub.get_equality_left_impl(env, pending, fuel)
                },
                _ => Ok(crate::equal::Equal::Unknown),
            },
            _ => Ok(crate::equal::Equal::Unknown),
        }
    }

    /// A variable, on the side being asked, compared with the other item.
    fn var_equality(
        &mut self,
        env: &Environment,
        var: VariablePtr,
        pending: &mut PendingItems,
        fuel: usize,
    ) -> (r: Result<crate::equal::Equal, UnresolvedItemError>)
        requires
            env.wf(),
            no_placeholders(env),
            env.valid_var(var),
            ctx_ok(env, old(self)@),
            pending_ok(env, old(pending)@),
        ensures
            ctx_ok(env, final(self)@),
            pending_ok(env, final(pending)@),
            r matches Ok(e) ==> e.wf(),
            ({
                let o = spec_var(env, old(self)@, var, old(pending)@, fuel as nat);
                &&& res_view(r) == o.res
                &&& final(self)@ == o.ctx
                &&& final(pending)@ == o.pending
            }),
        decreases fuel, 2nat, 0nat,
    {
        match self.try_select_value_substituted_for_var_in_primary(env, var) {
            Err(e) => {
                return Err(e);
            },
            Ok(Some(c2)) => {
                let mut c2 = c2;
                return c2.get_equality_left_impl(env, pending, fuel);
            },
            Ok(None) => {},
        }
        let o = self.other();
        match env.definition(o) {
            Definition::Resolvable(_) => {
                return Err(UnresolvedItemError(o));
            },
            Definition::Variable(od) => {
                if od.0 == var {
                    return Ok(crate::equal::Equal::yes());
                }
            },
            _ => {},
        }
        proof {
            assert(env.variable_valid(env.spec_variables()[var.index() as int]));
        }
        let v = env.get_variable(var);
        let deps = v.dependencies();
        if deps.len() == 0 {
            let mut subs = Substitutions::new();
            subs.insert_no_replace(var, o);
            return Ok(sided_yes_exec(self.self_side, subs));
        }
        let other_deps = o.get_dependencies(env);
        if other_deps.num_variables() >= deps.len() {
            let self_deps = flat_deps_exec(env, deps);
            let other_vars = other_deps.into_variables();
            let (left, right) = pair_subs_exec(env, &self_deps, &other_vars);
            let subbed = unchecked_sub_value_exec(env, pending, o, right);
            let mut left = left;
            insert_if_absent_exec(&mut left, var, subbed);
            Ok(sided_yes_exec(self.self_side, left))
        } else if self.self_side == EqualityTestSide::Right {
            Ok(crate::equal::Equal::Unknown)
        } else {
            self.get_equality_right_impl(env, pending, fuel)
        }
    }
}

} // verus!
