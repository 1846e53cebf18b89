use vstd::prelude::*;

use crate::dcc::n_items;
use crate::definitions::Definition;
use crate::environment::Environment;
use crate::equal::value_deref;
use crate::invariants::InvariantSetPtr;
use crate::item::{ItemPtr, Scope};

verus! {

/// The name `SELF`, by which a variable's invariants refer to it.
pub open spec fn self_name() -> Seq<char> {
    seq!['S', 'E', 'L', 'F']
}

/// What `ident` names among the labels of the structure `p` and of the
/// structures that are its bodies, from the tail inwards.
pub open spec fn lookup_in_struct(env: &Environment, p: ItemPtr, ident: Seq<char>, fuel: nat) -> Option<ItemPtr>
    decreases fuel,
{
    if !env.valid_item(p) {
        None
    } else {
        match env.def(p) {
            Definition::PopulatedStruct(d) => if d.label@ == ident {
                Some(d.value)
            } else if fuel == 0 {
                None
            } else {
                lookup_in_struct(env, d.body, ident, (fuel - 1) as nat)
            },
            _ => None,
        }
    }
}

/// What `ident` names in the scope itself, without looking at enclosing
/// scopes.
pub open spec fn local_lookup(env: &Environment, scope: Scope, ident: Seq<char>) -> Option<ItemPtr> {
    match scope {
        Scope::Field(p) => if env.valid_item(p) {
            match env.def(p) {
                Definition::PopulatedStruct(d) => if d.label@ == ident {
                    Some(d.value)
                } else {
                    None
                },
                _ => None,
            }
        } else {
            None
        },
        Scope::FieldAndRest(p) => lookup_in_struct(env, p, ident, n_items(env) as nat),
        Scope::VariableInvariants(p) => if ident == self_name() {
            Some(p)
        } else {
            None
        },
        _ => None,
    }
}

/// What `ident` names in the scope or, failing that, in the enclosing
/// scopes, going outwards at most `fuel` times.
pub open spec fn spec_lookup_ident(env: &Environment, scope: Scope, ident: Seq<char>, fuel: nat) -> Option<ItemPtr>
    decreases fuel,
{
    match local_lookup(env, scope, ident) {
        Some(x) => Some(x),
        None => match scope.spec_parent() {
            Some(p) => if fuel > 0 && env.valid_item(p) {
                spec_lookup_ident(env, env.item(p).scope, ident, (fuel - 1) as nat)
            } else {
                None
            },
            None => None,
        },
    }
}

proof fn lemma_lookup_in_struct_valid(env: &Environment, p: ItemPtr, ident: Seq<char>, fuel: nat)
    requires
        env.wf(),
    ensures
        lookup_in_struct(env, p, ident, fuel) matches Some(x) ==> env.valid_item(x),
    decreases fuel,
{
    if env.valid_item(p) {
        crate::ecc::lemma_def_parts_valid(env, p);
        if fuel > 0 {
            if let Definition::PopulatedStruct(d) = env.def(p) {
                lemma_lookup_in_struct_valid(env, d.body, ident, (fuel - 1) as nat);
            }
        }
    }
}

/// What a name is found to name in a valid scope is an item of the
/// environment.
pub proof fn lemma_lookup_valid(env: &Environment, scope: Scope, ident: Seq<char>, fuel: nat)
    requires
        env.wf(),
        env.scope_valid(scope),
    ensures
        spec_lookup_ident(env, scope, ident, fuel) matches Some(x) ==> env.valid_item(x),
    decreases fuel,
{
    match scope {
        Scope::Field(p) => {
            crate::ecc::lemma_def_parts_valid(env, p);
        },
        Scope::FieldAndRest(p) => {
            lemma_lookup_in_struct_valid(env, p, ident, n_items(env) as nat);
        },
        _ => {},
    }
    if local_lookup(env, scope, ident) is None {
        if let Some(p) = scope.spec_parent() {
            if fuel > 0 && env.valid_item(p) {
                assert(env.item_valid(env.spec_items()[p.index() as int]));
                lemma_lookup_valid(env, env.item(p).scope, ident, (fuel - 1) as nat);
            }
        }
    }
}

/// The invariant set computed for an item, as a list of at most one.
pub open spec fn cached_invariants(env: &Environment, p: ItemPtr) -> Seq<InvariantSetPtr> {
    if env.valid_item(p) {
        match env.item(p).invariants {
            Some(s) => seq![s],
            None => Seq::empty(),
        }
    } else {
        Seq::empty()
    }
}

/// The invariant sets of the values of the structure `p` and of its bodies.
pub open spec fn struct_invariant_sets(env: &Environment, p: ItemPtr, fuel: nat) -> Seq<InvariantSetPtr>
    decreases fuel,
{
    if !env.valid_item(p) {
        Seq::empty()
    } else {
        match env.def(p) {
            Definition::PopulatedStruct(d) => cached_invariants(env, d.value) + if fuel == 0 {
                Seq::empty()
            } else {
                struct_invariant_sets(env, d.body, (fuel - 1) as nat)
            },
            _ => Seq::empty(),
        }
    }
}

/// The invariant sets a scope itself makes available.
pub open spec fn local_invariant_sets(env: &Environment, scope: Scope) -> Seq<InvariantSetPtr> {
    match scope {
        Scope::Field(p) => if env.valid_item(p) {
            match env.def(p) {
                Definition::PopulatedStruct(d) => cached_invariants(env, d.value),
                _ => Seq::empty(),
            }
        } else {
            Seq::empty()
        },
        Scope::FieldAndRest(p) => struct_invariant_sets(env, p, n_items(env) as nat),
        Scope::WithInvariant(s, _) => seq![s],
        _ => Seq::empty(),
    }
}

/// The invariant sets available in a scope: its own, then those of the
/// enclosing scopes.
pub open spec fn spec_invariant_sets(env: &Environment, scope: Scope, fuel: nat) -> Seq<InvariantSetPtr>
    decreases fuel,
{
    local_invariant_sets(env, scope) + match scope.spec_parent() {
        Some(p) => if fuel > 0 && env.valid_item(p) {
            spec_invariant_sets(env, env.item(p).scope, (fuel - 1) as nat)
        } else {
            Seq::empty()
        },
        None => Seq::empty(),
    }
}

/// The name by which the structure `p`, or one of its bodies, refers to
/// `value`.
pub open spec fn reverse_lookup_in_struct(env: &Environment, p: ItemPtr, value: ItemPtr, fuel: nat) -> Option<Seq<char>>
    decreases fuel,
{
    if !env.valid_item(p) {
        None
    } else {
        match env.def(p) {
            Definition::PopulatedStruct(d) => if value_deref(env, d.value) == value && d.label@.len() > 0 {
                Some(d.label@)
            } else if fuel == 0 {
                None
            } else {
                reverse_lookup_in_struct(env, d.body, value, (fuel - 1) as nat)
            },
            _ => None,
        }
    }
}

/// The name by which the scope itself refers to `value`.
pub open spec fn local_reverse_lookup(env: &Environment, scope: Scope, value: ItemPtr) -> Option<Seq<char>> {
    match scope {
        Scope::Field(p) => if env.valid_item(p) {
            match env.def(p) {
                Definition::PopulatedStruct(d) => if value_deref(env, d.value) == value && d.label@.len() > 0 {
                    Some(d.label@)
                } else {
                    None
                },
                _ => None,
            }
        } else {
            None
        },
        Scope::FieldAndRest(p) => reverse_lookup_in_struct(env, p, value, n_items(env) as nat),
        Scope::VariableInvariants(p) => if value == p {
            Some(self_name())
        } else {
            None
        },
        _ => None,
    }
}

/// The name by which the scope or an enclosing one refers to `value`.
pub open spec fn spec_reverse_lookup_ident(env: &Environment, scope: Scope, value: ItemPtr, fuel: nat) -> Option<
    Seq<char>,
>
    decreases fuel,
{
    match local_reverse_lookup(env, scope, value) {
        Some(x) => Some(x),
        None => match scope.spec_parent() {
            Some(p) => if fuel > 0 && env.valid_item(p) {
                spec_reverse_lookup_ident(env, env.item(p).scope, value, (fuel - 1) as nat)
            } else {
                None
            },
            None => None,
        },
    }
}

/// What `ident` names among the labels of the structure `p` and its
/// bodies.
pub fn lookup_ident_in(env: &Environment, p: ItemPtr, ident: &String, fuel: usize) -> (r: Option<ItemPtr>)
    ensures
        r == lookup_in_struct(env, p, ident@, fuel as nat),
    decreases fuel,
{
    if p.0 >= env.num_items() {
        return None;
    }
    match env.definition(p) {
        Definition::PopulatedStruct(d) => {
            if d.label == *ident {
                Some(d.value)
            } else if fuel == 0 {
                None
            } else {
                lookup_ident_in(env, d.body, ident, fuel - 1)
            }
        },
        _ => None,
    }
}

/// The invariant set computed for an item, as a list of at most one.
fn cached_invariants_exec(env: &Environment, p: ItemPtr) -> (r: Vec<InvariantSetPtr>)
    ensures
        r@ == cached_invariants(env, p),
{
    let mut r: Vec<InvariantSetPtr> = Vec::new();
    if p.0 < env.num_items() {
        match env.get(p).invariants {
            Some(s) => {
                r.push(s);
                assert(r@ =~= seq![s]);
            },
            None => {
                assert(r@ =~= Seq::<InvariantSetPtr>::empty());
            },
        }
    } else {
        assert(r@ =~= Seq::<InvariantSetPtr>::empty());
    }
    r
}

/// The invariant sets of the values of the structure `p` and of its bodies.
pub fn get_invariant_sets_in(env: &Environment, p: ItemPtr, fuel: usize) -> (r: Vec<InvariantSetPtr>)
    ensures
        r@ == struct_invariant_sets(env, p, fuel as nat),
    decreases fuel,
{
    if p.0 >= env.num_items() {
        let r: Vec<InvariantSetPtr> = Vec::new();
        assert(r@ =~= Seq::<InvariantSetPtr>::empty());
        return r;
    }
    match env.definition(p) {
        Definition::PopulatedStruct(d) => {
            let mut r = cached_invariants_exec(env, d.value);
            let ghost first = r@;
            if fuel == 0 {
                assert(r@ =~= first + Seq::<InvariantSetPtr>::empty());
            } else {
                let mut rest = get_invariant_sets_in(env, d.body, fuel - 1);
                r.append(&mut rest);
            }
            r
        },
        _ => {
            let r: Vec<InvariantSetPtr> = Vec::new();
            assert(r@ =~= Seq::<InvariantSetPtr>::empty());
            r
        },
    }
}

/// The name by which the structure `p`, or one of its bodies, refers to
/// `value`.
pub fn reverse_lookup_ident_in(env: &Environment, p: ItemPtr, value: ItemPtr, fuel: usize) -> (r: Option<String>)
    requires
        env.wf(),
    ensures
        match r {
            Some(s) => reverse_lookup_in_struct(env, p, value, fuel as nat) == Some(s@),
            None => reverse_lookup_in_struct(env, p, value, fuel as nat) is None,
        },
    decreases fuel,
{
    if p.0 >= env.num_items() {
        return None;
    }
    match env.definition(p) {
        Definition::PopulatedStruct(d) => {
            if crate::equal::deref_value(env, d.value) == value && !d.label.as_str().is_empty() {
                Some(d.label.clone())
            } else if fuel == 0 {
                None
            } else {
                reverse_lookup_ident_in(env, d.body, value, fuel - 1)
            }
        },
        _ => None,
    }
}

impl Scope {
    /// What `ident` names in this scope itself.
    pub fn local_lookup_ident(&self, env: &Environment, ident: &String) -> (r: Option<ItemPtr>)
        ensures
            r == local_lookup(env, *self, ident@),
    {
        match self {
            Scope::Field(p) => {
                if p.0 >= env.num_items() {
                    return None;
                }
                match env.definition(*p) {
                    Definition::PopulatedStruct(d) => {
                        if d.label == *ident {
                            Some(d.value)
                        } else {
                            None
                        }
                    },
                    _ => None,
                }
            },
            Scope::FieldAndRest(p) => lookup_ident_in(env, *p, ident, env.num_items()),
            Scope::VariableInvariants(p) => {
                let self_word = "SELF".to_owned();
                proof {
                    reveal_strlit("SELF");
                    assert("SELF"@ =~= self_name());
                }
                if *ident == self_word {
                    Some(*p)
                } else {
                    None
                }
            },
            _ => None,
        }
    }

    /// What `ident` names in this scope or, failing that, in the enclosing
    /// scopes.
    pub fn lookup_ident(&self, env: &Environment, ident: &String) -> (r: Option<ItemPtr>)
        ensures
            r == spec_lookup_ident(env, *self, ident@, n_items(env) as nat),
    {
        let mut scope = *self;
        let mut fuel = env.num_items();
        loop
            invariant
                spec_lookup_ident(env, *self, ident@, n_items(env) as nat) == spec_lookup_ident(
                    env,
                    scope,
                    ident@,
                    fuel as nat,
                ),
            decreases fuel,
        {
            match scope.local_lookup_ident(env, ident) {
                Some(x) => {
                    return Some(x);
                },
                None => {},
            }
            match scope.parent() {
                Some(p) => {
                    if fuel > 0 && p.0 < env.num_items() {
                        scope = env.get(p).scope;
                        fuel = fuel - 1;
                    } else {
                        return None;
                    }
                },
                None => {
                    return None;
                },
            }
        }
    }

    /// The invariant sets this scope itself makes available.
    pub fn local_get_invariant_sets(&self, env: &Environment) -> (r: Vec<InvariantSetPtr>)
        ensures
            r@ == local_invariant_sets(env, *self),
    {
        match self {
            Scope::Field(p) => {
                if p.0 < env.num_items() {
                    match env.definition(*p) {
                        Definition::PopulatedStruct(d) => {
                            return cached_invariants_exec(env, d.value);
                        },
                        _ => {},
                    }
                }
                let r: Vec<InvariantSetPtr> = Vec::new();
                assert(r@ =~= Seq::<InvariantSetPtr>::empty());
                r
            },
            Scope::FieldAndRest(p) => get_invariant_sets_in(env, *p, env.num_items()),
            Scope::WithInvariant(s, _) => {
                let mut r: Vec<InvariantSetPtr> = Vec::new();
                r.push(*s);
                assert(r@ =~= seq![*s]);
                r
            },
            _ => {
                let r: Vec<InvariantSetPtr> = Vec::new();
                assert(r@ =~= Seq::<InvariantSetPtr>::empty());
                r
            },
        }
    }

    /// The invariant sets available in this scope: its own, then those of
    /// the enclosing scopes.
    pub fn get_invariant_sets(&self, env: &Environment) -> (r: Vec<InvariantSetPtr>)
        ensures
            r@ == spec_invariant_sets(env, *self, n_items(env) as nat),
    {
        let mut result: Vec<InvariantSetPtr> = Vec::new();
        let mut scope = *self;
        let mut fuel = env.num_items();
        assert(result@ =~= Seq::<InvariantSetPtr>::empty());
        loop
            invariant
                spec_invariant_sets(env, *self, n_items(env) as nat) == result@ + spec_invariant_sets(
                    env,
                    scope,
                    fuel as nat,
                ),
            decreases fuel,
        {
            let mut local = scope.local_get_invariant_sets(env);
            let ghost before = result@;
            let ghost loc = local@;
            result.append(&mut local);
            match scope.parent() {
                Some(p) => {
                    if fuel > 0 && p.0 < env.num_items() {
                        let ghost old_scope = scope;
                        scope = env.get(p).scope;
                        fuel = fuel - 1;
                        assert(before + (loc + spec_invariant_sets(env, scope, fuel as nat)) =~= result@
                            + spec_invariant_sets(env, scope, fuel as nat));
                    } else {
                        assert(before + (loc + Seq::<InvariantSetPtr>::empty()) =~= result@);
                        return result;
                    }
                },
                None => {
                    assert(before + (loc + Seq::<InvariantSetPtr>::empty()) =~= result@);
                    return result;
                },
            }
        }
    }

    /// The name by which this scope itself refers to `value`.
    pub fn local_reverse_lookup_ident(&self, env: &Environment, value: ItemPtr) -> (r: Option<String>)
        requires
            env.wf(),
        ensures
            match r {
                Some(s) => local_reverse_lookup(env, *self, value) == Some(s@),
                None => local_reverse_lookup(env, *self, value) is None,
            },
    {
        match self {
            Scope::Field(p) => {
                if p.0 >= env.num_items() {
                    return None;
                }
                match env.definition(*p) {
                    Definition::PopulatedStruct(d) => {
                        if crate::equal::deref_value(env, d.value) == value && !d.label.as_str().is_empty() {
                            Some(d.label.clone())
                        } else {
                            None
                        }
                    },
                    _ => None,
                }
            },
            Scope::FieldAndRest(p) => reverse_lookup_ident_in(env, *p, value, env.num_items()),
            Scope::VariableInvariants(p) => {
                if value == *p {
                    let r = "SELF".to_owned();
                    proof {
                        reveal_strlit("SELF");
                        assert(r@ =~= self_name());
                    }
                    Some(r)
                } else {
                    None
                }
            },
            _ => None,
        }
    }

    /// The name by which this scope or an enclosing one refers to `value`.
    pub fn reverse_lookup_ident(&self, env: &Environment, value: ItemPtr) -> (r: Option<String>)
        requires
            env.wf(),
        ensures
            match r {
                Some(s) => spec_reverse_lookup_ident(env, *self, value, n_items(env) as nat) == Some(s@),
                None => spec_reverse_lookup_ident(env, *self, value, n_items(env) as nat) is None,
            },
    {
        let mut scope = *self;
        let mut fuel = env.num_items();
        loop
            invariant
                env.wf(),
                spec_reverse_lookup_ident(env, *self, value, n_items(env) as nat) == spec_reverse_lookup_ident(
                    env,
                    scope,
                    value,
                    fuel as nat,
                ),
            decreases fuel,
        {
            match scope.local_reverse_lookup_ident(env, value) {
                Some(x) => {
                    return Some(x);
                },
                None => {},
            }
            match scope.parent() {
                Some(p) => {
                    if fuel > 0 && p.0 < env.num_items() {
                        scope = env.get(p).scope;
                        fuel = fuel - 1;
                    } else {
                        return None;
                    }
                },
                None => {
                    return None;
                },
            }
        }
    }
}

impl ItemPtr {
    /// What `ident` names in the scope of this item.
    pub fn lookup_ident(&self, env: &Environment, ident: &String) -> (r: Option<ItemPtr>)
        requires
            env.valid_item(*self),
        ensures
            r == spec_lookup_ident(env, env.item(*self).scope, ident@, n_items(env) as nat),
    {
        let scope = env.get(*self).scope;
        scope.lookup_ident(env, ident)
    }

    /// The scope this item was written in.
    pub fn clone_scope(&self, env: &Environment) -> (r: Scope)
        requires
            env.valid_item(*self),
        ensures
            r == env.item(*self).scope,
    {
        env.get(*self).scope
    }
}

/// The item reached from `p` by going `k` times from a structure to its
/// body.
pub open spec fn nth_body(env: &Environment, p: ItemPtr, k: nat) -> ItemPtr
    decreases k,
{
    if k == 0 {
        p
    } else {
        match env.def(p) {
            Definition::PopulatedStruct(d) => nth_body(env, d.body, (k - 1) as nat),
            _ => p,
        }
    }
}

/// `p` is a structure of the environment.
pub open spec fn is_structure(env: &Environment, p: ItemPtr) -> bool {
    env.valid_item(p) && env.def(p) is PopulatedStruct
}

/// The label of the field of the structure `p`.
pub open spec fn field_label(env: &Environment, p: ItemPtr) -> Seq<char> {
    match env.def(p) {
        Definition::PopulatedStruct(d) => d.label@,
        _ => Seq::empty(),
    }
}

/// The value of the field of the structure `p`.
pub open spec fn field_value(env: &Environment, p: ItemPtr) -> ItemPtr {
    match env.def(p) {
        Definition::PopulatedStruct(d) => d.value,
        _ => p,
    }
}

proof fn lemma_lookup_reaches_body(env: &Environment, p: ItemPtr, ident: Seq<char>, k: nat, fuel: nat)
    requires
        k <= fuel,
        forall|i: nat| i <= k ==> #[trigger] is_structure(env, nth_body(env, p, i)),
        forall|i: nat| i < k ==> field_label(env, #[trigger] nth_body(env, p, i)) != ident,
        field_label(env, nth_body(env, p, k)) == ident,
    ensures
        lookup_in_struct(env, p, ident, fuel) == Some(field_value(env, nth_body(env, p, k))),
    decreases k,
{
    assert(is_structure(env, nth_body(env, p, 0)));
    if k > 0 {
        let body = env.def(p)->PopulatedStruct_0.body;
        assert(field_label(env, nth_body(env, p, 0)) != ident);
        assert forall|i: nat| i <= (k - 1) as nat implies #[trigger] is_structure(env, nth_body(env, body, i)) by {
            assert(nth_body(env, p, i + 1) == nth_body(env, body, i));
            assert(is_structure(env, nth_body(env, p, i + 1)));
        }
        assert forall|i: nat| i < (k - 1) as nat implies field_label(env, #[trigger] nth_body(env, body, i)) != ident by {
            assert(nth_body(env, p, i + 1) == nth_body(env, body, i));
            assert(field_label(env, nth_body(env, p, i + 1)) != ident);
        }
        assert(nth_body(env, p, k) == nth_body(env, body, (k - 1) as nat));
        lemma_lookup_reaches_body(env, body, ident, (k - 1) as nat, (fuel - 1) as nat);
    }
}

/// A name looked up in a structure and the rest of it finds the value of the
/// outermost field with that label, however many bodies deep it is: if the
/// structures reached from `p` through `k` bodies carry other labels, and
/// the next one carries `ident`, the name finds its value, in the scope and
/// from any scope that looks there first.
pub proof fn law_name_found_in_bodies(env: &Environment, p: ItemPtr, ident: Seq<char>, k: nat, fuel: nat)
    requires
        k < n_items(env),
        forall|i: nat| i <= k ==> #[trigger] is_structure(env, nth_body(env, p, i)),
        forall|i: nat| i < k ==> field_label(env, #[trigger] nth_body(env, p, i)) != ident,
        field_label(env, nth_body(env, p, k)) == ident,
    ensures
        local_lookup(env, Scope::FieldAndRest(p), ident) == Some(field_value(env, nth_body(env, p, k))),
        spec_lookup_ident(env, Scope::FieldAndRest(p), ident, fuel) == Some(field_value(env, nth_body(env, p, k))),
{
    lemma_lookup_reaches_body(env, p, ident, k, n_items(env) as nat);
}

proof fn lemma_sets_reach_body(env: &Environment, p: ItemPtr, k: nat, fuel: nat, s: InvariantSetPtr)
    requires
        k <= fuel,
        forall|i: nat| i <= k ==> #[trigger] is_structure(env, nth_body(env, p, i)),
        cached_invariants(env, field_value(env, nth_body(env, p, k))).contains(s),
    ensures
        struct_invariant_sets(env, p, fuel).contains(s),
    decreases k,
{
    assert(is_structure(env, nth_body(env, p, 0)));
    let d = env.def(p)->PopulatedStruct_0;
    let first = cached_invariants(env, d.value);
    if k == 0 {
        let rest = if fuel == 0 { Seq::<InvariantSetPtr>::empty() } else { struct_invariant_sets(env, d.body, (fuel - 1) as nat) };
        let j = choose|j: int| 0 <= j < first.len() && first[j] == s;
        assert((first + rest)[j] == s);
    } else {
        let body = d.body;
        assert forall|i: nat| i <= (k - 1) as nat implies #[trigger] is_structure(env, nth_body(env, body, i)) by {
            assert(nth_body(env, p, i + 1) == nth_body(env, body, i));
            assert(is_structure(env, nth_body(env, p, i + 1)));
        }
        assert(nth_body(env, p, k) == nth_body(env, body, (k - 1) as nat));
        lemma_sets_reach_body(env, body, (k - 1) as nat, (fuel - 1) as nat, s);
        let rest = struct_invariant_sets(env, body, (fuel - 1) as nat);
        let j = choose|j: int| 0 <= j < rest.len() && rest[j] == s;
        assert((first + rest)[first.len() + j] == s);
    }
}

/// The invariants of every field of a structure are available in the
/// structure and the rest of it, those of the fields of its bodies
/// included: if the structures reached from `p` through up to `k` bodies
/// are all structures, the set computed for the value of the last one is
/// among the sets that scope makes available, and among those available
/// from it.
pub proof fn law_invariants_of_bodies_available(env: &Environment, p: ItemPtr, k: nat, s: InvariantSetPtr, fuel: nat)
    requires
        k < n_items(env),
        forall|i: nat| i <= k ==> #[trigger] is_structure(env, nth_body(env, p, i)),
        cached_invariants(env, field_value(env, nth_body(env, p, k))).contains(s),
    ensures
        local_invariant_sets(env, Scope::FieldAndRest(p)).contains(s),
        spec_invariant_sets(env, Scope::FieldAndRest(p), fuel).contains(s),
{
    lemma_sets_reach_body(env, p, k, n_items(env) as nat, s);
    let local = local_invariant_sets(env, Scope::FieldAndRest(p));
    let j = choose|j: int| 0 <= j < local.len() && local[j] == s;
    let rest = match Scope::FieldAndRest(p).spec_parent() {
        Some(q) => if fuel > 0 && env.valid_item(q) {
            spec_invariant_sets(env, env.item(q).scope, (fuel - 1) as nat)
        } else {
            Seq::empty()
        },
        None => Seq::empty(),
    };
    assert((local + rest)[j] == s);
}

/// `p`'s field refers to `value` by a name that can be written.
pub open spec fn field_names(env: &Environment, p: ItemPtr, value: ItemPtr) -> bool {
    value_deref(env, field_value(env, p)) == value && field_label(env, p).len() > 0
}

proof fn lemma_reverse_lookup_reaches_body(env: &Environment, p: ItemPtr, value: ItemPtr, k: nat, fuel: nat)
    requires
        k <= fuel,
        forall|i: nat| i <= k ==> #[trigger] is_structure(env, nth_body(env, p, i)),
        forall|i: nat| i < k ==> !field_names(env, #[trigger] nth_body(env, p, i), value),
        field_names(env, nth_body(env, p, k), value),
    ensures
        reverse_lookup_in_struct(env, p, value, fuel) == Some(field_label(env, nth_body(env, p, k))),
    decreases k,
{
    assert(is_structure(env, nth_body(env, p, 0)));
    if k > 0 {
        let body = env.def(p)->PopulatedStruct_0.body;
        assert(!field_names(env, nth_body(env, p, 0), value));
        assert forall|i: nat| i <= (k - 1) as nat implies #[trigger] is_structure(env, nth_body(env, body, i)) by {
            assert(nth_body(env, p, i + 1) == nth_body(env, body, i));
            assert(is_structure(env, nth_body(env, p, i + 1)));
        }
        assert forall|i: nat| i < (k - 1) as nat implies !field_names(env, #[trigger] nth_body(env, body, i), value) by {
            assert(nth_body(env, p, i + 1) == nth_body(env, body, i));
            assert(!field_names(env, nth_body(env, p, i + 1), value));
        }
        assert(nth_body(env, p, k) == nth_body(env, body, (k - 1) as nat));
        lemma_reverse_lookup_reaches_body(env, body, value, (k - 1) as nat, (fuel - 1) as nat);
    }
}

/// The name a structure and the rest of it give an item is the label of the
/// outermost field whose value is that item, however many bodies deep: if
/// the structures reached from `p` through `k` bodies do not name `value`
/// and the next one does, its label is the name, in the scope and from any
/// scope that looks there first.
pub proof fn law_label_found_in_bodies(env: &Environment, p: ItemPtr, value: ItemPtr, k: nat, fuel: nat)
    requires
        k < n_items(env),
        forall|i: nat| i <= k ==> #[trigger] is_structure(env, nth_body(env, p, i)),
        forall|i: nat| i < k ==> !field_names(env, #[trigger] nth_body(env, p, i), value),
        field_names(env, nth_body(env, p, k), value),
    ensures
        local_reverse_lookup(env, Scope::FieldAndRest(p), value) == Some(field_label(env, nth_body(env, p, k))),
        spec_reverse_lookup_ident(env, Scope::FieldAndRest(p), value, fuel) == Some(
            field_label(env, nth_body(env, p, k)),
        ),
{
    lemma_reverse_lookup_reaches_body(env, p, value, k, n_items(env) as nat);
}

} // verus!
