use vstd::prelude::*;

use crate::definitions::Definition;
use crate::environment::Environment;
use crate::item::ItemPtr;
use crate::resolvable::UnresolvedItemError;

verus! {

/// A list of distinct handles, all below `n`, has at most `n` entries.
pub proof fn lemma_distinct_bounded(s: Seq<ItemPtr>, n: nat)
    requires
        s.no_duplicates(),
        forall|i: int| 0 <= i < s.len() ==> (#[trigger] s[i]).index() < n,
    ensures
        s.len() <= n,
{
    let idx = s.map_values(|p: ItemPtr| p.index() as int);
    assert(idx.no_duplicates()) by {
        assert forall|i: int, j: int|
            0 <= i < idx.len() && 0 <= j < idx.len() && i != j implies idx[i] != idx[j] by {
            assert(s[i] != s[j]);
            assert(s[i].0 != s[j].0);
        }
    }
    idx.unique_seq_to_set();
    vstd::set_lib::lemma_int_range(0, n as int);
    assert(idx.to_set().subset_of(vstd::set_lib::set_int_range(0, n as int))) by {
        assert forall|x: int| idx.to_set().contains(x) implies vstd::set_lib::set_int_range(
            0,
            n as int,
        ).contains(x) by {
            let k = choose|k: int| 0 <= k < idx.len() && idx[k] == x;
            assert(s[k].index() < n);
        }
    }
    vstd::set_lib::lemma_len_subset(idx.to_set(), vstd::set_lib::set_int_range(0, n as int));
}

/// What one dereferencing step turns an item into: an item that is another
/// item under a second name becomes that other item.
pub open spec fn spec_dereference_once(env: &Environment, p: ItemPtr) -> Option<ItemPtr> {
    match env.def(p) {
        Definition::Other(d) => Some(d.other),
        _ => None,
    }
}

/// The item reached after `n` dereferencing steps, stopping early where no
/// step is possible.
pub open spec fn deref_steps(env: &Environment, p: ItemPtr, n: nat) -> ItemPtr
    decreases n,
{
    if n == 0 {
        p
    } else {
        let q = deref_steps(env, p, (n - 1) as nat);
        match spec_dereference_once(env, q) {
            Some(r) => r,
            None => q,
        }
    }
}

/// The first `n` items of the chain from `p` are distinct and each can be
/// dereferenced once more.
pub open spec fn chain_open(env: &Environment, p: ItemPtr, n: nat) -> bool {
    &&& forall|m: nat| m < n ==> (#[trigger] spec_dereference_once(env, deref_steps(env, p, m))).is_some()
    &&& forall|a: nat, b: nat| a < b < n ==> #[trigger] deref_steps(env, p, a) != #[trigger] deref_steps(env, p, b)
}

/// The chain from `p` stops at its `n`th item: that item either cannot be
/// dereferenced or was met before.
pub open spec fn chain_stops_at(env: &Environment, p: ItemPtr, n: nat) -> bool {
    &&& chain_open(env, p, n)
    &&& spec_dereference_once(env, deref_steps(env, p, n)) is None || exists|m: nat|
        m < n && #[trigger] deref_steps(env, p, m) == deref_steps(env, p, n)
}

/// Dereferencing stops at one point of the chain at most.
pub proof fn lemma_chain_stop_unique(env: &Environment, p: ItemPtr, n1: nat, n2: nat)
    requires
        chain_stops_at(env, p, n1),
        chain_stops_at(env, p, n2),
    ensures
        n1 == n2,
{
    if n1 < n2 {
        assert(spec_dereference_once(env, deref_steps(env, p, n1)).is_some());
        let m = choose|m: nat| m < n1 && #[trigger] deref_steps(env, p, m) == deref_steps(env, p, n1);
        assert(deref_steps(env, p, m) != deref_steps(env, p, n1));
    } else if n2 < n1 {
        assert(spec_dereference_once(env, deref_steps(env, p, n2)).is_some());
        let m = choose|m: nat| m < n2 && #[trigger] deref_steps(env, p, m) == deref_steps(env, p, n2);
        assert(deref_steps(env, p, m) != deref_steps(env, p, n2));
    }
}

/// Where dereferencing `p` stops.
pub open spec fn spec_dereference(env: &Environment, p: ItemPtr) -> ItemPtr {
    deref_steps(env, p, choose|n: nat| chain_stops_at(env, p, n))
}

/// Taking `a` steps and then `b` steps is taking `a + b` steps.
pub proof fn lemma_deref_steps_add(env: &Environment, p: ItemPtr, a: nat, b: nat)
    ensures
        deref_steps(env, deref_steps(env, p, a), b) == deref_steps(env, p, a + b),
    decreases b,
{
    if b > 0 {
        lemma_deref_steps_add(env, p, a, (b - 1) as nat);
        assert((a + b - 1) as nat == a + (b - 1) as nat);
    }
}

/// Dereferencing is idempotent: where dereferencing `p` stops, dereferencing
/// stops at once.
pub proof fn law_dereference_idempotent(env: &Environment, p: ItemPtr)
    requires
        env.wf(),
        env.valid_item(p),
    ensures
        spec_dereference(env, spec_dereference(env, p)) == spec_dereference(env, p),
{
    lemma_stop_exists(env, p);
    let n = choose|n: nat| chain_stops_at(env, p, n);
    let r = deref_steps(env, p, n);
    assert(spec_dereference(env, p) == r);
    if spec_dereference_once(env, r) is None {
        assert(deref_steps(env, r, 0) == r);
        assert(chain_stops_at(env, r, 0));
        let k = choose|k: nat| chain_stops_at(env, r, k);
        lemma_chain_stop_unique(env, r, k, 0);
    } else {
        let m = choose|m: nat| m < n && #[trigger] deref_steps(env, p, m) == deref_steps(env, p, n);
        let d = (n - m) as nat;
        assert forall|k: nat| k <= d implies #[trigger] deref_steps(env, r, k) == deref_steps(env, p, (m + k) as nat) by {
            lemma_deref_steps_add(env, p, m, k);
        }
        assert(chain_open(env, r, d)) by {
            assert forall|k: nat| k < d implies (#[trigger] spec_dereference_once(env, deref_steps(env, r, k))).is_some() by {
                assert(deref_steps(env, r, k) == deref_steps(env, p, (m + k) as nat));
                assert(spec_dereference_once(env, deref_steps(env, p, (m + k) as nat)).is_some());
            }
            assert forall|a: nat, b: nat| a < b < d implies #[trigger] deref_steps(env, r, a) != #[trigger] deref_steps(env, r, b) by {
                assert(deref_steps(env, r, a) == deref_steps(env, p, (m + a) as nat));
                assert(deref_steps(env, r, b) == deref_steps(env, p, (m + b) as nat));
                assert(deref_steps(env, p, (m + a) as nat) != deref_steps(env, p, (m + b) as nat));
            }
        }
        assert(deref_steps(env, r, d) == r);
        assert(deref_steps(env, r, 0) == r);
        assert(chain_stops_at(env, r, d));
        let k = choose|k: nat| chain_stops_at(env, r, k);
        lemma_chain_stop_unique(env, r, k, d);
    }
}

pub proof fn lemma_deref_steps_valid(env: &Environment, p: ItemPtr, n: nat)
    requires
        env.wf(),
        env.valid_item(p),
    ensures
        env.valid_item(deref_steps(env, p, n)),
    decreases n,
{
    if n > 0 {
        lemma_deref_steps_valid(env, p, (n - 1) as nat);
        let q = deref_steps(env, p, (n - 1) as nat);
        assert(env.item_valid(env.spec_items()[q.index() as int]));
        if let Definition::Other(d) = env.def(q) {
            assert(crate::item::content_items(env.def(q))[0] == d.other);
        }
    }
}

proof fn lemma_open_bounded(env: &Environment, p: ItemPtr, n: nat)
    requires
        env.wf(),
        env.valid_item(p),
        chain_open(env, p, n),
    ensures
        n <= env.spec_items().len(),
{
    let s = Seq::new(n, |i: int| deref_steps(env, p, i as nat));
    assert forall|i: int, j: int| 0 <= i < s.len() && 0 <= j < s.len() && i != j implies s[i] != s[j] by {
        if i < j {
            assert(deref_steps(env, p, i as nat) != deref_steps(env, p, j as nat));
        } else {
            assert(deref_steps(env, p, j as nat) != deref_steps(env, p, i as nat));
        }
    }
    assert forall|i: int| 0 <= i < s.len() implies (#[trigger] s[i]).index() < env.spec_items().len() by {
        lemma_deref_steps_valid(env, p, i as nat);
    }
    lemma_distinct_bounded(s, env.spec_items().len());
}

proof fn lemma_stop_exists_from(env: &Environment, p: ItemPtr, n: nat)
    requires
        env.wf(),
        env.valid_item(p),
        chain_open(env, p, n),
    ensures
        exists|m: nat| chain_stops_at(env, p, m),
    decreases env.spec_items().len() + 1 - n,
{
    lemma_open_bounded(env, p, n);
    if !chain_stops_at(env, p, n) {
        assert(chain_open(env, p, n + 1)) by {
            assert forall|m: nat| m < n + 1 implies (#[trigger] spec_dereference_once(env, deref_steps(env, p, m))).is_some() by {}
            assert forall|x: nat, y: nat| x < y < n + 1 implies #[trigger] deref_steps(env, p, x) != #[trigger] deref_steps(env, p, y) by {
                if y == n && deref_steps(env, p, x) == deref_steps(env, p, y) {
                    assert(x < n && deref_steps(env, p, x) == deref_steps(env, p, n));
                }
            }
        }
        lemma_open_bounded(env, p, n + 1);
        lemma_stop_exists_from(env, p, n + 1);
    }
}

/// Dereferencing `p` stops somewhere.
pub proof fn lemma_stop_exists(env: &Environment, p: ItemPtr)
    requires
        env.wf(),
        env.valid_item(p),
    ensures
        exists|m: nat| chain_stops_at(env, p, m),
{
    lemma_stop_exists_from(env, p, 0);
}

/// `b` gives every item of `a` the definition `a` gives it.
pub open spec fn same_definitions(a: &Environment, b: &Environment) -> bool {
    &&& b.spec_items().len() >= a.spec_items().len()
    &&& forall|i: int|
        0 <= i < a.spec_items().len() ==> (#[trigger] b.spec_items()[i]).definition == a.spec_items()[i].definition
}

proof fn lemma_deref_steps_same(a: &Environment, b: &Environment, p: ItemPtr, n: nat)
    requires
        a.wf(),
        a.valid_item(p),
        same_definitions(a, b),
    ensures
        deref_steps(b, p, n) == deref_steps(a, p, n),
        spec_dereference_once(b, deref_steps(a, p, n)) == spec_dereference_once(a, deref_steps(a, p, n)),
    decreases n,
{
    lemma_deref_steps_valid(a, p, n);
    if n > 0 {
        lemma_deref_steps_same(a, b, p, (n - 1) as nat);
    }
    let q = deref_steps(a, p, n);
    assert(b.spec_items()[q.index() as int].definition == a.spec_items()[q.index() as int].definition);
}

/// Where dereferencing stops depends on the definitions of items alone.
pub proof fn lemma_dereference_same(a: &Environment, b: &Environment, p: ItemPtr)
    requires
        a.wf(),
        a.valid_item(p),
        same_definitions(a, b),
    ensures
        spec_dereference(b, p) == spec_dereference(a, p),
{
    assert forall|n: nat| #[trigger] chain_stops_at(b, p, n) == chain_stops_at(a, p, n) by {
        lemma_deref_steps_same(a, b, p, n);
        if chain_open(a, p, n) {
            assert forall|m: nat| m < n implies (#[trigger] spec_dereference_once(b, deref_steps(b, p, m))).is_some() by {
                lemma_deref_steps_same(a, b, p, m);
                assert(spec_dereference_once(a, deref_steps(a, p, m)).is_some());
            }
            assert forall|x: nat, y: nat| x < y < n implies #[trigger] deref_steps(b, p, x) != #[trigger] deref_steps(b, p, y) by {
                lemma_deref_steps_same(a, b, p, x);
                lemma_deref_steps_same(a, b, p, y);
                assert(deref_steps(a, p, x) != deref_steps(a, p, y));
            }
        }
        if chain_open(b, p, n) {
            assert forall|m: nat| m < n implies (#[trigger] spec_dereference_once(a, deref_steps(a, p, m))).is_some() by {
                lemma_deref_steps_same(a, b, p, m);
                assert(spec_dereference_once(b, deref_steps(b, p, m)).is_some());
            }
            assert forall|x: nat, y: nat| x < y < n implies #[trigger] deref_steps(a, p, x) != #[trigger] deref_steps(a, p, y) by {
                lemma_deref_steps_same(a, b, p, x);
                lemma_deref_steps_same(a, b, p, y);
                assert(deref_steps(b, p, x) != deref_steps(b, p, y));
            }
        }
        assert(chain_open(b, p, n) == chain_open(a, p, n));
        if exists|m: nat| m < n && #[trigger] deref_steps(a, p, m) == deref_steps(a, p, n) {
            let m = choose|m: nat| m < n && #[trigger] deref_steps(a, p, m) == deref_steps(a, p, n);
            lemma_deref_steps_same(a, b, p, m);
        }
        if exists|m: nat| m < n && #[trigger] deref_steps(b, p, m) == deref_steps(b, p, n) {
            let m = choose|m: nat| m < n && #[trigger] deref_steps(b, p, m) == deref_steps(b, p, n);
            lemma_deref_steps_same(a, b, p, m);
        }
    }
    lemma_stop_exists(a, p);
    let na = choose|n: nat| chain_stops_at(a, p, n);
    let nb = choose|n: nat| chain_stops_at(b, p, n);
    assert(chain_stops_at(b, p, na));
    assert(chain_stops_at(a, p, nb));
    lemma_chain_stop_unique(a, p, na, nb);
    lemma_deref_steps_same(a, b, p, na);
}

impl ItemPtr {
    pub fn is_unresolved(&self, env: &Environment) -> (r: bool)
        requires
            env.valid_item(*self),
        ensures
            r == (env.def(*self) is Resolvable),
    {
        match env.definition(*self) {
            Definition::Resolvable(_) => true,
            _ => false,
        }
    }

    /// Fails with this item when it is not resolved yet.
    pub fn resolved(&self, env: &Environment) -> (r: Result<(), UnresolvedItemError>)
        requires
            env.valid_item(*self),
        ensures
            r is Err <==> env.def(*self) is Resolvable,
            r matches Err(e) ==> e.0 == *self,
    {
        if self.is_unresolved(env) {
            Err(UnresolvedItemError(*self))
        } else {
            Ok(())
        }
    }

    /// One dereferencing step.
    pub fn dereference_once(&self, env: &Environment) -> (r: Option<ItemPtr>)
        requires
            env.wf(),
            env.valid_item(*self),
        ensures
            r == spec_dereference_once(env, *self),
            r matches Some(q) ==> env.valid_item(q),
    {
        match env.definition(*self) {
            Definition::Other(d) => {
                proof {
                    assert(env.item_valid(env.spec_items()[self.index() as int]));
                    assert(crate::item::content_items(env.def(*self))[0] == d.other);
                }
                Some(d.other)
            },
            _ => None,
        }
    }

    /// Follows dereferencing steps until none is possible or an item comes
    /// back, and returns where that happens.
    pub fn dereference(&self, env: &Environment) -> (r: ItemPtr)
        requires
            env.wf(),
            env.valid_item(*self),
        ensures
            env.valid_item(r),
            exists|n: nat| #[trigger] chain_stops_at(env, *self, n) && r == deref_steps(env, *self, n),
            r == spec_dereference(env, *self),
    {
        match self.dereference_impl(env, false) {
            Ok(r) => {
                proof {
                    let n = choose|n: nat| #[trigger] chain_stops_at(env, *self, n) && r == deref_steps(env, *self, n);
                    let m = choose|m: nat| chain_stops_at(env, *self, m);
                    lemma_chain_stop_unique(env, *self, n, m);
                }
                r
            },
            Err(e) => *self,
        }
    }

    /// Like `dereference`, but fails with the first unresolved item met on
    /// the way.
    pub fn dereference_resolved(&self, env: &Environment) -> (r: Result<ItemPtr, UnresolvedItemError>)
        requires
            env.wf(),
            env.valid_item(*self),
        ensures
            r matches Ok(q) ==> env.valid_item(q) && exists|n: nat|
                #[trigger] chain_stops_at(env, *self, n) && q == deref_steps(env, *self, n) && forall|
                    m: nat,
                | m < n ==> !(env.def(#[trigger] deref_steps(env, *self, m)) is Resolvable),
            r matches Err(e) ==> exists|n: nat|
                #[trigger] chain_open(env, *self, n) && e.0 == deref_steps(env, *self, n) && env.def(
                    e.0,
                ) is Resolvable && forall|m: nat|
                    m < n ==> !(env.def(#[trigger] deref_steps(env, *self, m)) is Resolvable),
    {
        self.dereference_impl(env, true)
    }

    fn dereference_impl(&self, env: &Environment, stop_at_unresolved: bool) -> (r: Result<
        ItemPtr,
        UnresolvedItemError,
    >)
        requires
            env.wf(),
            env.valid_item(*self),
        ensures
            !stop_at_unresolved ==> r is Ok,
            r matches Ok(q) ==> env.valid_item(q) && exists|n: nat|
                #[trigger] chain_stops_at(env, *self, n) && q == deref_steps(env, *self, n) && (
                stop_at_unresolved ==> forall|m: nat|
                    m < n ==> !(env.def(#[trigger] deref_steps(env, *self, m)) is Resolvable)),
            r matches Err(e) ==> stop_at_unresolved && exists|n: nat|
                #[trigger] chain_open(env, *self, n) && e.0 == deref_steps(env, *self, n) && env.def(
                    e.0,
                ) is Resolvable && forall|m: nat|
                    m < n ==> !(env.def(#[trigger] deref_steps(env, *self, m)) is Resolvable),
    {
        let mut visited: Vec<ItemPtr> = Vec::new();
        let mut cur = *self;
        let ghost mut n: nat = 0;
        loop
            invariant
                env.wf(),
                env.valid_item(*self),
                env.valid_item(cur),
                cur == deref_steps(env, *self, n),
                visited@.len() == n,
                forall|m: int| 0 <= m < n ==> #[trigger] visited@[m] == deref_steps(env, *self, m as nat),
                chain_open(env, *self, n),
                stop_at_unresolved ==> forall|m: nat|
                    m < n ==> !(env.def(#[trigger] deref_steps(env, *self, m)) is Resolvable),
            decreases env.spec_items().len() - visited@.len(),
        {
            proof {
                assert(visited@.no_duplicates()) by {
                    assert forall|a: int, b: int|
                        0 <= a < visited@.len() && 0 <= b < visited@.len() && a != b implies visited@[a]
                            != visited@[b] by {
                        if a < b {
                            assert(deref_steps(env, *self, a as nat) != deref_steps(env, *self, b as nat));
                        } else {
                            assert(deref_steps(env, *self, b as nat) != deref_steps(env, *self, a as nat));
                        }
                    }
                }
                assert forall|i: int| 0 <= i < visited@.len() implies (#[trigger] visited@[i]).index()
                    < env.spec_items().len() by {
                    lemma_deref_steps_valid(env, *self, i as nat);
                }
                lemma_distinct_bounded(visited@, env.spec_items().len());
                assert(forall|k: int| 0 <= k < visited@.len() ==> env.valid_item(#[trigger] visited@[k]));
            }
            let mut seen = false;
            let mut i: usize = 0;
            while i < visited.len()
                invariant
                    i <= visited@.len(),
                    !seen ==> forall|j: int| 0 <= j < i ==> visited@[j] != cur,
                    seen ==> exists|j: int| 0 <= j < visited@.len() && visited@[j] == cur,
                decreases visited@.len() - i,
            {
                if visited[i].is_same_instance_as(&cur) {
                    seen = true;
                }
                i += 1;
            }
            if seen {
                proof {
                    let j = choose|j: int| 0 <= j < visited@.len() && visited@[j] == cur;
                    assert(deref_steps(env, *self, j as nat) == deref_steps(env, *self, n));
                    assert(chain_stops_at(env, *self, n));
                }
                return Ok(cur);
            }
            if stop_at_unresolved && cur.is_unresolved(env) {
                return Err(UnresolvedItemError(cur));
            }
            match cur.dereference_once(env) {
                Some(next) => {
                    proof {
                        assert forall|m: nat| m < n + 1 implies (#[trigger] spec_dereference_once(
                            env,
                            deref_steps(env, *self, m),
                        )).is_some() by {}
                        assert forall|a: nat, b: nat| a < b < n + 1 implies #[trigger] deref_steps(
                            env,
                            *self,
                            a,
                        ) != #[trigger] deref_steps(env, *self, b) by {
                            if b == n {
                                assert(visited@[a as int] == deref_steps(env, *self, a));
                            }
                        }
                    }
                    let ghost prev = visited@;
                    visited.push(cur);
                    proof {
                        assert(visited@.no_duplicates()) by {
                            assert forall|a: int, b: int|
                                0 <= a < visited@.len() && 0 <= b < visited@.len() && a != b
                                    implies visited@[a] != visited@[b] by {
                                if a < prev.len() && b < prev.len() {
                                    assert(prev.no_duplicates());
                                    assert(prev[a] != prev[b]);
                                }
                            }
                        }
                        assert forall|k: int| 0 <= k < visited@.len() implies (
                        #[trigger] visited@[k]).index() < env.spec_items().len() by {
                            if k < prev.len() {
                                assert(env.valid_item(prev[k]));
                            }
                        }
                        lemma_distinct_bounded(visited@, env.spec_items().len());
                    }
                    cur = next;
                    proof {
                        n = n + 1;
                    }
                },
                None => {
                    proof {
                        assert(chain_stops_at(env, *self, n));
                    }
                    return Ok(cur);
                },
            }
        }
    }
}

} // verus!
