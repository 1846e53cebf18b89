use vstd::prelude::*;

use crate::definitions::ContainmentType;
use crate::deref::lemma_distinct_bounded;
use crate::environment::Environment;
use crate::item::{content_items, ItemPtr};

verus! {

/// `b` is one of the items `a` contains.
pub open spec fn contains_directly(env: &Environment, a: ItemPtr, b: ItemPtr) -> bool {
    content_items(env.def(a)).contains(b)
}

/// Each item of `path` contains the next.
pub open spec fn is_content_path(env: &Environment, path: Seq<ItemPtr>) -> bool {
    forall|i: int| 0 <= i < path.len() - 1 ==> contains_directly(env, #[trigger] path[i], path[i + 1])
}

/// `b` can be reached from `a` by going from items to what they contain.
pub open spec fn reachable(env: &Environment, a: ItemPtr, b: ItemPtr) -> bool {
    exists|path: Seq<ItemPtr>|
        path.len() > 0 && path[0] == a && path.last() == b && #[trigger] is_content_path(env, path)
}

/// Every item reachable from an item of a set that is closed under containment
/// is in that set.
pub proof fn lemma_closed_contains_reachable(env: &Environment, set: Seq<ItemPtr>, a: ItemPtr, b: ItemPtr)
    requires
        set.contains(a),
        forall|x: ItemPtr, y: ItemPtr| set.contains(x) && contains_directly(env, x, y) ==> set.contains(y),
        reachable(env, a, b),
    ensures
        set.contains(b),
{
    let path = choose|path: Seq<ItemPtr>|
        path.len() > 0 && path[0] == a && path.last() == b && #[trigger] is_content_path(env, path);
    lemma_closed_path_prefix(env, set, path, path.len() - 1);
}

proof fn lemma_closed_path_prefix(env: &Environment, set: Seq<ItemPtr>, path: Seq<ItemPtr>, k: int)
    requires
        0 <= k < path.len(),
        set.contains(path[0]),
        is_content_path(env, path),
        forall|x: ItemPtr, y: ItemPtr| set.contains(x) && contains_directly(env, x, y) ==> set.contains(y),
    ensures
        set.contains(path[k]),
    decreases k,
{
    if k > 0 {
        lemma_closed_path_prefix(env, set, path, k - 1);
        assert(contains_directly(env, path[k - 1], path[k]));
    }
}

/// Reachability extends by one containment step.
pub proof fn lemma_reachable_step(env: &Environment, a: ItemPtr, b: ItemPtr, c: ItemPtr)
    requires
        contains_directly(env, a, b),
        reachable(env, b, c),
    ensures
        reachable(env, a, c),
{
    let path = choose|path: Seq<ItemPtr>|
        path.len() > 0 && path[0] == b && path.last() == c && #[trigger] is_content_path(env, path);
    let longer = seq![a] + path;
    assert(is_content_path(env, longer)) by {
        assert forall|i: int| 0 <= i < longer.len() - 1 implies contains_directly(
            env,
            #[trigger] longer[i],
            longer[i + 1],
        ) by {
            if i > 0 {
                assert(longer[i] == path[i - 1]);
                assert(longer[i + 1] == path[i]);
            }
        }
    }
    assert(longer.last() == c);
}

/// Reachability is transitive.
pub proof fn lemma_reachable_trans(env: &Environment, a: ItemPtr, b: ItemPtr, c: ItemPtr)
    requires
        reachable(env, a, b),
        reachable(env, b, c),
    ensures
        reachable(env, a, c),
{
    let p1 = choose|path: Seq<ItemPtr>|
        path.len() > 0 && path[0] == a && path.last() == b && #[trigger] is_content_path(env, path);
    let p2 = choose|path: Seq<ItemPtr>|
        path.len() > 0 && path[0] == b && path.last() == c && #[trigger] is_content_path(env, path);
    let longer = p1 + p2.skip(1);
    assert(is_content_path(env, longer)) by {
        assert forall|i: int| 0 <= i < longer.len() - 1 implies contains_directly(
            env,
            #[trigger] longer[i],
            longer[i + 1],
        ) by {
            if i < p1.len() - 1 {
                assert(longer[i] == p1[i] && longer[i + 1] == p1[i + 1]);
            } else if i == p1.len() - 1 {
                assert(longer[i] == p2[0]);
                assert(longer[i + 1] == p2[1]);
            } else {
                let m = i - p1.len() + 1;
                assert(longer[i] == p2[m] && longer[i + 1] == p2[m + 1]);
            }
        }
    }
    if p2.len() == 1 {
        assert(longer =~= p1);
    } else {
        assert(longer.last() == p2.last());
    }
    assert(longer[0] == a);
}

/// Reachability from a valid item depends only on the definitions of the
/// items.
pub proof fn lemma_reachable_same(a: &Environment, b: &Environment, x: ItemPtr, y: ItemPtr)
    requires
        a.wf(),
        a.valid_item(x),
        a.spec_items().len() == b.spec_items().len(),
        forall|i: int| 0 <= i < a.spec_items().len() ==> (#[trigger] b.spec_items()[i]).definition == a.spec_items()[i].definition,
        reachable(b, x, y),
    ensures
        reachable(a, x, y),
        a.valid_item(y),
{
    let path = choose|path: Seq<ItemPtr>|
        path.len() > 0 && path[0] == x && path.last() == y && #[trigger] is_content_path(b, path);
    lemma_path_same(a, b, path, path.len() - 1);
    assert(is_content_path(a, path)) by {
        assert forall|i: int| 0 <= i < path.len() - 1 implies contains_directly(a, #[trigger] path[i], path[i + 1]) by {
            lemma_path_same(a, b, path, i);
            assert(a.spec_items()[path[i].index() as int].definition == b.spec_items()[path[i].index() as int].definition);
            assert(contains_directly(b, path[i], path[i + 1]));
        }
    }
}

proof fn lemma_path_same(a: &Environment, b: &Environment, path: Seq<ItemPtr>, k: int)
    requires
        a.wf(),
        0 <= k < path.len(),
        a.valid_item(path[0]),
        a.spec_items().len() == b.spec_items().len(),
        forall|i: int| 0 <= i < a.spec_items().len() ==> (#[trigger] b.spec_items()[i]).definition == a.spec_items()[i].definition,
        is_content_path(b, path),
    ensures
        a.valid_item(path[k]),
    decreases k,
{
    if k > 0 {
        lemma_path_same(a, b, path, k - 1);
        let v = path[k - 1];
        assert(contains_directly(b, v, path[k]));
        assert(b.spec_items()[v.index() as int].definition == a.spec_items()[v.index() as int].definition);
        crate::ecc::lemma_def_parts_valid(a, v);
        let c = content_items(a.def(v));
        let j = choose|j: int| 0 <= j < c.len() && c[j] == path[k];
        assert(a.valid_item(c[j]));
    }
}

/// Dereferencing goes from an item to what it contains, so it stays within
/// what is reachable.
pub proof fn lemma_deref_reachable(env: &Environment, p: ItemPtr, n: nat)
    ensures
        reachable(env, p, crate::deref::deref_steps(env, p, n)),
    decreases n,
{
    if n == 0 {
        lemma_reachable_self(env, p);
    } else {
        lemma_deref_reachable(env, p, (n - 1) as nat);
        let q = crate::deref::deref_steps(env, p, (n - 1) as nat);
        if let Some(r) = crate::deref::spec_dereference_once(env, q) {
            assert(content_items(env.def(q))[0] == r);
            assert(contains_directly(env, q, r));
            lemma_reachable_self(env, r);
            lemma_reachable_step(env, q, r, r);
            lemma_reachable_trans(env, p, q, r);
        }
    }
}

pub proof fn lemma_reachable_self(env: &Environment, a: ItemPtr)
    ensures
        reachable(env, a, a),
{
    let path = seq![a];
    assert(is_content_path(env, path));
}

/// `s[i]` is contained in an item placed before it in `s`, at `start` or
/// later.
pub open spec fn contained_earlier(env: &Environment, s: Seq<ItemPtr>, start: int, i: int) -> bool {
    exists|j: int| start <= j < i && #[trigger] contains_directly(env, s[j], s[i])
}

/// Each item of `s` after position `start` is contained in an item placed
/// before it, at `start` or later: the order in which a walk from `s[start]`
/// through contents discovers them.
pub open spec fn discovered_in_order(env: &Environment, s: Seq<ItemPtr>, start: int) -> bool {
    forall|i: int| start < i < s.len() ==> #[trigger] contained_earlier(env, s, start, i)
}

impl ItemPtr {
    /// Visits this item and, depth first, everything it contains that is not
    /// visited yet, recording each in `visited`.
    pub fn for_self_and_deep_contents_impl(&self, env: &Environment, visited: &mut Vec<ItemPtr>)
        requires
            env.wf(),
            env.valid_item(*self),
            old(visited)@.no_duplicates(),
            forall|i: int| 0 <= i < old(visited)@.len() ==> env.valid_item(#[trigger] old(visited)@[i]),
        ensures
            final(visited)@.no_duplicates(),
            forall|i: int| 0 <= i < final(visited)@.len() ==> env.valid_item(#[trigger] final(visited)@[i]),
            final(visited)@.len() >= old(visited)@.len(),
            final(visited)@.subrange(0, old(visited)@.len() as int) == old(visited)@,
            final(visited)@.contains(*self),
            !old(visited)@.contains(*self) ==> final(visited)@[old(visited)@.len() as int] == *self,
            old(visited)@.contains(*self) ==> final(visited)@ == old(visited)@,
            forall|i: int|
                old(visited)@.len() <= i < final(visited)@.len() ==> reachable(
                    env,
                    *self,
                    #[trigger] final(visited)@[i],
                ),
            forall|i: int, y: ItemPtr|
                old(visited)@.len() <= i < final(visited)@.len() && #[trigger] contains_directly(
                    env,
                    final(visited)@[i],
                    y,
                ) ==> final(visited)@.contains(y),
            discovered_in_order(env, final(visited)@, old(visited)@.len() as int),
        decreases env.spec_items().len() - old(visited)@.len(),
    {
        proof {
            lemma_distinct_bounded(visited@, env.spec_items().len());
        }
        let mut seen = false;
        let mut i: usize = 0;
        while i < visited.len()
            invariant
                i <= visited@.len(),
                !seen ==> forall|j: int| 0 <= j < i ==> visited@[j] != *self,
                seen ==> visited@.contains(*self),
            decreases visited@.len() - i,
        {
            if visited[i].is_same_instance_as(self) {
                seen = true;
            }
            i += 1;
        }
        if seen {
            assert(visited@.subrange(0, visited@.len() as int) =~= visited@);
            return;
        }
        let ghost start = visited@;
        visited.push(*self);
        proof {
            assert(visited@.no_duplicates()) by {
                assert forall|a: int, b: int|
                    0 <= a < visited@.len() && 0 <= b < visited@.len() && a != b implies visited@[a]
                        != visited@[b] by {
                    if a < start.len() && b < start.len() {
                        assert(start[a] != start[b]);
                    }
                }
            }
            lemma_distinct_bounded(visited@, env.spec_items().len());
            lemma_reachable_self(env, *self);
            assert(visited@[start.len() as int] == *self);
        }
        let contents = env.definition(*self).contents();
        let ghost citems = content_items(env.def(*self));
        proof {
            assert(env.item_valid(env.spec_items()[self.index() as int]));
            assert(citems.len() == contents@.len());
        }
        let mut k: usize = 0;
        while k < contents.len()
            invariant
                env.wf(),
                env.valid_item(*self),
                start == old(visited)@,
                contents@ == crate::item::definition_contents(env.def(*self)),
                citems == content_items(env.def(*self)),
                citems.len() == contents@.len(),
                env.valid_items(citems),
                k <= contents@.len(),
                visited@.no_duplicates(),
                forall|i: int| 0 <= i < visited@.len() ==> env.valid_item(#[trigger] visited@[i]),
                visited@.len() > start.len(),
                visited@.subrange(0, start.len() as int) == start,
                visited@[start.len() as int] == *self,
                forall|j: int| 0 <= j < k ==> visited@.contains(#[trigger] citems[j]),
                forall|i: int|
                    start.len() <= i < visited@.len() ==> reachable(env, *self, #[trigger] visited@[i]),
                forall|i: int, y: ItemPtr|
                    start.len() < i < visited@.len() && #[trigger] contains_directly(env, visited@[i], y)
                        ==> visited@.contains(y),
                discovered_in_order(env, visited@, start.len() as int),
            decreases contents@.len() - k,
        {
            let child = contents[k].1;
            proof {
                assert(citems[k as int] == child);
                assert(env.valid_item(citems[k as int]));
                assert(visited@.len() > start.len());
                lemma_distinct_bounded(visited@, env.spec_items().len());
            }
            let ghost before = visited@;
            child.for_self_and_deep_contents_impl(env, visited);
            proof {
                assert forall|j: int| 0 <= j < before.len() implies visited@[j] == before[j] by {
                    assert(visited@.subrange(0, before.len() as int)[j] == visited@[j]);
                }
                assert(visited@.subrange(0, start.len() as int) =~= start) by {
                    assert forall|j: int| 0 <= j < start.len() implies visited@[j] == start[j] by {
                        assert(before.subrange(0, start.len() as int)[j] == before[j]);
                    }
                }
                assert forall|j: int| 0 <= j < k + 1 implies visited@.contains(#[trigger] citems[j]) by {
                    if j < k {
                        let w = choose|w: int| 0 <= w < before.len() && before[w] == citems[j];
                        assert(visited@[w] == citems[j]);
                    }
                }
                assert(contains_directly(env, *self, child)) by {
                    assert(citems[k as int] == child);
                }
                assert forall|i: int|
                    start.len() <= i < visited@.len() implies reachable(env, *self, #[trigger] visited@[i]) by {
                    if i >= before.len() {
                        lemma_reachable_step(env, *self, child, visited@[i]);
                    } else {
                        assert(visited@[i] == before[i]);
                    }
                }
                assert forall|i: int| start.len() < i < visited@.len() implies #[trigger] contained_earlier(
                    env,
                    visited@,
                    start.len() as int,
                    i,
                ) by {
                    if i < before.len() {
                        assert(contained_earlier(env, before, start.len() as int, i));
                        let j = choose|j: int| start.len() <= j < i && #[trigger] contains_directly(env, before[j], before[i]);
                        assert(visited@[j] == before[j] && visited@[i] == before[i]);
                    } else if i == before.len() {
                        assert(!before.contains(child));
                        assert(visited@[i] == child);
                        assert(visited@[start.len() as int] == *self);
                        assert(contains_directly(env, visited@[start.len() as int], visited@[i]));
                    } else {
                        assert(contained_earlier(env, visited@, before.len() as int, i));
                        let j = choose|j: int|
                            before.len() <= j < i && #[trigger] contains_directly(env, visited@[j], visited@[i]);
                        assert(contains_directly(env, visited@[j], visited@[i]));
                    }
                }
                assert(discovered_in_order(env, visited@, start.len() as int));
                assert forall|i: int, y: ItemPtr|
                    start.len() < i < visited@.len() && #[trigger] contains_directly(env, visited@[i], y)
                        implies visited@.contains(y) by {
                    if i < before.len() {
                        assert(visited@[i] == before[i]);
                        assert(before.contains(y));
                        let w = choose|w: int| 0 <= w < before.len() && before[w] == y;
                        assert(visited@[w] == y);
                    }
                }
            }
            k += 1;
        }
        proof {
            assert forall|i: int, y: ItemPtr|
                start.len() <= i < visited@.len() && #[trigger] contains_directly(env, visited@[i], y)
                    implies visited@.contains(y) by {
                if i == start.len() {
                    assert(citems.contains(y));
                    let j = choose|j: int| 0 <= j < citems.len() && citems[j] == y;
                    assert(visited@.contains(citems[j]));
                }
            }
        }
    }

    /// Exactly the items reachable from this one, this one first.
    pub fn for_self_and_deep_contents(&self, env: &Environment) -> (r: Vec<ItemPtr>)
        requires
            env.wf(),
            env.valid_item(*self),
        ensures
            r@.no_duplicates(),
            r@.len() > 0 && r@[0] == *self,
            forall|y: ItemPtr| r@.contains(y) <==> reachable(env, *self, y),
            forall|i: int| 0 <= i < r@.len() ==> env.valid_item(#[trigger] r@[i]),
            discovered_in_order(env, r@, 0),
    {
        let mut visited: Vec<ItemPtr> = Vec::new();
        self.for_self_and_deep_contents_impl(env, &mut visited);
        proof {
            assert forall|y: ItemPtr| reachable(env, *self, y) implies visited@.contains(y) by {
                assert forall|x: ItemPtr, z: ItemPtr|
                    visited@.contains(x) && contains_directly(env, x, z) implies visited@.contains(z) by {
                    let i = choose|i: int| 0 <= i < visited@.len() && visited@[i] == x;
                    assert(contains_directly(env, visited@[i], z));
                }
                lemma_closed_contains_reachable(env, visited@, *self, y);
            }
            assert forall|y: ItemPtr| visited@.contains(y) implies reachable(env, *self, y) by {
                let i = choose|i: int| 0 <= i < visited@.len() && visited@[i] == y;
                assert(reachable(env, *self, visited@[i]));
            }
        }
        visited
    }

    /// The items this item contains directly, in order.
    pub fn visit_contents(&self, env: &Environment) -> (r: Vec<(ContainmentType, ItemPtr)>)
        requires
            env.valid_item(*self),
        ensures
            r@ == crate::item::definition_contents(env.def(*self)),
    {
        env.definition(*self).contents()
    }
}

} // verus!
