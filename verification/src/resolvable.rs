use vstd::prelude::*;

use crate::definitions::{DResolvable, RNamedMember, RSubstitution, RVariable, Resolvable};
use crate::diagnostic::{Diagnostic, Position};
use crate::item::ItemPtr;
use vstd::std_specs::cmp::PartialEqSpecImpl;

verus! {

/// The item that had to be resolved before a computation could go on.
#[derive(Clone, Copy, Debug, PartialEq, Eq, Structural, Hash)]
pub struct UnresolvedItemError(pub ItemPtr);

/// Why an item could not be resolved.
#[derive(Clone, Debug)]
pub enum ResolveError {
    Unresolved(UnresolvedItemError),
    InvariantDeadEnd(String),
    MaybeInvariantDoesNotExist,
    Placeholder,
    Diagnostic(Diagnostic),
}

impl From<UnresolvedItemError> for ResolveError {
    fn from(v: UnresolvedItemError) -> (r: Self) {
        Self::Unresolved(v)
    }
}

impl vstd::std_specs::convert::FromSpecImpl<UnresolvedItemError> for ResolveError {
    open spec fn obeys_from_spec() -> bool {
        true
    }

    open spec fn from_spec(v: UnresolvedItemError) -> Self {
        ResolveError::Unresolved(v)
    }
}

/// The position of the first of `entries` named `name`.
pub open spec fn first_named(entries: Seq<(Position, String, ItemPtr)>, name: Seq<char>) -> Option<int>
    decreases entries.len(),
{
    if entries.len() == 0 {
        None
    } else if entries[0].1@ == name {
        Some(0)
    } else {
        match first_named(entries.drop_first(), name) {
            Some(i) => Some(i + 1),
            None => None,
        }
    }
}

proof fn lemma_first_named(entries: Seq<(Position, String, ItemPtr)>, name: Seq<char>)
    ensures
        first_named(entries, name) matches Some(j) ==> 0 <= j < entries.len() && entries[j].1@ == name && forall|m: int|
            0 <= m < j ==> entries[m].1@ != name,
        first_named(entries, name) is None ==> forall|m: int| 0 <= m < entries.len() ==> entries[m].1@ != name,
    decreases entries.len(),
{
    if entries.len() > 0 {
        lemma_first_named(entries.drop_first(), name);
        if entries[0].1@ != name {
            assert forall|m: int| 1 <= m < entries.len() implies entries[m].1@ == entries.drop_first()[m - 1].1@ by {}
        }
    }
}

/// The entry `entry` is matched in `others`: the first entry there with its
/// name gives the same item.
pub open spec fn named_matched(others: Seq<(Position, String, ItemPtr)>, entry: (Position, String, ItemPtr)) -> bool {
    first_named(others, entry.1@) matches Some(j) && others[j].2 == entry.2
}

/// Two substitutions still to be resolved are the same: the same base, the
/// same named values, whatever their order, and the same values in order.
pub open spec fn substitution_same(a: RSubstitution, b: RSubstitution) -> bool {
    &&& a.base == b.base
    &&& a.named_subs@.len() == b.named_subs@.len()
    &&& a.anonymous_subs@ == b.anonymous_subs@
    &&& forall|i: int| 0 <= i < a.named_subs@.len() ==> named_matched(b.named_subs@, #[trigger] a.named_subs@[i])
}

impl PartialEq for RSubstitution {
    fn eq(&self, other: &Self) -> (r: bool) {
        if !self.base.is_same_instance_as(&other.base) || self.named_subs.len() != other.named_subs.len()
            || self.anonymous_subs.len() != other.anonymous_subs.len() {
            return false;
        }
        let mut i: usize = 0;
        while i < self.named_subs.len()
            invariant
                i <= self.named_subs@.len(),
                forall|k: int| 0 <= k < i ==> named_matched(other.named_subs@, #[trigger] self.named_subs@[k]),
            decreases self.named_subs@.len() - i,
        {
            let key = &self.named_subs[i].1;
            let value = self.named_subs[i].2;
            let mut j: usize = 0;
            let mut found = false;
            while j < other.named_subs.len()
                invariant
                    j <= other.named_subs@.len(),
                    i < self.named_subs@.len(),
                    *key == self.named_subs@[i as int].1,
                    value == self.named_subs@[i as int].2,
                    !found ==> forall|m: int| 0 <= m < j ==> other.named_subs@[m].1@ != key@,
                    found ==> j < other.named_subs@.len() && other.named_subs@[j as int].1@ == key@ && other.named_subs@[j as int].2
                        == value && forall|m: int| 0 <= m < j ==> other.named_subs@[m].1@ != key@,
                ensures
                    !found ==> j == other.named_subs@.len(),
                decreases other.named_subs@.len() - j,
            {
                if *key == other.named_subs[j].1 {
                    if value.is_same_instance_as(&other.named_subs[j].2) {
                        found = true;
                        break;
                    } else {
                        proof {
                            lemma_first_named(other.named_subs@, key@);
                            if let Some(f) = first_named(other.named_subs@, key@) {
                                assert(f == j);
                            }
                            assert(!named_matched(other.named_subs@, self.named_subs@[i as int]));
                        }
                        return false;
                    }
                }
                j += 1;
            }
            proof {
                lemma_first_named(other.named_subs@, key@);
            }
            if !found {
                proof {
                    assert(!named_matched(other.named_subs@, self.named_subs@[i as int]));
                }
                return false;
            }
            proof {
                let f = first_named(other.named_subs@, key@)->0;
                if f < j {
                } else if f > j {
                }
                assert(f == j);
            }
            i += 1;
        }
        let mut k: usize = 0;
        while k < self.anonymous_subs.len()
            invariant
                k <= self.anonymous_subs@.len(),
                self.anonymous_subs@.len() == other.anonymous_subs@.len(),
                forall|m: int| 0 <= m < k ==> self.anonymous_subs@[m] == other.anonymous_subs@[m],
            decreases self.anonymous_subs@.len() - k,
        {
            if !self.anonymous_subs[k].is_same_instance_as(&other.anonymous_subs[k]) {
                return false;
            }
            k += 1;
        }
        proof {
            assert(self.anonymous_subs@ =~= other.anonymous_subs@);
        }
        true
    }
}

impl PartialEqSpecImpl for RSubstitution {
    open spec fn obeys_eq_spec() -> bool {
        true
    }

    open spec fn eq_spec(&self, other: &RSubstitution) -> bool {
        substitution_same(*self, *other)
    }
}

/// Two variables still to be created are the same: the same invariants and
/// dependencies in order, and the same order.
pub open spec fn variable_same(a: RVariable, b: RVariable) -> bool {
    &&& a.invariants@ == b.invariants@
    &&& a.dependencies@ == b.dependencies@
    &&& a.order == b.order
}

fn same_items(a: &Vec<ItemPtr>, b: &Vec<ItemPtr>) -> (r: bool)
    ensures
        r == (a@ == b@),
{
    if a.len() != b.len() {
        return false;
    }
    let mut k: usize = 0;
    while k < a.len()
        invariant
            k <= a@.len(),
            a@.len() == b@.len(),
            forall|m: int| 0 <= m < k ==> a@[m] == b@[m],
        decreases a@.len() - k,
    {
        if !a[k].is_same_instance_as(&b[k]) {
            return false;
        }
        k += 1;
    }
    proof {
        assert(a@ =~= b@);
    }
    true
}

impl PartialEq for RVariable {
    fn eq(&self, other: &Self) -> (r: bool) {
        same_items(&self.invariants, &other.invariants) && same_items(&self.dependencies, &other.dependencies)
            && self.order == other.order
    }
}

impl PartialEqSpecImpl for RVariable {
    open spec fn obeys_eq_spec() -> bool {
        true
    }

    open spec fn eq_spec(&self, other: &RVariable) -> bool {
        variable_same(*self, *other)
    }
}

impl PartialEq for RNamedMember {
    fn eq(&self, other: &Self) -> (r: bool) {
        self.base.is_same_instance_as(&other.base) && self.member_name == other.member_name
    }
}

impl PartialEqSpecImpl for RNamedMember {
    open spec fn obeys_eq_spec() -> bool {
        true
    }

    open spec fn eq_spec(&self, other: &RNamedMember) -> bool {
        self.base == other.base && self.member_name@ == other.member_name@
    }
}

/// Two definitions still to be resolved are the same: of the same kind,
/// and the same as that kind compares.
pub open spec fn resolvable_same(a: Resolvable, b: Resolvable) -> bool {
    match (a, b) {
        (Resolvable::Identifier(x), Resolvable::Identifier(y)) => x.0@ == y.0@,
        (Resolvable::NamedMember(x), Resolvable::NamedMember(y)) => x.base == y.base && x.member_name@
            == y.member_name@,
        (Resolvable::Variable(x), Resolvable::Variable(y)) => variable_same(x, y),
        (Resolvable::Placeholder(_), Resolvable::Placeholder(_)) => true,
        (Resolvable::Substitution(x), Resolvable::Substitution(y)) => substitution_same(x, y),
        (Resolvable::From(x), Resolvable::From(y)) => x == y,
        _ => false,
    }
}

impl PartialEq for Resolvable {
    fn eq(&self, other: &Self) -> (r: bool) {
        match (self, other) {
            (Resolvable::Identifier(x), Resolvable::Identifier(y)) => x.0 == y.0,
            (Resolvable::NamedMember(x), Resolvable::NamedMember(y)) => x == y,
            (Resolvable::Variable(x), Resolvable::Variable(y)) => x == y,
            (Resolvable::Placeholder(_), Resolvable::Placeholder(_)) => true,
            (Resolvable::Substitution(x), Resolvable::Substitution(y)) => x == y,
            (Resolvable::From(x), Resolvable::From(y)) => x == y,
            _ => false,
        }
    }
}

impl PartialEqSpecImpl for Resolvable {
    open spec fn obeys_eq_spec() -> bool {
        true
    }

    open spec fn eq_spec(&self, other: &Resolvable) -> bool {
        resolvable_same(*self, *other)
    }
}

impl PartialEq for DResolvable {
    fn eq(&self, other: &Self) -> (r: bool) {
        self.0 == other.0
    }
}

impl PartialEqSpecImpl for DResolvable {
    open spec fn obeys_eq_spec() -> bool {
        true
    }

    open spec fn eq_spec(&self, other: &DResolvable) -> bool {
        resolvable_same(self.0, other.0)
    }
}

} // verus!
