use vstd::prelude::*;

use crate::definitions::{ContainmentType, Definition, Resolvable};
use crate::diagnostic::Position;
use crate::invariants::InvariantSetPtr;

verus! {

/// A handle on an item of an `Environment`; two handles are the same instance
/// exactly when they are equal.
#[derive(Clone, Copy, Debug, PartialEq, Eq, Structural, Hash)]
pub struct ItemPtr(pub usize);

impl ItemPtr {
    pub open spec fn index(self) -> nat {
        self.0 as nat
    }

    pub fn is_same_instance_as(&self, other: &Self) -> (r: bool)
        ensures
            r == (*self == *other),
    {
        self.0 == other.0
    }

    pub fn ptr_clone(&self) -> (r: Self)
        ensures
            r == *self,
    {
        *self
    }
}

/// Where an item looks up the names it uses and the invariants available to
/// it.
#[derive(Clone, Copy, Debug, PartialEq, Eq, Structural)]
pub enum Scope {
    /// The outermost scope: it knows no names.
    Root,
    /// A scope with no names of its own, inside the scope of an item.
    Plain(ItemPtr),
    /// The label of the tail field of a structure item.
    Field(ItemPtr),
    /// Every label of a structure item.
    FieldAndRest(ItemPtr),
    /// `SELF`, standing for a variable item.
    VariableInvariants(ItemPtr),
    /// An invariant set made available inside the scope of an item.
    WithInvariant(InvariantSetPtr, ItemPtr),
}

impl Scope {
    /// The item whose scope encloses this one.
    pub open spec fn spec_parent(self) -> Option<ItemPtr> {
        match self {
            Scope::Root => None,
            Scope::Plain(p) => Some(p),
            Scope::Field(p) => Some(p),
            Scope::FieldAndRest(p) => Some(p),
            Scope::VariableInvariants(p) => Some(p),
            Scope::WithInvariant(_, p) => Some(p),
        }
    }

    pub fn parent(&self) -> (r: Option<ItemPtr>)
        ensures
            r == self.spec_parent(),
    {
        match self {
            Scope::Root => None,
            Scope::Plain(p) => Some(*p),
            Scope::Field(p) => Some(*p),
            Scope::FieldAndRest(p) => Some(*p),
            Scope::VariableInvariants(p) => Some(*p),
            Scope::WithInvariant(_, p) => Some(*p),
        }
    }
}

/// An item: its definition, the scope it was written in, and what has been
/// computed about it.
#[derive(Debug)]
pub struct Item {
    pub position: Option<Position>,
    pub definition: Definition,
    pub scope: Scope,
    pub invariants: Option<InvariantSetPtr>,
    /// A dex that, when a value is plugged in for its first dependency, will
    /// evaluate to true if and only if the plugged in value could have been
    /// generated by this construct.
    pub from_dex: Option<ItemPtr>,
    pub name: Option<String>,
    pub show: bool,
}

/// The items a list of items contains, all with the same containment type.
pub open spec fn contained_as(t: ContainmentType, items: Seq<ItemPtr>) -> Seq<
    (ContainmentType, ItemPtr),
> {
    items.map_values(|i: ItemPtr| (t, i))
}

/// The values of a list of substitution entries.
pub open spec fn sub_values(entries: Seq<(crate::variable::VariablePtr, ItemPtr)>) -> Seq<ItemPtr> {
    entries.map_values(|e: (crate::variable::VariablePtr, ItemPtr)| e.1)
}

/// What a definition contains, and how.
pub open spec fn definition_contents(def: Definition) -> Seq<(ContainmentType, ItemPtr)> {
    match def {
        Definition::Placeholder(_) => Seq::empty(),
        Definition::Unique(_) => Seq::empty(),
        Definition::Other(d) => seq![(ContainmentType::Computational, d.other)],
        Definition::Variable(d) => contained_as(ContainmentType::Definitional, d.1@),
        Definition::Decision(d) => seq![
            (ContainmentType::Computational, d.left),
            (ContainmentType::Computational, d.right),
            (ContainmentType::Computational, d.when_equal),
            (ContainmentType::Computational, d.when_not_equal),
        ],
        Definition::PopulatedStruct(d) => seq![
            (ContainmentType::Computational, d.body),
            (ContainmentType::Computational, d.value),
        ],
        Definition::Substitution(d) => seq![(ContainmentType::Computational, d.base)]
            + contained_as(ContainmentType::Computational, sub_values(d.subs@)),
        Definition::BuiltinFunction(d) => contained_as(ContainmentType::Definitional, d.args@),
        Definition::Axiom(d) => seq![(ContainmentType::Definitional, d.statement)] + contained_as(
            ContainmentType::Definitional,
            d.relying_on@,
        ),
        Definition::Resolvable(d) => match d.0 {
            Resolvable::Identifier(_) => Seq::empty(),
            Resolvable::NamedMember(r) => seq![(ContainmentType::Computational, r.base)],
            Resolvable::Variable(r) => contained_as(ContainmentType::Definitional, r.invariants@)
                + contained_as(ContainmentType::Definitional, r.dependencies@),
            Resolvable::Placeholder(_) => Seq::empty(),
            Resolvable::Substitution(r) => seq![(ContainmentType::Computational, r.base)] + contained_as(
                ContainmentType::Computational,
                named_values(r.named_subs@),
            ) + contained_as(ContainmentType::Definitional, named_values(r.named_proofs@)) + contained_as(
                ContainmentType::Computational,
                r.anonymous_subs@,
            ),
            Resolvable::From(r) => seq![
                (ContainmentType::Computational, r.left),
                (ContainmentType::Definitional, r.right),
            ],
        },
    }
}

/// The values of a list of named entries.
pub open spec fn named_values(entries: Seq<(Position, String, ItemPtr)>) -> Seq<ItemPtr> {
    entries.map_values(|e: (Position, String, ItemPtr)| e.2)
}

/// Appends the values of named entries to `out`, all with containment type
/// `t`.
fn push_named(out: &mut Vec<(ContainmentType, ItemPtr)>, t: ContainmentType, entries: &[(Position, String, ItemPtr)])
    ensures
        final(out)@ == old(out)@ + contained_as(t, named_values(entries@)),
{
    let ghost start = out@;
    let mut i: usize = 0;
    while i < entries.len()
        invariant
            i <= entries@.len(),
            out@ == start + contained_as(t, named_values(entries@.take(i as int))),
        decreases entries@.len() - i,
    {
        out.push((t, entries[i].2));
        i += 1;
        assert(contained_as(t, named_values(entries@.take(i as int))) =~= contained_as(
            t,
            named_values(entries@.take(i - 1)),
        ).push((t, entries@[i - 1].2)));
    }
    assert(entries@.take(i as int) =~= entries@);
}

/// The items a definition contains.
pub open spec fn content_items(def: Definition) -> Seq<ItemPtr> {
    definition_contents(def).map_values(|c: (ContainmentType, ItemPtr)| c.1)
}

/// Appends the items of `items` to `out`, all with containment type `t`.
fn push_contained(out: &mut Vec<(ContainmentType, ItemPtr)>, t: ContainmentType, items: &[ItemPtr])
    ensures
        final(out)@ == old(out)@ + contained_as(t, items@),
{
    let ghost start = out@;
    let mut i: usize = 0;
    while i < items.len()
        invariant
            i <= items@.len(),
            out@ == start + contained_as(t, items@.take(i as int)),
        decreases items@.len() - i,
    {
        out.push((t, items[i]));
        i += 1;
        assert(contained_as(t, items@.take(i as int)) =~= contained_as(t, items@.take(i - 1)).push(
            (t, items@[i - 1]),
        ));
    }
    assert(items@.take(i as int) =~= items@);
}

impl Definition {
    /// What this definition contains, and how.
    pub fn contents(&self) -> (r: Vec<(ContainmentType, ItemPtr)>)
        ensures
            r@ == definition_contents(*self),
    {
        let mut out: Vec<(ContainmentType, ItemPtr)> = Vec::new();
        match self {
            Definition::Placeholder(_) => {},
            Definition::Unique(_) => {},
            Definition::Other(d) => {
                out.push((ContainmentType::Computational, d.other));
            },
            Definition::Variable(d) => {
                push_contained(&mut out, ContainmentType::Definitional, d.1.as_slice());
            },
            Definition::Decision(d) => {
                out.push((ContainmentType::Computational, d.left));
                out.push((ContainmentType::Computational, d.right));
                out.push((ContainmentType::Computational, d.when_equal));
                out.push((ContainmentType::Computational, d.when_not_equal));
            },
            Definition::PopulatedStruct(d) => {
                out.push((ContainmentType::Computational, d.body));
                out.push((ContainmentType::Computational, d.value));
            },
            Definition::Substitution(d) => {
                out.push((ContainmentType::Computational, d.base));
                let entries = d.subs.iter_entries();
                let ghost start = out@;
                let mut i: usize = 0;
                while i < entries.len()
                    invariant
                        i <= entries@.len(),
                        entries@ == d.subs@,
                        out@ == start + contained_as(
                            ContainmentType::Computational,
                            sub_values(entries@.take(i as int)),
                        ),
                    decreases entries@.len() - i,
                {
                    out.push((ContainmentType::Computational, entries[i].1));
                    i += 1;
                    assert(contained_as(
                        ContainmentType::Computational,
                        sub_values(entries@.take(i as int)),
                    ) =~= contained_as(
                        ContainmentType::Computational,
                        sub_values(entries@.take(i - 1)),
                    ).push((ContainmentType::Computational, entries@[i - 1].1)));
                }
                assert(entries@.take(i as int) =~= entries@);
            },
            Definition::BuiltinFunction(d) => {
                push_contained(&mut out, ContainmentType::Definitional, d.args.as_slice());
            },
            Definition::Axiom(d) => {
                out.push((ContainmentType::Definitional, d.statement));
                push_contained(&mut out, ContainmentType::Definitional, d.relying_on.as_slice());
            },
            Definition::Resolvable(d) => match &d.0 {
                Resolvable::Identifier(_) => {},
                Resolvable::NamedMember(r) => {
                    out.push((ContainmentType::Computational, r.base));
                },
                Resolvable::Variable(r) => {
                    push_contained(&mut out, ContainmentType::Definitional, r.invariants.as_slice());
                    push_contained(
                        &mut out,
                        ContainmentType::Definitional,
                        r.dependencies.as_slice(),
                    );
                },
                Resolvable::Placeholder(_) => {},
                Resolvable::Substitution(r) => {
                    out.push((ContainmentType::Computational, r.base));
                    push_named(&mut out, ContainmentType::Computational, r.named_subs.as_slice());
                    push_named(&mut out, ContainmentType::Definitional, r.named_proofs.as_slice());
                    push_contained(&mut out, ContainmentType::Computational, r.anonymous_subs.as_slice());
                },
                Resolvable::From(r) => {
                    out.push((ContainmentType::Computational, r.left));
                    out.push((ContainmentType::Definitional, r.right));
                },
            },
        }
        proof {
            assert(out@ =~= definition_contents(*self));
        }
        out
    }
}

} // verus!
