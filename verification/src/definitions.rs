use vstd::prelude::*;

use crate::diagnostic::Position;
use crate::invariants::InvariantSetPtr;
use crate::item::ItemPtr;
use crate::substitutions::Substitutions;
use crate::variable::VariableOrder;
use crate::variable::VariablePtr;

verus! {

#[derive(Clone, Copy, PartialEq, Eq, Debug, Structural)]
pub enum ContainmentType {
    /// Use this if computing a term would cause the contained term to be
    /// computed.
    Computational,
    /// Use this when Computational containment is not an accurate description.
    Definitional,
}

/// An item that stands in for a definition that is not known yet.
#[derive(Clone, Debug, PartialEq, Eq)]
pub struct DPlaceholder {
    pub name: String,
}

/// The identity of a unique item; distinct uniques have distinct identities.
#[derive(Clone, Copy, Debug, PartialEq, Eq, Structural, Hash)]
pub struct Unique(pub u64);

/// An item equal only to itself (and to items sharing its identity).
#[derive(Clone, Copy, Debug, PartialEq, Eq, Structural)]
pub struct DUnique(pub Unique);

impl DUnique {
    pub fn new(identity: Unique) -> (r: Self)
        ensures
            r.0 == identity,
    {
        DUnique(identity)
    }
}

/// An item that is another item under a second name.
#[derive(Clone, Copy, Debug, PartialEq, Eq, Structural)]
pub struct DOther {
    pub other: ItemPtr,
}

impl DOther {
    pub fn new(other: ItemPtr) -> (r: Self)
        ensures
            r.other == other,
    {
        Self { other }
    }

    pub fn other(&self) -> (r: &ItemPtr)
        ensures
            *r == self.other,
    {
        &self.other
    }
}

/// An item that is a variable, with the invariants and dependencies of that
/// variable as its contents.
#[derive(Debug)]
pub struct DVariable(pub VariablePtr, pub Vec<ItemPtr>);

impl DVariable {
    pub fn get_variable(&self) -> (r: &VariablePtr)
        ensures
            *r == self.0,
    {
        &self.0
    }

    pub fn clone_def(&self) -> (r: Self)
        ensures
            r.0 == self.0,
            r.1@ == self.1@,
    {
        DVariable(self.0, clone_items(&self.1))
    }
}

/// Equals `when_equal` when `left` equals `right`, else `when_not_equal`.
#[derive(Clone, Copy, Debug, PartialEq, Eq, Structural)]
pub struct DDecision {
    pub left: ItemPtr,
    pub right: ItemPtr,
    pub when_equal: ItemPtr,
    pub when_not_equal: ItemPtr,
}

impl DDecision {
    pub fn new(left: ItemPtr, right: ItemPtr, when_equal: ItemPtr, when_not_equal: ItemPtr) -> (r:
        Self)
        ensures
            r.left == left,
            r.right == right,
            r.when_equal == when_equal,
            r.when_not_equal == when_not_equal,
    {
        Self { left, right, when_equal, when_not_equal }
    }

    pub fn left(&self) -> (r: &ItemPtr)
        ensures
            *r == self.left,
    {
        &self.left
    }

    pub fn right(&self) -> (r: &ItemPtr)
        ensures
            *r == self.right,
    {
        &self.right
    }

    pub fn when_equal(&self) -> (r: &ItemPtr)
        ensures
            *r == self.when_equal,
    {
        &self.when_equal
    }

    pub fn when_not_equal(&self) -> (r: &ItemPtr)
        ensures
            *r == self.when_not_equal,
    {
        &self.when_not_equal
    }

    pub fn set_when_equal(&mut self, when_equal: ItemPtr)
        ensures
            *final(self) == (DDecision { when_equal, ..*old(self) }),
    {
        self.when_equal = when_equal;
    }
}

/// A structure: a body (the rest of the structure) with one more labelled
/// field at its tail.
#[derive(Debug)]
pub struct DPopulatedStruct {
    pub body: ItemPtr,
    pub label: String,
    pub value: ItemPtr,
}

impl DPopulatedStruct {
    pub fn new(body: ItemPtr, label: String, value: ItemPtr) -> (r: Self)
        ensures
            r.body == body,
            r.label@ == label@,
            r.value == value,
    {
        Self { body, label, value }
    }

    pub fn get_body(&self) -> (r: &ItemPtr)
        ensures
            *r == self.body,
    {
        &self.body
    }

    pub fn get_tail_label(&self) -> (r: &str)
        ensures
            r@ == self.label@,
    {
        self.label.as_str()
    }

    pub fn get_tail_value(&self) -> (r: &ItemPtr)
        ensures
            *r == self.value,
    {
        &self.value
    }

    pub fn clone_def(&self) -> (r: Self)
        ensures
            r.body == self.body,
            r.label@ == self.label@,
            r.value == self.value,
    {
        Self { body: self.body, label: self.label.clone(), value: self.value }
    }
}

/// The base item with variables replaced by items. `invs` holds what must be
/// justified for the replacement to be sound; an unchecked substitution has
/// nothing to justify.
#[derive(Debug)]
pub struct DSubstitution {
    pub base: ItemPtr,
    pub subs: Substitutions,
    pub invs: InvariantSetPtr,
}

impl DSubstitution {
    pub fn new(base: ItemPtr, subs: Substitutions, invs: InvariantSetPtr) -> (r: Self)
        ensures
            r.base == base,
            r.subs@ == subs@,
            r.subs.wf() == subs.wf(),
            r.invs == invs,
    {
        Self { base, subs, invs }
    }

    pub fn base(&self) -> (r: &ItemPtr)
        ensures
            *r == self.base,
    {
        &self.base
    }

    pub fn substitutions(&self) -> (r: &Substitutions)
        ensures
            r@ == self.subs@,
            r.wf() == self.subs.wf(),
    {
        &self.subs
    }

    pub fn clone_def(&self) -> (r: Self)
        ensures
            r.base == self.base,
            r.subs@ == self.subs@,
            r.subs.wf() == self.subs.wf(),
            r.invs == self.invs,
    {
        Self { base: self.base, subs: self.subs.clone_subs(), invs: self.invs }
    }
}

#[derive(Clone, Copy, Debug, PartialEq, Eq, Structural)]
pub enum BuiltinFunction {
    Decision,
    Body,
    TailLabel,
    TailValue,
    HasTail,
}

/// A builtin function of the language, with the items that stand for its
/// parameters.
#[derive(Debug)]
pub struct DBuiltinFunction {
    pub func: BuiltinFunction,
    pub args: Vec<ItemPtr>,
}

impl DBuiltinFunction {
    pub fn get_function(&self) -> (r: BuiltinFunction)
        ensures
            r == self.func,
    {
        self.func
    }

    pub fn clone_def(&self) -> (r: Self)
        ensures
            r.func == self.func,
            r.args@ == self.args@,
    {
        Self { func: self.func, args: clone_items(&self.args) }
    }
}

/// A statement taken as true, relying on some variables.
#[derive(Debug)]
pub struct DAxiom {
    pub statement: ItemPtr,
    pub relying_on: Vec<ItemPtr>,
}

impl DAxiom {
    pub fn clone_def(&self) -> (r: Self)
        ensures
            r.statement == self.statement,
            r.relying_on@ == self.relying_on@,
    {
        Self { statement: self.statement, relying_on: clone_items(&self.relying_on) }
    }
}

/// An identifier still to be looked up in the scope of its item.
#[derive(Clone, Debug, PartialEq, Eq)]
pub struct RIdentifier(pub String);

/// A member of a structure, looked up by its label.
#[derive(Debug)]
pub struct RNamedMember {
    pub base: ItemPtr,
    pub member_name: String,
    pub position: Position,
}

/// A variable still to be created.
#[derive(Debug)]
pub struct RVariable {
    pub invariants: Vec<ItemPtr>,
    pub dependencies: Vec<ItemPtr>,
    pub order: VariableOrder,
}

/// A placeholder that never resolves.
#[derive(Clone, Copy, Debug, PartialEq, Eq, Structural)]
pub struct RPlaceholder;

/// The base with some of its dependencies replaced: by name, by the text of
/// the requirement they prove, or in order.
#[derive(Debug)]
pub struct RSubstitution {
    pub base: ItemPtr,
    pub position: Position,
    pub named_subs: Vec<(Position, String, ItemPtr)>,
    pub named_proofs: Vec<(Position, String, ItemPtr)>,
    pub anonymous_subs: Vec<ItemPtr>,
}

/// True of `left` exactly when `left` could have been produced by `right`.
#[derive(Clone, Copy, Debug, PartialEq, Eq, Structural)]
pub struct RFrom {
    pub left: ItemPtr,
    pub right: ItemPtr,
}

/// Something that becomes a definition once what it refers to is known.
#[derive(Debug)]
pub enum Resolvable {
    Identifier(RIdentifier),
    NamedMember(RNamedMember),
    Variable(RVariable),
    Placeholder(RPlaceholder),
    Substitution(RSubstitution),
    From(RFrom),
}

impl Resolvable {
    pub open spec fn spec_is_placeholder(&self) -> bool {
        self is Placeholder
    }

    pub fn is_placeholder(&self) -> (r: bool)
        ensures
            r == self.spec_is_placeholder(),
    {
        match self {
            Resolvable::Placeholder(_) => true,
            _ => false,
        }
    }
}

/// An item whose definition is not resolved yet.
#[derive(Debug)]
pub struct DResolvable(pub Resolvable);

impl DResolvable {
    pub fn new(resolvable: Resolvable) -> (r: Self)
        ensures
            r.0 == resolvable,
    {
        Self(resolvable)
    }

    pub fn resolvable(&self) -> (r: &Resolvable)
        ensures
            *r == self.0,
    {
        &self.0
    }
}

/// What an item is.
#[derive(Debug)]
pub enum Definition {
    Placeholder(DPlaceholder),
    Unique(DUnique),
    Other(DOther),
    Variable(DVariable),
    Decision(DDecision),
    PopulatedStruct(DPopulatedStruct),
    Substitution(DSubstitution),
    BuiltinFunction(DBuiltinFunction),
    Axiom(DAxiom),
    Resolvable(DResolvable),
}

/// Copies a list of item handles.
pub fn clone_items(items: &Vec<ItemPtr>) -> (r: Vec<ItemPtr>)
    ensures
        r@ == items@,
{
    let mut r: Vec<ItemPtr> = Vec::new();
    let mut i: usize = 0;
    while i < items.len()
        invariant
            i <= items@.len(),
            r@ == items@.take(i as int),
        decreases items@.len() - i,
    {
        r.push(items[i]);
        i += 1;
        assert(r@ =~= items@.take(i as int));
    }
    assert(items@.take(i as int) =~= items@);
    r
}

/// A copy of a slice of items.
pub fn clone_slice(items: &[ItemPtr]) -> (r: Vec<ItemPtr>)
    ensures
        r@ == items@,
{
    let mut r: Vec<ItemPtr> = Vec::new();
    let mut i: usize = 0;
    while i < items.len()
        invariant
            i <= items@.len(),
            r@ == items@.take(i as int),
        decreases items@.len() - i,
    {
        r.push(items[i]);
        i += 1;
        assert(r@ =~= items@.take(i as int));
    }
    assert(items@.take(i as int) =~= items@);
    r
}

/// A copy of a list of named entries.
pub fn clone_named(entries: &Vec<(Position, String, ItemPtr)>) -> (r: Vec<(Position, String, ItemPtr)>)
    ensures
        r@ == entries@,
{
    let mut r: Vec<(Position, String, ItemPtr)> = Vec::new();
    let mut i: usize = 0;
    while i < entries.len()
        invariant
            i <= entries@.len(),
            r@ == entries@.take(i as int),
        decreases entries@.len() - i,
    {
        let e = &entries[i];
        r.push((e.0, e.1.clone(), e.2));
        i += 1;
        assert(r@ =~= entries@.take(i as int));
    }
    assert(entries@.take(i as int) =~= entries@);
    r
}

} // verus!
