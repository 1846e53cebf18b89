use vstd::prelude::*;

use crate::item::ItemPtr;

verus! {

/// Where a variable stands among the variables a dex depends on: first by the
/// explicitly given order, then by the file, then by the position in the
/// file.
#[derive(Clone, Copy, Debug, PartialEq, Eq, Structural, Hash)]
pub struct VariableOrder {
    /// Explicitly defined order, 0-255.
    pub major_order: u8,
    /// Implicit order by which file it's in.
    pub file_order: u32,
    /// Implicit order by position in file.
    pub minor_order: u32,
}

impl VariableOrder {
    pub fn new(major_order: u8, file_order: u32, minor_order: u32) -> (r: Self)
        ensures
            r.major_order == major_order,
            r.file_order == file_order,
            r.minor_order == minor_order,
    {
        Self { major_order, file_order, minor_order }
    }

    /// The lexicographic order on (major, file, minor).
    pub open spec fn spec_lt(self, other: Self) -> bool {
        ||| self.major_order < other.major_order
        ||| self.major_order == other.major_order && self.file_order < other.file_order
        ||| self.major_order == other.major_order && self.file_order == other.file_order
            && self.minor_order < other.minor_order
    }

    pub fn lt(&self, other: &Self) -> (r: bool)
        ensures
            r == self.spec_lt(*other),
    {
        self.major_order < other.major_order || (self.major_order == other.major_order
            && self.file_order < other.file_order) || (self.major_order == other.major_order
            && self.file_order == other.file_order && self.minor_order < other.minor_order)
    }

    pub fn equals(&self, other: &Self) -> (r: bool)
        ensures
            r == (*self == *other),
    {
        self.major_order == other.major_order && self.file_order == other.file_order
            && self.minor_order == other.minor_order
    }
}

/// `VariableOrder::spec_lt` is a strict total order.
pub proof fn lemma_variable_order_strict_total(a: VariableOrder, b: VariableOrder, c: VariableOrder)
    ensures
        !a.spec_lt(a),
        a.spec_lt(b) && b.spec_lt(c) ==> a.spec_lt(c),
        a.spec_lt(b) ==> !b.spec_lt(a),
        a == b || a.spec_lt(b) || b.spec_lt(a),
{
}

/// Where an order stands among all orders, as one number: the explicit order
/// weighs most, then the file, then the position in the file.
pub open spec fn order_rank(o: VariableOrder) -> int {
    o.major_order as int * 0x1_0000_0000_0000_0000 + o.file_order as int * 0x1_0000_0000 + o.minor_order as int
}

/// Variables are ordered first by their explicit order, then by the file
/// they are in, and only then by their position in the file: one order
/// comes before another exactly when its rank is smaller. So of two
/// variables with the same explicit order, the one in the earlier file comes
/// first, wherever each stands in its file.
pub proof fn law_variable_order_is_lexicographic(a: VariableOrder, b: VariableOrder)
    ensures
        a.spec_lt(b) <==> order_rank(a) < order_rank(b),
        a.major_order < b.major_order ==> a.spec_lt(b),
        a.major_order == b.major_order && a.file_order < b.file_order ==> a.spec_lt(b) && !b.spec_lt(a),
        a.major_order == b.major_order && a.file_order == b.file_order ==> (a.spec_lt(b)
            <==> a.minor_order < b.minor_order),
{
}

/// A handle on a variable of an `Environment`.
#[derive(Clone, Copy, Debug, PartialEq, Eq, Structural, Hash)]
pub struct VariablePtr(pub usize);

impl VariablePtr {
    pub open spec fn index(self) -> nat {
        self.0 as nat
    }

    pub fn is_same_instance_as(&self, other: &Self) -> (r: bool)
        ensures
            r == (*self == *other),
    {
        self.0 == other.0
    }

    pub fn ptr_clone(&self) -> (r: Self)
        ensures
            r == *self,
    {
        *self
    }
}

/// A variable: the item that stands for it, the statements that must hold of
/// whatever replaces it, the items it depends on, and its order.
#[derive(Clone, Debug, PartialEq, Eq)]
pub struct Variable {
    pub(crate) item: ItemPtr,
    pub(crate) invariants: Vec<ItemPtr>,
    pub(crate) dependencies: Vec<ItemPtr>,
    pub(crate) order: VariableOrder,
}

impl Variable {
    pub closed spec fn spec_item(&self) -> ItemPtr {
        self.item
    }

    pub closed spec fn spec_invariants(&self) -> Seq<ItemPtr> {
        self.invariants@
    }

    pub closed spec fn spec_dependencies(&self) -> Seq<ItemPtr> {
        self.dependencies@
    }

    pub closed spec fn spec_order(&self) -> VariableOrder {
        self.order
    }

    pub fn new(item: ItemPtr, invariants: Vec<ItemPtr>, dependencies: Vec<ItemPtr>, order: VariableOrder) -> (v: Self)
        ensures
            v.spec_item() == item,
            v.spec_invariants() == invariants@,
            v.spec_dependencies() == dependencies@,
            v.spec_order() == order,
    {
        Variable { item, invariants, dependencies, order }
    }

    pub fn item(&self) -> (r: &ItemPtr)
        ensures
            *r == self.spec_item(),
    {
        &self.item
    }

    pub fn invariants(&self) -> (r: &[ItemPtr])
        ensures
            r@ == self.spec_invariants(),
    {
        self.invariants.as_slice()
    }

    pub fn dependencies(&self) -> (r: &[ItemPtr])
        ensures
            r@ == self.spec_dependencies(),
    {
        self.dependencies.as_slice()
    }

    pub fn order(&self) -> (r: &VariableOrder)
        ensures
            *r == self.spec_order(),
    {
        &self.order
    }
}

} // verus!
