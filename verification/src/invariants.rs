use vstd::prelude::*;

use crate::item::ItemPtr;

verus! {

/// A handle on an invariant set of an `Environment`.
#[derive(Clone, Copy, Debug, PartialEq, Eq, Structural, Hash)]
pub struct InvariantSetPtr(pub usize);

impl InvariantSetPtr {
    pub open spec fn index(self) -> nat {
        self.0 as nat
    }

    pub fn ptr_clone(&self) -> (r: Self)
        ensures
            r == *self,
    {
        *self
    }
}

/// One way to justify a statement: every set listed must be connected to the
/// root.
pub type StatementJustification = Vec<InvariantSetPtr>;

/// The ways found to justify one statement; any one of them suffices.
pub type StatementJustifications = Vec<StatementJustification>;

/// For each statement a set requires to be justified, the ways found to
/// justify it.
pub type SetJustification = Vec<StatementJustifications>;

/// Statements that hold of a context item, what must be justified for them to
/// hold, and whether they are known to follow from the root assumptions.
#[derive(Debug)]
pub struct InvariantSet {
    pub context: ItemPtr,
    pub statements: Vec<ItemPtr>,
    pub justification_requirements: Vec<ItemPtr>,
    pub dependencies: Vec<ItemPtr>,
    pub set_justification: Option<SetJustification>,
    pub connected_to_root: bool,
    pub required: bool,
}

impl InvariantSet {
    /// A set with no statements, about `context`, with nothing to justify.
    pub fn new_empty(context: ItemPtr) -> (s: Self)
        ensures
            s.context == context,
            s.statements@.len() == 0,
            s.justification_requirements@.len() == 0,
            s.dependencies@.len() == 0,
            s.set_justification.is_none(),
            !s.connected_to_root,
            !s.required,
    {
        InvariantSet {
            context,
            statements: Vec::new(),
            justification_requirements: Vec::new(),
            dependencies: Vec::new(),
            set_justification: None,
            connected_to_root: false,
            required: false,
        }
    }

    /// Statements that hold by assumption, such as the invariants of a
    /// variable; they are connected to the root from the start.
    pub fn new_root_statements_depending_on(
        context: ItemPtr,
        statements: Vec<ItemPtr>,
        dependencies: Vec<ItemPtr>,
    ) -> (s: Self)
        ensures
            s.context == context,
            s.statements@ == statements@,
            s.justification_requirements@.len() == 0,
            s.dependencies@ == dependencies@,
            s.set_justification.is_none(),
            s.connected_to_root,
            !s.required,
    {
        InvariantSet {
            context,
            statements,
            justification_requirements: Vec::new(),
            dependencies,
            set_justification: None,
            connected_to_root: true,
            required: false,
        }
    }

    /// Statements justified by the given justification.
    pub fn new_justified_by(
        context: ItemPtr,
        statements: Vec<ItemPtr>,
        justification: SetJustification,
    ) -> (s: Self)
        ensures
            s.context == context,
            s.statements@ == statements@,
            s.justification_requirements@.len() == 0,
            s.dependencies@.len() == 0,
            s.set_justification == Some(justification),
            !s.connected_to_root,
            !s.required,
    {
        InvariantSet {
            context,
            statements,
            justification_requirements: Vec::new(),
            dependencies: Vec::new(),
            set_justification: Some(justification),
            connected_to_root: false,
            required: false,
        }
    }

    pub fn statements(&self) -> (r: &[ItemPtr])
        ensures
            r@ == self.statements@,
    {
        self.statements.as_slice()
    }

    pub fn justification_requirements(&self) -> (r: &[ItemPtr])
        ensures
            r@ == self.justification_requirements@,
    {
        self.justification_requirements.as_slice()
    }

    pub fn dependencies(&self) -> (r: &[ItemPtr])
        ensures
            r@ == self.dependencies@,
    {
        self.dependencies.as_slice()
    }
}

} // verus!
