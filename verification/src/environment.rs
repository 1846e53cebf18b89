use vstd::prelude::*;
use vstd::string::StringExecFns;

use crate::definitions::{clone_items, DVariable, Definition, Unique};
use crate::diagnostic::Position;
use crate::invariants::{InvariantSet, InvariantSetPtr};
use crate::item::{content_items, Item, ItemPtr, Scope};
use crate::substitutions::entry_keys;
use crate::variable::{Variable, VariableOrder, VariablePtr};

verus! {

/// The item of the first entry named `name`.
pub open spec fn language_item_in(items: Seq<(Seq<char>, ItemPtr)>, name: Seq<char>) -> Option<ItemPtr>
    decreases items.len(),
{
    if items.len() == 0 {
        None
    } else if items[0].0 == name {
        Some(items[0].1)
    } else {
        language_item_in(items.drop_first(), name)
    }
}

/// All items, variables and invariant sets of a program, with the language
/// items that the builtin constructs refer to. Every handle stored anywhere in
/// it points into it.
pub struct Environment {
    pub(crate) items: Vec<Item>,
    pub(crate) variables: Vec<Variable>,
    pub(crate) invariant_sets: Vec<InvariantSet>,
    pub(crate) next_unique: u64,
    pub(crate) language_items: Vec<(String, ItemPtr)>,
}

impl Environment {
    pub closed spec fn spec_items(&self) -> Seq<Item> {
        self.items@
    }

    pub closed spec fn spec_variables(&self) -> Seq<Variable> {
        self.variables@
    }

    pub closed spec fn spec_sets(&self) -> Seq<InvariantSet> {
        self.invariant_sets@
    }

    pub closed spec fn spec_next_unique(&self) -> u64 {
        self.next_unique
    }

    pub closed spec fn spec_language_items(&self) -> Seq<(Seq<char>, ItemPtr)> {
        self.language_items@.map_values(|e: (String, ItemPtr)| (e.0@, e.1))
    }

    /// The item given the language item name `name` first, if any.
    pub open spec fn spec_get_language_item(&self, name: Seq<char>) -> Option<ItemPtr> {
        language_item_in(self.spec_language_items(), name)
    }

    pub open spec fn valid_item(&self, p: ItemPtr) -> bool {
        p.index() < self.spec_items().len()
    }

    pub open spec fn valid_var(&self, v: VariablePtr) -> bool {
        v.index() < self.spec_variables().len()
    }

    pub open spec fn valid_set(&self, s: InvariantSetPtr) -> bool {
        s.index() < self.spec_sets().len()
    }

    pub open spec fn valid_items(&self, items: Seq<ItemPtr>) -> bool {
        forall|i: int| 0 <= i < items.len() ==> self.valid_item(#[trigger] items[i])
    }

    /// The item behind a handle.
    pub open spec fn item(&self, p: ItemPtr) -> Item {
        self.spec_items()[p.index() as int]
    }

    /// The definition of the item behind a handle.
    pub open spec fn def(&self, p: ItemPtr) -> Definition {
        self.item(p).definition
    }

    /// The variable behind a handle.
    pub open spec fn var(&self, v: VariablePtr) -> Variable {
        self.spec_variables()[v.index() as int]
    }

    /// The invariant set behind a handle.
    pub open spec fn set(&self, s: InvariantSetPtr) -> InvariantSet {
        self.spec_sets()[s.index() as int]
    }

    /// Every handle a definition holds points into this environment.
    pub open spec fn definition_valid(&self, def: Definition) -> bool {
        &&& self.valid_items(content_items(def))
        &&& match def {
            Definition::Variable(d) => self.valid_var(d.0),
            Definition::Substitution(d) => {
                &&& d.subs.wf()
                &&& self.valid_set(d.invs)
                &&& forall|i: int|
                    0 <= i < d.subs@.len() ==> self.valid_var(#[trigger] entry_keys(d.subs@)[i])
            },
            _ => true,
        }
    }

    pub open spec fn scope_valid(&self, scope: Scope) -> bool {
        &&& scope.spec_parent() matches Some(p) ==> self.valid_item(p)
        &&& scope matches Scope::WithInvariant(s, _) ==> self.valid_set(s)
    }

    pub open spec fn item_valid(&self, item: Item) -> bool {
        &&& self.definition_valid(item.definition)
        &&& self.scope_valid(item.scope)
        &&& item.invariants matches Some(s) ==> self.valid_set(s)
        &&& item.from_dex matches Some(p) ==> self.valid_item(p)
    }

    pub open spec fn variable_valid(&self, v: Variable) -> bool {
        &&& self.valid_item(v.spec_item())
        &&& self.valid_items(v.spec_invariants())
        &&& self.valid_items(v.spec_dependencies())
    }

    pub open spec fn justification_valid(&self, j: Seq<Vec<Vec<InvariantSetPtr>>>) -> bool {
        forall|a: int, b: int, c: int|
            0 <= a < j.len() && 0 <= b < j[a]@.len() && 0 <= c < j[a]@[b]@.len()
                ==> self.valid_set(#[trigger] j[a]@[b]@[c])
    }

    pub open spec fn set_valid(&self, s: InvariantSet) -> bool {
        &&& self.valid_item(s.context)
        &&& self.valid_items(s.statements@)
        &&& self.valid_items(s.justification_requirements@)
        &&& self.valid_items(s.dependencies@)
        &&& s.set_justification matches Some(j) ==> self.justification_valid(j@)
    }

    /// Every handle stored anywhere points into the environment.
    pub open spec fn wf(&self) -> bool {
        &&& forall|i: int|
            0 <= i < self.spec_items().len() ==> self.item_valid(#[trigger] self.spec_items()[i])
        &&& forall|i: int|
            0 <= i < self.spec_variables().len() ==> self.variable_valid(
                #[trigger] self.spec_variables()[i],
            )
        &&& forall|i: int|
            0 <= i < self.spec_sets().len() ==> self.set_valid(#[trigger] self.spec_sets()[i])
        &&& forall|i: int|
            0 <= i < self.spec_language_items().len() ==> self.valid_item(
                (#[trigger] self.spec_language_items()[i]).1,
            )
    }

    /// Every table of `self` is a prefix of the same table of `bigger`.
    pub open spec fn grows_into(&self, bigger: &Self) -> bool {
        &&& self.spec_items().len() <= bigger.spec_items().len()
        &&& self.spec_variables().len() <= bigger.spec_variables().len()
        &&& self.spec_sets().len() <= bigger.spec_sets().len()
    }

    /// Validity of handles is kept when the tables grow.
    pub proof fn lemma_valid_mono(&self, bigger: &Self)
        requires
            self.grows_into(bigger),
        ensures
            forall|d: Definition| self.definition_valid(d) ==> bigger.definition_valid(d),
            forall|i: Item| self.item_valid(i) ==> bigger.item_valid(i),
            forall|v: Variable| self.variable_valid(v) ==> bigger.variable_valid(v),
            forall|s: InvariantSet| self.set_valid(s) ==> bigger.set_valid(s),
            forall|s: Seq<ItemPtr>| self.valid_items(s) ==> bigger.valid_items(s),
            forall|p: ItemPtr| self.valid_item(p) ==> bigger.valid_item(p),
    {
    }

    /// No environment holds more items than a `usize` counts.
    pub proof fn lemma_items_len_bounded(&self)
        ensures
            self.spec_items().len() <= usize::MAX,
    {
        assert(self.items@.len() == self.items.len());
    }

    /// Well-formedness of an environment whose tables extend those of a
    /// well-formed one by valid entries.
    pub proof fn lemma_wf_extend(&self, bigger: &Self)
        requires
            self.wf(),
            self.grows_into(bigger),
            forall|i: int|
                0 <= i < self.spec_items().len() ==> #[trigger] bigger.spec_items()[i]
                    == self.spec_items()[i],
            forall|i: int|
                0 <= i < self.spec_variables().len() ==> #[trigger] bigger.spec_variables()[i]
                    == self.spec_variables()[i],
            forall|i: int|
                0 <= i < self.spec_sets().len() ==> #[trigger] bigger.spec_sets()[i]
                    == self.spec_sets()[i],
            forall|i: int|
                self.spec_items().len() <= i < bigger.spec_items().len() ==> bigger.item_valid(
                    #[trigger] bigger.spec_items()[i],
                ),
            forall|i: int|
                self.spec_variables().len() <= i < bigger.spec_variables().len()
                    ==> bigger.variable_valid(#[trigger] bigger.spec_variables()[i]),
            forall|i: int|
                self.spec_sets().len() <= i < bigger.spec_sets().len() ==> bigger.set_valid(
                    #[trigger] bigger.spec_sets()[i],
                ),
            forall|i: int|
                0 <= i < bigger.spec_language_items().len() ==> bigger.valid_item(
                    (#[trigger] bigger.spec_language_items()[i]).1,
                ),
        ensures
            bigger.wf(),
    {
        self.lemma_valid_mono(bigger);
        assert forall|i: int| 0 <= i < bigger.spec_items().len() implies bigger.item_valid(
            #[trigger] bigger.spec_items()[i],
        ) by {
            if i < self.spec_items().len() {
                assert(self.item_valid(self.spec_items()[i]));
            }
        }
        assert forall|i: int| 0 <= i < bigger.spec_variables().len() implies bigger.variable_valid(
            #[trigger] bigger.spec_variables()[i],
        ) by {
            if i < self.spec_variables().len() {
                assert(self.variable_valid(self.spec_variables()[i]));
            }
        }
        assert forall|i: int| 0 <= i < bigger.spec_sets().len() implies bigger.set_valid(
            #[trigger] bigger.spec_sets()[i],
        ) by {
            if i < self.spec_sets().len() {
                assert(self.set_valid(self.spec_sets()[i]));
            }
        }
    }

    /// An environment with nothing in it.
    pub fn new() -> (env: Self)
        ensures
            env.wf(),
            env.spec_items().len() == 0,
            env.spec_variables().len() == 0,
            env.spec_sets().len() == 0,
            env.spec_language_items().len() == 0,
    {
        let env = Environment {
            items: Vec::new(),
            variables: Vec::new(),
            invariant_sets: Vec::new(),
            next_unique: 0,
            language_items: Vec::new(),
        };
        assert(env.spec_language_items() =~= Seq::<(Seq<char>, ItemPtr)>::empty());
        env
    }

    pub fn num_items(&self) -> (r: usize)
        ensures
            r == self.spec_items().len(),
    {
        self.items.len()
    }

    pub fn num_variables(&self) -> (r: usize)
        ensures
            r == self.spec_variables().len(),
    {
        self.variables.len()
    }

    pub fn num_invariant_sets(&self) -> (r: usize)
        ensures
            r == self.spec_sets().len(),
    {
        self.invariant_sets.len()
    }

    /// The item behind a handle.
    pub fn get(&self, p: ItemPtr) -> (r: &Item)
        requires
            self.valid_item(p),
        ensures
            *r == self.item(p),
    {
        &self.items[p.0]
    }

    /// The definition of the item behind a handle.
    pub fn definition(&self, p: ItemPtr) -> (r: &Definition)
        requires
            self.valid_item(p),
        ensures
            *r == self.def(p),
    {
        &self.items[p.0].definition
    }

    /// The variable behind a handle.
    pub fn get_variable(&self, v: VariablePtr) -> (r: &Variable)
        requires
            self.valid_var(v),
        ensures
            *r == self.var(v),
    {
        &self.variables[v.0]
    }

    /// The invariant set behind a handle.
    pub fn get_set(&self, s: InvariantSetPtr) -> (r: &InvariantSet)
        requires
            self.valid_set(s),
        ensures
            *r == self.set(s),
    {
        &self.invariant_sets[s.0]
    }

    /// Adds an item with the given definition and scope and nothing computed
    /// about it yet.
    pub fn push_item(&mut self, definition: Definition, scope: Scope) -> (p: ItemPtr)
        requires
            old(self).wf(),
            old(self).definition_valid(definition),
            old(self).scope_valid(scope),
        ensures
            final(self).wf(),
            p.index() == old(self).spec_items().len(),
            final(self).spec_items() == old(self).spec_items().push(
                Item {
                    position: None,
                    definition,
                    scope,
                    invariants: None,
                    from_dex: None,
                    name: None,
                    show: false,
                },
            ),
            final(self).spec_variables() == old(self).spec_variables(),
            final(self).spec_sets() == old(self).spec_sets(),
            final(self).spec_language_items() == old(self).spec_language_items(),
            final(self).spec_next_unique() == old(self).spec_next_unique(),
    {
        let p = ItemPtr(self.items.len());
        let item = Item {
            position: None,
            definition,
            scope,
            invariants: None,
            from_dex: None,
            name: None,
            show: false,
        };
        let ghost old_env = *self;
        self.items.push(item);
        proof {
            old_env.lemma_valid_mono(self);
            assert(self.spec_language_items() == old_env.spec_language_items());
            old_env.lemma_wf_extend(self);
        }
        p
    }

    /// A fresh identity for a unique item.
    pub fn push_unique(&mut self) -> (u: Unique)
        requires
            old(self).wf(),
            old(self).spec_next_unique() < u64::MAX,
        ensures
            final(self).wf(),
            u.0 == old(self).spec_next_unique(),
            final(self).spec_next_unique() == old(self).spec_next_unique() + 1,
            final(self).spec_items() == old(self).spec_items(),
            final(self).spec_variables() == old(self).spec_variables(),
            final(self).spec_sets() == old(self).spec_sets(),
            final(self).spec_language_items() == old(self).spec_language_items(),
    {
        let u = Unique(self.next_unique);
        let ghost old_env = *self;
        self.next_unique = self.next_unique + 1;
        proof {
            assert(self.spec_language_items() == old_env.spec_language_items());
            old_env.lemma_wf_extend(self);
        }
        u
    }
}


impl Environment {
    /// Adds an invariant set.
    pub fn push_invariant_set(&mut self, set: InvariantSet) -> (p: InvariantSetPtr)
        requires
            old(self).wf(),
            old(self).set_valid(set),
        ensures
            final(self).wf(),
            p.index() == old(self).spec_sets().len(),
            final(self).spec_sets() == old(self).spec_sets().push(set),
            final(self).spec_items() == old(self).spec_items(),
            final(self).spec_variables() == old(self).spec_variables(),
            final(self).spec_language_items() == old(self).spec_language_items(),
            final(self).spec_next_unique() == old(self).spec_next_unique(),
    {
        let p = InvariantSetPtr(self.invariant_sets.len());
        let ghost old_env = *self;
        self.invariant_sets.push(set);
        proof {
            old_env.lemma_valid_mono(self);
            assert(self.spec_language_items() == old_env.spec_language_items());
            old_env.lemma_wf_extend(self);
        }
        p
    }

    /// Replaces the item behind `p` by `f(item)` where only fields that hold
    /// no handle change; used by the setters below.
    pub fn set_name(&mut self, p: ItemPtr, name: String)
        requires
            old(self).wf(),
            old(self).valid_item(p),
        ensures
            final(self).wf(),
            final(self).spec_items() == old(self).spec_items().update(
                p.index() as int,
                Item { name: Some(name), ..old(self).item(p) },
            ),
            final(self).spec_variables() == old(self).spec_variables(),
            final(self).spec_sets() == old(self).spec_sets(),
            final(self).spec_language_items() == old(self).spec_language_items(),
            final(self).spec_next_unique() == old(self).spec_next_unique(),
    {
        let ghost old_env = *self;
        let mut item = self.items.remove(p.0);
        item.name = Some(name);
        self.items.insert(p.0, item);
        proof {
            assert(self.spec_items() =~= old_env.spec_items().update(
                p.index() as int,
                Item { name: Some(name), ..old_env.item(p) },
            ));
            self.lemma_same_handles_wf(&old_env, p);
        }
    }

    pub fn set_position(&mut self, p: ItemPtr, position: Position)
        requires
            old(self).wf(),
            old(self).valid_item(p),
        ensures
            final(self).wf(),
            final(self).spec_items() == old(self).spec_items().update(
                p.index() as int,
                Item { position: Some(position), ..old(self).item(p) },
            ),
            final(self).spec_variables() == old(self).spec_variables(),
            final(self).spec_sets() == old(self).spec_sets(),
            final(self).spec_language_items() == old(self).spec_language_items(),
            final(self).spec_next_unique() == old(self).spec_next_unique(),
    {
        let ghost old_env = *self;
        let mut item = self.items.remove(p.0);
        item.position = Some(position);
        self.items.insert(p.0, item);
        proof {
            assert(self.spec_items() =~= old_env.spec_items().update(
                p.index() as int,
                Item { position: Some(position), ..old_env.item(p) },
            ));
            self.lemma_same_handles_wf(&old_env, p);
        }
    }

    /// Records `dex` as the item that tells whether a value could have been
    /// produced by the item behind `p`.
    pub fn set_from_dex(&mut self, p: ItemPtr, dex: ItemPtr)
        requires
            old(self).wf(),
            old(self).valid_item(p),
            old(self).valid_item(dex),
        ensures
            final(self).wf(),
            final(self).spec_items() == old(self).spec_items().update(
                p.index() as int,
                Item { from_dex: Some(dex), ..old(self).item(p) },
            ),
            final(self).spec_variables() == old(self).spec_variables(),
            final(self).spec_sets() == old(self).spec_sets(),
            final(self).spec_language_items() == old(self).spec_language_items(),
            final(self).spec_next_unique() == old(self).spec_next_unique(),
    {
        let ghost old_env = *self;
        let mut item = self.items.remove(p.0);
        item.from_dex = Some(dex);
        self.items.insert(p.0, item);
        proof {
            assert(self.spec_items() =~= old_env.spec_items().update(
                p.index() as int,
                Item { from_dex: Some(dex), ..old_env.item(p) },
            ));
            assert(old_env.item_valid(old_env.item(p)));
            self.lemma_same_handles_wf(&old_env, p);
        }
    }

    /// Records the invariant set computed for the item behind `p`.
    pub fn set_invariants(&mut self, p: ItemPtr, invariants: InvariantSetPtr)
        requires
            old(self).wf(),
            old(self).valid_item(p),
            old(self).valid_set(invariants),
        ensures
            final(self).wf(),
            final(self).spec_items() == old(self).spec_items().update(
                p.index() as int,
                Item { invariants: Some(invariants), ..old(self).item(p) },
            ),
            final(self).spec_variables() == old(self).spec_variables(),
            final(self).spec_sets() == old(self).spec_sets(),
            final(self).spec_language_items() == old(self).spec_language_items(),
            final(self).spec_next_unique() == old(self).spec_next_unique(),
    {
        let ghost old_env = *self;
        let mut item = self.items.remove(p.0);
        item.invariants = Some(invariants);
        self.items.insert(p.0, item);
        proof {
            assert(self.spec_items() =~= old_env.spec_items().update(
                p.index() as int,
                Item { invariants: Some(invariants), ..old_env.item(p) },
            ));
            assert(old_env.item_valid(old_env.item(p)));
            self.lemma_same_handles_wf(&old_env, p);
        }
    }

    /// Gives the item behind `p` a new definition.
    pub fn redefine(&mut self, p: ItemPtr, new_definition: Definition)
        requires
            old(self).wf(),
            old(self).valid_item(p),
            old(self).definition_valid(new_definition),
        ensures
            final(self).wf(),
            final(self).spec_items() == old(self).spec_items().update(
                p.index() as int,
                Item { definition: new_definition, ..old(self).item(p) },
            ),
            final(self).spec_variables() == old(self).spec_variables(),
            final(self).spec_sets() == old(self).spec_sets(),
            final(self).spec_language_items() == old(self).spec_language_items(),
            final(self).spec_next_unique() == old(self).spec_next_unique(),
    {
        let ghost old_env = *self;
        let mut item = self.items.remove(p.0);
        item.definition = new_definition;
        self.items.insert(p.0, item);
        proof {
            assert(self.spec_items() =~= old_env.spec_items().update(
                p.index() as int,
                Item { definition: new_definition, ..old_env.item(p) },
            ));
            self.lemma_same_handles_wf(&old_env, p);
        }
    }

    /// An environment that differs from a well-formed one only in the item
    /// behind `p`, which is itself valid, is well-formed.
    proof fn lemma_same_handles_wf(&self, old_env: &Self, p: ItemPtr)
        requires
            old_env.wf(),
            old_env.valid_item(p),
            self.spec_items().len() == old_env.spec_items().len(),
            forall|i: int|
                0 <= i < self.spec_items().len() && i != p.index() ==> #[trigger] self.spec_items()[i]
                    == old_env.spec_items()[i],
            self.item_valid(self.item(p)) || old_env.item_valid(self.item(p)),
            self.spec_variables() == old_env.spec_variables(),
            self.spec_sets() == old_env.spec_sets(),
            self.spec_language_items() == old_env.spec_language_items(),
        ensures
            self.wf(),
    {
        old_env.lemma_valid_mono(self);
        assert forall|i: int| 0 <= i < self.spec_items().len() implies self.item_valid(
            #[trigger] self.spec_items()[i],
        ) by {
            if i != p.index() {
                assert(old_env.item_valid(old_env.spec_items()[i]));
            }
        }
        assert forall|i: int| 0 <= i < self.spec_variables().len() implies self.variable_valid(
            #[trigger] self.spec_variables()[i],
        ) by {
            assert(old_env.variable_valid(old_env.spec_variables()[i]));
        }
        assert forall|i: int| 0 <= i < self.spec_sets().len() implies self.set_valid(
            #[trigger] self.spec_sets()[i],
        ) by {
            assert(old_env.set_valid(old_env.spec_sets()[i]));
        }
    }
}


impl Environment {
    /// Marks the invariant set behind `s` as following from the root
    /// assumptions.
    pub fn set_connected_to_root(&mut self, s: InvariantSetPtr)
        requires
            old(self).wf(),
            old(self).valid_set(s),
        ensures
            final(self).wf(),
            final(self).spec_sets() == old(self).spec_sets().update(
                s.index() as int,
                InvariantSet { connected_to_root: true, ..old(self).set(s) },
            ),
            final(self).spec_items() == old(self).spec_items(),
            final(self).spec_variables() == old(self).spec_variables(),
            final(self).spec_language_items() == old(self).spec_language_items(),
            final(self).spec_next_unique() == old(self).spec_next_unique(),
    {
        let ghost old_env = *self;
        let mut set = self.invariant_sets.remove(s.0);
        set.connected_to_root = true;
        self.invariant_sets.insert(s.0, set);
        proof {
            assert(self.spec_sets() =~= old_env.spec_sets().update(
                s.index() as int,
                InvariantSet { connected_to_root: true, ..old_env.set(s) },
            ));
            assert(old_env.set_valid(old_env.set(s)));
            self.lemma_same_handles_in_sets_wf(&old_env, s);
        }
    }

    /// Records how the statements the set behind `s` requires were justified.
    pub fn set_set_justification(
        &mut self,
        s: InvariantSetPtr,
        justification: crate::invariants::SetJustification,
    )
        requires
            old(self).wf(),
            old(self).valid_set(s),
            old(self).justification_valid(justification@),
        ensures
            final(self).wf(),
            final(self).spec_sets() == old(self).spec_sets().update(
                s.index() as int,
                InvariantSet { set_justification: Some(justification), ..old(self).set(s) },
            ),
            final(self).spec_items() == old(self).spec_items(),
            final(self).spec_variables() == old(self).spec_variables(),
            final(self).spec_language_items() == old(self).spec_language_items(),
            final(self).spec_next_unique() == old(self).spec_next_unique(),
    {
        let ghost old_env = *self;
        let mut set = self.invariant_sets.remove(s.0);
        set.set_justification = Some(justification);
        self.invariant_sets.insert(s.0, set);
        proof {
            assert(self.spec_sets() =~= old_env.spec_sets().update(
                s.index() as int,
                InvariantSet { set_justification: Some(justification), ..old_env.set(s) },
            ));
            assert(old_env.set_valid(old_env.set(s)));
            self.lemma_same_handles_in_sets_wf(&old_env, s);
        }
    }

    /// An environment that differs from a well-formed one only in the
    /// invariant set behind `s`, which is itself valid, is well-formed.
    proof fn lemma_same_handles_in_sets_wf(&self, old_env: &Self, s: InvariantSetPtr)
        requires
            old_env.wf(),
            old_env.valid_set(s),
            self.spec_sets().len() == old_env.spec_sets().len(),
            forall|i: int|
                0 <= i < self.spec_sets().len() && i != s.index() ==> #[trigger] self.spec_sets()[i]
                    == old_env.spec_sets()[i],
            old_env.set_valid(self.set(s)),
            self.spec_items() == old_env.spec_items(),
            self.spec_variables() == old_env.spec_variables(),
            self.spec_language_items() == old_env.spec_language_items(),
        ensures
            self.wf(),
    {
        old_env.lemma_valid_mono(self);
        assert forall|i: int| 0 <= i < self.spec_items().len() implies self.item_valid(
            #[trigger] self.spec_items()[i],
        ) by {
            assert(old_env.item_valid(old_env.spec_items()[i]));
        }
        assert forall|i: int| 0 <= i < self.spec_variables().len() implies self.variable_valid(
            #[trigger] self.spec_variables()[i],
        ) by {
            assert(old_env.variable_valid(old_env.spec_variables()[i]));
        }
        assert forall|i: int| 0 <= i < self.spec_sets().len() implies self.set_valid(
            #[trigger] self.spec_sets()[i],
        ) by {
            if i != s.index() {
                assert(old_env.set_valid(old_env.spec_sets()[i]));
            }
        }
    }
}


impl DVariable {
    /// Creates a variable with the given invariants, dependencies and order,
    /// together with the item that stands for it.
    pub fn new(
        env: &mut Environment,
        invariants: Vec<ItemPtr>,
        dependencies: Vec<ItemPtr>,
        order: VariableOrder,
        scope: Scope,
    ) -> (p: ItemPtr)
        requires
            old(env).wf(),
            old(env).valid_items(invariants@),
            old(env).valid_items(dependencies@),
            old(env).scope_valid(scope),
        ensures
            final(env).wf(),
            p.index() == old(env).spec_items().len(),
            final(env).spec_items().len() == old(env).spec_items().len() + 1,
            final(env).spec_variables().len() == old(env).spec_variables().len() + 1,
            forall|i: int|
                0 <= i < old(env).spec_items().len() ==> #[trigger] final(env).spec_items()[i]
                    == old(env).spec_items()[i],
            forall|i: int|
                0 <= i < old(env).spec_variables().len()
                    ==> #[trigger] final(env).spec_variables()[i] == old(env).spec_variables()[i],
            final(env).def(p) matches Definition::Variable(d) && d.0.index()
                == old(env).spec_variables().len() && d.1@ == invariants@ + dependencies@,
            final(env).item(p).scope == scope,
            final(env).item(p).name.is_none(),
            ({
                let v = final(env).spec_variables()[old(env).spec_variables().len() as int];
                &&& v.spec_item() == p
                &&& v.spec_invariants() == invariants@
                &&& v.spec_dependencies() == dependencies@
                &&& v.spec_order() == order
            }),
            final(env).spec_sets() == old(env).spec_sets(),
            final(env).spec_language_items() == old(env).spec_language_items(),
            final(env).spec_next_unique() == old(env).spec_next_unique(),
    {
        let var = VariablePtr(env.variables.len());
        let p = ItemPtr(env.items.len());
        let mut contents = clone_items(&invariants);
        let mut deps_copy = clone_items(&dependencies);
        contents.append(&mut deps_copy);
        let item = Item {
            position: None,
            definition: Definition::Variable(DVariable(var, contents)),
            scope,
            invariants: None,
            from_dex: None,
            name: None,
            show: false,
        };
        let variable = Variable::new(p, invariants, dependencies, order);
        let ghost old_env = *env;
        env.items.push(item);
        env.variables.push(variable);
        proof {
            old_env.lemma_valid_mono(env);
            assert(env.spec_language_items() == old_env.spec_language_items());
            let new_item = env.spec_items()[p.index() as int];
            assert(content_items(new_item.definition) =~= contents@);
            assert(env.item_valid(new_item));
            assert(env.variable_valid(env.spec_variables()[var.index() as int]));
            old_env.lemma_wf_extend(env);
        }
        p
    }
}

impl Environment {
    /// The item given the language item name `name`, if any.
    pub fn get_language_item(&self, name: &str) -> (r: Option<ItemPtr>)
        requires
            self.wf(),
        ensures
            r == self.spec_get_language_item(name@),
            r matches Some(p) ==> self.valid_item(p),
    {
        let key = name.to_owned();
        let mut i: usize = 0;
        proof {
            assert(self.spec_language_items().skip(0) =~= self.spec_language_items());
        }
        while i < self.language_items.len()
            invariant
                self.wf(),
                key@ == name@,
                i <= self.language_items@.len(),
                self.spec_language_items().len() == self.language_items@.len(),
                language_item_in(self.spec_language_items(), name@) == language_item_in(
                    self.spec_language_items().skip(i as int),
                    name@,
                ),
            decreases self.language_items@.len() - i,
        {
            let entry = &self.language_items[i];
            proof {
                assert(self.spec_language_items()[i as int] == (entry.0@, entry.1));
                assert(self.spec_language_items().skip(i as int)[0] == self.spec_language_items()[i as int]);
                assert(self.spec_language_items().skip(i as int).drop_first() =~= self.spec_language_items().skip(i + 1));
            }
            if entry.0 == key {
                proof {
                    assert(self.valid_item(self.spec_language_items()[i as int].1));
                }
                return Some(entry.1);
            }
            i += 1;
        }
        None
    }

    /// The names given to language items, in the order they were first
    /// given.
    pub fn language_item_names(&self) -> (r: Vec<String>)
        ensures
            r@.len() == self.spec_language_items().len(),
            forall|i: int| 0 <= i < r@.len() ==> (#[trigger] r@[i])@ == self.spec_language_items()[i].0,
    {
        let mut r: Vec<String> = Vec::new();
        let mut i: usize = 0;
        while i < self.language_items.len()
            invariant
                i <= self.language_items@.len(),
                r@.len() == i,
                self.spec_language_items().len() == self.language_items@.len(),
                forall|k: int| 0 <= k < i ==> (#[trigger] r@[k])@ == self.spec_language_items()[k].0,
            decreases self.language_items@.len() - i,
        {
            let name = self.language_items[i].0.clone();
            proof {
                assert(self.spec_language_items()[i as int].0 == self.language_items@[i as int].0@);
            }
            r.push(name);
            i += 1;
        }
        r
    }

    /// Gives the language item name `name` to `definition`, in place of any
    /// item that had it.
    pub fn define_language_item(&mut self, name: &str, definition: ItemPtr)
        requires
            old(self).wf(),
            old(self).valid_item(definition),
        ensures
            final(self).wf(),
            final(self).spec_get_language_item(name@) == Some(definition),
            forall|other: Seq<char>| other != name@ ==> final(self).spec_get_language_item(other) == old(
                self,
            ).spec_get_language_item(other),
            final(self).spec_items() == old(self).spec_items(),
            final(self).spec_variables() == old(self).spec_variables(),
            final(self).spec_sets() == old(self).spec_sets(),
            final(self).spec_next_unique() == old(self).spec_next_unique(),
    {
        let key = name.to_owned();
        let ghost old_items = self.spec_language_items();
        let mut i: usize = 0;
        while i < self.language_items.len()
            invariant
                key@ == name@,
                i <= self.language_items@.len(),
                self.language_items@ == old(self).language_items@,
                self.spec_language_items() == old_items,
                old_items.len() == self.language_items@.len(),
                forall|k: int| 0 <= k < i ==> old_items[k].0 != name@,
            ensures
                i <= self.language_items@.len(),
                self.language_items@ == old(self).language_items@,
                self.spec_language_items() == old_items,
                forall|k: int| 0 <= k < i ==> old_items[k].0 != name@,
                i < self.language_items@.len() ==> old_items[i as int].0 == name@,
            decreases self.language_items@.len() - i,
        {
            proof {
                assert(old_items[i as int] == (self.language_items@[i as int].0@, self.language_items@[i as int].1));
            }
            if self.language_items[i].0 == key {
                break;
            }
            i += 1;
        }
        let ghost old_env = *self;
        if i < self.language_items.len() {
            let (old_name, _) = self.language_items.remove(i);
            self.language_items.insert(i, (old_name, definition));
            proof {
                let new_items = self.spec_language_items();
                assert(new_items =~= old_items.update(i as int, (name@, definition)));
                lemma_language_item_update(old_items, i as int, name@, definition);
            }
        } else {
            self.language_items.push((key, definition));
            proof {
                let new_items = self.spec_language_items();
                assert(new_items =~= old_items.push((name@, definition)));
                lemma_language_item_push(old_items, name@, definition);
            }
        }
        proof {
            old_env.lemma_valid_mono(self);
            assert forall|k: int| 0 <= k < self.spec_language_items().len() implies self.valid_item(
                (#[trigger] self.spec_language_items()[k]).1,
            ) by {
                if self.spec_language_items()[k].1 != definition {
                    assert(old_items.contains(self.spec_language_items()[k])) by {
                        if k < old_items.len() {
                            assert(old_items[k].1 == self.spec_language_items()[k].1 || k == i);
                        }
                    }
                    let m = choose|m: int| 0 <= m < old_items.len() && old_items[m] == self.spec_language_items()[k];
                    assert(old_env.valid_item(old_items[m].1));
                }
            }
        }
        proof {
            old_env.lemma_wf_extend(self);
        }
    }
}

/// Replacing the item of the first entry named `name` changes what `name`
/// gives and nothing else.
proof fn lemma_language_item_update(items: Seq<(Seq<char>, ItemPtr)>, i: int, name: Seq<char>, definition: ItemPtr)
    requires
        0 <= i < items.len(),
        items[i].0 == name,
        forall|k: int| 0 <= k < i ==> items[k].0 != name,
    ensures
        language_item_in(items.update(i, (name, definition)), name) == Some(definition),
        forall|other: Seq<char>| other != name ==> language_item_in(items.update(i, (name, definition)), other)
            == language_item_in(items, other),
    decreases i,
{
    let u = items.update(i, (name, definition));
    if i > 0 {
        assert(u.drop_first() =~= items.drop_first().update(i - 1, (name, definition)));
        assert forall|k: int| 0 <= k < i - 1 implies items.drop_first()[k].0 != name by {
            assert(items.drop_first()[k] == items[k + 1]);
        }
        assert(items.drop_first()[i - 1] == items[i]);
        lemma_language_item_update(items.drop_first(), i - 1, name, definition);
        assert(u[0] == items[0]);
        assert(items[0].0 != name);
        assert forall|other: Seq<char>| other != name implies language_item_in(u, other) == language_item_in(items, other) by {
            assert(language_item_in(u.drop_first(), other) == language_item_in(items.drop_first(), other));
        }
    } else {
        assert(u.drop_first() =~= items.drop_first());
        assert(u[0] == (name, definition));
        assert forall|other: Seq<char>| other != name implies language_item_in(u, other) == language_item_in(items, other) by {
            assert(items[0].0 == name);
        }
    }
}

/// Adding an entry named `name` that no entry had makes `name` give it and
/// changes nothing else.
proof fn lemma_language_item_push(items: Seq<(Seq<char>, ItemPtr)>, name: Seq<char>, definition: ItemPtr)
    requires
        forall|k: int| 0 <= k < items.len() ==> items[k].0 != name,
    ensures
        language_item_in(items.push((name, definition)), name) == Some(definition),
        forall|other: Seq<char>| other != name ==> language_item_in(items.push((name, definition)), other)
            == language_item_in(items, other),
    decreases items.len(),
{
    let p = items.push((name, definition));
    if items.len() > 0 {
        assert(p.drop_first() =~= items.drop_first().push((name, definition)));
        assert forall|k: int| 0 <= k < items.drop_first().len() implies items.drop_first()[k].0 != name by {
            assert(items.drop_first()[k] == items[k + 1]);
        }
        lemma_language_item_push(items.drop_first(), name, definition);
        assert(p[0] == items[0]);
        assert(items[0].0 != name);
        assert forall|other: Seq<char>| other != name implies language_item_in(p, other) == language_item_in(items, other) by {
            assert(language_item_in(p.drop_first(), other) == language_item_in(items.drop_first(), other));
        }
    } else {
        assert(p.drop_first() =~= Seq::<(Seq<char>, ItemPtr)>::empty());
        assert(p[0] == (name, definition));
        assert forall|other: Seq<char>| other != name implies language_item_in(p, other) == language_item_in(items, other) by {
            assert(language_item_in(p.drop_first(), other) == None::<ItemPtr>);
        }
    }
}

impl crate::definitions::DAxiom {
    /// The axiom whose statement is the language item named `name` followed
    /// by `_statement`, relying on `relying_on`; `None` when that language
    /// item is not defined.
    pub fn from_name(env: &Environment, name: &str, relying_on: Vec<ItemPtr>) -> (r: Option<Self>)
        requires
            env.wf(),
        ensures
            r is None <==> env.spec_get_language_item(name@ + "_statement"@) is None,
            r matches Some(a) ==> Some(a.statement) == env.spec_get_language_item(name@ + "_statement"@)
                && a.relying_on@ == relying_on@,
    {
        let full = name.to_owned().concat("_statement");
        match env.get_language_item(full.as_str()) {
            Some(statement) => Some(crate::definitions::DAxiom { statement, relying_on }),
            None => None,
        }
    }
}

impl Item {
    /// Adds a new item defined by `definition`, written in `scope`, with
    /// nothing computed about it yet.
    pub fn new_boxed(env: &mut Environment, definition: Definition, scope: Scope) -> (p: ItemPtr)
        requires
            old(env).wf(),
            old(env).definition_valid(definition),
            old(env).scope_valid(scope),
        ensures
            final(env).wf(),
            p.index() == old(env).spec_items().len(),
            final(env).spec_items() == old(env).spec_items().push(
                Item {
                    position: None,
                    definition,
                    scope,
                    invariants: None,
                    from_dex: None,
                    name: None,
                    show: false,
                },
            ),
            final(env).spec_variables() == old(env).spec_variables(),
            final(env).spec_sets() == old(env).spec_sets(),
            final(env).spec_language_items() == old(env).spec_language_items(),
    {
        env.push_item(definition, scope)
    }

    /// Adds a placeholder named `name` at the root.
    pub fn placeholder(env: &mut Environment, name: String) -> (p: ItemPtr)
        requires
            old(env).wf(),
        ensures
            final(env).wf(),
            p.index() == old(env).spec_items().len(),
            final(env).spec_items().len() == old(env).spec_items().len() + 1,
            forall|i: int| 0 <= i < old(env).spec_items().len() ==> #[trigger] final(env).spec_items()[i] == old(env).spec_items()[i],
            final(env).def(p) == Definition::Placeholder(crate::definitions::DPlaceholder { name }),
            final(env).item(p).scope == Scope::Root,
    {
        Self::placeholder_with_scope(env, name, Scope::Root)
    }

    /// Adds a placeholder named `name`, written in `scope`.
    pub fn placeholder_with_scope(env: &mut Environment, name: String, scope: Scope) -> (p: ItemPtr)
        requires
            old(env).wf(),
            old(env).scope_valid(scope),
        ensures
            final(env).wf(),
            p.index() == old(env).spec_items().len(),
            final(env).spec_items().len() == old(env).spec_items().len() + 1,
            forall|i: int| 0 <= i < old(env).spec_items().len() ==> #[trigger] final(env).spec_items()[i] == old(env).spec_items()[i],
            final(env).def(p) == Definition::Placeholder(crate::definitions::DPlaceholder { name }),
            final(env).item(p).scope == scope,
    {
        let def = Definition::Placeholder(crate::definitions::DPlaceholder { name });
        proof {
            assert(content_items(def) =~= Seq::<ItemPtr>::empty());
        }
        env.push_item(def, scope)
    }
}

} // verus!
