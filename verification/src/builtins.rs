use vstd::prelude::*;

use crate::definitions::{BuiltinFunction, DBuiltinFunction, Definition, RSubstitution};
use crate::diagnostic::Position;
use crate::environment::Environment;
use crate::item::{ItemPtr, Scope};

verus! {

/// The builtin function named `name`.
pub open spec fn builtin_of_name(name: Seq<char>) -> Option<BuiltinFunction> {
    if name == "decision"@ {
        Some(BuiltinFunction::Decision)
    } else if name == "body"@ {
        Some(BuiltinFunction::Body)
    } else if name == "tail_label"@ {
        Some(BuiltinFunction::TailLabel)
    } else if name == "tail_value"@ {
        Some(BuiltinFunction::TailValue)
    } else if name == "has_tail"@ {
        Some(BuiltinFunction::HasTail)
    } else {
        None
    }
}

/// The name of a builtin function.
pub open spec fn builtin_name(f: BuiltinFunction) -> Seq<char> {
    match f {
        BuiltinFunction::Decision => "decision"@,
        BuiltinFunction::Body => "body"@,
        BuiltinFunction::TailLabel => "tail_label"@,
        BuiltinFunction::TailValue => "tail_value"@,
        BuiltinFunction::HasTail => "has_tail"@,
    }
}

/// The language items that stand for the parameters of a builtin function.
pub open spec fn builtin_param_names(f: BuiltinFunction) -> Seq<Seq<char>> {
    match f {
        BuiltinFunction::Decision => seq!["x"@, "y"@, "when_equal"@, "when_not_equal"@],
        _ => seq!["x"@],
    }
}

/// Every parameter of `f` has its language item.
pub open spec fn params_defined(env: &Environment, f: BuiltinFunction) -> bool {
    forall|i: int|
        0 <= i < builtin_param_names(f).len() ==> (#[trigger] env.spec_get_language_item(builtin_param_names(f)[i])) is Some
}

/// A builtin function's name names it.
pub proof fn law_builtin_name_roundtrip(f: BuiltinFunction)
    ensures
        builtin_of_name(builtin_name(f)) == Some(f),
{
    lemma_builtin_names_distinct();
}

/// The names of the builtin functions differ from each other.
pub proof fn lemma_builtin_names_distinct()
    ensures
        "body"@ != "decision"@,
        "tail_label"@ != "decision"@,
        "tail_label"@ != "body"@,
        "tail_value"@ != "decision"@,
        "tail_value"@ != "body"@,
        "tail_value"@ != "tail_label"@,
        "has_tail"@ != "decision"@,
        "has_tail"@ != "body"@,
        "has_tail"@ != "tail_label"@,
        "has_tail"@ != "tail_value"@,
{
    reveal_strlit("decision");
    reveal_strlit("body");
    reveal_strlit("tail_label");
    reveal_strlit("tail_value");
    reveal_strlit("has_tail");
    assert("body"@.len() == 4);
    assert("decision"@.len() == 8);
    assert("tail_label"@.len() == 10);
    assert("tail_value"@.len() == 10);
    assert("has_tail"@.len() == 8);
    assert("tail_label"@[5] == 'l');
    assert("tail_value"@[5] == 'v');
    assert("has_tail"@[0] == 'h');
    assert("decision"@[0] == 'd');
}

/// The language item named `name`, which must be defined.
fn language_item(env: &Environment, name: &str) -> (r: ItemPtr)
    requires
        env.wf(),
        env.spec_get_language_item(name@) is Some,
    ensures
        Some(r) == env.spec_get_language_item(name@),
        env.valid_item(r),
{
    match env.get_language_item(name) {
        Some(p) => p,
        None => {
            proof {
                assert(false);
            }
            ItemPtr(0)
        },
    }
}

impl DBuiltinFunction {
    /// The builtin function named `name`, its parameters being the language
    /// items that stand for them.
    pub fn from_name(env: &Environment, name: &str) -> (r: Option<Self>)
        requires
            env.wf(),
            builtin_of_name(name@) matches Some(f) ==> params_defined(env, f),
        ensures
            r is None <==> builtin_of_name(name@) is None,
            r matches Some(d) ==> builtin_of_name(name@) == Some(d.func) && d.args@.len() == builtin_param_names(
                d.func,
            ).len() && forall|i: int|
                0 <= i < d.args@.len() ==> Some(#[trigger] d.args@[i]) == env.spec_get_language_item(
                    builtin_param_names(d.func)[i],
                ),
            r matches Some(d) ==> env.valid_items(d.args@),
    {
        let key = name.to_owned();
        let func = if key == "decision".to_owned() {
            BuiltinFunction::Decision
        } else if key == "body".to_owned() {
            BuiltinFunction::Body
        } else if key == "tail_label".to_owned() {
            BuiltinFunction::TailLabel
        } else if key == "tail_value".to_owned() {
            BuiltinFunction::TailValue
        } else if key == "has_tail".to_owned() {
            BuiltinFunction::HasTail
        } else {
            return None;
        };
        let mut args: Vec<ItemPtr> = Vec::new();
        match func {
            BuiltinFunction::Decision => {
                proof {
                    assert(env.spec_get_language_item(builtin_param_names(func)[0]) is Some);
                    assert(env.spec_get_language_item(builtin_param_names(func)[1]) is Some);
                    assert(env.spec_get_language_item(builtin_param_names(func)[2]) is Some);
                    assert(env.spec_get_language_item(builtin_param_names(func)[3]) is Some);
                }
                args.push(language_item(env, "x"));
                args.push(language_item(env, "y"));
                args.push(language_item(env, "when_equal"));
                args.push(language_item(env, "when_not_equal"));
            },
            _ => {
                proof {
                    assert(env.spec_get_language_item(builtin_param_names(func)[0]) is Some);
                }
                args.push(language_item(env, "x"));
            },
        }
        Some(DBuiltinFunction { func, args })
    }

    /// The name of this builtin function.
    pub fn get_name(&self) -> (r: &'static str)
        ensures
            r@ == builtin_name(self.func),
    {
        match self.func {
            BuiltinFunction::Decision => "decision",
            BuiltinFunction::Body => "body",
            BuiltinFunction::TailLabel => "tail_label",
            BuiltinFunction::TailValue => "tail_value",
            BuiltinFunction::HasTail => "has_tail",
        }
    }

    /// Creates, in `scope`, the builtin function named `name` and gives the
    /// substitution of `args` for its parameters, in order, still to be
    /// resolved.
    pub fn with_args(env: &mut Environment, name: &str, args: Vec<ItemPtr>, scope: Scope, position: Position) -> (r:
        RSubstitution)
        requires
            old(env).wf(),
            old(env).scope_valid(scope),
            builtin_of_name(name@) matches Some(f) && params_defined(old(env), f),
        ensures
            final(env).wf(),
            crate::util::appended(old(env), final(env)),
            final(env).spec_items().len() == old(env).spec_items().len() + 1,
            r.base.index() == old(env).spec_items().len(),
            final(env).def(r.base) matches Definition::BuiltinFunction(d) && Some(d.func) == builtin_of_name(name@),
            final(env).item(r.base).scope == scope,
            r.anonymous_subs@ == args@,
            r.named_subs@.len() == 0,
            r.named_proofs@.len() == 0,
            r.position == position,
            crate::ecc::no_placeholders(old(env)) ==> crate::ecc::no_placeholders(final(env)),
    {
        let base = match Self::from_name(env, name) {
            Some(d) => d,
            None => {
                proof {
                    assert(false);
                }
                DBuiltinFunction { func: BuiltinFunction::Decision, args: Vec::new() }
            },
        };
        proof {
            let c = crate::item::content_items(Definition::BuiltinFunction(base));
            assert(c =~= base.args@);
        }
        let ghost env0 = *env;
        let base = env.push_item(Definition::BuiltinFunction(base), scope);
        proof {
            if crate::ecc::no_placeholders(&env0) {
                assert forall|i: int| 0 <= i < env.spec_items().len() implies !((#[trigger] env.spec_items()[i]).definition is Placeholder) by {
                    if i < env0.spec_items().len() {
                        assert(env.spec_items()[i] == env0.spec_items()[i]);
                    }
                }
            }
        }
        RSubstitution {
            base,
            position,
            named_subs: Vec::new(),
            named_proofs: Vec::new(),
            anonymous_subs: args,
        }
    }

    /// `decision` applied to the four items.
    pub fn decision(
        env: &mut Environment,
        x: ItemPtr,
        y: ItemPtr,
        when_equal: ItemPtr,
        when_not_equal: ItemPtr,
        scope: Scope,
        position: Position,
    ) -> (r: RSubstitution)
        requires
            old(env).wf(),
            old(env).scope_valid(scope),
            params_defined(old(env), BuiltinFunction::Decision),
        ensures
            final(env).wf(),
            crate::util::appended(old(env), final(env)),
            final(env).def(r.base) matches Definition::BuiltinFunction(d) && d.func == BuiltinFunction::Decision,
            final(env).spec_items().len() == old(env).spec_items().len() + 1,
            final(env).valid_item(r.base),
            r.named_subs@.len() == 0,
            r.named_proofs@.len() == 0,
            r.anonymous_subs@ == seq![x, y, when_equal, when_not_equal],
            crate::ecc::no_placeholders(old(env)) ==> crate::ecc::no_placeholders(final(env)),
    {
        let args = vec![x, y, when_equal, when_not_equal];
        proof {
            reveal_strlit("decision");
        }
        Self::with_args(env, "decision", args, scope, position)
    }

    /// `body` applied to `x`.
    pub fn body(env: &mut Environment, x: ItemPtr, scope: Scope, position: Position) -> (r: RSubstitution)
        requires
            old(env).wf(),
            old(env).scope_valid(scope),
            params_defined(old(env), BuiltinFunction::Body),
        ensures
            final(env).wf(),
            crate::util::appended(old(env), final(env)),
            final(env).def(r.base) matches Definition::BuiltinFunction(d) && d.func == BuiltinFunction::Body,
            final(env).valid_item(r.base),
            r.named_subs@.len() == 0,
            r.named_proofs@.len() == 0,
            r.anonymous_subs@ == seq![x],
            crate::ecc::no_placeholders(old(env)) ==> crate::ecc::no_placeholders(final(env)),
    {
        let args = vec![x];
        proof {
            lemma_builtin_names_distinct();
        }
        Self::with_args(env, "body", args, scope, position)
    }

    /// `tail_label` applied to `x`.
    pub fn tail_label(env: &mut Environment, x: ItemPtr, scope: Scope, position: Position) -> (r: RSubstitution)
        requires
            old(env).wf(),
            old(env).scope_valid(scope),
            params_defined(old(env), BuiltinFunction::TailLabel),
        ensures
            final(env).wf(),
            crate::util::appended(old(env), final(env)),
            final(env).def(r.base) matches Definition::BuiltinFunction(d) && d.func == BuiltinFunction::TailLabel,
            final(env).valid_item(r.base),
            r.named_subs@.len() == 0,
            r.named_proofs@.len() == 0,
            r.anonymous_subs@ == seq![x],
            crate::ecc::no_placeholders(old(env)) ==> crate::ecc::no_placeholders(final(env)),
    {
        let args = vec![x];
        proof {
            lemma_builtin_names_distinct();
        }
        Self::with_args(env, "tail_label", args, scope, position)
    }

    /// `tail_value` applied to `x`.
    pub fn tail_value(env: &mut Environment, x: ItemPtr, scope: Scope, position: Position) -> (r: RSubstitution)
        requires
            old(env).wf(),
            old(env).scope_valid(scope),
            params_defined(old(env), BuiltinFunction::TailValue),
        ensures
            final(env).wf(),
            crate::util::appended(old(env), final(env)),
            final(env).def(r.base) matches Definition::BuiltinFunction(d) && d.func == BuiltinFunction::TailValue,
            final(env).valid_item(r.base),
            r.named_subs@.len() == 0,
            r.named_proofs@.len() == 0,
            r.anonymous_subs@ == seq![x],
            crate::ecc::no_placeholders(old(env)) ==> crate::ecc::no_placeholders(final(env)),
    {
        let args = vec![x];
        proof {
            lemma_builtin_names_distinct();
        }
        Self::with_args(env, "tail_value", args, scope, position)
    }

    /// `has_tail` applied to `x`.
    pub fn has_tail(env: &mut Environment, x: ItemPtr, scope: Scope, position: Position) -> (r: RSubstitution)
        requires
            old(env).wf(),
            old(env).scope_valid(scope),
            params_defined(old(env), BuiltinFunction::HasTail),
        ensures
            final(env).wf(),
            crate::util::appended(old(env), final(env)),
            final(env).def(r.base) matches Definition::BuiltinFunction(d) && d.func == BuiltinFunction::HasTail,
            final(env).valid_item(r.base),
            r.named_subs@.len() == 0,
            r.named_proofs@.len() == 0,
            r.anonymous_subs@ == seq![x],
            crate::ecc::no_placeholders(old(env)) ==> crate::ecc::no_placeholders(final(env)),
    {
        let args = vec![x];
        proof {
            lemma_builtin_names_distinct();
        }
        Self::with_args(env, "has_tail", args, scope, position)
    }
}

} // verus!
