//! The item graph, dependency, equality, invariant and query machinery of the
//! Scarlet language, verified with Verus.
pub mod diagnostic;
pub mod item;
pub mod query;
pub mod stack;
pub mod substitutions;
pub mod variable;
pub mod definitions;
pub mod invariants;
pub mod environment;
pub mod deref;
pub mod resolvable;
pub mod traversal;
pub mod dependencies;
pub mod dcc;
pub mod justify;
pub mod equal;
pub mod ecc;
pub mod util;
pub mod trim;
pub mod equality_laws;
pub mod scopes;
pub mod icc;
pub mod builtins;
pub mod resolve;
pub mod from;
