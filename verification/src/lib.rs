//! A multi-language, AST-aware code search-and-rewrite engine.
//!
//! A textual pattern mixes literal source fragments with placeholders:
//! metavariables (`$name`), anonymous wildcards (`$_`), sibling ellipses
//! (`$..`) and embedded Lua predicates or replacements (`${{ ... }}`).
//! The pattern is re-parsed with the target grammar, and the resulting goal
//! tree is matched structurally against each subtree of the input.

pub mod env;
pub mod tree;
pub mod ts;
pub mod node_types;
pub mod report;
pub mod pattern;
pub mod matcher;
pub mod driver;
pub mod luabridge;
pub mod rewrite;
pub mod cli;
pub mod laws;
