//! Code generation for components and param bundles.
//!
//! The input is the token list of a type declaration, the output the text of the
//! impls that belong to it.

pub mod attributes;
pub mod bundle;
pub mod code;
pub mod laws;
pub mod lifetime;
pub mod template;
pub mod tokens;
