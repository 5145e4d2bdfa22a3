//! Defunctionalization of an SSA intermediate representation: function values
//! become numeric identifiers and every call through a non-literal target is
//! rewritten into a direct call of a dispatching `apply` function.

pub mod ir;
pub mod defunctionalize;
pub mod ast;
