//! Expose a declarative command schema (subcommands with typed, named or
//! positional arguments) as remotely invokable tools.
//!
//! The crate translates in both directions: it extracts protocol-visible
//! tool descriptors from a command schema, and it marshals an incoming
//! key/value argument payload back into the token sequence the schema's
//! parser expects, so that a caller-supplied handler can run the resulting
//! typed command.

use vstd::prelude::*;

pub mod descriptor;
pub mod marshal;
pub mod outcome;
pub mod parse;
pub mod schema;
pub mod text;

verus! {

} // verus!
