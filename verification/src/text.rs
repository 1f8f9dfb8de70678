//! Small text helpers shared by the extractor and the marshaller.

use vstd::prelude::*;

verus! {

/// Relies on str's `PartialEq`: two string slices compare equal exactly
/// when they hold the same characters.
#[verifier::external_body]
pub(crate) fn str_eq(a: &str, b: &str) -> (r: bool)
    ensures
        r == (a@ == b@),
{
    a == b
}

/// The invocation token of a named argument: the argument's name behind a
/// double dash.
pub open spec fn flag_token(name: Seq<char>) -> Seq<char> {
    "--"@ + name
}

/// Builds the `--name` invocation token of a named argument.
pub fn make_flag_token(name: &str) -> (r: String)
    ensures
        r@ == flag_token(name@),
{
    String::from_str("--").concat(name)
}

} // verus!
