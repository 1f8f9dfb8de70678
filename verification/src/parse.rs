//! The boundary to the command-schema engine.
//!
//! The engine (clap) owns token parsing: this module marshals a request
//! into tokens and hands them to the engine's parser against the full
//! command tree. The engine's types are opaque here; what the crate
//! decides — which tokens are fed in, and how a parse failure is
//! classified — is verified, while the parse call itself is trusted.

use vstd::prelude::*;
use crate::descriptor::{ToolDescriptor, descriptor_views};
use crate::marshal::{ArgValue, arg_views, marshal_spec, marshal_tokens, token_views};
use crate::outcome::CallError;

verus! {

#[verifier::external_type_specification]
#[verifier::external_body]
pub struct ExCommand(clap::Command);

#[verifier::external_type_specification]
#[verifier::external_body]
pub struct ExArgMatches(clap::ArgMatches);

/// Whether the engine's parser accepts the token sequence against the
/// command tree: clap's parse is a function of the command and the
/// tokens alone, so its verdict carries a name.
pub uninterp spec fn parse_accepts(cmd: clap::Command, tokens: Seq<Seq<char>>) -> bool;

/// Relies on clap's `Command::try_get_matches_from`: it parses the token
/// sequence (program name first) against the command tree and returns the
/// matched arguments exactly when the tree accepts the tokens —
/// [`parse_accepts`] — or a parse error rendered here as its diagnostic
/// text through clap's `Display` for `Error`; it neither exits nor
/// prints. The command must be one the engine built.
#[verifier::external_body]
fn try_parse(cmd: clap::Command, tokens: &Vec<String>) -> (r: Result<clap::ArgMatches, String>)
    ensures
        (r is Ok) == parse_accepts(cmd, token_views(tokens@)),
{
    cmd.try_get_matches_from(tokens).map_err(|e| e.to_string())
}

/// Marshals one invocation request into tokens and parses them against
/// the full command tree: the call succeeds exactly when the engine
/// accepts the marshalled token sequence. A token sequence the schema
/// does not accept comes back as [`CallError::InvalidArguments`] carrying
/// the parser's diagnostic; converting the match into the typed command
/// value is the caller's step, since only the embedding process knows the
/// command type.
pub fn marshal_and_parse(
    cmd: clap::Command,
    tools: &Vec<ToolDescriptor>,
    name: &str,
    args: &Vec<(String, ArgValue)>,
) -> (r: Result<clap::ArgMatches, CallError>)
    ensures
        (r is Ok) == parse_accepts(
            cmd,
            marshal_spec(descriptor_views(tools@), name@, arg_views(args@)),
        ),
        r is Err ==> r->Err_0@ is InvalidArguments,
{
    let tokens = marshal_tokens(tools, name, args);
    match try_parse(cmd, &tokens) {
        Result::Ok(matches) => Result::Ok(matches),
        Result::Err(e) => Result::Err(CallError::InvalidArguments(e)),
    }
}

} // verus!
