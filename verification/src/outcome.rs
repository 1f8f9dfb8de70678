//! Dispatch outcomes and call errors.
//!
//! A handler is a function from the typed command value to
//! `Result<String, String>`. Its outcome maps to a protocol tool result:
//! success text becomes a success-flagged result, failure text an
//! error-flagged result, and a missing handler an error-flagged result
//! with a fixed explanatory message — never a protocol-level error, since
//! listing tools must work before a handler is wired.
//!
//! A [`CallError`], in contrast, is a protocol-level error: the request
//! itself could not be turned into a typed command value.

use vstd::prelude::*;

verus! {

/// A protocol tool result: one text content item, flagged as success or
/// as error.
pub struct ToolOutput {
    pub text: String,
    pub is_error: bool,
}

/// Mathematical image of a [`ToolOutput`].
pub struct ToolOutputView {
    pub text: Seq<char>,
    pub is_error: bool,
}

impl View for ToolOutput {
    type V = ToolOutputView;

    open spec fn view(&self) -> ToolOutputView {
        ToolOutputView { text: self.text@, is_error: self.is_error }
    }
}

/// The fixed text of the result returned while no handler is registered.
pub open spec fn no_handler_message() -> Seq<char> {
    "No command handler provided. The CLI must provide a handler function to execute commands in MCP mode."@
}

/// The image of a handler outcome: the handler's own result text, or
/// nothing when no handler is registered.
pub open spec fn outcome_view(outcome: Option<Result<String, String>>) -> Option<
    Result<Seq<char>, Seq<char>>,
> {
    match outcome {
        Option::Some(Result::Ok(s)) => Option::Some(Result::Ok(s@)),
        Option::Some(Result::Err(e)) => Option::Some(Result::Err(e@)),
        Option::None => Option::None,
    }
}

/// What dispatching an outcome returns: handler success text verbatim as
/// a success result, handler failure text verbatim as an error result,
/// and the fixed message as an error result when no handler exists.
pub open spec fn dispatch_spec(outcome: Option<Result<Seq<char>, Seq<char>>>) -> ToolOutputView {
    match outcome {
        Option::Some(Result::Ok(s)) => ToolOutputView { text: s, is_error: false },
        Option::Some(Result::Err(e)) => ToolOutputView { text: e, is_error: true },
        Option::None => ToolOutputView { text: no_handler_message(), is_error: true },
    }
}

/// Maps a handler outcome to the protocol tool result. `None` stands for
/// "no handler registered"; the handler's own failure text is carried
/// verbatim and never escalated to a protocol-level error.
pub fn dispatch(outcome: Option<Result<String, String>>) -> (r: ToolOutput)
    ensures
        r@ == dispatch_spec(outcome_view(outcome)),
{
    match outcome {
        Option::Some(Result::Ok(s)) => ToolOutput { text: s, is_error: false },
        Option::Some(Result::Err(e)) => ToolOutput { text: e, is_error: true },
        Option::None => ToolOutput {
            text: String::from_str(
                "No command handler provided. The CLI must provide a handler function to execute commands in MCP mode.",
            ),
            is_error: true,
        },
    }
}

/// Why an invocation request could not become a typed command value.
#[derive(Debug)]
pub enum CallError {
    /// The marshalled token sequence did not satisfy the schema.
    InvalidArguments(String),
    /// The tokens matched, but converting the match into the typed
    /// command value failed.
    SubcommandConversionFailed(String),
}

/// Mathematical image of a [`CallError`].
pub enum CallErrorView {
    InvalidArguments(Seq<char>),
    SubcommandConversionFailed(Seq<char>),
}

impl View for CallError {
    type V = CallErrorView;

    open spec fn view(&self) -> CallErrorView {
        match self {
            CallError::InvalidArguments(m) => CallErrorView::InvalidArguments(m@),
            CallError::SubcommandConversionFailed(m) => CallErrorView::SubcommandConversionFailed(
                m@,
            ),
        }
    }
}

/// The text a call error surfaces on the protocol: the parser's own
/// diagnostic behind a prefix naming the failure.
pub open spec fn protocol_message_of(e: CallErrorView) -> Seq<char> {
    match e {
        CallErrorView::InvalidArguments(m) => "Invalid arguments: "@ + m,
        CallErrorView::SubcommandConversionFailed(m) => "Failed to parse subcommand: "@ + m,
    }
}

impl CallError {
    /// Renders the error as the protocol-level error message.
    pub fn protocol_message(&self) -> (r: String)
        ensures
            r@ == protocol_message_of(self@),
    {
        match self {
            CallError::InvalidArguments(m) => String::from_str("Invalid arguments: ").concat(
                m.as_str(),
            ),
            CallError::SubcommandConversionFailed(m) => String::from_str(
                "Failed to parse subcommand: ",
            ).concat(m.as_str()),
        }
    }
}

} // verus!
