use clap_mcp::outcome::{dispatch, CallError};

#[test]
fn handler_success_text_is_carried_verbatim() {
    let r = dispatch(Some(Ok(String::from("10 + 32 = 42"))));
    assert!(!r.is_error);
    assert_eq!(r.text, "10 + 32 = 42");
}

#[test]
fn handler_failure_text_is_error_flagged() {
    let r = dispatch(Some(Err(String::from("Division by zero"))));
    assert!(r.is_error);
    assert_eq!(r.text, "Division by zero");
}

#[test]
fn missing_handler_is_an_error_flagged_result() {
    let r = dispatch(None);
    assert!(r.is_error);
    assert_eq!(
        r.text,
        "No command handler provided. The CLI must provide a handler function to execute commands in MCP mode."
    );
}

#[test]
fn invalid_arguments_message_carries_the_diagnostic() {
    let e = CallError::InvalidArguments(String::from("the following required arguments were not provided"));
    assert_eq!(
        e.protocol_message(),
        "Invalid arguments: the following required arguments were not provided"
    );
}

#[test]
fn conversion_failure_message_carries_the_diagnostic() {
    let e = CallError::SubcommandConversionFailed(String::from("bad value"));
    assert_eq!(e.protocol_message(), "Failed to parse subcommand: bad value");
}
