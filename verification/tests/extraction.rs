use clap_mcp::descriptor::{extract_tools, PropKind};
use clap_mcp::schema::{ArgSpec, CommandSchema, SubcommandSpec};

fn named_value_arg(id: &str, help: &str, required: bool) -> ArgSpec {
    ArgSpec {
        id: String::from(id),
        help: Some(String::from(help)),
        required,
        hidden: false,
        named: true,
        min_values: 1,
        index: None,
    }
}

fn named_flag_arg(id: &str, help: &str) -> ArgSpec {
    ArgSpec {
        id: String::from(id),
        help: Some(String::from(help)),
        required: false,
        hidden: false,
        named: true,
        min_values: 0,
        index: None,
    }
}

fn positional_arg(id: &str, help: &str, required: bool, index: usize) -> ArgSpec {
    ArgSpec {
        id: String::from(id),
        help: Some(String::from(help)),
        required,
        hidden: false,
        named: false,
        min_values: 1,
        index: Some(index),
    }
}

fn implicit_arg(id: &str) -> ArgSpec {
    ArgSpec {
        id: String::from(id),
        help: None,
        required: false,
        hidden: false,
        named: true,
        min_values: 0,
        index: None,
    }
}

fn calculator_schema() -> CommandSchema {
    CommandSchema {
        subcommands: vec![
            SubcommandSpec {
                name: String::from("add"),
                about: Some(String::from("Add two numbers")),
                hidden: false,
                args: vec![
                    named_value_arg("a", "First number", true),
                    named_value_arg("b", "Second number", true),
                    implicit_arg("help"),
                ],
            },
            SubcommandSpec {
                name: String::from("subtract"),
                about: Some(String::from("Subtract two numbers")),
                hidden: false,
                args: vec![
                    named_value_arg("minuend", "Number to subtract from", true),
                    named_value_arg("subtrahend", "Number to subtract", true),
                    implicit_arg("help"),
                ],
            },
            SubcommandSpec {
                name: String::from("multiply"),
                about: Some(String::from("Multiply two numbers")),
                hidden: false,
                args: vec![
                    named_value_arg("value1", "First value", true),
                    named_value_arg("value2", "Second value", true),
                    implicit_arg("help"),
                ],
            },
            SubcommandSpec {
                name: String::from("divide"),
                about: Some(String::from("Divide two numbers")),
                hidden: false,
                args: vec![
                    named_value_arg("dividend", "Number to divide", true),
                    named_value_arg("divisor", "Number to divide by", true),
                    implicit_arg("help"),
                ],
            },
            SubcommandSpec {
                name: String::from("hello"),
                about: Some(String::from("Say hello to someone")),
                hidden: false,
                args: vec![
                    named_value_arg("name", "Name to greet", true),
                    named_flag_arg("excited", "Whether to be excited"),
                    implicit_arg("help"),
                ],
            },
        ],
    }
}

#[test]
fn one_descriptor_per_subcommand() {
    let tools = extract_tools(&calculator_schema());
    assert_eq!(tools.len(), 5);
    let names: Vec<&str> = tools.iter().map(|t| t.name.as_str()).collect();
    assert_eq!(names, vec!["add", "subtract", "multiply", "divide", "hello"]);
}

#[test]
fn required_matches_schema() {
    let tools = extract_tools(&calculator_schema());
    assert_eq!(tools[0].required, vec![String::from("a"), String::from("b")]);
    assert_eq!(
        tools[1].required,
        vec![String::from("minuend"), String::from("subtrahend")]
    );
    // the flag is optional, so only the name is required
    assert_eq!(tools[4].required, vec![String::from("name")]);
}

#[test]
fn descriptions_come_from_the_schema() {
    let tools = extract_tools(&calculator_schema());
    assert_eq!(tools[0].description, "Add two numbers");
    let (key, shape) = &tools[0].properties[0];
    assert_eq!(key, "a");
    assert_eq!(shape.description.as_deref(), Some("First number"));
}

#[test]
fn implicit_and_hidden_arguments_are_skipped() {
    let mut schema = calculator_schema();
    schema.subcommands[0].args.push(implicit_arg("version"));
    schema.subcommands[0].args.push(ArgSpec {
        id: String::from("secret"),
        help: None,
        required: false,
        hidden: true,
        named: true,
        min_values: 1,
        index: None,
    });
    let tools = extract_tools(&schema);
    let keys: Vec<&str> = tools[0].properties.iter().map(|p| p.0.as_str()).collect();
    assert_eq!(keys, vec!["a", "b"]);
}

#[test]
fn hidden_subcommands_are_skipped() {
    let mut schema = calculator_schema();
    schema.subcommands[2].hidden = true;
    let tools = extract_tools(&schema);
    assert_eq!(tools.len(), 4);
    let names: Vec<&str> = tools.iter().map(|t| t.name.as_str()).collect();
    assert_eq!(names, vec!["add", "subtract", "divide", "hello"]);
}

#[test]
fn flags_are_boolean_and_values_are_text() {
    let tools = extract_tools(&calculator_schema());
    let hello = &tools[4];
    assert_eq!(hello.properties[0].1.kind, PropKind::Text);
    assert_eq!(hello.properties[1].1.kind, PropKind::Boolean);
}

#[test]
fn positional_arguments_carry_their_position() {
    let schema = CommandSchema {
        subcommands: vec![SubcommandSpec {
            name: String::from("from-utf8"),
            about: Some(String::from("Convert text from UTF-8")),
            hidden: false,
            args: vec![
                positional_arg("text", "The text to convert", true, 1),
                positional_arg("optional", "Optional second positional argument", false, 2),
            ],
        }],
    };
    let tools = extract_tools(&schema);
    let props = &tools[0].properties;
    assert!(props[0].1.positional);
    assert_eq!(props[0].1.position, Some(1));
    assert!(props[1].1.positional);
    assert_eq!(props[1].1.position, Some(2));
}

#[test]
fn positional_fallback_counter_numbers_unindexed_arguments() {
    let schema = CommandSchema {
        subcommands: vec![SubcommandSpec {
            name: String::from("pair"),
            about: None,
            hidden: false,
            args: vec![
                ArgSpec {
                    id: String::from("first"),
                    help: None,
                    required: true,
                    hidden: false,
                    named: false,
                    min_values: 1,
                    index: None,
                },
                ArgSpec {
                    id: String::from("second"),
                    help: None,
                    required: false,
                    hidden: false,
                    named: false,
                    min_values: 1,
                    index: None,
                },
            ],
        }],
    };
    let tools = extract_tools(&schema);
    assert_eq!(tools[0].description, "");
    assert_eq!(tools[0].properties[0].1.position, Some(0));
    assert_eq!(tools[0].properties[1].1.position, Some(1));
}

#[test]
fn empty_schema_yields_no_descriptors() {
    let tools = extract_tools(&CommandSchema { subcommands: vec![] });
    assert_eq!(tools.len(), 0);
}
