use clap_mcp::descriptor::extract_tools;
use clap_mcp::marshal::{marshal_tokens, ArgValue};
use clap_mcp::schema::{ArgSpec, CommandSchema, SubcommandSpec};

fn positional_arg(id: &str, required: bool, index: usize) -> ArgSpec {
    ArgSpec {
        id: String::from(id),
        help: None,
        required,
        hidden: false,
        named: false,
        min_values: 1,
        index: Some(index),
    }
}

fn named_flag_arg(id: &str) -> ArgSpec {
    ArgSpec {
        id: String::from(id),
        help: None,
        required: false,
        hidden: false,
        named: true,
        min_values: 0,
        index: None,
    }
}

fn named_value_arg(id: &str, required: bool) -> ArgSpec {
    ArgSpec {
        id: String::from(id),
        help: None,
        required,
        hidden: false,
        named: true,
        min_values: 1,
        index: None,
    }
}

fn positional_schema() -> CommandSchema {
    CommandSchema {
        subcommands: vec![
            SubcommandSpec {
                name: String::from("from-utf8"),
                about: None,
                hidden: false,
                args: vec![
                    positional_arg("text", true, 1),
                    positional_arg("optional", false, 2),
                ],
            },
            SubcommandSpec {
                name: String::from("mixed"),
                about: None,
                hidden: false,
                args: vec![
                    positional_arg("input", true, 1),
                    named_flag_arg("verbose"),
                    positional_arg("output", true, 2),
                ],
            },
        ],
    }
}

fn text(s: &str) -> ArgValue {
    ArgValue::Text(String::from(s))
}

#[test]
fn single_positional_argument() {
    let tools = extract_tools(&positional_schema());
    let args = vec![(String::from("text"), text("hello"))];
    let tokens = marshal_tokens(&tools, "from-utf8", &args);
    assert_eq!(tokens, vec!["mcp", "from-utf8", "hello"]);
}

#[test]
fn two_positional_arguments_in_index_order() {
    let tools = extract_tools(&positional_schema());
    let args = vec![
        (String::from("text"), text("hello")),
        (String::from("optional"), text("world")),
    ];
    let tokens = marshal_tokens(&tools, "from-utf8", &args);
    assert_eq!(tokens, vec!["mcp", "from-utf8", "hello", "world"]);
}

#[test]
fn positional_order_ignores_request_order() {
    let tools = extract_tools(&positional_schema());
    let forward = vec![
        (String::from("text"), text("hello")),
        (String::from("optional"), text("world")),
    ];
    let backward = vec![
        (String::from("optional"), text("world")),
        (String::from("text"), text("hello")),
    ];
    assert_eq!(
        marshal_tokens(&tools, "from-utf8", &forward),
        marshal_tokens(&tools, "from-utf8", &backward)
    );
}

#[test]
fn positionals_precede_flags_in_index_order() {
    let tools = extract_tools(&positional_schema());
    let args = vec![
        (String::from("input"), text("foo.txt")),
        (String::from("output"), text("bar.txt")),
        (String::from("verbose"), ArgValue::Flag(true)),
    ];
    let tokens = marshal_tokens(&tools, "mixed", &args);
    assert_eq!(
        tokens,
        vec!["mcp", "mixed", "foo.txt", "bar.txt", "--verbose"]
    );
    let shuffled = vec![
        (String::from("verbose"), ArgValue::Flag(true)),
        (String::from("output"), text("bar.txt")),
        (String::from("input"), text("foo.txt")),
    ];
    assert_eq!(marshal_tokens(&tools, "mixed", &shuffled), tokens);
}

#[test]
fn true_flag_yields_one_token_false_flag_yields_none() {
    let tools = extract_tools(&positional_schema());
    let on = vec![(String::from("verbose"), ArgValue::Flag(true))];
    assert_eq!(marshal_tokens(&tools, "mixed", &on), vec!["mcp", "mixed", "--verbose"]);
    let off = vec![(String::from("verbose"), ArgValue::Flag(false))];
    assert_eq!(marshal_tokens(&tools, "mixed", &off), vec!["mcp", "mixed"]);
}

#[test]
fn named_value_follows_its_flag_token() {
    let schema = CommandSchema {
        subcommands: vec![SubcommandSpec {
            name: String::from("add"),
            about: None,
            hidden: false,
            args: vec![named_value_arg("a", true), named_value_arg("b", true)],
        }],
    };
    let tools = extract_tools(&schema);
    let args = vec![
        (String::from("a"), text("10")),
        (String::from("b"), text("32")),
    ];
    let tokens = marshal_tokens(&tools, "add", &args);
    assert_eq!(tokens, vec!["mcp", "add", "--a", "10", "--b", "32"]);
}

#[test]
fn unknown_tool_treats_every_argument_as_named() {
    let tools = extract_tools(&positional_schema());
    let args = vec![(String::from("text"), text("hello"))];
    let tokens = marshal_tokens(&tools, "bogus", &args);
    assert_eq!(tokens, vec!["mcp", "bogus", "--text", "hello"]);
}

#[test]
fn unknown_key_defaults_to_named() {
    let tools = extract_tools(&positional_schema());
    let args = vec![(String::from("stray"), text("x"))];
    let tokens = marshal_tokens(&tools, "from-utf8", &args);
    assert_eq!(tokens, vec!["mcp", "from-utf8", "--stray", "x"]);
}

#[test]
fn positional_boolean_renders_as_text() {
    let tools = extract_tools(&positional_schema());
    let args = vec![(String::from("text"), ArgValue::Flag(true))];
    let tokens = marshal_tokens(&tools, "from-utf8", &args);
    assert_eq!(tokens, vec!["mcp", "from-utf8", "true"]);
}

#[test]
fn equal_positions_keep_request_order() {
    // without explicit indices the fallback counter numbers entries in
    // request order, so the request order decides
    let schema = CommandSchema {
        subcommands: vec![SubcommandSpec {
            name: String::from("cat"),
            about: None,
            hidden: false,
            args: vec![
                ArgSpec {
                    id: String::from("left"),
                    help: None,
                    required: true,
                    hidden: false,
                    named: false,
                    min_values: 1,
                    index: None,
                },
                ArgSpec {
                    id: String::from("right"),
                    help: None,
                    required: true,
                    hidden: false,
                    named: false,
                    min_values: 1,
                    index: None,
                },
            ],
        }],
    };
    let tools = extract_tools(&schema);
    let args = vec![
        (String::from("right"), text("r")),
        (String::from("left"), text("l")),
    ];
    // "right" has position 1 and "left" position 0 from the schema's own
    // declaration order, so sorting still puts "left" first
    let tokens = marshal_tokens(&tools, "cat", &args);
    assert_eq!(tokens, vec!["mcp", "cat", "l", "r"]);
}
