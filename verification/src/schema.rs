//! The command schema as the crate sees it: a list of subcommands, each
//! with an ordered list of argument declarations.
//!
//! The embedding process reads these plain values off its own command-line
//! schema engine; everything the extractor and the marshaller decide is
//! decided from the fields below.

use vstd::prelude::*;

verus! {

/// One argument declaration of a subcommand.
pub struct ArgSpec {
    /// Identifier, unique within its subcommand.
    pub id: String,
    /// Optional help string.
    pub help: Option<String>,
    /// Whether the schema marks the argument required.
    pub required: bool,
    /// Whether the schema hides the argument.
    pub hidden: bool,
    /// Whether the argument carries a long or short invocation token.
    /// An argument without one is positional.
    pub named: bool,
    /// Minimum number of values of the declared arity; zero means the
    /// argument is a flag.
    pub min_values: u64,
    /// Declared positional index, if the schema assigns one.
    pub index: Option<usize>,
}

/// Mathematical image of an [`ArgSpec`].
pub struct ArgSpecView {
    pub id: Seq<char>,
    pub help: Option<Seq<char>>,
    pub required: bool,
    pub hidden: bool,
    pub named: bool,
    pub min_values: u64,
    pub index: Option<int>,
}

impl View for ArgSpec {
    type V = ArgSpecView;

    open spec fn view(&self) -> ArgSpecView {
        ArgSpecView {
            id: self.id@,
            help: match self.help {
                Option::Some(h) => Option::Some(h@),
                Option::None => Option::None,
            },
            required: self.required,
            hidden: self.hidden,
            named: self.named,
            min_values: self.min_values,
            index: match self.index {
                Option::Some(i) => Option::Some(i as int),
                Option::None => Option::None,
            },
        }
    }
}

/// One subcommand of the schema.
pub struct SubcommandSpec {
    /// The subcommand's name, which doubles as the tool name.
    pub name: String,
    /// Optional human-readable summary.
    pub about: Option<String>,
    /// Whether the schema hides the subcommand.
    pub hidden: bool,
    /// The arguments, in declaration order.
    pub args: Vec<ArgSpec>,
}

/// Mathematical image of a [`SubcommandSpec`].
pub struct SubcommandSpecView {
    pub name: Seq<char>,
    pub about: Option<Seq<char>>,
    pub hidden: bool,
    pub args: Seq<ArgSpecView>,
}

impl View for SubcommandSpec {
    type V = SubcommandSpecView;

    open spec fn view(&self) -> SubcommandSpecView {
        SubcommandSpecView {
            name: self.name@,
            about: match self.about {
                Option::Some(a) => Option::Some(a@),
                Option::None => Option::None,
            },
            hidden: self.hidden,
            args: self.args@.map_values(|a: ArgSpec| a@),
        }
    }
}

/// A whole command schema: the top-level subcommands in declaration order.
pub struct CommandSchema {
    pub subcommands: Vec<SubcommandSpec>,
}

impl View for CommandSchema {
    type V = Seq<SubcommandSpecView>;

    open spec fn view(&self) -> Seq<SubcommandSpecView> {
        self.subcommands@.map_values(|s: SubcommandSpec| s@)
    }
}

/// Whether an argument is surfaced to protocol clients: implicit help and
/// version arguments and hidden arguments never are.
pub open spec fn surfaced(a: ArgSpecView) -> bool {
    &&& !a.hidden
    &&& a.id != "help"@
    &&& a.id != "version"@
}

/// An argument whose declared arity admits zero values is a flag and is
/// exposed as a boolean; every other argument is exposed as text.
pub open spec fn is_flag_arg(a: ArgSpecView) -> bool {
    a.min_values == 0
}

/// An argument with no named invocation token is positional.
pub open spec fn is_positional_arg(a: ArgSpecView) -> bool {
    !a.named
}

} // verus!
