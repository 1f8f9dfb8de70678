//! Tool descriptor extraction.
//!
//! One descriptor per non-hidden subcommand, in the schema's own order.
//! Implicit help and version arguments and hidden arguments are never
//! surfaced; a flag argument is exposed as a boolean property and every
//! other argument as a text property; positional arguments additionally
//! carry their position.

use vstd::prelude::*;
use crate::schema::{
    ArgSpecView, CommandSchema, SubcommandSpec, SubcommandSpecView, is_flag_arg,
    is_positional_arg, surfaced,
};
use crate::text::str_eq;

verus! {

/// The property type a tool descriptor advertises for an argument.
///
/// Every value-bearing argument is exposed as [`PropKind::Text`]: the
/// schema does not expose a structured type tag at introspection time, so
/// collapsing all non-flag arguments to one generic text type is a
/// deliberate simplification.
#[derive(Clone, Copy, PartialEq, Eq, Structural, Debug)]
pub enum PropKind {
    Boolean,
    Text,
}

/// The shape a tool descriptor advertises for one argument.
pub struct PropertyShape {
    /// Boolean for a flag argument, text for everything else.
    pub kind: PropKind,
    /// The argument's help string, if the schema carries one.
    pub description: Option<String>,
    /// Whether the argument is supplied by position rather than by a
    /// named token.
    pub positional: bool,
    /// The argument's position; present exactly for positional arguments.
    pub position: Option<usize>,
}

/// Mathematical image of a [`PropertyShape`].
pub struct PropertyShapeView {
    pub kind: PropKind,
    pub description: Option<Seq<char>>,
    pub positional: bool,
    pub position: Option<int>,
}

impl View for PropertyShape {
    type V = PropertyShapeView;

    open spec fn view(&self) -> PropertyShapeView {
        PropertyShapeView {
            kind: self.kind,
            description: match self.description {
                Option::Some(d) => Option::Some(d@),
                Option::None => Option::None,
            },
            positional: self.positional,
            position: match self.position {
                Option::Some(p) => Option::Some(p as int),
                Option::None => Option::None,
            },
        }
    }
}

/// The protocol-facing description of one invokable subcommand.
pub struct ToolDescriptor {
    /// The subcommand's name.
    pub name: String,
    /// The subcommand's summary, or empty if the schema has none.
    pub description: String,
    /// One property per surfaced argument, in declaration order.
    pub properties: Vec<(String, PropertyShape)>,
    /// The names of the arguments the schema marks required.
    pub required: Vec<String>,
}

/// Mathematical image of a [`ToolDescriptor`].
pub struct ToolDescriptorView {
    pub name: Seq<char>,
    pub description: Seq<char>,
    pub properties: Seq<(Seq<char>, PropertyShapeView)>,
    pub required: Seq<Seq<char>>,
}

impl View for ToolDescriptor {
    type V = ToolDescriptorView;

    open spec fn view(&self) -> ToolDescriptorView {
        ToolDescriptorView {
            name: self.name@,
            description: self.description@,
            properties: self.properties@.map_values(
                |p: (String, PropertyShape)| (p.0@, p.1@),
            ),
            required: self.required@.map_values(|s: String| s@),
        }
    }
}

/// The views of a vector of descriptors.
pub open spec fn descriptor_views(tools: Seq<ToolDescriptor>) -> Seq<ToolDescriptorView> {
    tools.map_values(|d: ToolDescriptor| d@)
}

/// The property shape of a surfaced argument, given the fallback counter
/// that stands in for a missing positional index.
pub open spec fn shape_of(a: ArgSpecView, counter: int) -> PropertyShapeView {
    PropertyShapeView {
        kind: if is_flag_arg(a) {
            PropKind::Boolean
        } else {
            PropKind::Text
        },
        description: a.help,
        positional: is_positional_arg(a),
        position: if is_positional_arg(a) {
            match a.index {
                Option::Some(i) => Option::Some(i),
                Option::None => Option::Some(counter),
            }
        } else {
            Option::None
        },
    }
}

/// How many surfaced positional arguments without an explicit index the
/// argument list holds: the next one gets this count as its position.
pub open spec fn pos_fallback_count(args: Seq<ArgSpecView>) -> int
    decreases args.len(),
{
    if args.len() == 0 {
        0
    } else {
        pos_fallback_count(args.drop_last()) + if surfaced(args.last())
            && is_positional_arg(args.last()) && args.last().index is None {
            1int
        } else {
            0int
        }
    }
}

/// The properties of a subcommand's argument list: one entry per surfaced
/// argument, keyed by the argument's identifier, in declaration order.
pub open spec fn props_of(args: Seq<ArgSpecView>) -> Seq<(Seq<char>, PropertyShapeView)>
    decreases args.len(),
{
    if args.len() == 0 {
        Seq::empty()
    } else {
        props_of(args.drop_last()) + if surfaced(args.last()) {
            seq![(args.last().id, shape_of(args.last(), pos_fallback_count(args.drop_last())))]
        } else {
            Seq::empty()
        }
    }
}

/// The required names of a subcommand's argument list: the identifiers of
/// the surfaced arguments the schema marks required, in declaration order.
pub open spec fn required_of(args: Seq<ArgSpecView>) -> Seq<Seq<char>>
    decreases args.len(),
{
    if args.len() == 0 {
        Seq::empty()
    } else {
        required_of(args.drop_last()) + if surfaced(args.last()) && args.last().required {
            seq![args.last().id]
        } else {
            Seq::empty()
        }
    }
}

/// The descriptor of one subcommand.
pub open spec fn descriptor_of(sub: SubcommandSpecView) -> ToolDescriptorView {
    ToolDescriptorView {
        name: sub.name,
        description: match sub.about {
            Option::Some(a) => a,
            Option::None => Seq::empty(),
        },
        properties: props_of(sub.args),
        required: required_of(sub.args),
    }
}

/// The descriptors of a whole schema: one per non-hidden subcommand, in
/// the schema's own order.
pub open spec fn tools_of(subs: Seq<SubcommandSpecView>) -> Seq<ToolDescriptorView>
    decreases subs.len(),
{
    if subs.len() == 0 {
        Seq::empty()
    } else {
        tools_of(subs.drop_last()) + if subs.last().hidden {
            Seq::empty()
        } else {
            seq![descriptor_of(subs.last())]
        }
    }
}

/// For every schema, the number of extracted tool descriptors equals the
/// number of non-hidden subcommands.
pub proof fn lemma_descriptor_count(subs: Seq<SubcommandSpecView>)
    ensures
        tools_of(subs).len() == subs.filter(|s: SubcommandSpecView| !s.hidden).len(),
    decreases subs.len(),
{
    reveal(Seq::filter);
    if subs.len() > 0 {
        lemma_descriptor_count(subs.drop_last());
    }
}

/// The properties of a descriptor correspond one to one to the surfaced
/// arguments of the source subcommand, in declaration order: the j-th
/// property is keyed by the j-th surfaced argument's identifier.
pub proof fn lemma_properties_correspond(args: Seq<ArgSpecView>)
    ensures
        props_of(args).len() == args.filter(|a: ArgSpecView| surfaced(a)).len(),
        forall|j: int| 0 <= j < props_of(args).len()
            ==> (#[trigger] props_of(args)[j]).0
                == args.filter(|a: ArgSpecView| surfaced(a))[j].id,
    decreases args.len(),
{
    reveal(Seq::filter);
    if args.len() > 0 {
        lemma_properties_correspond(args.drop_last());
    }
}

/// The required list holds exactly the surfaced arguments the schema
/// marks required — implicit help and version arguments never appear.
pub proof fn lemma_required_exact(args: Seq<ArgSpecView>)
    ensures
        required_of(args) == args.filter(|a: ArgSpecView| surfaced(a) && a.required).map_values(
            |a: ArgSpecView| a.id,
        ),
    decreases args.len(),
{
    reveal(Seq::filter);
    if args.len() > 0 {
        lemma_required_exact(args.drop_last());
        assert(required_of(args) =~= args.filter(
            |a: ArgSpecView| surfaced(a) && a.required,
        ).map_values(|a: ArgSpecView| a.id));
    } else {
        assert(required_of(args) =~= args.filter(
            |a: ArgSpecView| surfaced(a) && a.required,
        ).map_values(|a: ArgSpecView| a.id));
    }
}

/// Whether an argument is surfaced, decided on the executable fields.
fn arg_surfaced(a: &crate::schema::ArgSpec) -> (r: bool)
    ensures
        r == surfaced(a@),
{
    !a.hidden && !str_eq(a.id.as_str(), "help") && !str_eq(a.id.as_str(), "version")
}

/// Builds the descriptor of one subcommand.
pub fn descriptor_for(sub: &SubcommandSpec) -> (d: ToolDescriptor)
    ensures
        d@ == descriptor_of(sub@),
{
    let ghost argviews = sub@.args;
    let mut properties: Vec<(String, PropertyShape)> = Vec::new();
    let mut required: Vec<String> = Vec::new();
    let mut counter: usize = 0;
    let mut j: usize = 0;
    while j < sub.args.len()
        invariant
            j <= sub.args.len(),
            argviews == sub@.args,
            argviews.len() == sub.args.len(),
            forall|k: int| 0 <= k < sub.args.len() ==> argviews[k] == #[trigger] sub.args@[k]@,
            counter <= j,
            counter == pos_fallback_count(argviews.take(j as int)),
            properties@.map_values(|p: (String, PropertyShape)| (p.0@, p.1@))
                == props_of(argviews.take(j as int)),
            required@.map_values(|s: String| s@) == required_of(argviews.take(j as int)),
        decreases sub.args.len() - j,
    {
        let a = &sub.args[j];
        proof {
            assert(argviews.take(j + 1).drop_last() =~= argviews.take(j as int));
            assert(argviews.take(j + 1).last() == a@);
        }
        if arg_surfaced(a) {
            let kind = if a.min_values == 0 {
                PropKind::Boolean
            } else {
                PropKind::Text
            };
            let positional = !a.named;
            let position: Option<usize> = if positional {
                match a.index {
                    Option::Some(i) => Option::Some(i),
                    Option::None => {
                        let p = counter;
                        counter = counter + 1;
                        Option::Some(p)
                    },
                }
            } else {
                Option::None
            };
            let description: Option<String> = match &a.help {
                Option::Some(h) => Option::Some(h.clone()),
                Option::None => Option::None,
            };
            let shape = PropertyShape { kind, description, positional, position };
            properties.push((a.id.clone(), shape));
            if a.required {
                required.push(a.id.clone());
            }
            proof {
                assert(properties@.map_values(|p: (String, PropertyShape)| (p.0@, p.1@))
                    =~= props_of(argviews.take(j + 1)));
                if a.required {
                    assert(required@.map_values(|s: String| s@)
                        =~= required_of(argviews.take(j + 1)));
                }
            }
        }
        proof {
            assert(properties@.map_values(|p: (String, PropertyShape)| (p.0@, p.1@))
                =~= props_of(argviews.take(j + 1)));
            assert(required@.map_values(|s: String| s@) =~= required_of(argviews.take(j + 1)));
        }
        j = j + 1;
    }
    proof {
        assert(argviews.take(sub.args.len() as int) =~= argviews);
    }
    let description = match &sub.about {
        Option::Some(a) => a.clone(),
        Option::None => String::new(),
    };
    ToolDescriptor { name: sub.name.clone(), description, properties, required }
}

/// Walks the schema once and produces the ordered tool descriptor list:
/// one descriptor per non-hidden subcommand, in the schema's own
/// subcommand order. Extraction is total: an empty subcommand list yields
/// an empty descriptor list.
pub fn extract_tools(schema: &CommandSchema) -> (r: Vec<ToolDescriptor>)
    ensures
        descriptor_views(r@) == tools_of(schema@),
{
    let ghost subviews = schema@;
    let mut tools: Vec<ToolDescriptor> = Vec::new();
    let mut i: usize = 0;
    while i < schema.subcommands.len()
        invariant
            i <= schema.subcommands.len(),
            subviews == schema@,
            subviews.len() == schema.subcommands.len(),
            forall|k: int| 0 <= k < schema.subcommands.len()
                ==> subviews[k] == #[trigger] schema.subcommands@[k]@,
            descriptor_views(tools@) == tools_of(subviews.take(i as int)),
        decreases schema.subcommands.len() - i,
    {
        let sub = &schema.subcommands[i];
        proof {
            assert(subviews.take(i + 1).drop_last() =~= subviews.take(i as int));
            assert(subviews.take(i + 1).last() == sub@);
        }
        if !sub.hidden {
            let d = descriptor_for(sub);
            tools.push(d);
        }
        proof {
            assert(descriptor_views(tools@) =~= tools_of(subviews.take(i + 1)));
        }
        i = i + 1;
    }
    proof {
        assert(subviews.take(schema.subcommands.len() as int) =~= subviews);
    }
    tools
}

} // verus!
