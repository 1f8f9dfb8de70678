//! Invocation marshalling.
//!
//! Given the extracted tool descriptors, a tool name and a key/value
//! argument payload, rebuild the token sequence a human would have typed:
//! a synthetic program name, the subcommand name, the positional values in
//! position order, then the named arguments with `--name` tokens. Boolean
//! `true` becomes a lone flag token, boolean `false` disappears, and every
//! other value follows its flag token as text.

use vstd::prelude::*;
use vstd::multiset::Multiset;
use crate::descriptor::{PropertyShape, PropertyShapeView, ToolDescriptor, ToolDescriptorView,
    descriptor_views};
use crate::text::{flag_token, make_flag_token, str_eq};

verus! {

/// One argument value of an invocation request.
///
/// A boolean payload stays a boolean; strings, numbers and any other
/// payload shape arrive as their textual form, which is all the token
/// sequence can carry.
pub enum ArgValue {
    Flag(bool),
    Text(String),
}

/// Mathematical image of an [`ArgValue`].
pub enum ArgValueView {
    Flag(bool),
    Text(Seq<char>),
}

impl View for ArgValue {
    type V = ArgValueView;

    open spec fn view(&self) -> ArgValueView {
        match self {
            ArgValue::Flag(b) => ArgValueView::Flag(*b),
            ArgValue::Text(s) => ArgValueView::Text(s@),
        }
    }
}

impl Clone for ArgValue {
    fn clone(&self) -> (r: Self)
        ensures
            r@ == self@,
    {
        match self {
            ArgValue::Flag(b) => ArgValue::Flag(*b),
            ArgValue::Text(s) => ArgValue::Text(s.clone()),
        }
    }
}

/// The textual form of a value when it stands on its own as a token.
pub open spec fn text_of(v: ArgValueView) -> Seq<char> {
    match v {
        ArgValueView::Flag(b) => if b {
            "true"@
        } else {
            "false"@
        },
        ArgValueView::Text(s) => s,
    }
}

/// Renders a value as a lone token.
pub fn render_value(v: &ArgValue) -> (r: String)
    ensures
        r@ == text_of(v@),
{
    match v {
        ArgValue::Flag(b) => if *b {
            String::from_str("true")
        } else {
            String::from_str("false")
        },
        ArgValue::Text(s) => s.clone(),
    }
}

/// The views of a request's argument list.
pub open spec fn arg_views(args: Seq<(String, ArgValue)>) -> Seq<(Seq<char>, ArgValueView)> {
    args.map_values(|kv: (String, ArgValue)| (kv.0@, kv.1@))
}

/// The views of a token list.
pub open spec fn token_views(tokens: Seq<String>) -> Seq<Seq<char>> {
    tokens.map_values(|t: String| t@)
}

/// The first descriptor with the given name, if any.
pub open spec fn find_tool(tools: Seq<ToolDescriptorView>, name: Seq<char>) -> Option<
    ToolDescriptorView,
>
    decreases tools.len(),
{
    if tools.len() == 0 {
        Option::None
    } else if tools.first().name == name {
        Option::Some(tools.first())
    } else {
        find_tool(tools.drop_first(), name)
    }
}

/// The first property with the given key, if any.
pub open spec fn find_prop(
    props: Seq<(Seq<char>, PropertyShapeView)>,
    key: Seq<char>,
) -> Option<PropertyShapeView>
    decreases props.len(),
{
    if props.len() == 0 {
        Option::None
    } else if props.first().0 == key {
        Option::Some(props.first().1)
    } else {
        find_prop(props.drop_first(), key)
    }
}

proof fn lemma_find_tool_skip(tools: Seq<ToolDescriptorView>, name: Seq<char>, i: int)
    requires
        0 <= i <= tools.len(),
        forall|k: int| 0 <= k < i ==> (#[trigger] tools[k]).name != name,
    ensures
        find_tool(tools, name) == find_tool(tools.skip(i), name),
    decreases i,
{
    if i > 0 {
        lemma_find_tool_skip(tools, name, i - 1);
        assert(tools.skip(i - 1).first() == tools[i - 1]);
        assert(tools.skip(i - 1).drop_first() =~= tools.skip(i));
    } else {
        assert(tools.skip(0) =~= tools);
    }
}

proof fn lemma_find_prop_skip(props: Seq<(Seq<char>, PropertyShapeView)>, key: Seq<char>, i: int)
    requires
        0 <= i <= props.len(),
        forall|k: int| 0 <= k < i ==> (#[trigger] props[k]).0 != key,
    ensures
        find_prop(props, key) == find_prop(props.skip(i), key),
    decreases i,
{
    if i > 0 {
        lemma_find_prop_skip(props, key, i - 1);
        assert(props.skip(i - 1).first() == props[i - 1]);
        assert(props.skip(i - 1).drop_first() =~= props.skip(i));
    } else {
        assert(props.skip(0) =~= props);
    }
}

/// Looks a tool up by name: the first descriptor whose name matches.
pub fn find_tool_ref<'a>(tools: &'a Vec<ToolDescriptor>, name: &str) -> (r: Option<
    &'a ToolDescriptor,
>)
    ensures
        match r {
            Option::Some(d) => find_tool(descriptor_views(tools@), name@)
                == Option::Some(d@),
            Option::None => find_tool(descriptor_views(tools@), name@) is None,
        },
{
    let ghost toolviews = descriptor_views(tools@);
    let mut i: usize = 0;
    while i < tools.len()
        invariant
            i <= tools.len(),
            toolviews == descriptor_views(tools@),
            toolviews.len() == tools.len(),
            forall|k: int| 0 <= k < tools.len() ==> toolviews[k] == #[trigger] tools@[k]@,
            forall|k: int| 0 <= k < i ==> (#[trigger] toolviews[k]).name != name@,
        decreases tools.len() - i,
    {
        if str_eq(tools[i].name.as_str(), name) {
            proof {
                lemma_find_tool_skip(toolviews, name@, i as int);
                assert(toolviews.skip(i as int).first() == toolviews[i as int]);
            }
            return Option::Some(&tools[i]);
        }
        i = i + 1;
    }
    proof {
        lemma_find_tool_skip(toolviews, name@, tools.len() as int);
        assert(toolviews.skip(tools.len() as int) =~= Seq::<ToolDescriptorView>::empty());
    }
    Option::None
}

/// Looks a property up by key: the first property whose key matches.
pub fn find_prop_ref<'a>(d: &'a ToolDescriptor, key: &str) -> (r: Option<&'a PropertyShape>)
    ensures
        match r {
            Option::Some(p) => find_prop(d@.properties, key@) == Option::Some(p@),
            Option::None => find_prop(d@.properties, key@) is None,
        },
{
    let ghost propviews = d@.properties;
    let mut i: usize = 0;
    while i < d.properties.len()
        invariant
            i <= d.properties.len(),
            propviews == d@.properties,
            propviews.len() == d.properties.len(),
            forall|k: int| 0 <= k < d.properties.len()
                ==> propviews[k] == (#[trigger] d.properties@[k].0@, d.properties@[k].1@),
            forall|k: int| 0 <= k < i ==> (#[trigger] propviews[k]).0 != key@,
        decreases d.properties.len() - i,
    {
        if str_eq(d.properties[i].0.as_str(), key) {
            proof {
                lemma_find_prop_skip(propviews, key@, i as int);
                assert(propviews.skip(i as int).first() == propviews[i as int]);
            }
            return Option::Some(&d.properties[i].1);
        }
        i = i + 1;
    }
    proof {
        lemma_find_prop_skip(propviews, key@, d.properties.len() as int);
        assert(propviews.skip(d.properties.len() as int)
            =~= Seq::<(Seq<char>, PropertyShapeView)>::empty());
    }
    Option::None
}

/// Whether the descriptor classifies the key as positional. An unknown
/// key, or an unknown tool (a stale client), defaults to named.
pub open spec fn positional_in(desc: Option<ToolDescriptorView>, key: Seq<char>) -> bool {
    match desc {
        Option::Some(d) => match find_prop(d.properties, key) {
            Option::Some(p) => p.positional,
            Option::None => false,
        },
        Option::None => false,
    }
}

/// The position the descriptor assigns to the key, if it assigns one.
pub open spec fn explicit_position(desc: Option<ToolDescriptorView>, key: Seq<char>) -> Option<
    int,
> {
    match desc {
        Option::Some(d) => match find_prop(d.properties, key) {
            Option::Some(p) => p.position,
            Option::None => Option::None,
        },
        Option::None => Option::None,
    }
}

/// The position of a positional entry: the descriptor's explicit position
/// if it has one, else the fallback.
pub open spec fn position_in(desc: Option<ToolDescriptorView>, key: Seq<char>, fallback: int) -> int {
    match explicit_position(desc, key) {
        Option::Some(i) => i,
        Option::None => fallback,
    }
}

/// One positional entry awaiting ordering.
pub struct PosEntry {
    pub key: String,
    pub value: ArgValue,
    pub pos: usize,
}

/// Mathematical image of a [`PosEntry`].
pub struct PosEntryView {
    pub key: Seq<char>,
    pub value: ArgValueView,
    pub pos: int,
}

impl View for PosEntry {
    type V = PosEntryView;

    open spec fn view(&self) -> PosEntryView {
        PosEntryView { key: self.key@, value: self.value@, pos: self.pos as int }
    }
}

/// The views of a list of positional entries.
pub open spec fn entry_views(s: Seq<PosEntry>) -> Seq<PosEntryView> {
    s.map_values(|e: PosEntry| e@)
}

/// How many of the arguments the descriptor classifies as positional:
/// the fallback position of the next positional entry.
pub open spec fn positional_count(
    desc: Option<ToolDescriptorView>,
    args: Seq<(Seq<char>, ArgValueView)>,
) -> int
    decreases args.len(),
{
    if args.len() == 0 {
        0
    } else {
        positional_count(desc, args.drop_last()) + if positional_in(desc, args.last().0) {
            1int
        } else {
            0int
        }
    }
}

/// The positional entries of a request, in request order, each with the
/// position it will be sorted by.
pub open spec fn positional_entries(
    desc: Option<ToolDescriptorView>,
    args: Seq<(Seq<char>, ArgValueView)>,
) -> Seq<PosEntryView>
    decreases args.len(),
{
    if args.len() == 0 {
        Seq::empty()
    } else {
        let prefix = args.drop_last();
        let kv = args.last();
        positional_entries(desc, prefix) + if positional_in(desc, kv.0) {
            seq![
                PosEntryView {
                    key: kv.0,
                    value: kv.1,
                    pos: position_in(desc, kv.0, positional_count(desc, prefix)),
                },
            ]
        } else {
            Seq::empty()
        }
    }
}

/// The named entries of a request, in request order.
pub open spec fn named_entries(
    desc: Option<ToolDescriptorView>,
    args: Seq<(Seq<char>, ArgValueView)>,
) -> Seq<(Seq<char>, ArgValueView)>
    decreases args.len(),
{
    if args.len() == 0 {
        Seq::empty()
    } else {
        named_entries(desc, args.drop_last()) + if !positional_in(desc, args.last().0) {
            seq![args.last()]
        } else {
            Seq::empty()
        }
    }
}

/// Insertion of one entry into a sorted run: the entry lands after every
/// entry whose position is at most its own, so equal positions keep their
/// arrival order.
pub open spec fn sorted_insert(s: Seq<PosEntryView>, x: PosEntryView) -> Seq<PosEntryView>
    decreases s.len(),
{
    if s.len() == 0 {
        seq![x]
    } else if s.last().pos <= x.pos {
        s.push(x)
    } else {
        sorted_insert(s.drop_last(), x).push(s.last())
    }
}

/// Stable sort by position: entries with equal positions keep the order
/// the request supplied them in.
pub open spec fn stable_sorted(s: Seq<PosEntryView>) -> Seq<PosEntryView>
    decreases s.len(),
{
    if s.len() == 0 {
        Seq::empty()
    } else {
        sorted_insert(stable_sorted(s.drop_last()), s.last())
    }
}

/// Positions never decrease along the sequence.
pub open spec fn sorted_by_pos(s: Seq<PosEntryView>) -> bool {
    forall|i: int, j: int| 0 <= i < j < s.len() ==> (#[trigger] s[i]).pos <= (#[trigger] s[j]).pos
}

proof fn lemma_sorted_insert_at(s: Seq<PosEntryView>, x: PosEntryView, k: int)
    requires
        0 <= k <= s.len(),
        forall|t: int| k <= t < s.len() ==> (#[trigger] s[t]).pos > x.pos,
        k > 0 ==> s[k - 1].pos <= x.pos,
    ensures
        sorted_insert(s, x) == s.take(k) + seq![x] + s.skip(k),
    decreases s.len(),
{
    if s.len() == 0 {
        assert(sorted_insert(s, x) =~= s.take(k) + seq![x] + s.skip(k));
    } else if k == s.len() {
        assert(s.last().pos <= x.pos);
        assert(sorted_insert(s, x) =~= s.take(k) + seq![x] + s.skip(k));
    } else {
        assert(s.last().pos > x.pos);
        lemma_sorted_insert_at(s.drop_last(), x, k);
        assert(s.drop_last().take(k) =~= s.take(k));
        assert(sorted_insert(s, x) =~= s.take(k) + seq![x] + s.skip(k));
    }
}

/// Clones a positional entry.
fn clone_entry(e: &PosEntry) -> (r: PosEntry)
    ensures
        r@ == e@,
{
    PosEntry { key: e.key.clone(), value: e.value.clone(), pos: e.pos }
}

/// Sorts the positional entries by position, stably: equal positions keep
/// the order the input supplied.
fn sort_entries(entries: &Vec<PosEntry>) -> (r: Vec<PosEntry>)
    ensures
        entry_views(r@) == stable_sorted(entry_views(entries@)),
{
    let ghost input = entry_views(entries@);
    let mut out: Vec<PosEntry> = Vec::new();
    let mut i: usize = 0;
    while i < entries.len()
        invariant
            i <= entries.len(),
            input == entry_views(entries@),
            input.len() == entries.len(),
            forall|t: int| 0 <= t < entries.len() ==> input[t] == #[trigger] entries@[t]@,
            entry_views(out@) == stable_sorted(input.take(i as int)),
        decreases entries.len() - i,
    {
        let e = clone_entry(&entries[i]);
        let mut k: usize = out.len();
        while k > 0 && out[k - 1].pos > e.pos
            invariant
                k <= out.len(),
                e@ == input[i as int],
                forall|t: int| k <= t < out.len()
                    ==> (#[trigger] entry_views(out@)[t]).pos > e@.pos,
            decreases k,
        {
            k = k - 1;
        }
        proof {
            lemma_sorted_insert_at(entry_views(out@), e@, k as int);
            assert(input.take(i + 1).drop_last() =~= input.take(i as int));
            assert(input.take(i + 1).last() == input[i as int]);
        }
        out.insert(k, e);
        proof {
            assert(entry_views(out@) =~= stable_sorted(input.take(i + 1)));
        }
        i = i + 1;
    }
    proof {
        assert(input.take(entries.len() as int) =~= input);
    }
    out
}

/// The tokens of the sorted positional entries: each value's textual
/// form, with no invocation-token prefix.
pub open spec fn positional_tokens(s: Seq<PosEntryView>) -> Seq<Seq<char>> {
    s.map_values(|e: PosEntryView| text_of(e.value))
}

/// The tokens one named entry contributes: boolean true is a lone flag
/// token, boolean false is nothing, and any other value follows its flag
/// token as text.
pub open spec fn named_token_of(kv: (Seq<char>, ArgValueView)) -> Seq<Seq<char>> {
    match kv.1 {
        ArgValueView::Flag(b) => if b {
            seq![flag_token(kv.0)]
        } else {
            Seq::empty()
        },
        ArgValueView::Text(s) => seq![flag_token(kv.0), s],
    }
}

/// The tokens of the named entries, in entry order.
pub open spec fn named_tokens(s: Seq<(Seq<char>, ArgValueView)>) -> Seq<Seq<char>>
    decreases s.len(),
{
    if s.len() == 0 {
        Seq::empty()
    } else {
        named_tokens(s.drop_last()) + named_token_of(s.last())
    }
}

/// The whole marshalled token sequence: the synthetic program name, the
/// tool name, the positional values sorted by position, then the named
/// arguments.
pub open spec fn marshal_spec(
    tools: Seq<ToolDescriptorView>,
    name: Seq<char>,
    args: Seq<(Seq<char>, ArgValueView)>,
) -> Seq<Seq<char>> {
    let desc = find_tool(tools, name);
    seq!["mcp"@, name] + positional_tokens(stable_sorted(positional_entries(desc, args)))
        + named_tokens(named_entries(desc, args))
}

/// Rebuilds the token sequence of one invocation request: the synthetic
/// program name, the tool (subcommand) name, the positional values in
/// position order, then the named arguments. The descriptor list decides
/// which keys are positional and where they go; an unknown tool or key is
/// treated as named.
pub fn marshal_tokens(
    tools: &Vec<ToolDescriptor>,
    name: &str,
    args: &Vec<(String, ArgValue)>,
) -> (r: Vec<String>)
    ensures
        token_views(r@) == marshal_spec(descriptor_views(tools@), name@, arg_views(args@)),
{
    let ghost argv = arg_views(args@);
    let ghost descv = find_tool(descriptor_views(tools@), name@);
    let desc = find_tool_ref(tools, name);

    let mut positional: Vec<PosEntry> = Vec::new();
    let mut named: Vec<(String, ArgValue)> = Vec::new();
    let mut i: usize = 0;
    while i < args.len()
        invariant
            i <= args.len(),
            argv == arg_views(args@),
            argv.len() == args.len(),
            forall|t: int| 0 <= t < args.len()
                ==> argv[t] == (#[trigger] args@[t].0@, args@[t].1@),
            match desc {
                Option::Some(d) => descv == Option::Some(d@),
                Option::None => descv is None,
            },
            entry_views(positional@) == positional_entries(descv, argv.take(i as int)),
            arg_views(named@) == named_entries(descv, argv.take(i as int)),
            positional@.len() == positional_count(descv, argv.take(i as int)),
        decreases args.len() - i,
    {
        let key = &args[i].0;
        let value = &args[i].1;
        proof {
            assert(argv.take(i + 1).drop_last() =~= argv.take(i as int));
            assert(argv.take(i + 1).last() == argv[i as int]);
        }
        let mut is_pos = false;
        let mut pos: usize = positional.len();
        match desc {
            Option::Some(d) => {
                match find_prop_ref(d, key.as_str()) {
                    Option::Some(p) => {
                        if p.positional {
                            is_pos = true;
                            match p.position {
                                Option::Some(pp) => {
                                    pos = pp;
                                },
                                Option::None => {},
                            }
                        }
                    },
                    Option::None => {},
                }
            },
            Option::None => {},
        }
        if is_pos {
            positional.push(PosEntry { key: key.clone(), value: value.clone(), pos });
            proof {
                assert(entry_views(positional@)
                    =~= positional_entries(descv, argv.take(i + 1)));
            }
        } else {
            named.push((key.clone(), value.clone()));
            proof {
                assert(arg_views(named@) =~= named_entries(descv, argv.take(i + 1)));
            }
        }
        i = i + 1;
    }
    proof {
        assert(argv.take(args.len() as int) =~= argv);
    }

    let sorted = sort_entries(&positional);
    let ghost sortedv = stable_sorted(positional_entries(descv, argv));

    let mut tokens: Vec<String> = Vec::new();
    tokens.push(String::from_str("mcp"));
    tokens.push(String::from_str(name));
    proof {
        assert(token_views(tokens@) =~= seq!["mcp"@, name@]);
    }

    let mut j: usize = 0;
    while j < sorted.len()
        invariant
            j <= sorted.len(),
            sortedv == stable_sorted(positional_entries(descv, argv)),
            entry_views(sorted@) == sortedv,
            sortedv.len() == sorted.len(),
            forall|t: int| 0 <= t < sorted.len() ==> sortedv[t] == #[trigger] sorted@[t]@,
            token_views(tokens@) == seq!["mcp"@, name@]
                + positional_tokens(sortedv.take(j as int)),
        decreases sorted.len() - j,
    {
        let ghost prev = tokens@;
        let tok = render_value(&sorted[j].value);
        proof {
            assert(sorted@[j as int]@ == sortedv[j as int]);
            assert(tok@ == text_of(sortedv[j as int].value));
        }
        tokens.push(tok);
        proof {
            assert(token_views(tokens@) =~= token_views(prev).push(tok@));
            assert(positional_tokens(sortedv.take(j + 1)) =~= positional_tokens(
                sortedv.take(j as int),
            ).push(text_of(sortedv[j as int].value)));
            assert(token_views(tokens@) =~= seq!["mcp"@, name@]
                + positional_tokens(sortedv.take(j + 1)));
        }
        j = j + 1;
    }
    proof {
        assert(sortedv.take(sorted.len() as int) =~= sortedv);
    }

    let ghost namedv = named_entries(descv, argv);
    let mut m: usize = 0;
    while m < named.len()
        invariant
            m <= named.len(),
            namedv == named_entries(descv, argv),
            arg_views(named@) == namedv,
            namedv.len() == named.len(),
            forall|t: int| 0 <= t < named.len()
                ==> namedv[t] == (#[trigger] named@[t].0@, named@[t].1@),
            token_views(tokens@) == seq!["mcp"@, name@] + positional_tokens(sortedv)
                + named_tokens(namedv.take(m as int)),
        decreases named.len() - m,
    {
        let kv = &named[m];
        let ghost prev = tokens@;
        proof {
            assert(namedv.take(m + 1).drop_last() =~= namedv.take(m as int));
            assert(namedv.take(m + 1).last() == namedv[m as int]);
            assert(namedv[m as int] == (named@[m as int].0@, named@[m as int].1@));
        }
        match &kv.1 {
            ArgValue::Flag(b) => {
                if *b {
                    tokens.push(make_flag_token(kv.0.as_str()));
                    proof {
                        assert(named_token_of(namedv[m as int])
                            =~= seq![flag_token(named@[m as int].0@)]);
                        assert(token_views(tokens@)
                            =~= token_views(prev).push(flag_token(named@[m as int].0@)));
                    }
                } else {
                    proof {
                        assert(named_token_of(namedv[m as int]) =~= Seq::<Seq<char>>::empty());
                    }
                }
            },
            ArgValue::Text(s) => {
                tokens.push(make_flag_token(kv.0.as_str()));
                tokens.push(s.clone());
                proof {
                    assert(named_token_of(namedv[m as int])
                        =~= seq![flag_token(named@[m as int].0@), s@]);
                    assert(token_views(tokens@) =~= token_views(prev).push(
                        flag_token(named@[m as int].0@),
                    ).push(s@));
                }
            },
        }
        proof {
            assert(named_tokens(namedv.take(m + 1)) =~= named_tokens(namedv.take(m as int))
                + named_token_of(namedv[m as int]));
            assert(token_views(tokens@) =~= seq!["mcp"@, name@] + positional_tokens(sortedv)
                + named_tokens(namedv.take(m + 1)));
        }
        m = m + 1;
    }
    proof {
        assert(namedv.take(named.len() as int) =~= namedv);
        assert(token_views(tokens@) =~= marshal_spec(
            descriptor_views(tools@),
            name@,
            arg_views(args@),
        ));
    }
    tokens
}

/// The named token segment is exactly the concatenation of what each
/// entry contributes on its own: an argument absent from the request
/// contributes nothing, and no token appears that no entry accounts for.
pub proof fn lemma_named_tokens_distribute(
    a: Seq<(Seq<char>, ArgValueView)>,
    b: Seq<(Seq<char>, ArgValueView)>,
)
    ensures
        named_tokens(a + b) == named_tokens(a) + named_tokens(b),
    decreases b.len(),
{
    if b.len() == 0 {
        assert(a + b =~= a);
        assert(named_tokens(a) + named_tokens(b) =~= named_tokens(a));
    } else {
        assert((a + b).drop_last() =~= a + b.drop_last());
        lemma_named_tokens_distribute(a, b.drop_last());
        assert(named_tokens(a + b) =~= named_tokens(a) + named_tokens(b));
    }
}

/// Marshalling a named boolean argument set to `true` contributes exactly
/// one flag token and no value token; set to `false` it contributes no
/// token at all.
pub proof fn lemma_marshal_boolean(args: Seq<(Seq<char>, ArgValueView)>, i: int, b: bool)
    requires
        0 <= i < args.len(),
        args[i].1 == ArgValueView::Flag(b),
    ensures
        b ==> named_tokens(args) == named_tokens(args.take(i)) + seq![flag_token(args[i].0)]
            + named_tokens(args.skip(i + 1)),
        !b ==> named_tokens(args) == named_tokens(args.take(i)) + named_tokens(args.skip(i + 1)),
{
    assert(args =~= (args.take(i) + seq![args[i]]) + args.skip(i + 1));
    lemma_named_tokens_distribute(args.take(i) + seq![args[i]], args.skip(i + 1));
    lemma_named_tokens_distribute(args.take(i), seq![args[i]]);
    let single = seq![args[i]];
    assert(single.len() == 1);
    assert(single.last() == args[i]);
    assert(single.drop_last() =~= Seq::<(Seq<char>, ArgValueView)>::empty());
    assert(named_tokens(single.drop_last()).len() == 0);
    assert(named_tokens(single) =~= named_token_of(args[i]));
    if b {
        assert(named_tokens(args) =~= named_tokens(args.take(i)) + seq![flag_token(args[i].0)]
            + named_tokens(args.skip(i + 1)));
    } else {
        assert(named_tokens(args) =~= named_tokens(args.take(i))
            + named_tokens(args.skip(i + 1)));
    }
}

proof fn lemma_sorted_insert_multiset(s: Seq<PosEntryView>, x: PosEntryView)
    ensures
        sorted_insert(s, x).to_multiset() == s.to_multiset().insert(x),
    decreases s.len(),
{
    broadcast use vstd::seq_lib::group_to_multiset_ensures;
    broadcast use vstd::multiset::group_multiset_axioms;

    if s.len() == 0 {
        assert(seq![x] =~= Seq::<PosEntryView>::empty().push(x));
        assert(sorted_insert(s, x).to_multiset() =~= s.to_multiset().insert(x));
    } else if s.last().pos <= x.pos {
    } else {
        lemma_sorted_insert_multiset(s.drop_last(), x);
        assert(s =~= s.drop_last().push(s.last()));
        assert(sorted_insert(s, x).to_multiset() =~= s.to_multiset().insert(x));
    }
}

proof fn lemma_stable_sorted_multiset(s: Seq<PosEntryView>)
    ensures
        stable_sorted(s).to_multiset() == s.to_multiset(),
    decreases s.len(),
{
    broadcast use vstd::seq_lib::group_to_multiset_ensures;
    broadcast use vstd::multiset::group_multiset_axioms;

    if s.len() > 0 {
        lemma_stable_sorted_multiset(s.drop_last());
        lemma_sorted_insert_multiset(stable_sorted(s.drop_last()), s.last());
        assert(s =~= s.drop_last().push(s.last()));
    }
}

proof fn lemma_sorted_insert_sorted(s: Seq<PosEntryView>, x: PosEntryView)
    requires
        sorted_by_pos(s),
    ensures
        sorted_by_pos(sorted_insert(s, x)),
    decreases s.len(),
{
    broadcast use vstd::seq_lib::group_to_multiset_ensures;
    broadcast use vstd::multiset::group_multiset_axioms;

    if s.len() == 0 {
    } else if s.last().pos <= x.pos {
    } else {
        let prefix = s.drop_last();
        lemma_sorted_insert_sorted(prefix, x);
        lemma_sorted_insert_multiset(prefix, x);
        let r = sorted_insert(prefix, x);
        assert forall|i: int| 0 <= i < r.len() implies (#[trigger] r[i]).pos <= s.last().pos by {
            assert(r.contains(r[i]));
            assert(r.to_multiset().contains(r[i]));
            if r[i] == x {
            } else {
                assert(prefix.to_multiset().contains(r[i]));
                assert(prefix.contains(r[i]));
                let t = choose|t: int| 0 <= t < prefix.len() && prefix[t] == r[i];
                assert(s[t].pos <= s.last().pos);
            }
        }
    }
}

/// The marshalled positional segment is sorted: positions never decrease
/// along the token order.
pub proof fn lemma_stable_sorted_sorted(s: Seq<PosEntryView>)
    ensures
        sorted_by_pos(stable_sorted(s)),
    decreases s.len(),
{
    if s.len() > 0 {
        lemma_stable_sorted_sorted(s.drop_last());
        lemma_sorted_insert_sorted(stable_sorted(s.drop_last()), s.last());
    }
}

/// Pairwise distinct positions.
pub open spec fn distinct_pos(s: Seq<PosEntryView>) -> bool {
    forall|i: int, j: int| 0 <= i < j < s.len() ==> (#[trigger] s[i]).pos != (#[trigger] s[j]).pos
}

proof fn lemma_sorted_insert_distinct(s: Seq<PosEntryView>, x: PosEntryView)
    requires
        distinct_pos(s),
        forall|i: int| 0 <= i < s.len() ==> (#[trigger] s[i]).pos != x.pos,
    ensures
        distinct_pos(sorted_insert(s, x)),
    decreases s.len(),
{
    broadcast use vstd::seq_lib::group_to_multiset_ensures;
    broadcast use vstd::multiset::group_multiset_axioms;

    if s.len() == 0 {
    } else if s.last().pos <= x.pos {
    } else {
        let prefix = s.drop_last();
        lemma_sorted_insert_distinct(prefix, x);
        lemma_sorted_insert_multiset(prefix, x);
        let r = sorted_insert(prefix, x);
        assert forall|i: int| 0 <= i < r.len() implies (#[trigger] r[i]).pos != s.last().pos by {
            assert(r.contains(r[i]));
            assert(r.to_multiset().contains(r[i]));
            if r[i] == x {
            } else {
                assert(prefix.to_multiset().contains(r[i]));
                assert(prefix.contains(r[i]));
                let t = choose|t: int| 0 <= t < prefix.len() && prefix[t] == r[i];
                assert(s[t].pos != s.last().pos);
            }
        }
    }
}

proof fn lemma_stable_sorted_distinct(s: Seq<PosEntryView>)
    requires
        distinct_pos(s),
    ensures
        distinct_pos(stable_sorted(s)),
    decreases s.len(),
{
    broadcast use vstd::seq_lib::group_to_multiset_ensures;
    broadcast use vstd::multiset::group_multiset_axioms;

    if s.len() > 0 {
        let prefix = s.drop_last();
        lemma_stable_sorted_distinct(prefix);
        lemma_stable_sorted_multiset(prefix);
        let ss = stable_sorted(prefix);
        assert forall|i: int| 0 <= i < ss.len() implies (#[trigger] ss[i]).pos != s.last().pos by {
            assert(ss.contains(ss[i]));
            assert(ss.to_multiset().contains(ss[i]));
            assert(prefix.contains(ss[i]));
            let t = choose|t: int| 0 <= t < prefix.len() && prefix[t] == ss[i];
            assert(s[t].pos != s.last().pos);
        }
        lemma_sorted_insert_distinct(ss, s.last());
    }
}

proof fn lemma_sorted_distinct_eq(x: Seq<PosEntryView>, y: Seq<PosEntryView>)
    requires
        sorted_by_pos(x),
        sorted_by_pos(y),
        distinct_pos(x),
        x.to_multiset() == y.to_multiset(),
    ensures
        x == y,
    decreases x.len(),
{
    broadcast use vstd::seq_lib::group_to_multiset_ensures;
    broadcast use vstd::multiset::group_multiset_axioms;

    vstd::seq_lib::to_multiset_len(x);
    vstd::seq_lib::to_multiset_len(y);
    if x.len() == 0 {
        assert(y.len() == 0);
        assert(x =~= y);
    } else {
        assert(y.len() == x.len());
        assert(y.to_multiset().contains(y.first()));
        assert(x.to_multiset().contains(y.first()));
        assert(x.contains(y.first()));
        let i = choose|i: int| 0 <= i < x.len() && x[i] == y.first();
        assert(x.to_multiset().contains(x.first()));
        assert(y.contains(x.first()));
        let j = choose|j: int| 0 <= j < y.len() && y[j] == x.first();
        assert(x.first().pos <= x[i].pos);
        assert(y.first().pos <= y[j].pos);
        assert(x[i].pos == x.first().pos);
        if i != 0 {
            assert(x[0].pos != x[i].pos);
        }
        assert(x.first() == y.first());
        assert(x.drop_first() =~= x.remove(0));
        assert(y.drop_first() =~= y.remove(0));
        assert(x.remove(0).to_multiset() =~= x.to_multiset().remove(x[0]));
        assert(y.remove(0).to_multiset() =~= y.to_multiset().remove(y[0]));
        lemma_sorted_distinct_eq(x.drop_first(), y.drop_first());
        assert(x =~= Seq::<PosEntryView>::empty().push(x.first()) + x.drop_first());
        assert(x =~= y);
    }
}

/// Every key the descriptor classifies as positional carries an explicit
/// position.
pub open spec fn explicit_positional(
    desc: Option<ToolDescriptorView>,
    args: Seq<(Seq<char>, ArgValueView)>,
) -> bool {
    forall|i: int| 0 <= i < args.len() && positional_in(desc, (#[trigger] args[i]).0)
        ==> explicit_position(desc, args[i].0) is Some
}

/// No two positional entries share an explicit position.
pub open spec fn distinct_positions(
    desc: Option<ToolDescriptorView>,
    args: Seq<(Seq<char>, ArgValueView)>,
) -> bool {
    forall|i: int, j: int|
        0 <= i < j < args.len() && positional_in(desc, (#[trigger] args[i]).0) && positional_in(
            desc,
            (#[trigger] args[j]).0,
        ) ==> explicit_position(desc, args[i].0) != explicit_position(desc, args[j].0)
}

proof fn lemma_pe_concat(
    desc: Option<ToolDescriptorView>,
    a: Seq<(Seq<char>, ArgValueView)>,
    b: Seq<(Seq<char>, ArgValueView)>,
)
    requires
        explicit_positional(desc, b),
    ensures
        positional_entries(desc, a + b) == positional_entries(desc, a) + positional_entries(
            desc,
            b,
        ),
    decreases b.len(),
{
    if b.len() == 0 {
        assert(a + b =~= a);
        assert(positional_entries(desc, a) + positional_entries(desc, b) =~= positional_entries(
            desc,
            a,
        ));
    } else {
        assert((a + b).drop_last() =~= a + b.drop_last());
        assert(explicit_positional(desc, b.drop_last()));
        lemma_pe_concat(desc, a, b.drop_last());
        assert((a + b).last() == b.last());
        assert(positional_entries(desc, a + b) =~= positional_entries(desc, a)
            + positional_entries(desc, b));
    }
}

proof fn lemma_explicit_transfer(
    desc: Option<ToolDescriptorView>,
    args1: Seq<(Seq<char>, ArgValueView)>,
    args2: Seq<(Seq<char>, ArgValueView)>,
)
    requires
        args1.to_multiset() == args2.to_multiset(),
        explicit_positional(desc, args1),
    ensures
        explicit_positional(desc, args2),
{
    broadcast use vstd::seq_lib::group_to_multiset_ensures;
    broadcast use vstd::multiset::group_multiset_axioms;

    assert forall|i: int|
        0 <= i < args2.len() && positional_in(desc, (#[trigger] args2[i]).0)
        implies explicit_position(desc, args2[i].0) is Some by {
        assert(args2.contains(args2[i]));
        assert(args2.to_multiset().contains(args2[i]));
        assert(args1.to_multiset().contains(args2[i]));
        assert(args1.contains(args2[i]));
        let t = choose|t: int| 0 <= t < args1.len() && args1[t] == args2[i];
        assert(positional_in(desc, args1[t].0));
    }
}

proof fn lemma_pe_permutation(
    desc: Option<ToolDescriptorView>,
    args1: Seq<(Seq<char>, ArgValueView)>,
    args2: Seq<(Seq<char>, ArgValueView)>,
)
    requires
        args1.to_multiset() == args2.to_multiset(),
        explicit_positional(desc, args1),
    ensures
        positional_entries(desc, args1).to_multiset() == positional_entries(
            desc,
            args2,
        ).to_multiset(),
    decreases args1.len(),
{
    broadcast use vstd::seq_lib::group_to_multiset_ensures;
    broadcast use vstd::multiset::group_multiset_axioms;
    broadcast use vstd::seq_lib::lemma_multiset_commutative;

    vstd::seq_lib::to_multiset_len(args1);
    vstd::seq_lib::to_multiset_len(args2);
    if args1.len() == 0 {
        assert(args2.len() == 0);
        assert(positional_entries(desc, args1) =~= positional_entries(desc, args2));
    } else {
        let x = args1.last();
        let prefix = args1.drop_last();
        assert(args1.contains(x));
        assert(args1.to_multiset().contains(x));
        assert(args2.to_multiset().contains(x));
        assert(args2.contains(x));
        let k = choose|k: int| 0 <= k < args2.len() && args2[k] == x;
        let left = args2.take(k);
        let right = args2.skip(k + 1);
        assert(args2 =~= (left + seq![x]) + right);
        lemma_explicit_transfer(desc, args1, args2);
        assert(explicit_positional(desc, seq![x]));
        assert(explicit_positional(desc, right)) by {
            assert forall|i: int|
                0 <= i < right.len() && positional_in(desc, (#[trigger] right[i]).0)
                implies explicit_position(desc, right[i].0) is Some by {
                assert(right[i] == args2[k + 1 + i]);
            }
        }
        // multisets of the remainder agree
        assert(args1 =~= prefix.push(x));
        assert(args1.to_multiset() == prefix.to_multiset().insert(x));
        assert((left + seq![x]).to_multiset() == left.to_multiset().insert(x)) by {
            assert(left + seq![x] =~= left.push(x));
        }
        assert(args2.to_multiset() == left.to_multiset().insert(x).add(right.to_multiset()));
        let rest2 = left + right;
        assert(rest2.to_multiset() == left.to_multiset().add(right.to_multiset()));
        assert(prefix.to_multiset() =~= rest2.to_multiset()) by {
            assert forall|y: (Seq<char>, ArgValueView)|
                prefix.to_multiset().count(y) == rest2.to_multiset().count(y) by {
                assert(args1.to_multiset().count(y) == prefix.to_multiset().count(y)
                    + Multiset::singleton(x).count(y));
                assert(args2.to_multiset().count(y) == left.to_multiset().count(y)
                    + Multiset::singleton(x).count(y) + right.to_multiset().count(y));
                assert(rest2.to_multiset().count(y) == left.to_multiset().count(y)
                    + right.to_multiset().count(y));
                assert(args1.to_multiset().count(y) == args2.to_multiset().count(y));
            }
        }
        assert(explicit_positional(desc, prefix));
        lemma_pe_permutation(desc, prefix, rest2);
        lemma_pe_concat(desc, prefix, seq![x]);
        lemma_pe_concat(desc, left, seq![x]);
        lemma_pe_concat(desc, left + seq![x], right);
        lemma_pe_concat(desc, left, right);
        assert(args1 =~= prefix + seq![x]);
        assert(positional_entries(desc, args1).to_multiset() == positional_entries(
            desc,
            args2,
        ).to_multiset()) by {
            let pex = positional_entries(desc, seq![x]);
            let pl = positional_entries(desc, left);
            let pr = positional_entries(desc, right);
            assert(positional_entries(desc, args1) == positional_entries(desc, prefix) + pex);
            assert(positional_entries(desc, args2) == (pl + pex) + pr);
            assert(positional_entries(desc, rest2) == pl + pr);
            assert forall|y: PosEntryView|
                positional_entries(desc, args1).to_multiset().count(y) == positional_entries(
                    desc,
                    args2,
                ).to_multiset().count(y) by {
                assert(positional_entries(desc, rest2).to_multiset().count(y)
                    == pl.to_multiset().count(y) + pr.to_multiset().count(y));
            }
        }
    }
}

proof fn lemma_pe_distinct(
    desc: Option<ToolDescriptorView>,
    args: Seq<(Seq<char>, ArgValueView)>,
)
    requires
        explicit_positional(desc, args),
        distinct_positions(desc, args),
    ensures
        distinct_pos(positional_entries(desc, args)),
        forall|k: int| 0 <= k < positional_entries(desc, args).len()
            ==> exists|i: int|
                0 <= i < args.len() && args[i].0 == (#[trigger] positional_entries(
                    desc,
                    args,
                )[k]).key && positional_in(desc, args[i].0) && Option::Some(
                    positional_entries(desc, args)[k].pos,
                ) == explicit_position(desc, args[i].0),
    decreases args.len(),
{
    if args.len() > 0 {
        let prefix = args.drop_last();
        let pe = positional_entries(desc, args);
        let pep = positional_entries(desc, prefix);
        assert(explicit_positional(desc, prefix));
        assert(distinct_positions(desc, prefix));
        lemma_pe_distinct(desc, prefix);
        assert forall|k: int| 0 <= k < pe.len() implies exists|i: int|
            0 <= i < args.len() && args[i].0 == (#[trigger] pe[k]).key && positional_in(
                desc,
                args[i].0,
            ) && Option::Some(pe[k].pos) == explicit_position(desc, args[i].0) by {
            if k < pep.len() {
                assert(pe[k] == pep[k]);
                let i = choose|i: int|
                    0 <= i < prefix.len() && prefix[i].0 == pep[k].key && positional_in(
                        desc,
                        prefix[i].0,
                    ) && Option::Some(pep[k].pos) == explicit_position(desc, prefix[i].0);
                assert(args[i] == prefix[i]);
            } else {
                assert(positional_in(desc, args.last().0));
                assert(args[args.len() - 1].0 == pe[k].key);
            }
        }
        assert forall|k1: int, k2: int| 0 <= k1 < k2 < pe.len() implies (#[trigger] pe[k1]).pos
            != (#[trigger] pe[k2]).pos by {
            if k2 < pep.len() {
                assert(pe[k1] == pep[k1]);
                assert(pe[k2] == pep[k2]);
            } else {
                assert(pe[k1] == pep[k1]);
                let i = choose|i: int|
                    0 <= i < prefix.len() && prefix[i].0 == pep[k1].key && positional_in(
                        desc,
                        prefix[i].0,
                    ) && Option::Some(pep[k1].pos) == explicit_position(desc, prefix[i].0);
                assert(positional_in(desc, args.last().0));
                assert(explicit_position(desc, args[i].0) != explicit_position(
                    desc,
                    args[args.len() - 1].0,
                ));
            }
        }
    }
}

/// For positional arguments with explicit positions, the marshalled
/// positional order is a function of the request's contents alone: two
/// requests holding the same entries in any order sort identically, and
/// the sorted order never decreases in position. `desc` is the
/// descriptor the marshaller looked up for the tool, as
/// [`find_tool`] returns it.
pub proof fn lemma_positional_order_independent(
    desc: Option<ToolDescriptorView>,
    args1: Seq<(Seq<char>, ArgValueView)>,
    args2: Seq<(Seq<char>, ArgValueView)>,
)
    requires
        args1.to_multiset() == args2.to_multiset(),
        explicit_positional(desc, args1),
        distinct_positions(desc, args1),
    ensures
        stable_sorted(positional_entries(desc, args1)) == stable_sorted(
            positional_entries(desc, args2),
        ),
        sorted_by_pos(stable_sorted(positional_entries(desc, args1))),
{
    let pe1 = positional_entries(desc, args1);
    let pe2 = positional_entries(desc, args2);
    lemma_pe_permutation(desc, args1, args2);
    lemma_stable_sorted_multiset(pe1);
    lemma_stable_sorted_multiset(pe2);
    lemma_stable_sorted_sorted(pe1);
    lemma_stable_sorted_sorted(pe2);
    lemma_pe_distinct(desc, args1);
    lemma_stable_sorted_distinct(pe1);
    lemma_sorted_distinct_eq(stable_sorted(pe1), stable_sorted(pe2));
}

proof fn lemma_entry_classified(
    desc: Option<ToolDescriptorView>,
    args: Seq<(Seq<char>, ArgValueView)>,
    j: int,
)
    requires
        0 <= j < args.len(),
    ensures
        positional_in(desc, args[j].0) ==> exists|k: int|
            0 <= k < positional_entries(desc, args).len() && (#[trigger] positional_entries(
                desc,
                args,
            )[k]).key == args[j].0 && positional_entries(desc, args)[k].value == args[j].1,
        !positional_in(desc, args[j].0) ==> exists|k: int|
            0 <= k < named_entries(desc, args).len() && #[trigger] named_entries(desc, args)[k]
                == args[j],
    decreases args.len(),
{
    let pe = positional_entries(desc, args);
    let ne = named_entries(desc, args);
    if j == args.len() - 1 {
        if positional_in(desc, args[j].0) {
            let k = positional_entries(desc, args.drop_last()).len() as int;
            assert(0 <= k < pe.len() && pe[k].key == args[j].0 && pe[k].value == args[j].1);
        } else {
            let k = named_entries(desc, args.drop_last()).len() as int;
            assert(0 <= k < ne.len() && ne[k] == args[j]);
        }
    } else {
        lemma_entry_classified(desc, args.drop_last(), j);
        assert(args.drop_last()[j] == args[j]);
        if positional_in(desc, args[j].0) {
            let k = choose|k: int|
                0 <= k < positional_entries(desc, args.drop_last()).len()
                    && (#[trigger] positional_entries(desc, args.drop_last())[k]).key
                    == args[j].0 && positional_entries(desc, args.drop_last())[k].value
                    == args[j].1;
            assert(pe[k] == positional_entries(desc, args.drop_last())[k]);
        } else {
            let k = choose|k: int|
                0 <= k < named_entries(desc, args.drop_last()).len()
                    && #[trigger] named_entries(desc, args.drop_last())[k] == args[j];
            assert(ne[k] == named_entries(desc, args.drop_last())[k]);
        }
    }
}

/// Every argument present in the request materializes in the marshalled
/// token sequence: a positional value appears as a token, a named text
/// value appears immediately after its own flag token, and a named
/// boolean set to `true` appears as its flag token. This is the
/// marshaller's half of the round-trip property: a request that supplies
/// every argument of the descriptor's required set (with no required flag
/// set to `false`, which deliberately marshals to nothing) hands the
/// parser every required argument.
pub proof fn lemma_marshal_supplies_argument(
    tools: Seq<ToolDescriptorView>,
    name: Seq<char>,
    args: Seq<(Seq<char>, ArgValueView)>,
    j: int,
)
    requires
        0 <= j < args.len(),
    ensures
        ({
            let desc = find_tool(tools, name);
            let toks = marshal_spec(tools, name, args);
            &&& positional_in(desc, args[j].0) ==> toks.contains(text_of(args[j].1))
            &&& (!positional_in(desc, args[j].0) && args[j].1 is Text) ==> exists|i: int|
                0 <= i && i + 1 < toks.len() && #[trigger] toks[i] == flag_token(args[j].0)
                    && toks[i + 1] == text_of(args[j].1)
            &&& (!positional_in(desc, args[j].0) && args[j].1 == ArgValueView::Flag(true))
                ==> toks.contains(flag_token(args[j].0))
        }),
{
    broadcast use vstd::seq_lib::group_to_multiset_ensures;
    broadcast use vstd::multiset::group_multiset_axioms;

    let desc = find_tool(tools, name);
    let pe = positional_entries(desc, args);
    let ne = named_entries(desc, args);
    let sorted = stable_sorted(pe);
    let ptoks = positional_tokens(sorted);
    let pre: Seq<Seq<char>> = seq!["mcp"@, name];
    let toks = marshal_spec(tools, name, args);
    assert(toks == pre + ptoks + named_tokens(ne));
    lemma_entry_classified(desc, args, j);
    if positional_in(desc, args[j].0) {
        let k = choose|k: int|
            0 <= k < pe.len() && (#[trigger] pe[k]).key == args[j].0 && pe[k].value == args[j].1;
        lemma_stable_sorted_multiset(pe);
        assert(pe.contains(pe[k]));
        assert(pe.to_multiset().contains(pe[k]));
        assert(sorted.to_multiset().contains(pe[k]));
        assert(sorted.contains(pe[k]));
        let t = choose|t: int| 0 <= t < sorted.len() && sorted[t] == pe[k];
        assert(ptoks[t] == text_of(pe[k].value));
        assert(toks[2 + t] == ptoks[t]);
        assert(toks.contains(text_of(args[j].1)));
    } else {
        let k = choose|k: int| 0 <= k < ne.len() && #[trigger] ne[k] == args[j];
        assert(ne =~= (ne.take(k) + seq![ne[k]]) + ne.skip(k + 1));
        lemma_named_tokens_distribute(ne.take(k) + seq![ne[k]], ne.skip(k + 1));
        lemma_named_tokens_distribute(ne.take(k), seq![ne[k]]);
        let single = seq![ne[k]];
        assert(single.drop_last() =~= Seq::<(Seq<char>, ArgValueView)>::empty());
        assert(named_tokens(single.drop_last()).len() == 0);
        assert(named_tokens(single) =~= named_token_of(ne[k]));
        let before = named_tokens(ne.take(k));
        assert(named_tokens(ne) == (before + named_token_of(ne[k])) + named_tokens(
            ne.skip(k + 1),
        ));
        let base: int = 2 + ptoks.len() as int + before.len() as int;
        match args[j].1 {
            ArgValueView::Text(s) => {
                assert(named_token_of(ne[k]) =~= seq![flag_token(args[j].0), s]);
                assert(toks[base] == flag_token(args[j].0));
                assert(toks[base + 1] == s);
                assert(0 <= base && base + 1 < toks.len());
            },
            ArgValueView::Flag(b) => {
                if b {
                    assert(named_token_of(ne[k]) =~= seq![flag_token(args[j].0)]);
                    assert(toks[base] == flag_token(args[j].0));
                    assert(toks.contains(flag_token(args[j].0)));
                }
            },
        }
    }
}

} // verus!
