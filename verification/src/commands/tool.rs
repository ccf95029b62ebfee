//! tool - Invoke external tools via shell syntax
//!
//! Provides CLI-style access to external tools:
//!   tool stripe.charge --amount 500 --currency usd
use serde_json::Value;
use vstd::prelude::*;
use vstd::string::StringExecFns;
use crate::catalog::{params, tools, Param, ParamDef, ParamType, Tool, ToolDef};
use crate::commands::Said;
use crate::json::{
    bool_json, fields, int_json, json_bytes, lemma_fields_push, list_json, null_json, object_json, open, parse_json,
    parse_json_bytes, parsed, parsed_bytes, pretty, text_json, tree_of, trees, write_bytes,
    write_pretty, Shape, Tree,
};
use crate::num::{parse_i64, read_i64, signed_decimal};
use crate::text::{
    find_char, find_from, lemma_find_from, pad_right, padded_right, rows, split, split_chars, str_eq,
    strings_from, strs, text_part, to_chars, to_text, trim, trim_chars,
};
use crate::unicode::{lossy, lower, lowercase, read_lossy};

verus! {

pub const USAGE: &'static str = "tool - Invoke external tools via shell syntax\n\nUsage:\n  tool <name> [--param value]...    Invoke a tool\n  tool --list [provider]            List available tools\n  tool --help <name>                Show tool details\n\nExamples:\n  tool stripe.charge --amount 500 --currency usd\n  tool slack.send --channel general --message \"Hello\"\n  tool notion.search --query roadmap\n  tool --json '{\"amount\": 500}' stripe.charge\n  tool --list stripe\n";

/// What tool is asked for.
#[derive(Debug)]
pub enum Request {
    /// How tool is used.
    Usage,
    /// The tools, or those of one provider.
    List(Option<String>),
    /// What is known of a tool.
    Help(String),
    /// Nothing: the option is not known.
    Unknown(String),
    /// A tool, with its arguments.
    Invoke(String, Vec<String>),
}

/// What tool is asked for, as mathematics has it.
pub enum Asked {
    Usage,
    List(Option<Seq<char>>),
    Help(Seq<char>),
    Unknown(Seq<char>),
    Invoke(Seq<char>, Seq<Seq<char>>),
}

impl View for Request {
    type V = Asked;

    open spec fn view(&self) -> Asked {
        match self {
            Request::Usage => Asked::Usage,
            Request::List(None) => Asked::List(None),
            Request::List(Some(s)) => Asked::List(Some(s@)),
            Request::Help(s) => Asked::Help(s@),
            Request::Unknown(s) => Asked::Unknown(s@),
            Request::Invoke(s, args) => Asked::Invoke(s@, strs(args@)),
        }
    }
}

/// The arguments behind the command name.
pub open spec fn args_of(argv: Seq<Seq<char>>) -> Seq<Seq<char>> {
    if argv.len() == 0 {
        argv
    } else {
        argv.skip(1)
    }
}

/// What the arguments behind the command name ask for. Parameters that are given as
/// JSON can also stand before the name of the tool.
pub open spec fn asked(args: Seq<Seq<char>>) -> Asked {
    if args.len() == 0 {
        Asked::Usage
    } else if args[0] == "--list"@ || args[0] == "-l"@ {
        Asked::List(
            if args.len() > 1 {
                Some(args[1])
            } else {
                None
            },
        )
    } else if args[0] == "--help"@ || args[0] == "-h"@ {
        if args.len() > 1 {
            Asked::Help(args[1])
        } else {
            Asked::Usage
        }
    } else if args[0] == "--json"@ && args.len() > 2 {
        Asked::Invoke(args[2], seq![args[0], args[1]] + args.skip(3))
    } else if args[0].len() > 0 && args[0][0] == '-' {
        Asked::Unknown(args[0])
    } else {
        Asked::Invoke(args[0], args.skip(1))
    }
}

/// `tool <name> [--param value]...`
///
/// Reads what is asked for.
pub fn run(argv: &Vec<String>) -> (r: Request)
    ensures
        r@ == asked(args_of(strs(argv@))),
{
    let ghost args = args_of(strs(argv@));
    if argv.len() <= 1 {
        return Request::Usage;
    }
    proof {
        assert(args[0] == argv@[1]@);
    }
    let first = argv[1].as_str();
    if str_eq(first, "--list") || str_eq(first, "-l") {
        if argv.len() > 2 {
            proof {
                assert(args[1] == argv@[2]@);
            }
            return Request::List(Some(argv[2].clone()));
        }
        return Request::List(None);
    }
    if str_eq(first, "--help") || str_eq(first, "-h") {
        if argv.len() > 2 {
            proof {
                assert(args[1] == argv@[2]@);
            }
            return Request::Help(argv[2].clone());
        }
        return Request::Usage;
    }
    if str_eq(first, "--json") && argv.len() > 3 {
        let mut params: Vec<String> = Vec::new();
        params.push(argv[1].clone());
        params.push(argv[2].clone());
        let mut rest = strings_from(argv, 4);
        let ghost more = rest@;
        params.append(&mut rest);
        proof {
            assert(args[1] == argv@[2]@);
            assert(args[2] == argv@[3]@);
            assert(strs(more) =~= args.skip(3));
            assert(strs(params@) =~= seq![args[0], args[1]] + args.skip(3));
        }
        return Request::Invoke(argv[3].clone(), params);
    }
    let cs = to_chars(first);
    if cs.len() > 0 && cs[0] == '-' {
        return Request::Unknown(argv[1].clone());
    }
    let rest = strings_from(argv, 2);
    proof {
        assert(strs(argv@).skip(2) =~= args.skip(1));
    }
    Request::Invoke(argv[1].clone(), rest)
}

/// How tool is used.
pub fn show_usage() -> (r: Said)
    ensures
        r.says(USAGE@, Seq::empty(), 0),
{
    Said::output(USAGE)
}

/// What is said of an option that is not known.
pub fn unknown_option(name: &str) -> (r: Said)
    ensures
        r.says(Seq::empty(), "tool: unknown option: "@ + name@ + "\n"@, 1),
{
    let mut err = "tool: unknown option: ".to_owned();
    err.append(name);
    err.append("\n");
    Said { out: String::new(), err, code: 1 }
}

/// What is said where the host has no tools.
pub fn no_tools() -> (r: Said)
    ensures
        r.says(Seq::empty(), "tool: no tools available"@ + seq!['\n'], 1),
{
    Said::complaint("tool: no tools available", 1)
}

// ---------------------------------------------------------------------------
// Listing
// ---------------------------------------------------------------------------

/// A name with a dot for each colon.
pub open spec fn dotted(name: Seq<char>) -> Seq<char> {
    name.map_values(
        |c: char|
            if c == ':' {
                '.'
            } else {
                c
            },
    )
}

/// What stands before the first dot of a name.
pub open spec fn provider(name: Seq<char>) -> Seq<char> {
    name.take(find_from(name, '.', 0))
}

fn display_name(name: &str) -> (r: Vec<char>)
    ensures
        r@ == dotted(name@),
{
    let cs = to_chars(name);
    let mut out: Vec<char> = Vec::new();
    let mut i: usize = 0;
    while i < cs.len()
        invariant
            i <= cs@.len(),
            cs@ == name@,
            out@.len() == i,
            forall|k: int| 0 <= k < i ==> out@[k] == dotted(name@)[k],
        decreases cs@.len() - i,
    {
        let c = if cs[i] == ':' {
            '.'
        } else {
            cs[i]
        };
        out.push(c);
        i += 1;
    }
    proof {
        assert(out@ =~= dotted(name@));
    }
    out
}

/// Whether a tool is listed.
pub open spec fn is_listed(t: Tool, filter: Option<Seq<char>>) -> bool {
    filter matches Some(f) ==> provider(dotted(t.name)) == f
}

/// The lines of the tools from the `i`th on.
pub open spec fn list_from(ts: Seq<Tool>, filter: Option<Seq<char>>, i: int) -> Seq<char>
    decreases ts.len() - i,
{
    if i < 0 || i >= ts.len() {
        Seq::empty()
    } else if is_listed(ts[i], filter) {
        "  "@ + pad_right(dotted(ts[i].name), 30) + " "@ + ts[i].description + "\n"@ + list_from(
            ts,
            filter,
            i + 1,
        )
    } else {
        list_from(ts, filter, i + 1)
    }
}

/// Whether none of the tools from the `i`th on is listed.
pub open spec fn none_listed(ts: Seq<Tool>, filter: Option<Seq<char>>, i: int) -> bool
    decreases ts.len() - i,
{
    if i < 0 || i >= ts.len() {
        true
    } else {
        !is_listed(ts[i], filter) && none_listed(ts, filter, i + 1)
    }
}

/// The list of the tools, or of those of one provider.
pub open spec fn list_text(ts: Seq<Tool>, filter: Option<Seq<char>>) -> Seq<char> {
    if none_listed(ts, filter, 0) {
        match filter {
            Some(f) => "No tools found for provider: "@ + f + "\n"@,
            None => "No tools registered.\n"@,
        }
    } else {
        list_from(ts, filter, 0)
    }
}

pub open spec fn opt_text(s: Option<&str>) -> Option<Seq<char>> {
    match s {
        Some(t) => Some(t@),
        None => None,
    }
}

/// List available tools, optionally filtered by provider.
pub fn list_tools(defs: &Vec<ToolDef>, filter: Option<&str>) -> (r: Said)
    ensures
        r.says(list_text(tools(defs@), opt_text(filter)), Seq::empty(), 0),
{
    let ghost ts = tools(defs@);
    let ghost only = opt_text(filter);
    let mut out = String::new();
    let mut none = true;
    let mut i: usize = 0;
    proof {
        assert(out@ + list_from(ts, only, 0) =~= list_from(ts, only, 0));
    }
    while i < defs.len()
        invariant
            i <= defs@.len(),
            ts == tools(defs@),
            only == opt_text(filter),
            out@ + list_from(ts, only, i as int) == list_from(ts, only, 0),
            (none && none_listed(ts, only, i as int)) == none_listed(ts, only, 0),
            none ==> out@ == Seq::<char>::empty(),
        decreases defs@.len() - i,
    {
        let ghost before = out@;
        proof {
            assert(ts[i as int] == defs@[i as int]@);
        }
        let name = display_name(defs[i].name.as_str());
        let listed = match filter {
            Some(f) => {
                let end = find_char(&name, '.', 0);
                proof {
                    lemma_find_from(name@, '.', 0);
                }
                let first = text_part(&name, 0, end);
                proof {
                    assert(first@ =~= provider(name@));
                }
                str_eq(first.as_str(), f)
            },
            None => true,
        };
        if listed {
            let padded = padded_right(&name, 30);
            out.append("  ");
            out.append(padded.as_str());
            out.append(" ");
            out.append(defs[i].description.as_str());
            out.append("\n");
            none = false;
            proof {
                let line = "  "@ + padded@ + " "@ + ts[i as int].description + "\n"@;
                assert(out@ =~= before + line);
                assert(before + line + list_from(ts, only, i + 1) =~= before + (line + list_from(
                    ts,
                    only,
                    i + 1,
                )));
            }
        }
        i += 1;
    }
    if none {
        match filter {
            Some(f) => {
                out.append("No tools found for provider: ");
                out.append(f);
                out.append("\n");
                proof {
                    assert(out@ =~= "No tools found for provider: "@ + f@ + "\n"@);
                }
            },
            None => {
                out.append("No tools registered.\n");
                proof {
                    assert(out@ =~= "No tools registered.\n"@);
                }
            },
        }
    } else {
        proof {
            assert(out@ =~= list_from(ts, only, 0));
        }
    }
    Said { out, err: String::new(), code: 0 }
}

// ---------------------------------------------------------------------------
// Help
// ---------------------------------------------------------------------------

/// The lines of the parameters from the `i`th on.
pub open spec fn param_lines(ps: Seq<Param>, i: int) -> Seq<char>
    decreases ps.len() - i,
{
    if i < 0 || i >= ps.len() {
        Seq::empty()
    } else {
        "  --"@ + pad_right(ps[i].name, 20) + " ("@ + ps[i].kind.label() + ", "@ + (
        if ps[i].required {
            "required"@
        } else {
            "optional"@
        }) + ") "@ + ps[i].description + "\n"@ + param_lines(ps, i + 1)
    }
}

/// The required parameters from the `i`th on, as they are used.
pub open spec fn needed(ps: Seq<Param>, i: int) -> Seq<char>
    decreases ps.len() - i,
{
    if i < 0 || i >= ps.len() {
        Seq::empty()
    } else if ps[i].required {
        " --"@ + ps[i].name + " <value>"@ + needed(ps, i + 1)
    } else {
        needed(ps, i + 1)
    }
}

/// What is shown of a tool.
pub open spec fn tool_text(t: Tool) -> Seq<char> {
    "Tool: "@ + dotted(t.name) + "\nDescription: "@ + t.description + "\n"@ + (
    if t.parameters.len() > 0 {
        "\nParameters:\n"@ + param_lines(t.parameters, 0)
    } else {
        Seq::empty()
    }) + "\nUsage:\n  tool "@ + dotted(t.name) + needed(t.parameters, 0) + "\n"@
}

fn push_params(out: &mut String, defs: &Vec<ParamDef>)
    ensures
        final(out)@ == old(out)@ + param_lines(params(defs@), 0),
{
    let ghost start = out@;
    let ghost ps = params(defs@);
    let mut i: usize = 0;
    while i < defs.len()
        invariant
            i <= defs@.len(),
            ps == params(defs@),
            out@ + param_lines(ps, i as int) == start + param_lines(ps, 0),
        decreases defs@.len() - i,
    {
        let ghost before = out@;
        proof {
            assert(ps[i as int] == defs@[i as int]@);
        }
        let name = to_chars(defs[i].name.as_str());
        let padded = padded_right(&name, 20);
        out.append("  --");
        out.append(padded.as_str());
        out.append(" (");
        out.append(defs[i].param_type.text());
        out.append(", ");
        out.append(
            if defs[i].required {
                "required"
            } else {
                "optional"
            },
        );
        out.append(") ");
        out.append(defs[i].description.as_str());
        out.append("\n");
        proof {
            let p = ps[i as int];
            let line = "  --"@ + pad_right(p.name, 20) + " ("@ + p.kind.label() + ", "@ + (
            if p.required {
                "required"@
            } else {
                "optional"@
            }) + ") "@ + p.description + "\n"@;
            assert(out@ =~= before + line);
            assert(before + line + param_lines(ps, i + 1) =~= before + (line + param_lines(
                ps,
                i + 1,
            )));
        }
        i += 1;
    }
    proof {
        assert(out@ + Seq::<char>::empty() =~= out@);
    }
}

fn push_needed(out: &mut String, defs: &Vec<ParamDef>)
    ensures
        final(out)@ == old(out)@ + needed(params(defs@), 0),
{
    let ghost start = out@;
    let ghost ps = params(defs@);
    let mut i: usize = 0;
    while i < defs.len()
        invariant
            i <= defs@.len(),
            ps == params(defs@),
            out@ + needed(ps, i as int) == start + needed(ps, 0),
        decreases defs@.len() - i,
    {
        let ghost before = out@;
        proof {
            assert(ps[i as int] == defs@[i as int]@);
        }
        if defs[i].required {
            out.append(" --");
            out.append(defs[i].name.as_str());
            out.append(" <value>");
            proof {
                let text = " --"@ + ps[i as int].name + " <value>"@;
                assert(out@ =~= before + text);
                assert(before + text + needed(ps, i + 1) =~= before + (text + needed(ps, i + 1)));
            }
        }
        i += 1;
    }
    proof {
        assert(out@ + Seq::<char>::empty() =~= out@);
    }
}

/// Show detailed help for a specific tool, where there is one of the name.
pub fn show_tool_help(tool: Option<&ToolDef>, name: &str) -> (r: Said)
    ensures
        match tool {
            Some(t) => r.says(tool_text(t@), Seq::empty(), 0),
            None => r.says(Seq::empty(), "tool: unknown tool: "@ + name@ + "\n"@, 1),
        },
{
    match tool {
        Some(t) => {
            let shown = to_text(&display_name(t.name.as_str()));
            let mut out = "Tool: ".to_owned();
            out.append(shown.as_str());
            out.append("\nDescription: ");
            out.append(t.description.as_str());
            out.append("\n");
            let ghost head = out@;
            proof {
                assert(t@.parameters.len() == t.parameters@.len());
            }
            if t.parameters.len() > 0 {
                out.append("\nParameters:\n");
                push_params(&mut out, &t.parameters);
                proof {
                    assert(out@ =~= head + ("\nParameters:\n"@ + param_lines(t@.parameters, 0)));
                }
            } else {
                proof {
                    assert(out@ =~= head + Seq::<char>::empty());
                }
            }
            out.append("\nUsage:\n  tool ");
            out.append(shown.as_str());
            push_needed(&mut out, &t.parameters);
            out.append("\n");
            Said { out, err: String::new(), code: 0 }
        },
        None => {
            let mut err = "tool: unknown tool: ".to_owned();
            err.append(name);
            err.append("\n");
            Said { out: String::new(), err, code: 1 }
        },
    }
}

// ---------------------------------------------------------------------------
// Values
// ---------------------------------------------------------------------------

/// What a text is when it is read as a floating-point number.
pub enum Float {
    /// No number.
    Absent,
    /// An infinite number, or one that is not a number.
    Infinite,
    /// A number, as JSON has it.
    Finite(Value),
}

/// What a text is when it is read as a floating-point number, as mathematics has it.
pub enum FloatOf {
    Absent,
    Infinite,
    Finite(Tree),
}

impl View for Float {
    type V = FloatOf;

    open spec fn view(&self) -> FloatOf {
        match self {
            Float::Absent => FloatOf::Absent,
            Float::Infinite => FloatOf::Infinite,
            Float::Finite(v) => FloatOf::Finite(tree_of(*v)),
        }
    }
}

/// The texts of a list, each without the white space around it.
pub open spec fn trimmed(parts: Seq<Seq<char>>) -> Seq<Tree> {
    parts.map_values(|p: Seq<char>| Tree::Text(trim(p)))
}

/// The JSON value of a text, for a parameter of a kind.
pub open spec fn value_tree(s: Seq<char>, kind: Option<ParamType>, float: FloatOf) -> Tree {
    match kind {
        Some(ParamType::Integer) => match read_i64(s) {
            Some(n) => Tree::Number(signed_decimal(n)),
            None => Tree::Text(s),
        },
        Some(ParamType::Number) => match float {
            FloatOf::Absent => Tree::Text(s),
            FloatOf::Infinite => Tree::Null,
            FloatOf::Finite(t) => t,
        },
        Some(ParamType::Boolean) => {
            let l = lower(s);
            if l == "true"@ || l == "1"@ || l == "yes"@ {
                Tree::Bool(true)
            } else if l == "false"@ || l == "0"@ || l == "no"@ {
                Tree::Bool(false)
            } else {
                Tree::Text(s)
            }
        },
        Some(ParamType::Array) => match parsed(s) {
            Ok(t) => t,
            Err(_) => Tree::List(trimmed(split(s, ','))),
        },
        Some(ParamType::Object) => match parsed(s) {
            Ok(t) => t,
            Err(_) => Tree::Text(s),
        },
        Some(ParamType::Text) => Tree::Text(s),
        None => match read_i64(s) {
            Some(n) => Tree::Number(signed_decimal(n)),
            None => match float {
                FloatOf::Finite(t) => t,
                FloatOf::Infinite => Tree::Number(signed_decimal(0)),
                FloatOf::Absent => if s == "true"@ {
                    Tree::Bool(true)
                } else if s == "false"@ {
                    Tree::Bool(false)
                } else {
                    Tree::Text(s)
                },
            },
        },
    }
}

/// `serde_json::Value::clone`: a value that holds the same.
#[verifier::external_body]
fn copy_json(v: &Value) -> (r: Value)
    ensures
        tree_of(r) == tree_of(*v),
{
    v.clone()
}

fn split_list(s: &str) -> (r: Value)
    ensures
        tree_of(r) == Tree::List(trimmed(split(s@, ','))),
{
    let cs = to_chars(s);
    let parts = split_chars(&cs, ',');
    let ghost all = split(s@, ',');
    let mut items: Vec<Value> = Vec::new();
    let mut i: usize = 0;
    while i < parts.len()
        invariant
            i <= parts@.len(),
            rows(parts@) == all,
            items@.len() == i,
            forall|k: int| 0 <= k < i ==> tree_of(#[trigger] items@[k]) == trimmed(all)[k],
        decreases parts@.len() - i,
    {
        proof {
            assert(all[i as int] == parts@[i as int]@);
        }
        let t = trim_chars(&parts[i]);
        items.push(text_json(to_text(&t)));
        i += 1;
    }
    proof {
        assert(all.len() == parts@.len());
        assert(trees(items@) =~= trimmed(all));
    }
    list_json(items)
}

/// Parse a string value into JSON, using type hints from schema. `float` is what the
/// text is as a floating-point number.
pub fn parse_value(s: &str, kind: Option<ParamType>, float: &Float) -> (r: Value)
    ensures
        tree_of(r) == value_tree(s@, kind, float@),
{
    let cs = to_chars(s);
    match kind {
        Some(ParamType::Integer) => match parse_i64(&cs) {
            Some(n) => int_json(n),
            None => text_json(s.to_owned()),
        },
        Some(ParamType::Number) => match float {
            Float::Absent => text_json(s.to_owned()),
            Float::Infinite => null_json(),
            Float::Finite(v) => copy_json(v),
        },
        Some(ParamType::Boolean) => {
            let l = lowercase(s);
            let l = l.as_str();
            if str_eq(l, "true") || str_eq(l, "1") || str_eq(l, "yes") {
                bool_json(true)
            } else if str_eq(l, "false") || str_eq(l, "0") || str_eq(l, "no") {
                bool_json(false)
            } else {
                text_json(s.to_owned())
            }
        },
        Some(ParamType::Array) => match parse_json(s) {
            Ok(v) => v,
            Err(_) => split_list(s),
        },
        Some(ParamType::Object) => match parse_json(s) {
            Ok(v) => v,
            Err(_) => text_json(s.to_owned()),
        },
        Some(ParamType::Text) => text_json(s.to_owned()),
        None => match parse_i64(&cs) {
            Some(n) => int_json(n),
            None => match float {
                Float::Finite(v) => copy_json(v),
                Float::Infinite => int_json(0),
                Float::Absent => {
                    if str_eq(s, "true") {
                        bool_json(true)
                    } else if str_eq(s, "false") {
                        bool_json(false)
                    } else {
                        text_json(s.to_owned())
                    }
                },
            },
        },
    }
}

// ---------------------------------------------------------------------------
// Arguments
// ---------------------------------------------------------------------------

/// The kind of the first parameter of a name, from the `i`th on.
pub open spec fn kind_from(ps: Seq<Param>, name: Seq<char>, i: int) -> Option<ParamType>
    decreases ps.len() - i,
{
    if i < 0 || i >= ps.len() {
        None
    } else if ps[i].name == name {
        Some(ps[i].kind)
    } else {
        kind_from(ps, name, i + 1)
    }
}

fn find_kind(defs: &Vec<ParamDef>, name: &str) -> (r: Option<ParamType>)
    ensures
        r == kind_from(params(defs@), name@, 0),
{
    let ghost ps = params(defs@);
    let mut i: usize = 0;
    while i < defs.len()
        invariant
            i <= defs@.len(),
            ps == params(defs@),
            kind_from(ps, name@, i as int) == kind_from(ps, name@, 0),
        decreases defs@.len() - i,
    {
        proof {
            assert(ps[i as int] == defs@[i as int]@);
        }
        if str_eq(defs[i].name.as_str(), name) {
            return Some(defs[i].param_type);
        }
        i += 1;
    }
    None
}

/// What the texts are when they are read as floating-point numbers.
pub open spec fn floats_of(v: Seq<Float>) -> Seq<FloatOf> {
    v.map_values(|f: Float| f@)
}

pub open spec fn is_dashed(s: Seq<char>) -> bool {
    s.len() >= 2 && s[0] == '-' && s[1] == '-'
}

/// What the arguments from the `i`th on make of the parameters, or the message.
///
/// A name with two dashes before it takes the argument behind it, unless that has two
/// dashes before it too: the parameter is then true. `--json` takes an object, whose
/// fields are parameters.
pub open spec fn read_params(
    ps: Seq<Param>,
    args: Seq<Seq<char>>,
    floats: Seq<FloatOf>,
    i: int,
    m: Map<Seq<char>, Tree>,
) -> Result<Map<Seq<char>, Tree>, Seq<char>>
    decreases args.len() - i,
{
    if i < 0 || i >= args.len() {
        Ok(m)
    } else if args[i] == "--json"@ {
        if i + 1 >= args.len() {
            Err("--json requires a value"@)
        } else {
            match parsed(args[i + 1]) {
                Err(e) => Err("invalid JSON: "@ + e),
                Ok(Tree::Object(fs)) => read_params(
                    ps,
                    args,
                    floats,
                    i + 2,
                    m.union_prefer_right(fs),
                ),
                Ok(_) => Err("--json value must be an object"@),
            }
        }
    } else if is_dashed(args[i]) {
        let name = args[i].skip(2);
        if i + 1 < args.len() && !is_dashed(args[i + 1]) {
            let v = value_tree(args[i + 1], kind_from(ps, name, 0), floats[i + 1]);
            read_params(ps, args, floats, i + 2, m.insert(name, v))
        } else {
            read_params(ps, args, floats, i + 1, m.insert(name, Tree::Bool(true)))
        }
    } else {
        Err("unexpected argument: "@ + args[i])
    }
}

proof fn lemma_fields_append(a: Seq<(String, Value)>, b: Seq<(String, Value)>)
    ensures
        fields(a + b) == fields(a).union_prefer_right(fields(b)),
    decreases b.len(),
{
    if b.len() == 0 {
        assert(a + b =~= a);
        assert(fields(a).union_prefer_right(fields(b)) =~= fields(a));
    } else {
        lemma_fields_append(a, b.drop_last());
        assert((a + b).drop_last() =~= a + b.drop_last());
        assert(fields(a).union_prefer_right(fields(b)) =~= fields(a).union_prefer_right(
            fields(b.drop_last()),
        ).insert(b.last().0@, tree_of(b.last().1)));
    }
}

fn starts_dashed(s: &Vec<char>) -> (r: bool)
    ensures
        r == is_dashed(s@),
{
    s.len() >= 2 && s[0] == '-' && s[1] == '-'
}

/// Parse CLI arguments into JSON parameters.
///
/// Supports:
/// - `--param value` pairs
/// - `--json '{...}'` for raw JSON input
/// - `--flag` for boolean true
/// - Type inference from tool schema
///
/// `floats` holds what each argument is as a floating-point number.
pub fn parse_args(tool: &ToolDef, args: &Vec<String>, floats: &Vec<Float>) -> (r: Result<
    Vec<(String, Value)>,
    String,
>)
    requires
        floats@.len() == args@.len(),
    ensures
        match (
            r,
            read_params(tool@.parameters, strs(args@), floats_of(floats@), 0, Map::empty()),
        ) {
            (Ok(ps), Ok(m)) => fields(ps@) == m,
            (Err(e), Err(m)) => e@ == m,
            _ => false,
        },
{
    let ghost ps = tool@.parameters;
    let ghost all = strs(args@);
    let ghost fs = floats_of(floats@);
    let ghost whole = read_params(ps, all, fs, 0, Map::empty());
    let mut out: Vec<(String, Value)> = Vec::new();
    let mut i: usize = 0;
    while i < args.len()
        invariant
            ps == params(tool.parameters@),
            all == strs(args@),
            fs == floats_of(floats@),
            floats@.len() == args@.len(),
            i <= args@.len(),
            whole == read_params(tool@.parameters, strs(args@), floats_of(floats@), 0, Map::empty()),
            whole == read_params(ps, all, fs, i as int, fields(out@)),
        decreases args@.len() - i,
    {
        let ghost before = out@;
        proof {
            assert(all[i as int] == args@[i as int]@);
            if i + 1 < args@.len() {
                assert(all[i + 1] == args@[i + 1]@);
                assert(fs[i + 1] == floats@[i + 1]@);
            }
        }
        let arg = args[i].as_str();
        if str_eq(arg, "--json") {
            if i + 1 >= args.len() {
                return Err("--json requires a value".to_owned());
            }
            match parse_json(args[i + 1].as_str()) {
                Err(e) => {
                    let mut m = "invalid JSON: ".to_owned();
                    m.append(e.as_str());
                    return Err(m);
                },
                Ok(v) => match open(v) {
                    Shape::Object(mut pairs) => {
                        let ghost more = pairs@;
                        out.append(&mut pairs);
                        proof {
                            lemma_fields_append(before, more);
                            assert(out@ =~= before + more);
                        }
                    },
                    _ => {
                        return Err("--json value must be an object".to_owned());
                    },
                },
            }
            i += 2;
            continue ;
        }
        let cs = to_chars(arg);
        if !starts_dashed(&cs) {
            let mut m = "unexpected argument: ".to_owned();
            m.append(arg);
            return Err(m);
        }
        let name = text_part(&cs, 2, cs.len());
        proof {
            assert(name@ =~= all[i as int].skip(2));
        }
        let has_value = if i + 1 < args.len() {
            let next = to_chars(args[i + 1].as_str());
            !starts_dashed(&next)
        } else {
            false
        };
        if has_value {
            let kind = find_kind(&tool.parameters, name.as_str());
            let v = parse_value(args[i + 1].as_str(), kind, &floats[i + 1]);
            proof {
                lemma_fields_push(before, (name, v));
            }
            out.push((name, v));
            i += 2;
        } else {
            let v = bool_json(true);
            proof {
                lemma_fields_push(before, (name, v));
            }
            out.push((name, v));
            i += 1;
        }
    }
    Ok(out)
}

// ---------------------------------------------------------------------------
// Invocation
// ---------------------------------------------------------------------------

/// A call of the host.
#[derive(Debug)]
pub struct Call {
    /// The method.
    pub method: String,
    /// The bytes of its parameters.
    pub params: Vec<u8>,
}

/// The first required parameter from the `i`th on that is not given.
pub open spec fn missing_from(ps: Seq<Param>, m: Map<Seq<char>, Tree>, i: int) -> Option<Seq<char>>
    decreases ps.len() - i,
{
    if i < 0 || i >= ps.len() {
        None
    } else if ps[i].required && !m.dom().contains(ps[i].name) {
        Some(ps[i].name)
    } else {
        missing_from(ps, m, i + 1)
    }
}

/// The host's name for a tool.
pub open spec fn method_name(name: Seq<char>) -> Seq<char> {
    if name.contains(':') {
        name
    } else {
        "mcp:"@ + name
    }
}

/// What is called, with which parameters, or the complaint.
pub open spec fn call_of(t: Tool, args: Seq<Seq<char>>, floats: Seq<FloatOf>) -> Result<
    (Seq<char>, Map<Seq<char>, Tree>),
    Seq<char>,
> {
    match read_params(t.parameters, args, floats, 0, Map::empty()) {
        Err(e) => Err("tool: "@ + e + "\n"@),
        Ok(m) => match missing_from(t.parameters, m, 0) {
            Some(name) => Err("tool: missing required parameter: --"@ + name + "\n"@),
            None => Ok((method_name(t.name), m)),
        },
    }
}

fn contains_name(ps: &Vec<(String, Value)>, name: &str) -> (r: bool)
    ensures
        r == fields(ps@).dom().contains(name@),
{
    let mut n = ps.len();
    proof {
        assert(ps@.take(n as int) =~= ps@);
    }
    while n > 0
        invariant
            n <= ps@.len(),
            fields(ps@).dom().contains(name@) == fields(ps@.take(n as int)).dom().contains(name@),
        decreases n,
    {
        proof {
            let front = ps@.take(n as int);
            assert(front.drop_last() =~= ps@.take(n - 1));
            assert(front.last() == ps@[n - 1]);
        }
        if str_eq(ps[n - 1].0.as_str(), name) {
            return true;
        }
        n -= 1;
    }
    false
}

/// What is said of a tool that the host does not have.
pub fn unknown_tool(name: &str) -> (r: Said)
    ensures
        r.says(
            Seq::empty(),
            "tool: unknown tool: "@ + name@ + "\nUse 'tool --list' to see available tools.\n"@,
            1,
        ),
{
    let mut err = "tool: unknown tool: ".to_owned();
    err.append(name);
    err.append("\nUse 'tool --list' to see available tools.\n");
    Said { out: String::new(), err, code: 1 }
}

/// Invoke a tool with the given arguments: what to call, or the complaint.
pub fn invoke_tool(tool: &ToolDef, args: &Vec<String>, floats: &Vec<Float>) -> (r: Result<
    Call,
    Said,
>)
    requires
        floats@.len() == args@.len(),
    ensures
        match (r, call_of(tool@, strs(args@), floats_of(floats@))) {
            (Ok(c), Ok((method, m))) => c.method@ == method && c.params@ == (match json_bytes(
                Tree::Object(m),
            ) {
                Some(b) => b,
                None => Seq::empty(),
            }),
            (Err(said), Err(e)) => said.says(Seq::empty(), e, 1),
            _ => false,
        },
{
    let pairs = match parse_args(tool, args, floats) {
        Ok(p) => p,
        Err(e) => {
            let mut err = "tool: ".to_owned();
            err.append(e.as_str());
            err.append("\n");
            return Err(Said { out: String::new(), err, code: 1 });
        },
    };
    let ghost m = fields(pairs@);
    let ghost ps = tool@.parameters;
    let mut i: usize = 0;
    while i < tool.parameters.len()
        invariant
            i <= tool.parameters@.len(),
            ps == params(tool.parameters@),
            m == fields(pairs@),
            missing_from(ps, m, i as int) == missing_from(ps, m, 0),
            read_params(tool@.parameters, strs(args@), floats_of(floats@), 0, Map::empty()) == Ok::<
                Map<Seq<char>, Tree>,
                Seq<char>,
            >(m),
        decreases tool.parameters@.len() - i,
    {
        let p = &tool.parameters[i];
        proof {
            assert(ps[i as int] == p@);
        }
        if p.required && !contains_name(&pairs, p.name.as_str()) {
            let mut err = "tool: missing required parameter: --".to_owned();
            err.append(p.name.as_str());
            err.append("\n");
            return Err(Said { out: String::new(), err, code: 1 });
        }
        i += 1;
    }
    let cs = to_chars(tool.name.as_str());
    let at = find_char(&cs, ':', 0);
    proof {
        lemma_find_from(cs@, ':', 0);
    }
    let method = if at < cs.len() {
        proof {
            assert(cs@[at as int] == ':');
        }
        tool.name.clone()
    } else {
        proof {
            assert(!cs@.contains(':'));
        }
        let mut s = "mcp:".to_owned();
        s.append(tool.name.as_str());
        s
    };
    let json = object_json(pairs);
    let bytes = match write_bytes(&json) {
        Some(b) => b,
        None => {
            let none: Vec<u8> = Vec::new();
            proof {
                assert(none@ =~= Seq::<u8>::empty());
            }
            none
        },
    };
    Ok(Call { method, params: bytes })
}

/// What is said of the host's answer: JSON is indented, anything else is shown as
/// text.
pub fn answered(tool: &ToolDef, result: Result<Vec<u8>, String>) -> (r: Said)
    ensures
        match result {
            Ok(bytes) => match parsed_bytes(bytes@) {
                Ok(t) => r.says(
                    (match pretty(t) {
                        Some(s) => s,
                        None => Seq::empty(),
                    }) + "\n"@,
                    Seq::empty(),
                    0,
                ),
                Err(_) => r.says(lossy(bytes@) + "\n"@, Seq::empty(), 0),
            },
            Err(e) => r.says(
                Seq::empty(),
                "tool: "@ + tool.name@ + " failed: "@ + e@ + "\n"@,
                1,
            ),
        },
{
    match result {
        Ok(bytes) => {
            let mut out = match parse_json_bytes(bytes.as_slice()) {
                Ok(v) => match write_pretty(&v) {
                    Some(s) => s,
                    None => String::new(),
                },
                Err(_) => read_lossy(bytes.as_slice()),
            };
            out.append("\n");
            Said { out, err: String::new(), code: 0 }
        },
        Err(e) => {
            let mut err = "tool: ".to_owned();
            err.append(tool.name.as_str());
            err.append(" failed: ");
            err.append(e.as_str());
            err.append("\n");
            Said { out: String::new(), err, code: 1 }
        },
    }
}

/// Parameters that are given as JSON before the name of the tool are asked for as those
/// that are given behind it.
pub proof fn law_json_before_the_name(json: Seq<char>, name: Seq<char>)
    requires
        name.len() > 0 ==> name[0] != '-',
    ensures
        asked(seq!["--json"@, json, name]) == asked(seq![name, "--json"@, json]),
{
    reveal_strlit("--json");
    reveal_strlit("--list");
    reveal_strlit("-l");
    reveal_strlit("--help");
    reveal_strlit("-h");
    let a = seq!["--json"@, json, name];
    let b = seq![name, "--json"@, json];
    assert("--json"@[2] == 'j' && "--list"@[2] == 'l' && "--help"@[2] == 'h');
    assert("-l"@[0] == '-' && "-h"@[0] == '-' && "--list"@[0] == '-' && "--help"@[0] == '-');
    assert("--json"@[0] == '-' && "-l"@.len() == 2 && "-h"@.len() == 2 && "--json"@.len() == 6);
    assert(a.skip(3) =~= Seq::empty());
    assert(seq![a[0], a[1]] + a.skip(3) =~= b.skip(1));
}

/// A tool is never called without one of its required parameters.
pub proof fn law_required_are_given(
    t: Tool,
    args: Seq<Seq<char>>,
    floats: Seq<FloatOf>,
    i: int,
)
    requires
        0 <= i < t.parameters.len(),
        t.parameters[i].required,
    ensures
        call_of(t, args, floats) matches Ok((_, m)) ==> m.dom().contains(t.parameters[i].name),
{
    if let Ok(m) = read_params(t.parameters, args, floats, 0, Map::empty()) {
        if missing_from(t.parameters, m, 0) is None {
            lemma_missing(t.parameters, m, 0, i);
        }
    }
}

proof fn lemma_missing(ps: Seq<Param>, m: Map<Seq<char>, Tree>, from: int, i: int)
    requires
        0 <= from <= i < ps.len(),
        ps[i].required,
        missing_from(ps, m, from) is None,
    ensures
        m.dom().contains(ps[i].name),
    decreases ps.len() - from,
{
    if from < i {
        lemma_missing(ps, m, from + 1, i);
    }
}

proof fn lemma_words_differ()
    ensures
        "true"@ != "false"@ && "true"@ != "0"@ && "true"@ != "no"@,
        "1"@ != "false"@ && "1"@ != "0"@ && "1"@ != "no"@,
        "yes"@ != "false"@ && "yes"@ != "0"@ && "yes"@ != "no"@,
        lower("true"@) == "true"@ && lower("1"@) == "1"@ && lower("yes"@) == "yes"@,
        lower("false"@) == "false"@ && lower("0"@) == "0"@ && lower("no"@) == "no"@,
{
    reveal_strlit("true");
    reveal_strlit("1");
    reveal_strlit("yes");
    reveal_strlit("false");
    reveal_strlit("0");
    reveal_strlit("no");
    assert("true"@.len() == 4 && "1"@.len() == 1 && "yes"@.len() == 3);
    assert("false"@.len() == 5 && "0"@.len() == 1 && "no"@.len() == 2);
    assert("1"@[0] == '1' && "0"@[0] == '0');
    assert(lower("true"@) =~= "true"@);
    assert(lower("1"@) =~= "1"@);
    assert(lower("yes"@) =~= "yes"@);
    assert(lower("false"@) =~= "false"@);
    assert(lower("0"@) =~= "0"@);
    assert(lower("no"@) =~= "no"@);
}

/// A truth value is true for exactly the words `true`, `1` and `yes`, false for exactly
/// `false`, `0` and `no`, in whatever case, and any other text stays a text.
pub proof fn law_truth_values(s: Seq<char>, float: FloatOf)
    ensures
        (value_tree(s, Some(ParamType::Boolean), float) == Tree::Bool(true)) == (lower(s)
            == "true"@ || lower(s) == "1"@ || lower(s) == "yes"@),
        (value_tree(s, Some(ParamType::Boolean), float) == Tree::Bool(false)) == (lower(s)
            == "false"@ || lower(s) == "0"@ || lower(s) == "no"@),
        value_tree(s, Some(ParamType::Boolean), float) is Bool || value_tree(
            s,
            Some(ParamType::Boolean),
            float,
        ) == Tree::Text(s),
        value_tree("true"@, Some(ParamType::Boolean), float) == Tree::Bool(true),
        value_tree("1"@, Some(ParamType::Boolean), float) == Tree::Bool(true),
        value_tree("yes"@, Some(ParamType::Boolean), float) == Tree::Bool(true),
        value_tree("false"@, Some(ParamType::Boolean), float) == Tree::Bool(false),
        value_tree("0"@, Some(ParamType::Boolean), float) == Tree::Bool(false),
        value_tree("no"@, Some(ParamType::Boolean), float) == Tree::Bool(false),
{
    lemma_words_differ();
}

/// A parameter that is a text gets the text, whatever it looks like.
pub proof fn law_texts_stay(s: Seq<char>, float: FloatOf)
    ensures
        value_tree(s, Some(ParamType::Text), float) == Tree::Text(s),
{
}

/// A parameter that is a whole number gets the number that is written, and the text where
/// it is none.
pub proof fn law_whole_numbers(n: i64, c: char, rest: Seq<char>, float: FloatOf)
    requires
        c != '-' && c != '+' && !crate::text::is_digit(c),
    ensures
        value_tree(signed_decimal(n as int), Some(ParamType::Integer), float) == Tree::Number(
            signed_decimal(n as int),
        ),
        value_tree(signed_decimal(n as int), None, float) == Tree::Number(signed_decimal(n as int)),
        value_tree(seq![c] + rest, Some(ParamType::Integer), float) == Tree::Text(seq![c] + rest),
{
    crate::num::lemma_i64_reads_back(n);
    let s = seq![c] + rest;
    assert(s[0] == c);
    assert(!crate::num::all_digits(s));
}

/// A parameter that is a number gets what the text is as a floating-point number.
pub proof fn law_numbers(s: Seq<char>, t: Tree)
    ensures
        value_tree(s, Some(ParamType::Number), FloatOf::Finite(t)) == t,
        value_tree(s, Some(ParamType::Number), FloatOf::Absent) == Tree::Text(s),
        value_tree(s, Some(ParamType::Number), FloatOf::Infinite) == Tree::Null,
{
}

/// A parameter that is a list or an object gets the JSON value that is written. A list can
/// also be written without brackets: what stands between its commas are texts.
pub proof fn law_lists_and_objects(s: Seq<char>, t: Tree, float: FloatOf, m: Seq<char>)
    ensures
        parsed(s) == Ok::<Tree, Seq<char>>(t) ==> value_tree(s, Some(ParamType::Array), float) == t
            && value_tree(s, Some(ParamType::Object), float) == t,
        parsed(s) == Err::<Tree, Seq<char>>(m) ==> value_tree(s, Some(ParamType::Object), float)
            == Tree::Text(s),
        parsed(s) == Err::<Tree, Seq<char>>(m) ==> (value_tree(
            s,
            Some(ParamType::Array),
            float,
        ) matches Tree::List(items) && items.len() == split(s, ',').len() && forall|k: int|
            0 <= k < items.len() ==> #[trigger] items[k] == Tree::Text(trim(split(s, ',')[k]))),
{
}

/// A text without a type is read as the number or the truth value that it looks like.
pub proof fn law_untyped_texts(s: Seq<char>, t: Tree)
    requires
        read_i64(s) is None,
    ensures
        value_tree(s, None, FloatOf::Finite(t)) == t,
        s == "true"@ ==> value_tree(s, None, FloatOf::Absent) == Tree::Bool(true),
        s == "false"@ ==> value_tree(s, None, FloatOf::Absent) == Tree::Bool(false),
        s != "true"@ && s != "false"@ ==> value_tree(s, None, FloatOf::Absent) == Tree::Text(s),
{
    lemma_words_differ();
}

/// The type of a parameter is that of the first one with its name.
pub proof fn law_type_of_a_parameter(ps: Seq<Param>, name: Seq<char>, i: int)
    requires
        0 <= i < ps.len(),
        ps[i].name == name,
        forall|k: int| 0 <= k < i ==> (#[trigger] ps[k]).name != name,
    ensures
        kind_from(ps, name, 0) == Some(ps[i].kind),
{
    lemma_kind(ps, name, 0, i);
}

proof fn lemma_kind(ps: Seq<Param>, name: Seq<char>, from: int, i: int)
    requires
        0 <= from <= i < ps.len(),
        ps[i].name == name,
        forall|k: int| 0 <= k < i ==> (#[trigger] ps[k]).name != name,
    ensures
        kind_from(ps, name, from) == Some(ps[i].kind),
    decreases i - from,
{
    if from < i {
        assert(ps[from].name != name);
        lemma_kind(ps, name, from + 1, i);
    }
}

/// A name that no parameter has is of no type.
pub proof fn law_unknown_parameter_has_no_type(ps: Seq<Param>, name: Seq<char>, from: int)
    requires
        0 <= from <= ps.len(),
        forall|k: int| 0 <= k < ps.len() ==> (#[trigger] ps[k]).name != name,
    ensures
        kind_from(ps, name, from) is None,
    decreases ps.len() - from,
{
    if from < ps.len() {
        assert(ps[from].name != name);
        law_unknown_parameter_has_no_type(ps, name, from + 1);
    }
}

proof fn lemma_dashed(name: Seq<char>)
    ensures
        is_dashed(seq!['-', '-'] + name),
        (seq!['-', '-'] + name).skip(2) == name,
        name != seq!['j', 's', 'o', 'n'] ==> seq!['-', '-'] + name != "--json"@,
        "--json"@ == seq!['-', '-', 'j', 's', 'o', 'n'],
{
    let d = seq!['-', '-'] + name;
    reveal_strlit("--json");
    assert("--json"@ =~= seq!['-', '-', 'j', 's', 'o', 'n']);
    assert(d.skip(2) =~= name);
    if d == "--json"@ {
        assert("--json"@.skip(2) =~= seq!['j', 's', 'o', 'n']);
    }
}

/// A name with two dashes before it and a text behind it give that parameter that value.
pub proof fn law_named_value(
    ps: Seq<Param>,
    name: Seq<char>,
    v: Seq<char>,
    floats: Seq<FloatOf>,
    m: Map<Seq<char>, Tree>,
)
    requires
        name != seq!['j', 's', 'o', 'n'],
        !is_dashed(v),
    ensures
        read_params(ps, seq![seq!['-', '-'] + name, v], floats, 0, m) == Ok::<
            Map<Seq<char>, Tree>,
            Seq<char>,
        >(m.insert(name, value_tree(v, kind_from(ps, name, 0), floats[1]))),
{
    lemma_dashed(name);
    let args = seq![seq!['-', '-'] + name, v];
    assert(args.len() == 2 && args[0] == seq!['-', '-'] + name && args[1] == v);
    reveal_with_fuel(read_params, 2);
}

/// A name with two dashes before it and no text behind it gives that parameter true, also
/// where another one follows.
pub proof fn law_flags(
    ps: Seq<Param>,
    a: Seq<char>,
    b: Seq<char>,
    floats: Seq<FloatOf>,
    m: Map<Seq<char>, Tree>,
)
    requires
        a != seq!['j', 's', 'o', 'n'],
        b != seq!['j', 's', 'o', 'n'],
    ensures
        read_params(ps, seq![seq!['-', '-'] + a], floats, 0, m) == Ok::<
            Map<Seq<char>, Tree>,
            Seq<char>,
        >(m.insert(a, Tree::Bool(true))),
        read_params(ps, seq![seq!['-', '-'] + a, seq!['-', '-'] + b], floats, 0, m) == Ok::<
            Map<Seq<char>, Tree>,
            Seq<char>,
        >(m.insert(a, Tree::Bool(true)).insert(b, Tree::Bool(true))),
{
    lemma_dashed(a);
    lemma_dashed(b);
    reveal_with_fuel(read_params, 3);
    let one = seq![seq!['-', '-'] + a];
    let two = seq![seq!['-', '-'] + a, seq!['-', '-'] + b];
    assert(one.len() == 1 && one[0] == seq!['-', '-'] + a);
    assert(two.len() == 2 && two[0] == seq!['-', '-'] + a && two[1] == seq!['-', '-'] + b);
}

/// The fields of a JSON object are parameters, and take the place of those before them.
pub proof fn law_json_gives_parameters(
    ps: Seq<Param>,
    json: Seq<char>,
    fs: Map<Seq<char>, Tree>,
    floats: Seq<FloatOf>,
    m: Map<Seq<char>, Tree>,
    name: Seq<char>,
)
    requires
        parsed(json) == Ok::<Tree, Seq<char>>(Tree::Object(fs)),
    ensures
        read_params(ps, seq!["--json"@, json], floats, 0, m) matches Ok(all) && (
        all.dom().contains(name) == (fs.dom().contains(name) || m.dom().contains(name))) && (
        fs.dom().contains(name) ==> all[name] == fs[name]) && (!fs.dom().contains(name)
            && m.dom().contains(name) ==> all[name] == m[name]),
{
    reveal_with_fuel(read_params, 2);
    let args = seq!["--json"@, json];
    assert(args.len() == 2 && args[0] == "--json"@ && args[1] == json);
}

/// An argument without two dashes before it, where no parameter takes it, is refused.
pub proof fn law_stray_argument(
    ps: Seq<Param>,
    args: Seq<Seq<char>>,
    floats: Seq<FloatOf>,
    m: Map<Seq<char>, Tree>,
)
    requires
        args.len() > 0,
        !is_dashed(args[0]),
    ensures
        read_params(ps, args, floats, 0, m) == Err::<Map<Seq<char>, Tree>, Seq<char>>(
            "unexpected argument: "@ + args[0],
        ),
{
    lemma_dashed(Seq::empty());
    assert(is_dashed("--json"@));
}

/// A tool whose required parameters are all given is called, with all that was given.
pub proof fn law_given_is_called(
    t: Tool,
    args: Seq<Seq<char>>,
    floats: Seq<FloatOf>,
    m: Map<Seq<char>, Tree>,
)
    requires
        read_params(t.parameters, args, floats, 0, Map::empty()) == Ok::<
            Map<Seq<char>, Tree>,
            Seq<char>,
        >(m),
        forall|k: int|
            0 <= k < t.parameters.len() && (#[trigger] t.parameters[k]).required
                ==> m.dom().contains(t.parameters[k].name),
    ensures
        call_of(t, args, floats) matches Ok((method, given)) && given == m && (
        t.name.contains(':') ==> method == t.name) && (!t.name.contains(':') ==> method == "mcp:"@
            + t.name),
{
    lemma_none_missing(t.parameters, m, 0);
}

proof fn lemma_none_missing(ps: Seq<Param>, m: Map<Seq<char>, Tree>, i: int)
    requires
        0 <= i <= ps.len(),
        forall|k: int|
            0 <= k < ps.len() && (#[trigger] ps[k]).required ==> m.dom().contains(ps[k].name),
    ensures
        missing_from(ps, m, i) is None,
    decreases ps.len() - i,
{
    if i < ps.len() {
        assert(ps[i].required ==> m.dom().contains(ps[i].name));
        lemma_none_missing(ps, m, i + 1);
    }
}

/// A tool of which a required parameter is not given is not called, and the complaint
/// names the first such parameter.
pub proof fn law_missing_is_named(
    t: Tool,
    args: Seq<Seq<char>>,
    floats: Seq<FloatOf>,
    m: Map<Seq<char>, Tree>,
    i: int,
)
    requires
        read_params(t.parameters, args, floats, 0, Map::empty()) == Ok::<
            Map<Seq<char>, Tree>,
            Seq<char>,
        >(m),
        0 <= i < t.parameters.len(),
        t.parameters[i].required && !m.dom().contains(t.parameters[i].name),
        forall|k: int|
            0 <= k < i && (#[trigger] t.parameters[k]).required ==> m.dom().contains(
                t.parameters[k].name,
            ),
    ensures
        call_of(t, args, floats) == Err::<(Seq<char>, Map<Seq<char>, Tree>), Seq<char>>(
            "tool: missing required parameter: --"@ + t.parameters[i].name + "\n"@,
        ),
{
    lemma_first_missing(t.parameters, m, 0, i);
}

proof fn lemma_first_missing(ps: Seq<Param>, m: Map<Seq<char>, Tree>, from: int, i: int)
    requires
        0 <= from <= i < ps.len(),
        ps[i].required && !m.dom().contains(ps[i].name),
        forall|k: int|
            0 <= k < i && (#[trigger] ps[k]).required ==> m.dom().contains(ps[k].name),
    ensures
        missing_from(ps, m, from) == Some(ps[i].name),
    decreases i - from,
{
    if from < i {
        assert(ps[from].required ==> m.dom().contains(ps[from].name));
        lemma_first_missing(ps, m, from + 1, i);
    }
}

/// A tool is listed under the provider that stands before the first dot or colon of its
/// name, and every tool is where no provider is asked for.
pub proof fn law_provider_of_a_tool(t: Tool, a: Seq<char>, c: char, b: Seq<char>)
    requires
        t.name == a + seq![c] + b,
        c == '.' || c == ':',
        forall|k: int| 0 <= k < a.len() ==> (#[trigger] a[k]) != '.' && a[k] != ':',
    ensures
        is_listed(t, None),
        forall|f: Seq<char>| #[trigger] is_listed(t, Some(f)) == (f == a),
{
    let d = dotted(t.name);
    let n = a.len() as int;
    assert(t.name[n] == c);
    assert(d[n] == '.');
    assert forall|k: int| 0 <= k < n implies d[k] != '.' by {
        assert(t.name[k] == a[k]);
    }
    crate::text::lemma_find_is(d, '.', 0, n);
    assert(d.take(n) =~= a) by {
        assert forall|k: int| 0 <= k < n implies d[k] == a[k] by {
            assert(t.name[k] == a[k]);
        }
    }
}

/// What is asked for: the list, with or without a provider, help, with or without a tool, or a
/// tool with its arguments. Parameters as JSON can stand before the name of the tool.
pub proof fn law_what_is_asked_for(name: Seq<char>, x: Seq<char>, rest: Seq<Seq<char>>)
    requires
        name.len() > 0 ==> name[0] != '-',
    ensures
        asked(Seq::empty()) == Asked::Usage,
        asked(seq!["--list"@]) == Asked::List(None) && asked(seq!["-l"@]) == Asked::List(None),
        asked(seq!["--list"@, x]) == Asked::List(Some(x)) && asked(seq!["-l"@, x]) == Asked::List(
            Some(x),
        ),
        asked(seq!["--help"@]) == Asked::Usage && asked(seq!["-h"@]) == Asked::Usage,
        asked(seq!["--help"@, x]) == Asked::Help(x) && asked(seq!["-h"@, x]) == Asked::Help(x),
        asked(seq![name] + rest) == Asked::Invoke(name, rest),
        asked(seq!["--json"@, x, name] + rest) == Asked::Invoke(name, seq!["--json"@, x] + rest),
        x.len() > 0 && x[0] == '-' && x != "--list"@ && x != "-l"@ && x != "--help"@ && x != "-h"@
            && x != "--json"@ ==> asked(seq![x] + rest) == Asked::Unknown(x),
{
    reveal_strlit("--list");
    reveal_strlit("-l");
    reveal_strlit("--help");
    reveal_strlit("-h");
    reveal_strlit("--json");
    assert("--list"@.len() == 6 && "--list"@[0] == '-' && "--list"@[2] == 'l');
    assert("-l"@.len() == 2 && "-l"@[0] == '-' && "-l"@[1] == 'l');
    assert("--help"@.len() == 6 && "--help"@[0] == '-' && "--help"@[2] == 'h');
    assert("-h"@.len() == 2 && "-h"@[0] == '-' && "-h"@[1] == 'h');
    assert("--json"@.len() == 6 && "--json"@[0] == '-' && "--json"@[2] == 'j');
    let plain = seq![name] + rest;
    assert(plain[0] == name);
    assert(plain.skip(1) =~= rest);
    let json = seq!["--json"@, x, name] + rest;
    assert(json[0] == "--json"@ && json[1] == x && json[2] == name);
    assert(json.skip(3) =~= rest);
    assert((seq![x] + rest)[0] == x);
}

/// A tool is shown by its name with a dot for each colon.
pub proof fn law_names_are_dotted(name: Seq<char>, k: int)
    requires
        0 <= k < name.len(),
    ensures
        dotted(name).len() == name.len(),
        name[k] == ':' ==> dotted(name)[k] == '.',
        name[k] != ':' ==> dotted(name)[k] == name[k],
{
}

/// The list holds a line for each tool that is listed: its name to thirty places and its
/// description.
pub proof fn law_tools_are_listed(ts: Seq<Tool>, filter: Option<Seq<char>>, i: int)
    requires
        0 <= i < ts.len(),
    ensures
        is_listed(ts[i], filter) ==> list_from(ts, filter, i) == seq![' ', ' '] + pad_right(
            dotted(ts[i].name),
            30,
        ) + seq![' '] + ts[i].description + seq!['\n'] + list_from(ts, filter, i + 1),
        !is_listed(ts[i], filter) ==> list_from(ts, filter, i) == list_from(ts, filter, i + 1),
        list_from(ts, filter, ts.len() as int).len() == 0,
        is_listed(ts[i], filter) ==> list_text(ts, filter) == list_from(ts, filter, 0),
{
    reveal_strlit("  ");
    reveal_strlit(" ");
    reveal_strlit("\n");
    assert("  "@ =~= seq![' ', ' ']);
    assert(" "@ =~= seq![' ']);
    assert("\n"@ =~= seq!['\n']);
    lemma_some_listed(ts, filter, 0, i);
}

proof fn lemma_some_listed(ts: Seq<Tool>, filter: Option<Seq<char>>, from: int, i: int)
    requires
        0 <= from <= i < ts.len(),
    ensures
        is_listed(ts[i], filter) ==> !none_listed(ts, filter, from),
    decreases i - from,
{
    if from < i {
        lemma_some_listed(ts, filter, from + 1, i);
    }
}

/// Where no tool is listed, that is said.
pub proof fn law_nothing_to_list(ts: Seq<Tool>, f: Seq<char>)
    requires
        forall|k: int| 0 <= k < ts.len() ==> !is_listed(#[trigger] ts[k], Some(f)),
    ensures
        list_text(ts, Some(f)) == "No tools found for provider: "@ + f + "\n"@,
        list_text(Seq::empty(), None) == "No tools registered.\n"@,
{
    lemma_nothing_listed(ts, f, 0);
}

proof fn lemma_nothing_listed(ts: Seq<Tool>, f: Seq<char>, i: int)
    requires
        0 <= i <= ts.len(),
        forall|k: int| 0 <= k < ts.len() ==> !is_listed(#[trigger] ts[k], Some(f)),
    ensures
        none_listed(ts, Some(f), i),
    decreases ts.len() - i,
{
    if i < ts.len() {
        assert(!is_listed(ts[i], Some(f)));
        lemma_nothing_listed(ts, f, i + 1);
    }
}

/// A tool is shown with its name, its description and how it is used, and with a line for each
/// parameter: its name, its type, whether it is required and its description.
pub proof fn law_tools_are_shown(t: Tool, i: int)
    ensures
        t.parameters.len() == 0 ==> tool_text(t) == "Tool: "@ + dotted(t.name)
            + "\nDescription: "@ + t.description + "\n"@ + "\nUsage:\n  tool "@ + dotted(t.name)
            + "\n"@,
        t.parameters.len() > 0 ==> tool_text(t) == "Tool: "@ + dotted(t.name)
            + "\nDescription: "@ + t.description + "\n"@ + "\nParameters:\n"@ + param_lines(
            t.parameters,
            0,
        ) + "\nUsage:\n  tool "@ + dotted(t.name) + needed(t.parameters, 0) + "\n"@,
        0 <= i < t.parameters.len() && t.parameters[i].required ==> needed(t.parameters, i)
            == " --"@ + t.parameters[i].name + " <value>"@ + needed(t.parameters, i + 1)
            && param_lines(t.parameters, i) == "  --"@ + pad_right(t.parameters[i].name, 20) + " ("@
            + t.parameters[i].kind.label() + ", "@ + "required"@ + ") "@
            + t.parameters[i].description + "\n"@ + param_lines(t.parameters, i + 1),
        0 <= i < t.parameters.len() && !t.parameters[i].required ==> needed(t.parameters, i)
            == needed(t.parameters, i + 1) && param_lines(t.parameters, i) == "  --"@ + pad_right(
            t.parameters[i].name,
            20,
        ) + " ("@ + t.parameters[i].kind.label() + ", "@ + "optional"@ + ") "@
            + t.parameters[i].description + "\n"@ + param_lines(t.parameters, i + 1),
{
    let front = "Tool: "@ + dotted(t.name) + "\nDescription: "@ + t.description + "\n"@;
    if t.parameters.len() == 0 {
        assert(needed(t.parameters, 0).len() == 0);
        assert(tool_text(t) =~= front + "\nUsage:\n  tool "@ + dotted(t.name) + "\n"@);
    } else {
        assert(tool_text(t) =~= front + "\nParameters:\n"@ + param_lines(t.parameters, 0)
            + "\nUsage:\n  tool "@ + dotted(t.name) + needed(t.parameters, 0) + "\n"@);
    }
}

} // verus!
