//! jq - JSON processor
//!
//! Processes JSON data using jq filter expressions. A run of a filter can read the clock
//! and the environment, and it can go on without end. The host of a session makes it and
//! hands in what it gives. Here stands what is decided around it: what the arguments ask
//! for, which filter it is, which values it is run on, and what is written.
use jaq_interpret::{Filter, ParseCtx, Val};
use serde_json::Value;
use vstd::prelude::*;
use vstd::string::StringExecFns;
use crate::args::{arg_tokens, has_long, has_short, lex_args, values, values_from, Tok};
use crate::commands::{refusal, refusal_line, Said, Start};
use crate::error::IoError;
use crate::json::{
    compact, parse_all_json, parse_json, parsed, parsed_all, pretty, tree_of, trees, write_compact,
    write_pretty, Tree,
};
use crate::list::{strings_of, Strings};
use crate::text::{
    append_all, join, join_strings, lines, rows, split_lines, strs, to_chars, to_text, trim, trim_chars,
};
use crate::unicode::{lossy, read_lossy};

verus! {

pub const HELP_TEXT: &'static str = "jq - JSON processor (using jaq)\n\nUsage: jq [OPTIONS] FILTER [FILE...]\n\nOptions:\n  -h, --help            Show this help message\n  -r, --raw-output      Output raw strings without quotes\n  -c, --compact-output  Compact output (no pretty printing)\n  -s, --slurp           Read all inputs into an array\n  -n, --null-input      Don't read any input, use null\n  -e, --exit-status     Exit 1 if last output is false or null\n  -j, --join-output     No newline after each output\n\nExamples:\n  echo '{\"name\":\"foo\"}' | jq .name\n  echo '[1,2,3]' | jq '.[] | . * 2'\n  jq -n '{hello: \"world\"}'\n  echo '{\"a\":1}' | jq -c .\n  cat file.json | jq -r '.items[].name'\n\nFilter syntax:\n  .               Identity (return input unchanged)\n  .foo            Access field \"foo\"\n  .[0]            Access array index 0\n  .[]             Iterate over array/object values\n  .foo.bar        Chained field access\n  .foo | .bar     Pipe output to next filter\n  select(cond)    Keep values where condition is true\n  map(f)          Apply filter to each array element\n  keys            Get object keys as array\n  length          Get length of string/array/object\n  sort            Sort array\n  unique          Remove duplicates\n  group_by(.f)    Group array by field\n  if c then t else f end   Conditional\n";

// ---------------------------------------------------------------------------
// Values
// ---------------------------------------------------------------------------

/// `jaq_interpret::Val`: a value that filters work on.
#[verifier::external_type_specification]
#[verifier::external_body]
pub struct ExVal(jaq_interpret::Val);

/// `jaq_interpret::Error`: what arithmetic on values fails with.
#[verifier::external_type_specification]
#[verifier::external_body]
#[verifier::reject_recursive_types(V)]
pub struct ExError<V>(jaq_interpret::Error<V>);

/// What jq reads of a value: a group holds the values of an array or of an object, and
/// a number is there only where its text is kept.
pub enum Parts {
    Null,
    Bool(bool),
    Text(String),
    Number(String),
    Group(Vec<Parts>),
    Other,
}

/// What jq reads of a value, as mathematics has it.
pub enum PartsOf {
    Null,
    Bool(bool),
    Text(Seq<char>),
    Number(Seq<char>),
    Group(Seq<PartsOf>),
    Other,
}

impl Parts {
    pub open spec fn held(self) -> PartsOf
        decreases self,
    {
        match self {
            Parts::Null => PartsOf::Null,
            Parts::Bool(b) => PartsOf::Bool(b),
            Parts::Text(s) => PartsOf::Text(s@),
            Parts::Number(s) => PartsOf::Number(s@),
            Parts::Group(ps) => PartsOf::Group(
                Seq::new(
                    ps@.len(),
                    |i: int|
                        if 0 <= i < ps@.len() {
                            ps@[i].held()
                        } else {
                            PartsOf::Other
                        },
                ),
            ),
            Parts::Other => PartsOf::Other,
        }
    }
}

/// What jq reads of a value.
pub uninterp spec fn parts_of(v: jaq_interpret::Val) -> PartsOf;

/// Opens a `jaq_interpret::Val`: one arm for each of its variants. The keys of an
/// object and the numbers of `Int` and `Float` are left out.
#[verifier::external_body]
fn parts(v: &Val) -> (r: Parts)
    ensures
        r.held() == parts_of(*v),
{
    match v {
        Val::Null => Parts::Null,
        Val::Bool(b) => Parts::Bool(*b),
        Val::Int(_) | Val::Float(_) => Parts::Other,
        Val::Num(n) => Parts::Number(n.to_string()),
        Val::Str(s) => Parts::Text(s.to_string()),
        Val::Arr(vs) => Parts::Group(vs.iter().map(parts).collect()),
        Val::Obj(fs) => Parts::Group(fs.values().map(parts).collect()),
    }
}

/// The value that a filter sees of a JSON value.
pub uninterp spec fn val_of(t: Tree) -> jaq_interpret::Val;

/// `jaq_interpret::Val::from` on a JSON value: the result depends on what the JSON
/// value holds alone.
#[verifier::external_body]
fn val_from(json: Value) -> (r: Val)
    ensures
        r == val_of(tree_of(json)),
{
    Val::from(json)
}

/// `jaq_interpret::Val::Null`: what a filter sees of the JSON value null.
#[verifier::external_body]
fn null_val() -> (r: Val)
    ensures
        r == val_of(Tree::Null),
        parts_of(r) == PartsOf::Null,
{
    Val::Null
}

/// An array of values.
pub uninterp spec fn array_of(vs: Seq<jaq_interpret::Val>) -> jaq_interpret::Val;

/// `jaq_interpret::Val::from_iter`: the array of the values, in order.
#[verifier::external_body]
fn array_val(vs: Vec<Val>) -> (r: Val)
    ensures
        r == array_of(vs@),
        parts_of(r) == PartsOf::Group(vs@.map_values(|v: Val| parts_of(v))),
{
    vs.into_iter().collect()
}

/// Whether a text is a number that JSON values can hold.
pub uninterp spec fn is_number(text: Seq<char>) -> bool;

/// `serde_json::Number::from_str`: whether there is a number depends on the text
/// alone. Which texts are numbers is not stated.
#[verifier::external_body]
fn reads_number(text: &str) -> (r: bool)
    ensures
        r == is_number(text@),
{
    text.parse::<serde_json::Number>().is_ok()
}

/// Whether a JSON value can hold all numbers in the parts of a value.
pub open spec fn numbers_fit(p: PartsOf) -> bool
    decreases p,
{
    match p {
        PartsOf::Number(s) => is_number(s),
        PartsOf::Group(ps) => forall|i: int| 0 <= i < ps.len() ==> numbers_fit(#[trigger] ps[i]),
        _ => true,
    }
}

/// Whether a JSON value can hold all numbers of a value.
pub open spec fn has_json(v: Val) -> bool {
    numbers_fit(parts_of(v))
}

/// What the JSON value of a value holds.
pub uninterp spec fn json_tree(v: jaq_interpret::Val) -> Tree;

/// `serde_json::Value::from` on a value of jaq: the result depends on the value
/// alone. The call fails on a number that a JSON value cannot hold.
#[verifier::external_body]
fn json_from(v: &Val) -> (r: Value)
    requires
        has_json(*v),
    ensures
        tree_of(r) == json_tree(*v),
{
    Value::from(v.clone())
}

/// Whether a value is false or null.
pub open spec fn falsy(v: Val) -> bool {
    parts_of(v) == PartsOf::Null || parts_of(v) == PartsOf::Bool(false)
}

/// Check if a value is "falsy" (false or null).
pub fn is_falsy(v: &Val) -> (r: bool)
    ensures
        r == falsy(*v),
{
    match parts(v) {
        Parts::Null => true,
        Parts::Bool(b) => !b,
        _ => false,
    }
}

fn all_fit(p: &Parts) -> (r: bool)
    ensures
        r == numbers_fit(p.held()),
    decreases *p,
{
    match p {
        Parts::Number(s) => reads_number(s.as_str()),
        Parts::Group(ps) => {
            let ghost held = p.held()->Group_0;
            let mut i: usize = 0;
            while i < ps.len()
                invariant
                    *p == Parts::Group(*ps),
                    p.held() == PartsOf::Group(held),
                    held.len() == ps@.len(),
                    forall|k: int| 0 <= k < ps@.len() ==> held[k] == ps@[k].held(),
                    i <= ps@.len(),
                    forall|k: int| 0 <= k < i ==> numbers_fit(#[trigger] held[k]),
                decreases ps@.len() - i,
            {
                proof {
                    assert(held[i as int] == ps@[i as int].held());
                }
                if !all_fit(&ps[i]) {
                    proof {
                        assert(!numbers_fit(p.held()->Group_0[i as int]));
                    }
                    return false;
                }
                i += 1;
            }
            true
        },
        _ => true,
    }
}

/// Tests whether a JSON value can hold all numbers of a value.
pub fn is_printable(v: &Val) -> (r: bool)
    ensures
        r == has_json(*v),
{
    let p = parts(v);
    all_fit(&p)
}

/// The text of a value: `null` where it has none.
pub open spec fn val_text(v: Val, on_one_line: bool) -> Seq<char> {
    let text = if on_one_line {
        compact(json_tree(v))
    } else {
        pretty(json_tree(v))
    };
    match text {
        Some(s) => s,
        None => "null"@,
    }
}

/// Format a value as JSON string.
pub fn format_val(v: &Val, on_one_line: bool) -> (r: String)
    requires
        has_json(*v),
    ensures
        r@ == val_text(*v, on_one_line),
{
    let json = json_from(v);
    let text = if on_one_line {
        write_compact(&json)
    } else {
        write_pretty(&json)
    };
    match text {
        Some(s) => s,
        None => "null".to_owned(),
    }
}

// ---------------------------------------------------------------------------
// Filters
// ---------------------------------------------------------------------------

/// `jaq_interpret::Filter`: a filter that can be run.
#[verifier::external_type_specification]
#[verifier::external_body]
#[verifier::reject_recursive_types(V)]
pub struct ExFilter<V>(jaq_interpret::Filter<V>);

/// How many errors a text has when it is read as a filter, and whether a filter came
/// out.
pub uninterp spec fn parsed_filter(text: Seq<char>) -> (nat, bool);

/// `jaq_parse::parse` with the parser of `jaq_parse::main`: the `Debug` texts of the
/// errors, and whether there is a filter. How many errors there are and whether there
/// is a filter depends on the text alone. The order in which an error lists what it
/// expected differs from process to process, so that nothing is stated of its text,
/// and neither is the grammar.
#[verifier::external_body]
fn parse_filter(text: &str) -> (r: (Vec<String>, bool))
    ensures
        (r.0@.len(), r.1) == parsed_filter(text@),
{
    let (parsed, errs) = jaq_parse::parse(text, jaq_parse::main());
    (errs.into_iter().map(|e| format!("{e:?}")).collect(), parsed.is_some())
}

/// The filter that a text means, and the messages about names that it does not know.
pub uninterp spec fn built_filter(text: Seq<char>) -> (jaq_interpret::Filter, Seq<Seq<char>>);

/// `jaq_interpret::ParseCtx::compile`, with the definitions of `jaq_std::std` and
/// the filters of `jaq_core::core`: the filter, and the `Display` texts of the errors,
/// depend on the text alone. The text has to be one that `jaq_parse::parse` reads.
#[verifier::external_body]
fn build_filter(text: &str) -> (r: (Filter, Vec<String>))
    requires
        parsed_filter(text@).1,
    ensures
        (r.0, strs(r.1@)) == built_filter(text@),
{
    let mut defs = ParseCtx::new(Vec::new());
    defs.insert_defs(jaq_std::std());
    defs.insert_natives(jaq_core::core());
    let (parsed, _) = jaq_parse::parse(text, jaq_parse::main());
    let filter = defs.compile(parsed.unwrap());
    (filter, defs.errs.iter().map(|(e, _)| e.to_string()).collect())
}

/// The complaint about a text that was read as a filter: its errors, or that there is
/// none and no filter.
pub open spec fn unread(errs: Seq<Seq<char>>, some: bool) -> Option<Seq<char>> {
    if errs.len() > 0 {
        Some(join(errs, ", "@))
    } else if !some {
        Some("failed to parse filter"@)
    } else {
        None
    }
}

/// The complaint about a text that was read as a filter.
pub fn unread_filter(errs: &Vec<String>, some: bool) -> (r: Option<String>)
    ensures
        text_of(r) == unread(strs(errs@), some),
{
    proof {
        assert(strs(errs@).len() == errs@.len());
        assert(strs(errs@).skip(0) =~= strs(errs@));
    }
    if errs.len() > 0 {
        Some(join_strings(errs, 0, ", "))
    } else if !some {
        Some("failed to parse filter".to_owned())
    } else {
        None
    }
}

/// Whether this is what a text gives when it is compiled: a filter, or the message. Of
/// a text that cannot be read the message is that of as many errors as it has.
pub open spec fn compiles_to(text: Seq<char>, r: Result<Filter, Seq<char>>) -> bool {
    let (n, some) = parsed_filter(text);
    let (filter, unknown) = built_filter(text);
    match r {
        Ok(f) => n == 0 && some && unknown.len() == 0 && f == filter,
        Err(e) => if n > 0 || !some {
            exists|errs: Seq<Seq<char>>| errs.len() == n && #[trigger] unread(errs, some) == Some(e)
        } else {
            unknown.len() > 0 && e == join(unknown, ", "@)
        },
    }
}

/// The text of a result.
pub open spec fn compiled_view(r: Result<Filter, String>) -> Result<Filter, Seq<char>> {
    match r {
        Ok(f) => Ok(f),
        Err(e) => Err(e@),
    }
}

/// Compile a jq filter string.
pub fn compile_filter(text: &str) -> (r: Result<Filter, String>)
    ensures
        compiles_to(text@, compiled_view(r)),
{
    let (errs, some) = parse_filter(text);
    if let Some(e) = unread_filter(&errs, some) {
        proof {
            assert(strs(errs@).len() == errs@.len());
            assert(unread(strs(errs@), some) == Some(e@));
        }
        return Err(e);
    }
    proof {
        assert(strs(errs@).len() == errs@.len());
    }
    let (filter, unknown) = build_filter(text);
    proof {
        assert(strs(unknown@).len() == unknown@.len());
        assert(strs(unknown@).skip(0) =~= strs(unknown@));
    }
    if unknown.len() > 0 {
        return Err(join_strings(&unknown, 0, ", "));
    }
    Ok(filter)
}

// ---------------------------------------------------------------------------
// Output
// ---------------------------------------------------------------------------

/// How values are put out.
#[derive(Debug, Clone, Copy, PartialEq, Eq, Structural)]
pub struct JqOptions {
    pub raw_output: bool,
    pub compact: bool,
    pub slurp: bool,
    pub no_newline: bool,
}

impl JqOptions {
    /// What is written of a value.
    pub open spec fn shown(self, v: Val) -> Seq<char> {
        let text = match parts_of(v) {
            PartsOf::Text(s) => if self.raw_output {
                s
            } else {
                val_text(v, self.compact)
            },
            _ => val_text(v, self.compact),
        };
        if self.no_newline {
            text
        } else {
            text + "\n"@
        }
    }

    /// Whether a value can be written: a raw text always, else what JSON can hold.
    pub open spec fn writes(self, v: Val) -> bool {
        (self.raw_output && parts_of(v) is Text) || has_json(v)
    }
}

/// What ends jq before its input does.
#[derive(Debug)]
pub enum Fault {
    /// An error of the filter or of its input.
    Io(String),
    /// A value that cannot be written.
    Unwritable,
}

/// What ends jq before its input does, as mathematics has it.
pub enum FaultOf {
    Io(Seq<char>),
    Unwritable,
}

impl View for Fault {
    type V = FaultOf;

    open spec fn view(&self) -> FaultOf {
        match self {
            Fault::Io(s) => FaultOf::Io(s@),
            Fault::Unwritable => FaultOf::Unwritable,
        }
    }
}

/// What jq writes at once, whether the last value was false or null, and what ended
/// it.
pub struct Batch {
    pub out: String,
    pub err: String,
    pub last: Option<bool>,
    pub fault: Option<Fault>,
}

/// What jq writes at once, as mathematics has it.
#[verifier::ext_equal]
pub struct Written {
    pub out: Seq<char>,
    pub err: Seq<char>,
    pub last: Option<bool>,
    pub fault: Option<FaultOf>,
}

impl View for Batch {
    type V = Written;

    open spec fn view(&self) -> Written {
        Written {
            out: self.out@,
            err: self.err@,
            last: self.last,
            fault: match self.fault {
                Some(f) => Some(f@),
                None => None,
            },
        }
    }
}

impl Written {
    /// Nothing is written.
    pub open spec fn nothing(last: Option<bool>) -> Written {
        Written { out: Seq::empty(), err: Seq::empty(), last, fault: None }
    }
}

/// What is written of a result.
pub open spec fn shown_result(o: JqOptions, x: Result<Val, String>) -> Written {
    match x {
        Ok(v) => Written {
            out: if o.writes(v) {
                o.shown(v)
            } else {
                Seq::empty()
            },
            err: Seq::empty(),
            last: Some(falsy(v)),
            fault: if o.writes(v) {
                None
            } else {
                Some(FaultOf::Unwritable)
            },
        },
        Err(e) => Written {
            out: Seq::empty(),
            err: "jq: error: "@ + e@ + "\n"@,
            last: None,
            fault: Some(FaultOf::Io("jq error: "@ + e@)),
        },
    }
}

fn output_value(v: &Val, o: &JqOptions) -> (r: Option<String>)
    ensures
        match r {
            Some(s) => o.writes(*v) && s@ == o.shown(*v),
            None => !o.writes(*v),
        },
{
    let raw = if o.raw_output {
        match parts(v) {
            Parts::Text(s) => Some(s),
            _ => None,
        }
    } else {
        None
    };
    let mut text = match raw {
        Some(s) => s,
        None => {
            if !is_printable(v) {
                return None;
            }
            format_val(v, o.compact)
        },
    };
    if !o.no_newline {
        text.append("\n");
    }
    Some(text)
}

/// Writes a result. An error ends jq, and so does a value that cannot be written.
pub fn process_result(x: &Result<Val, String>, o: &JqOptions) -> (r: Batch)
    ensures
        r@ == shown_result(*o, *x),
{
    match x {
        Ok(v) => {
            let last = Some(is_falsy(v));
            match output_value(v, o) {
                Some(out) => Batch { out, err: String::new(), last, fault: None },
                None => Batch {
                    out: String::new(),
                    err: String::new(),
                    last,
                    fault: Some(Fault::Unwritable),
                },
            }
        },
        Err(e) => {
            let mut err = "jq: error: ".to_owned();
            err.append(e.as_str());
            err.append("\n");
            let mut message = "jq error: ".to_owned();
            message.append(e.as_str());
            Batch { out: String::new(), err, last: None, fault: Some(Fault::Io(message)) }
        },
    }
}

// ---------------------------------------------------------------------------
// Input
// ---------------------------------------------------------------------------

/// The values of the lines from `i` on, up to the first that is no JSON, and its
/// message. Blank lines are left out.
pub open spec fn line_values(ls: Seq<Seq<char>>, i: int) -> (Seq<Val>, Option<Seq<char>>)
    decreases ls.len() - i,
{
    if i < 0 || i >= ls.len() {
        (Seq::empty(), None)
    } else {
        let line = trim(ls[i]);
        if line.len() == 0 {
            line_values(ls, i + 1)
        } else {
            match parsed(line) {
                Ok(t) => {
                    let (vs, e) = line_values(ls, i + 1);
                    (seq![val_of(t)] + vs, e)
                },
                Err(e) => (Seq::empty(), Some(e)),
            }
        }
    }
}

/// The values that a filter is run on, and the message of the input that ends them.
/// Slurped values make one array: they stand on lines of their own, or anyhow behind
/// one another. Without slurping, the text is one value, and where it is not, each of
/// its lines is.
pub open spec fn inputs(text: Seq<char>, slurp: bool) -> (Seq<Val>, Option<Seq<char>>) {
    if slurp {
        let (vs, e) = line_values(lines(text), 0);
        match (e, parsed_all(text)) {
            (None, _) => (seq![array_of(vs)], None),
            (Some(_), Ok(ts)) => (seq![array_of(ts.map_values(|t: Tree| val_of(t)))], None),
            (Some(m), Err(_)) => (Seq::empty(), Some(m)),
        }
    } else if trim(text).len() == 0 {
        (Seq::empty(), None)
    } else {
        match parsed(trim(text)) {
            Ok(t) => (seq![val_of(t)], None),
            Err(_) => line_values(lines(text), 0),
        }
    }
}

fn read_lines(text: &Vec<char>) -> (r: (Vec<Val>, Option<String>))
    ensures
        r.0@ == line_values(lines(text@), 0).0,
        text_of(r.1) == line_values(lines(text@), 0).1,
{
    let ls = split_lines(text);
    let ghost all = lines(text@);
    let ghost whole = line_values(all, 0);
    let mut vs: Vec<Val> = Vec::new();
    let mut i: usize = 0;
    proof {
        assert(vs@ + whole.0 =~= whole.0);
    }
    while i < ls.len()
        invariant
            i <= ls@.len(),
            rows(ls@) == all,
            whole == line_values(all, 0),
            all == lines(text@),
            vs@ + line_values(all, i as int).0 == whole.0,
            line_values(all, i as int).1 == whole.1,
        decreases ls@.len() - i,
    {
        let ghost before = vs@;
        proof {
            assert(all[i as int] == ls@[i as int]@);
        }
        let line = trim_chars(&ls[i]);
        if line.len() > 0 {
            let s = to_text(&line);
            match parse_json(s.as_str()) {
                Ok(json) => {
                    let v = val_from(json);
                    vs.push(v);
                    proof {
                        assert(vs@ + line_values(all, i + 1).0 =~= before + line_values(
                            all,
                            i as int,
                        ).0);
                    }
                },
                Err(e) => {
                    proof {
                        assert(vs@ + Seq::<Val>::empty() =~= vs@);
                    }
                    return (vs, Some(e));
                },
            }
        }
        i += 1;
    }
    proof {
        assert(vs@ + Seq::<Val>::empty() =~= vs@);
    }
    (vs, None)
}

fn vals_from(json: Vec<Value>) -> (r: Vec<Val>)
    ensures
        r@ == trees(json@).map_values(|t: Tree| val_of(t)),
{
    let ghost all = json@;
    let ghost want = trees(all).map_values(|t: Tree| val_of(t));
    let mut rest = json;
    let mut vs: Vec<Val> = Vec::new();
    while rest.len() > 0
        invariant
            want == trees(all).map_values(|t: Tree| val_of(t)),
            vs@.len() + rest@.len() == all.len(),
            rest@ == all.skip(vs@.len() as int),
            vs@ == want.take(vs@.len() as int),
        decreases rest@.len(),
    {
        let ghost n = vs@.len() as int;
        let ghost before = rest@;
        let v = val_from(rest.remove(0));
        vs.push(v);
        proof {
            assert(before[0] == all[n]);
            assert(rest@ =~= all.skip(n + 1));
            assert(vs@ =~= want.take(n + 1));
        }
    }
    proof {
        assert(vs@ =~= want);
    }
    vs
}

/// Reads the values that a filter is run on.
pub fn read_inputs(text: &str, slurp: bool) -> (r: (Vec<Val>, Option<String>))
    ensures
        r.0@ == inputs(text@, slurp).0,
        text_of(r.1) == inputs(text@, slurp).1,
{
    let cs = to_chars(text);
    if slurp {
        let (vs, e) = read_lines(&cs);
        match e {
            Some(m) => match parse_all_json(text) {
                Ok(json) => {
                    let vs = vals_from(json);
                    let one = vec![array_val(vs)];
                    proof {
                        assert(one@ =~= seq![array_of(vs@)]);
                    }
                    (one, None)
                },
                Err(_) => {
                    let none: Vec<Val> = Vec::new();
                    proof {
                        assert(none@ =~= Seq::<Val>::empty());
                    }
                    (none, Some(m))
                },
            },
            None => {
                let one = vec![array_val(vs)];
                proof {
                    assert(one@ =~= seq![array_of(vs@)]);
                }
                (one, None)
            },
        }
    } else {
        let t = trim_chars(&cs);
        if t.len() == 0 {
            let none: Vec<Val> = Vec::new();
            proof {
                assert(none@ =~= Seq::<Val>::empty());
            }
            return (none, None);
        }
        let s = to_text(&t);
        match parse_json(s.as_str()) {
            Ok(json) => {
                let v = val_from(json);
                let one = vec![v];
                proof {
                    assert(one@ =~= seq![v]);
                }
                (one, None)
            },
            Err(_) => read_lines(&cs),
        }
    }
}

/// The text of a message.
pub open spec fn text_of(message: Option<String>) -> Option<Seq<char>> {
    match message {
        Some(e) => Some(e@),
        None => None,
    }
}

/// Inputs behind one another, each ended by a newline.
pub open spec fn inputs_joined(inputs: Seq<Seq<u8>>) -> Seq<u8>
    decreases inputs.len(),
{
    if inputs.len() == 0 {
        Seq::empty()
    } else {
        inputs_joined(inputs.drop_last()) + inputs.last() + seq![10u8]
    }
}

/// Joins the inputs that are slurped together.
pub fn join_inputs(inputs: &Vec<Vec<u8>>) -> (r: Vec<u8>)
    ensures
        r@ == inputs_joined(rows(inputs@)),
{
    let ghost all = rows(inputs@);
    let mut out: Vec<u8> = Vec::new();
    let mut i: usize = 0;
    proof {
        assert(all.take(0) =~= Seq::<Seq<u8>>::empty());
        assert(out@ =~= inputs_joined(all.take(0)));
    }
    while i < inputs.len()
        invariant
            all == rows(inputs@),
            i <= inputs@.len(),
            out@ == inputs_joined(all.take(i as int)),
        decreases inputs@.len() - i,
    {
        let ghost before = out@;
        append_all(&mut out, &inputs[i]);
        out.push(10u8);
        proof {
            assert(all[i as int] == inputs@[i as int]@);
            assert(all.take(i + 1).drop_last() =~= all.take(i as int));
            assert(out@ =~= before + all[i as int] + seq![10u8]);
        }
        i += 1;
    }
    proof {
        assert(all.take(i as int) =~= all);
    }
    out
}

// ---------------------------------------------------------------------------
// Sessions
// ---------------------------------------------------------------------------

/// What happened.
pub enum Event {
    /// The session has begun.
    Begun,
    /// The run gave a value.
    Given(Val),
    /// The run gave an error, with this message.
    Failed(String),
    /// The run has come to its end.
    Exhausted,
}

/// What is done next.
#[derive(Debug, Clone, Copy, PartialEq, Eq, Structural)]
pub enum Turn {
    /// Run the filter on the value at this place, and ask for its first result.
    Run(usize),
    /// Ask for the next result.
    Next,
    /// End.
    End,
}

/// What is written, and what is done then.
pub struct Step {
    pub batch: Batch,
    pub turn: Turn,
}

/// A filter that is run on the values of an input, one after the other. What a value
/// gives is written before more is asked for.
pub struct Session {
    /// How values are put out.
    pub opts: JqOptions,
    /// The values.
    pub values: Vec<Val>,
    /// The message of the input that ends them.
    pub fault: Option<String>,
    /// The place of the value that is run next.
    pub next: usize,
    /// Whether the last value of the last run was false or null.
    pub last: Option<bool>,
}

impl Session {
    /// What is written behind the last value: what is wrong with the input behind it.
    pub open spec fn closing(self) -> Written {
        match self.fault {
            None => Written::nothing(self.last),
            Some(e) => Written {
                out: Seq::empty(),
                err: "jq: parse error: "@ + e@ + "\n"@,
                last: self.last,
                fault: Some(FaultOf::Io("JSON parse error: "@ + e@)),
            },
        }
    }

    /// What is written when something happened, what is done then, and which value is
    /// run next. Nothing more is done behind an error or a value that cannot be written.
    pub open spec fn reply(self, event: Event) -> (Written, Turn, int) {
        match event {
            Event::Given(v) => {
                let w = shown_result(self.opts, Ok(v));
                (
                    w,
                    if w.fault is Some {
                        Turn::End
                    } else {
                        Turn::Next
                    },
                    self.next as int,
                )
            },
            Event::Failed(e) => (shown_result(self.opts, Err(e)), Turn::End, self.next as int),
            Event::Begun | Event::Exhausted => if self.next < self.values@.len() {
                (Written::nothing(None), Turn::Run(self.next), self.next + 1)
            } else {
                (self.closing(), Turn::End, self.next as int)
            },
        }
    }

    /// Goes on when something happened.
    pub fn step(&mut self, event: Event) -> (r: Step)
        ensures
            (r.batch@, r.turn, final(self).next as int) == old(self).reply(event),
            final(self).last == r.batch.last,
            final(self).opts == old(self).opts,
            final(self).values == old(self).values,
            final(self).fault == old(self).fault,
    {
        match event {
            Event::Given(v) => {
                let batch = process_result(&Ok(v), &self.opts);
                self.last = batch.last;
                let turn = if batch.fault.is_some() {
                    Turn::End
                } else {
                    Turn::Next
                };
                Step { batch, turn }
            },
            Event::Failed(e) => {
                let batch = process_result(&Err(e), &self.opts);
                self.last = batch.last;
                Step { batch, turn: Turn::End }
            },
            Event::Begun | Event::Exhausted => {
                if self.next < self.values.len() {
                    let i = self.next;
                    self.next = i + 1;
                    self.last = None;
                    let batch = Batch {
                        out: String::new(),
                        err: String::new(),
                        last: None,
                        fault: None,
                    };
                    return Step { batch, turn: Turn::Run(i) };
                }
                let mut err = String::new();
                let mut fault: Option<Fault> = None;
                if let Some(e) = &self.fault {
                    err = "jq: parse error: ".to_owned();
                    err.append(e.as_str());
                    err.append("\n");
                    let mut m = "JSON parse error: ".to_owned();
                    m.append(e.as_str());
                    fault = Some(Fault::Io(m));
                }
                let batch = Batch { out: String::new(), err, last: self.last, fault };
                Step { batch, turn: Turn::End }
            },
        }
    }
}

// ---------------------------------------------------------------------------
// The command
// ---------------------------------------------------------------------------

/// A running jq.
pub struct Jq {
    /// How values are put out.
    pub opts: JqOptions,
    /// Whether the exit code tells what the last value was.
    pub exit_status: bool,
    /// Whether no input is read.
    pub null_input: bool,
    /// The filter.
    pub filter: Filter,
    /// The files to read; stdin where there is none.
    pub files: Strings,
    /// Whether the last value was false or null.
    pub last: Option<bool>,
}

/// What jq finds in its arguments.
pub open spec fn jq_tokens(argv: Seq<Seq<char>>) -> Seq<Tok> {
    arg_tokens(argv, Seq::empty(), false)
}

pub open spec fn given(ts: Seq<Tok>, short: char, long: Seq<char>) -> bool {
    ts.contains(Tok::Short(short)) || ts.contains(Tok::Long(long))
}

/// The filter that the tokens give: by default the one that returns its input.
pub open spec fn filter_text(ts: Seq<Tok>) -> Seq<char> {
    if values_from(ts, 0).len() > 0 {
        values_from(ts, 0)[0]
    } else {
        "."@
    }
}

/// The files that the tokens give.
pub open spec fn file_names(ts: Seq<Tok>) -> Seq<Seq<char>> {
    if values_from(ts, 0).len() > 0 {
        values_from(ts, 0).skip(1)
    } else {
        Seq::empty()
    }
}

/// jq [-r] [-c] [-e] [-s] [-n] filter [file...]
///
/// Process JSON with jq filter expressions.
///
/// Options:
///   -r    Output raw strings (no quotes)
///   -c    Compact output (no pretty printing)
///   -e    Exit with non-zero if last output is false or null
///   -s    Slurp: read entire input into array
///   -n    Null input: don't read any input
///   -j    No newline after each output
pub fn run(argv: &Vec<String>) -> (r: Start<Jq>)
    ensures
        ({
            let ts = jq_tokens(strs(argv@));
            if given(ts, 'h', "help"@) {
                r matches Start::Done(said) && said.says(HELP_TEXT@ + "\n"@, Seq::empty(), 0)
            } else {
                match r {
                    Start::Done(said) => exists|e: Seq<char>| #[trigger]
                        compiles_to(filter_text(ts), Err(e)) && said.says(
                            Seq::empty(),
                            "jq: compile error: "@ + e + "\n"@,
                            3,
                        ),
                    Start::Go(jq) => compiles_to(filter_text(ts), Ok(jq.filter))
                        && jq.opts == (JqOptions {
                        raw_output: given(ts, 'r', "raw-output"@),
                        compact: given(ts, 'c', "compact-output"@),
                        slurp: given(ts, 's', "slurp"@),
                        no_newline: given(ts, 'j', "join-output"@),
                    }) && jq.exit_status == given(ts, 'e', "exit-status"@) && jq.null_input
                        == given(ts, 'n', "null-input"@) && strings_of(jq.files) == file_names(ts)
                        && jq.last is None,
                }
            }
        }),
{
    let none: Vec<char> = Vec::new();
    proof {
        assert(none@ =~= Seq::<char>::empty());
    }
    let ts = lex_args(argv, &none, false);
    if has_short(&ts, 'h') || has_long(&ts, "help") {
        let mut out = HELP_TEXT.to_owned();
        out.append("\n");
        return Start::Done(Said { out, err: String::new(), code: 0 });
    }
    let given_values = values(&ts);
    let ghost vs = strings_of(given_values);
    let n = given_values.len();
    let text: &str = if n > 0 {
        given_values.at(0)
    } else {
        "."
    };
    let mut files = Strings::new();
    let mut i: usize = 1;
    while i < n
        invariant
            vs == strings_of(given_values),
            n == vs.len(),
            n > 0 ==> 1 <= i <= n,
            n == 0 ==> i == 1,
            n > 0 ==> strings_of(files) == vs.subrange(1, i as int),
            n == 0 ==> strings_of(files) == Seq::<Seq<char>>::empty(),
        decreases n - i,
    {
        files.push(given_values.at(i).to_owned());
        proof {
            assert(vs.subrange(1, i + 1) =~= vs.subrange(1, i as int).push(vs[i as int]));
        }
        i += 1;
    }
    proof {
        if n > 0 {
            assert(vs.subrange(1, n as int) =~= vs.skip(1));
        }
    }
    let filter = match compile_filter(text) {
        Ok(f) => f,
        Err(e) => {
            let mut err = "jq: compile error: ".to_owned();
            err.append(e.as_str());
            err.append("\n");
            proof {
                assert(text@ == filter_text(jq_tokens(strs(argv@))));
                assert(compiles_to(text@, Err::<Filter, Seq<char>>(e@)));
                assert(err@ == "jq: compile error: "@ + e@ + "\n"@);
            }
            return Start::Done(Said { out: String::new(), err, code: 3 });
        },
    };
    Start::Go(
        Jq {
            opts: JqOptions {
                raw_output: has_short(&ts, 'r') || has_long(&ts, "raw-output"),
                compact: has_short(&ts, 'c') || has_long(&ts, "compact-output"),
                slurp: has_short(&ts, 's') || has_long(&ts, "slurp"),
                no_newline: has_short(&ts, 'j') || has_long(&ts, "join-output"),
            },
            exit_status: has_short(&ts, 'e') || has_long(&ts, "exit-status"),
            null_input: has_short(&ts, 'n') || has_long(&ts, "null-input"),
            filter,
            files,
            last: None,
        },
    )
}

impl Jq {
    /// Whether a session is on these values, and has not begun yet.
    pub open spec fn starts(self, s: Session, values: Seq<Val>, fault: Option<Seq<char>>) -> bool {
        &&& s.opts == self.opts
        &&& s.values@ == values && text_of(s.fault) == fault
        &&& s.next == 0 && s.last is None
    }

    /// A session on null.
    pub fn start_null(&self) -> (r: Session)
        ensures
            self.starts(r, seq![val_of(Tree::Null)], None),
    {
        let v = null_val();
        let values = vec![v];
        proof {
            assert(values@ =~= seq![v]);
        }
        Session { opts: self.opts, values, fault: None, next: 0, last: None }
    }

    /// A session on all that an input holds.
    pub fn start(&self, data: &[u8]) -> (r: Session)
        ensures
            ({
                let (values, fault) = inputs(lossy(data@), self.opts.slurp);
                self.starts(r, values, fault)
            }),
    {
        let text = read_lossy(data);
        let (values, fault) = read_inputs(text.as_str(), self.opts.slurp);
        Session { opts: self.opts, values, fault, next: 0, last: None }
    }

    /// Takes what a session that has ended knows of its last value.
    pub fn note(&mut self, last: Option<bool>)
        ensures
            *final(self) == (Jq { last, ..*old(self) }),
    {
        self.last = last;
    }

    /// What is said of a file that cannot be opened. It ends jq.
    pub fn refused(&self, path: &str, e: &IoError) -> (r: Said)
        ensures
            r.says(Seq::empty(), refusal("jq"@, path@, e.spec_message()), 2),
    {
        Said { out: String::new(), err: refusal_line("jq", path, e), code: 2 }
    }

    /// The exit code: with `-e` it is 1 where the last value was false or null, or
    /// where there was none.
    pub fn code(&self) -> (r: i32)
        ensures
            r == if self.exit_status && self.last != Some(false) {
                1int
            } else {
                0
            },
    {
        if self.exit_status {
            match self.last {
                Some(false) => 0,
                _ => 1,
            }
        } else {
            0
        }
    }
}

/// A text is put out as it is where raw output is asked for; everything else is put out as
/// JSON, on one line or on several, and a newline follows unless it is left out.
pub proof fn law_values_are_put_out(o: JqOptions, v: Val, s: Seq<char>)
    ensures
        o.raw_output && parts_of(v) == PartsOf::Text(s) && !o.no_newline ==> o.shown(v) == s
            + seq!['\n'],
        o.raw_output && parts_of(v) == PartsOf::Text(s) && o.no_newline ==> o.shown(v) == s,
        (!o.raw_output || !(parts_of(v) is Text)) && o.compact && !o.no_newline && compact(
            json_tree(v),
        ) == Some(s) ==> o.shown(v) == s + seq!['\n'],
        (!o.raw_output || !(parts_of(v) is Text)) && !o.compact && !o.no_newline && pretty(
            json_tree(v),
        ) == Some(s) ==> o.shown(v) == s + seq!['\n'],
{
    reveal_strlit("\n");
    assert("\n"@ =~= seq!['\n']);
}

/// False and null alone count as false.
pub proof fn law_what_counts_as_false(v: Val)
    ensures
        parts_of(v) == PartsOf::Null ==> falsy(v),
        parts_of(v) == PartsOf::Bool(false) ==> falsy(v),
        parts_of(v) == PartsOf::Bool(true) ==> !falsy(v),
        parts_of(v) is Text || parts_of(v) is Number || parts_of(v) is Group || parts_of(v) is Other
            ==> !falsy(v),
{
}

/// Of lines, each that is not blank holds a value; the first that holds none ends them.
pub proof fn law_lines_hold_values(ls: Seq<Seq<char>>, i: int)
    requires
        0 <= i < ls.len(),
    ensures
        trim(ls[i]).len() == 0 ==> line_values(ls, i) == line_values(ls, i + 1),
        trim(ls[i]).len() > 0 ==> (parsed(trim(ls[i])) matches Ok(t) ==> line_values(ls, i).0
            == seq![val_of(t)] + line_values(ls, i + 1).0 && line_values(ls, i).1 == line_values(
            ls,
            i + 1,
        ).1),
        trim(ls[i]).len() > 0 ==> (parsed(trim(ls[i])) matches Err(e) ==> line_values(ls, i).0.len()
            == 0 && line_values(ls, i).1 == Some(e)),
        line_values(ls, ls.len() as int).0.len() == 0 && line_values(ls, ls.len() as int).1 is None,
{
}

/// The input is one value, or else one value to a line; a blank input holds none. With `-s` the
/// values are one array.
pub proof fn law_inputs(text: Seq<char>, t: Tree, m: Seq<char>)
    ensures
        trim(text).len() == 0 ==> inputs(text, false).0.len() == 0 && inputs(text, false).1 is None,
        trim(text).len() > 0 && parsed(trim(text)) == Ok::<Tree, Seq<char>>(t) ==> inputs(
            text,
            false,
        ).0 == seq![val_of(t)] && inputs(text, false).1 is None,
        trim(text).len() > 0 && parsed(trim(text)) == Err::<Tree, Seq<char>>(m) ==> inputs(
            text,
            false,
        ) == line_values(lines(text), 0),
        line_values(lines(text), 0).1 is None ==> inputs(text, true).0 == seq![
            array_of(line_values(lines(text), 0).0),
        ] && inputs(text, true).1 is None,
{
}

/// Several inputs are read one after the other, each with a newline behind it.
pub proof fn law_inputs_are_joined(all: Seq<Seq<u8>>, last: Seq<u8>)
    ensures
        inputs_joined(Seq::empty()).len() == 0,
        inputs_joined(all.push(last)) == inputs_joined(all) + last + seq![10u8],
{
    assert(all.push(last).drop_last() =~= all);
}

/// The filter is the first argument, and the value itself where there is none; the other
/// arguments are files.
pub proof fn law_filter_and_files(f: Seq<char>, a: Seq<char>)
    ensures
        filter_text(Seq::empty()) == seq!['.'],
        file_names(Seq::empty()).len() == 0,
        filter_text(seq![Tok::Value(f), Tok::Value(a)]) == f,
        file_names(seq![Tok::Value(f), Tok::Value(a)]) == seq![a],
{
    reveal_strlit(".");
    assert("."@ =~= seq!['.']);
    reveal_with_fuel(values_from, 3);
    let ts = seq![Tok::Value(f), Tok::Value(a)];
    assert(values_from(ts, 2) =~= Seq::<Seq<char>>::empty());
    assert(values_from(ts, 0) =~= seq![f, a]);
    assert(seq![f, a].skip(1) =~= seq![a]);
}

/// A session runs the filter on each value in turn, puts out what it gives, and ends at the
/// first error or behind the last value.
pub proof fn law_session_goes_on(s: Session, v: Val, e: String)
    ensures
        s.next < s.values@.len() ==> s.reply(Event::Exhausted).1 == Turn::Run(s.next) && s.reply(
            Event::Exhausted,
        ).2 == s.next + 1 && s.reply(Event::Exhausted).0.out.len() == 0,
        s.next >= s.values@.len() ==> s.reply(Event::Exhausted).1 == Turn::End,
        s.next >= s.values@.len() && s.fault is None ==> s.reply(Event::Exhausted).0.fault is None,
        s.opts.writes(v) ==> s.reply(Event::Given(v)).1 == Turn::Next && s.reply(
            Event::Given(v),
        ).0.out == s.opts.shown(v) && s.reply(Event::Given(v)).0.last == Some(falsy(v)),
        !s.opts.writes(v) ==> s.reply(Event::Given(v)).1 == Turn::End && s.reply(
            Event::Given(v),
        ).0.out.len() == 0,
        s.reply(Event::Failed(e)).1 == Turn::End,
        s.reply(Event::Failed(e)).0.err == "jq: error: "@ + e@ + "\n"@,
        s.reply(Event::Failed(e)).0.out.len() == 0,
{
}

/// A filter that cannot be read is refused with its errors, with commas between them.
pub proof fn law_refused_filters(a: Seq<char>, b: Seq<char>, some: bool)
    ensures
        unread(seq![a], some) == Some(a),
        unread(seq![a, b], some) == Some(a + seq![',', ' '] + b),
        unread(Seq::empty(), false) == Some("failed to parse filter"@),
        unread(Seq::empty(), true) is None,
{
    reveal_strlit(", ");
    assert(", "@ =~= seq![',', ' ']);
    reveal_with_fuel(crate::text::join_from, 3);
}

/// Input that is no JSON is complained about behind the values before it.
pub proof fn law_parse_errors(s: Session, e: String)
    requires
        s.fault == Some(e),
        s.next >= s.values@.len(),
    ensures
        s.reply(Event::Exhausted).0.err == "jq: parse error: "@ + e@ + "\n"@,
        s.reply(Event::Exhausted).0.fault == Some(FaultOf::Io("JSON parse error: "@ + e@)),
        s.reply(Event::Exhausted).0.last == s.last,
{
}

/// A text is compiled where it has no errors, is a filter and uses nothing unknown; what is
/// unknown is named in the complaint.
pub proof fn law_compiled_filters(text: Seq<char>, r: Result<Filter, Seq<char>>)
    requires
        compiles_to(text, r),
    ensures
        parsed_filter(text) == (0nat, true) && built_filter(text).1.len() == 0 ==> r == Ok::<
            Filter,
            Seq<char>,
        >(built_filter(text).0),
        parsed_filter(text) == (0nat, true) && built_filter(text).1.len() > 0 ==> r == Err::<
            Filter,
            Seq<char>,
        >(join(built_filter(text).1, ", "@)),
        parsed_filter(text) == (0nat, false) ==> r == Err::<Filter, Seq<char>>(
            "failed to parse filter"@,
        ),
        parsed_filter(text).0 == 1 ==> r is Err,
{
    if parsed_filter(text) == (0nat, false) {
        let e = r->Err_0;
        let errs = choose|errs: Seq<Seq<char>>|
            errs.len() == 0 && #[trigger] unread(errs, false) == Some(e);
        assert(unread(errs, false) == Some(e));
    }
}

/// No option takes a value; the first argument is the name of the command.
pub proof fn law_options_with_values(name: Seq<char>, args: Seq<Seq<char>>)
    ensures
        jq_tokens(seq![name] + args) == crate::args::tokens(args, Seq::empty(), false),
        jq_tokens(Seq::empty()).len() == 0,
{
    assert((seq![name] + args).skip(1) =~= args);
}

/// Nothing is put out at the end of a session.
pub proof fn law_nothing_at_the_end(s: Session)
    ensures
        s.next >= s.values@.len() ==> s.reply(Event::Exhausted).0.out.len() == 0,
        s.next >= s.values@.len() && s.fault is None ==> s.reply(Event::Exhausted).0.err.len() == 0
            && s.reply(Event::Exhausted).0.last == s.last,
        s.next < s.values@.len() ==> s.reply(Event::Exhausted).0.err.len() == 0 && s.reply(
            Event::Exhausted,
        ).0.fault is None && s.reply(Event::Exhausted).0.last is None,
        s.reply(Event::Begun) == s.reply(Event::Exhausted),
{
}

} // verus!
