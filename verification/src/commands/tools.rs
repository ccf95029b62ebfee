//! tools - search and discover available tools
//!
//! Provides search over a tool catalog.
use vstd::prelude::*;
use vstd::string::StringExecFns;
use crate::args::{
    arg_tokens, last_value, last_valued, lex_args, toks, values, values_from, ArgToken, Tok,
};
use crate::catalog::{params, tools, Param, ParamDef, Tool, ToolDef};
use crate::commands::Said;
use crate::list::{strings_of, Strings};
use crate::num::{decimal, parse_usize, read_usize, write_decimal};
use crate::text::{
    join, join_strings, lemma_strs_push, pad_right, padded_right, push_chars, str_eq, strs, to_chars,
};

verus! {

pub const HELP: &'static str = "tools - search and discover available tools\n\nUsage: tools <subcommand> [options]\n\nSubcommands:\n  search <query>   Search for tools (hybrid BM25 + semantic)\n  list             List all available tools\n  info <name>      Show detailed info about a tool\n  embed <text>     Embed text and show vector\n\nOptions:\n  -n <limit>       Maximum results (default: 5)\n  -c <category>    Filter by category\n  --bm25           Use pure BM25 search\n  --semantic       Use pure semantic search\n";

/// How tools are searched.
#[derive(Debug, Clone, Copy, PartialEq, Eq, Structural)]
pub enum SearchMode {
    Hybrid,
    Bm25,
    Semantic,
}

/// What tools is asked for.
#[derive(Debug)]
pub enum Request {
    /// A search, with the greatest number of results.
    Search(String, usize, SearchMode),
    /// All tools.
    List,
    /// What is known of a tool.
    Info(String),
    /// The embedding of a text.
    Embed(String),
    /// Nothing: it ends at once.
    Done(Said),
}

/// How the tokens say that tools are searched, among the first `n`: the last of
/// `--bm25` and `--semantic` counts.
pub open spec fn mode_of(ts: Seq<Tok>, n: int) -> SearchMode
    decreases n,
{
    if n <= 0 || n > ts.len() {
        SearchMode::Hybrid
    } else if ts[n - 1] == Tok::Long("bm25"@) {
        SearchMode::Bm25
    } else if ts[n - 1] == Tok::Long("semantic"@) {
        SearchMode::Semantic
    } else {
        mode_of(ts, n - 1)
    }
}

fn read_mode(ts: &Vec<ArgToken>) -> (r: SearchMode)
    ensures
        r == mode_of(toks(ts@), ts@.len() as int),
{
    let ghost all = toks(ts@);
    let mut n = ts.len();
    while n > 0
        invariant
            all == toks(ts@),
            all.len() == ts@.len(),
            n <= ts@.len(),
            mode_of(all, n as int) == mode_of(all, ts@.len() as int),
        decreases n,
    {
        proof {
            assert(all[n - 1] == ts@[n - 1]@);
        }
        match &ts[n - 1] {
            ArgToken::Long(s) => {
                if str_eq(s.as_str(), "bm25") {
                    return SearchMode::Bm25;
                }
                if str_eq(s.as_str(), "semantic") {
                    return SearchMode::Semantic;
                }
            },
            _ => {},
        }
        n -= 1;
    }
    SearchMode::Hybrid
}

/// The greatest number of results: 5 where none, or no number, is given.
pub open spec fn limit_of(ts: Seq<Tok>) -> nat {
    match last_valued(ts, seq!['n'], ts.len() as int) {
        Some(v) => match read_usize(v) {
            Some(n) => n,
            None => 5,
        },
        None => 5,
    }
}

/// What tools finds in its arguments.
pub open spec fn tools_tokens(argv: Seq<Seq<char>>) -> Seq<Tok> {
    arg_tokens(argv, seq!['n', 'c'], false)
}

/// What follows the subcommand.
pub open spec fn rest_text(args: Seq<Seq<char>>) -> Seq<char> {
    if args.len() > 1 {
        join(args.skip(1), " "@)
    } else {
        Seq::empty()
    }
}

fn rest_of(args: &Strings) -> (r: String)
    ensures
        r@ == rest_text(strings_of(*args)),
{
    let ghost all = strings_of(*args);
    let n = args.len();
    if n <= 1 {
        return String::new();
    }
    let mut v: Vec<String> = Vec::new();
    let mut i: usize = 1;
    proof {
        assert(strs(v@) =~= all.subrange(1, 1));
    }
    while i < n
        invariant
            n == all.len(),
            all == strings_of(*args),
            1 <= i <= n,
            strs(v@) == all.subrange(1, i as int),
        decreases n - i,
    {
        let ghost before = v@;
        let s = args.at(i).to_owned();
        v.push(s);
        proof {
            lemma_strs_push(before, s);
            assert(all.subrange(1, i + 1) =~= all.subrange(1, i as int).push(all[i as int]));
        }
        i += 1;
    }
    proof {
        assert(strs(v@).skip(0) =~= all.skip(1));
    }
    join_strings(&v, 0, " ")
}

/// Whether a request is the one that the tokens make.
pub open spec fn is_request(r: Request, ts: Seq<Tok>) -> bool {
    let args = values_from(ts, 0);
    let first = if args.len() > 0 {
        args[0]
    } else {
        "help"@
    };
    let rest = rest_text(args);
    if first == "search"@ {
        if rest.len() == 0 {
            r matches Request::Done(said) && said.says(
                Seq::empty(),
                "Usage: tools search <query>\n"@,
                1,
            )
        } else {
            r matches Request::Search(q, limit, mode) && q@ == rest && limit == limit_of(ts) && mode
                == mode_of(ts, ts.len() as int)
        }
    } else if first == "list"@ {
        r is List
    } else if first == "info"@ {
        if args.len() < 2 || args[1].len() == 0 {
            r matches Request::Done(said) && said.says(
                Seq::empty(),
                "Usage: tools info <name>\n"@,
                1,
            )
        } else {
            r matches Request::Info(name) && name@ == args[1]
        }
    } else if first == "embed"@ {
        if rest.len() == 0 {
            r matches Request::Done(said) && said.says(
                Seq::empty(),
                "Usage: tools embed <text>\n"@,
                1,
            )
        } else {
            r matches Request::Embed(text) && text@ == rest
        }
    } else {
        r matches Request::Done(said) && said.says(HELP@, Seq::empty(), 0)
    }
}

fn usage(text: &str) -> (r: Request)
    ensures
        r matches Request::Done(said) && said.says(Seq::empty(), text@, 1),
{
    Request::Done(Said { out: String::new(), err: text.to_owned(), code: 1 })
}

/// tools [subcommand] [args...]
///
/// Tool catalog search and discovery.
///
/// Subcommands:
///   search <query>     Search for tools matching query (hybrid BM25 + semantic)
///   list               List all available tools
///   info <name>        Show detailed info about a tool
///   embed <text>       Embed text and show similarity to sample texts
///
/// Options:
///   -n <limit>         Maximum results to return (default: 5)
///   -c <category>      Filter by category
///   --bm25             Use pure BM25 search (no semantic)
///   --semantic         Use pure semantic search (no BM25)
///
/// Gives the category that the catalog is restricted to, and what is asked for.
pub fn run(argv: &Vec<String>) -> (r: (Option<String>, Request))
    ensures
        ({
            let ts = tools_tokens(strs(argv@));
            &&& match (r.0, last_valued(ts, seq!['c'], ts.len() as int)) {
                (Some(s), Some(c)) => s@ == c,
                (None, None) => true,
                _ => false,
            }
            &&& is_request(r.1, ts)
        }),
{
    let valued = vec!['n', 'c'];
    proof {
        assert(valued@ =~= seq!['n', 'c']);
    }
    let ts = lex_args(argv, &valued, false);
    let only_c = vec!['c'];
    let only_n = vec!['n'];
    proof {
        assert(only_c@ =~= seq!['c']);
        assert(only_n@ =~= seq!['n']);
        assert(toks(ts@).len() == ts@.len());
    }
    let category = last_value(&ts, &only_c);
    let limit: usize = match last_value(&ts, &only_n) {
        Some(v) => {
            let cs = to_chars(v.as_str());
            match parse_usize(&cs) {
                Some(n) => n,
                None => 5,
            }
        },
        None => 5,
    };
    let mode = read_mode(&ts);
    let args = values(&ts);
    let first: &str = if args.len() > 0 {
        args.at(0)
    } else {
        "help"
    };
    let rest = rest_of(&args);
    let empty = to_chars(rest.as_str()).len() == 0;
    let request = if str_eq(first, "search") {
        if empty {
            usage("Usage: tools search <query>\n")
        } else {
            Request::Search(rest, limit, mode)
        }
    } else if str_eq(first, "list") {
        Request::List
    } else if str_eq(first, "info") {
        if args.len() < 2 || to_chars(args.at(1)).len() == 0 {
            usage("Usage: tools info <name>\n")
        } else {
            Request::Info(args.at(1).to_owned())
        }
    } else if str_eq(first, "embed") {
        if empty {
            usage("Usage: tools embed <text>\n")
        } else {
            Request::Embed(rest)
        }
    } else {
        Request::Done(Said::output(HELP))
    };
    (category, request)
}

// ---------------------------------------------------------------------------
// Searching
// ---------------------------------------------------------------------------

/// How a catalog is searched.
#[derive(Debug, Clone, Copy, PartialEq, Eq, Structural)]
pub enum Search {
    /// By words and by meaning.
    Smart,
    /// By words.
    Bm25,
    /// By meaning: by the embedding of the query.
    Semantic,
}

/// How a catalog is searched in a mode: without an embedding of the query, a search by
/// meaning is one by words.
pub fn search_by(mode: SearchMode, embedded: bool) -> (r: Search)
    ensures
        r == match mode {
            SearchMode::Hybrid => Search::Smart,
            SearchMode::Bm25 => Search::Bm25,
            SearchMode::Semantic => if embedded {
                Search::Semantic
            } else {
                Search::Bm25
            },
        },
{
    match mode {
        SearchMode::Hybrid => Search::Smart,
        SearchMode::Bm25 => Search::Bm25,
        SearchMode::Semantic => if embedded {
            Search::Semantic
        } else {
            Search::Bm25
        },
    }
}

/// A tool that a search found.
#[derive(Debug)]
pub struct Hit {
    pub name: String,
    /// How well it fits, with three decimal places.
    pub score: String,
    pub description: String,
}

/// The lines of the results from the `i`th on.
pub open spec fn hits_from(hits: Seq<Hit>, i: int) -> Seq<char>
    decreases hits.len() - i,
{
    if i < 0 || i >= hits.len() {
        Seq::empty()
    } else {
        decimal((i + 1) as nat) + ". "@ + hits[i].name@ + " (score: "@ + hits[i].score@ + ")\n   "@
            + hits[i].description@ + "\n\n"@ + hits_from(hits, i + 1)
    }
}

/// Shows what a search found.
pub fn search_tools(hits: &Vec<Hit>) -> (r: Said)
    ensures
        r.says(
            if hits@.len() == 0 {
                "No matching tools found.\n"@
            } else {
                hits_from(hits@, 0)
            },
            Seq::empty(),
            0,
        ),
{
    if hits.len() == 0 {
        return Said::output("No matching tools found.\n");
    }
    let mut out = String::new();
    let mut i: usize = 0;
    proof {
        assert(out@ + hits_from(hits@, 0) =~= hits_from(hits@, 0));
    }
    while i < hits.len()
        invariant
            i <= hits@.len(),
            out@ + hits_from(hits@, i as int) == hits_from(hits@, 0),
        decreases hits@.len() - i,
    {
        let ghost before = out@;
        let number = write_decimal(i as u64 + 1);
        push_chars(&mut out, &number);
        out.append(". ");
        out.append(hits[i].name.as_str());
        out.append(" (score: ");
        out.append(hits[i].score.as_str());
        out.append(")\n   ");
        out.append(hits[i].description.as_str());
        out.append("\n\n");
        proof {
            let h = hits@[i as int];
            let text = decimal((i + 1) as nat) + ". "@ + h.name@ + " (score: "@ + h.score@
                + ")\n   "@ + h.description@ + "\n\n"@;
            assert(out@ =~= before + text);
            assert(before + text + hits_from(hits@, i + 1) =~= before + (text + hits_from(
                hits@,
                i + 1,
            )));
        }
        i += 1;
    }
    proof {
        assert(out@ =~= hits_from(hits@, 0));
    }
    Said { out, err: String::new(), code: 0 }
}

// ---------------------------------------------------------------------------
// Tools
// ---------------------------------------------------------------------------

/// The lines of the tools from the `i`th on.
pub open spec fn list_from(ts: Seq<Tool>, i: int) -> Seq<char>
    decreases ts.len() - i,
{
    if i < 0 || i >= ts.len() {
        Seq::empty()
    } else {
        pad_right(ts[i].name, 25) + " ["@ + (match ts[i].category {
            Some(c) => c,
            None => "-"@,
        }) + "] "@ + ts[i].description + "\n"@ + list_from(ts, i + 1)
    }
}

/// Lists the tools.
pub fn list_tools(defs: &Vec<ToolDef>) -> (r: Said)
    ensures
        r.says(
            if defs@.len() == 0 {
                "No tools registered.\n"@
            } else {
                list_from(tools(defs@), 0)
            },
            Seq::empty(),
            0,
        ),
{
    if defs.len() == 0 {
        return Said::output("No tools registered.\n");
    }
    let ghost ts = tools(defs@);
    let mut out = String::new();
    let mut i: usize = 0;
    proof {
        assert(out@ + list_from(ts, 0) =~= list_from(ts, 0));
    }
    while i < defs.len()
        invariant
            i <= defs@.len(),
            ts == tools(defs@),
            out@ + list_from(ts, i as int) == list_from(ts, 0),
        decreases defs@.len() - i,
    {
        let ghost before = out@;
        proof {
            assert(ts[i as int] == defs@[i as int]@);
        }
        let name = to_chars(defs[i].name.as_str());
        let padded = padded_right(&name, 25);
        out.append(padded.as_str());
        out.append(" [");
        let category: &str = match &defs[i].category {
            Some(c) => c.as_str(),
            None => "-",
        };
        out.append(category);
        out.append("] ");
        out.append(defs[i].description.as_str());
        out.append("\n");
        proof {
            let line = padded@ + " ["@ + category@ + "] "@ + ts[i as int].description + "\n"@;
            assert(out@ =~= before + line);
            assert(before + line + list_from(ts, i + 1) =~= before + (line + list_from(ts, i + 1)));
        }
        i += 1;
    }
    proof {
        assert(out@ =~= list_from(ts, 0));
    }
    Said { out, err: String::new(), code: 0 }
}

/// The lines of the parameters from the `i`th on.
pub open spec fn info_params(ps: Seq<Param>, i: int) -> Seq<char>
    decreases ps.len() - i,
{
    if i < 0 || i >= ps.len() {
        Seq::empty()
    } else {
        "  "@ + ps[i].name + " ("@ + ps[i].kind.label() + ", "@ + (if ps[i].required {
            "required"@
        } else {
            "optional"@
        }) + "): "@ + ps[i].description + "\n"@ + info_params(ps, i + 1)
    }
}

/// What is shown of a tool.
pub open spec fn info_text(t: Tool) -> Seq<char> {
    "Tool: "@ + t.name + "\nDescription: "@ + t.description + "\n"@ + (match t.category {
        Some(c) => "Category: "@ + c + "\n"@,
        None => Seq::empty(),
    }) + (if t.keywords.len() > 0 {
        "Keywords: "@ + join(t.keywords, ", "@) + "\n"@
    } else {
        Seq::empty()
    }) + (if t.parameters.len() > 0 {
        "\nParameters:\n"@ + info_params(t.parameters, 0)
    } else {
        Seq::empty()
    })
}

fn push_info_params(out: &mut String, defs: &Vec<ParamDef>)
    ensures
        final(out)@ == old(out)@ + info_params(params(defs@), 0),
{
    let ghost start = out@;
    let ghost ps = params(defs@);
    let mut i: usize = 0;
    while i < defs.len()
        invariant
            i <= defs@.len(),
            ps == params(defs@),
            out@ + info_params(ps, i as int) == start + info_params(ps, 0),
        decreases defs@.len() - i,
    {
        let ghost before = out@;
        proof {
            assert(ps[i as int] == defs@[i as int]@);
        }
        out.append("  ");
        out.append(defs[i].name.as_str());
        out.append(" (");
        out.append(defs[i].param_type.text());
        out.append(", ");
        out.append(
            if defs[i].required {
                "required"
            } else {
                "optional"
            },
        );
        out.append("): ");
        out.append(defs[i].description.as_str());
        out.append("\n");
        proof {
            let p = ps[i as int];
            let line = "  "@ + p.name + " ("@ + p.kind.label() + ", "@ + (if p.required {
                "required"@
            } else {
                "optional"@
            }) + "): "@ + p.description + "\n"@;
            assert(out@ =~= before + line);
            assert(before + line + info_params(ps, i + 1) =~= before + (line + info_params(
                ps,
                i + 1,
            )));
        }
        i += 1;
    }
    proof {
        assert(out@ + Seq::<char>::empty() =~= out@);
    }
}

/// Shows what is known of a tool, where there is one of the name.
pub fn tool_info(tool: Option<&ToolDef>, name: &str) -> (r: Said)
    ensures
        match tool {
            Some(t) => r.says(info_text(t@), Seq::empty(), 0),
            None => r.says(Seq::empty(), "Tool '"@ + name@ + "' not found.\n"@, 1),
        },
{
    match tool {
        Some(t) => {
            let mut out = "Tool: ".to_owned();
            out.append(t.name.as_str());
            out.append("\nDescription: ");
            out.append(t.description.as_str());
            out.append("\n");
            let ghost a = out@;
            let ghost category = match t@.category {
                Some(c) => "Category: "@ + c + "\n"@,
                None => Seq::empty(),
            };
            match &t.category {
                Some(c) => {
                    out.append("Category: ");
                    out.append(c.as_str());
                    out.append("\n");
                },
                None => {},
            }
            proof {
                assert(out@ =~= a + category);
            }
            let ghost keywords = if t@.keywords.len() > 0 {
                "Keywords: "@ + join(t@.keywords, ", "@) + "\n"@
            } else {
                Seq::empty()
            };
            proof {
                assert(t@.keywords.len() == t.keywords@.len());
                assert(t@.parameters.len() == t.parameters@.len());
                assert(t@.keywords.skip(0) =~= t@.keywords);
            }
            if t.keywords.len() > 0 {
                out.append("Keywords: ");
                let joined = join_strings(&t.keywords, 0, ", ");
                out.append(joined.as_str());
                out.append("\n");
            }
            proof {
                assert(out@ =~= a + category + keywords);
            }
            if t.parameters.len() > 0 {
                out.append("\nParameters:\n");
                push_info_params(&mut out, &t.parameters);
            }
            proof {
                assert(out@ =~= info_text(t@));
            }
            Said { out, err: String::new(), code: 0 }
        },
        None => {
            let mut err = "Tool '".to_owned();
            err.append(name);
            err.append("' not found.\n");
            Said { out: String::new(), err, code: 1 }
        },
    }
}

// ---------------------------------------------------------------------------
// Embeddings
// ---------------------------------------------------------------------------

/// Shows an embedding: its length, its norm and its first values, which are given as
/// texts.
pub fn embed_text(text: &str, dimension: usize, norm: &str, first: &Vec<String>) -> (r: String)
    ensures
        r@ == "Text: \""@ + text@ + "\"\nDimension: "@ + decimal(dimension as nat) + "\nL2 Norm: "@
            + norm@ + "\nFirst 5 values: ["@ + join(strs(first@), ", "@) + "]\n"@,
{
    proof {
        assert(strs(first@).skip(0) =~= strs(first@));
    }
    let mut out = "Text: \"".to_owned();
    out.append(text);
    out.append("\"\nDimension: ");
    let n = write_decimal(dimension as u64);
    push_chars(&mut out, &n);
    out.append("\nL2 Norm: ");
    out.append(norm);
    out.append("\nFirst 5 values: [");
    let values = join_strings(first, 0, ", ");
    out.append(values.as_str());
    out.append("]\n");
    out
}

/// The lines of similarities from the `i`th on.
pub open spec fn similar_from(rows: Seq<(String, String)>, i: int) -> Seq<char>
    decreases rows.len() - i,
{
    if i < 0 || i >= rows.len() {
        Seq::empty()
    } else {
        "  "@ + rows[i].0@ + ": "@ + rows[i].1@ + "\n"@ + similar_from(rows, i + 1)
    }
}

/// Shows how similar a text is to some concepts: each with its similarity, which is
/// given as a text.
pub fn similarities(rows: &Vec<(String, String)>) -> (r: String)
    ensures
        r@ == "\nSimilarity to concepts:\n"@ + similar_from(rows@, 0),
{
    let mut out = "\nSimilarity to concepts:\n".to_owned();
    let ghost start = out@;
    let mut i: usize = 0;
    while i < rows.len()
        invariant
            i <= rows@.len(),
            out@ + similar_from(rows@, i as int) == start + similar_from(rows@, 0),
        decreases rows@.len() - i,
    {
        let ghost before = out@;
        out.append("  ");
        out.append(rows[i].0.as_str());
        out.append(": ");
        out.append(rows[i].1.as_str());
        out.append("\n");
        proof {
            let line = "  "@ + rows@[i as int].0@ + ": "@ + rows@[i as int].1@ + "\n"@;
            assert(out@ =~= before + line);
            assert(before + line + similar_from(rows@, i + 1) =~= before + (line + similar_from(
                rows@,
                i + 1,
            )));
        }
        i += 1;
    }
    proof {
        assert(out@ + Seq::<char>::empty() =~= out@);
    }
    out
}

/// What is said of a text that could not be embedded.
pub fn embed_failed(message: &str) -> (r: Said)
    ensures
        r.says(Seq::empty(), "Embedding failed: "@ + message@ + "\n"@, 1),
{
    let mut err = "Embedding failed: ".to_owned();
    err.append(message);
    err.append("\n");
    Said { out: String::new(), err, code: 1 }
}

/// What is said where nothing can be embedded.
pub fn no_embedder(message: &str) -> (r: Said)
    ensures
        r.says(Seq::empty(), "Embedder not available: "@ + message@ + "\n"@, 1),
{
    let mut err = "Embedder not available: ".to_owned();
    err.append(message);
    err.append("\n");
    Said { out: String::new(), err, code: 1 }
}

/// The way to search is the one that is asked for last, and both ways where none is.
pub proof fn law_ways_to_search(ts: Seq<Tok>, t: Tok)
    ensures
        mode_of(Seq::empty(), 0) == SearchMode::Hybrid,
        mode_of(ts.push(Tok::Long("bm25"@)), ts.len() as int + 1) == SearchMode::Bm25,
        mode_of(ts.push(Tok::Long("semantic"@)), ts.len() as int + 1) == SearchMode::Semantic,
        t != Tok::Long("bm25"@) && t != Tok::Long("semantic"@) ==> mode_of(
            ts.push(t),
            ts.len() as int + 1,
        ) == mode_of(ts, ts.len() as int),
{
    reveal_strlit("bm25");
    reveal_strlit("semantic");
    assert("bm25"@.len() == 4 && "semantic"@.len() == 8);
    lemma_mode_same(ts, t, ts.len() as int);
}

proof fn lemma_mode_same(ts: Seq<Tok>, t: Tok, n: int)
    requires
        n <= ts.len(),
    ensures
        mode_of(ts.push(t), n) == mode_of(ts, n),
    decreases n,
{
    if n > 0 {
        assert(ts.push(t)[n - 1] == ts[n - 1]);
        lemma_mode_same(ts, t, n - 1);
    }
}

/// Five results are shown where no number is asked for.
pub proof fn law_number_of_results(ts: Seq<Tok>, n: usize)
    ensures
        limit_of(Seq::empty()) == 5,
        limit_of(ts.push(Tok::Valued('n', Some(decimal(n as nat))))) == n,
{
    crate::num::law_decimal_is_read(n as nat, 'x', Seq::empty());
    let cs = seq!['n'];
    assert(cs[0] == 'n');
    assert(cs.contains('n'));
}

/// The words behind the request are joined with a blank between neighbours.
pub proof fn law_words_of_a_request(first: Seq<char>, a: Seq<char>, b: Seq<char>)
    ensures
        rest_text(seq![first]).len() == 0,
        rest_text(seq![first, a]) == a,
        rest_text(seq![first, a, b]) == a + seq![' '] + b,
{
    reveal_strlit(" ");
    assert(" "@ =~= seq![' ']);
    reveal_with_fuel(crate::text::join_from, 3);
    assert(seq![first, a].skip(1) =~= seq![a]);
    assert(seq![first, a, b].skip(1) =~= seq![a, b]);
}

/// The results are numbered from one, each with its score and its description.
pub proof fn law_results_are_numbered(hits: Seq<Hit>, i: int)
    requires
        0 <= i < hits.len(),
    ensures
        hits_from(hits, i) == decimal((i + 1) as nat) + ". "@ + hits[i].name@ + " (score: "@
            + hits[i].score@ + ")\n   "@ + hits[i].description@ + "\n\n"@ + hits_from(hits, i + 1),
        hits_from(hits, hits.len() as int).len() == 0,
{
}

/// The tools are listed one to a line: the name to twenty-five places, the category or a dash
/// in brackets, and the description.
pub proof fn law_tools_are_listed(ts: Seq<Tool>, i: int)
    requires
        0 <= i < ts.len(),
    ensures
        ts[i].category is None ==> list_from(ts, i) == pad_right(ts[i].name, 25) + " ["@ + "-"@
            + "] "@ + ts[i].description + "\n"@ + list_from(ts, i + 1),
        ts[i].category is Some ==> list_from(ts, i) == pad_right(ts[i].name, 25) + " ["@
            + ts[i].category->0 + "] "@ + ts[i].description + "\n"@ + list_from(ts, i + 1),
        list_from(ts, ts.len() as int).len() == 0,
{
}

/// A parameter is shown with its name, its type, whether it is required, and its description.
pub proof fn law_parameters_are_shown(ps: Seq<Param>, i: int)
    requires
        0 <= i < ps.len(),
    ensures
        ps[i].required ==> info_params(ps, i) == "  "@ + ps[i].name + " ("@ + ps[i].kind.label()
            + ", "@ + "required"@ + "): "@ + ps[i].description + "\n"@ + info_params(ps, i + 1),
        !ps[i].required ==> info_params(ps, i) == "  "@ + ps[i].name + " ("@ + ps[i].kind.label()
            + ", "@ + "optional"@ + "): "@ + ps[i].description + "\n"@ + info_params(ps, i + 1),
        info_params(ps, ps.len() as int).len() == 0,
{
}

/// A tool is shown with its name and its description, and with what else is known of it: its
/// category, its keywords and its parameters.
pub proof fn law_tools_are_shown(t: Tool)
    ensures
        t.category is None && t.keywords.len() == 0 && t.parameters.len() == 0 ==> info_text(t)
            == "Tool: "@ + t.name + "\nDescription: "@ + t.description + "\n"@,
        t.category is Some && t.keywords.len() > 0 && t.parameters.len() > 0 ==> info_text(t)
            == "Tool: "@ + t.name + "\nDescription: "@ + t.description + "\n"@ + "Category: "@
            + t.category->0 + "\n"@ + "Keywords: "@ + join(t.keywords, ", "@) + "\n"@
            + "\nParameters:\n"@ + info_params(t.parameters, 0),
{
    let none = Seq::<char>::empty();
    let front = "Tool: "@ + t.name + "\nDescription: "@ + t.description + "\n"@;
    if t.category is None && t.keywords.len() == 0 && t.parameters.len() == 0 {
        assert(info_text(t) =~= front);
    }
    if t.category is Some && t.keywords.len() > 0 && t.parameters.len() > 0 {
        assert(info_text(t) =~= front + "Category: "@ + t.category->0 + "\n"@ + "Keywords: "@ + join(
            t.keywords,
            ", "@,
        ) + "\n"@ + "\nParameters:\n"@ + info_params(t.parameters, 0));
    }
}

/// What is asked for goes by the first argument: a search, the list, a tool or an embedding,
/// and help otherwise.
pub proof fn law_requests(r: Request, ts: Seq<Tok>, args: Seq<Seq<char>>)
    requires
        is_request(r, ts),
        args == values_from(ts, 0),
    ensures
        args.len() > 0 && args[0] == "list"@ ==> r is List,
        args.len() > 1 && args[0] == "search"@ && rest_text(args).len() > 0 ==> (r matches
            Request::Search(q, limit, mode) && q@ == rest_text(args) && limit == limit_of(ts)
            && mode == mode_of(ts, ts.len() as int)),
        args.len() > 1 && args[0] == "info"@ && args[1].len() > 0 ==> (r matches Request::Info(name)
            && name@ == args[1]),
        args.len() > 1 && args[0] == "embed"@ && rest_text(args).len() > 0 ==> (r matches
            Request::Embed(text) && text@ == rest_text(args)),
        args.len() == 0 ==> (r matches Request::Done(said) && said.says(HELP@, Seq::empty(), 0)),
        args.len() == 1 && (args[0] == "search"@ || args[0] == "info"@ || args[0] == "embed"@) ==> (
        r matches Request::Done(said) && said.code == 1),
{
    reveal_strlit("search");
    reveal_strlit("list");
    reveal_strlit("info");
    reveal_strlit("embed");
    reveal_strlit("help");
    assert("search"@.len() == 6 && "list"@.len() == 4 && "info"@.len() == 4 && "embed"@.len() == 5);
    assert("help"@.len() == 4 && "list"@[0] == 'l' && "info"@[0] == 'i' && "help"@[0] == 'h');
}

/// The rows of a comparison stand one to a line.
pub proof fn law_comparisons_are_shown(rows: Seq<(String, String)>, i: int)
    requires
        0 <= i < rows.len(),
    ensures
        similar_from(rows, i) == "  "@ + rows[i].0@ + ": "@ + rows[i].1@ + "\n"@ + similar_from(
            rows,
            i + 1,
        ),
        similar_from(rows, rows.len() as int).len() == 0,
{
}

/// `-n` and `-c` take a value and no other option does; the first argument is the
/// name of the command.
pub proof fn law_options_with_values(name: Seq<char>, args: Seq<Seq<char>>)
    ensures
        tools_tokens(seq![name] + args) == crate::args::tokens(args, seq!['n', 'c'], false),
        tools_tokens(Seq::empty()).len() == 0,
{
    assert((seq![name] + args).skip(1) =~= args);
}

} // verus!
