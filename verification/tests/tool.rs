//! tool and tools.
use amla_sandbox_shell::catalog::{ParamDef, ParamType, ToolDef};
use amla_sandbox_shell::commands::tool::{
    answered, invoke_tool, no_tools, parse_args, parse_value, show_tool_help, unknown_option,
    unknown_tool, Float, Request,
};
use amla_sandbox_shell::commands::tools::{
    embed_failed, embed_text, no_embedder, search_by, search_tools, similarities, tool_info, Hit,
    Search, SearchMode,
};
use amla_sandbox_shell::commands::{tool, tools};
use amla_sandbox_shell::demo::build_demo_catalog;
use serde_json::Value;

fn argv(line: &[&str]) -> Vec<String> {
    line.iter().map(|s| s.to_string()).collect()
}

fn json(text: &str) -> Value {
    serde_json::from_str(text).unwrap()
}

fn float(s: &str) -> Float {
    match s.parse::<f64>() {
        Err(_) => Float::Absent,
        Ok(x) if x.is_finite() => Float::Finite(Value::from(x)),
        Ok(_) => Float::Infinite,
    }
}

fn charge() -> ToolDef {
    build_demo_catalog().remove(0)
}

fn named(name: &str, description: &str) -> ToolDef {
    ToolDef {
        name: name.to_string(),
        description: description.to_string(),
        parameters: Vec::new(),
        category: None,
        keywords: Vec::new(),
    }
}

fn read(tool: &ToolDef, args: &[&str]) -> Result<Value, String> {
    let floats = args.iter().map(|s| float(s)).collect();
    let pairs = parse_args(tool, &argv(args), &floats)?;
    Ok(Value::Object(pairs.into_iter().collect()))
}

// tool

#[test]
fn tool_reads_its_request() {
    assert!(matches!(tool::run(&argv(&["tool"])), Request::Usage));
    assert!(matches!(tool::run(&argv(&["tool", "-h"])), Request::Usage));
    assert!(matches!(tool::run(&argv(&["tool", "--list"])), Request::List(None)));
    assert!(matches!(tool::run(&argv(&["tool", "-l", "s"])), Request::List(Some(p)) if p == "s"));
    assert!(matches!(tool::run(&argv(&["tool", "--help", "x"])), Request::Help(n) if n == "x"));
    assert!(matches!(tool::run(&argv(&["tool", "--no"])), Request::Unknown(n) if n == "--no"));
    assert!(matches!(tool::run(&Vec::new()), Request::Usage));
    assert!(matches!(tool::run(&argv(&["tool", "--json", "{}"])), Request::Unknown(_)));
    match tool::run(&argv(&["tool", "--json", "{\"amount\": 500}", "stripe.charge", "--x", "1"])) {
        Request::Invoke(name, args) => {
            assert_eq!(name, "stripe.charge");
            assert_eq!(args, ["--json", "{\"amount\": 500}", "--x", "1"]);
        }
        other => panic!("{other:?}"),
    }
    match tool::run(&argv(&["tool", "a.b", "--c", "d"])) {
        Request::Invoke(name, args) => assert_eq!((name.as_str(), args), ("a.b", argv(&["--c", "d"]))),
        _ => panic!("no call"),
    }
}

#[test]
fn tool_complains() {
    let said = unknown_option("--no");
    assert_eq!((said.err.as_str(), said.code), ("tool: unknown option: --no\n", 1));
    assert_eq!(no_tools().err, "tool: no tools available\n");
    let said = unknown_tool("x");
    assert_eq!(
        said.err,
        "tool: unknown tool: x\nUse 'tool --list' to see available tools.\n"
    );
    assert_eq!(show_tool_help(None, "x").err, "tool: unknown tool: x\n");
    assert!(tool::show_usage().out.starts_with("tool - Invoke external tools via shell syntax\n"));
}

#[test]
fn tool_lists_by_provider() {
    let defs = vec![named("a:one", "First"), named("b.two", "Second"), named("a", "Third")];
    let one = format!("  {:<30} First\n", "a.one");
    let two = format!("  {:<30} Second\n", "b.two");
    let three = format!("  {:<30} Third\n", "a");
    assert_eq!(tool::list_tools(&defs, None).out, format!("{one}{two}{three}"));
    assert_eq!(tool::list_tools(&defs, Some("a")).out, format!("{one}{three}"));
    assert_eq!(tool::list_tools(&defs, Some("c")).out, "No tools found for provider: c\n");
    assert_eq!(tool::list_tools(&vec![], None).out, "No tools registered.\n");
}

#[test]
fn tool_help_shows_parameters() {
    assert_eq!(
        show_tool_help(Some(&charge()), "x").out,
        format!(
            "Tool: stripe.charge\nDescription: Create a payment charge using Stripe\n\n\
             Parameters:\n  --{:<20} (integer, required) Amount in cents\n  \
             --{:<20} (string, required) Currency code (USD, EUR)\n  \
             --{:<20} (string, required) Customer ID\n\n\
             Usage:\n  tool stripe.charge --amount <value> --currency <value> --customer <value>\n",
            "amount", "currency", "customer"
        )
    );
}

#[test]
fn values_are_read_by_type() {
    let value = |s: &str, kind| parse_value(s, kind, &float(s));
    assert_eq!(value("12", Some(ParamType::Integer)), json("12"));
    assert_eq!(value("1.5", Some(ParamType::Integer)), json("\"1.5\""));
    assert_eq!(value("12", Some(ParamType::Number)), json("12.0"));
    assert_eq!(value("inf", Some(ParamType::Number)), Value::Null);
    assert_eq!(value("x", Some(ParamType::Number)), json("\"x\""));
    assert_eq!(value("YES", Some(ParamType::Boolean)), Value::Bool(true));
    assert_eq!(value("0", Some(ParamType::Boolean)), Value::Bool(false));
    assert_eq!(value("maybe", Some(ParamType::Boolean)), json("\"maybe\""));
    assert_eq!(value("[1,2]", Some(ParamType::Array)), json("[1,2]"));
    assert_eq!(value("a, b", Some(ParamType::Array)), json("[\"a\",\"b\"]"));
    assert_eq!(value("{\"k\":1}", Some(ParamType::Object)), json("{\"k\":1}"));
    assert_eq!(value("{", Some(ParamType::Object)), json("\"{\""));
    assert_eq!(value("-3", None), json("-3"));
    assert_eq!(value("2.50", None), json("2.5"));
    assert_eq!(value("nan", None), json("0"));
    assert_eq!(value("true", None), Value::Bool(true));
    assert_eq!(value("false", None), Value::Bool(false));
    assert_eq!(value("True", None), json("\"True\""));
    for text in ["123", "2.50", "nan", "true", ""] {
        assert_eq!(value(text, Some(ParamType::Text)), Value::String(text.to_string()));
    }
}

#[test]
fn parameters_are_read_from_arguments() {
    let t = charge();
    assert_eq!(
        read(&t, &["--amount", "5", "--flag", "--currency", "usd", "--last"]).unwrap(),
        json("{\"amount\":5,\"flag\":true,\"currency\":\"usd\",\"last\":true}")
    );
    assert_eq!(
        read(&t, &["--amount", "1", "--json", "{\"amount\":2,\"x\":[]}"]).unwrap(),
        json("{\"amount\":2,\"x\":[]}")
    );
    assert_eq!(read(&t, &["--json", "{\"x\":1}", "--x", "2"]).unwrap(), json("{\"x\":2}"));
    assert_eq!(read(&t, &["--json"]), Err("--json requires a value".to_string()));
    assert_eq!(read(&t, &["--json", "[]"]), Err("--json value must be an object".to_string()));
    assert!(read(&t, &["--json", "?"]).unwrap_err().starts_with("invalid JSON: "));
    assert_eq!(read(&t, &["x"]), Err("unexpected argument: x".to_string()));
}

#[test]
fn a_call_has_all_that_is_required() {
    let t = charge();
    let call = |args: &[&str]| {
        let floats = args.iter().map(|s| float(s)).collect();
        invoke_tool(&t, &argv(args), &floats)
    };
    let c = call(&["--amount", "5", "--currency", "usd", "--customer", "c"]).ok().unwrap();
    assert_eq!(c.method, "stripe:charge");
    assert_eq!(
        serde_json::from_slice::<Value>(&c.params).unwrap(),
        json("{\"amount\":5,\"currency\":\"usd\",\"customer\":\"c\"}")
    );
    let said = call(&["--amount", "5", "--customer", "c"]).err().unwrap();
    assert_eq!(
        (said.err.as_str(), said.code),
        ("tool: missing required parameter: --currency\n", 1)
    );
    assert_eq!(call(&["x"]).err().unwrap().err, "tool: unexpected argument: x\n");
    let plain = named("echo", "");
    let c = invoke_tool(&plain, &vec![], &vec![]).ok().unwrap();
    assert_eq!((c.method.as_str(), c.params), ("mcp:echo", b"{}".to_vec()));
}

#[test]
fn a_reply_is_shown() {
    let t = charge();
    assert_eq!(answered(&t, Ok(b"{\"a\":1}".to_vec())).out, "{\n  \"a\": 1\n}\n");
    assert_eq!(answered(&t, Ok(b"a\xff".to_vec())).out, "a\u{fffd}\n");
    let said = answered(&t, Err("denied".to_string()));
    assert_eq!((said.err.as_str(), said.code), ("tool: stripe:charge failed: denied\n", 1));
}

// tools

#[test]
fn tools_reads_its_request() {
    let run = |line: &[&str]| tools::run(&argv(line));
    match run(&["tools", "search", "-n", "3", "a", "b", "--bm25", "-c", "x"]) {
        (Some(c), tools::Request::Search(q, 3, SearchMode::Bm25)) => {
            assert_eq!((c.as_str(), q.as_str()), ("x", "a b"));
        }
        other => panic!("{other:?}"),
    }
    assert!(matches!(
        run(&["tools", "search", "q", "-n", "z", "--bm25", "--semantic"]).1,
        tools::Request::Search(_, 5, SearchMode::Semantic)
    ));
    assert!(matches!(run(&["tools", "list"]), (None, tools::Request::List)));
    assert!(matches!(run(&["tools", "info", "n"]).1, tools::Request::Info(n) if n == "n"));
    assert!(matches!(run(&["tools", "embed", "a", "b"]).1, tools::Request::Embed(t) if t == "a b"));
    let done = |line: &[&str]| match run(line).1 {
        tools::Request::Done(said) => (said.out, said.err, said.code),
        other => panic!("{other:?}"),
    };
    let usage = |what: &str| (String::new(), format!("Usage: tools {what}\n"), 1);
    assert_eq!(done(&["tools", "search"]), usage("search <query>"));
    assert_eq!(done(&["tools", "info"]), usage("info <name>"));
    assert_eq!(done(&["tools", "embed"]), usage("embed <text>"));
    assert_eq!(done(&["tools"]), (tools::HELP.to_string(), String::new(), 0));
}

#[test]
fn a_search_by_meaning_needs_an_embedding() {
    assert_eq!(search_by(SearchMode::Hybrid, false), Search::Smart);
    assert_eq!(search_by(SearchMode::Bm25, true), Search::Bm25);
    assert_eq!(search_by(SearchMode::Semantic, true), Search::Semantic);
    assert_eq!(search_by(SearchMode::Semantic, false), Search::Bm25);
}

#[test]
fn search_results_are_numbered() {
    let hits = vec![
        Hit { name: "a".into(), score: "1.250".into(), description: "A".into() },
        Hit { name: "b".into(), score: "0.500".into(), description: "B".into() },
    ];
    assert_eq!(
        search_tools(&hits).out,
        "1. a (score: 1.250)\n   A\n\n2. b (score: 0.500)\n   B\n\n"
    );
    assert_eq!(search_tools(&vec![]).out, "No matching tools found.\n");
}

#[test]
fn the_demonstration_catalog_is_listed() {
    let defs = build_demo_catalog();
    let out = tools::list_tools(&defs).out;
    assert_eq!(out.lines().count(), 10);
    let first = format!("{:<25} [payments] Create a payment charge using Stripe", "stripe:charge");
    assert_eq!(out.lines().next().unwrap(), first);
    assert_eq!(tools::list_tools(&vec![]).out, "No tools registered.\n");
    assert_eq!(tools::list_tools(&vec![named("n", "D")]).out, format!("{:<25} [-] D\n", "n"));
}

#[test]
fn a_tool_is_described() {
    assert_eq!(
        tool_info(Some(&charge()), "x").out,
        "Tool: stripe:charge\nDescription: Create a payment charge using Stripe\n\
         Category: payments\nKeywords: payment, credit card, money\n\nParameters:\n  \
         amount (integer, required): Amount in cents\n  \
         currency (string, required): Currency code (USD, EUR)\n  \
         customer (string, required): Customer ID\n"
    );
    let mut t = named("n", "D");
    t.parameters.push(ParamDef::new("p", ParamType::Array, "P", false));
    assert_eq!(
        tool_info(Some(&t), "n").out,
        "Tool: n\nDescription: D\n\nParameters:\n  p (array, optional): P\n"
    );
    let said = tool_info(None, "gone");
    assert_eq!((said.err.as_str(), said.code), ("Tool 'gone' not found.\n", 1));
}

#[test]
fn an_embedding_is_shown() {
    assert_eq!(
        embed_text("hi", 384, "1.0000", &argv(&["0.1000", "-0.2000"])),
        "Text: \"hi\"\nDimension: 384\nL2 Norm: 1.0000\nFirst 5 values: [0.1000, -0.2000]\n"
    );
    assert_eq!(
        similarities(&vec![("payment".to_string(), "0.123".to_string())]),
        "\nSimilarity to concepts:\n  payment: 0.123\n"
    );
    assert_eq!(embed_failed("e").err, "Embedding failed: e\n");
    assert_eq!(no_embedder("e").err, "Embedder not available: e\n");
}
