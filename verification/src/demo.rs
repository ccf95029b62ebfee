//! The catalog that is shown where the host has no tools.
use vstd::prelude::*;
use crate::catalog::{params, tools, Param, ParamDef, ParamType, Tool, ToolDef};
use crate::text::strs;

verus! {

pub open spec fn param(
    name: Seq<char>,
    kind: ParamType,
    description: Seq<char>,
    required: bool,
) -> Param {
    Param { name, kind, description, required }
}

/// The tool stripe:charge.
pub open spec fn stripe_charge() -> Tool {
    Tool {
        name: "stripe:charge"@,
        description: "Create a payment charge using Stripe"@,
        parameters: seq![
            param("amount"@, ParamType::Integer, "Amount in cents"@, true),
            param("currency"@, ParamType::Text, "Currency code (USD, EUR)"@, true),
            param("customer"@, ParamType::Text, "Customer ID"@, true),
        ],
        category: Some("payments"@),
        keywords: seq!["payment"@, "credit card"@, "money"@],
    }
}

/// The tool stripe:refund.
pub open spec fn stripe_refund() -> Tool {
    Tool {
        name: "stripe:refund"@,
        description: "Refund a previous payment charge"@,
        parameters: seq![
            param("charge_id"@, ParamType::Text, "ID of charge to refund"@, true),
            param("amount"@, ParamType::Integer, "Amount to refund in cents"@, false),
        ],
        category: Some("payments"@),
        keywords: seq!["refund"@, "money back"@],
    }
}

/// The tool notion:search.
pub open spec fn notion_search() -> Tool {
    Tool {
        name: "notion:search"@,
        description: "Search Notion pages and databases"@,
        parameters: seq![
            param("query"@, ParamType::Text, "Search query"@, true),
            param("limit"@, ParamType::Integer, "Maximum results"@, false),
        ],
        category: Some("productivity"@),
        keywords: seq!["documents"@, "notes"@, "wiki"@],
    }
}

/// The tool notion:create_page.
pub open spec fn notion_create_page() -> Tool {
    Tool {
        name: "notion:create_page"@,
        description: "Create a new Notion page"@,
        parameters: seq![
            param("parent_id"@, ParamType::Text, "Parent page or database ID"@, true),
            param("title"@, ParamType::Text, "Page title"@, true),
            param("content"@, ParamType::Text, "Page content in markdown"@, false),
        ],
        category: Some("productivity"@),
        keywords: seq!["create"@, "page"@, "document"@],
    }
}

/// The tool github:create_issue.
pub open spec fn github_create_issue() -> Tool {
    Tool {
        name: "github:create_issue"@,
        description: "Create a new GitHub issue"@,
        parameters: seq![
            param("repo"@, ParamType::Text, "Repository (owner/name)"@, true),
            param("title"@, ParamType::Text, "Issue title"@, true),
            param("body"@, ParamType::Text, "Issue body"@, false),
            param("labels"@, ParamType::Array, "Labels to add"@, false),
        ],
        category: Some("development"@),
        keywords: seq!["bug"@, "feature request"@, "issue"@],
    }
}

/// The tool github:create_pr.
pub open spec fn github_create_pr() -> Tool {
    Tool {
        name: "github:create_pr"@,
        description: "Create a GitHub pull request"@,
        parameters: seq![
            param("repo"@, ParamType::Text, "Repository (owner/name)"@, true),
            param("title"@, ParamType::Text, "PR title"@, true),
            param("head"@, ParamType::Text, "Branch with changes"@, true),
            param("base"@, ParamType::Text, "Target branch"@, true),
        ],
        category: Some("development"@),
        keywords: seq!["pull request"@, "merge"@, "code review"@],
    }
}

/// The tool postgres:query.
pub open spec fn postgres_query() -> Tool {
    Tool {
        name: "postgres:query"@,
        description: "Execute a SQL query on PostgreSQL database"@,
        parameters: seq![
            param("query"@, ParamType::Text, "SQL query to execute"@, true),
            param("params"@, ParamType::Array, "Query parameters"@, false),
        ],
        category: Some("database"@),
        keywords: seq!["sql"@, "database"@, "select"@],
    }
}

/// The tool s3:upload.
pub open spec fn s3_upload() -> Tool {
    Tool {
        name: "s3:upload"@,
        description: "Upload a file to AWS S3"@,
        parameters: seq![
            param("bucket"@, ParamType::Text, "S3 bucket name"@, true),
            param("key"@, ParamType::Text, "Object key (path)"@, true),
            param("content"@, ParamType::Text, "File content"@, true),
        ],
        category: Some("storage"@),
        keywords: seq!["file"@, "upload"@, "cloud"@],
    }
}

/// The tool slack:send_message.
pub open spec fn slack_send_message() -> Tool {
    Tool {
        name: "slack:send_message"@,
        description: "Send a message to a Slack channel"@,
        parameters: seq![
            param("channel"@, ParamType::Text, "Channel ID or name"@, true),
            param("text"@, ParamType::Text, "Message text"@, true),
        ],
        category: Some("communication"@),
        keywords: seq!["message"@, "chat"@, "notify"@],
    }
}

/// The tool openai:complete.
pub open spec fn openai_complete() -> Tool {
    Tool {
        name: "openai:complete"@,
        description: "Generate text completion using OpenAI"@,
        parameters: seq![
            param("prompt"@, ParamType::Text, "Input prompt"@, true),
            param("model"@, ParamType::Text, "Model to use"@, false),
            param("max_tokens"@, ParamType::Integer, "Maximum tokens"@, false),
        ],
        category: Some("ai"@),
        keywords: seq!["llm"@, "generate"@, "gpt"@],
    }
}

/// The tools of the catalog that is shown where the host has none.
pub open spec fn demo() -> Seq<Tool> {
    seq![
        stripe_charge(),
        stripe_refund(),
        notion_search(),
        notion_create_page(),
        github_create_issue(),
        github_create_pr(),
        postgres_query(),
        s3_upload(),
        slack_send_message(),
        openai_complete(),
    ]
}

fn make_stripe_charge() -> (r: ToolDef)
    ensures
        r@ == stripe_charge(),
{
    let parameters = vec![
        ParamDef::new("amount", ParamType::Integer, "Amount in cents", true),
        ParamDef::new("currency", ParamType::Text, "Currency code (USD, EUR)", true),
        ParamDef::new("customer", ParamType::Text, "Customer ID", true),
    ];
    let keywords = vec!["payment".to_owned(), "credit card".to_owned(), "money".to_owned()];
    let r = ToolDef {
        name: "stripe:charge".to_owned(),
        description: "Create a payment charge using Stripe".to_owned(),
        parameters,
        category: Some("payments".to_owned()),
        keywords,
    };
    proof {
        assert(params(r.parameters@) =~= stripe_charge().parameters);
        assert(strs(r.keywords@) =~= stripe_charge().keywords);
    }
    r
}

fn make_stripe_refund() -> (r: ToolDef)
    ensures
        r@ == stripe_refund(),
{
    let parameters = vec![
        ParamDef::new("charge_id", ParamType::Text, "ID of charge to refund", true),
        ParamDef::new("amount", ParamType::Integer, "Amount to refund in cents", false),
    ];
    let keywords = vec!["refund".to_owned(), "money back".to_owned()];
    let r = ToolDef {
        name: "stripe:refund".to_owned(),
        description: "Refund a previous payment charge".to_owned(),
        parameters,
        category: Some("payments".to_owned()),
        keywords,
    };
    proof {
        assert(params(r.parameters@) =~= stripe_refund().parameters);
        assert(strs(r.keywords@) =~= stripe_refund().keywords);
    }
    r
}

fn make_notion_search() -> (r: ToolDef)
    ensures
        r@ == notion_search(),
{
    let parameters = vec![
        ParamDef::new("query", ParamType::Text, "Search query", true),
        ParamDef::new("limit", ParamType::Integer, "Maximum results", false),
    ];
    let keywords = vec!["documents".to_owned(), "notes".to_owned(), "wiki".to_owned()];
    let r = ToolDef {
        name: "notion:search".to_owned(),
        description: "Search Notion pages and databases".to_owned(),
        parameters,
        category: Some("productivity".to_owned()),
        keywords,
    };
    proof {
        assert(params(r.parameters@) =~= notion_search().parameters);
        assert(strs(r.keywords@) =~= notion_search().keywords);
    }
    r
}

fn make_notion_create_page() -> (r: ToolDef)
    ensures
        r@ == notion_create_page(),
{
    let parameters = vec![
        ParamDef::new("parent_id", ParamType::Text, "Parent page or database ID", true),
        ParamDef::new("title", ParamType::Text, "Page title", true),
        ParamDef::new("content", ParamType::Text, "Page content in markdown", false),
    ];
    let keywords = vec!["create".to_owned(), "page".to_owned(), "document".to_owned()];
    let r = ToolDef {
        name: "notion:create_page".to_owned(),
        description: "Create a new Notion page".to_owned(),
        parameters,
        category: Some("productivity".to_owned()),
        keywords,
    };
    proof {
        assert(params(r.parameters@) =~= notion_create_page().parameters);
        assert(strs(r.keywords@) =~= notion_create_page().keywords);
    }
    r
}

fn make_github_create_issue() -> (r: ToolDef)
    ensures
        r@ == github_create_issue(),
{
    let parameters = vec![
        ParamDef::new("repo", ParamType::Text, "Repository (owner/name)", true),
        ParamDef::new("title", ParamType::Text, "Issue title", true),
        ParamDef::new("body", ParamType::Text, "Issue body", false),
        ParamDef::new("labels", ParamType::Array, "Labels to add", false),
    ];
    let keywords = vec!["bug".to_owned(), "feature request".to_owned(), "issue".to_owned()];
    let r = ToolDef {
        name: "github:create_issue".to_owned(),
        description: "Create a new GitHub issue".to_owned(),
        parameters,
        category: Some("development".to_owned()),
        keywords,
    };
    proof {
        assert(params(r.parameters@) =~= github_create_issue().parameters);
        assert(strs(r.keywords@) =~= github_create_issue().keywords);
    }
    r
}

fn make_github_create_pr() -> (r: ToolDef)
    ensures
        r@ == github_create_pr(),
{
    let parameters = vec![
        ParamDef::new("repo", ParamType::Text, "Repository (owner/name)", true),
        ParamDef::new("title", ParamType::Text, "PR title", true),
        ParamDef::new("head", ParamType::Text, "Branch with changes", true),
        ParamDef::new("base", ParamType::Text, "Target branch", true),
    ];
    let keywords = vec!["pull request".to_owned(), "merge".to_owned(), "code review".to_owned()];
    let r = ToolDef {
        name: "github:create_pr".to_owned(),
        description: "Create a GitHub pull request".to_owned(),
        parameters,
        category: Some("development".to_owned()),
        keywords,
    };
    proof {
        assert(params(r.parameters@) =~= github_create_pr().parameters);
        assert(strs(r.keywords@) =~= github_create_pr().keywords);
    }
    r
}

fn make_postgres_query() -> (r: ToolDef)
    ensures
        r@ == postgres_query(),
{
    let parameters = vec![
        ParamDef::new("query", ParamType::Text, "SQL query to execute", true),
        ParamDef::new("params", ParamType::Array, "Query parameters", false),
    ];
    let keywords = vec!["sql".to_owned(), "database".to_owned(), "select".to_owned()];
    let r = ToolDef {
        name: "postgres:query".to_owned(),
        description: "Execute a SQL query on PostgreSQL database".to_owned(),
        parameters,
        category: Some("database".to_owned()),
        keywords,
    };
    proof {
        assert(params(r.parameters@) =~= postgres_query().parameters);
        assert(strs(r.keywords@) =~= postgres_query().keywords);
    }
    r
}

fn make_s3_upload() -> (r: ToolDef)
    ensures
        r@ == s3_upload(),
{
    let parameters = vec![
        ParamDef::new("bucket", ParamType::Text, "S3 bucket name", true),
        ParamDef::new("key", ParamType::Text, "Object key (path)", true),
        ParamDef::new("content", ParamType::Text, "File content", true),
    ];
    let keywords = vec!["file".to_owned(), "upload".to_owned(), "cloud".to_owned()];
    let r = ToolDef {
        name: "s3:upload".to_owned(),
        description: "Upload a file to AWS S3".to_owned(),
        parameters,
        category: Some("storage".to_owned()),
        keywords,
    };
    proof {
        assert(params(r.parameters@) =~= s3_upload().parameters);
        assert(strs(r.keywords@) =~= s3_upload().keywords);
    }
    r
}

fn make_slack_send_message() -> (r: ToolDef)
    ensures
        r@ == slack_send_message(),
{
    let parameters = vec![
        ParamDef::new("channel", ParamType::Text, "Channel ID or name", true),
        ParamDef::new("text", ParamType::Text, "Message text", true),
    ];
    let keywords = vec!["message".to_owned(), "chat".to_owned(), "notify".to_owned()];
    let r = ToolDef {
        name: "slack:send_message".to_owned(),
        description: "Send a message to a Slack channel".to_owned(),
        parameters,
        category: Some("communication".to_owned()),
        keywords,
    };
    proof {
        assert(params(r.parameters@) =~= slack_send_message().parameters);
        assert(strs(r.keywords@) =~= slack_send_message().keywords);
    }
    r
}

fn make_openai_complete() -> (r: ToolDef)
    ensures
        r@ == openai_complete(),
{
    let parameters = vec![
        ParamDef::new("prompt", ParamType::Text, "Input prompt", true),
        ParamDef::new("model", ParamType::Text, "Model to use", false),
        ParamDef::new("max_tokens", ParamType::Integer, "Maximum tokens", false),
    ];
    let keywords = vec!["llm".to_owned(), "generate".to_owned(), "gpt".to_owned()];
    let r = ToolDef {
        name: "openai:complete".to_owned(),
        description: "Generate text completion using OpenAI".to_owned(),
        parameters,
        category: Some("ai".to_owned()),
        keywords,
    };
    proof {
        assert(params(r.parameters@) =~= openai_complete().parameters);
        assert(strs(r.keywords@) =~= openai_complete().keywords);
    }
    r
}

/// Build a demo tool catalog for testing.
pub fn build_demo_catalog() -> (r: Vec<ToolDef>)
    ensures
        tools(r@) == demo(),
{
    let r = vec![
        make_stripe_charge(),
        make_stripe_refund(),
        make_notion_search(),
        make_notion_create_page(),
        make_github_create_issue(),
        make_github_create_pr(),
        make_postgres_query(),
        make_s3_upload(),
        make_slack_send_message(),
        make_openai_complete(),
    ];
    proof {
        assert(tools(r@) =~= demo());
    }
    r
}

/// The tools of the demonstration, with their parameters in order and whether each is required.
pub proof fn law_demonstration()
    ensures
        demo().len() == 10,
        demo()[0].name == "stripe:charge"@ && demo()[0].category == Some("payments"@),
        demo()[0].parameters.len() == 3,
        demo()[0].parameters[0].name == "amount"@ && demo()[0].parameters[0].kind
            == ParamType::Integer && demo()[0].parameters[0].required,
        demo()[0].parameters[1].name == "currency"@ && demo()[0].parameters[1].kind
            == ParamType::Text && demo()[0].parameters[1].required,
        demo()[0].parameters[2].name == "customer"@ && demo()[0].parameters[2].kind
            == ParamType::Text && demo()[0].parameters[2].required,
        demo()[1].name == "stripe:refund"@ && demo()[1].category == Some("payments"@),
        demo()[1].parameters.len() == 2,
        demo()[1].parameters[0].name == "charge_id"@ && demo()[1].parameters[0].kind
            == ParamType::Text && demo()[1].parameters[0].required,
        demo()[1].parameters[1].name == "amount"@ && demo()[1].parameters[1].kind
            == ParamType::Integer && !demo()[1].parameters[1].required,
        demo()[2].name == "notion:search"@ && demo()[2].category == Some("productivity"@),
        demo()[2].parameters.len() == 2,
        demo()[2].parameters[0].name == "query"@ && demo()[2].parameters[0].kind
            == ParamType::Text && demo()[2].parameters[0].required,
        demo()[2].parameters[1].name == "limit"@ && demo()[2].parameters[1].kind
            == ParamType::Integer && !demo()[2].parameters[1].required,
        demo()[3].name == "notion:create_page"@ && demo()[3].category == Some("productivity"@),
        demo()[3].parameters.len() == 3,
        demo()[3].parameters[0].name == "parent_id"@ && demo()[3].parameters[0].kind
            == ParamType::Text && demo()[3].parameters[0].required,
        demo()[3].parameters[1].name == "title"@ && demo()[3].parameters[1].kind
            == ParamType::Text && demo()[3].parameters[1].required,
        demo()[3].parameters[2].name == "content"@ && demo()[3].parameters[2].kind
            == ParamType::Text && !demo()[3].parameters[2].required,
        demo()[4].name == "github:create_issue"@ && demo()[4].category == Some("development"@),
        demo()[4].parameters.len() == 4,
        demo()[4].parameters[0].name == "repo"@ && demo()[4].parameters[0].kind
            == ParamType::Text && demo()[4].parameters[0].required,
        demo()[4].parameters[1].name == "title"@ && demo()[4].parameters[1].kind
            == ParamType::Text && demo()[4].parameters[1].required,
        demo()[4].parameters[2].name == "body"@ && demo()[4].parameters[2].kind
            == ParamType::Text && !demo()[4].parameters[2].required,
        demo()[4].parameters[3].name == "labels"@ && demo()[4].parameters[3].kind
            == ParamType::Array && !demo()[4].parameters[3].required,
        demo()[5].name == "github:create_pr"@ && demo()[5].category == Some("development"@),
        demo()[5].parameters.len() == 4,
        demo()[5].parameters[0].name == "repo"@ && demo()[5].parameters[0].kind
            == ParamType::Text && demo()[5].parameters[0].required,
        demo()[5].parameters[1].name == "title"@ && demo()[5].parameters[1].kind
            == ParamType::Text && demo()[5].parameters[1].required,
        demo()[5].parameters[2].name == "head"@ && demo()[5].parameters[2].kind
            == ParamType::Text && demo()[5].parameters[2].required,
        demo()[5].parameters[3].name == "base"@ && demo()[5].parameters[3].kind
            == ParamType::Text && demo()[5].parameters[3].required,
        demo()[6].name == "postgres:query"@ && demo()[6].category == Some("database"@),
        demo()[6].parameters.len() == 2,
        demo()[6].parameters[0].name == "query"@ && demo()[6].parameters[0].kind
            == ParamType::Text && demo()[6].parameters[0].required,
        demo()[6].parameters[1].name == "params"@ && demo()[6].parameters[1].kind
            == ParamType::Array && !demo()[6].parameters[1].required,
        demo()[7].name == "s3:upload"@ && demo()[7].category == Some("storage"@),
        demo()[7].parameters.len() == 3,
        demo()[7].parameters[0].name == "bucket"@ && demo()[7].parameters[0].kind
            == ParamType::Text && demo()[7].parameters[0].required,
        demo()[7].parameters[1].name == "key"@ && demo()[7].parameters[1].kind
            == ParamType::Text && demo()[7].parameters[1].required,
        demo()[7].parameters[2].name == "content"@ && demo()[7].parameters[2].kind
            == ParamType::Text && demo()[7].parameters[2].required,
        demo()[8].name == "slack:send_message"@ && demo()[8].category == Some("communication"@),
        demo()[8].parameters.len() == 2,
        demo()[8].parameters[0].name == "channel"@ && demo()[8].parameters[0].kind
            == ParamType::Text && demo()[8].parameters[0].required,
        demo()[8].parameters[1].name == "text"@ && demo()[8].parameters[1].kind
            == ParamType::Text && demo()[8].parameters[1].required,
        demo()[9].name == "openai:complete"@ && demo()[9].category == Some("ai"@),
        demo()[9].parameters.len() == 3,
        demo()[9].parameters[0].name == "prompt"@ && demo()[9].parameters[0].kind
            == ParamType::Text && demo()[9].parameters[0].required,
        demo()[9].parameters[1].name == "model"@ && demo()[9].parameters[1].kind
            == ParamType::Text && !demo()[9].parameters[1].required,
        demo()[9].parameters[2].name == "max_tokens"@ && demo()[9].parameters[2].kind
            == ParamType::Integer && !demo()[9].parameters[2].required,
{
}

} // verus!
