use mcp_manager::manager::list_all_tools;
use mcp_manager::manager::McpConnectionManager;
use mcp_manager::manager::McpServerConfig;
use mcp_manager::manager::Tool;
use mcp_manager::manager::tool_call_error_context;
use mcp_manager::names::valid_name;
use mcp_manager::qualified::fully_qualified_tool_name;
use mcp_manager::qualified::try_parse_fully_qualified_tool_name;

fn cfg(command: &str) -> McpServerConfig {
    McpServerConfig { command: command.to_string(), args: Vec::new(), env: None }
}

fn tool(name: &str) -> Tool {
    Tool { name: name.to_string(), schema: "{\"type\":\"object\"}".to_string() }
}

#[test]
fn valid_name_accepts_and_rejects() {
    assert!(valid_name("srv"));
    assert!(valid_name("a-b_C9"));
    assert!(!valid_name(""));
    assert!(!valid_name("bad name"));
    assert!(!valid_name("bad tool!"));
    assert!(!valid_name("snake🐍"));
}

#[test]
fn encode_decode_round_trip() {
    let fq = fully_qualified_tool_name("srv", "echo");
    assert_eq!(fq, "srv__OAI_CODEX_MCP__echo");
    let parsed = try_parse_fully_qualified_tool_name(&fq);
    assert_eq!(parsed, Some(("srv".to_string(), "echo".to_string())));
}

#[test]
fn decode_rejects_missing_delimiter_and_empty_halves() {
    assert_eq!(try_parse_fully_qualified_tool_name("no-delimiter-here"), None);
    assert_eq!(try_parse_fully_qualified_tool_name("__OAI_CODEX_MCP__tool"), None);
    assert_eq!(try_parse_fully_qualified_tool_name("srv__OAI_CODEX_MCP__"), None);
    assert_eq!(try_parse_fully_qualified_tool_name(""), None);
}

#[test]
fn decode_splits_on_first_occurrence() {
    let parsed = try_parse_fully_qualified_tool_name("a__OAI_CODEX_MCP__b__OAI_CODEX_MCP__c");
    assert_eq!(parsed, Some(("a".to_string(), "b__OAI_CODEX_MCP__c".to_string())));
}

#[test]
fn reject_invalid_server_name() {
    let configured = vec![("bad name".to_string(), cfg("true"))];
    let outcomes: Vec<(String, Option<String>)> = Vec::new();
    let listings: Vec<(String, Vec<Tool>)> = Vec::new();
    let (mgr, errors) = McpConnectionManager::new(&configured, &outcomes, &listings).unwrap();
    assert!(mgr.list_all_tools().is_empty());
    assert!(errors.iter().any(|e| e.0 == "bad name"));
}

#[test]
fn invalid_tool_name_filtered() {
    let configured = vec![("srv".to_string(), cfg("node"))];
    let outcomes = vec![("srv".to_string(), None)];
    let listings = vec![("srv".to_string(), vec![tool("bad tool!")])];
    let (mgr, errors) = McpConnectionManager::new(&configured, &outcomes, &listings).unwrap();
    println!("errors: {:?}", errors);
    assert!(errors.is_empty());
    let tools = mgr.list_all_tools();
    assert!(tools.is_empty());
}

#[test]
#[should_panic]
fn duplicate_tool_name_panics() {
    let configured = vec![("srv".to_string(), cfg("node"))];
    let outcomes = vec![("srv".to_string(), None)];
    let listings = vec![("srv".to_string(), vec![tool("dup"), tool("dup")])];
    let (_mgr, errors) = McpConnectionManager::new(&configured, &outcomes, &listings).unwrap();
    println!("errors: {:?}", errors);
}

#[test]
fn invalid_tool_does_not_affect_others() {
    let listings = vec![
        ("one".to_string(), vec![tool("good"), tool("bad tool!"), tool("other")]),
        ("two".to_string(), vec![tool("good")]),
    ];
    let cat = list_all_tools(&listings).unwrap();
    let keys: Vec<&str> = cat.iter().map(|p| p.0.as_str()).collect();
    assert_eq!(
        keys,
        vec![
            "one__OAI_CODEX_MCP__good",
            "one__OAI_CODEX_MCP__other",
            "two__OAI_CODEX_MCP__good",
        ]
    );
}

#[test]
fn same_tool_name_on_two_servers_is_no_collision() {
    let listings = vec![
        ("alpha".to_string(), vec![tool("echo")]),
        ("beta".to_string(), vec![tool("echo")]),
    ];
    let cat = list_all_tools(&listings).unwrap();
    assert_eq!(cat.len(), 2);
    assert_ne!(cat[0].0, cat[1].0);
}

#[test]
fn collision_reports_offending_key() {
    let listings = vec![("srv".to_string(), vec![tool("dup"), tool("dup")])];
    let err = list_all_tools(&listings).unwrap_err();
    assert_eq!(err, "srv__OAI_CODEX_MCP__dup");
}

#[test]
fn startup_partition_good_and_bad_name() {
    let configured = vec![
        ("good".to_string(), cfg("node")),
        ("bad name".to_string(), cfg("true")),
    ];
    let outcomes = vec![("good".to_string(), None)];
    let listings = vec![("good".to_string(), vec![tool("echo")])];
    let (mgr, errors) = McpConnectionManager::new(&configured, &outcomes, &listings).unwrap();
    let tools = mgr.list_all_tools();
    assert!(tools.iter().any(|p| p.0 == "good__OAI_CODEX_MCP__echo"));
    assert_eq!(errors.len(), 1);
    assert_eq!(errors[0].0, "bad name");
    assert_eq!(
        errors[0].1,
        "invalid server name; must match ^[a-zA-Z0-9_-]+$"
    );
}

#[test]
fn handshake_timeout_lands_in_error_map() {
    let configured = vec![("slow".to_string(), cfg("node"))];
    let outcomes = vec![(
        "slow".to_string(),
        Some("handshake timed out after 10s".to_string()),
    )];
    let listings: Vec<(String, Vec<Tool>)> = Vec::new();
    let (mgr, errors) = McpConnectionManager::new(&configured, &outcomes, &listings).unwrap();
    assert!(mgr.list_all_tools().is_empty());
    assert!(mgr.clients.is_empty());
    assert_eq!(errors.len(), 1);
    assert_eq!(errors[0].0, "slow");
    assert_eq!(errors[0].1, "handshake timed out after 10s");
}

#[test]
fn call_tool_unknown_server_is_lookup_error() {
    let configured = vec![("alpha".to_string(), cfg("node"))];
    let outcomes = vec![("alpha".to_string(), None)];
    let listings = vec![("alpha".to_string(), vec![tool("echo")])];
    let (mgr, _errors) = McpConnectionManager::new(&configured, &outcomes, &listings).unwrap();
    let err = mgr.call_tool("missing", "echo").unwrap_err();
    assert_eq!(err, "unknown MCP server 'missing'");
    assert_eq!(mgr.call_tool("alpha", "echo").unwrap(), 0);
}

#[test]
fn empty_configuration_trivially_succeeds() {
    let configured: Vec<(String, McpServerConfig)> = Vec::new();
    let outcomes: Vec<(String, Option<String>)> = Vec::new();
    let listings: Vec<(String, Vec<Tool>)> = Vec::new();
    let (mgr, errors) = McpConnectionManager::new(&configured, &outcomes, &listings).unwrap();
    assert!(mgr.clients.is_empty());
    assert!(mgr.list_all_tools().is_empty());
    assert!(errors.is_empty());
}

#[test]
fn ready_and_error_sets_partition_the_configuration() {
    let configured = vec![
        ("ready1".to_string(), cfg("node")),
        ("bad name".to_string(), cfg("true")),
        ("broken".to_string(), cfg("nonexistent-binary")),
        ("ready2".to_string(), cfg("node")),
    ];
    let outcomes = vec![
        ("ready1".to_string(), None),
        ("broken".to_string(), Some("spawn failed".to_string())),
        ("ready2".to_string(), None),
    ];
    let listings = vec![
        ("ready1".to_string(), Vec::new()),
        ("ready2".to_string(), Vec::new()),
    ];
    let (mgr, errors) = McpConnectionManager::new(&configured, &outcomes, &listings).unwrap();
    let mut seen: Vec<String> = mgr.clients.clone();
    seen.extend(errors.iter().map(|e| e.0.clone()));
    seen.sort();
    let mut expected: Vec<String> =
        configured.iter().map(|c| c.0.clone()).collect();
    expected.sort();
    assert_eq!(seen, expected);
    for name in &mgr.clients {
        assert!(!errors.iter().any(|e| &e.0 == name));
    }
}

#[test]
fn call_failure_context_names_server_and_tool() {
    let msg = tool_call_error_context("srv", "echo", "timed out");
    assert_eq!(msg, "tool call failed for `srv/echo`: timed out");
}
