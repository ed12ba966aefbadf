use tool_bridge::mcp_bridge::{aggregate_tool_calls, DiscoveredTool, DiscoveryOutcome};
use tool_bridge::mcp_error::McpError;
use tool_bridge::mcp_facade;
use tool_bridge::mcp_facade::ToolCallOutcome;
use tool_bridge::mcp_manager::{AcquireStep, McpManager};
use tool_bridge::mcp_models::{MCPItem, McpServerInstance};

fn json(text: &str) -> serde_json::Value {
    serde_json::from_str(text).unwrap()
}

fn server(id: &str, name: &str) -> McpServerInstance {
    McpServerInstance {
        id: id.to_string(),
        name: name.to_string(),
        command: "cmd".to_string(),
        args: Vec::new(),
        env: Vec::new(),
    }
}

fn empty_object() -> serde_json::Value {
    json("{}")
}

fn placeholder_schema() -> serde_json::Value {
    json("{\"type\":\"object\",\"properties\":{}}")
}

#[test]
fn failing_provider_degrades_to_one_placeholder() {
    let servers = vec![server("x", "serverx"), server("y", "servery")];
    let outcomes = vec![
        DiscoveryOutcome::Failed,
        DiscoveryOutcome::Found(vec![
            DiscoveredTool {
                name: "sum".to_string(),
                description: Some("adds".to_string()),
                input_schema: json("{\"type\":\"object\"}"),
            },
            DiscoveredTool {
                name: "mean".to_string(),
                description: None,
                input_schema: json("{}"),
            },
        ]),
    ];
    let calls = aggregate_tool_calls(&servers, &outcomes, &placeholder_schema(), &empty_object());
    assert_eq!(calls.len(), 3);
    // exactly one placeholder for x, first in server order
    assert_eq!(calls[0].id, "x");
    assert_eq!(calls[0].name, "serverx_tool");
    assert_eq!(calls[0].description, "Tool from MCP server: serverx");
    assert_eq!(calls[0].parameters, placeholder_schema());
    assert!(calls[0].required.is_empty());
    assert_eq!(calls[0].request_body, empty_object());
    // y's real tools are all there
    assert_eq!(calls[1].id, "y");
    assert_eq!(calls[1].name, "sum");
    assert_eq!(calls[1].description, "adds");
    assert_eq!(calls[1].parameters, json("{\"type\":\"object\"}"));
    assert_eq!(calls[2].id, "y");
    assert_eq!(calls[2].name, "mean");
    assert_eq!(calls[2].description, "");
    let placeholders = calls.iter().filter(|c| c.name == "serverx_tool").count();
    assert_eq!(placeholders, 1);
}

#[test]
fn aggregate_of_no_servers_is_empty() {
    let calls = aggregate_tool_calls(&Vec::new(), &Vec::new(), &placeholder_schema(), &empty_object());
    assert!(calls.is_empty());
}

#[test]
fn provider_with_no_tools_contributes_nothing() {
    let servers = vec![server("a", "sa")];
    let outcomes = vec![DiscoveryOutcome::Found(Vec::new())];
    let calls = aggregate_tool_calls(&servers, &outcomes, &placeholder_schema(), &empty_object());
    assert!(calls.is_empty());
}

#[test]
fn missing_tool_name_rejected_before_any_acquire() {
    let mut m = McpManager::new();
    // the id is not even registered: pre-flight validation must win
    let r = mcp_facade::plan_execute_tool_call(&mut m, &"ghost".to_string(), &json("{}"));
    match r {
        Err(McpError::InvalidInput(d)) => assert_eq!(d, "Missing tool name"),
        _ => panic!("expected InvalidInput"),
    }
    // a non-string name field is missing too
    let r2 = mcp_facade::plan_execute_tool_call(
        &mut m,
        &"ghost".to_string(),
        &json("{\"name\":7}"),
    );
    assert!(matches!(r2, Err(McpError::InvalidInput(_))));
    // an empty name is rejected as well
    let r3 = mcp_facade::plan_execute_tool_call(
        &mut m,
        &"ghost".to_string(),
        &json("{\"name\":\"\"}"),
    );
    assert!(matches!(r3, Err(McpError::InvalidInput(_))));
}

#[test]
fn valid_call_for_unknown_id_is_not_found() {
    let mut m = McpManager::new();
    let r = mcp_facade::plan_execute_tool_call(
        &mut m,
        &"ghost".to_string(),
        &json("{\"name\":\"sum\"}"),
    );
    match r {
        Err(McpError::NotFound(s)) => assert_eq!(s, "ghost"),
        _ => panic!("expected NotFound"),
    }
}

#[test]
fn prepared_call_extracts_name_and_arguments() {
    let mut m = McpManager::new();
    mcp_facade::add(
        &mut m,
        &vec![MCPItem {
            id: "s1".to_string(),
            name: "one".to_string(),
            command: "cmd".to_string(),
            args: Vec::new(),
            env: Vec::new(),
        }],
    );
    let input = json("{\"name\":\"sum\",\"arguments\":{\"a\":2,\"b\":3}}");
    let (prep, step) =
        mcp_facade::plan_execute_tool_call(&mut m, &"s1".to_string(), &input).unwrap();
    assert_eq!(prep.name, "sum");
    let args = prep.arguments.expect("arguments object present");
    assert_eq!(args, json("{\"a\":2,\"b\":3}"));
    assert!(matches!(step, AcquireStep::StartHandshake(_)));
    // without an arguments object, none is prepared
    let input2 = json("{\"name\":\"sum\",\"arguments\":4}");
    assert!(matches!(m.begin_acquire(&"s1".to_string()), Ok(AcquireStep::AwaitPending)));
    let (prep2, _) =
        mcp_facade::plan_execute_tool_call(&mut m, &"s1".to_string(), &input2).unwrap();
    assert!(prep2.arguments.is_none());
}

#[test]
fn call_outcomes_map_to_the_error_taxonomy() {
    match mcp_facade::interpret_call_outcome(ToolCallOutcome::Completed(json("{\"v\":5}"))) {
        Ok(v) => assert_eq!(v, json("{\"v\":5}")),
        _ => panic!("expected Ok"),
    }
    match mcp_facade::interpret_call_outcome(ToolCallOutcome::CallFailed("down".to_string())) {
        Err(McpError::ExecutionError(d)) => assert_eq!(d, "down"),
        _ => panic!("expected ExecutionError"),
    }
    match mcp_facade::interpret_call_outcome(ToolCallOutcome::EncodeFailed("cyclic".to_string())) {
        Err(McpError::SerializationError(d)) => assert_eq!(d, "cyclic"),
        _ => panic!("expected SerializationError"),
    }
}

#[test]
fn full_scenario_register_call_remove() {
    let mut m = McpManager::new();
    mcp_facade::add(
        &mut m,
        &vec![MCPItem {
            id: "s1".to_string(),
            name: "stub".to_string(),
            command: "echo-tool".to_string(),
            args: Vec::new(),
            env: Vec::new(),
        }],
    );
    assert_eq!(mcp_facade::list(&m), vec!["s1".to_string()]);

    // execute {name:"sum", arguments:{a:2,b:3}} against s1
    let input = json("{\"name\":\"sum\",\"arguments\":{\"a\":2,\"b\":3}}");
    let (prep, step) =
        mcp_facade::plan_execute_tool_call(&mut m, &"s1".to_string(), &input).unwrap();
    assert_eq!(prep.name, "sum");
    let d = match step {
        AcquireStep::StartHandshake(d) => d,
        _ => panic!("expected a fresh spawn"),
    };
    assert_eq!(d.command, "echo-tool");
    let tok = mcp_facade::settle_acquire(&mut m, &"s1".to_string(), mcp_facade::HandshakeOutcome::Connected)
        .unwrap();
    assert!(matches!(m.begin_acquire(&"s1".to_string()), Ok(AcquireStep::Ready(t)) if t == tok));
    // the stub tool answers 2 + 3
    let result =
        mcp_facade::interpret_call_outcome(ToolCallOutcome::Completed(json("{\"result\":5}")))
            .unwrap();
    assert_eq!(result.get("result").and_then(|v| v.as_i64()), Some(5));

    // remove s1 and watch everything fail with NotFound
    let torn = mcp_facade::remove(&mut m, &vec!["s1".to_string()]);
    assert_eq!(torn, vec![tok]);
    assert!(mcp_facade::list(&m).is_empty());
    let r = mcp_facade::plan_execute_tool_call(&mut m, &"s1".to_string(), &input);
    assert!(matches!(r, Err(McpError::NotFound(_))));
}
