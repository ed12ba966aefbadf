use tool_bridge::mcp_error::McpError;
use tool_bridge::mcp_facade;
use tool_bridge::mcp_manager::{AcquireStep, McpManager};
use tool_bridge::mcp_models::MCPItem;

fn item(id: &str) -> MCPItem {
    MCPItem {
        id: id.to_string(),
        name: format!("srv-{id}"),
        command: "echo-tool".to_string(),
        args: Vec::new(),
        env: Vec::new(),
    }
}

#[test]
fn ping_echoes_value() {
    let req = tool_bridge::mcp_models::PingRequest { value: Some("hi".to_string()) };
    let resp = mcp_facade::ping(req);
    assert_eq!(resp.value, Some("hi".to_string()));
    let req2 = tool_bridge::mcp_models::PingRequest { value: None };
    assert_eq!(mcp_facade::ping(req2).value, None);
}

#[test]
fn list_snapshots_registered_ids() {
    let mut m = McpManager::new();
    assert!(mcp_facade::list(&m).is_empty());
    m.add_server(&item("a"));
    m.add_server(&item("b"));
    let mut ids = mcp_facade::list(&m);
    ids.sort();
    assert_eq!(ids, vec!["a".to_string(), "b".to_string()]);
}

#[test]
fn get_server_not_found_carries_id() {
    let m = McpManager::new();
    match m.get_server(&"ghost".to_string()) {
        Err(McpError::NotFound(s)) => assert_eq!(s, "ghost"),
        _ => panic!("expected NotFound"),
    }
}

#[test]
fn singleflight_second_acquire_awaits() {
    let mut m = McpManager::new();
    m.add_server(&item("s"));
    let id = "s".to_string();
    // the first miss starts the one handshake
    match m.begin_acquire(&id) {
        Ok(AcquireStep::StartHandshake(d)) => assert_eq!(d.command, "echo-tool"),
        _ => panic!("expected StartHandshake"),
    }
    // a concurrent caller that misses must await it, not spawn again
    assert!(matches!(m.begin_acquire(&id), Ok(AcquireStep::AwaitPending)));
    assert!(matches!(m.begin_acquire(&id), Ok(AcquireStep::AwaitPending)));
    // once resolved, everyone sees the same live connection
    let tok = mcp_facade::settle_acquire(&mut m, &id, mcp_facade::HandshakeOutcome::Connected)
        .unwrap();
    match m.begin_acquire(&id) {
        Ok(AcquireStep::Ready(t)) => assert_eq!(t, tok),
        _ => panic!("expected Ready"),
    }
    match m.begin_acquire(&id) {
        Ok(AcquireStep::Ready(t)) => assert_eq!(t, tok),
        _ => panic!("expected Ready"),
    }
}

#[test]
fn acquire_of_other_id_progresses_while_pending() {
    let mut m = McpManager::new();
    m.add_server(&item("slow"));
    m.add_server(&item("fast"));
    let slow = "slow".to_string();
    let fast = "fast".to_string();
    assert!(matches!(m.begin_acquire(&slow), Ok(AcquireStep::StartHandshake(_))));
    // the pending handshake for "slow" does not hold "fast" back
    assert!(matches!(m.begin_acquire(&fast), Ok(AcquireStep::StartHandshake(_))));
    let t_fast = mcp_facade::settle_acquire(&mut m, &fast, mcp_facade::HandshakeOutcome::Connected)
        .unwrap();
    assert!(matches!(m.begin_acquire(&fast), Ok(AcquireStep::Ready(t)) if t == t_fast));
    // "slow" is still pending, untouched
    assert!(matches!(m.begin_acquire(&slow), Ok(AcquireStep::AwaitPending)));
}

#[test]
fn remove_tears_down_and_readd_spawns_fresh() {
    let mut m = McpManager::new();
    m.add_server(&item("s"));
    let id = "s".to_string();
    assert!(matches!(m.begin_acquire(&id), Ok(AcquireStep::StartHandshake(_))));
    let tok = mcp_facade::settle_acquire(&mut m, &id, mcp_facade::HandshakeOutcome::Connected)
        .unwrap();
    let torn = mcp_facade::remove(&mut m, &vec!["s".to_string()]);
    assert_eq!(torn, vec![tok]);
    // without the descriptor, acquire fails
    match m.begin_acquire(&id) {
        Err(McpError::NotFound(s)) => assert_eq!(s, "s"),
        _ => panic!("expected NotFound"),
    }
    // re-added: a fresh spawn, not the old connection
    m.add_server(&item("s"));
    assert!(matches!(m.begin_acquire(&id), Ok(AcquireStep::StartHandshake(_))));
    let tok2 = mcp_facade::settle_acquire(&mut m, &id, mcp_facade::HandshakeOutcome::Connected)
        .unwrap();
    assert_ne!(tok, tok2);
}

#[test]
fn remove_of_absent_ids_is_silent() {
    let mut m = McpManager::new();
    m.add_server(&item("keep"));
    let torn = mcp_facade::remove(&mut m, &vec!["ghost".to_string(), "other".to_string()]);
    assert!(torn.is_empty());
    assert_eq!(mcp_facade::list(&m), vec!["keep".to_string()]);
}

#[test]
fn add_is_upsert_and_leaves_connection_alone() {
    let mut m = McpManager::new();
    let mut d = item("s");
    d.command = "first-cmd".to_string();
    m.add_server(&d);
    let id = "s".to_string();
    assert!(matches!(m.begin_acquire(&id), Ok(AcquireStep::StartHandshake(_))));
    let tok = mcp_facade::settle_acquire(&mut m, &id, mcp_facade::HandshakeOutcome::Connected)
        .unwrap();
    // overwrite the descriptor while the connection is live
    let mut d2 = item("s");
    d2.command = "second-cmd".to_string();
    m.add_server(&d2);
    let stored = m.get_server(&id).unwrap();
    assert_eq!(stored.command, "second-cmd");
    assert_eq!(mcp_facade::list(&m).len(), 1);
    // the cached connection is unaffected until the id is removed
    assert!(matches!(m.begin_acquire(&id), Ok(AcquireStep::Ready(t)) if t == tok));
}

#[test]
fn batch_add_applies_each_descriptor() {
    let mut m = McpManager::new();
    let items = vec![item("a"), item("b"), item("a")];
    mcp_facade::add(&mut m, &items);
    let mut ids = mcp_facade::list(&m);
    ids.sort();
    assert_eq!(ids, vec!["a".to_string(), "b".to_string()]);
}

#[test]
fn failed_spawn_surfaces_and_allows_retry() {
    let mut m = McpManager::new();
    m.add_server(&item("s"));
    let id = "s".to_string();
    assert!(matches!(m.begin_acquire(&id), Ok(AcquireStep::StartHandshake(_))));
    let r = mcp_facade::settle_acquire(
        &mut m,
        &id,
        mcp_facade::HandshakeOutcome::SpawnFailed("no such binary".to_string()),
    );
    match r {
        Err(McpError::SpawnError(d)) => assert_eq!(d, "no such binary"),
        _ => panic!("expected SpawnError"),
    }
    // nothing was cached: the next acquire retries from scratch
    assert!(matches!(m.begin_acquire(&id), Ok(AcquireStep::StartHandshake(_))));
}

#[test]
fn failed_handshake_surfaces_as_handshake_error() {
    let mut m = McpManager::new();
    m.add_server(&item("s"));
    let id = "s".to_string();
    assert!(matches!(m.begin_acquire(&id), Ok(AcquireStep::StartHandshake(_))));
    let r = mcp_facade::settle_acquire(
        &mut m,
        &id,
        mcp_facade::HandshakeOutcome::InitFailed("bad greeting".to_string()),
    );
    match r {
        Err(McpError::HandshakeError(d)) => assert_eq!(d, "bad greeting"),
        _ => panic!("expected HandshakeError"),
    }
}

#[test]
fn stale_handshake_outcome_is_discarded() {
    let mut m = McpManager::new();
    m.add_server(&item("s"));
    let id = "s".to_string();
    assert!(matches!(m.begin_acquire(&id), Ok(AcquireStep::StartHandshake(_))));
    // the id is removed while the handshake runs
    mcp_facade::remove(&mut m, &vec!["s".to_string()]);
    let r = mcp_facade::settle_acquire(&mut m, &id, mcp_facade::HandshakeOutcome::Connected);
    assert!(matches!(r, Err(McpError::NotFound(_))));
}

#[test]
fn error_detail_returns_carried_text() {
    let e = McpError::ExecutionError("boom".to_string());
    assert_eq!(e.detail(), "boom");
    let e2 = McpError::SerializationError("bad json".to_string());
    assert_eq!(e2.detail(), "bad json");
}
