//! The request facade: one entry point per caller intent.
//!
//! `ping`, `list`, `add` and `remove` complete against the manager alone.
//! The two connection-dependent operations are split into verified steps:
//! the surrounding runtime performs the spawn, handshake and wire calls,
//! and reports each outcome back into a step function here, which makes
//! every decision.

use vstd::prelude::*;

use crate::mcp_error::McpError;
use crate::mcp_json::{extract_arguments, extract_tool_name, json_has_arguments_object, json_tool_name};
use crate::mcp_manager::{
    acquire_awaits, acquire_hits, acquire_not_found, acquire_starts_handshake, spec_add,
    spec_begin_acquire, spec_finish_acquire, spec_remove_ids, torn_token, AcquireStep, ConnState,
    ManagerModel, McpManager,
};
use crate::mcp_models::{MCPItem, PingRequest, PingResponse, ServerModel};

verus! {

/// Echoes the caller's value.
pub fn ping(req: PingRequest) -> (r: PingResponse)
    ensures
        r.value == req.value,
{
    PingResponse { value: req.value }
}

/// The ids of all registered servers: every registered id exactly once.
pub fn list(m: &McpManager) -> (r: Vec<String>)
    requires
        m.wf(),
    ensures
        forall|k: Seq<char>| #[trigger] m@.registry.contains_key(k) <==> r.deep_view().contains(k),
        forall|i: int, j: int| 0 <= i < j < r@.len() ==> r@[i]@ != r@[j]@,
{
    m.list_servers()
}

/// Registering each listed descriptor in turn, later entries overriding
/// earlier ones with the same id.
pub open spec fn spec_add_all(m: ManagerModel, items: Seq<ServerModel>) -> ManagerModel
    decreases items.len(),
{
    if items.len() == 0 {
        m
    } else {
        spec_add(spec_add_all(m, items.drop_last()), items.last())
    }
}

/// Stores every listed descriptor, each applied independently as an upsert
/// for its id. No live connection is touched: a cached connection for an
/// overwritten id keeps serving until the id is explicitly removed.
pub fn add(m: &mut McpManager, items: &Vec<MCPItem>)
    requires
        old(m).wf(),
    ensures
        final(m).wf(),
        final(m)@ == spec_add_all(old(m)@, items@.map_values(|it: MCPItem| it@)),
{
    let ghost iview = items@.map_values(|it: MCPItem| it@);
    let mut j: usize = 0;
    while j < items.len()
        invariant
            m.wf(),
            j <= items@.len(),
            iview == items@.map_values(|it: MCPItem| it@),
            m@ == spec_add_all(old(m)@, iview.take(j as int)),
        decreases items@.len() - j,
    {
        proof {
            assert(iview.take(j as int + 1).drop_last() =~= iview.take(j as int));
            assert(iview.take(j as int + 1).last() == items@[j as int]@);
        }
        m.add_server(&items[j]);
        j = j + 1;
    }
    proof {
        assert(iview.take(items@.len() as int) =~= iview);
    }
}

/// Removes each listed id from the registry and tears down its cached
/// connection; absent ids are silently ignored. Returns the tokens of the
/// torn-down live connections, for the caller to cancel.
pub fn remove(m: &mut McpManager, ids: &Vec<String>) -> (torn: Vec<u64>)
    requires
        old(m).wf(),
    ensures
        final(m).wf(),
        final(m)@ == spec_remove_ids(old(m)@, ids.deep_view()),
        forall|t: u64| #[trigger] torn@.contains(t) <==> torn_token(old(m)@, ids.deep_view(), t),
{
    m.remove_servers(ids)
}

/// A request envelope is valid when it names a tool and the name is not
/// empty.
pub open spec fn valid_tool_request(v: serde_json::Value) -> bool {
    match json_tool_name(v) {
        Some(n) => n.len() > 0,
        None => false,
    }
}

/// A validated tool invocation, ready to send on a live connection.
pub struct PreparedCall {
    pub name: String,
    pub arguments: Option<serde_json::Value>,
}

/// Validates a tool-call request and takes one acquire step for its target.
///
/// An envelope without a non-empty tool name is rejected with
/// `InvalidInput` before any connection work: the manager is left exactly
/// as it was. A valid envelope yields the prepared call and the acquire
/// step for `id`, or `NotFound` if the id is unregistered.
pub fn plan_execute_tool_call(
    m: &mut McpManager,
    id: &String,
    input: &serde_json::Value,
) -> (r: Result<(PreparedCall, AcquireStep), McpError>)
    requires
        old(m).wf(),
    ensures
        final(m).wf(),
        !valid_tool_request(*input) ==> final(m)@ == old(m)@ && match r {
            Err(McpError::InvalidInput(s)) => s@ == "Missing tool name"@,
            _ => false,
        },
        valid_tool_request(*input) ==> final(m)@ == spec_begin_acquire(old(m)@, id@) && match r {
            Ok((p, step)) => json_tool_name(*input) == Some(p.name@) && (p.arguments is Some
                <==> json_has_arguments_object(*input)) && match step {
                AcquireStep::Ready(t) => acquire_hits(old(m)@, id@) && old(m)@.connections[id@]
                    == ConnState::Ready(t),
                AcquireStep::AwaitPending => acquire_awaits(old(m)@, id@),
                AcquireStep::StartHandshake(d) => acquire_starts_handshake(old(m)@, id@) && d@
                    == old(m)@.registry[id@],
            },
            Err(McpError::NotFound(s)) => acquire_not_found(old(m)@, id@) && s@ == id@,
            Err(_) => false,
        },
{
    let name = match extract_tool_name(input) {
        Some(n) => n,
        None => {
            return Err(McpError::InvalidInput(String::from_str("Missing tool name")));
        },
    };
    if name.as_str().is_empty() {
        return Err(McpError::InvalidInput(String::from_str("Missing tool name")));
    }
    let arguments = extract_arguments(input);
    match m.begin_acquire(id) {
        Ok(step) => Ok((PreparedCall { name, arguments }, step)),
        Err(e) => Err(e),
    }
}

/// How the spawn-and-handshake step that the caller performed came out.
pub enum HandshakeOutcome {
    /// The process is up and protocol initialization succeeded.
    Connected,
    /// The process could not be started.
    SpawnFailed(String),
    /// The process started but initialization failed.
    InitFailed(String),
}

/// Reports a handshake outcome back into the pool.
///
/// On success the slot becomes a live connection and its fresh token is
/// returned; if the slot disappeared while the handshake ran (the id was
/// removed), the outcome is discarded and the caller is told `NotFound`,
/// so it cancels the connection it built. On failure the slot is cleared
/// and the error is surfaced as `SpawnError` or `HandshakeError`; nothing
/// is cached, so callers awaiting this id find the slot gone and the next
/// acquire retries from scratch.
pub fn settle_acquire(m: &mut McpManager, id: &String, outcome: HandshakeOutcome) -> (r: Result<
    u64,
    McpError,
>)
    requires
        old(m).wf(),
        old(m)@.next_token < u64::MAX,
    ensures
        final(m).wf(),
        match outcome {
            HandshakeOutcome::Connected => final(m)@ == spec_finish_acquire(old(m)@, id@, true)
                && (if acquire_awaits(old(m)@, id@) {
                r == Ok::<u64, McpError>(old(m)@.next_token)
            } else {
                match r {
                    Err(McpError::NotFound(s)) => s@ == id@,
                    _ => false,
                }
            }),
            HandshakeOutcome::SpawnFailed(d) => final(m)@ == spec_finish_acquire(
                old(m)@,
                id@,
                false,
            ) && match r {
                Err(McpError::SpawnError(d2)) => d2 == d,
                _ => false,
            },
            HandshakeOutcome::InitFailed(d) => final(m)@ == spec_finish_acquire(
                old(m)@,
                id@,
                false,
            ) && match r {
                Err(McpError::HandshakeError(d2)) => d2 == d,
                _ => false,
            },
        },
{
    match outcome {
        HandshakeOutcome::Connected => match m.finish_acquire(id, true) {
            Some(t) => Ok(t),
            None => Err(McpError::NotFound(id.clone())),
        },
        HandshakeOutcome::SpawnFailed(d) => {
            let _ = m.finish_acquire(id, false);
            Err(McpError::SpawnError(d))
        },
        HandshakeOutcome::InitFailed(d) => {
            let _ = m.finish_acquire(id, false);
            Err(McpError::HandshakeError(d))
        },
    }
}

/// How the wire call that the caller performed on the live connection came
/// out.
pub enum ToolCallOutcome {
    /// The provider answered; this is its structured result.
    Completed(serde_json::Value),
    /// The call itself failed on the wire or provider side.
    CallFailed(String),
    /// The provider answered but the result could not be converted to its
    /// structured form.
    EncodeFailed(String),
}

/// Translates a wire-call outcome into the facade's result: the structured
/// value on success, `ExecutionError` for a failed call, and
/// `SerializationError` for a result that would not convert.
pub fn interpret_call_outcome(outcome: ToolCallOutcome) -> (r: Result<serde_json::Value, McpError>)
    ensures
        match outcome {
            ToolCallOutcome::Completed(v) => r == Ok::<serde_json::Value, McpError>(v),
            ToolCallOutcome::CallFailed(d) => match r {
                Err(McpError::ExecutionError(d2)) => d2 == d,
                _ => false,
            },
            ToolCallOutcome::EncodeFailed(d) => match r {
                Err(McpError::SerializationError(d2)) => d2 == d,
                _ => false,
            },
        },
{
    match outcome {
        ToolCallOutcome::Completed(v) => Ok(v),
        ToolCallOutcome::CallFailed(d) => Err(McpError::ExecutionError(d)),
        ToolCallOutcome::EncodeFailed(d) => Err(McpError::SerializationError(d)),
    }
}

} // verus!
