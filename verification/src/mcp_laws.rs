//! The manager's guarantees, stated and proved over its spec-level model.
//!
//! Each law is phrased over the transition functions that the executable
//! operations are proved to implement, so it holds of every run of the
//! manager, whatever order concurrent callers take their steps in.

use vstd::prelude::*;

use crate::mcp_bridge::{
    spec_aggregate, spec_placeholder_call, spec_segment, spec_tool_call, OutcomeModel, ToolModel,
};
use crate::mcp_manager::{
    acquire_awaits, acquire_hits, acquire_not_found, acquire_starts_handshake,
    lemma_spec_remove_ids_effect, lemma_wf_model_inv, spec_add, spec_begin_acquire,
    spec_finish_acquire, spec_remove_ids, ConnState, ManagerModel, McpManager,
};
use crate::mcp_models::{CallModel, ServerModel};

verus! {

/// At-most-one-connection: the acquire that starts the one handshake for an
/// id leaves a pending marker behind, so as long as the handshake is
/// unresolved, every further acquire of that id awaits the same handshake —
/// none can start a second one or observe a second connection.
pub proof fn lemma_acquire_singleflight(m: ManagerModel, id: Seq<char>)
    requires
        acquire_starts_handshake(m, id),
    ensures
        acquire_awaits(spec_begin_acquire(m, id), id),
        !acquire_starts_handshake(spec_begin_acquire(m, id), id),
        !acquire_hits(spec_begin_acquire(m, id), id),
{
}

/// A successful handshake serves every awaiting caller the same live
/// connection: the slot becomes ready under one token, and from then on an
/// acquire of the id hits exactly that token.
pub proof fn lemma_handshake_success_shared(m: ManagerModel, id: Seq<char>)
    requires
        acquire_awaits(m, id),
    ensures
        acquire_hits(spec_finish_acquire(m, id, true), id),
        spec_finish_acquire(m, id, true).connections[id] == ConnState::Ready(m.next_token),
{
}

/// A failed handshake caches nothing: the slot is cleared, and while the
/// descriptor stays registered, the next acquire retries from scratch with
/// a fresh spawn.
pub proof fn lemma_handshake_failure_retries(m: ManagerModel, id: Seq<char>)
    requires
        acquire_awaits(m, id),
    ensures
        !spec_finish_acquire(m, id, false).connections.contains_key(id),
        m.registry.contains_key(id) ==> acquire_starts_handshake(
            spec_finish_acquire(m, id, false),
            id,
        ),
{
}

/// Independent-id-progress: an acquire step for one id changes nothing that
/// an acquire of a different id observes, and the two steps commute — so a
/// slow handshake for one id cannot delay another id's acquire.
pub proof fn lemma_acquire_independent(m: ManagerModel, a: Seq<char>, b: Seq<char>)
    requires
        a != b,
    ensures
        acquire_hits(spec_begin_acquire(m, a), b) == acquire_hits(m, b),
        acquire_awaits(spec_begin_acquire(m, a), b) == acquire_awaits(m, b),
        acquire_starts_handshake(spec_begin_acquire(m, a), b) == acquire_starts_handshake(m, b),
        acquire_not_found(spec_begin_acquire(m, a), b) == acquire_not_found(m, b),
        spec_begin_acquire(spec_begin_acquire(m, a), b) == spec_begin_acquire(
            spec_begin_acquire(m, b),
            a,
        ),
{
    let mab = spec_begin_acquire(spec_begin_acquire(m, a), b);
    let mba = spec_begin_acquire(spec_begin_acquire(m, b), a);
    assert(mab.connections =~= mba.connections);
    assert(mab =~= mba);
}

/// Resolving one id's handshake leaves every other id's slot untouched.
pub proof fn lemma_finish_independent(m: ManagerModel, a: Seq<char>, b: Seq<char>, ok: bool)
    requires
        a != b,
    ensures
        spec_finish_acquire(m, a, ok).connections.contains_key(b) == m.connections.contains_key(b),
        m.connections.contains_key(b) ==> spec_finish_acquire(m, a, ok).connections[b]
            == m.connections[b],
{
}

/// Remove-tears-down: after a removal that covers an id, an acquire of that
/// id finds neither a connection nor a descriptor, so it fails with
/// `NotFound` until the descriptor is added again.
pub proof fn lemma_remove_tears_down(m: ManagerModel, ids: Seq<Seq<char>>, id: Seq<char>)
    requires
        ids.contains(id),
    ensures
        acquire_not_found(spec_remove_ids(m, ids), id),
{
    lemma_spec_remove_ids_effect(m, ids);
}

/// Re-adding a removed id performs a fresh spawn: the next acquire starts a
/// handshake rather than returning the old connection, and the token the
/// new handshake would issue differs from every token any connection held
/// before the removal.
pub proof fn lemma_readd_spawns_fresh(m: ManagerModel, ids: Seq<Seq<char>>, d: ServerModel)
    requires
        m.inv(),
        ids.contains(d.id),
    ensures
        acquire_starts_handshake(spec_add(spec_remove_ids(m, ids), d), d.id),
        spec_add(spec_remove_ids(m, ids), d).next_token == m.next_token,
        forall|k: Seq<char>| #[trigger]
            m.connections.contains_key(k) ==> match m.connections[k] {
                ConnState::Ready(t) => t != m.next_token,
                ConnState::Pending => true,
            },
{
    lemma_spec_remove_ids_effect(m, ids);
}

/// The freshness guarantee holds of every well-formed manager: its model
/// satisfies the token invariant, so after removing an id and adding its
/// descriptor back, the next acquire starts a fresh handshake, and the
/// token that handshake would issue differs from every token a connection
/// held before.
pub proof fn lemma_manager_readd_spawns_fresh(m: McpManager, ids: Seq<Seq<char>>, d: ServerModel)
    requires
        m.wf(),
        ids.contains(d.id),
    ensures
        acquire_starts_handshake(spec_add(spec_remove_ids(m@, ids), d), d.id),
        forall|k: Seq<char>| #[trigger]
            m@.connections.contains_key(k) ==> match m@.connections[k] {
                ConnState::Ready(t) => t != spec_add(spec_remove_ids(m@, ids), d).next_token,
                ConnState::Pending => true,
            },
{
    lemma_wf_model_inv(m);
    lemma_readd_spawns_fresh(m@, ids, d);
    lemma_spec_remove_ids_effect(m@, ids);
}

/// Add-is-upsert: adding a second descriptor under the same id replaces the
/// stored descriptor; every other registry entry, every cached connection
/// and the token counter are untouched.
pub proof fn lemma_add_is_upsert(m: ManagerModel, d1: ServerModel, d2: ServerModel)
    requires
        d1.id == d2.id,
    ensures
        spec_add(spec_add(m, d1), d2).registry.contains_key(d1.id),
        spec_add(spec_add(m, d1), d2).registry[d1.id] == d2,
        forall|k: Seq<char>|
            k != d1.id ==> (#[trigger] spec_add(spec_add(m, d1), d2).registry.contains_key(k)
                == m.registry.contains_key(k)),
        forall|k: Seq<char>|
            k != d1.id && #[trigger] m.registry.contains_key(k) ==> spec_add(
                spec_add(m, d1),
                d2,
            ).registry[k] == m.registry[k],
        spec_add(spec_add(m, d1), d2).connections == m.connections,
        spec_add(spec_add(m, d1), d2).next_token == m.next_token,
{
}

/// How many entries of a listing equal `c`.
pub open spec fn count_matching(s: Seq<CallModel>, c: CallModel) -> nat
    decreases s.len(),
{
    if s.len() == 0 {
        0
    } else {
        count_matching(s.drop_last(), c) + if s.last() == c {
            1nat
        } else {
            0nat
        }
    }
}

proof fn lemma_count_matching_add(a: Seq<CallModel>, b: Seq<CallModel>, c: CallModel)
    ensures
        count_matching(a + b, c) == count_matching(a, c) + count_matching(b, c),
    decreases b.len(),
{
    if b.len() == 0 {
        assert(a + b =~= a);
    } else {
        assert((a + b).drop_last() =~= a + b.drop_last());
        assert((a + b).last() == b.last());
        lemma_count_matching_add(a, b.drop_last(), c);
    }
}

proof fn lemma_count_matching_zero(s: Seq<CallModel>, c: CallModel)
    requires
        forall|i: int| 0 <= i < s.len() ==> (#[trigger] s[i]).id != c.id,
    ensures
        count_matching(s, c) == 0,
    decreases s.len(),
{
    if s.len() > 0 {
        assert(s.last() == s[s.len() - 1]);
        assert forall|i: int| 0 <= i < s.drop_last().len() implies (#[trigger] s.drop_last()[i]).id
            != c.id by {
            assert(s[i].id != c.id);
        }
        lemma_count_matching_zero(s.drop_last(), c);
    }
}

proof fn lemma_contains_step(a: Seq<CallModel>, b: Seq<CallModel>, c: CallModel)
    requires
        a.contains(c) || b.contains(c),
    ensures
        (a + b).contains(c),
{
    if a.contains(c) {
        let i = choose|i: int| 0 <= i < a.len() && a[i] == c;
        assert((a + b)[i] == c);
    } else {
        let i = choose|i: int| 0 <= i < b.len() && b[i] == c;
        assert((a + b)[a.len() + i] == c);
    }
}

proof fn lemma_aggregate_contains_segment(
    servers: Seq<ServerModel>,
    outcomes: Seq<OutcomeModel>,
    i: int,
    c: CallModel,
    schema: serde_json::Value,
    empty_body: serde_json::Value,
)
    requires
        servers.len() == outcomes.len(),
        0 <= i < servers.len(),
        spec_segment(servers[i], outcomes[i], schema, empty_body).contains(c),
    ensures
        spec_aggregate(servers, outcomes, schema, empty_body).contains(c),
    decreases servers.len(),
{
    if i == servers.len() - 1 {
        lemma_contains_step(
            spec_aggregate(servers.drop_last(), outcomes.drop_last(), schema, empty_body),
            spec_segment(servers[i], outcomes[i], schema, empty_body),
            c,
        );
    } else {
        assert(servers.drop_last()[i] == servers[i]);
        assert(outcomes.drop_last()[i] == outcomes[i]);
        lemma_aggregate_contains_segment(
            servers.drop_last(),
            outcomes.drop_last(),
            i,
            c,
            schema,
            empty_body,
        );
        lemma_contains_step(
            spec_aggregate(servers.drop_last(), outcomes.drop_last(), schema, empty_body),
            spec_segment(servers.last(), outcomes.last(), schema, empty_body),
            c,
        );
    }
}

proof fn lemma_segment_ids(
    server: ServerModel,
    outcome: OutcomeModel,
    schema: serde_json::Value,
    empty_body: serde_json::Value,
)
    ensures
        forall|i: int|
            0 <= i < spec_segment(server, outcome, schema, empty_body).len() ==> (
            #[trigger] spec_segment(server, outcome, schema, empty_body)[i]).id == server.id,
{
}

proof fn lemma_aggregate_placeholder_count(
    servers: Seq<ServerModel>,
    outcomes: Seq<OutcomeModel>,
    x: int,
    schema: serde_json::Value,
    empty_body: serde_json::Value,
)
    requires
        servers.len() == outcomes.len(),
        0 <= x < servers.len(),
        outcomes[x] is Failed,
        forall|i: int, j: int|
            0 <= i < j < servers.len() ==> (#[trigger] servers[i]).id != (#[trigger] servers[j]).id,
    ensures
        count_matching(
            spec_aggregate(servers, outcomes, schema, empty_body),
            spec_placeholder_call(servers[x], schema, empty_body),
        ) == 1,
    decreases servers.len(),
{
    let ph = spec_placeholder_call(servers[x], schema, empty_body);
    let rest = spec_aggregate(servers.drop_last(), outcomes.drop_last(), schema, empty_body);
    let seg = spec_segment(servers.last(), outcomes.last(), schema, empty_body);
    lemma_count_matching_add(rest, seg, ph);
    if x == servers.len() - 1 {
        // the last segment is exactly one placeholder for x; every earlier
        // segment carries another server's id
        assert(seg =~= seq![ph]);
        assert(seg.drop_last() =~= Seq::<CallModel>::empty());
        assert(count_matching(Seq::<CallModel>::empty(), ph) == 0);
        assert(seg.len() == 1 && seg.last() == ph);
        assert(count_matching(seg, ph) == 1);
        lemma_aggregate_other_ids(servers.drop_last(), outcomes.drop_last(), ph, schema, empty_body);
        lemma_count_matching_zero(rest, ph);
    } else {
        assert(servers.drop_last()[x] == servers[x]);
        assert(outcomes.drop_last()[x] == outcomes[x]);
        lemma_aggregate_placeholder_count(
            servers.drop_last(),
            outcomes.drop_last(),
            x,
            schema,
            empty_body,
        );
        lemma_segment_ids(servers.last(), outcomes.last(), schema, empty_body);
        assert(servers.last().id != servers[x].id);
        assert forall|i: int| 0 <= i < seg.len() implies (#[trigger] seg[i]).id != ph.id by {}
        lemma_count_matching_zero(seg, ph);
    }
}

proof fn lemma_aggregate_other_ids(
    servers: Seq<ServerModel>,
    outcomes: Seq<OutcomeModel>,
    c: CallModel,
    schema: serde_json::Value,
    empty_body: serde_json::Value,
)
    requires
        servers.len() == outcomes.len(),
        forall|i: int| 0 <= i < servers.len() ==> (#[trigger] servers[i]).id != c.id,
    ensures
        forall|i: int|
            0 <= i < spec_aggregate(servers, outcomes, schema, empty_body).len() ==> (
            #[trigger] spec_aggregate(servers, outcomes, schema, empty_body)[i]).id != c.id,
    decreases servers.len(),
{
    if servers.len() > 0 {
        let rest = spec_aggregate(servers.drop_last(), outcomes.drop_last(), schema, empty_body);
        let seg = spec_segment(servers.last(), outcomes.last(), schema, empty_body);
        assert forall|i: int|
            0 <= i < servers.drop_last().len() implies (#[trigger] servers.drop_last()[i]).id
            != c.id by {
            assert(servers[i].id != c.id);
        }
        lemma_aggregate_other_ids(servers.drop_last(), outcomes.drop_last(), c, schema, empty_body);
        lemma_segment_ids(servers.last(), outcomes.last(), schema, empty_body);
        assert(servers.last().id != c.id);
        assert forall|i: int|
            0 <= i < (rest + seg).len() implies (#[trigger] (rest + seg)[i]).id != c.id by {
            if i < rest.len() {
                assert((rest + seg)[i] == rest[i]);
            } else {
                assert((rest + seg)[i] == seg[i - rest.len()]);
            }
        }
    }
}

/// Partial-degradation in discovery: when server x's discovery failed and
/// server y's succeeded, the aggregate listing carries every one of y's
/// real tools and exactly one placeholder entry for x — the aggregation as
/// a whole does not fail.
pub proof fn lemma_partial_degradation(
    servers: Seq<ServerModel>,
    outcomes: Seq<OutcomeModel>,
    x: int,
    y: int,
    ts: Seq<ToolModel>,
    schema: serde_json::Value,
    empty_body: serde_json::Value,
)
    requires
        servers.len() == outcomes.len(),
        0 <= x < servers.len(),
        0 <= y < servers.len(),
        outcomes[x] is Failed,
        outcomes[y] == OutcomeModel::Found(ts),
        forall|i: int, j: int|
            0 <= i < j < servers.len() ==> (#[trigger] servers[i]).id != (#[trigger] servers[j]).id,
    ensures
        forall|t: int|
            0 <= t < ts.len() ==> #[trigger] spec_aggregate(
                servers,
                outcomes,
                schema,
                empty_body,
            ).contains(spec_tool_call(servers[y], ts[t], empty_body)),
        count_matching(
            spec_aggregate(servers, outcomes, schema, empty_body),
            spec_placeholder_call(servers[x], schema, empty_body),
        ) == 1,
{
    assert forall|t: int|
        0 <= t < ts.len() implies #[trigger] spec_aggregate(
        servers,
        outcomes,
        schema,
        empty_body,
    ).contains(spec_tool_call(servers[y], ts[t], empty_body)) by {
        let seg = spec_segment(servers[y], outcomes[y], schema, empty_body);
        assert(seg[t] == spec_tool_call(servers[y], ts[t], empty_body));
        assert(seg.contains(spec_tool_call(servers[y], ts[t], empty_body)));
        lemma_aggregate_contains_segment(
            servers,
            outcomes,
            y,
            spec_tool_call(servers[y], ts[t], empty_body),
            schema,
            empty_body,
        );
    }
    lemma_aggregate_placeholder_count(servers, outcomes, x, schema, empty_body);
}

} // verus!
