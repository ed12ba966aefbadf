//! The descriptor registry and the connection pool.
//!
//! The manager guarantees at most one live connection per descriptor id.
//! A connection is created lazily on first demand; concurrent cache misses
//! for the same id are reconciled through a pending marker per id, so only
//! one handshake is ever in flight for an id. Removing a descriptor also
//! tears its connection down and hands the caller the token to cancel.
//!
//! Connections themselves are opaque to the manager's logic: the pool tracks
//! them by tokens that are never reused, and the surrounding runtime keeps
//! the token-to-channel association.

use vstd::prelude::*;

use crate::mcp_error::McpError;
use crate::mcp_models::{MCPItem, McpServerInstance, ServerModel};

verus! {

/// State of one pool slot: a handshake in flight, or a live connection
/// identified by a token that is never reused.
#[derive(Clone, Copy, PartialEq, Eq, Structural, Debug)]
pub enum ConnState {
    Pending,
    Ready(u64),
}

struct PoolEntry {
    id: String,
    state: ConnState,
}

/// Spec-level state of the manager: registry and pool as mappings keyed by
/// id, and the next connection token to issue.
#[verifier::ext_equal]
pub struct ManagerModel {
    pub registry: Map<Seq<char>, ServerModel>,
    pub connections: Map<Seq<char>, ConnState>,
    pub next_token: u64,
}

impl ManagerModel {
    /// Every live connection's token was issued before `next_token`, and no
    /// two live connections share a token.
    pub open spec fn inv(self) -> bool {
        &&& forall|k: Seq<char>|
            #[trigger] self.connections.contains_key(k) ==> match self.connections[k] {
                ConnState::Ready(t) => t < self.next_token,
                ConnState::Pending => true,
            }
        &&& forall|k1: Seq<char>, k2: Seq<char>|
            #[trigger] self.connections.contains_key(k1) && #[trigger] self.connections.contains_key(k2)
                && k1 != k2 ==> match (self.connections[k1], self.connections[k2]) {
                (ConnState::Ready(t1), ConnState::Ready(t2)) => t1 != t2,
                _ => true,
            }
    }
}

/// The mapping built from a sequence of key/value pairs, later pairs
/// overriding earlier ones.
pub open spec fn map_of_pairs<V>(s: Seq<(Seq<char>, V)>) -> Map<Seq<char>, V>
    decreases s.len(),
{
    if s.len() == 0 {
        Map::empty()
    } else {
        map_of_pairs(s.drop_last()).insert(s.last().0, s.last().1)
    }
}

/// No two pairs share a key.
pub open spec fn unique_keys<V>(s: Seq<(Seq<char>, V)>) -> bool {
    forall|i: int, j: int| 0 <= i < j < s.len() ==> (#[trigger] s[i]).0 != (#[trigger] s[j]).0
}

proof fn lemma_map_of_pairs_domain<V>(s: Seq<(Seq<char>, V)>, k: Seq<char>)
    ensures
        map_of_pairs(s).contains_key(k) <==> exists|i: int|
            0 <= i < s.len() && (#[trigger] s[i]).0 == k,
    decreases s.len(),
{
    if s.len() > 0 {
        lemma_map_of_pairs_domain(s.drop_last(), k);
        if map_of_pairs(s).contains_key(k) {
            if s.last().0 == k {
                assert((s[s.len() - 1]).0 == k);
            } else {
                let i = choose|i: int| 0 <= i < s.drop_last().len() && (#[trigger] s.drop_last()[i]).0 == k;
                assert((s[i]).0 == k);
            }
        }
        if exists|i: int| 0 <= i < s.len() && (#[trigger] s[i]).0 == k {
            let i = choose|i: int| 0 <= i < s.len() && (#[trigger] s[i]).0 == k;
            if i < s.len() - 1 {
                assert((s.drop_last()[i]).0 == k);
            }
        }
    }
}

proof fn lemma_map_of_pairs_get<V>(s: Seq<(Seq<char>, V)>, i: int)
    requires
        unique_keys(s),
        0 <= i < s.len(),
    ensures
        map_of_pairs(s).contains_key(s[i].0),
        map_of_pairs(s)[s[i].0] == s[i].1,
    decreases s.len(),
{
    if i == s.len() - 1 {
    } else {
        assert(unique_keys(s.drop_last()));
        assert(s.drop_last()[i] == s[i]);
        lemma_map_of_pairs_get(s.drop_last(), i);
        assert(s[i].0 != s.last().0);
    }
}

proof fn lemma_map_of_pairs_push<V>(s: Seq<(Seq<char>, V)>, p: (Seq<char>, V))
    ensures
        map_of_pairs(s.push(p)) == map_of_pairs(s).insert(p.0, p.1),
{
    assert(s.push(p).drop_last() =~= s);
    assert(s.push(p).last() == p);
}

proof fn lemma_map_of_pairs_remove<V>(s: Seq<(Seq<char>, V)>, i: int)
    requires
        unique_keys(s),
        0 <= i < s.len(),
    ensures
        map_of_pairs(s.remove(i)) == map_of_pairs(s).remove(s[i].0),
    decreases s.len(),
{
    if i == s.len() - 1 {
        assert(s.remove(i) =~= s.drop_last());
        lemma_map_of_pairs_domain(s.drop_last(), s[i].0);
        assert(forall|j: int| 0 <= j < s.drop_last().len() ==> (#[trigger] s.drop_last()[j]).0 != s[i].0);
        assert(map_of_pairs(s.drop_last()).insert(s[i].0, s[i].1).remove(s[i].0) =~= map_of_pairs(
            s.drop_last(),
        ));
    } else {
        assert(s.remove(i).drop_last() =~= s.drop_last().remove(i));
        assert(s.remove(i).last() == s.last());
        assert(unique_keys(s.drop_last()));
        assert(s.drop_last()[i] == s[i]);
        lemma_map_of_pairs_remove(s.drop_last(), i);
        assert(s[i].0 != s.last().0);
        assert(map_of_pairs(s.drop_last()).remove(s[i].0).insert(s.last().0, s.last().1) =~= map_of_pairs(
            s.drop_last(),
        ).insert(s.last().0, s.last().1).remove(s[i].0));
        assert(map_of_pairs(s.remove(i)) == map_of_pairs(s.drop_last().remove(i)).insert(
            s.last().0,
            s.last().1,
        ));
    }
}

/// The registry, the pool and the token counter, owned as one value and
/// handed to the request layer at construction time.
pub struct McpManager {
    servers: Vec<McpServerInstance>,
    pool: Vec<PoolEntry>,
    next_token: u64,
}

impl View for McpManager {
    type V = ManagerModel;

    closed spec fn view(&self) -> ManagerModel {
        ManagerModel {
            registry: map_of_pairs(self.server_pairs()),
            connections: map_of_pairs(self.pool_pairs()),
            next_token: self.next_token,
        }
    }
}

/// Adding or replacing the descriptor for `d.id`: the registry maps `d.id`
/// to `d`; the pool and the token counter are untouched.
pub open spec fn spec_add(m: ManagerModel, d: ServerModel) -> ManagerModel {
    ManagerModel { registry: m.registry.insert(d.id, d), ..m }
}

/// An acquire for `id` finds a live connection in the cache.
pub open spec fn acquire_hits(m: ManagerModel, id: Seq<char>) -> bool {
    m.connections.contains_key(id) && m.connections[id] matches ConnState::Ready(_)
}

/// An acquire for `id` finds a handshake already in flight and awaits it.
pub open spec fn acquire_awaits(m: ManagerModel, id: Seq<char>) -> bool {
    m.connections.contains_key(id) && m.connections[id] is Pending
}

/// An acquire for `id` misses the cache and the registry knows the id, so
/// this caller starts the one handshake.
pub open spec fn acquire_starts_handshake(m: ManagerModel, id: Seq<char>) -> bool {
    !m.connections.contains_key(id) && m.registry.contains_key(id)
}

/// An acquire for `id` fails: no cached connection and no descriptor.
pub open spec fn acquire_not_found(m: ManagerModel, id: Seq<char>) -> bool {
    !m.connections.contains_key(id) && !m.registry.contains_key(id)
}

/// The state after one acquire step: a pending marker appears when and only
/// when this caller starts the handshake.
pub open spec fn spec_begin_acquire(m: ManagerModel, id: Seq<char>) -> ManagerModel {
    if acquire_starts_handshake(m, id) {
        ManagerModel { connections: m.connections.insert(id, ConnState::Pending), ..m }
    } else {
        m
    }
}

/// The state after the handshake for `id` resolves. A successful handshake
/// turns the pending marker into a live connection under a fresh token; a
/// failed one clears the marker, so the next acquire retries from scratch.
/// If the marker is gone (the id was removed while the handshake ran), the
/// outcome is discarded.
pub open spec fn spec_finish_acquire(m: ManagerModel, id: Seq<char>, ok: bool) -> ManagerModel {
    if acquire_awaits(m, id) {
        if ok {
            ManagerModel {
                connections: m.connections.insert(id, ConnState::Ready(m.next_token)),
                next_token: (m.next_token + 1) as u64,
                ..m
            }
        } else {
            ManagerModel { connections: m.connections.remove(id), ..m }
        }
    } else {
        m
    }
}

/// A well-formed manager's model satisfies the token invariant: issued
/// tokens are below the counter and pairwise distinct.
pub proof fn lemma_wf_model_inv(m: McpManager)
    requires
        m.wf(),
    ensures
        m@.inv(),
{
    assert forall|k: Seq<char>| #[trigger]
        m@.connections.contains_key(k) implies match m@.connections[k] {
        ConnState::Ready(t) => t < m@.next_token,
        ConnState::Pending => true,
    } by {
        lemma_map_of_pairs_domain(m.pool_pairs(), k);
        let i = choose|i: int| 0 <= i < m.pool_pairs().len() && (#[trigger] m.pool_pairs()[i]).0 == k;
        lemma_map_of_pairs_get(m.pool_pairs(), i);
    }
    assert forall|k1: Seq<char>, k2: Seq<char>|
        #[trigger] m@.connections.contains_key(k1) && #[trigger] m@.connections.contains_key(k2)
            && k1 != k2 implies match (m@.connections[k1], m@.connections[k2]) {
        (ConnState::Ready(t1), ConnState::Ready(t2)) => t1 != t2,
        _ => true,
    } by {
        lemma_map_of_pairs_domain(m.pool_pairs(), k1);
        lemma_map_of_pairs_domain(m.pool_pairs(), k2);
        let i = choose|i: int|
            0 <= i < m.pool_pairs().len() && (#[trigger] m.pool_pairs()[i]).0 == k1;
        let j = choose|j: int|
            0 <= j < m.pool_pairs().len() && (#[trigger] m.pool_pairs()[j]).0 == k2;
        lemma_map_of_pairs_get(m.pool_pairs(), i);
        lemma_map_of_pairs_get(m.pool_pairs(), j);
    }
}

/// Removing one id: both the registry entry and the connection slot vanish.
pub open spec fn spec_remove_one(m: ManagerModel, id: Seq<char>) -> ManagerModel {
    ManagerModel {
        registry: m.registry.remove(id),
        connections: m.connections.remove(id),
        ..m
    }
}

/// Removing each listed id in turn.
pub open spec fn spec_remove_ids(m: ManagerModel, ids: Seq<Seq<char>>) -> ManagerModel
    decreases ids.len(),
{
    if ids.len() == 0 {
        m
    } else {
        spec_remove_one(spec_remove_ids(m, ids.drop_last()), ids.last())
    }
}

/// The token that removing `id` tears down: the id's live connection, if
/// one is cached; a pending or absent slot yields none.
pub open spec fn spec_torn_one(m: ManagerModel, id: Seq<char>) -> Option<u64> {
    if m.connections.contains_key(id) {
        match m.connections[id] {
            ConnState::Ready(t) => Some(t),
            ConnState::Pending => None,
        }
    } else {
        None
    }
}

/// `t` is the token of a live connection that removing `ids` tears down.
pub open spec fn torn_token(m: ManagerModel, ids: Seq<Seq<char>>, t: u64) -> bool {
    exists|i: int| 0 <= i < ids.len() && #[trigger] spec_torn_one(m, ids[i]) == Some(t)
}

/// After removing `ids`, exactly the entries for other ids remain, with
/// their values unchanged; the token counter does not move.
pub proof fn lemma_spec_remove_ids_effect(m: ManagerModel, ids: Seq<Seq<char>>)
    ensures
        spec_remove_ids(m, ids).next_token == m.next_token,
        forall|k: Seq<char>|
            #[trigger] spec_remove_ids(m, ids).registry.contains_key(k) <==> (
            m.registry.contains_key(k) && !ids.contains(k)),
        forall|k: Seq<char>|
            #[trigger] spec_remove_ids(m, ids).registry.contains_key(k)
                ==> spec_remove_ids(m, ids).registry[k] == m.registry[k],
        forall|k: Seq<char>|
            #[trigger] spec_remove_ids(m, ids).connections.contains_key(k) <==> (
            m.connections.contains_key(k) && !ids.contains(k)),
        forall|k: Seq<char>|
            #[trigger] spec_remove_ids(m, ids).connections.contains_key(k)
                ==> spec_remove_ids(m, ids).connections[k] == m.connections[k],
    decreases ids.len(),
{
    if ids.len() > 0 {
        lemma_spec_remove_ids_effect(m, ids.drop_last());
        assert forall|k: Seq<char>| #[trigger]
            ids.contains(k) implies (ids.drop_last().contains(k) || k == ids.last()) by {
            let i = choose|i: int| 0 <= i < ids.len() && ids[i] == k;
            if i < ids.len() - 1 {
                assert(ids.drop_last()[i] == k);
            }
        }
        assert forall|k: Seq<char>|
            ids.drop_last().contains(k) implies ids.contains(k) by {
            let i = choose|i: int| 0 <= i < ids.drop_last().len() && ids.drop_last()[i] == k;
            assert(ids[i] == k);
        }
        assert(ids.contains(ids.last()));
    }
}

proof fn lemma_torn_token_step(m: ManagerModel, ids: Seq<Seq<char>>, j: int)
    requires
        0 <= j < ids.len(),
    ensures
        forall|t: u64|
            #[trigger] torn_token(m, ids.take(j + 1), t) <==> (torn_token(m, ids.take(j), t)
                || spec_torn_one(m, ids[j]) == Some(t)),
{
    assert forall|t: u64|
        #[trigger] torn_token(m, ids.take(j + 1), t) <==> (torn_token(m, ids.take(j), t)
            || spec_torn_one(m, ids[j]) == Some(t)) by {
        if torn_token(m, ids.take(j + 1), t) {
            let i = choose|i: int|
                0 <= i < ids.take(j + 1).len() && #[trigger] spec_torn_one(
                    m,
                    ids.take(j + 1)[i],
                ) == Some(t);
            if i < j {
                assert(ids.take(j)[i] == ids.take(j + 1)[i]);
                assert(spec_torn_one(m, ids.take(j)[i]) == Some(t));
            } else {
                assert(ids.take(j + 1)[j] == ids[j]);
            }
        }
        if torn_token(m, ids.take(j), t) {
            let i = choose|i: int|
                0 <= i < ids.take(j).len() && #[trigger] spec_torn_one(m, ids.take(j)[i])
                    == Some(t);
            assert(ids.take(j + 1)[i] == ids.take(j)[i]);
            assert(spec_torn_one(m, ids.take(j + 1)[i]) == Some(t));
        }
        if spec_torn_one(m, ids[j]) == Some(t) {
            assert(ids.take(j + 1)[j] == ids[j]);
            assert(spec_torn_one(m, ids.take(j + 1)[j]) == Some(t));
        }
    }
}

proof fn lemma_torn_token_covered(m: ManagerModel, ids: Seq<Seq<char>>, j: int)
    requires
        0 <= j < ids.len(),
        ids.take(j).contains(ids[j]),
    ensures
        forall|t: u64|
            spec_torn_one(m, ids[j]) == Some(t) ==> #[trigger] torn_token(m, ids.take(j), t),
{
    let i = choose|i: int| 0 <= i < ids.take(j).len() && ids.take(j)[i] == ids[j];
    assert forall|t: u64|
        spec_torn_one(m, ids[j]) == Some(t) implies #[trigger] torn_token(
        m,
        ids.take(j),
        t,
    ) by {
        assert(spec_torn_one(m, ids.take(j)[i]) == Some(t));
    }
}

/// What one acquire step tells the caller to do next.
pub enum AcquireStep {
    /// A live connection exists; use it under this token.
    Ready(u64),
    /// Another caller's handshake for this id is in flight; await its
    /// outcome rather than starting a second one.
    AwaitPending,
    /// This caller must spawn the described process, perform the handshake,
    /// and report the outcome through `finish_acquire`.
    StartHandshake(McpServerInstance),
}

impl McpManager {
    spec fn server_pairs(self) -> Seq<(Seq<char>, ServerModel)> {
        self.servers@.map_values(|d: McpServerInstance| (d.id@, d@))
    }

    spec fn pool_pairs(self) -> Seq<(Seq<char>, ConnState)> {
        self.pool@.map_values(|e: PoolEntry| (e.id@, e.state))
    }

    /// Well-formed: ids are unique in the registry and in the pool, and
    /// issued tokens are below the counter and pairwise distinct.
    pub closed spec fn wf(self) -> bool {
        &&& unique_keys(self.server_pairs())
        &&& unique_keys(self.pool_pairs())
        &&& forall|i: int|
            0 <= i < self.pool@.len() ==> match (#[trigger] self.pool@[i]).state {
                ConnState::Ready(t) => t < self.next_token,
                ConnState::Pending => true,
            }
        &&& forall|i: int, j: int|
            0 <= i < j < self.pool@.len() ==> match (
                (#[trigger] self.pool@[i]).state,
                (#[trigger] self.pool@[j]).state,
            ) {
                (ConnState::Ready(t1), ConnState::Ready(t2)) => t1 != t2,
                _ => true,
            }
    }

    /// A fresh manager: empty registry, empty pool.
    pub fn new() -> (m: McpManager)
        ensures
            m.wf(),
            m@.registry == Map::<Seq<char>, ServerModel>::empty(),
            m@.connections == Map::<Seq<char>, ConnState>::empty(),
            m@.next_token == 0,
    {
        McpManager { servers: Vec::new(), pool: Vec::new(), next_token: 0 }
    }

    fn find_server(&self, id: &String) -> (r: Option<usize>)
        ensures
            match r {
                Some(i) => i < self.servers@.len() && self.servers@[i as int].id@ == id@,
                None => forall|i: int|
                    0 <= i < self.servers@.len() ==> (#[trigger] self.servers@[i]).id@ != id@,
            },
    {
        let mut i: usize = 0;
        while i < self.servers.len()
            invariant
                i <= self.servers@.len(),
                forall|j: int| 0 <= j < i ==> (#[trigger] self.servers@[j]).id@ != id@,
            decreases self.servers@.len() - i,
        {
            if self.servers[i].id == *id {
                return Some(i);
            }
            i = i + 1;
        }
        None
    }

    fn find_pool(&self, id: &String) -> (r: Option<usize>)
        ensures
            match r {
                Some(i) => i < self.pool@.len() && self.pool@[i as int].id@ == id@,
                None => forall|i: int|
                    0 <= i < self.pool@.len() ==> (#[trigger] self.pool@[i]).id@ != id@,
            },
    {
        let mut i: usize = 0;
        while i < self.pool.len()
            invariant
                i <= self.pool@.len(),
                forall|j: int| 0 <= j < i ==> (#[trigger] self.pool@[j]).id@ != id@,
            decreases self.pool@.len() - i,
        {
            if self.pool[i].id == *id {
                return Some(i);
            }
            i = i + 1;
        }
        None
    }

    /// Inserts or overwrites the registry entry for `item.id`. An existing
    /// live connection for that id is unaffected by the registry change:
    /// it keeps serving until the id is explicitly removed.
    pub fn add_server(&mut self, item: &MCPItem)
        requires
            old(self).wf(),
        ensures
            final(self).wf(),
            final(self)@ == spec_add(old(self)@, item@),
    {
        let inst = McpServerInstance::from_item(item);
        match self.find_server(&item.id) {
            Some(i) => {
                proof {
                    lemma_map_of_pairs_remove(self.server_pairs(), i as int);
                }
                let ghost before = self.server_pairs();
                self.servers.remove(i);
                proof {
                    assert(self.server_pairs() =~= before.remove(i as int));
                    assert forall|a: int| 0 <= a < self.servers@.len() implies (
                    #[trigger] self.servers@[a]).id@ != item.id@ by {
                        if a < i as int {
                            assert(before[a].0 != before[i as int].0);
                        } else {
                            assert(before[a + 1].0 != before[i as int].0);
                        }
                    }
                }
                self.push_server(inst);
                proof {
                    assert(self@.registry =~= spec_add(old(self)@, item@).registry);
                    assert(self@ =~= spec_add(old(self)@, item@));
                }
            },
            None => {
                self.push_server(inst);
                proof {
                    assert(self@.registry =~= spec_add(old(self)@, item@).registry);
                    assert(self@ =~= spec_add(old(self)@, item@));
                }
            },
        }
    }

    /// One acquire step for `id`: a cache hit returns the existing token
    /// without touching the pool; a miss with a handshake already in flight
    /// awaits it; a fresh miss marks the slot pending and hands back the
    /// descriptor to spawn; an unknown id fails with `NotFound`.
    pub fn begin_acquire(&mut self, id: &String) -> (r: Result<AcquireStep, McpError>)
        requires
            old(self).wf(),
        ensures
            final(self).wf(),
            final(self)@ == spec_begin_acquire(old(self)@, id@),
            match r {
                Ok(AcquireStep::Ready(t)) => acquire_hits(old(self)@, id@) && old(
                    self,
                )@.connections[id@] == ConnState::Ready(t),
                Ok(AcquireStep::AwaitPending) => acquire_awaits(old(self)@, id@),
                Ok(AcquireStep::StartHandshake(d)) => acquire_starts_handshake(old(self)@, id@)
                    && d@ == old(self)@.registry[id@],
                Err(e) => acquire_not_found(old(self)@, id@) && match e {
                    McpError::NotFound(s) => s@ == id@,
                    _ => false,
                },
            },
    {
        match self.find_pool(id) {
            Some(i) => {
                proof {
                    lemma_map_of_pairs_get(self.pool_pairs(), i as int);
                }
                match self.pool[i].state {
                    ConnState::Ready(t) => Ok(AcquireStep::Ready(t)),
                    ConnState::Pending => Ok(AcquireStep::AwaitPending),
                }
            },
            None => {
                proof {
                    lemma_map_of_pairs_domain(self.pool_pairs(), id@);
                }
                match self.find_server(id) {
                    None => {
                        proof {
                            lemma_map_of_pairs_domain(self.server_pairs(), id@);
                        }
                        Err(McpError::NotFound(id.clone()))
                    },
                    Some(si) => {
                        proof {
                            lemma_map_of_pairs_get(self.server_pairs(), si as int);
                        }
                        let inst = self.servers[si].clone();
                        self.push_pool_entry(
                            PoolEntry { id: id.clone(), state: ConnState::Pending },
                        );
                        Ok(AcquireStep::StartHandshake(inst))
                    },
                }
            },
        }
    }

    /// Resolves the handshake for `id`. On success the pending marker
    /// becomes a live connection under a fresh token, which is returned; on
    /// failure the marker is cleared, so a later acquire starts over. A
    /// stale outcome — the marker is gone because the id was removed while
    /// the handshake ran, or a connection is already live — changes nothing
    /// and returns `None`.
    pub fn finish_acquire(&mut self, id: &String, ok: bool) -> (r: Option<u64>)
        requires
            old(self).wf(),
            old(self)@.next_token < u64::MAX,
        ensures
            final(self).wf(),
            final(self)@ == spec_finish_acquire(old(self)@, id@, ok),
            r == if acquire_awaits(old(self)@, id@) && ok {
                Some(old(self)@.next_token)
            } else {
                None::<u64>
            },
    {
        match self.find_pool(id) {
            Some(i) => {
                proof {
                    lemma_map_of_pairs_get(self.pool_pairs(), i as int);
                }
                match self.pool[i].state {
                    ConnState::Pending => {
                        proof {
                            lemma_map_of_pairs_remove(self.pool_pairs(), i as int);
                        }
                        let ghost before = self.pool_pairs();
                        let ghost entries = self.pool@;
                        self.pool.remove(i);
                        proof {
                            assert(self.pool_pairs() =~= before.remove(i as int));
                            assert forall|a: int|
                                0 <= a < self.pool@.len() implies (#[trigger] self.pool@[a]).id@
                                != id@ by {
                                if a < i as int {
                                    assert(before[a].0 != before[i as int].0);
                                } else {
                                    assert(before[a + 1].0 != before[i as int].0);
                                }
                            }
                            assert forall|a: int|
                                0 <= a < self.pool@.len() implies self.pool@[a]
                                == if a < i as int {
                                    entries[a]
                                } else {
                                    entries[a + 1]
                                } by {}
                        }
                        if ok {
                            let t = self.next_token;
                            self.next_token = t + 1;
                            self.push_pool_entry(
                                PoolEntry { id: id.clone(), state: ConnState::Ready(t) },
                            );
                            proof {
                                assert(self@.connections =~= spec_finish_acquire(
                                    old(self)@,
                                    id@,
                                    ok,
                                ).connections);
                                assert(self@ =~= spec_finish_acquire(old(self)@, id@, ok));
                            }
                            Some(t)
                        } else {
                            proof {
                                assert(self.server_pairs() =~= old(self).server_pairs());
                                assert(self@ =~= spec_finish_acquire(old(self)@, id@, ok));
                            }
                            None
                        }
                    },
                    ConnState::Ready(_) => None,
                }
            },
            None => {
                proof {
                    lemma_map_of_pairs_domain(self.pool_pairs(), id@);
                }
                None
            },
        }
    }

    /// Removes one id from the registry and the pool, returning the token
    /// of the live connection that was torn down, if there was one.
    fn remove_one(&mut self, id: &String) -> (tok: Option<u64>)
        requires
            old(self).wf(),
        ensures
            final(self).wf(),
            final(self)@ == spec_remove_one(old(self)@, id@),
            tok == spec_torn_one(old(self)@, id@),
    {
        let tok: Option<u64>;
        match self.find_pool(id) {
            Some(i) => {
                proof {
                    lemma_map_of_pairs_get(self.pool_pairs(), i as int);
                    lemma_map_of_pairs_remove(self.pool_pairs(), i as int);
                }
                tok = match self.pool[i].state {
                    ConnState::Ready(t) => Some(t),
                    ConnState::Pending => None,
                };
                let ghost before = self.pool_pairs();
                let ghost entries = self.pool@;
                self.pool.remove(i);
                proof {
                    assert(self.pool_pairs() =~= before.remove(i as int));
                    assert forall|a: int|
                        0 <= a < self.pool@.len() implies self.pool@[a] == if a < i as int {
                        entries[a]
                    } else {
                        entries[a + 1]
                    } by {}
                }
            },
            None => {
                proof {
                    lemma_map_of_pairs_domain(self.pool_pairs(), id@);
                    assert(self@.connections.remove(id@) =~= self@.connections);
                }
                tok = None;
            },
        }
        match self.find_server(id) {
            Some(i) => {
                proof {
                    lemma_map_of_pairs_remove(self.server_pairs(), i as int);
                }
                let ghost sbefore = self.server_pairs();
                self.servers.remove(i);
                proof {
                    assert(self.server_pairs() =~= sbefore.remove(i as int));
                }
            },
            None => {
                proof {
                    lemma_map_of_pairs_domain(self.server_pairs(), id@);
                    assert(self@.registry.remove(id@) =~= self@.registry);
                }
            },
        }
        proof {
            assert(self@ =~= spec_remove_one(old(self)@, id@));
        }
        tok
    }

    /// Removes each listed id from the registry and tears down its cached
    /// connection, if any. Absent ids are silently ignored. Returns the
    /// tokens of the live connections that were torn down, for the caller
    /// to cancel; a pending handshake's slot is dropped without a token
    /// (its outcome will arrive stale and be discarded).
    pub fn remove_servers(&mut self, ids: &Vec<String>) -> (torn: Vec<u64>)
        requires
            old(self).wf(),
        ensures
            final(self).wf(),
            final(self)@ == spec_remove_ids(old(self)@, ids.deep_view()),
            forall|t: u64|
                #[trigger] torn@.contains(t) <==> torn_token(old(self)@, ids.deep_view(), t),
    {
        let ghost m0 = self@;
        let ghost idseq = ids.deep_view();
        let mut torn: Vec<u64> = Vec::new();
        let mut j: usize = 0;
        while j < ids.len()
            invariant
                self.wf(),
                j <= ids@.len(),
                idseq == ids.deep_view(),
                idseq.len() == ids@.len(),
                self@ == spec_remove_ids(m0, idseq.take(j as int)),
                forall|t: u64|
                    #[trigger] torn@.contains(t) <==> torn_token(m0, idseq.take(j as int), t),
            decreases ids@.len() - j,
        {
            let ghost cur = self@;
            let id = &ids[j];
            proof {
                assert(idseq[j as int] == ids@[j as int]@);
                assert(idseq.take(j as int + 1).drop_last() =~= idseq.take(j as int));
                assert(idseq.take(j as int + 1).last() == idseq[j as int]);
                lemma_spec_remove_ids_effect(m0, idseq.take(j as int));
                lemma_torn_token_step(m0, idseq, j as int);
            }
            let tok = self.remove_one(id);
            proof {
                assert(spec_remove_ids(m0, idseq.take(j as int + 1)) == spec_remove_one(
                    cur,
                    idseq[j as int],
                ));
                if cur.connections.contains_key(idseq[j as int]) {
                    assert(spec_torn_one(cur, idseq[j as int]) == spec_torn_one(
                        m0,
                        idseq[j as int],
                    ));
                } else {
                    if m0.connections.contains_key(idseq[j as int]) {
                        assert(idseq.take(j as int).contains(idseq[j as int]));
                        lemma_torn_token_covered(m0, idseq, j as int);
                    }
                }
            }
            let ghost torn_before = torn@;
            match tok {
                Some(t) => {
                    torn.push(t);
                    proof {
                        assert(torn@ =~= torn_before.push(t));
                        assert forall|t2: u64| #[trigger]
                            torn@.contains(t2) <==> torn_token(
                                m0,
                                idseq.take(j as int + 1),
                                t2,
                            ) by {
                            if torn@.contains(t2) {
                                let a = choose|a: int| 0 <= a < torn@.len() && torn@[a] == t2;
                                if a < torn_before.len() {
                                    assert(torn_before[a] == t2);
                                    assert(torn_before.contains(t2));
                                }
                            }
                            if torn_token(m0, idseq.take(j as int + 1), t2) {
                                if torn_token(m0, idseq.take(j as int), t2) {
                                    assert(torn_before.contains(t2));
                                    let a = choose|a: int|
                                        0 <= a < torn_before.len() && torn_before[a] == t2;
                                    assert(torn@[a] == t2);
                                } else {
                                    assert(t2 == t);
                                    assert(torn@[torn_before.len() as int] == t2);
                                }
                            }
                            if torn_before.contains(t2) {
                                let a = choose|a: int|
                                    0 <= a < torn_before.len() && torn_before[a] == t2;
                                assert(torn@[a] == t2);
                            }
                        }
                    }
                },
                None => {
                    proof {
                        assert forall|t2: u64| #[trigger]
                            torn@.contains(t2) <==> torn_token(
                                m0,
                                idseq.take(j as int + 1),
                                t2,
                            ) by {}
                    }
                },
            }
            j = j + 1;
        }
        proof {
            assert(idseq.take(ids@.len() as int) =~= idseq);
        }
        torn
    }

    /// The descriptor stored for `id`, or `NotFound` if the id is absent.
    pub fn get_server(&self, id: &String) -> (r: Result<McpServerInstance, McpError>)
        requires
            self.wf(),
        ensures
            match r {
                Ok(d) => self@.registry.contains_key(id@) && d@ == self@.registry[id@],
                Err(e) => !self@.registry.contains_key(id@) && match e {
                    McpError::NotFound(s) => s@ == id@,
                    _ => false,
                },
            },
    {
        match self.find_server(id) {
            Some(i) => {
                proof {
                    lemma_map_of_pairs_get(self.server_pairs(), i as int);
                }
                Ok(self.servers[i].clone())
            },
            None => {
                proof {
                    lemma_map_of_pairs_domain(self.server_pairs(), id@);
                }
                Err(McpError::NotFound(id.clone()))
            },
        }
    }

    /// A snapshot of all registered ids: every registered id exactly once.
    pub fn list_servers(&self) -> (r: Vec<String>)
        requires
            self.wf(),
        ensures
            forall|k: Seq<char>| #[trigger] self@.registry.contains_key(k) <==> r.deep_view().contains(k),
            forall|i: int, j: int| 0 <= i < j < r@.len() ==> r@[i]@ != r@[j]@,
    {
        let mut r: Vec<String> = Vec::new();
        let mut i: usize = 0;
        while i < self.servers.len()
            invariant
                i <= self.servers@.len(),
                r@.len() == i,
                forall|j: int| 0 <= j < i ==> r@[j]@ == (#[trigger] self.servers@[j]).id@,
            decreases self.servers@.len() - i,
        {
            r.push(self.servers[i].id.clone());
            i = i + 1;
        }
        proof {
            assert forall|k: Seq<char>| #[trigger]
                self@.registry.contains_key(k) implies r.deep_view().contains(k) by {
                lemma_map_of_pairs_domain(self.server_pairs(), k);
                let a = choose|a: int|
                    0 <= a < self.server_pairs().len() && (#[trigger] self.server_pairs()[a]).0
                        == k;
                assert(r.deep_view()[a] == k);
            }
            assert forall|k: Seq<char>|
                r.deep_view().contains(k) implies #[trigger] self@.registry.contains_key(k) by {
                lemma_map_of_pairs_domain(self.server_pairs(), k);
                let a = choose|a: int| 0 <= a < r.deep_view().len() && r.deep_view()[a] == k;
                assert((self.server_pairs()[a]).0 == k);
            }
            assert forall|i2: int, j2: int|
                0 <= i2 < j2 < r@.len() implies r@[i2]@ != r@[j2]@ by {
                assert((self.server_pairs()[i2]).0 != (self.server_pairs()[j2]).0);
            }
        }
        r
    }

    /// A snapshot of all stored descriptors: every registered descriptor
    /// exactly once.
    pub fn get_all_servers(&self) -> (r: Vec<McpServerInstance>)
        requires
            self.wf(),
        ensures
            forall|i: int|
                0 <= i < r@.len() ==> self@.registry.contains_key((#[trigger] r@[i])@.id)
                    && r@[i]@ == self@.registry[r@[i]@.id],
            forall|k: Seq<char>|
                #[trigger] self@.registry.contains_key(k) ==> exists|i: int|
                    0 <= i < r@.len() && (#[trigger] r@[i])@.id == k,
            forall|i: int, j: int| 0 <= i < j < r@.len() ==> r@[i]@.id != r@[j]@.id,
    {
        let mut r: Vec<McpServerInstance> = Vec::new();
        let mut i: usize = 0;
        while i < self.servers.len()
            invariant
                i <= self.servers@.len(),
                r@.len() == i,
                forall|j: int| 0 <= j < i ==> (#[trigger] r@[j])@ == self.servers@[j]@,
            decreases self.servers@.len() - i,
        {
            r.push(self.servers[i].clone());
            i = i + 1;
        }
        proof {
            assert forall|i2: int|
                0 <= i2 < r@.len() implies self@.registry.contains_key((#[trigger] r@[i2])@.id)
                && r@[i2]@ == self@.registry[r@[i2]@.id] by {
                lemma_map_of_pairs_get(self.server_pairs(), i2);
            }
            assert forall|k: Seq<char>| #[trigger]
                self@.registry.contains_key(k) implies exists|i2: int|
                0 <= i2 < r@.len() && (#[trigger] r@[i2])@.id == k by {
                lemma_map_of_pairs_domain(self.server_pairs(), k);
                let a = choose|a: int|
                    0 <= a < self.server_pairs().len() && (#[trigger] self.server_pairs()[a]).0
                        == k;
                assert((r@[a])@.id == k);
            }
            assert forall|i2: int, j2: int|
                0 <= i2 < j2 < r@.len() implies r@[i2]@.id != r@[j2]@.id by {
                assert((self.server_pairs()[i2]).0 != (self.server_pairs()[j2]).0);
            }
        }
        r
    }

    /// Appends a pool entry whose id is not yet present; a ready entry's
    /// token must be fresh.
    fn push_pool_entry(&mut self, e: PoolEntry)
        requires
            old(self).wf(),
            forall|i: int|
                0 <= i < old(self).pool@.len() ==> (#[trigger] old(self).pool@[i]).id@ != e.id@,
            match e.state {
                ConnState::Ready(t) => t < old(self).next_token && forall|i: int|
                    0 <= i < old(self).pool@.len() ==> match (#[trigger] old(
                        self,
                    ).pool@[i]).state {
                        ConnState::Ready(t2) => t2 != t,
                        ConnState::Pending => true,
                    },
                ConnState::Pending => true,
            },
        ensures
            final(self).wf(),
            final(self).servers == old(self).servers,
            final(self).next_token == old(self).next_token,
            final(self)@.registry == old(self)@.registry,
            final(self)@.next_token == old(self)@.next_token,
            final(self)@.connections == old(self)@.connections.insert(e.id@, e.state),
    {
        let ghost before = self.pool_pairs();
        let ghost eid = e.id@;
        let ghost est = e.state;
        self.pool.push(e);
        proof {
            assert(self.pool_pairs() =~= before.push((eid, est)));
            lemma_map_of_pairs_push(before, (eid, est));
            assert(self.server_pairs() =~= old(self).server_pairs());
        }
    }

    /// Appends a descriptor whose id is not yet present.
    fn push_server(&mut self, inst: McpServerInstance)
        requires
            unique_keys(old(self).server_pairs()),
            forall|i: int|
                0 <= i < old(self).servers@.len() ==> (#[trigger] old(self).servers@[i]).id@
                    != inst.id@,
        ensures
            final(self).servers@ == old(self).servers@.push(inst),
            final(self).pool == old(self).pool,
            final(self).next_token == old(self).next_token,
            unique_keys(final(self).server_pairs()),
            final(self)@.registry == old(self)@.registry.insert(inst.id@, inst@),
            final(self)@.connections == old(self)@.connections,
            final(self)@.next_token == old(self)@.next_token,
    {
        let ghost before = self.server_pairs();
        self.servers.push(inst);
        proof {
            assert(self.server_pairs() =~= before.push((inst.id@, inst@)));
            lemma_map_of_pairs_push(before, (inst.id@, inst@));
            assert(self.pool_pairs() =~= old(self).pool_pairs());
        }
    }
}

} // verus!
