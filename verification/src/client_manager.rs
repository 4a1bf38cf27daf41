//! Registration, sessions, liveness and participation counters of the
//! training clients.

use vstd::prelude::*;
use crate::clock::{clock_reading, unix_timestamp};
use crate::federated::ClientCapabilities;
use crate::client_table::{
    active_ids, count_active, has_id, ids_distinct, indices_below, indices_distinct,
    lemma_indices_map_values, lemma_indices_push, lemma_indices_remove, lemma_indices_update,
    lemma_map_total_insert, lemma_map_total_zero, lemma_table_active, lemma_table_dom,
    lemma_table_len, lemma_table_map_values, lemma_table_push, lemma_table_remove,
    lemma_table_total, lemma_table_update, lemma_table_value, map_total, seq_total, table_map,
};

verus! {

/// Information about a registered client.
#[derive(Clone, Debug)]
pub struct ClientInfo {
    /// Unique client identifier.
    pub client_id: String,
    /// Session token for authentication.
    pub session_token: String,
    /// Assigned client index (0, 1, 2, ...).
    pub client_index: i32,
    /// Client capabilities (hardware, data size, etc.).
    pub capabilities: Option<ClientCapabilities>,
    /// Last heartbeat timestamp (Unix seconds).
    pub last_heartbeat: u64,
    /// Whether the client is currently active.
    pub active: bool,
    /// Registration timestamp (Unix seconds).
    pub registered_at: u64,
    /// Number of rounds participated.
    pub rounds_participated: i32,
    /// Number of gradient submissions.
    pub gradients_submitted: i32,
}

/// The record of a client that registers at time `now`.
pub open spec fn fresh_client(
    client_id: String,
    session_token: String,
    client_index: i32,
    capabilities: Option<ClientCapabilities>,
    now: u64,
) -> ClientInfo {
    ClientInfo {
        client_id,
        session_token,
        client_index,
        capabilities,
        last_heartbeat: now,
        active: true,
        registered_at: now,
        rounds_participated: 0,
        gradients_submitted: 0,
    }
}

/// More than `timeout_secs` seconds lie between the last heartbeat and `now`.
pub open spec fn heartbeat_expired(last_heartbeat: u64, timeout_secs: u64, now: u64) -> bool {
    now - last_heartbeat > timeout_secs
}

/// The age of a heartbeat at clock reading `now`, as the 64-bit unsigned
/// difference `now - last_heartbeat`, which wraps around when the heartbeat
/// lies ahead of the reading.
pub open spec fn heartbeat_age(last_heartbeat: u64, now: u64) -> int {
    if last_heartbeat <= now {
        now - last_heartbeat
    } else {
        now - last_heartbeat + 0x1_0000_0000_0000_0000
    }
}

/// Whether a heartbeat at `last_heartbeat` counts as expired when the clock
/// reads `now`: its (wrapping) age exceeds the timeout.
pub open spec fn expired_at_reading(last_heartbeat: u64, timeout_secs: u64, now: u64) -> bool {
    heartbeat_age(last_heartbeat, now) > timeout_secs
}

impl ClientInfo {
    /// Creates the record of a client registering at time `now`.
    pub fn new_at(
        client_id: String,
        session_token: String,
        client_index: i32,
        capabilities: Option<ClientCapabilities>,
        now: u64,
    ) -> (c: Self)
        ensures
            c == fresh_client(client_id, session_token, client_index, capabilities, now),
    {
        ClientInfo {
            client_id,
            session_token,
            client_index,
            capabilities,
            last_heartbeat: now,
            active: true,
            registered_at: now,
            rounds_participated: 0,
            gradients_submitted: 0,
        }
    }

    /// Creates the record of a client registering now (system clock).
    pub fn new(
        client_id: String,
        session_token: String,
        client_index: i32,
        capabilities: Option<ClientCapabilities>,
    ) -> (c: Self)
        ensures
            c == fresh_client(client_id, session_token, client_index, capabilities, c.registered_at),
            clock_reading(c.registered_at),
    {
        let now = Self::current_timestamp();
        Self::new_at(client_id, session_token, client_index, capabilities, now)
    }

    /// Current Unix timestamp in seconds.
    fn current_timestamp() -> (t: u64)
        ensures
            clock_reading(t),
    {
        unix_timestamp()
    }

    /// Records a heartbeat received at time `now`.
    pub fn update_heartbeat_at(&mut self, now: u64)
        ensures
            *final(self) == (ClientInfo { last_heartbeat: now, ..*old(self) }),
    {
        self.last_heartbeat = now;
    }

    /// Records a heartbeat received now (system clock).
    pub fn update_heartbeat(&mut self)
        ensures
            *final(self) == (ClientInfo { last_heartbeat: final(self).last_heartbeat, ..*old(self) }),
            clock_reading(final(self).last_heartbeat),
    {
        let now = Self::current_timestamp();
        self.update_heartbeat_at(now);
    }

    /// Whether the last heartbeat is more than `timeout_secs` seconds older than `now`.
    pub fn is_inactive_at(&self, timeout_secs: u64, now: u64) -> (r: bool)
        requires
            self.last_heartbeat <= now,
        ensures
            r == heartbeat_expired(self.last_heartbeat, timeout_secs, now),
    {
        now - self.last_heartbeat > timeout_secs
    }

    /// Whether the last heartbeat is more than `timeout_secs` seconds old
    /// (system clock). The age is the wrapping difference of the two
    /// readings, so a heartbeat ahead of the clock has a very large age.
    pub fn is_inactive(&self, timeout_secs: u64) -> (r: bool)
        ensures
            exists|now: u64|
                clock_reading(now) && r == #[trigger] expired_at_reading(
                    self.last_heartbeat,
                    timeout_secs,
                    now,
                ),
    {
        let now = Self::current_timestamp();
        let r = now.wrapping_sub(self.last_heartbeat) > timeout_secs;
        assert(clock_reading(now) && r == expired_at_reading(self.last_heartbeat, timeout_secs, now));
        r
    }

    /// Marks the client as inactive.
    pub fn deactivate(&mut self)
        ensures
            *final(self) == (ClientInfo { active: false, ..*old(self) }),
    {
        self.active = false;
    }

    /// Counts one more round of participation.
    pub fn increment_participation(&mut self)
        requires
            old(self).rounds_participated < i32::MAX,
        ensures
            *final(self) == (ClientInfo {
                rounds_participated: (old(self).rounds_participated + 1) as i32,
                ..*old(self)
            }),
    {
        self.rounds_participated = self.rounds_participated + 1;
    }

    /// Counts one more gradient submission.
    pub fn increment_submissions(&mut self)
        requires
            old(self).gradients_submitted < i32::MAX,
        ensures
            *final(self) == (ClientInfo {
                gradients_submitted: (old(self).gradients_submitted + 1) as i32,
                ..*old(self)
            }),
    {
        self.gradients_submitted = self.gradients_submitted + 1;
    }
}

/// Why a registry operation was refused.
#[derive(Debug, Clone, Copy, PartialEq, Eq, Structural)]
pub enum ClientError {
    /// A client with this id is already registered.
    AlreadyRegistered,
    /// The registry holds as many clients as it may.
    CapacityReached,
    /// No client with this id is registered.
    NotFound,
}

/// The record after a cleanup pass at time `now`: an active client whose
/// last heartbeat is older than the timeout is deactivated (the age is the
/// wrapping difference, see `heartbeat_age`).
pub open spec fn after_cleanup(c: ClientInfo, timeout_secs: u64, now: u64) -> ClientInfo {
    if c.active && expired_at_reading(c.last_heartbeat, timeout_secs, now) {
        ClientInfo { active: false, ..c }
    } else {
        c
    }
}

/// The registry after a cleanup pass at time `now`.
pub open spec fn cleaned(m: Map<Seq<char>, ClientInfo>, timeout_secs: u64, now: u64) -> Map<
    Seq<char>,
    ClientInfo,
> {
    m.map_values(|c: ClientInfo| after_cleanup(c, timeout_secs, now))
}

/// No active client's last heartbeat lies after `now`.
pub open spec fn heartbeats_not_after(m: Map<Seq<char>, ClientInfo>, now: u64) -> bool {
    forall|id: Seq<char>| #[trigger] m.contains_key(id) && m[id].active ==> m[id].last_heartbeat <= now
}

/// What a cleanup pass does when the clock reads `now`.
pub open spec fn cleanup_outcome(pre: ClientManager, post: ClientManager, timeout_secs: u64, now: u64) -> bool {
    &&& post.wf()
    &&& post.same_counters(&pre)
    &&& post@ == cleaned(pre@, timeout_secs, now)
    &&& keeps_inactive(pre@, post@)
}

/// The record with both statistics counters set back to zero.
pub open spec fn stats_cleared(c: ClientInfo) -> ClientInfo {
    ClientInfo { rounds_participated: 0, gradients_submitted: 0, ..c }
}

/// The registry with every client's statistics counters set back to zero.
pub open spec fn stats_reset(m: Map<Seq<char>, ClientInfo>) -> Map<Seq<char>, ClientInfo> {
    m.map_values(|c: ClientInfo| stats_cleared(c))
}

/// Rounds participated, as a summand.
pub open spec fn participation_of() -> spec_fn(ClientInfo) -> int {
    |c: ClientInfo| c.rounds_participated as int
}

/// Gradients submitted, as a summand.
pub open spec fn submissions_of() -> spec_fn(ClientInfo) -> int {
    |c: ClientInfo| c.gradients_submitted as int
}

/// Total rounds participated over all clients of `m`.
pub open spec fn participation_total(m: Map<Seq<char>, ClientInfo>) -> int {
    map_total(m, participation_of())
}

/// Total gradients submitted over all clients of `m`.
pub open spec fn submissions_total(m: Map<Seq<char>, ClientInfo>) -> int {
    map_total(m, submissions_of())
}

/// `r` lists each client of `m` whose id is in `ids` exactly once, as it is stored in `m`.
pub open spec fn enumerates(
    r: Seq<&ClientInfo>,
    m: Map<Seq<char>, ClientInfo>,
    ids: Set<Seq<char>>,
) -> bool {
    &&& forall|i: int|
        0 <= i < r.len() ==> ids.contains(#[trigger] r[i].client_id@) && m.contains_key(
            r[i].client_id@,
        ) && m[r[i].client_id@] == *r[i]
    &&& forall|id: Seq<char>|
        #[trigger] ids.contains(id) ==> exists|i: int| 0 <= i < r.len() && r[i].client_id@ == id
    &&& forall|i: int, j: int| 0 <= i < j < r.len() ==> r[i].client_id@ != r[j].client_id@
}

/// No client that is inactive in `pre` and still registered in `post` is
/// active again in `post`.
pub open spec fn keeps_inactive(pre: Map<Seq<char>, ClientInfo>, post: Map<Seq<char>, ClientInfo>) -> bool {
    forall|id: Seq<char>|
        #[trigger] post.contains_key(id) && pre.contains_key(id) && !pre[id].active ==> !post[id].active
}

/// What a registration does: a known id and a full registry are refused
/// and leave the registry unchanged; otherwise the client is added with the
/// next index, registered at time `now`.
pub open spec fn registration_outcome(
    pre: ClientManager,
    post: ClientManager,
    client_id: String,
    session_token: String,
    capabilities: Option<ClientCapabilities>,
    now: u64,
    r: Result<i32, ClientError>,
) -> bool {
    &&& post.wf()
    &&& post.max_clients_spec() == pre.max_clients_spec()
    &&& keeps_inactive(pre@, post@)
    &&& if pre@.contains_key(client_id@) {
        &&& r == Err::<i32, ClientError>(ClientError::AlreadyRegistered)
        &&& post == pre
    } else if pre@.len() >= pre.max_clients_spec() {
        &&& r == Err::<i32, ClientError>(ClientError::CapacityReached)
        &&& post == pre
    } else {
        &&& r == Ok::<i32, ClientError>(pre.next_index_spec() as i32)
        &&& post@ == pre@.insert(
            client_id@,
            fresh_client(client_id, session_token, pre.next_index_spec() as i32, capabilities, now),
        )
        &&& post.next_index_spec() == pre.next_index_spec() + 1
        &&& post.total_registrations_spec() == pre.total_registrations_spec() + 1
    }
}

/// Statistics about the registry.
#[derive(Debug, Clone, Copy)]
pub struct ClientManagerStats {
    pub active_clients: usize,
    pub inactive_clients: usize,
    pub total_clients: usize,
    pub total_registrations: usize,
    pub total_participation: i32,
    pub total_submissions: i32,
}

/// Manages all registered clients.
pub struct ClientManager {
    /// The client records; no two share a client id.
    clients: Vec<ClientInfo>,
    /// Next available client index.
    next_index: i32,
    /// Number of successful registrations (including clients since removed).
    total_registrations: usize,
    /// Maximum number of clients allowed.
    max_clients: usize,
}

impl View for ClientManager {
    type V = Map<Seq<char>, ClientInfo>;

    /// The registry as a map from client id to client record.
    closed spec fn view(&self) -> Map<Seq<char>, ClientInfo> {
        table_map(self.clients@)
    }
}

impl ClientManager {
    /// The internal records are consistent: ids are unique, indices are
    /// unique and below the next index, and the capacity is respected.
    pub closed spec fn wf(&self) -> bool {
        &&& ids_distinct(self.clients@)
        &&& 0 <= self.next_index
        &&& indices_below(self.clients@, self.next_index as int)
        &&& indices_distinct(self.clients@)
        &&& self.clients@.len() <= self.max_clients
    }

    /// The index the next registration receives.
    pub closed spec fn next_index_spec(&self) -> int {
        self.next_index as int
    }

    /// Number of successful registrations so far.
    pub closed spec fn total_registrations_spec(&self) -> nat {
        self.total_registrations as nat
    }

    /// Maximum number of clients allowed.
    pub closed spec fn max_clients_spec(&self) -> nat {
        self.max_clients as nat
    }

    /// The scalar bookkeeping of `self` and `other` agree.
    pub open spec fn same_counters(&self, other: &ClientManager) -> bool {
        &&& self.next_index_spec() == other.next_index_spec()
        &&& self.total_registrations_spec() == other.total_registrations_spec()
        &&& self.max_clients_spec() == other.max_clients_spec()
    }

    /// The map is finite and has one entry per stored record.
    proof fn lemma_view(&self)
        requires
            self.wf(),
        ensures
            self@.dom().finite(),
            self@.len() == self.clients@.len(),
            forall|id: Seq<char>| #[trigger] self@.contains_key(id) <==> has_id(self.clients@, id),
    {
        lemma_table_len(self.clients@);
        lemma_table_dom(self.clients@);
    }

    /// Creates an empty registry for at most 100 clients.
    pub fn new() -> (m: Self)
        ensures
            m.wf(),
            m@ == Map::<Seq<char>, ClientInfo>::empty(),
            m.next_index_spec() == 0,
            m.total_registrations_spec() == 0,
            m.max_clients_spec() == 100,
    {
        Self::with_capacity(100)
    }

    /// Creates an empty registry for at most `max_clients` clients.
    pub fn with_capacity(max_clients: usize) -> (m: Self)
        ensures
            m.wf(),
            m@ == Map::<Seq<char>, ClientInfo>::empty(),
            m.next_index_spec() == 0,
            m.total_registrations_spec() == 0,
            m.max_clients_spec() == max_clients,
    {
        let m = ClientManager {
            clients: Vec::new(),
            next_index: 0,
            total_registrations: 0,
            max_clients,
        };
        assert(m@ =~= Map::<Seq<char>, ClientInfo>::empty());
        m
    }

    /// Position of the record with id `key`, if any.
    fn find(&self, key: &String) -> (r: Option<usize>)
        requires
            self.wf(),
        ensures
            match r {
                Some(i) => i < self.clients@.len() && self.clients@[i as int].client_id@ == key@
                    && self@.contains_key(key@) && self@[key@] == self.clients@[i as int],
                None => !self@.contains_key(key@),
            },
    {
        proof {
            self.lemma_view();
        }
        let n = self.clients.len();
        let mut i: usize = 0;
        while i < n
            invariant
                self.wf(),
                n == self.clients@.len(),
                i <= n,
                forall|k: int| 0 <= k < i ==> self.clients@[k].client_id@ != key@,
            decreases n - i,
        {
            if self.clients[i].client_id == *key {
                proof {
                    lemma_table_value(self.clients@, i as int);
                }
                return Some(i);
            }
            i = i + 1;
        }
        None
    }

    /// Whether a registration of `client_id` would be accepted: the id is
    /// new and the registry is below its capacity.
    pub open spec fn admits(&self, client_id: Seq<char>) -> bool {
        !self@.contains_key(client_id) && self@.len() < self.max_clients_spec()
    }

    /// Whether the index and registration counters leave room for one more
    /// registration.
    pub open spec fn has_counter_room(&self) -> bool {
        self.next_index_spec() < i32::MAX && self.total_registrations_spec() < usize::MAX
    }

    /// Whether `register` may be called for `client_id`: a registration that
    /// would be refused always may; one that would be accepted needs room in
    /// the index and registration counters.
    pub fn can_register(&self, client_id: &str) -> (r: bool)
        requires
            self.wf(),
        ensures
            r == (self.admits(client_id@) ==> self.has_counter_room()),
    {
        proof {
            self.lemma_view();
        }
        let key = client_id.to_owned();
        if self.find(&key).is_some() || self.clients.len() >= self.max_clients {
            return true;
        }
        self.next_index < i32::MAX && self.total_registrations < usize::MAX
    }

    /// Registers a client at time `now`; returns the index assigned to it.
    pub fn register_at(
        &mut self,
        client_id: String,
        session_token: String,
        capabilities: Option<ClientCapabilities>,
        now: u64,
    ) -> (r: Result<i32, ClientError>)
        requires
            old(self).wf(),
            old(self).admits(client_id@) ==> old(self).has_counter_room(),
        ensures
            registration_outcome(
                *old(self),
                *final(self),
                client_id,
                session_token,
                capabilities,
                now,
                r,
            ),
    {
        proof {
            self.lemma_view();
        }
        if self.find(&client_id).is_some() {
            return Err(ClientError::AlreadyRegistered);
        }
        if self.clients.len() >= self.max_clients {
            return Err(ClientError::CapacityReached);
        }
        let client_index = self.next_index;
        self.next_index = self.next_index + 1;
        let info = ClientInfo::new_at(client_id, session_token, client_index, capabilities, now);
        proof {
            lemma_table_push(self.clients@, info);
            lemma_indices_push(self.clients@, info, client_index as int);
        }
        self.clients.push(info);
        self.total_registrations = self.total_registrations + 1;
        Ok(client_index)
    }

    /// Registers a client now (system clock); returns the index assigned to it.
    pub fn register(
        &mut self,
        client_id: String,
        session_token: String,
        capabilities: Option<ClientCapabilities>,
    ) -> (r: Result<i32, ClientError>)
        requires
            old(self).wf(),
            old(self).admits(client_id@) ==> old(self).has_counter_room(),
        ensures
            registration_outcome(
                *old(self),
                *final(self),
                client_id,
                session_token,
                capabilities,
                final(self)@[client_id@].registered_at,
                r,
            ),
            r is Ok ==> clock_reading(final(self)@[client_id@].registered_at),
    {
        let now = unix_timestamp();
        self.register_at(client_id, session_token, capabilities, now)
    }

    /// Whether `token` is the session token of the active client `client_id`.
    pub fn validate_session(&self, client_id: &str, token: &str) -> (r: bool)
        requires
            self.wf(),
        ensures
            r == (self@.contains_key(client_id@) && self@[client_id@].session_token@ == token@
                && self@[client_id@].active),
    {
        let key = client_id.to_owned();
        match self.find(&key) {
            Some(i) => {
                let expected = token.to_owned();
                self.clients[i].session_token == expected && self.clients[i].active
            },
            None => false,
        }
    }

    /// Records a heartbeat of `client_id` received at time `now`.
    pub fn update_heartbeat_at(&mut self, client_id: &str, now: u64) -> (r: Result<(), ClientError>)
        requires
            old(self).wf(),
        ensures
            keeps_inactive(old(self)@, final(self)@),
            final(self).wf(),
            final(self).same_counters(old(self)),
            if old(self)@.contains_key(client_id@) {
                &&& r == Ok::<(), ClientError>(())
                &&& final(self)@ == old(self)@.insert(
                    client_id@,
                    ClientInfo { last_heartbeat: now, ..old(self)@[client_id@] },
                )
            } else {
                &&& r == Err::<(), ClientError>(ClientError::NotFound)
                &&& *final(self) == *old(self)
            },
    {
        let key = client_id.to_owned();
        match self.find(&key) {
            Some(i) => {
                let ghost before = self.clients@;
                let ghost updated = ClientInfo { last_heartbeat: now, ..before[i as int] };
                proof {
                    lemma_table_update(before, i as int, updated);
                    lemma_indices_update(before, i as int, updated, self.next_index as int);
                }
                self.clients[i].update_heartbeat_at(now);
                assert(self.clients@ == before.update(i as int, updated));
                Ok(())
            },
            None => Err(ClientError::NotFound),
        }
    }

    /// Records a heartbeat of `client_id` received now (system clock).
    pub fn update_heartbeat(&mut self, client_id: &str) -> (r: Result<(), ClientError>)
        requires
            old(self).wf(),
        ensures
            keeps_inactive(old(self)@, final(self)@),
            final(self).wf(),
            final(self).same_counters(old(self)),
            if old(self)@.contains_key(client_id@) {
                &&& r == Ok::<(), ClientError>(())
                &&& final(self)@ == old(self)@.insert(
                    client_id@,
                    ClientInfo {
                        last_heartbeat: final(self)@[client_id@].last_heartbeat,
                        ..old(self)@[client_id@]
                    },
                )
            } else {
                &&& r == Err::<(), ClientError>(ClientError::NotFound)
                &&& *final(self) == *old(self)
            },
            old(self)@.contains_key(client_id@) ==> clock_reading(
                final(self)@[client_id@].last_heartbeat,
            ),
    {
        let now = unix_timestamp();
        self.update_heartbeat_at(client_id, now)
    }

    /// The record of `client_id`, if registered.
    pub fn get_client(&self, client_id: &str) -> (r: Option<&ClientInfo>)
        requires
            self.wf(),
        ensures
            r == if self@.contains_key(client_id@) {
                Some(&self@[client_id@])
            } else {
                None
            },
    {
        let key = client_id.to_owned();
        match self.find(&key) {
            Some(i) => Some(&self.clients[i]),
            None => None,
        }
    }

    /// Mutable access to the record of `client_id`, if registered.
    /// The registry stays consistent when the caller keeps the record's id.
    pub fn get_client_mut(&mut self, client_id: &str) -> (r: Option<&mut ClientInfo>)
        requires
            old(self).wf(),
        ensures
            final(self).same_counters(old(self)),
            match r {
                Some(c) => {
                    &&& old(self)@.contains_key(client_id@)
                    &&& *c == old(self)@[client_id@]
                    &&& final(c).client_id@ == client_id@ && final(c).client_index == c.client_index ==> {
                        &&& final(self).wf()
                        &&& final(self)@ == old(self)@.insert(client_id@, *final(c))
                    }
                },
                None => {
                    &&& !old(self)@.contains_key(client_id@)
                    &&& *final(self) == *old(self)
                },
            },
    {
        let key = client_id.to_owned();
        match self.find(&key) {
            Some(i) => {
                let ghost before = self.clients@;
                assert forall|v: ClientInfo|
                    v.client_id@ == client_id@ && v.client_index == before[i as int].client_index implies ids_distinct(
                    #[trigger] before.update(i as int, v),
                ) && indices_below(before.update(i as int, v), self.next_index as int)
                    && indices_distinct(before.update(i as int, v)) && table_map(
                    before.update(i as int, v),
                ) == table_map(before).insert(client_id@, v) by {
                    lemma_table_update(before, i as int, v);
                    lemma_indices_update(before, i as int, v, self.next_index as int);
                }
                let c = &mut self.clients[i];
                Some(c)
            },
            None => None,
        }
    }

    /// Number of active clients.
    pub fn get_active_count(&self) -> (r: usize)
        requires
            self.wf(),
        ensures
            r == active_ids(self@).len(),
    {
        let n = self.clients.len();
        let mut count: usize = 0;
        let mut i: usize = 0;
        while i < n
            invariant
                n == self.clients@.len(),
                i <= n,
                count == count_active(self.clients@.take(i as int)),
                count <= i,
            decreases n - i,
        {
            assert(self.clients@.take(i as int + 1).drop_last() =~= self.clients@.take(i as int));
            if self.clients[i].active {
                count = count + 1;
            }
            i = i + 1;
        }
        proof {
            assert(self.clients@.take(n as int) =~= self.clients@);
            lemma_table_active(self.clients@);
        }
        count
    }

    /// Number of registered clients, active or not.
    pub fn get_total_count(&self) -> (r: usize)
        requires
            self.wf(),
        ensures
            r == self@.len(),
    {
        proof {
            self.lemma_view();
        }
        self.clients.len()
    }

    /// Lists all clients, or only the active ones.
    fn collect_clients(&self, only_active: bool) -> (r: Vec<&ClientInfo>)
        requires
            self.wf(),
        ensures
            enumerates(
                r@,
                self@,
                if only_active {
                    active_ids(self@)
                } else {
                    self@.dom()
                },
            ),
    {
        proof {
            self.lemma_view();
        }
        let ghost ids = if only_active {
            active_ids(self@)
        } else {
            self@.dom()
        };
        let n = self.clients.len();
        let mut r: Vec<&ClientInfo> = Vec::new();
        let ghost mut idx: Seq<int> = Seq::empty();
        let mut i: usize = 0;
        while i < n
            invariant
                self.wf(),
                n == self.clients@.len(),
                i <= n,
                ids == if only_active {
                    active_ids(self@)
                } else {
                    self@.dom()
                },
                r@.len() == idx.len(),
                forall|k: int| 0 <= k < idx.len() ==> 0 <= #[trigger] idx[k] < i,
                forall|a: int, b: int| 0 <= a < b < idx.len() ==> idx[a] < idx[b],
                forall|k: int| 0 <= k < idx.len() ==> *r@[k] == self.clients@[#[trigger] idx[k]],
                forall|k: int|
                    0 <= k < idx.len() ==> (!only_active || self.clients@[#[trigger] idx[k]].active),
                forall|j: int|
                    0 <= j < i && (!only_active || self.clients@[j].active) ==> exists|k: int|
                        0 <= k < idx.len() && #[trigger] idx[k] == j,
            decreases n - i,
        {
            if !only_active || self.clients[i].active {
                r.push(&self.clients[i]);
                proof {
                    let ghost prev = idx;
                    idx = idx.push(i as int);
                    assert forall|j: int|
                        0 <= j < i + 1 && (!only_active || self.clients@[j].active) implies exists|
                        k: int,
                    | 0 <= k < idx.len() && #[trigger] idx[k] == j by {
                        if j == i {
                            assert(idx[idx.len() - 1] == j);
                        } else {
                            let k = choose|k: int| 0 <= k < prev.len() && #[trigger] prev[k] == j;
                            assert(idx[k] == prev[k]);
                        }
                    }
                }
            }
            i = i + 1;
        }
        proof {
            assert forall|k: int| 0 <= k < r@.len() implies ids.contains(
                #[trigger] r@[k].client_id@,
            ) && self@.contains_key(r@[k].client_id@) && self@[r@[k].client_id@] == *r@[k] by {
                lemma_table_value(self.clients@, idx[k]);
            }
            assert forall|id: Seq<char>| #[trigger] ids.contains(id) implies exists|k: int|
                0 <= k < r@.len() && r@[k].client_id@ == id by {
                assert(has_id(self.clients@, id));
                let j = choose|j: int| 0 <= j < self.clients@.len() && self.clients@[j].client_id@ == id;
                lemma_table_value(self.clients@, j);
                let k = choose|k: int| 0 <= k < idx.len() && #[trigger] idx[k] == j;
                assert(r@[k].client_id@ == id);
            }
            assert forall|a: int, b: int| 0 <= a < b < r@.len() implies r@[a].client_id@
                != r@[b].client_id@ by {
                assert(idx[a] < idx[b]);
            }
        }
        r
    }

    /// All active clients, each once, in no particular order.
    pub fn get_active_clients(&self) -> (r: Vec<&ClientInfo>)
        requires
            self.wf(),
        ensures
            enumerates(r@, self@, active_ids(self@)),
    {
        self.collect_clients(true)
    }

    /// All registered clients, each once, in no particular order.
    pub fn get_all_clients(&self) -> (r: Vec<&ClientInfo>)
        requires
            self.wf(),
        ensures
            enumerates(r@, self@, self@.dom()),
    {
        self.collect_clients(false)
    }

    /// Deactivates, at time `now`, every active client whose last heartbeat
    /// is more than `timeout_secs` seconds old.
    pub fn cleanup_inactive_at(&mut self, timeout_secs: u64, now: u64)
        requires
            old(self).wf(),
            heartbeats_not_after(old(self)@, now),
        ensures
            keeps_inactive(old(self)@, final(self)@),
            final(self).wf(),
            final(self).same_counters(old(self)),
            final(self)@ == cleaned(old(self)@, timeout_secs, now),
    {
        self.cleanup_pass(timeout_secs, now);
    }

    /// One cleanup pass at time `now`; ages are wrapping differences.
    fn cleanup_pass(&mut self, timeout_secs: u64, now: u64)
        requires
            old(self).wf(),
        ensures
            keeps_inactive(old(self)@, final(self)@),
            final(self).wf(),
            final(self).same_counters(old(self)),
            final(self)@ == cleaned(old(self)@, timeout_secs, now),
    {
        let ghost before = self.clients@;
        let ghost f = |c: ClientInfo| after_cleanup(c, timeout_secs, now);
        let n = self.clients.len();
        let mut i: usize = 0;
        while i < n
            invariant
                n == self.clients@.len(),
                n == before.len(),
                i <= n,
                forall|k: int| 0 <= k < i ==> self.clients@[k] == after_cleanup(#[trigger] before[k], timeout_secs, now),
                forall|k: int| i <= k < n ==> #[trigger] self.clients@[k] == before[k],
                self.next_index == old(self).next_index,
                self.total_registrations == old(self).total_registrations,
                self.max_clients == old(self).max_clients,
            decreases n - i,
        {
            let ghost cur = self.clients@;
            if self.clients[i].active && now.wrapping_sub(self.clients[i].last_heartbeat)
                > timeout_secs {
                self.clients[i].deactivate();
                assert(self.clients@ =~= cur.update(i as int, after_cleanup(before[i as int], timeout_secs, now)));
            } else {
                assert(self.clients@[i as int] == after_cleanup(before[i as int], timeout_secs, now));
            }
            i = i + 1;
        }
        proof {
            assert(self.clients@ =~= before.map_values(f));
            lemma_table_map_values(before, f);
            lemma_indices_map_values(before, f, self.next_index as int);
        }
    }

    /// Deactivates, using the system clock, every active client whose last
    /// heartbeat is more than `timeout_secs` seconds old. Ages are wrapping
    /// differences, so a heartbeat ahead of the clock counts as expired.
    pub fn cleanup_inactive(&mut self, timeout_secs: u64)
        requires
            old(self).wf(),
        ensures
            keeps_inactive(old(self)@, final(self)@),
            final(self).wf(),
            final(self).same_counters(old(self)),
            exists|now: u64|
                clock_reading(now) && #[trigger] cleanup_outcome(
                    *old(self),
                    *final(self),
                    timeout_secs,
                    now,
                ),
    {
        let now = unix_timestamp();
        self.cleanup_pass(timeout_secs, now);
        assert(clock_reading(now) && cleanup_outcome(*old(self), *self, timeout_secs, now));
    }

    /// Removes a client completely.
    pub fn remove_client(&mut self, client_id: &str) -> (r: Result<(), ClientError>)
        requires
            old(self).wf(),
        ensures
            keeps_inactive(old(self)@, final(self)@),
            final(self).wf(),
            final(self).same_counters(old(self)),
            if old(self)@.contains_key(client_id@) {
                &&& r == Ok::<(), ClientError>(())
                &&& final(self)@ == old(self)@.remove(client_id@)
            } else {
                &&& r == Err::<(), ClientError>(ClientError::NotFound)
                &&& *final(self) == *old(self)
            },
    {
        let key = client_id.to_owned();
        match self.find(&key) {
            Some(i) => {
                proof {
                    lemma_table_remove(self.clients@, i as int);
                    lemma_indices_remove(self.clients@, i as int, self.next_index as int);
                }
                self.clients.remove(i);
                Ok(())
            },
            None => Err(ClientError::NotFound),
        }
    }

    /// Counts one more round of participation for `client_id`.
    pub fn record_participation(&mut self, client_id: &str) -> (r: Result<(), ClientError>)
        requires
            old(self).wf(),
            old(self)@.contains_key(client_id@) ==> old(self)@[client_id@].rounds_participated
                < i32::MAX,
        ensures
            keeps_inactive(old(self)@, final(self)@),
            final(self).wf(),
            final(self).same_counters(old(self)),
            if old(self)@.contains_key(client_id@) {
                &&& r == Ok::<(), ClientError>(())
                &&& final(self)@ == old(self)@.insert(
                    client_id@,
                    ClientInfo {
                        rounds_participated: (old(self)@[client_id@].rounds_participated
                            + 1) as i32,
                        ..old(self)@[client_id@]
                    },
                )
            } else {
                &&& r == Err::<(), ClientError>(ClientError::NotFound)
                &&& *final(self) == *old(self)
            },
    {
        let key = client_id.to_owned();
        match self.find(&key) {
            Some(i) => {
                let ghost before = self.clients@;
                let ghost updated = ClientInfo {
                    rounds_participated: (before[i as int].rounds_participated + 1) as i32,
                    ..before[i as int]
                };
                proof {
                    lemma_table_update(before, i as int, updated);
                    lemma_indices_update(before, i as int, updated, self.next_index as int);
                }
                self.clients[i].increment_participation();
                assert(self.clients@ == before.update(i as int, updated));
                Ok(())
            },
            None => Err(ClientError::NotFound),
        }
    }

    /// Counts one more gradient submission for `client_id`.
    pub fn record_submission(&mut self, client_id: &str) -> (r: Result<(), ClientError>)
        requires
            old(self).wf(),
            old(self)@.contains_key(client_id@) ==> old(self)@[client_id@].gradients_submitted
                < i32::MAX,
        ensures
            keeps_inactive(old(self)@, final(self)@),
            final(self).wf(),
            final(self).same_counters(old(self)),
            if old(self)@.contains_key(client_id@) {
                &&& r == Ok::<(), ClientError>(())
                &&& final(self)@ == old(self)@.insert(
                    client_id@,
                    ClientInfo {
                        gradients_submitted: (old(self)@[client_id@].gradients_submitted
                            + 1) as i32,
                        ..old(self)@[client_id@]
                    },
                )
            } else {
                &&& r == Err::<(), ClientError>(ClientError::NotFound)
                &&& *final(self) == *old(self)
            },
    {
        let key = client_id.to_owned();
        match self.find(&key) {
            Some(i) => {
                let ghost before = self.clients@;
                let ghost updated = ClientInfo {
                    gradients_submitted: (before[i as int].gradients_submitted + 1) as i32,
                    ..before[i as int]
                };
                proof {
                    lemma_table_update(before, i as int, updated);
                    lemma_indices_update(before, i as int, updated, self.next_index as int);
                }
                self.clients[i].increment_submissions();
                assert(self.clients@ == before.update(i as int, updated));
                Ok(())
            },
            None => Err(ClientError::NotFound),
        }
    }

    /// Sum of one counter (participation or submissions) over all records.
    fn counter_sum(&self, participation: bool) -> (r: i128)
        ensures
            r == seq_total(
                self.clients@,
                if participation {
                    participation_of()
                } else {
                    submissions_of()
                },
            ),
    {
        let ghost f = if participation {
            participation_of()
        } else {
            submissions_of()
        };
        let n = self.clients.len();
        let mut acc: i128 = 0;
        let mut i: usize = 0;
        while i < n
            invariant
                n == self.clients@.len(),
                i <= n,
                f == if participation {
                    participation_of()
                } else {
                    submissions_of()
                },
                acc == seq_total(self.clients@.take(i as int), f),
                -(i as int) * 0x8000_0000 <= acc <= (i as int) * 0x8000_0000,
            decreases n - i,
        {
            assert(self.clients@.take(i as int + 1).drop_last() =~= self.clients@.take(i as int));
            let v: i32 = if participation {
                self.clients[i].rounds_participated
            } else {
                self.clients[i].gradients_submitted
            };
            assert(f(self.clients@[i as int]) == v);
            acc = acc + v as i128;
            i = i + 1;
        }
        assert(self.clients@.take(n as int) =~= self.clients@);
        acc
    }

    /// Statistics about the registered clients.
    pub fn get_stats(&self) -> (r: ClientManagerStats)
        requires
            self.wf(),
            i32::MIN <= participation_total(self@) <= i32::MAX,
            i32::MIN <= submissions_total(self@) <= i32::MAX,
        ensures
            r.active_clients == active_ids(self@).len(),
            r.inactive_clients == self@.len() - active_ids(self@).len(),
            r.total_clients == self@.len(),
            r.total_registrations == self.total_registrations_spec(),
            r.total_participation == participation_total(self@),
            r.total_submissions == submissions_total(self@),
    {
        proof {
            self.lemma_view();
            lemma_table_total(self.clients@, participation_of());
            lemma_table_total(self.clients@, submissions_of());
            lemma_table_active(self.clients@);
            vstd::set_lib::lemma_len_subset(active_ids(self@), self@.dom());
        }
        let active_count = self.get_active_count();
        let total = self.clients.len();
        let participation = self.counter_sum(true);
        let submissions = self.counter_sum(false);
        ClientManagerStats {
            active_clients: active_count,
            inactive_clients: total - active_count,
            total_clients: total,
            total_registrations: self.total_registrations,
            total_participation: participation as i32,
            total_submissions: submissions as i32,
        }
    }

    /// Sets every client's participation and submission counters back to zero.
    pub fn reset_stats(&mut self)
        requires
            old(self).wf(),
        ensures
            keeps_inactive(old(self)@, final(self)@),
            final(self).wf(),
            final(self).same_counters(old(self)),
            final(self)@ == stats_reset(old(self)@),
    {
        let ghost before = self.clients@;
        let n = self.clients.len();
        let mut i: usize = 0;
        while i < n
            invariant
                n == self.clients@.len(),
                n == before.len(),
                i <= n,
                forall|k: int| 0 <= k < i ==> self.clients@[k] == stats_cleared(#[trigger] before[k]),
                forall|k: int| i <= k < n ==> #[trigger] self.clients@[k] == before[k],
                self.next_index == old(self).next_index,
                self.total_registrations == old(self).total_registrations,
                self.max_clients == old(self).max_clients,
            decreases n - i,
        {
            let ghost cur = self.clients@;
            self.clients[i].rounds_participated = 0;
            self.clients[i].gradients_submitted = 0;
            assert(self.clients@ =~= cur.update(i as int, stats_cleared(before[i as int])));
            i = i + 1;
        }
        proof {
            let f = |c: ClientInfo| stats_cleared(c);
            assert(self.clients@ =~= before.map_values(f));
            lemma_table_map_values(before, f);
            lemma_indices_map_values(before, f, self.next_index as int);
        }
    }

    /// Removes every client and restarts index assignment at 0.
    pub fn clear(&mut self)
        ensures
            keeps_inactive(old(self)@, final(self)@),
            final(self).wf(),
            final(self)@ == Map::<Seq<char>, ClientInfo>::empty(),
            final(self).next_index_spec() == 0,
            final(self).total_registrations_spec() == old(self).total_registrations_spec(),
            final(self).max_clients_spec() == old(self).max_clients_spec(),
    {
        self.clients.clear();
        self.next_index = 0;
        assert(self@ =~= Map::<Seq<char>, ClientInfo>::empty());
    }
}

impl Default for ClientManager {
    /// An empty registry for at most 100 clients.
    fn default() -> (m: Self)
        ensures
            m.wf(),
            m@ == Map::<Seq<char>, ClientInfo>::empty(),
            m.next_index_spec() == 0,
            m.total_registrations_spec() == 0,
            m.max_clients_spec() == 100,
    {
        Self::new()
    }
}

/// Every registered client is stored under its own id, holds an index
/// below the next one to be assigned, and no two registered clients share
/// an index.
pub proof fn lemma_client_indices(m: &ClientManager)
    requires
        m.wf(),
    ensures
        forall|id: Seq<char>| #[trigger] m@.contains_key(id) ==> m@[id].client_id@ == id,
        forall|id: Seq<char>|
            #[trigger] m@.contains_key(id) ==> 0 <= m@[id].client_index < m.next_index_spec(),
        forall|a: Seq<char>, b: Seq<char>|
            #[trigger] m@.contains_key(a) && #[trigger] m@.contains_key(b) && a != b
                ==> m@[a].client_index != m@[b].client_index,
{
    lemma_table_dom(m.clients@);
    assert forall|id: Seq<char>| #[trigger] m@.contains_key(id) implies m@[id].client_id@ == id
        && 0 <= m@[id].client_index < m.next_index_spec() by {
        let i = choose|i: int| 0 <= i < m.clients@.len() && m.clients@[i].client_id@ == id;
        lemma_table_value(m.clients@, i);
    }
    assert forall|a: Seq<char>, b: Seq<char>|
        #[trigger] m@.contains_key(a) && #[trigger] m@.contains_key(b) && a != b implies m@[a].client_index
        != m@[b].client_index by {
        let i = choose|i: int| 0 <= i < m.clients@.len() && m.clients@[i].client_id@ == a;
        let j = choose|j: int| 0 <= j < m.clients@.len() && m.clients@[j].client_id@ == b;
        lemma_table_value(m.clients@, i);
        lemma_table_value(m.clients@, j);
        assert(i != j);
    }
}

/// The registry never holds more clients than its capacity, and its
/// active clients are among its registered ones.
pub proof fn lemma_within_capacity(m: &ClientManager)
    requires
        m.wf(),
    ensures
        m@.dom().finite(),
        active_ids(m@).len() <= m@.len(),
        m@.len() <= m.max_clients_spec(),
{
    m.lemma_view();
    lemma_table_active(m.clients@);
    vstd::set_lib::lemma_len_subset(active_ids(m@), m@.dom());
}

/// A client that registered successfully is active and holds the token it
/// registered with, so `validate_session` accepts that token; its counters
/// start at zero, so the registry's totals do not change.
pub proof fn lemma_registration_validates(
    pre: ClientManager,
    post: ClientManager,
    client_id: String,
    session_token: String,
    capabilities: Option<ClientCapabilities>,
    now: u64,
    r: Result<i32, ClientError>,
)
    requires
        pre.wf(),
        registration_outcome(pre, post, client_id, session_token, capabilities, now, r),
        r is Ok,
    ensures
        post@.contains_key(client_id@),
        post@[client_id@].session_token@ == session_token@,
        post@[client_id@].active,
        post@[client_id@].client_index == r->Ok_0,
        participation_total(post@) == participation_total(pre@),
        submissions_total(post@) == submissions_total(pre@),
{
    pre.lemma_view();
    let c = fresh_client(client_id, session_token, pre.next_index_spec() as i32, capabilities, now);
    lemma_map_total_insert(pre@, participation_of(), client_id@, c);
    lemma_map_total_insert(pre@, submissions_of(), client_id@, c);
}

/// Removing a client that was just registered gives back the registry as
/// it was before the registration.
pub proof fn lemma_remove_undoes_register(
    pre: ClientManager,
    mid: ClientManager,
    post: ClientManager,
    client_id: String,
    session_token: String,
    capabilities: Option<ClientCapabilities>,
    now: u64,
    r: Result<i32, ClientError>,
)
    requires
        registration_outcome(pre, mid, client_id, session_token, capabilities, now, r),
        r is Ok,
        post@ == mid@.remove(client_id@),
    ensures
        post@ == pre@,
{
    assert(post@ =~= pre@);
}

/// A cleanup pass keeps every client and every field but the active flag;
/// it deactivates exactly the active clients whose heartbeat is older than
/// the timeout, and never activates one.
pub proof fn lemma_cleanup_only_deactivates(
    m: Map<Seq<char>, ClientInfo>,
    timeout_secs: u64,
    now: u64,
)
    ensures
        cleaned(m, timeout_secs, now).dom() == m.dom(),
        forall|id: Seq<char>|
            #[trigger] cleaned(m, timeout_secs, now).contains_key(id) ==> {
                let c = cleaned(m, timeout_secs, now)[id];
                &&& c == (ClientInfo { active: c.active, ..m[id] })
                &&& c.active == (m[id].active && !expired_at_reading(
                    m[id].last_heartbeat,
                    timeout_secs,
                    now,
                ))
            },
{
    assert(cleaned(m, timeout_secs, now).dom() =~= m.dom());
}

/// A client whose heartbeat was just recorded at time `now` stays active
/// through a cleanup pass made at that same time, whatever the timeout.
pub proof fn lemma_fresh_heartbeat_survives_cleanup(
    m: Map<Seq<char>, ClientInfo>,
    id: Seq<char>,
    timeout_secs: u64,
    now: u64,
)
    requires
        m.contains_key(id),
    ensures
        ({
            let after = cleaned(
                m.insert(id, ClientInfo { last_heartbeat: now, ..m[id] }),
                timeout_secs,
                now,
            );
            after.contains_key(id) && after[id].active == m[id].active
        }),
{
}

/// A client that registers successfully at clock reading `now` is stored
/// with `now` as both its registration time and its last heartbeat, active
/// and with the session token it was given; so a cleanup pass at that same
/// reading leaves it active whatever the timeout, and its session validates.
pub proof fn lemma_registration_stamps_reading(
    pre: ClientManager,
    post: ClientManager,
    client_id: String,
    session_token: String,
    capabilities: Option<ClientCapabilities>,
    now: u64,
    r: Result<i32, ClientError>,
    timeout_secs: u64,
)
    requires
        registration_outcome(pre, post, client_id, session_token, capabilities, now, r),
        r is Ok,
    ensures
        post@.contains_key(client_id@),
        post@[client_id@].registered_at == now,
        post@[client_id@].last_heartbeat == now,
        post@[client_id@].active,
        post@[client_id@].session_token == session_token,
        cleaned(post@, timeout_secs, now).contains_key(client_id@),
        cleaned(post@, timeout_secs, now)[client_id@].active,
{
    if pre@.contains_key(client_id@) {
    } else if pre@.len() >= pre.max_clients_spec() {
    } else {
        assert(post@[client_id@].last_heartbeat == now);
        assert(!expired_at_reading(now, timeout_secs, now));
    }
}

/// For a heartbeat not after the clock reading `now`, the clock-reading
/// inactivity test is the plain age comparison `now - last_heartbeat >
/// timeout_secs`: in particular a heartbeat at most `timeout_secs` seconds
/// old is never inactive, and one taken at the reading itself never is.
/// A heartbeat ahead of the reading counts as inactive exactly when the
/// 64-bit wrapping difference exceeds the timeout.
pub proof fn lemma_inactivity_is_age_over_timeout(last_heartbeat: u64, timeout_secs: u64, now: u64)
    ensures
        last_heartbeat <= now ==> (expired_at_reading(last_heartbeat, timeout_secs, now) <==> now
            - last_heartbeat > timeout_secs),
        last_heartbeat <= now ==> (expired_at_reading(last_heartbeat, timeout_secs, now)
            == heartbeat_expired(last_heartbeat, timeout_secs, now)),
        last_heartbeat <= now && now - last_heartbeat <= timeout_secs ==> !expired_at_reading(
            last_heartbeat,
            timeout_secs,
            now,
        ),
        !expired_at_reading(now, timeout_secs, now),
        last_heartbeat > now ==> (expired_at_reading(last_heartbeat, timeout_secs, now) <==> now
            + 0x1_0000_0000_0000_0000 - last_heartbeat > timeout_secs),
{
}

/// After `reset_stats`, the participation and submission totals are zero.
pub proof fn lemma_reset_stats_zeroes_totals(m: Map<Seq<char>, ClientInfo>)
    requires
        m.dom().finite(),
    ensures
        participation_total(stats_reset(m)) == 0,
        submissions_total(stats_reset(m)) == 0,
{
    let z = stats_reset(m);
    assert(z.dom() =~= m.dom());
    lemma_map_total_zero(z, participation_of());
    lemma_map_total_zero(z, submissions_of());
}

/// Recording a participation adds exactly one to the participation total
/// and leaves the submission total unchanged.
pub proof fn lemma_participation_counts_once(m: Map<Seq<char>, ClientInfo>, id: Seq<char>)
    requires
        m.dom().finite(),
        m.contains_key(id),
        m[id].rounds_participated < i32::MAX,
    ensures
        ({
            let n = m.insert(
                id,
                ClientInfo { rounds_participated: (m[id].rounds_participated + 1) as i32, ..m[id] },
            );
            &&& participation_total(n) == participation_total(m) + 1
            &&& submissions_total(n) == submissions_total(m)
        }),
{
    let p = ClientInfo { rounds_participated: (m[id].rounds_participated + 1) as i32, ..m[id] };
    lemma_map_total_insert(m, participation_of(), id, p);
    lemma_map_total_insert(m, submissions_of(), id, p);
}

/// Recording a gradient submission adds exactly one to the submission
/// total and leaves the participation total unchanged.
pub proof fn lemma_submission_counts_once(m: Map<Seq<char>, ClientInfo>, id: Seq<char>)
    requires
        m.dom().finite(),
        m.contains_key(id),
        m[id].gradients_submitted < i32::MAX,
    ensures
        ({
            let n = m.insert(
                id,
                ClientInfo { gradients_submitted: (m[id].gradients_submitted + 1) as i32, ..m[id] },
            );
            &&& participation_total(n) == participation_total(m)
            &&& submissions_total(n) == submissions_total(m) + 1
        }),
{
    let g = ClientInfo { gradients_submitted: (m[id].gradients_submitted + 1) as i32, ..m[id] };
    lemma_map_total_insert(m, participation_of(), id, g);
    lemma_map_total_insert(m, submissions_of(), id, g);
}

/// A client that is inactive stays inactive along any sequence of registry
/// states in which it stays registered and each step keeps inactive clients
/// inactive (as every operation but `get_client_mut` does).
pub proof fn lemma_inactive_stays_inactive(states: Seq<ClientManager>, id: Seq<char>)
    requires
        states.len() >= 1,
        forall|i: int|
            0 <= i < states.len() - 1 ==> keeps_inactive(#[trigger] states[i]@, states[i + 1]@),
        forall|i: int| 0 <= i < states.len() ==> #[trigger] states[i]@.contains_key(id),
        !states[0]@[id].active,
    ensures
        forall|i: int| 0 <= i < states.len() ==> !(#[trigger] states[i]@[id].active),
    decreases states.len(),
{
    if states.len() > 1 {
        let p = states.drop_last();
        assert forall|i: int| 0 <= i < p.len() - 1 implies keeps_inactive(#[trigger] p[i]@, p[i + 1]@) by {
            assert(p[i] == states[i] && p[i + 1] == states[i + 1]);
        }
        assert forall|i: int| 0 <= i < p.len() implies #[trigger] p[i]@.contains_key(id) by {
            assert(p[i] == states[i]);
        }
        lemma_inactive_stays_inactive(p, id);
        let n = states.len() - 1;
        assert forall|i: int| 0 <= i < states.len() implies !(#[trigger] states[i]@[id].active) by {
            if i < n {
                assert(p[i] == states[i]);
            } else {
                assert(p[n - 1] == states[n - 1]);
                assert(keeps_inactive(states[n - 1]@, states[n]@));
                assert(states[n]@.contains_key(id) && states[n - 1]@.contains_key(id));
            }
        }
    }
}

/// One call in a sequence of calls on a registry, as far as the next index
/// goes: `r` is `Some(result)` for a registration with that result and
/// `None` for any other call.
pub open spec fn index_step(
    pre: ClientManager,
    post: ClientManager,
    r: Option<Result<i32, ClientError>>,
) -> bool {
    match r {
        Some(Ok(k)) => k == pre.next_index_spec() && post.next_index_spec() == pre.next_index_spec()
            + 1,
        _ => post.next_index_spec() == pre.next_index_spec(),
    }
}

/// Number of successful registrations among the given call results.
pub open spec fn successes(rs: Seq<Option<Result<i32, ClientError>>>) -> int
    decreases rs.len(),
{
    if rs.len() == 0 {
        0
    } else {
        successes(rs.drop_last()) + if rs.last() matches Some(Ok(_)) {
            1int
        } else {
            0int
        }
    }
}

/// A registration is an index step with its result, and every other
/// operation that keeps the registry's counters is an index step without one.
pub proof fn lemma_operations_are_index_steps(
    pre: ClientManager,
    post: ClientManager,
    client_id: String,
    session_token: String,
    capabilities: Option<ClientCapabilities>,
    now: u64,
    r: Result<i32, ClientError>,
)
    ensures
        registration_outcome(pre, post, client_id, session_token, capabilities, now, r)
            ==> index_step(pre, post, Some(r)),
        post.same_counters(&pre) ==> index_step(pre, post, None),
{
}

/// Starting from a fresh or cleared registry (next index 0), the k-th
/// successful registration (counting from 0) is assigned index k, whatever
/// other calls and refused registrations come in between: indices are
/// handed out in order, never reused, and a refused registration uses none.
pub proof fn lemma_kth_registration(
    states: Seq<ClientManager>,
    rs: Seq<Option<Result<i32, ClientError>>>,
)
    requires
        states.len() == rs.len() + 1,
        states[0].next_index_spec() == 0,
        forall|i: int| 0 <= i < rs.len() ==> index_step(states[i], states[i + 1], #[trigger] rs[i]),
    ensures
        forall|i: int|
            0 <= i < rs.len() ==> (#[trigger] rs[i] matches Some(Ok(k)) ==> k == successes(
                rs.take(i),
            )),
        states.last().next_index_spec() == successes(rs),
    decreases rs.len(),
{
    if rs.len() > 0 {
        let n = rs.len() - 1;
        let ps = states.drop_last();
        let prs = rs.drop_last();
        assert forall|i: int| 0 <= i < prs.len() implies index_step(ps[i], ps[i + 1], #[trigger] prs[i]) by {
            assert(ps[i] == states[i] && ps[i + 1] == states[i + 1] && prs[i] == rs[i]);
        }
        lemma_kth_registration(ps, prs);
        assert(ps.last() == states[n]);
        assert(index_step(states[n], states[n + 1], rs[n]));
        assert(rs.take(n) =~= prs);
        assert forall|i: int| 0 <= i < rs.len() implies (#[trigger] rs[i] matches Some(Ok(k)) ==> k
            == successes(rs.take(i))) by {
            if i < n {
                assert(prs[i] == rs[i]);
                assert(prs.take(i) =~= rs.take(i));
            }
        }
    }
}

} // verus!
