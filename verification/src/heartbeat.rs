//! Heartbeats between brokers and the controller.
//!
//! The controller's side keeps, for each broker that is connected, what it
//! reported last. The broker's side decides where to dial, when to try again
//! and what to send first.

use vstd::prelude::*;
use crate::assignment_writer::GroupSource;
use crate::keyed;
use crate::keyed::TextMap;
use crate::order;
use crate::order::insert_name;
use crate::text;
use crate::text::{chars_of, find_text};

verus! {

/// How often the controller pings, in milliseconds.
pub const DEFAULT_PING_INTERVAL_MS: u64 = 1000;

/// What a broker reports.
#[derive(Debug, PartialEq, Eq)]
pub struct BrokerStatus {
    pub broker_id: String,
    pub timestamp_ms: i64,
    pub last_seen_assignment_version: u64,
    pub active_groups: Vec<String>,
    /// Whether its main runtime makes progress.
    pub healthy: bool,
    /// Whether it is shutting down.
    pub draining: bool,
}

#[derive(Debug, Clone, Copy, PartialEq, Eq, Structural)]
pub enum CommandType {
    Ping,
    AssignmentChanged,
    Leaving,
}

/// What the controller sends.
#[derive(Debug, Clone, Copy, PartialEq, Eq, Structural)]
pub struct ControllerCommand {
    pub timestamp_ms: i64,
    pub command: CommandType,
    pub assignment_version: u64,
    /// The time on the broker's status that this answers.
    pub broker_status_timestamp_ms: i64,
}

/// Whether a connected broker is healthy and whether it is leaving.
#[derive(Debug, Clone, PartialEq, Eq)]
pub struct BrokerLiveness {
    pub id: String,
    pub healthy: bool,
    pub draining: bool,
}

/// What is kept of a connected broker.
#[derive(Debug)]
struct ClientState {
    session: u64,
    last_seen_ms: i64,
    last_seen_assignment_version: u64,
    active_groups: Vec<String>,
    healthy: bool,
    draining: bool,
}

#[verifier::ext_equal]
pub struct ClientModel {
    /// Tells the broker's connections apart.
    pub session: u64,
    pub last_seen_ms: i64,
    pub version: u64,
    pub groups: Seq<Seq<char>>,
    pub healthy: bool,
    pub draining: bool,
}

impl View for ClientState {
    type V = ClientModel;

    closed spec fn view(&self) -> ClientModel {
        ClientModel {
            session: self.session,
            last_seen_ms: self.last_seen_ms,
            version: self.last_seen_assignment_version,
            groups: order::texts(self.active_groups@),
            healthy: self.healthy,
            draining: self.draining,
        }
    }
}

/// The controller's side.
#[derive(Debug)]
pub struct HeartbeatServer {
    pending_version: u64,
    clients: TextMap<ClientState>,
}

#[verifier::ext_equal]
pub struct ServerModel {
    /// The version that was announced last.
    pub pending: u64,
    pub clients: Map<Seq<char>, ClientModel>,
}

spec fn client_view() -> spec_fn(ClientState) -> ClientModel {
    |c: ClientState| c@
}

impl View for HeartbeatServer {
    type V = ServerModel;

    closed spec fn view(&self) -> ServerModel {
        ServerModel { pending: self.pending_version, clients: self.clients@.map_values(client_view()) }
    }
}

/// What is kept of a status.
pub open spec fn reported(s: BrokerStatus, session: u64, now_ms: i64) -> ClientModel {
    ClientModel {
        session,
        last_seen_ms: now_ms,
        version: s.last_seen_assignment_version,
        groups: order::texts(s.active_groups@),
        healthy: s.healthy,
        draining: s.draining,
    }
}

/// Whether a session is the one that a broker is connected by.
pub open spec fn is_current(s: ServerModel, broker: Seq<char>, session: u64) -> bool {
    s.clients.contains_key(broker) && s.clients[broker].session == session
}

/// The groups that some connected broker reports.
pub open spec fn reported_groups(s: ServerModel) -> Set<Seq<char>> {
    Set::new(|g: Seq<char>| exists|b: Seq<char>| #[trigger] s.clients.contains_key(b) && s.clients[b].groups.contains(g))
}

/// Whether a list of groups holds exactly the reported ones.
pub open spec fn lists_groups(s: ServerModel, groups: Seq<Seq<char>>) -> bool {
    order::increasing(groups) && groups.to_set() == reported_groups(s)
}

pub open spec fn announcement(version: u64, answers_ms: i64, now_ms: i64) -> ControllerCommand {
    ControllerCommand {
        timestamp_ms: now_ms,
        command: CommandType::AssignmentChanged,
        assignment_version: version,
        broker_status_timestamp_ms: answers_ms,
    }
}

/// Why a connection is refused.
#[derive(Debug, Clone, Copy, PartialEq, Eq, Structural)]
pub enum ConnectError {
    /// The stream ended before the first status.
    MissingFirstStatus,
    /// The first status names no broker.
    MissingBrokerId,
}

/// How many commands may wait to go out on a stream. What finds no room is
/// dropped: the broker learns of it by reading the file.
pub const COMMAND_BUFFER: usize = 4;

/// One stream of a broker.
#[derive(Debug)]
pub struct BrokerStream {
    broker_id: String,
    session: u64,
    last_broker_ts_ms: i64,
}

#[verifier::ext_equal]
pub struct StreamModel {
    pub broker: Seq<char>,
    pub session: u64,
    /// The time on the broker's last status.
    pub sent_ms: i64,
}

impl View for BrokerStream {
    type V = StreamModel;

    closed spec fn view(&self) -> StreamModel {
        StreamModel { broker: self.broker_id@, session: self.session, sent_ms: self.last_broker_ts_ms }
    }
}

impl BrokerStream {
    /// The periodic ping, which echoes the time on the broker's last status.
    pub fn ping(&self, now_ms: i64) -> (c: ControllerCommand)
        ensures
            c == (ControllerCommand {
                timestamp_ms: now_ms,
                command: CommandType::Ping,
                assignment_version: 0,
                broker_status_timestamp_ms: self@.sent_ms,
            }),
    {
        ControllerCommand {
            timestamp_ms: now_ms,
            command: CommandType::Ping,
            assignment_version: 0,
            broker_status_timestamp_ms: self.last_broker_ts_ms,
        }
    }

    /// The broker whose stream it is.
    pub fn broker_id(&self) -> (s: String)
        ensures
            s@ == self@.broker,
    {
        self.broker_id.clone()
    }
}

impl HeartbeatServer {
    pub fn new() -> (s: Self)
        ensures
            s@ == (ServerModel { pending: 0, clients: Map::empty() }),
    {
        let s = HeartbeatServer { pending_version: 0, clients: TextMap::new() };
        assert(s@.clients =~= Map::empty());
        s
    }

    /// The version that was announced last.
    pub fn pending_version(&self) -> (v: u64)
        ensures
            v == self@.pending,
    {
        self.pending_version
    }

    /// Announces a version: the command for every connected broker.
    pub fn push_assignment_changed(&mut self, version: u64, now_ms: i64) -> (c: ControllerCommand)
        ensures
            c == announcement(version, 0, now_ms),
            final(self)@ == (ServerModel { pending: version, ..old(self)@ }),
    {
        self.pending_version = version;
        ControllerCommand {
            timestamp_ms: now_ms,
            command: CommandType::AssignmentChanged,
            assignment_version: version,
            broker_status_timestamp_ms: 0,
        }
    }

    /// The controller leaves: the command for every connected broker.
    pub fn push_leaving(&self, now_ms: i64) -> (c: ControllerCommand)
        ensures
            c == (ControllerCommand {
                timestamp_ms: now_ms,
                command: CommandType::Leaving,
                assignment_version: 0,
                broker_status_timestamp_ms: 0,
            }),
    {
        ControllerCommand {
            timestamp_ms: now_ms,
            command: CommandType::Leaving,
            assignment_version: 0,
            broker_status_timestamp_ms: 0,
        }
    }

    /// A stream begins with its first status, in place of an earlier stream of
    /// the same broker. Where a version was announced, the broker is told at
    /// once.
    pub fn connect(&mut self, first: Option<BrokerStatus>, session: u64, now_ms: i64) -> (r: Result<
        (BrokerStream, Option<ControllerCommand>),
        ConnectError,
    >)
        ensures
            match r {
                Err(ConnectError::MissingFirstStatus) => first is None && final(self)@ == old(self)@,
                Err(ConnectError::MissingBrokerId) => first matches Some(s) && s.broker_id@.len() == 0 && final(self)@
                    == old(self)@,
                Ok((stream, told)) => first matches Some(s) && {
                    &&& s.broker_id@.len() > 0
                    &&& final(self)@ == (ServerModel {
                        clients: old(self)@.clients.insert(s.broker_id@, reported(s, session, now_ms)),
                        ..old(self)@
                    })
                    &&& stream@ == (StreamModel { broker: s.broker_id@, session, sent_ms: s.timestamp_ms })
                    &&& told == (if old(self)@.pending > 0 {
                        Some(announcement(old(self)@.pending, s.timestamp_ms, now_ms))
                    } else {
                        None
                    })
                },
            },
    {
        match first {
            None => Err(ConnectError::MissingFirstStatus),
            Some(s) => {
                if s.broker_id.as_str().is_empty() {
                    return Err(ConnectError::MissingBrokerId);
                }
                let sent: i64 = s.timestamp_ms;
                let c = ClientState {
                    session,
                    last_seen_ms: now_ms,
                    last_seen_assignment_version: s.last_seen_assignment_version,
                    active_groups: s.active_groups,
                    healthy: s.healthy,
                    draining: s.draining,
                };
                proof {
                    keyed::lemma_mapped(self.clients@, client_view(), s.broker_id@, c);
                }
                let stream = BrokerStream { broker_id: s.broker_id.clone(), session, last_broker_ts_ms: sent };
                self.clients.insert(s.broker_id, c);
                let told: Option<ControllerCommand> = if self.pending_version > 0 {
                    Some(ControllerCommand {
                        timestamp_ms: now_ms,
                        command: CommandType::AssignmentChanged,
                        assignment_version: self.pending_version,
                        broker_status_timestamp_ms: sent,
                    })
                } else {
                    None
                };
                Ok((stream, told))
            },
        }
    }

    /// A later status of a stream. A stream that another one replaced counts
    /// no more.
    pub fn received(&mut self, stream: &mut BrokerStream, status: BrokerStatus, now_ms: i64)
        ensures
            final(stream)@ == (StreamModel { sent_ms: status.timestamp_ms, ..old(stream)@ }),
            final(self)@ == (if is_current(old(self)@, old(stream)@.broker, old(stream)@.session) {
                ServerModel {
                    clients: old(self)@.clients.insert(
                        old(stream)@.broker,
                        reported(status, old(stream)@.session, now_ms),
                    ),
                    ..old(self)@
                }
            } else {
                old(self)@
            }),
    {
        proof {
            keyed::lemma_mapped(self.clients@, client_view(), stream.broker_id@, arbitrary());
        }
        stream.last_broker_ts_ms = status.timestamp_ms;
        let current: bool = match self.clients.get(&stream.broker_id) {
            Some(c) => c.session == stream.session,
            None => false,
        };
        if current {
            let c = ClientState {
                session: stream.session,
                last_seen_ms: now_ms,
                last_seen_assignment_version: status.last_seen_assignment_version,
                active_groups: status.active_groups,
                healthy: status.healthy,
                draining: status.draining,
            };
            proof {
                keyed::lemma_mapped(self.clients@, client_view(), stream.broker_id@, c);
            }
            self.clients.insert(stream.broker_id.clone(), c);
        }
    }

    /// A stream ended. The broker is gone unless another stream has replaced
    /// this one.
    pub fn closed(&mut self, stream: &BrokerStream)
        ensures
            final(self)@ == (if is_current(old(self)@, stream@.broker, stream@.session) {
                ServerModel { clients: old(self)@.clients.remove(stream@.broker), ..old(self)@ }
            } else {
                old(self)@
            }),
    {
        proof {
            keyed::lemma_mapped(self.clients@, client_view(), stream.broker_id@, arbitrary());
        }
        let current: bool = match self.clients.get(&stream.broker_id) {
            Some(c) => c.session == stream.session,
            None => false,
        };
        if current {
            let gone = self.clients.remove(&stream.broker_id);
        }
    }

    /// The connected brokers, by id.
    pub fn connected_brokers(&self) -> (r: Vec<String>)
        ensures
            order::texts(r@) == order::in_order(self@.clients.dom()),
            order::texts(r@).to_set() == self@.clients.dom(),
    {
        proof {
            keyed::lemma_mapped(self.clients@, client_view(), Seq::empty(), arbitrary());
        }
        self.clients.sorted_keys()
    }

    /// The health of each connected broker, by id.
    pub fn broker_liveness(&self) -> (r: Vec<BrokerLiveness>)
        ensures
            ({
                let ids = order::in_order(self@.clients.dom());
                &&& ids.to_set() == self@.clients.dom()
                &&& r@.len() == ids.len()
                &&& forall|i: int|
                    0 <= i < ids.len() ==> (#[trigger] r@[i]).id@ == ids[i] && r@[i].healthy == self@.clients[ids[i]].healthy
                        && r@[i].draining == self@.clients[ids[i]].draining
            }),
    {
        proof {
            keyed::lemma_mapped(self.clients@, client_view(), Seq::empty(), arbitrary());
        }
        let keys = self.clients.sorted_keys();
        let ghost ids = order::texts(keys@);
        let mut r: Vec<BrokerLiveness> = Vec::new();
        let mut i: usize = 0;
        while i < keys.len()
            invariant
                i <= keys@.len(),
                ids == order::texts(keys@),
                ids.to_set() == self@.clients.dom(),
                r@.len() == i,
                forall|j: int|
                    0 <= j < i ==> (#[trigger] r@[j]).id@ == ids[j] && r@[j].healthy == self@.clients[ids[j]].healthy
                        && r@[j].draining == self@.clients[ids[j]].draining,
            decreases keys.len() - i,
        {
            proof {
                assert(ids[i as int] == keys@[i as int]@);
                assert(ids.to_set().contains(ids[i as int]));
                keyed::lemma_mapped(self.clients@, client_view(), ids[i as int], arbitrary());
            }
            match self.clients.get(&keys[i]) {
                Some(c) => {
                    r.push(BrokerLiveness { id: keys[i].clone(), healthy: c.healthy, draining: c.draining });
                },
                None => {},
            }
            i = i + 1;
        }
        r
    }

    /// The groups that connected brokers report, each once, by name.
    pub fn active_groups(&self) -> (r: Vec<String>)
        ensures
            lists_groups(self@, order::texts(r@)),
    {
        let n: usize = self.clients.len();
        let ghost ks = self.clients.key_list();
        let mut r: Vec<String> = Vec::new();
        let mut i: usize = 0;
        proof {
            keyed::lemma_mapped(self.clients@, client_view(), Seq::empty(), arbitrary());
        }
        while i < n
            invariant
                i <= n,
                n == ks.len(),
                ks == self.clients.key_list(),
                ks.to_set() == self.clients@.dom(),
                self@.clients.dom() == self.clients@.dom(),
                order::increasing(order::texts(r@)),
                forall|g: Seq<char>| #[trigger] order::texts(r@).to_set().contains(g) <==> exists|j: int|
                    0 <= j < i && self@.clients[#[trigger] ks[j]].groups.contains(g),
            decreases n - i,
        {
            let c = self.clients.value_at(i);
            let ghost key = ks[i as int];
            let ghost before = order::texts(r@).to_set();
            let ghost groups = order::texts(c.active_groups@);
            proof {
                keyed::lemma_mapped(self.clients@, client_view(), key, arbitrary());
                assert(self@.clients[key].groups == groups);
            }
            let mut k: usize = 0;
            while k < c.active_groups.len()
                invariant
                    k <= c.active_groups@.len(),
                    groups == order::texts(c.active_groups@),
                    order::increasing(order::texts(r@)),
                    forall|g: Seq<char>| #[trigger] order::texts(r@).to_set().contains(g) <==> before.contains(g)
                        || groups.take(k as int).contains(g),
                decreases c.active_groups.len() - k,
            {
                let ghost held = order::texts(r@).to_set();
                insert_name(&mut r, c.active_groups[k].clone());
                proof {
                    let name = groups[k as int];
                    assert(groups.take(k + 1) =~= groups.take(k as int).push(name));
                    assert forall|g: Seq<char>| #[trigger] order::texts(r@).to_set().contains(g) <==> before.contains(g) || groups.take(k + 1).contains(g) by {
                        assert(order::texts(r@).to_set().contains(g) <==> held.contains(g) || g == name);
                        if groups.take(k as int).contains(g) {
                            let j = choose|j: int| 0 <= j < k && groups.take(k as int)[j] == g;
                            assert(groups.take(k + 1)[j] == g);
                        }
                        if g == name {
                            assert(groups.take(k + 1)[k as int] == g);
                        }
                        if groups.take(k + 1).contains(g) {
                            let upto = groups.take(k + 1);
                            let j = choose|j: int| 0 <= j < upto.len() && upto[j] == g;
                            if j < k {
                                assert(groups.take(k as int)[j] == g);
                            }
                        }
                    }
                }
                k = k + 1;
            }
            proof {
                assert(groups.take(k as int) =~= groups);
                assert forall|g: Seq<char>| #[trigger] order::texts(r@).to_set().contains(g) <==> exists|j: int|
                    0 <= j < i + 1 && self@.clients[#[trigger] ks[j]].groups.contains(g) by {
                    if before.contains(g) {
                        let j = choose|j: int| 0 <= j < i && self@.clients[#[trigger] ks[j]].groups.contains(g);
                        assert(self@.clients[ks[j]].groups.contains(g));
                    }
                    if groups.contains(g) {
                        assert(self@.clients[ks[i as int]].groups.contains(g));
                    }
                    if exists|j: int| 0 <= j < i + 1 && self@.clients[#[trigger] ks[j]].groups.contains(g) {
                        let j = choose|j: int| 0 <= j < i + 1 && self@.clients[#[trigger] ks[j]].groups.contains(g);
                        if j < i {
                            assert(before.contains(g));
                        }
                    }
                }
            }
            i = i + 1;
        }
        proof {
            assert forall|g: Seq<char>| #[trigger] order::texts(r@).to_set().contains(g) <==> reported_groups(self@).contains(g) by {
                if order::texts(r@).to_set().contains(g) {
                    let j = choose|j: int| 0 <= j < n && self@.clients[#[trigger] ks[j]].groups.contains(g);
                    assert(ks.to_set().contains(ks[j]));
                    assert(self@.clients.contains_key(ks[j]));
                }
                if reported_groups(self@).contains(g) {
                    let b = choose|b: Seq<char>| #[trigger] self@.clients.contains_key(b) && self@.clients[b].groups.contains(g);
                    assert(ks.to_set().contains(b));
                    let j = choose|j: int| 0 <= j < ks.len() && ks[j] == b;
                    assert(self@.clients[ks[j]].groups.contains(g));
                }
            }
            assert(order::texts(r@).to_set() =~= reported_groups(self@));
        }
        r
    }

    /// When a broker was last heard of; none where it is not connected.
    pub fn broker_last_seen(&self, broker_id: &str) -> (r: Option<i64>)
        ensures
            r == (if self@.clients.contains_key(broker_id@) {
                Some(self@.clients[broker_id@].last_seen_ms)
            } else {
                None
            }),
    {
        proof {
            keyed::lemma_mapped(self.clients@, client_view(), broker_id@, arbitrary());
        }
        match self.clients.get(broker_id) {
            Some(c) => Some(c.last_seen_ms),
            None => None,
        }
    }
}

impl GroupSource for HeartbeatServer {
    fn active_groups(&self) -> (r: Vec<String>)
        ensures
            lists_groups(self@, order::texts(r@)),
    {
        HeartbeatServer::active_groups(self)
    }
}

// The broker's side.

/// Why a status was not sent.
#[derive(Debug, Clone, Copy, PartialEq, Eq, Structural)]
pub enum SendError {
    Disconnected,
    OutboxFull,
}

impl SendError {
    /// The error in words.
    pub fn message(&self) -> (s: &'static str)
        ensures
            s@ == (match self {
                SendError::Disconnected => "heartbeat: not connected"@,
                SendError::OutboxFull => "heartbeat: outbox full"@,
            }),
    {
        match self {
            SendError::Disconnected => "heartbeat: not connected",
            SendError::OutboxFull => "heartbeat: outbox full",
        }
    }
}

pub const RECONNECT_INITIAL_BACKOFF_MS: u64 = 500;

pub const RECONNECT_MAX_BACKOFF_MS: u64 = 5000;

/// How many statuses may wait to go out.
pub const SEND_BUFFER: usize = 32;

/// For how long a stream may be silent.
pub const READ_TIMEOUT_MS: u64 = 30_000;

/// How long the next wait is after one of `current`: twice as long, but no
/// longer than the greatest.
pub open spec fn longer_wait(current: int) -> int {
    if 2 * current > RECONNECT_MAX_BACKOFF_MS {
        RECONNECT_MAX_BACKOFF_MS as int
    } else {
        2 * current
    }
}

pub fn backoff_next(current_ms: u64) -> (ms: u64)
    ensures
        ms == longer_wait(current_ms as int),
{
    if current_ms > RECONNECT_MAX_BACKOFF_MS / 2 {
        RECONNECT_MAX_BACKOFF_MS
    } else {
        current_ms * 2
    }
}

/// Whether a text holds a scheme.
pub fn has_scheme(s: &str) -> (r: bool)
    ensures
        r == (text::first_place(s@, "://"@, 0) is Some),
{
    let v = chars_of(s);
    let part = chars_of("://");
    find_text(&v, &part).is_some()
}

/// The URL to dial for a target.
pub open spec fn dialled(target: Seq<char>) -> Seq<char> {
    if text::first_place(target, "://"@, 0) is Some {
        target
    } else {
        "http://"@ + target
    }
}

pub fn dial_endpoint(target: &str) -> (s: String)
    ensures
        s@ == dialled(target@),
{
    if has_scheme(target) {
        target.to_owned()
    } else {
        let mut s = "http://".to_owned();
        s.push_str(target);
        s
    }
}

/// The broker's side of a connection.
#[derive(Debug)]
pub struct HeartbeatClient {
    broker_id: String,
    target: Option<String>,
    connected: bool,
    last_received_ms: i64,
    backoff_ms: u64,
}

#[verifier::ext_equal]
pub struct ClientSide {
    pub broker_id: Seq<char>,
    pub target: Option<Seq<char>>,
    pub connected: bool,
    /// When a command was last received, none if never.
    pub received_ms: Option<i64>,
    /// How long it waits before it dials again.
    pub backoff_ms: u64,
}

impl View for HeartbeatClient {
    type V = ClientSide;

    closed spec fn view(&self) -> ClientSide {
        ClientSide {
            broker_id: self.broker_id@,
            target: match self.target {
                Some(t) => Some(t@),
                None => None,
            },
            connected: self.connected,
            received_ms: if self.last_received_ms == 0 {
                None
            } else {
                Some(self.last_received_ms)
            },
            backoff_ms: self.backoff_ms,
        }
    }
}

/// The status under an id of its own, or else under `id`.
pub open spec fn named_status(sent: BrokerStatus, status: BrokerStatus, id: Seq<char>) -> bool {
    &&& sent.broker_id@ == (if status.broker_id@.len() == 0 {
        id
    } else {
        status.broker_id@
    })
    &&& sent.timestamp_ms == status.timestamp_ms
    &&& sent.last_seen_assignment_version == status.last_seen_assignment_version
    &&& sent.active_groups == status.active_groups
    &&& sent.healthy == status.healthy
    &&& sent.draining == status.draining
}

/// Whether a status is the first of a stream.
pub open spec fn is_first_status(s: BrokerStatus, id: Seq<char>, healthy: bool, draining: bool, now_ms: i64) -> bool {
    &&& s.broker_id@ == id
    &&& s.timestamp_ms == now_ms
    &&& s.last_seen_assignment_version == 0
    &&& s.active_groups@.len() == 0
    &&& s.healthy == healthy
    &&& s.draining == draining
}

/// What a resolver says where one is installed, else the fixed target.
pub open spec fn wanted_target(c: ClientSide, resolver: Option<Option<String>>) -> Option<Seq<char>> {
    match resolver {
        Some(Some(t)) => Some(t@),
        Some(None) => None,
        None => c.target,
    }
}

/// What the client does next.
#[derive(Debug)]
pub enum ClientStep {
    /// Open a stream to this endpoint.
    Dial { endpoint: String },
    /// Wait, and try again.
    Wait { ms: u64 },
    Stop,
}

/// What happens on an open stream.
#[derive(Debug, Clone, Copy, PartialEq, Eq, Structural)]
pub enum StreamEvent {
    /// A command came, that long after the client began.
    Command { elapsed_ms: u64 },
    /// Nothing came for as long as the client bears it.
    Silence,
    /// The controller closed the stream.
    Closed,
    /// The stream broke.
    Broken,
}

/// When a command is noted that came that long after the client began. Zero
/// is no time.
pub open spec fn noted_ms(elapsed_ms: u64) -> i64 {
    if elapsed_ms == 0 {
        1i64
    } else if elapsed_ms > i64::MAX {
        i64::MAX
    } else {
        elapsed_ms as i64
    }
}

impl HeartbeatClient {
    pub fn new(broker_id: String) -> (c: Self)
        ensures
            c@ == (ClientSide {
                broker_id: broker_id@,
                target: None,
                connected: false,
                received_ms: None,
                backoff_ms: RECONNECT_INITIAL_BACKOFF_MS,
            }),
    {
        HeartbeatClient {
            broker_id,
            target: None,
            connected: false,
            last_received_ms: 0,
            backoff_ms: RECONNECT_INITIAL_BACKOFF_MS,
        }
    }

    /// Sets the fixed target.
    pub fn set_target(&mut self, target: String)
        ensures
            final(self)@ == (ClientSide { target: Some(target@), ..old(self)@ }),
    {
        self.target = Some(target);
    }

    /// Where to dial: what a resolver says where one is installed, else the
    /// fixed target. An empty target is handed out too.
    pub fn resolve_target(&self, resolver: Option<Option<String>>) -> (r: Option<String>)
        ensures
            text::opt_text(r) == wanted_target(self@, resolver),
    {
        match resolver {
            Some(answer) => answer,
            None => match &self.target {
                Some(t) => Some(t.clone()),
                None => None,
            },
        }
    }

    /// A status that is to be sent while that many wait to go out. It goes
    /// under this broker's id where it names none.
    pub fn send(&self, status: BrokerStatus, waiting: usize) -> (r: Result<BrokerStatus, SendError>)
        ensures
            match r {
                Err(SendError::Disconnected) => !self@.connected,
                Err(SendError::OutboxFull) => self@.connected && waiting >= SEND_BUFFER,
                Ok(s) => self@.connected && waiting < SEND_BUFFER && named_status(s, status, self@.broker_id),
            },
    {
        if !self.connected {
            return Err(SendError::Disconnected);
        }
        if waiting >= SEND_BUFFER {
            return Err(SendError::OutboxFull);
        }
        let broker_id: String = if status.broker_id.as_str().is_empty() {
            self.broker_id.clone()
        } else {
            status.broker_id
        };
        Ok(BrokerStatus {
            broker_id,
            timestamp_ms: status.timestamp_ms,
            last_seen_assignment_version: status.last_seen_assignment_version,
            active_groups: status.active_groups,
            healthy: status.healthy,
            draining: status.draining,
        })
    }

    /// The first status of a stream, from which the controller knows the
    /// broker and its health.
    pub fn first_status(&self, healthy: bool, draining: bool, now_ms: i64) -> (s: BrokerStatus)
        ensures
            is_first_status(s, self@.broker_id, healthy, draining, now_ms),
    {
        BrokerStatus {
            broker_id: self.broker_id.clone(),
            timestamp_ms: now_ms,
            last_seen_assignment_version: 0,
            active_groups: Vec::new(),
            healthy,
            draining,
        }
    }

    pub fn is_connected(&self) -> (r: bool)
        ensures
            r == self@.connected,
    {
        self.connected
    }

    /// Decides what to do without a stream: dial where there is a target that
    /// is not empty, else wait, each time longer.
    pub fn run(&mut self, resolver: Option<Option<String>>, cancelled: bool) -> (step: ClientStep)
        ensures
            match step {
                ClientStep::Stop => cancelled && final(self)@ == old(self)@,
                ClientStep::Dial { endpoint } => !cancelled && (wanted_target(old(self)@, resolver) matches Some(t) && t.len()
                    > 0 && endpoint@ == dialled(t)) && final(self)@ == old(self)@,
                ClientStep::Wait { ms } => !cancelled && (wanted_target(old(self)@, resolver) matches Some(t) ==> t.len() == 0)
                    && ms == old(self)@.backoff_ms && final(self)@ == (ClientSide {
                    backoff_ms: longer_wait(old(self)@.backoff_ms as int) as u64,
                    ..old(self)@
                }),
            },
    {
        if cancelled {
            return ClientStep::Stop;
        }
        match self.resolve_target(resolver) {
            Some(target) => {
                if target.as_str().is_empty() {
                    self.wait()
                } else {
                    ClientStep::Dial { endpoint: dial_endpoint(&target) }
                }
            },
            None => self.wait(),
        }
    }

    fn wait(&mut self) -> (step: ClientStep)
        ensures
            step == (ClientStep::Wait { ms: old(self)@.backoff_ms }),
            final(self)@ == (ClientSide { backoff_ms: longer_wait(old(self)@.backoff_ms as int) as u64, ..old(self)@ }),
    {
        let ms: u64 = self.backoff_ms;
        self.backoff_ms = backoff_next(ms);
        ClientStep::Wait { ms }
    }

    /// A stream is about to be opened: statuses can be sent. Returns the first
    /// one.
    pub fn stream_opening(&mut self, healthy: bool, draining: bool, now_ms: i64) -> (s: BrokerStatus)
        ensures
            final(self)@ == (ClientSide { connected: true, ..old(self)@ }),
            is_first_status(s, old(self)@.broker_id, healthy, draining, now_ms),
    {
        self.connected = true;
        self.first_status(healthy, draining, now_ms)
    }

    /// A stream ended or could not be opened: the client waits and dials again
    /// unless it was cancelled.
    pub fn stream_ended(&mut self, cancelled: bool) -> (step: ClientStep)
        ensures
            cancelled ==> step is Stop && final(self)@ == (ClientSide { connected: false, ..old(self)@ }),
            !cancelled ==> step == (ClientStep::Wait { ms: old(self)@.backoff_ms }) && final(self)@ == (ClientSide {
                connected: false,
                backoff_ms: longer_wait(old(self)@.backoff_ms as int) as u64,
                ..old(self)@
            }),
    {
        self.connected = false;
        if cancelled {
            ClientStep::Stop
        } else {
            self.wait()
        }
    }

    /// Something happened on the stream. Returns whether the stream goes on,
    /// and whether a heartbeat was missed.
    pub fn on_stream_event(&mut self, event: StreamEvent) -> (r: (bool, bool))
        ensures
            r.0 == (event is Command),
            r.1 == (event is Silence || event is Closed),
            final(self)@ == (ClientSide {
                received_ms: match event {
                    StreamEvent::Command { elapsed_ms } => Some(noted_ms(elapsed_ms)),
                    _ => old(self)@.received_ms,
                },
                ..old(self)@
            }),
    {
        match event {
            StreamEvent::Command { elapsed_ms } => {
                self.record_received(elapsed_ms);
                (true, false)
            },
            StreamEvent::Silence => (false, true),
            StreamEvent::Closed => (false, true),
            StreamEvent::Broken => (false, false),
        }
    }

    /// A command was received that long after the client began.
    pub fn record_received(&mut self, elapsed_ms: u64)
        ensures
            final(self)@ == (ClientSide { received_ms: Some(noted_ms(elapsed_ms)), ..old(self)@ }),
    {
        self.last_received_ms = if elapsed_ms == 0 {
            1
        } else if elapsed_ms > i64::MAX as u64 {
            i64::MAX
        } else {
            elapsed_ms as i64
        };
    }

    /// When a command was last received.
    pub fn last_received(&self) -> (r: Option<i64>)
        ensures
            r == self@.received_ms,
    {
        if self.last_received_ms == 0 {
            None
        } else {
            Some(self.last_received_ms)
        }
    }
}

// Laws.

/// Where a broker connects again before its old stream ends, the end of the
/// old stream and late messages on it change nothing.
pub proof fn law_reconnect_wins(s: ServerModel, first: BrokerStatus, old_session: u64, session: u64, now_ms: i64)
    requires
        old_session != session,
    ensures
        ({
            let after = ServerModel { clients: s.clients.insert(first.broker_id@, reported(first, session, now_ms)), ..s };
            &&& is_current(after, first.broker_id@, session)
            &&& !is_current(after, first.broker_id@, old_session)
        }),
{
}

/// A wait is never longer than the greatest, never shorter than the one
/// before it while below that, and reaches it in the end.
pub proof fn law_waits_grow_to_the_greatest(current: int)
    requires
        RECONNECT_INITIAL_BACKOFF_MS <= current <= RECONNECT_MAX_BACKOFF_MS,
    ensures
        current <= longer_wait(current) <= RECONNECT_MAX_BACKOFF_MS,
        current < RECONNECT_MAX_BACKOFF_MS ==> longer_wait(current) > current,
        longer_wait(RECONNECT_MAX_BACKOFF_MS as int) == RECONNECT_MAX_BACKOFF_MS,
{
}

/// What is dialled carries a scheme, and dialling it again changes nothing.
pub proof fn law_dialled_endpoint_has_a_scheme(target: Seq<char>)
    ensures
        text::first_place(dialled(target), "://"@, 0) is Some,
        dialled(dialled(target)) == dialled(target),
{
    reveal_strlit("://");
    reveal_strlit("http://");
    let t = dialled(target);
    text::lemma_first_place(t, "://"@, 0);
    if text::first_place(target, "://"@, 0) is None {
        assert(t.subrange(4, 7) =~= "://"@);
        assert(text::stands_at(t, "://"@, 4));
    }
}

} // verus!
