//! Consumer-group state machine.
//!
//! A request or a timer is an event. An event changes the group and returns
//! the actions that follow: replies to parked requests, named by the ticket
//! they were parked under, and timers to set or stop.

use vstd::prelude::*;
use crate::error_codes;
use crate::keyed::TextMap;
use crate::order;
use crate::order::insert_name;
use crate::text::text_eq;
use crate::text;

verus! {

/// Delay of the first rebalance of a group, extended by each arrival.
pub const INITIAL_REBALANCE_DELAY_MS: u64 = 3_000;

/// Rebalance timeout of a member that declares none.
pub const DEFAULT_REBALANCE_TIMEOUT_MS: i32 = 30_000;

/// Session timeout of a member that declares none.
pub const DEFAULT_SESSION_TIMEOUT_MS: i32 = 30_000;

#[derive(Debug, Clone, Copy, PartialEq, Eq, Structural)]
pub enum GroupState {
    Empty,
    PreparingRebalance,
    CompletingRebalance,
    Stable,
    Dead,
}

impl GroupState {
    pub open spec fn name(self) -> Seq<char> {
        match self {
            GroupState::Empty => "Empty"@,
            GroupState::PreparingRebalance => "PreparingRebalance"@,
            GroupState::CompletingRebalance => "CompletingRebalance"@,
            GroupState::Stable => "Stable"@,
            GroupState::Dead => "Dead"@,
        }
    }

    pub fn as_str(self) -> (s: &'static str)
        ensures
            s@ == self.name(),
    {
        match self {
            GroupState::Empty => "Empty",
            GroupState::PreparingRebalance => "PreparingRebalance",
            GroupState::CompletingRebalance => "CompletingRebalance",
            GroupState::Stable => "Stable",
            GroupState::Dead => "Dead",
        }
    }
}

/// Copies of byte strings, with their contents.
pub fn copy_bytes(b: &Vec<u8>) -> (r: Vec<u8>)
    ensures
        r@ == b@,
{
    let mut r: Vec<u8> = Vec::new();
    let mut i: usize = 0;
    while i < b.len()
        invariant
            i <= b@.len(),
            r@ == b@.take(i as int),
        decreases b.len() - i,
    {
        r.push(b[i]);
        i = i + 1;
        assert(r@ =~= b@.take(i as int));
    }
    assert(b@.take(i as int) =~= b@);
    r
}

fn copy_opt(s: &Option<String>) -> (r: Option<String>)
    ensures
        r == *s,
{
    match s {
        Some(t) => Some(t.clone()),
        None => None,
    }
}

/// One assignment protocol that a member supports.
#[derive(Debug, PartialEq, Eq)]
pub struct ProtocolMetadata {
    pub name: String,
    pub metadata: Vec<u8>,
}

#[verifier::ext_equal]
pub struct ProtocolModel {
    pub name: Seq<char>,
    pub metadata: Seq<u8>,
}

impl View for ProtocolMetadata {
    type V = ProtocolModel;

    open spec fn view(&self) -> ProtocolModel {
        ProtocolModel { name: self.name@, metadata: self.metadata@ }
    }
}

pub open spec fn protocols_of(s: Seq<ProtocolMetadata>) -> Seq<ProtocolModel> {
    s.map_values(|p: ProtocolMetadata| p@)
}

impl Clone for ProtocolMetadata {
    fn clone(&self) -> (r: Self)
        ensures
            r@ == self@,
    {
        ProtocolMetadata { name: self.name.clone(), metadata: copy_bytes(&self.metadata) }
    }
}

/// A member of a group.
#[derive(Debug)]
pub struct GroupMember {
    pub id: String,
    pub client_id: String,
    pub client_host: String,
    pub group_instance_id: Option<String>,
    pub session_timeout_ms: i32,
    pub rebalance_timeout_ms: i32,
    pub protocols: Vec<ProtocolMetadata>,
    pub assignment: Vec<u8>,
}

#[verifier::ext_equal]
pub struct MemberModel {
    pub id: Seq<char>,
    pub client_id: Seq<char>,
    pub client_host: Seq<char>,
    pub instance: Option<Seq<char>>,
    pub session_timeout: i32,
    pub rebalance_timeout: i32,
    pub protocols: Seq<ProtocolModel>,
    pub assignment: Seq<u8>,
}

impl View for GroupMember {
    type V = MemberModel;

    open spec fn view(&self) -> MemberModel {
        MemberModel {
            id: self.id@,
            client_id: self.client_id@,
            client_host: self.client_host@,
            instance: text::opt_text(self.group_instance_id),
            session_timeout: self.session_timeout_ms,
            rebalance_timeout: self.rebalance_timeout_ms,
            protocols: protocols_of(self.protocols@),
            assignment: self.assignment@,
        }
    }
}

/// A JoinGroup request that waits for the rebalance to complete.
#[derive(Debug)]
pub struct JoinWaiter {
    pub member_id: String,
    pub ticket: u64,
}

#[verifier::ext_equal]
pub struct WaiterModel {
    pub member_id: Seq<char>,
    pub ticket: u64,
}

impl View for JoinWaiter {
    type V = WaiterModel;

    open spec fn view(&self) -> WaiterModel {
        WaiterModel { member_id: self.member_id@, ticket: self.ticket }
    }
}

pub open spec fn waiters_of(s: Seq<JoinWaiter>) -> Seq<WaiterModel> {
    s.map_values(|w: JoinWaiter| w@)
}

/// A SyncGroup request that waits for the leader.
#[derive(Debug)]
pub struct SyncWaiter {
    pub member_id: String,
    pub ticket: u64,
    pub protocol_type: String,
    pub protocol_name: String,
}

#[verifier::ext_equal]
pub struct ParkedModel {
    pub member_id: Seq<char>,
    pub ticket: u64,
    pub protocol_type: Seq<char>,
    pub protocol_name: Seq<char>,
}

impl View for SyncWaiter {
    type V = ParkedModel;

    open spec fn view(&self) -> ParkedModel {
        ParkedModel {
            member_id: self.member_id@,
            ticket: self.ticket,
            protocol_type: self.protocol_type@,
            protocol_name: self.protocol_name@,
        }
    }
}

pub open spec fn parked_of(s: Seq<SyncWaiter>) -> Seq<ParkedModel> {
    s.map_values(|w: SyncWaiter| w@)
}

/// A round of SyncGroup requests.
#[derive(Debug)]
pub struct SyncRound {
    pub assignments: TextMap<Vec<u8>>,
    pub delivered: bool,
    pub waiters: Vec<SyncWaiter>,
}

#[verifier::ext_equal]
pub struct RoundModel {
    pub assignments: Map<Seq<char>, Seq<u8>>,
    pub delivered: bool,
    pub parked: Seq<ParkedModel>,
}

pub open spec fn byte_map(m: Map<Seq<char>, Vec<u8>>) -> Map<Seq<char>, Seq<u8>> {
    m.map_values(|b: Vec<u8>| b@)
}

impl View for SyncRound {
    type V = RoundModel;

    open spec fn view(&self) -> RoundModel {
        RoundModel {
            assignments: byte_map(self.assignments@),
            delivered: self.delivered,
            parked: parked_of(self.waiters@),
        }
    }
}

/// Reply to a JoinGroup request.
#[derive(Debug, Clone)]
pub struct JoinOutcome {
    pub error_code: i16,
    pub generation_id: i32,
    pub leader: String,
    pub member_id: String,
    pub protocol_type: String,
    pub protocol_name: String,
    pub members: Vec<JoinedMember>,
}

#[verifier::ext_equal]
pub struct JoinModel {
    pub error_code: i16,
    pub generation_id: i32,
    pub leader: Seq<char>,
    pub member_id: Seq<char>,
    pub protocol_type: Seq<char>,
    pub protocol_name: Seq<char>,
    pub members: Seq<JoinedModel>,
}

impl View for JoinOutcome {
    type V = JoinModel;

    open spec fn view(&self) -> JoinModel {
        JoinModel {
            error_code: self.error_code,
            generation_id: self.generation_id,
            leader: self.leader@,
            member_id: self.member_id@,
            protocol_type: self.protocol_type@,
            protocol_name: self.protocol_name@,
            members: joined_of(self.members@),
        }
    }
}

/// One member in the list that the leader gets.
#[derive(Debug, Clone)]
pub struct JoinedMember {
    pub member_id: String,
    pub group_instance_id: Option<String>,
    pub metadata: Vec<u8>,
}

#[verifier::ext_equal]
pub struct JoinedModel {
    pub member_id: Seq<char>,
    pub instance: Option<Seq<char>>,
    pub metadata: Seq<u8>,
}

impl View for JoinedMember {
    type V = JoinedModel;

    open spec fn view(&self) -> JoinedModel {
        JoinedModel {
            member_id: self.member_id@,
            instance: text::opt_text(self.group_instance_id),
            metadata: self.metadata@,
        }
    }
}

pub open spec fn joined_of(s: Seq<JoinedMember>) -> Seq<JoinedModel> {
    s.map_values(|m: JoinedMember| m@)
}

/// What DescribeGroups shows of a group.
#[derive(Debug, Clone)]
pub struct GroupSnapshot {
    pub id: String,
    pub state: &'static str,
    pub protocol_type: String,
    pub protocol_name: String,
    pub generation_id: i32,
    pub members: Vec<MemberSnapshot>,
}

#[derive(Debug, Clone)]
pub struct MemberSnapshot {
    pub member_id: String,
    pub client_id: String,
    pub group_instance_id: Option<String>,
    pub assignment: Vec<u8>,
}

#[verifier::ext_equal]
pub struct MemberSnapshotModel {
    pub member_id: Seq<char>,
    pub client_id: Seq<char>,
    pub instance: Option<Seq<char>>,
    pub assignment: Seq<u8>,
}

impl View for MemberSnapshot {
    type V = MemberSnapshotModel;

    open spec fn view(&self) -> MemberSnapshotModel {
        MemberSnapshotModel {
            member_id: self.member_id@,
            client_id: self.client_id@,
            instance: text::opt_text(self.group_instance_id),
            assignment: self.assignment@,
        }
    }
}

/// A JoinGroup request.
#[derive(Debug, Clone)]
pub struct JoinRequest {
    pub member_id: String,
    pub group_instance_id: Option<String>,
    pub session_timeout_ms: i32,
    pub rebalance_timeout_ms: i32,
    pub protocol_type: String,
    pub protocols: Vec<ProtocolMetadata>,
    /// Wire version of the request.
    pub version: i16,
    pub client_id: String,
    pub client_host: String,
}

/// A SyncGroup request.
#[derive(Debug, Clone)]
pub struct SyncRequest {
    pub member_id: String,
    pub generation_id: i32,
    pub group_instance_id: Option<String>,
    pub protocol_type: Option<String>,
    pub protocol_name: Option<String>,
    pub assignments: Vec<SyncAssignment>,
}

impl Default for SyncRequest {
    fn default() -> (r: Self)
        ensures
            r.member_id@.len() == 0,
            r.generation_id == 0,
            r.group_instance_id is None,
            r.protocol_type is None,
            r.protocol_name is None,
            r.assignments@.len() == 0,
    {
        SyncRequest {
            member_id: String::new(),
            generation_id: 0,
            group_instance_id: None,
            protocol_type: None,
            protocol_name: None,
            assignments: Vec::new(),
        }
    }
}

/// What the leader assigns to one member.
#[derive(Debug, Clone)]
pub struct SyncAssignment {
    pub member_id: String,
    pub assignment: Vec<u8>,
}

/// Reply to a SyncGroup request.
#[derive(Debug, Clone)]
pub struct SyncOutcome {
    pub error_code: i16,
    pub protocol_type: String,
    pub protocol_name: String,
    pub assignment: Vec<u8>,
}

impl Default for SyncOutcome {
    fn default() -> (r: Self)
        ensures
            r@ == (SyncModel {
                error_code: 0,
                protocol_type: Seq::empty(),
                protocol_name: Seq::empty(),
                assignment: Seq::empty(),
            }),
    {
        SyncOutcome {
            error_code: 0,
            protocol_type: String::new(),
            protocol_name: String::new(),
            assignment: Vec::new(),
        }
    }
}

#[verifier::ext_equal]
pub struct SyncModel {
    pub error_code: i16,
    pub protocol_type: Seq<char>,
    pub protocol_name: Seq<char>,
    pub assignment: Seq<u8>,
}

impl View for SyncOutcome {
    type V = SyncModel;

    open spec fn view(&self) -> SyncModel {
        SyncModel {
            error_code: self.error_code,
            protocol_type: self.protocol_type@,
            protocol_name: self.protocol_name@,
            assignment: self.assignment@,
        }
    }
}

/// A heartbeat of a member.
#[derive(Debug, Clone)]
pub struct HeartbeatRequest {
    pub member_id: String,
    pub generation_id: i32,
    pub group_instance_id: Option<String>,
}

/// What is to be done after an event.
#[derive(Debug)]
pub enum GroupAction {
    /// Answer the JoinGroup request with this ticket.
    JoinReply { ticket: u64, outcome: JoinOutcome },
    /// Answer the SyncGroup request with this ticket.
    SyncReply { ticket: u64, reply: SyncOutcome },
    /// Fire the rebalance timer after this time, in place of any earlier one.
    ArmRebalance { after_ms: u64 },
    /// Stop the rebalance timer where it runs.
    DisarmRebalance,
    /// Expire the member's session after this time, in place of any earlier
    /// expiry.
    ArmSession { member_id: String, after_ms: u64 },
    /// Stop the member's session timer.
    DisarmSession { member_id: String },
    /// A rebalance went through.
    CountRebalance,
}

#[verifier::ext_equal]
pub enum Act {
    JoinReply { ticket: u64, outcome: JoinModel },
    SyncReply { ticket: u64, reply: SyncModel },
    ArmRebalance { after_ms: u64 },
    DisarmRebalance,
    ArmSession { member_id: Seq<char>, after_ms: u64 },
    DisarmSession { member_id: Seq<char> },
    CountRebalance,
}

impl View for GroupAction {
    type V = Act;

    open spec fn view(&self) -> Act {
        match *self {
            GroupAction::JoinReply { ticket, outcome } => Act::JoinReply { ticket, outcome: outcome@ },
            GroupAction::SyncReply { ticket, reply } => Act::SyncReply { ticket, reply: reply@ },
            GroupAction::ArmRebalance { after_ms } => Act::ArmRebalance { after_ms },
            GroupAction::DisarmRebalance => Act::DisarmRebalance,
            GroupAction::ArmSession { member_id, after_ms } => Act::ArmSession { member_id: member_id@, after_ms },
            GroupAction::DisarmSession { member_id } => Act::DisarmSession { member_id: member_id@ },
            GroupAction::CountRebalance => Act::CountRebalance,
        }
    }
}

pub open spec fn acts_of(s: Seq<GroupAction>) -> Seq<Act> {
    s.map_values(|a: GroupAction| a@)
}

/// A consumer group.
#[derive(Debug)]
pub struct Group {
    id: String,
    state: GroupState,
    generation_id: i32,
    protocol_type: String,
    protocol_name: String,
    leader_id: String,
    members: TextMap<GroupMember>,
    join_waiters: Vec<JoinWaiter>,
    current_sync: Option<SyncRound>,
    initial_rebalance: bool,
    initial_rebalance_deadline: Option<u64>,
}

#[verifier::ext_equal]
pub struct GroupModel {
    pub id: Seq<char>,
    pub state: GroupState,
    pub generation: i32,
    pub protocol_type: Seq<char>,
    pub protocol_name: Seq<char>,
    pub leader: Seq<char>,
    pub members: Map<Seq<char>, MemberModel>,
    pub waiters: Seq<WaiterModel>,
    pub round: Option<RoundModel>,
    pub initial: bool,
    pub deadline: Option<u64>,
}

pub open spec fn member_map(m: Map<Seq<char>, GroupMember>) -> Map<Seq<char>, MemberModel> {
    m.map_values(|g: GroupMember| g@)
}

pub open spec fn round_of(r: Option<SyncRound>) -> Option<RoundModel> {
    match r {
        Some(x) => Some(x@),
        None => None,
    }
}

impl View for Group {
    type V = GroupModel;

    closed spec fn view(&self) -> GroupModel {
        GroupModel {
            id: self.id@,
            state: self.state,
            generation: self.generation_id,
            protocol_type: self.protocol_type@,
            protocol_name: self.protocol_name@,
            leader: self.leader_id@,
            members: member_map(self.members@),
            waiters: waiters_of(self.join_waiters@),
            round: round_of(self.current_sync),
            initial: self.initial_rebalance,
            deadline: self.initial_rebalance_deadline,
        }
    }
}

// The transitions.

/// Whether a snapshot shows a group as it is, members by id.
pub open spec fn shows(s: GroupSnapshot, g: GroupModel) -> bool {
    &&& s.id@ == g.id
    &&& s.state@ == g.state.name()
    &&& s.protocol_type@ == g.protocol_type
    &&& s.protocol_name@ == g.protocol_name
    &&& s.generation_id == g.generation
    &&& s.members@.map_values(|m: MemberSnapshot| m@) == order::in_order(g.members.dom()).map_values(
        |k: Seq<char>|
            MemberSnapshotModel {
                member_id: g.members[k].id,
                client_id: g.members[k].client_id,
                instance: g.members[k].instance,
                assignment: g.members[k].assignment,
            },
    )
}

pub open spec fn new_group(id: Seq<char>) -> GroupModel {
    GroupModel {
        id,
        state: GroupState::Empty,
        generation: 0,
        protocol_type: Seq::empty(),
        protocol_name: Seq::empty(),
        leader: Seq::empty(),
        members: Map::empty(),
        waiters: Seq::empty(),
        round: None,
        initial: true,
        deadline: None,
    }
}

/// The reply to a JoinGroup request of a member that is not, or no longer, in
/// the group.
pub open spec fn join_refused(member_id: Seq<char>) -> JoinModel {
    JoinModel {
        error_code: error_codes::UNKNOWN_MEMBER_ID,
        generation_id: 0,
        leader: Seq::empty(),
        member_id,
        protocol_type: Seq::empty(),
        protocol_name: Seq::empty(),
        members: Seq::empty(),
    }
}

pub open spec fn sync_failed(code: i16) -> SyncModel {
    SyncModel {
        error_code: code,
        protocol_type: Seq::empty(),
        protocol_name: Seq::empty(),
        assignment: Seq::empty(),
    }
}

/// Hexadecimal digit.
pub open spec fn hex_char(d: int) -> char {
    if d < 10 {
        (d + 48) as char
    } else {
        (d + 87) as char
    }
}

/// The bytes of a number, least significant first, two hexadecimal digits
/// each, from byte `i` on.
pub open spec fn le_hex(n: nat, count: nat) -> Seq<char>
    decreases count,
{
    if count == 0 {
        Seq::empty()
    } else {
        seq![hex_char((n / 16 % 16) as int), hex_char((n % 16) as int)] + le_hex(n / 256, (count - 1) as nat)
    }
}

/// Member id of a newcomer: its client id and a sequence number.
pub open spec fn fresh_member_id(client_id: Seq<char>, n: u64) -> Seq<char> {
    client_id.push('-') + le_hex(n as nat, 8)
}

/// `r` is the greatest rebalance timeout.
pub open spec fn greatest_timeout(members: Map<Seq<char>, MemberModel>, r: i32) -> bool {
    &&& forall|k: Seq<char>| #[trigger] members.contains_key(k) ==> members[k].rebalance_timeout <= r
    &&& exists|k: Seq<char>| #[trigger] members.contains_key(k) && members[k].rebalance_timeout == r
}

/// The greatest rebalance timeout of the members; the default where none is
/// positive.
pub open spec fn max_timeout(members: Map<Seq<char>, MemberModel>) -> i32 {
    if exists|r: i32| r > 0 && #[trigger] greatest_timeout(members, r) {
        choose|r: i32| r > 0 && #[trigger] greatest_timeout(members, r)
    } else {
        DEFAULT_REBALANCE_TIMEOUT_MS
    }
}

pub open spec fn session_ms(timeout: i32) -> u64 {
    if timeout <= 0 {
        DEFAULT_SESSION_TIMEOUT_MS as u64
    } else {
        timeout as u64
    }
}

pub open spec fn min_int(a: int, b: int) -> int {
    if a <= b {
        a
    } else {
        b
    }
}

/// How long the rebalance timer runs: the greatest timeout, for the first
/// rebalance at most the initial delay and what is left to its deadline.
pub open spec fn rebalance_budget(g: GroupModel, initial: bool, now_ms: u64) -> u64 {
    let most = max_timeout(g.members) as int;
    if !initial {
        most as u64
    } else {
        let capped = min_int(most, INITIAL_REBALANCE_DELAY_MS as int);
        match g.deadline {
            Some(d) => min_int(capped, if d > now_ms { d - now_ms } else { 0 }) as u64,
            None => capped as u64,
        }
    }
}

pub open spec fn first_waiter(waiters: Seq<WaiterModel>, id: Seq<char>) -> Option<int>
    decreases waiters.len(),
{
    if waiters.len() == 0 {
        None
    } else {
        match first_waiter(waiters.drop_last(), id) {
            Some(i) => Some(i),
            None => if waiters.last().member_id == id {
                Some(waiters.len() - 1)
            } else {
                None
            },
        }
    }
}

/// Takes a member out: its session timer stops, and its first waiting
/// JoinGroup request is refused.
pub open spec fn without_member(g: GroupModel, id: Seq<char>) -> (GroupModel, Seq<Act>) {
    let stopped = if g.members.contains_key(id) {
        seq![Act::DisarmSession { member_id: id }]
    } else {
        Seq::empty()
    };
    match first_waiter(g.waiters, id) {
        Some(i) => (
            GroupModel { members: g.members.remove(id), waiters: g.waiters.remove(i), ..g },
            stopped.push(Act::JoinReply { ticket: g.waiters[i].ticket, outcome: join_refused(id) }),
        ),
        None => (GroupModel { members: g.members.remove(id), ..g }, stopped),
    }
}

/// Takes several members out, one after the other.
pub open spec fn without_members(g: GroupModel, ids: Seq<Seq<char>>) -> (GroupModel, Seq<Act>)
    decreases ids.len(),
{
    if ids.len() == 0 {
        (g, Seq::empty())
    } else {
        let (h, acts) = without_members(g, ids.drop_last());
        let (h2, more) = without_member(h, ids.last());
        (h2, acts + more)
    }
}

pub open spec fn lists_protocol(m: MemberModel, name: Seq<char>) -> bool {
    exists|i: int| 0 <= i < m.protocols.len() && (#[trigger] m.protocols[i]).name == name
}

/// Whether every waiting member from number `from` on supports a protocol.
pub open spec fn all_list(members: Map<Seq<char>, MemberModel>, waiters: Seq<WaiterModel>, name: Seq<char>) -> bool {
    forall|i: int|
        1 <= i < waiters.len() ==> members.contains_key((#[trigger] waiters[i]).member_id) && lists_protocol(
            members[waiters[i].member_id],
            name,
        )
}

/// The first protocol from number `i` of a list that all other waiting
/// members support.
pub open spec fn shared_protocol(
    members: Map<Seq<char>, MemberModel>,
    waiters: Seq<WaiterModel>,
    list: Seq<ProtocolModel>,
    i: int,
) -> Option<Seq<char>>
    decreases list.len() - i,
{
    if i < 0 || i >= list.len() {
        None
    } else if all_list(members, waiters, list[i].name) {
        Some(list[i].name)
    } else {
        shared_protocol(members, waiters, list, i + 1)
    }
}

/// The protocol of a generation: the first of the leader's that all support.
pub open spec fn chosen_protocol(members: Map<Seq<char>, MemberModel>, waiters: Seq<WaiterModel>) -> Option<Seq<char>> {
    if waiters.len() == 0 || !members.contains_key(waiters[0].member_id) {
        None
    } else {
        shared_protocol(members, waiters, members[waiters[0].member_id].protocols, 0)
    }
}

pub open spec fn metadata_for(list: Seq<ProtocolModel>, name: Seq<char>, i: int) -> Seq<u8>
    decreases list.len() - i,
{
    if i < 0 || i >= list.len() {
        Seq::empty()
    } else if list[i].name == name {
        list[i].metadata
    } else {
        metadata_for(list, name, i + 1)
    }
}

pub open spec fn joined_entry(members: Map<Seq<char>, MemberModel>, w: WaiterModel, protocol: Seq<char>) -> JoinedModel {
    if members.contains_key(w.member_id) {
        JoinedModel {
            member_id: w.member_id,
            instance: members[w.member_id].instance,
            metadata: metadata_for(members[w.member_id].protocols, protocol, 0),
        }
    } else {
        JoinedModel { member_id: w.member_id, instance: None, metadata: Seq::empty() }
    }
}

/// The members with what a round gives them, which is nothing where it has
/// nothing for a member.
pub open spec fn assigned(members: Map<Seq<char>, MemberModel>, round: Map<Seq<char>, Seq<u8>>) -> Map<
    Seq<char>,
    MemberModel,
> {
    members.map_entries(
        |k: Seq<char>, m: MemberModel| MemberModel {
            assignment: if round.contains_key(k) {
                round[k]
            } else {
                Seq::empty()
            },
            ..m
        },
    )
}

/// The group once the rebalance is over. A new round begins, in which nobody
/// has an assignment yet.
pub open spec fn completed_group(g: GroupModel) -> GroupModel {
    GroupModel {
        state: GroupState::CompletingRebalance,
        initial: false,
        deadline: None,
        generation: (g.generation + 1) as i32,
        waiters: Seq::empty(),
        protocol_name: match chosen_protocol(g.members, g.waiters) {
            Some(p) => p,
            None => Seq::empty(),
        },
        leader: if g.waiters.len() > 0 { g.waiters[0].member_id } else { g.leader },
        members: assigned(g.members, Map::empty()),
        round: Some(RoundModel { assignments: Map::empty(), delivered: false, parked: Seq::empty() }),
        ..g
    }
}

/// The reply to one waiting member when the rebalance is over. Only the
/// leader learns who the members are.
pub open spec fn join_reply(g: GroupModel, i: int) -> Act {
    let h = completed_group(g);
    let w = g.waiters[i];
    Act::JoinReply {
        ticket: w.ticket,
        outcome: JoinModel {
            error_code: error_codes::NONE,
            generation_id: h.generation,
            leader: h.leader,
            member_id: w.member_id,
            protocol_type: h.protocol_type,
            protocol_name: h.protocol_name,
            members: if w.member_id == h.leader {
                Seq::new(g.waiters.len(), |j: int| joined_entry(g.members, g.waiters[j], h.protocol_name))
            } else {
                Seq::empty()
            },
        },
    }
}

pub open spec fn completed(g: GroupModel) -> (GroupModel, Seq<Act>) {
    (
        completed_group(g),
        seq![Act::DisarmRebalance] + Seq::new(g.waiters.len(), |i: int| join_reply(g, i)),
    )
}

/// Whether every member has rejoined, so that the rebalance completes without
/// its timer. The first one is left to the timer.
pub open spec fn all_rejoined(g: GroupModel) -> bool {
    !g.initial && g.state == GroupState::PreparingRebalance && g.waiters.len() >= g.members.dom().len()
}

/// Completes the rebalance where every member has rejoined.
pub open spec fn completed_if_due(g: GroupModel) -> (GroupModel, Seq<Act>) {
    if all_rejoined(g) {
        completed(g)
    } else {
        (g, Seq::empty())
    }
}

/// The replies when a round is given up: to nobody once it was delivered.
pub open spec fn cancel_replies(round: Option<RoundModel>) -> Seq<Act> {
    match round {
        Some(r) => if r.delivered {
            Seq::empty()
        } else {
            Seq::new(
                r.parked.len(),
                |i: int| Act::SyncReply { ticket: r.parked[i].ticket, reply: sync_failed(error_codes::REBALANCE_IN_PROGRESS) },
            )
        },
        None => Seq::empty(),
    }
}

#[verifier::ext_equal]
pub struct JoinRequestModel {
    pub member_id: Seq<char>,
    pub instance: Option<Seq<char>>,
    pub session_timeout: i32,
    pub rebalance_timeout: i32,
    pub protocol_type: Seq<char>,
    pub protocols: Seq<ProtocolModel>,
    pub client_id: Seq<char>,
    pub client_host: Seq<char>,
    pub version: i16,
}

impl View for JoinRequest {
    type V = JoinRequestModel;

    open spec fn view(&self) -> JoinRequestModel {
        JoinRequestModel {
            member_id: self.member_id@,
            instance: text::opt_text(self.group_instance_id),
            session_timeout: self.session_timeout_ms,
            rebalance_timeout: self.rebalance_timeout_ms,
            protocol_type: self.protocol_type@,
            protocols: protocols_of(self.protocols@),
            client_id: self.client_id@,
            client_host: self.client_host@,
            version: self.version,
        }
    }
}

pub open spec fn joining_id(req: JoinRequestModel, fresh: u64) -> Seq<char> {
    if req.member_id.len() == 0 {
        fresh_member_id(req.client_id, fresh)
    } else {
        req.member_id
    }
}

/// The group with the joining member added or brought up to date.
pub open spec fn with_member(g: GroupModel, req: JoinRequestModel, id: Seq<char>) -> GroupModel {
    let known = g.members.contains_key(id);
    let m = MemberModel {
        id: if known { g.members[id].id } else { id },
        client_id: if known { g.members[id].client_id } else { req.client_id },
        client_host: if known { g.members[id].client_host } else { req.client_host },
        instance: req.instance,
        session_timeout: req.session_timeout,
        rebalance_timeout: req.rebalance_timeout,
        protocols: req.protocols,
        assignment: if known { g.members[id].assignment } else { Seq::empty() },
    };
    GroupModel {
        members: g.members.insert(id, m),
        protocol_type: if req.protocol_type.len() > 0 { req.protocol_type } else { g.protocol_type },
        ..g
    }
}

/// Parks a JoinGroup request, and completes the rebalance if it was the last
/// one awaited.
pub open spec fn parked_join(g: GroupModel, acts: Seq<Act>, id: Seq<char>, ticket: u64) -> (GroupModel, Seq<Act>) {
    let (h, more) = completed_if_due(
        GroupModel { waiters: g.waiters.push(WaiterModel { member_id: id, ticket }), ..g },
    );
    (h, acts + more)
}

/// Whether a JoinGroup request is the last one awaited, so that a rebalance
/// completes with it.
pub open spec fn join_completes(g: GroupModel, req: JoinRequestModel, fresh: u64) -> bool {
    !g.initial && g.state != GroupState::Dead && g.waiters.len() + 1 >= with_member(
        g,
        req,
        joining_id(req, fresh),
    ).members.dom().len()
}

/// A JoinGroup request.
pub open spec fn join_next(g: GroupModel, req: JoinRequestModel, ticket: u64, fresh: u64, now_ms: u64) -> (
    GroupModel,
    Seq<Act>,
) {
    let id = joining_id(req, fresh);
    let is_new = !g.members.contains_key(id);
    let g1 = with_member(g, req, id);
    let armed = seq![Act::ArmSession { member_id: id, after_ms: session_ms(req.session_timeout) }];
    match g.state {
        GroupState::Empty => {
            let cap = max_timeout(g1.members);
            let g2 = GroupModel {
                state: GroupState::PreparingRebalance,
                deadline: Some(if now_ms + cap <= u64::MAX { (now_ms + cap) as u64 } else { u64::MAX }),
                ..g1
            };
            parked_join(
                g2,
                armed.push(Act::ArmRebalance { after_ms: rebalance_budget(g2, true, now_ms) }),
                id,
                ticket,
            )
        },
        GroupState::Stable | GroupState::CompletingRebalance => {
            let g2 = GroupModel { state: GroupState::PreparingRebalance, round: None, ..g1 };
            parked_join(
                g2,
                armed.push(Act::ArmRebalance { after_ms: rebalance_budget(g2, false, now_ms) }) + cancel_replies(
                    g1.round,
                ),
                id,
                ticket,
            )
        },
        GroupState::PreparingRebalance => {
            if g.initial && is_new {
                parked_join(
                    g1,
                    armed.push(Act::ArmRebalance { after_ms: rebalance_budget(g1, true, now_ms) }),
                    id,
                    ticket,
                )
            } else {
                parked_join(g1, armed, id, ticket)
            }
        },
        GroupState::Dead => (g1, armed.push(Act::JoinReply { ticket, outcome: join_refused(id) })),
    }
}

#[verifier::ext_equal]
pub struct SyncRequestModel {
    pub member_id: Seq<char>,
    pub generation: i32,
    pub instance: Option<Seq<char>>,
    pub protocol_type: Option<Seq<char>>,
    pub protocol_name: Option<Seq<char>>,
    pub assignments: Seq<(Seq<char>, Seq<u8>)>,
}

impl View for SyncRequest {
    type V = SyncRequestModel;

    open spec fn view(&self) -> SyncRequestModel {
        SyncRequestModel {
            member_id: self.member_id@,
            generation: self.generation_id,
            instance: text::opt_text(self.group_instance_id),
            protocol_type: text::opt_text(self.protocol_type),
            protocol_name: text::opt_text(self.protocol_name),
            assignments: self.assignments@.map_values(|a: SyncAssignment| (a.member_id@, a.assignment@)),
        }
    }
}

/// The assignments of the leader, a later one for a member winning.
pub open spec fn with_assignments(m: Map<Seq<char>, Seq<u8>>, list: Seq<(Seq<char>, Seq<u8>)>) -> Map<Seq<char>, Seq<u8>>
    decreases list.len(),
{
    if list.len() == 0 {
        m
    } else {
        with_assignments(m, list.drop_last()).insert(list.last().0, list.last().1)
    }
}

/// An empty assignment for every member that has none.
pub open spec fn filled(m: Map<Seq<char>, Seq<u8>>, members: Set<Seq<char>>) -> Map<Seq<char>, Seq<u8>> {
    Map::new(
        |k: Seq<char>| m.contains_key(k) || members.contains(k),
        |k: Seq<char>| if m.contains_key(k) { m[k] } else { Seq::empty() },
    )
}

pub open spec fn sync_reply(p: ParkedModel, assignments: Map<Seq<char>, Seq<u8>>) -> Act {
    Act::SyncReply {
        ticket: p.ticket,
        reply: SyncModel {
            error_code: error_codes::NONE,
            protocol_type: p.protocol_type,
            protocol_name: p.protocol_name,
            assignment: if assignments.contains_key(p.member_id) { assignments[p.member_id] } else { Seq::empty() },
        },
    }
}

/// The error code of a SyncGroup request that is turned away at once.
pub open spec fn sync_error(g: GroupModel, req: SyncRequestModel) -> Option<i16> {
    if !g.members.contains_key(req.member_id) {
        Some(error_codes::UNKNOWN_MEMBER_ID)
    } else if req.generation != g.generation {
        Some(error_codes::ILLEGAL_GENERATION)
    } else if g.state != GroupState::CompletingRebalance && g.state != GroupState::Stable {
        Some(error_codes::REBALANCE_IN_PROGRESS)
    } else if g.round is None {
        Some(error_codes::REBALANCE_IN_PROGRESS)
    } else {
        None
    }
}

/// A SyncGroup request: the leader's delivers the round, and every member
/// keeps what it was given; a follower's waits for that.
pub open spec fn sync_next(g: GroupModel, req: SyncRequestModel, ticket: u64) -> (GroupModel, Seq<Act>) {
    match sync_error(g, req) {
        Some(code) => (g, seq![Act::SyncReply { ticket, reply: sync_failed(code) }]),
        None => {
            let r = g.round->0;
            let me = ParkedModel {
                member_id: req.member_id,
                ticket,
                protocol_type: g.protocol_type,
                protocol_name: g.protocol_name,
            };
            if req.member_id == g.leader {
                let all = filled(with_assignments(r.assignments, req.assignments), g.members.dom());
                (
                    GroupModel {
                        state: GroupState::Stable,
                        members: assigned(g.members, all),
                        round: Some(RoundModel { assignments: all, delivered: true, parked: Seq::empty() }),
                        ..g
                    },
                    seq![Act::CountRebalance] + r.parked.push(me).map_values(|p: ParkedModel| sync_reply(p, all)),
                )
            } else if r.delivered {
                (g, seq![sync_reply(me, r.assignments)])
            } else {
                (GroupModel { round: Some(RoundModel { parked: r.parked.push(me), ..r }), ..g }, Seq::empty())
            }
        },
    }
}

/// The answer to a heartbeat; a good one restarts the session timer.
pub open spec fn heartbeat_code(g: GroupModel, id: Seq<char>, generation: i32) -> i16 {
    if g.state == GroupState::Empty || g.state == GroupState::Dead || !g.members.contains_key(id) {
        error_codes::UNKNOWN_MEMBER_ID
    } else if generation != g.generation {
        error_codes::ILLEGAL_GENERATION
    } else if g.state == GroupState::Stable {
        error_codes::NONE
    } else {
        error_codes::REBALANCE_IN_PROGRESS
    }
}

pub open spec fn heartbeat_acts(g: GroupModel, id: Seq<char>, generation: i32) -> Seq<Act> {
    let code = heartbeat_code(g, id, generation);
    if code == error_codes::NONE || code == error_codes::REBALANCE_IN_PROGRESS {
        seq![Act::ArmSession { member_id: id, after_ms: session_ms(g.members[id].session_timeout) }]
    } else {
        Seq::empty()
    }
}

/// After members left: an empty group rests, a stable one rebalances.
pub open spec fn after_departure(g: GroupModel) -> (GroupModel, Seq<Act>) {
    if g.members.dom().len() == 0 {
        (GroupModel { state: GroupState::Empty, ..g }, seq![Act::DisarmRebalance])
    } else if g.state == GroupState::Stable {
        (
            GroupModel { state: GroupState::PreparingRebalance, ..g },
            seq![Act::ArmRebalance { after_ms: rebalance_budget(g, false, 0) }],
        )
    } else {
        (g, Seq::empty())
    }
}

/// Members leave one after the other; one that is not there is skipped.
pub open spec fn departed(g: GroupModel, ids: Seq<Seq<char>>) -> (GroupModel, Seq<Act>, Seq<i16>)
    decreases ids.len(),
{
    if ids.len() == 0 {
        (g, Seq::empty(), Seq::empty())
    } else {
        let (h, acts, codes) = departed(g, ids.drop_last());
        if h.members.contains_key(ids.last()) {
            let (h2, more) = without_member(h, ids.last());
            (h2, acts + more, codes.push(error_codes::NONE))
        } else {
            (h, acts, codes.push(error_codes::UNKNOWN_MEMBER_ID))
        }
    }
}

/// A LeaveGroup request.
pub open spec fn leave_next(g: GroupModel, ids: Seq<Seq<char>>) -> (GroupModel, Seq<Act>, Seq<i16>) {
    let (h, acts, codes) = departed(g, ids);
    let (h2, more) = after_departure(h);
    (h2, acts + more, codes)
}

/// A session ran out.
pub open spec fn expired_next(g: GroupModel, id: Seq<char>) -> (GroupModel, Seq<Act>) {
    if g.members.contains_key(id) {
        let (h, acts) = without_member(g, id);
        let (h2, more) = after_departure(h);
        (h2, acts + more)
    } else {
        (g, Seq::empty())
    }
}

/// The members that did not rejoin and have no static identity.
pub open spec fn stale_members(g: GroupModel) -> Set<Seq<char>> {
    g.members.dom().filter(
        |k: Seq<char>| first_waiter(g.waiters, k) is None && g.members[k].instance is None,
    )
}

/// Turns out who did not rejoin in time.
pub open spec fn evicted(g: GroupModel) -> (GroupModel, Seq<Act>) {
    if g.members.dom().len() == g.waiters.len() {
        (g, Seq::empty())
    } else {
        without_members(g, order::in_order(stale_members(g)))
    }
}

/// Whether the rebalance timer completes a rebalance when it fires.
pub open spec fn timer_completes(g: GroupModel) -> bool {
    g.state == GroupState::PreparingRebalance && g.waiters.len() > 0
}

/// The rebalance timer fired.
pub open spec fn timer_next(g: GroupModel) -> (GroupModel, Seq<Act>) {
    if timer_completes(g) {
        let (h, acts) = evicted(g);
        let (h2, more) = completed(h);
        (h2, acts + more)
    } else {
        (g, Seq::empty())
    }
}

/// The refusals of all waiting JoinGroup requests.
pub open spec fn refusals(waiters: Seq<WaiterModel>) -> Seq<Act> {
    Seq::new(
        waiters.len(),
        |i: int| Act::JoinReply { ticket: waiters[i].ticket, outcome: join_refused(waiters[i].member_id) },
    )
}

/// The group is given up: its members are taken out, and what still waits,
/// such as the second request of a member, is refused as well.
pub open spec fn shutdown_next(g: GroupModel) -> (GroupModel, Seq<Act>) {
    let (h, acts) = without_members(g, order::in_order(g.members.dom()));
    (
        GroupModel { state: GroupState::Dead, members: Map::empty(), waiters: Seq::empty(), round: None, ..h },
        (acts + refusals(h.waiters)).push(Act::DisarmRebalance) + cancel_replies(g.round),
    )
}

// The implementation.

proof fn lemma_member_map(m: Map<Seq<char>, GroupMember>, k: Seq<char>, v: GroupMember)
    ensures
        member_map(m.insert(k, v)) == member_map(m).insert(k, v@),
        member_map(m.remove(k)) == member_map(m).remove(k),
        member_map(m).dom() == m.dom(),
{
    assert(member_map(m.insert(k, v)) =~= member_map(m).insert(k, v@));
    assert(member_map(m.remove(k)) =~= member_map(m).remove(k));
    assert(member_map(m).dom() =~= m.dom());
}

proof fn lemma_byte_map(m: Map<Seq<char>, Vec<u8>>, k: Seq<char>, v: Vec<u8>)
    ensures
        byte_map(m.insert(k, v)) == byte_map(m).insert(k, v@),
        byte_map(m).dom() == m.dom(),
{
    assert(byte_map(m.insert(k, v)) =~= byte_map(m).insert(k, v@));
    assert(byte_map(m).dom() =~= m.dom());
}

fn emit(out: &mut Vec<GroupAction>, a: GroupAction)
    ensures
        acts_of(final(out)@) == acts_of(old(out)@).push(a@),
{
    out.push(a);
    assert(acts_of(out@) =~= acts_of(old(out)@).push(a@));
}

fn hex_digit(d: u8) -> (c: char)
    requires
        d < 16,
    ensures
        c == hex_char(d as int),
{
    if d < 10 {
        (d + 48) as char
    } else {
        (d + 87) as char
    }
}

/// The member id for a newcomer with this client id and sequence number.
pub fn generate_member_id(client_id: &str, n: u64) -> (s: String)
    ensures
        s@ == fresh_member_id(client_id@, n),
{
    let mut s = client_id.to_owned();
    s.push('-');
    let mut rest: u64 = n;
    let mut left: u8 = 8;
    let ghost head = s@;
    assert(s@ + le_hex(n as nat, 8) =~= fresh_member_id(client_id@, n));
    while left > 0
        invariant
            left <= 8,
            s@ + le_hex(rest as nat, left as nat) == fresh_member_id(client_id@, n),
        decreases left,
    {
        let ghost before = s@;
        s.push(hex_digit((rest / 16 % 16) as u8));
        s.push(hex_digit((rest % 16) as u8));
        proof {
            assert(le_hex(rest as nat, left as nat) == seq![hex_char((rest as nat / 16 % 16) as int), hex_char((rest as nat % 16) as int)] + le_hex(rest as nat / 256, (left - 1) as nat));
            assert(s@ + le_hex(rest as nat / 256, (left - 1) as nat) =~= before + le_hex(rest as nat, left as nat));
        }
        rest = rest / 256;
        left = left - 1;
    }
    assert(s@ =~= s@ + le_hex(rest as nat, 0));
    s
}

fn refused(member_id: &str) -> (o: JoinOutcome)
    ensures
        o@ == join_refused(member_id@),
{
    let o = JoinOutcome {
        error_code: error_codes::UNKNOWN_MEMBER_ID,
        generation_id: 0,
        leader: String::new(),
        member_id: member_id.to_owned(),
        protocol_type: String::new(),
        protocol_name: String::new(),
        members: Vec::new(),
    };
    assert(o@ =~= join_refused(member_id@));
    o
}

fn failed(code: i16) -> (o: SyncOutcome)
    ensures
        o@ == sync_failed(code),
{
    let o = SyncOutcome {
        error_code: code,
        protocol_type: String::new(),
        protocol_name: String::new(),
        assignment: Vec::new(),
    };
    assert(o@ =~= sync_failed(code));
    o
}

fn session_wait(timeout: i32) -> (ms: u64)
    ensures
        ms == session_ms(timeout),
{
    if timeout <= 0 {
        DEFAULT_SESSION_TIMEOUT_MS as u64
    } else {
        timeout as u64
    }
}

fn has_protocol(list: &Vec<ProtocolMetadata>, name: &str) -> (r: bool)
    ensures
        r == exists|i: int| 0 <= i < list@.len() && (#[trigger] protocols_of(list@)[i]).name == name@,
{
    let mut i: usize = 0;
    while i < list.len()
        invariant
            i <= list@.len(),
            forall|j: int| 0 <= j < i ==> (#[trigger] protocols_of(list@)[j]).name != name@,
        decreases list.len() - i,
    {
        if text_eq(&list[i].name, name) {
            assert(protocols_of(list@)[i as int].name == name@);
            return true;
        }
        i = i + 1;
    }
    false
}

fn find_metadata(list: &Vec<ProtocolMetadata>, name: &str) -> (r: Vec<u8>)
    ensures
        r@ == metadata_for(protocols_of(list@), name@, 0),
{
    let mut i: usize = 0;
    while i < list.len()
        invariant
            i <= list@.len(),
            metadata_for(protocols_of(list@), name@, 0) == metadata_for(protocols_of(list@), name@, i as int),
        decreases list.len() - i,
    {
        assert(protocols_of(list@)[i as int] == list@[i as int]@);
        if text_eq(&list[i].name, name) {
            return copy_bytes(&list[i].metadata);
        }
        i = i + 1;
    }
    let r: Vec<u8> = Vec::new();
    assert(r@ =~= Seq::empty());
    r
}

/// The protocol that the group will use.
fn select_protocol(members: &TextMap<GroupMember>, waiters: &Vec<JoinWaiter>) -> (r: Option<String>)
    ensures
        text::opt_text(r) == chosen_protocol(member_map(members@), waiters_of(waiters@)),
{
    let ghost ms = member_map(members@);
    let ghost ws = waiters_of(waiters@);
    if waiters.len() == 0 {
        return None;
    }
    assert(ws[0] == waiters@[0]@);
    match members.get(&waiters[0].member_id) {
        None => None,
        Some(leader) => {
            let ghost list = protocols_of(leader.protocols@);
            assert(ms[ws[0].member_id] == leader@);
            let mut i: usize = 0;
            while i < leader.protocols.len()
                invariant
                    i <= leader.protocols@.len(),
                    waiters@.len() > 0,
                    ms.contains_key(ws[0].member_id),
                    list == ms[ws[0].member_id].protocols,
                    ms == member_map(members@),
                    ws == waiters_of(waiters@),
                    list == protocols_of(leader.protocols@),
                    shared_protocol(ms, ws, list, 0) == shared_protocol(ms, ws, list, i as int),
                decreases leader.protocols.len() - i,
            {
                let name = &leader.protocols[i].name;
                assert(list[i as int].name == name@);
                let mut all: bool = true;
                let mut k: usize = 1;
                while k < waiters.len() && all
                    invariant
                        1 <= k <= waiters@.len(),
                        ms == member_map(members@),
                        ws == waiters_of(waiters@),
                        all ==> forall|j: int| 1 <= j < k ==> ms.contains_key((#[trigger] ws[j]).member_id) && lists_protocol(ms[ws[j].member_id], name@),
                        !all ==> !all_list(ms, ws, name@),
                    decreases waiters.len() - k,
                {
                    assert(ws[k as int] == waiters@[k as int]@);
                    match members.get(&waiters[k].member_id) {
                        Some(m) => {
                            assert(ms[ws[k as int].member_id] == m@);
                            all = has_protocol(&m.protocols, name);
                        },
                        None => {
                            all = false;
                        },
                    }
                    k = k + 1;
                }
                if all {
                    return Some(name.clone());
                }
                i = i + 1;
            }
            None
        },
    }
}

/// The greatest rebalance timeout, or the default.
fn max_rebalance_timeout(members: &TextMap<GroupMember>) -> (r: i32)
    ensures
        r == max_timeout(member_map(members@)),
        r > 0,
{
    let ghost ms = member_map(members@);
    let n: usize = members.len();
    let mut max: i32 = 0;
    let mut i: usize = 0;
    while i < n
        invariant
            i <= n,
            n == members.key_list().len(),
            members.key_list().to_set() == members@.dom(),
            ms == member_map(members@),
            max >= 0,
            forall|j: int| 0 <= j < i ==> ms[#[trigger] members.key_list()[j]].rebalance_timeout <= max,
            max > 0 ==> exists|k: Seq<char>| #[trigger] ms.contains_key(k) && ms[k].rebalance_timeout == max,
        decreases n - i,
    {
        let m = members.value_at(i);
        assert(ms[members.key_list()[i as int]] == m@);
        assert(ms.contains_key(members.key_list()[i as int]));
        if m.rebalance_timeout_ms > max {
            max = m.rebalance_timeout_ms;
        }
        i = i + 1;
    }
    proof {
        assert forall|k: Seq<char>| #[trigger] ms.contains_key(k) implies ms[k].rebalance_timeout <= max by {
            assert(members.key_list().to_set().contains(k));
            let j = choose|j: int| 0 <= j < members.key_list().len() && members.key_list()[j] == k;
            assert(ms[members.key_list()[j]].rebalance_timeout <= max);
        }
        if max > 0 {
            assert(greatest_timeout(ms, max));
            let r = max_timeout(ms);
            assert(greatest_timeout(ms, r));
        } else if exists|r: i32| r > 0 && #[trigger] greatest_timeout(ms, r) {
            let r = choose|r: i32| r > 0 && #[trigger] greatest_timeout(ms, r);
            assert(greatest_timeout(ms, r));
        }
    }
    if max <= 0 {
        DEFAULT_REBALANCE_TIMEOUT_MS
    } else {
        max
    }
}

fn position_of(waiters: &Vec<JoinWaiter>, id: &str) -> (r: Option<usize>)
    ensures
        match r {
            Some(i) => i < waiters@.len() && first_waiter(waiters_of(waiters@), id@) == Some(i as int),
            None => first_waiter(waiters_of(waiters@), id@) is None,
        },
{
    let ghost ws = waiters_of(waiters@);
    let mut found: Option<usize> = None;
    let mut i: usize = 0;
    while i < waiters.len()
        invariant
            i <= waiters@.len(),
            ws == waiters_of(waiters@),
            match found {
                Some(k) => k < i && first_waiter(ws.take(i as int), id@) == Some(k as int),
                None => first_waiter(ws.take(i as int), id@) is None,
            },
        decreases waiters.len() - i,
    {
        assert(ws.take(i + 1).drop_last() =~= ws.take(i as int));
        assert(ws.take(i + 1).last() == waiters@[i as int]@);
        if found.is_none() && text_eq(&waiters[i].member_id, id) {
            found = Some(i);
        }
        i = i + 1;
    }
    assert(ws.take(i as int) =~= ws);
    found
}

impl Group {
    /// A group without members.
    pub fn new(id: String) -> (g: Self)
        ensures
            g@ == new_group(id@),
    {
        let g = Group {
            id,
            state: GroupState::Empty,
            generation_id: 0,
            protocol_type: String::new(),
            protocol_name: String::new(),
            leader_id: String::new(),
            members: TextMap::new(),
            join_waiters: Vec::new(),
            current_sync: None,
            initial_rebalance: true,
            initial_rebalance_deadline: None,
        };
        assert(g@ =~= new_group(id@)) by {
            assert(member_map(g.members@) =~= Map::empty());
            assert(waiters_of(g.join_waiters@) =~= Seq::empty());
        }
        g
    }

    pub fn id(&self) -> (s: String)
        ensures
            s@ == self@.id,
    {
        self.id.clone()
    }

    pub fn state(&self) -> (s: GroupState)
        ensures
            s == self@.state,
    {
        self.state
    }

    /// The group as DescribeGroups shows it, members by id.
    pub fn describe(&self) -> (s: GroupSnapshot)
        ensures
            shows(s, self@),
    {
        let keys = self.members.sorted_keys();
        let ghost names = order::in_order(self@.members.dom());
        proof {
            lemma_member_map(self.members@, Seq::empty(), arbitrary());
        }
        let mut out: Vec<MemberSnapshot> = Vec::new();
        let mut i: usize = 0;
        while i < keys.len()
            invariant
                i <= keys@.len(),
                names == order::texts(keys@),
                names.to_set() == self.members@.dom(),
                self@.members == member_map(self.members@),
                out@.len() == i,
                forall|j: int|
                    0 <= j < i ==> (#[trigger] out@[j])@ == (MemberSnapshotModel {
                        member_id: self@.members[names[j]].id,
                        client_id: self@.members[names[j]].client_id,
                        instance: self@.members[names[j]].instance,
                        assignment: self@.members[names[j]].assignment,
                    }),
            decreases keys.len() - i,
        {
            assert(names[i as int] == keys@[i as int]@);
            assert(names.to_set().contains(names[i as int]));
            match self.members.get(&keys[i]) {
                Some(m) => {
                    assert(self@.members[names[i as int]] == m@);
                    out.push(MemberSnapshot {
                        member_id: m.id.clone(),
                        client_id: m.client_id.clone(),
                        group_instance_id: copy_opt(&m.group_instance_id),
                        assignment: copy_bytes(&m.assignment),
                    });
                },
                None => {},
            }
            i = i + 1;
        }
        proof {
            assert(out@.map_values(|m: MemberSnapshot| m@) =~= names.map_values(
                |k: Seq<char>|
                    MemberSnapshotModel {
                        member_id: self@.members[k].id,
                        client_id: self@.members[k].client_id,
                        instance: self@.members[k].instance,
                        assignment: self@.members[k].assignment,
                    },
            ));
        }
        GroupSnapshot {
            id: self.id.clone(),
            state: self.state.as_str(),
            protocol_type: self.protocol_type.clone(),
            protocol_name: self.protocol_name.clone(),
            generation_id: self.generation_id,
            members: out,
        }
    }

    fn remove_member(&mut self, mid: &str, out: &mut Vec<GroupAction>)
        ensures
            final(self)@ == without_member(old(self)@, mid@).0,
            acts_of(final(out)@) == acts_of(old(out)@) + without_member(old(self)@, mid@).1,
    {
        proof {
            lemma_member_map(self.members@, mid@, arbitrary());
        }
        let ghost g = self@;
        if self.members.contains_key(mid) {
            emit(out, GroupAction::DisarmSession { member_id: mid.to_owned() });
        }
        let at = position_of(&self.join_waiters, mid);
        let gone = self.members.remove(mid);
        match at {
            Some(i) => {
                let ghost before = self.join_waiters@;
                let w = self.join_waiters.remove(i);
                proof {
                    assert(waiters_of(self.join_waiters@) =~= waiters_of(before).remove(i as int));
                    assert(waiters_of(before)[i as int] == w@);
                }
                emit(out, GroupAction::JoinReply { ticket: w.ticket, outcome: refused(mid) });
            },
            None => {},
        }
        proof {
            assert(self@ =~= without_member(g, mid@).0);
            assert(acts_of(out@) =~= acts_of(old(out)@) + without_member(g, mid@).1);
        }
    }

    fn arm_rebalance(&self, initial: bool, now_ms: u64, out: &mut Vec<GroupAction>)
        ensures
            acts_of(final(out)@) == acts_of(old(out)@).push(Act::ArmRebalance { after_ms: rebalance_budget(self@, initial, now_ms) }),
    {
        let most: i32 = max_rebalance_timeout(&self.members);
        let mut budget: u64 = most as u64;
        if initial {
            if budget > INITIAL_REBALANCE_DELAY_MS {
                budget = INITIAL_REBALANCE_DELAY_MS;
            }
            match self.initial_rebalance_deadline {
                Some(d) => {
                    let remaining: u64 = if d > now_ms { d - now_ms } else { 0 };
                    if budget > remaining {
                        budget = remaining;
                    }
                },
                None => {},
            }
        }
        emit(out, GroupAction::ArmRebalance { after_ms: budget });
    }

    fn complete_rebalance(&mut self, out: &mut Vec<GroupAction>)
        requires
            old(self)@.generation < i32::MAX,
        ensures
            final(self)@ == completed(old(self)@).0,
            acts_of(final(out)@) == acts_of(old(out)@) + completed(old(self)@).1,
    {
        let ghost g = self@;
        let ghost h = completed_group(g);
        emit(out, GroupAction::DisarmRebalance);
        let ghost acts0 = acts_of(out@);
        self.state = GroupState::CompletingRebalance;
        self.initial_rebalance = false;
        self.initial_rebalance_deadline = None;
        self.generation_id = self.generation_id + 1;
        let mut waiters: Vec<JoinWaiter> = Vec::new();
        std::mem::swap(&mut waiters, &mut self.join_waiters);
        let ghost ws = waiters_of(waiters@);
        self.protocol_name = match select_protocol(&self.members, &waiters) {
            Some(p) => p,
            None => String::new(),
        };
        if waiters.len() > 0 {
            assert(ws[0] == waiters@[0]@);
            self.leader_id = waiters[0].member_id.clone();
        }
        self.current_sync = Some(SyncRound { assignments: TextMap::new(), delivered: false, waiters: Vec::new() });
        proof {
            assert(byte_map(self.current_sync->0.assignments@) =~= Map::empty());
            assert(parked_of(self.current_sync->0.waiters@) =~= Seq::empty());
            assert(waiters_of(self.join_waiters@) =~= Seq::empty());
            assert(self@ =~= (GroupModel { members: g.members, ..h }));
            assert(g.members == member_map(self.members@));
            assert(g.waiters == ws);
        }
        let mut i: usize = 0;
        while i < waiters.len()
            invariant
                i <= waiters@.len(),
                ws == waiters_of(waiters@),
                ws == g.waiters,
                h == completed_group(g),
                self@ == (GroupModel { members: g.members, ..h }),
                g.members == member_map(self.members@),
                acts_of(out@) == acts0 + Seq::new(i as nat, |k: int| join_reply(g, k)),
            decreases waiters.len() - i,
        {
            assert(ws[i as int] == waiters@[i as int]@);
            let w = &waiters[i];
            let members: Vec<JoinedMember> = if text_eq(&w.member_id, &self.leader_id) {
                self.member_list(&waiters)
            } else {
                let none: Vec<JoinedMember> = Vec::new();
                assert(joined_of(none@) =~= Seq::empty());
                none
            };
            let outcome = JoinOutcome {
                error_code: error_codes::NONE,
                generation_id: self.generation_id,
                leader: self.leader_id.clone(),
                member_id: w.member_id.clone(),
                protocol_type: self.protocol_type.clone(),
                protocol_name: self.protocol_name.clone(),
                members,
            };
            emit(out, GroupAction::JoinReply { ticket: w.ticket, outcome });
            proof {
                assert(acts_of(out@).last() == join_reply(g, i as int));
                assert(acts_of(out@) =~= acts0 + Seq::new((i + 1) as nat, |k: int| join_reply(g, k)));
            }
            i = i + 1;
        }
        assert(acts_of(out@) =~= acts_of(old(out)@) + completed(g).1);
        let nothing: TextMap<Vec<u8>> = TextMap::new();
        assert(byte_map(nothing@) =~= Map::empty());
        keep_assignments(&mut self.members, &nothing);
        assert(self@ =~= h);
    }

    /// Who takes part in the generation, for the leader.
    fn member_list(&self, waiters: &Vec<JoinWaiter>) -> (r: Vec<JoinedMember>)
        ensures
            joined_of(r@) == Seq::new(
                waiters@.len(),
                |j: int| joined_entry(self@.members, waiters_of(waiters@)[j], self@.protocol_name),
            ),
    {
        let mut r: Vec<JoinedMember> = Vec::new();
        let mut i: usize = 0;
        let ghost ms = self@.members;
        let ghost p = self@.protocol_name;
        while i < waiters.len()
            invariant
                i <= waiters@.len(),
                ms == member_map(self.members@),
                p == self.protocol_name@,
                r@.len() == i,
                forall|j: int| 0 <= j < i ==> (#[trigger] r@[j])@ == joined_entry(ms, waiters_of(waiters@)[j], p),
            decreases waiters.len() - i,
        {
            assert(waiters_of(waiters@)[i as int] == waiters@[i as int]@);
            let id = &waiters[i].member_id;
            match self.members.get(id) {
                Some(m) => {
                    assert(ms[id@] == m@);
                    r.push(JoinedMember {
                        member_id: id.clone(),
                        group_instance_id: copy_opt(&m.group_instance_id),
                        metadata: find_metadata(&m.protocols, &self.protocol_name),
                    });
                },
                None => {
                    r.push(JoinedMember { member_id: id.clone(), group_instance_id: None, metadata: Vec::new() });
                    assert(r@[i as int].metadata@ =~= Seq::empty());
                },
            }
            i = i + 1;
        }
        assert(joined_of(r@) =~= Seq::new(
            waiters@.len(),
            |j: int| joined_entry(ms, waiters_of(waiters@)[j], p),
        ));
        r
    }

    /// Gives up the round that is under way.
    fn cancel_sync(&mut self, out: &mut Vec<GroupAction>)
        ensures
            final(self)@ == (GroupModel { round: None, ..old(self)@ }),
            acts_of(final(out)@) == acts_of(old(out)@) + cancel_replies(old(self)@.round),
    {
        let ghost g = self@;
        let round = self.current_sync.take();
        match round {
            Some(r) => {
                let ghost rm = r@;
                if !r.delivered {
                    let mut i: usize = 0;
                    let ghost f = |k: int| Act::SyncReply { ticket: rm.parked[k].ticket, reply: sync_failed(error_codes::REBALANCE_IN_PROGRESS) };
                    assert(acts_of(out@) =~= acts_of(old(out)@) + Seq::new(0, f));
                    while i < r.waiters.len()
                        invariant
                            i <= r.waiters@.len(),
                            rm == r@,
                            f == (|k: int| Act::SyncReply { ticket: rm.parked[k].ticket, reply: sync_failed(error_codes::REBALANCE_IN_PROGRESS) }),
                            acts_of(out@) == acts_of(old(out)@) + Seq::new(i as nat, f),
                        decreases r.waiters.len() - i,
                    {
                        assert(rm.parked[i as int] == r.waiters@[i as int]@);
                        emit(out, GroupAction::SyncReply { ticket: r.waiters[i].ticket, reply: failed(error_codes::REBALANCE_IN_PROGRESS) });
                        i = i + 1;
                        assert(acts_of(out@) =~= acts_of(old(out)@) + Seq::new(i as nat, f));
                    }
                    assert(acts_of(out@) =~= acts_of(old(out)@) + cancel_replies(g.round));
                } else {
                    assert(acts_of(out@) =~= acts_of(old(out)@) + cancel_replies(g.round));
                }
            },
            None => {
                assert(acts_of(out@) =~= acts_of(old(out)@) + cancel_replies(g.round));
            },
        }
        assert(self@ =~= (GroupModel { round: None, ..g }));
    }

    fn maybe_complete_rebalance(&mut self, out: &mut Vec<GroupAction>)
        requires
            all_rejoined(old(self)@) ==> old(self)@.generation < i32::MAX,
        ensures
            final(self)@ == completed_if_due(old(self)@).0,
            acts_of(final(out)@) == acts_of(old(out)@) + completed_if_due(old(self)@).1,
    {
        proof {
            lemma_member_map(self.members@, Seq::empty(), arbitrary());
        }
        if !self.initial_rebalance && self.state == GroupState::PreparingRebalance && self.join_waiters.len() >= self.members.len() {
            self.complete_rebalance(out);
        } else {
            assert(acts_of(out@) =~= acts_of(old(out)@) + Seq::<Act>::empty());
        }
    }

    /// A JoinGroup request, parked under `ticket` unless it is answered at
    /// once. `fresh` numbers the member where the request names none.
    pub fn join(&mut self, req: JoinRequest, ticket: u64, fresh: u64, now_ms: u64) -> (out: Vec<GroupAction>)
        requires
            join_completes(old(self)@, req@, fresh) ==> old(self)@.generation < i32::MAX,
        ensures
            final(self)@ == join_next(old(self)@, req@, ticket, fresh, now_ms).0,
            acts_of(out@) == join_next(old(self)@, req@, ticket, fresh, now_ms).1,
    {
        let ghost g = self@;
        let ghost r = req@;
        let mut out: Vec<GroupAction> = Vec::new();
        let id: String = if req.member_id.as_str().is_empty() {
            generate_member_id(&req.client_id, fresh)
        } else {
            req.member_id
        };
        assert(id@ == joining_id(r, fresh));
        let known = self.members.remove(&id);
        proof {
            lemma_member_map(old(self).members@, id@, arbitrary());
        }
        let is_new: bool = known.is_none();
        let session: i32 = req.session_timeout_ms;
        let m = match known {
            Some(k) => GroupMember {
                id: k.id,
                client_id: k.client_id,
                client_host: k.client_host,
                group_instance_id: req.group_instance_id,
                session_timeout_ms: req.session_timeout_ms,
                rebalance_timeout_ms: req.rebalance_timeout_ms,
                protocols: req.protocols,
                assignment: k.assignment,
            },
            None => GroupMember {
                id: id.clone(),
                client_id: req.client_id,
                client_host: req.client_host,
                group_instance_id: req.group_instance_id,
                session_timeout_ms: req.session_timeout_ms,
                rebalance_timeout_ms: req.rebalance_timeout_ms,
                protocols: req.protocols,
                assignment: Vec::new(),
            },
        };
        let ghost mm = m@;
        proof {
            lemma_member_map(self.members@, id@, m);
            assert(member_map(old(self).members@).remove(id@).insert(id@, mm) =~= member_map(old(self).members@).insert(id@, mm));
        }
        self.members.insert(id.clone(), m);
        if !req.protocol_type.as_str().is_empty() {
            self.protocol_type = req.protocol_type;
        }
        let ghost g1 = with_member(g, r, id@);
        assert(self@ =~= g1) by {
            assert(mm.assignment =~= g1.members[id@].assignment);
        }
        emit(&mut out, GroupAction::ArmSession { member_id: id.clone(), after_ms: session_wait(session) });
        let ghost armed = seq![Act::ArmSession { member_id: id@, after_ms: session_ms(r.session_timeout) }];
        assert(acts_of(out@) =~= armed);
        match self.state {
            GroupState::Empty => {
                self.state = GroupState::PreparingRebalance;
                let cap: i32 = max_rebalance_timeout(&self.members);
                self.initial_rebalance_deadline = Some(now_ms.saturating_add(cap as u64));
                self.arm_rebalance(true, now_ms, &mut out);
            },
            GroupState::Stable => {
                self.state = GroupState::PreparingRebalance;
                self.arm_rebalance(false, now_ms, &mut out);
                self.cancel_sync(&mut out);
            },
            GroupState::CompletingRebalance => {
                self.state = GroupState::PreparingRebalance;
                self.arm_rebalance(false, now_ms, &mut out);
                self.cancel_sync(&mut out);
            },
            GroupState::PreparingRebalance => {
                if self.initial_rebalance && is_new {
                    self.arm_rebalance(true, now_ms, &mut out);
                }
            },
            GroupState::Dead => {
                emit(&mut out, GroupAction::JoinReply { ticket, outcome: refused(&id) });
                return out;
            },
        }
        let ghost h = self@;
        let ghost before = self.join_waiters@;
        let ghost acts = acts_of(out@);
        self.join_waiters.push(JoinWaiter { member_id: id, ticket });
        proof {
            assert(waiters_of(self.join_waiters@) =~= waiters_of(before).push(WaiterModel { member_id: id@, ticket }));
            assert(self@ =~= (GroupModel { waiters: h.waiters.push(WaiterModel { member_id: id@, ticket }), ..h }));
        }
        self.maybe_complete_rebalance(&mut out);
        proof {
            assert(self@ == parked_join(h, acts, id@, ticket).0);
            assert(acts_of(out@) == parked_join(h, acts, id@, ticket).1);
        }
        out
    }

    /// A SyncGroup request, parked under `ticket` unless it is answered at
    /// once.
    pub fn sync(&mut self, req: SyncRequest, ticket: u64) -> (out: Vec<GroupAction>)
        ensures
            final(self)@ == sync_next(old(self)@, req@, ticket).0,
            acts_of(out@) == sync_next(old(self)@, req@, ticket).1,
    {
        let ghost g = self@;
        let ghost r = req@;
        let mut out: Vec<GroupAction> = Vec::new();
        proof {
            lemma_member_map(self.members@, Seq::empty(), arbitrary());
        }
        let mut code: Option<i16> = None;
        if !self.members.contains_key(&req.member_id) {
            code = Some(error_codes::UNKNOWN_MEMBER_ID);
        } else if req.generation_id != self.generation_id {
            code = Some(error_codes::ILLEGAL_GENERATION);
        } else if self.state != GroupState::CompletingRebalance && self.state != GroupState::Stable {
            code = Some(error_codes::REBALANCE_IN_PROGRESS);
        } else if self.current_sync.is_none() {
            code = Some(error_codes::REBALANCE_IN_PROGRESS);
        }
        assert(code == sync_error(g, r));
        match code {
            Some(c) => {
                emit(&mut out, GroupAction::SyncReply { ticket, reply: failed(c) });
                assert(acts_of(out@) =~= sync_next(g, r, ticket).1);
                return out;
            },
            None => {},
        }
        let leads: bool = text_eq(&req.member_id, &self.leader_id);
        let me = SyncWaiter {
            member_id: req.member_id,
            ticket,
            protocol_type: self.protocol_type.clone(),
            protocol_name: self.protocol_name.clone(),
        };
        let mut round = self.current_sync.take().unwrap();
        let ghost rm = round@;
        assert(rm == g.round->0);
        if leads {
            let mut assignments = round.assignments;
            deliver_assignments(&mut assignments, req.assignments, &self.members);
            let ghost all = byte_map(assignments@);
            assert(all == filled(with_assignments(rm.assignments, r.assignments), g.members.dom()));
            keep_assignments(&mut self.members, &assignments);
            self.state = GroupState::Stable;
            emit(&mut out, GroupAction::CountRebalance);
            let mut waiters = round.waiters;
            let ghost parked = parked_of(waiters@);
            waiters.push(me);
            assert(parked_of(waiters@) =~= parked.push(me@));
            let ghost f = |p: ParkedModel| sync_reply(p, all);
            let ghost head = acts_of(out@);
            let mut i: usize = 0;
            assert(head =~= head + parked_of(waiters@).take(0).map_values(f));
            while i < waiters.len()
                invariant
                    i <= waiters@.len(),
                    all == byte_map(assignments@),
                    f == (|p: ParkedModel| sync_reply(p, all)),
                    acts_of(out@) == head + parked_of(waiters@).take(i as int).map_values(f),
                decreases waiters.len() - i,
            {
                let ghost p = parked_of(waiters@)[i as int];
                assert(p == waiters@[i as int]@);
                let w = &waiters[i];
                let reply = reply_to(w, &assignments);
                emit(&mut out, reply);
                i = i + 1;
                assert(acts_of(out@) =~= head + parked_of(waiters@).take(i as int).map_values(f));
            }
            assert(parked_of(waiters@).take(i as int) =~= parked_of(waiters@));
            self.current_sync = Some(SyncRound { assignments, delivered: true, waiters: Vec::new() });
            proof {
                assert(parked_of(self.current_sync->0.waiters@) =~= Seq::empty());
                assert(self@ =~= sync_next(g, r, ticket).0);
                assert(acts_of(out@) =~= sync_next(g, r, ticket).1);
            }
        } else if round.delivered {
            let reply = reply_to(&me, &round.assignments);
            emit(&mut out, reply);
            self.current_sync = Some(round);
            proof {
                assert(self@ =~= g);
                assert(acts_of(out@) =~= sync_next(g, r, ticket).1);
            }
        } else {
            let ghost before = round.waiters@;
            round.waiters.push(me);
            assert(parked_of(round.waiters@) =~= parked_of(before).push(me@));
            self.current_sync = Some(round);
            proof {
                assert(self@ =~= sync_next(g, r, ticket).0);
                assert(acts_of(out@) =~= sync_next(g, r, ticket).1);
            }
        }
        out
    }

    /// A heartbeat: its error code, and the session timer to restart.
    pub fn heartbeat(&mut self, req: HeartbeatRequest) -> (r: (i16, Vec<GroupAction>))
        ensures
            final(self)@ == old(self)@,
            r.0 == heartbeat_code(old(self)@, req.member_id@, req.generation_id),
            acts_of(r.1@) == heartbeat_acts(old(self)@, req.member_id@, req.generation_id),
    {
        let mut out: Vec<GroupAction> = Vec::new();
        assert(acts_of(out@) =~= Seq::empty());
        proof {
            lemma_member_map(self.members@, Seq::empty(), arbitrary());
        }
        if self.state == GroupState::Empty || self.state == GroupState::Dead {
            return (error_codes::UNKNOWN_MEMBER_ID, out);
        }
        match self.members.get(&req.member_id) {
            None => (error_codes::UNKNOWN_MEMBER_ID, out),
            Some(m) => {
                if req.generation_id != self.generation_id {
                    return (error_codes::ILLEGAL_GENERATION, out);
                }
                assert(self@.members[req.member_id@] == m@);
                let wait: u64 = session_wait(m.session_timeout_ms);
                emit(&mut out, GroupAction::ArmSession { member_id: req.member_id, after_ms: wait });
                assert(acts_of(out@) =~= heartbeat_acts(self@, req.member_id@, req.generation_id));
                if self.state == GroupState::Stable {
                    (error_codes::NONE, out)
                } else {
                    (error_codes::REBALANCE_IN_PROGRESS, out)
                }
            },
        }
    }

    fn settle_departure(&mut self, out: &mut Vec<GroupAction>)
        ensures
            final(self)@ == after_departure(old(self)@).0,
            acts_of(final(out)@) == acts_of(old(out)@) + after_departure(old(self)@).1,
    {
        proof {
            lemma_member_map(self.members@, Seq::empty(), arbitrary());
        }
        let ghost g = self@;
        if self.members.len() == 0 {
            self.state = GroupState::Empty;
            emit(out, GroupAction::DisarmRebalance);
            assert(self@ =~= after_departure(g).0);
        } else if self.state == GroupState::Stable {
            self.arm_rebalance(false, 0, out);
            self.state = GroupState::PreparingRebalance;
            assert(self@ =~= after_departure(g).0);
        }
        assert(acts_of(out@) =~= acts_of(old(out)@) + after_departure(g).1);
    }

    /// A LeaveGroup request: an error code for each member id.
    pub fn leave(&mut self, member_ids: &[String]) -> (r: (Vec<(String, i16)>, Vec<GroupAction>))
        ensures
            final(self)@ == leave_next(old(self)@, order::texts(member_ids@)).0,
            acts_of(r.1@) == leave_next(old(self)@, order::texts(member_ids@)).1,
            r.0@.map_values(|p: (String, i16)| p.0@) == order::texts(member_ids@),
            r.0@.map_values(|p: (String, i16)| p.1) == leave_next(old(self)@, order::texts(member_ids@)).2,
    {
        let ghost g = self@;
        let ghost ids = order::texts(member_ids@);
        let mut out: Vec<GroupAction> = Vec::new();
        let mut codes: Vec<(String, i16)> = Vec::new();
        let mut i: usize = 0;
        proof {
            assert(acts_of(out@) =~= Seq::empty());
            assert(codes@.map_values(|p: (String, i16)| p.1) =~= Seq::empty());
        }
        while i < member_ids.len()
            invariant
                i <= member_ids@.len(),
                ids == order::texts(member_ids@),
                self@ == departed(g, ids.take(i as int)).0,
                acts_of(out@) == departed(g, ids.take(i as int)).1,
                codes@.map_values(|p: (String, i16)| p.1) == departed(g, ids.take(i as int)).2,
                codes@.len() == i,
                forall|j: int| 0 <= j < i ==> (#[trigger] codes@[j]).0@ == ids[j],
            decreases member_ids.len() - i,
        {
            let id = &member_ids[i];
            let ghost before = codes@;
            proof {
                assert(ids.take(i + 1).drop_last() =~= ids.take(i as int));
                assert(ids.take(i + 1).last() == id@);
                lemma_member_map(self.members@, Seq::empty(), arbitrary());
            }
            if self.members.contains_key(id) {
                self.remove_member(id, &mut out);
                codes.push((id.clone(), error_codes::NONE));
            } else {
                codes.push((id.clone(), error_codes::UNKNOWN_MEMBER_ID));
            }
            proof {
                assert(codes@.map_values(|p: (String, i16)| p.1) =~= before.map_values(|p: (String, i16)| p.1).push(codes@.last().1));
            }
            i = i + 1;
        }
        assert(ids.take(i as int) =~= ids);
        assert(codes@.map_values(|p: (String, i16)| p.0@) =~= ids);
        self.settle_departure(&mut out);
        (codes, out)
    }

    /// The session of a member ran out.
    pub fn session_expired(&mut self, member_id: &str) -> (out: Vec<GroupAction>)
        ensures
            final(self)@ == expired_next(old(self)@, member_id@).0,
            acts_of(out@) == expired_next(old(self)@, member_id@).1,
    {
        let mut out: Vec<GroupAction> = Vec::new();
        proof {
            assert(acts_of(out@) =~= Seq::empty());
            lemma_member_map(self.members@, Seq::empty(), arbitrary());
        }
        let ghost g = self@;
        if self.members.contains_key(member_id) {
            self.remove_member(member_id, &mut out);
            assert(acts_of(out@) =~= without_member(g, member_id@).1);
            self.settle_departure(&mut out);
        }
        out
    }

    fn remove_members(&mut self, ids: &Vec<String>, out: &mut Vec<GroupAction>)
        ensures
            final(self)@ == without_members(old(self)@, order::texts(ids@)).0,
            acts_of(final(out)@) == acts_of(old(out)@) + without_members(old(self)@, order::texts(ids@)).1,
    {
        let ghost g = self@;
        let ghost names = order::texts(ids@);
        let ghost head = acts_of(out@);
        let mut i: usize = 0;
        assert(acts_of(out@) =~= head + without_members(g, names.take(0)).1);
        while i < ids.len()
            invariant
                i <= ids@.len(),
                names == order::texts(ids@),
                self@ == without_members(g, names.take(i as int)).0,
                acts_of(out@) == head + without_members(g, names.take(i as int)).1,
            decreases ids.len() - i,
        {
            proof {
                assert(names.take(i + 1).drop_last() =~= names.take(i as int));
                assert(names.take(i + 1).last() == ids@[i as int]@);
            }
            self.remove_member(&ids[i], out);
            i = i + 1;
            assert(acts_of(out@) =~= head + without_members(g, names.take(i as int)).1);
        }
        assert(names.take(i as int) =~= names);
    }

    fn stale(&self) -> (out: Vec<String>)
        ensures
            order::texts(out@) == order::in_order(stale_members(self@)),
    {
        let mut out: Vec<String> = Vec::new();
        let n: usize = self.members.len();
        let ghost keys = self.members.key_list();
        let ghost g = self@;
        let ghost pred = |k: Seq<char>| first_waiter(g.waiters, k) is None && g.members[k].instance is None;
        let mut i: usize = 0;
        proof {
            lemma_member_map(self.members@, Seq::empty(), arbitrary());
            assert(order::texts(out@).to_set() =~= keys.take(0).to_set().filter(pred));
        }
        while i < n
            invariant
                i <= n,
                n == keys.len(),
                keys == self.members.key_list(),
                g == self@,
                g.members == member_map(self.members@),
                pred == (|k: Seq<char>| first_waiter(g.waiters, k) is None && g.members[k].instance is None),
                order::increasing(order::texts(out@)),
                order::texts(out@).to_set() == keys.take(i as int).to_set().filter(pred),
            decreases n - i,
        {
            let id = self.members.key_at(i);
            let m = self.members.value_at(i);
            assert(g.members[keys[i as int]] == m@);
            let rejoined: bool = position_of(&self.join_waiters, id).is_some();
            proof {
                assert(keys.take(i + 1) =~= keys.take(i as int).push(keys[i as int]));
                keys.take(i as int).lemma_push_to_set_commute(keys[i as int]);
                let a = keys.take(i as int).to_set();
                let x = keys[i as int];
                if pred(x) {
                    assert(a.insert(x).filter(pred) =~= a.filter(pred).insert(x));
                } else {
                    assert(a.insert(x).filter(pred) =~= a.filter(pred));
                }
            }
            if !rejoined && m.group_instance_id.is_none() {
                insert_name(&mut out, id.clone());
            }
            i = i + 1;
        }
        proof {
            assert(keys.take(i as int) =~= keys);
            order::lemma_in_order(order::texts(out@));
        }
        out
    }

    /// The rebalance timer fired: who did not rejoin is turned out, and the
    /// rebalance completes.
    pub fn rebalance_timer_fired(&mut self) -> (out: Vec<GroupAction>)
        requires
            timer_completes(old(self)@) ==> old(self)@.generation < i32::MAX,
        ensures
            final(self)@ == timer_next(old(self)@).0,
            acts_of(out@) == timer_next(old(self)@).1,
    {
        let ghost g = self@;
        let mut out: Vec<GroupAction> = Vec::new();
        assert(acts_of(out@) =~= Seq::empty());
        if self.state == GroupState::PreparingRebalance && self.join_waiters.len() > 0 {
            proof {
                lemma_member_map(self.members@, Seq::empty(), arbitrary());
            }
            if self.members.len() != self.join_waiters.len() {
                let stale = self.stale();
                self.remove_members(&stale, &mut out);
                proof {
                    lemma_without_members(g, order::texts(stale@));
                }
            }
            assert(acts_of(out@) =~= evicted(g).1);
            self.complete_rebalance(&mut out);
        }
        out
    }

    /// Refuses all waiting JoinGroup requests.
    fn refuse_waiters(&mut self, out: &mut Vec<GroupAction>)
        ensures
            final(self)@ == (GroupModel { waiters: Seq::empty(), ..old(self)@ }),
            acts_of(final(out)@) == acts_of(old(out)@) + refusals(old(self)@.waiters),
    {
        let ghost g = self@;
        let ghost before = acts_of(out@);
        let ghost f = |k: int| Act::JoinReply { ticket: g.waiters[k].ticket, outcome: join_refused(g.waiters[k].member_id) };
        let mut i: usize = 0;
        assert(acts_of(out@) =~= before + Seq::new(0, f));
        while i < self.join_waiters.len()
            invariant
                i <= self.join_waiters@.len(),
                self@ == g,
                g.waiters == waiters_of(self.join_waiters@),
                f == (|k: int| Act::JoinReply { ticket: g.waiters[k].ticket, outcome: join_refused(g.waiters[k].member_id) }),
                acts_of(out@) == before + Seq::new(i as nat, f),
            decreases self.join_waiters.len() - i,
        {
            assert(g.waiters[i as int] == self.join_waiters@[i as int]@);
            let outcome = refused(&self.join_waiters[i].member_id);
            emit(out, GroupAction::JoinReply { ticket: self.join_waiters[i].ticket, outcome });
            i = i + 1;
            assert(acts_of(out@) =~= before + Seq::new(i as nat, f));
        }
        assert(Seq::new(i as nat, f) =~= refusals(g.waiters));
        self.join_waiters = Vec::new();
        assert(self@ =~= (GroupModel { waiters: Seq::empty(), ..g }));
    }

    /// Gives the group up: every waiting request is answered, every timer
    /// stops.
    pub fn shutdown(&mut self) -> (out: Vec<GroupAction>)
        ensures
            final(self)@ == shutdown_next(old(self)@).0,
            acts_of(out@) == shutdown_next(old(self)@).1,
    {
        let ghost g = self@;
        let mut out: Vec<GroupAction> = Vec::new();
        let ids = self.members.sorted_keys();
        proof {
            assert(acts_of(out@) =~= Seq::empty());
            lemma_member_map(self.members@, Seq::empty(), arbitrary());
            lemma_without_members(g, order::texts(ids@));
        }
        self.remove_members(&ids, &mut out);
        self.refuse_waiters(&mut out);
        emit(&mut out, GroupAction::DisarmRebalance);
        self.cancel_sync(&mut out);
        self.state = GroupState::Dead;
        self.members = TextMap::new();
        proof {
            assert(member_map(self.members@) =~= Map::empty());
            assert(self@ =~= shutdown_next(g).0);
            assert(acts_of(out@) =~= shutdown_next(g).1);
        }
        out
    }
}

/// Taking members out touches the members and the waiting requests alone.
pub proof fn lemma_without_members(g: GroupModel, ids: Seq<Seq<char>>)
    ensures
        ({
            let h = without_members(g, ids).0;
            &&& h == (GroupModel { members: h.members, waiters: h.waiters, ..g })
            &&& h.members == g.members.remove_keys(ids.to_set())
        }),
    decreases ids.len(),
{
    if ids.len() > 0 {
        lemma_without_members(g, ids.drop_last());
        let h = without_members(g, ids.drop_last()).0;
        ids.drop_last().lemma_push_to_set_commute(ids.last());
        assert(ids.drop_last().push(ids.last()) =~= ids);
        assert(h.members.remove(ids.last()) =~= g.members.remove_keys(ids.to_set()));
    } else {
        assert(g.members.remove_keys(ids.to_set()) =~= g.members);
    }
}

fn reply_to(w: &SyncWaiter, assignments: &TextMap<Vec<u8>>) -> (a: GroupAction)
    ensures
        a@ == sync_reply(w@, byte_map(assignments@)),
{
    proof {
        lemma_byte_map(assignments@, Seq::empty(), arbitrary());
    }
    let assignment: Vec<u8> = match assignments.get(&w.member_id) {
        Some(b) => copy_bytes(b),
        None => Vec::new(),
    };
    let outcome = SyncOutcome {
        error_code: error_codes::NONE,
        protocol_type: w.protocol_type.clone(),
        protocol_name: w.protocol_name.clone(),
        assignment,
    };
    let a = GroupAction::SyncReply { ticket: w.ticket, reply: outcome };
    assert(a@ =~= sync_reply(w@, byte_map(assignments@)));
    a
}

/// Gives every member what a round has for it.
fn keep_assignments(members: &mut TextMap<GroupMember>, round: &TextMap<Vec<u8>>)
    ensures
        member_map(final(members)@) == assigned(member_map(old(members)@), byte_map(round@)),
{
    let ghost start = member_map(members@);
    let ghost given = byte_map(round@);
    let keys = members.sorted_keys();
    let ghost ks = order::texts(keys@);
    proof {
        lemma_member_map(members@, Seq::empty(), arbitrary());
        order::lemma_increasing_distinct(ks);
    }
    let mut i: usize = 0;
    while i < keys.len()
        invariant
            i <= keys@.len(),
            ks == order::texts(keys@),
            ks.no_duplicates(),
            ks.to_set() == start.dom(),
            given == byte_map(round@),
            member_map(members@).dom() == start.dom(),
            forall|k: Seq<char>| #[trigger] start.contains_key(k) ==> member_map(members@)[k] == (if ks.take(i as int).contains(k) {
                assigned(start, given)[k]
            } else {
                start[k]
            }),
        decreases keys.len() - i,
    {
        let ghost k = ks[i as int];
        let ghost before = member_map(members@);
        proof {
            assert(k == keys@[i as int]@);
            assert(ks.to_set().contains(k));
            assert(start.contains_key(k));
            lemma_member_map(members@, k, arbitrary());
            assert(ks.take(i + 1) =~= ks.take(i as int).push(k));
            assert(!ks.take(i as int).contains(k)) by {
                if ks.take(i as int).contains(k) {
                    let j = choose|j: int| 0 <= j < i && ks.take(i as int)[j] == k;
                    assert(ks[j] == ks[i as int]);
                }
            }
            lemma_byte_map(round@, k, arbitrary());
        }
        let assignment: Vec<u8> = match round.get(&keys[i]) {
            Some(b) => copy_bytes(b),
            None => Vec::new(),
        };
        match members.remove(&keys[i]) {
            Some(old_member) => {
                let m = GroupMember {
                    id: old_member.id,
                    client_id: old_member.client_id,
                    client_host: old_member.client_host,
                    group_instance_id: old_member.group_instance_id,
                    session_timeout_ms: old_member.session_timeout_ms,
                    rebalance_timeout_ms: old_member.rebalance_timeout_ms,
                    protocols: old_member.protocols,
                    assignment,
                };
                proof {
                    lemma_member_map(members@, k, m);
                    assert(m@ =~= assigned(start, given)[k]);
                }
                members.insert(keys[i].clone(), m);
                assert(member_map(members@) =~= before.insert(k, m@));
            },
            None => {},
        }
        proof {
            assert forall|x: Seq<char>| #[trigger] start.contains_key(x) implies member_map(members@)[x] == (if ks.take(i + 1).contains(
                x,
            ) {
                assigned(start, given)[x]
            } else {
                start[x]
            }) by {
                let a = ks.take(i as int);
                let b = ks.take(i + 1);
                if a.contains(x) {
                    let j = choose|j: int| 0 <= j < i && a[j] == x;
                    assert(b[j] == x);
                }
                if b.contains(x) && x != k {
                    let j = choose|j: int| 0 <= j < b.len() && b[j] == x;
                    assert(a[j] == x);
                }
                assert(b[i as int] == k);
            }
            assert(member_map(members@).dom() =~= start.dom());
        }
        i = i + 1;
    }
    proof {
        assert(ks.take(i as int) =~= ks);
        assert forall|x: Seq<char>| #[trigger] start.contains_key(x) implies ks.contains(x) by {
            assert(ks.to_set().contains(x));
        }
        assert(member_map(members@) =~= assigned(start, given));
    }
}

/// Takes in the leader's assignments and fills up with empty ones.
fn deliver_assignments(m: &mut TextMap<Vec<u8>>, list: Vec<SyncAssignment>, members: &TextMap<GroupMember>)
    ensures
        byte_map(final(m)@) == filled(
            with_assignments(
                byte_map(old(m)@),
                list@.map_values(|a: SyncAssignment| (a.member_id@, a.assignment@)),
            ),
            members@.dom(),
        ),
{
    let ghost start = byte_map(m@);
    let ghost all = list@.map_values(|a: SyncAssignment| (a.member_id@, a.assignment@));
    let mut i: usize = 0;
    while i < list.len()
        invariant
            i <= list@.len(),
            all == list@.map_values(|a: SyncAssignment| (a.member_id@, a.assignment@)),
            byte_map(m@) == with_assignments(start, all.take(i as int)),
        decreases list.len() - i,
    {
        let v = copy_bytes(&list[i].assignment);
        proof {
            assert(all.take(i + 1).drop_last() =~= all.take(i as int));
            assert(all.take(i + 1).last() == all[i as int]);
            lemma_byte_map(m@, list@[i as int].member_id@, v);
        }
        m.insert(list[i].member_id.clone(), v);
        i = i + 1;
    }
    assert(all.take(i as int) =~= all);
    let ghost mid = byte_map(m@);
    let n: usize = members.len();
    let ghost keys = members.key_list();
    let mut k: usize = 0;
    assert(mid =~= filled(mid, keys.take(0).to_set()));
    while k < n
        invariant
            k <= n,
            n == keys.len(),
            keys == members.key_list(),
            byte_map(m@) == filled(mid, keys.take(k as int).to_set()),
        decreases n - k,
    {
        let id = members.key_at(k);
        let ghost x = keys[k as int];
        proof {
            assert(keys.take(k + 1) =~= keys.take(k as int).push(x));
            keys.take(k as int).lemma_push_to_set_commute(x);
            lemma_byte_map(m@, x, arbitrary());
        }
        if !m.contains_key(id) {
            let v: Vec<u8> = Vec::new();
            proof {
                lemma_byte_map(m@, x, v);
                assert(v@ =~= Seq::empty());
            }
            m.insert(id.clone(), v);
        }
        k = k + 1;
        assert(byte_map(m@) =~= filled(mid, keys.take(k as int).to_set()));
    }
    assert(keys.take(k as int) =~= keys);
}

} // verus!
