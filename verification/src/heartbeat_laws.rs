//! What heartbeats tell, over both sides of a stream.

use vstd::prelude::*;
use crate::heartbeat;
use crate::heartbeat::{BrokerStatus, ClientSide, CommandType, ServerModel};
use crate::text;

verus! {

/// Of a status is kept what it says: the version that the broker knows, its
/// groups and its health; with the time at which it came, not the one on it.
pub proof fn law_status_is_kept_as_it_came(s: BrokerStatus, session: u64, now_ms: i64)
    ensures
        ({
            let c = heartbeat::reported(s, session, now_ms);
            &&& c.session == session
            &&& c.last_seen_ms == now_ms
            &&& c.version == s.last_seen_assignment_version
            &&& c.healthy == s.healthy
            &&& c.draining == s.draining
            &&& c.groups.len() == s.active_groups@.len()
            &&& forall|i: int| 0 <= i < c.groups.len() ==> #[trigger] c.groups[i] == s.active_groups@[i]@
        }),
{
}

/// A session is the one of a broker where the broker is connected by it.
pub proof fn law_session_of_a_broker(s: ServerModel, broker: Seq<char>, session: u64)
    ensures
        heartbeat::is_current(s, broker, session) <==> s.clients.contains_key(broker) && s.clients[broker].session == session,
{
}

/// A list of groups names a group exactly where some connected broker reports
/// it, each once and in order.
pub proof fn law_groups_are_those_reported(s: ServerModel, groups: Seq<Seq<char>>, g: Seq<char>, i: int, j: int)
    requires
        heartbeat::lists_groups(s, groups),
    ensures
        groups.contains(g) <==> exists|b: Seq<char>| #[trigger] s.clients.contains_key(b) && s.clients[b].groups.contains(g),
        0 <= i < j < groups.len() ==> text::text_less(groups[i], groups[j]),
{
    assert(groups.to_set().contains(g) <==> heartbeat::reported_groups(s).contains(g));
}

/// An announcement carries its version, the time it is made and the time that
/// it answers.
pub proof fn law_announcement_carries_its_version(version: u64, answers_ms: i64, now_ms: i64)
    ensures
        ({
            let c = heartbeat::announcement(version, answers_ms, now_ms);
            &&& c.command == CommandType::AssignmentChanged
            &&& c.assignment_version == version
            &&& c.timestamp_ms == now_ms
            &&& c.broker_status_timestamp_ms == answers_ms
        }),
{
}

/// A wait is twice as long as the one before it, up to five seconds.
pub proof fn law_waits_double(current: int)
    requires
        current >= 0,
    ensures
        current <= 2500 ==> heartbeat::longer_wait(current) == 2 * current,
        current > 2500 ==> heartbeat::longer_wait(current) == 5000,
{
}

/// A target that holds a scheme is dialled as it is, any other over HTTP.
pub proof fn law_scheme_is_kept_or_given(target: Seq<char>)
    ensures
        (exists|i: int| #![trigger text::stands_at(target, "://"@, i)] 0 <= i && text::stands_at(target, "://"@, i)) ==> heartbeat::dialled(target) == target,
        (forall|i: int| #![trigger text::stands_at(target, "://"@, i)] 0 <= i ==> !text::stands_at(target, "://"@, i)) ==> heartbeat::dialled(target)
            == "http://"@ + target,
{
    text::lemma_first_place(target, "://"@, 0);
}

/// A status is sent as it stands, under the broker's own id where it names
/// none.
pub proof fn law_status_is_sent_as_it_stands(sent: BrokerStatus, status: BrokerStatus, id: Seq<char>)
    requires
        heartbeat::named_status(sent, status, id),
    ensures
        status.broker_id@.len() > 0 ==> sent.broker_id@ == status.broker_id@,
        status.broker_id@.len() == 0 ==> sent.broker_id@ == id,
        sent.timestamp_ms == status.timestamp_ms,
        sent.last_seen_assignment_version == status.last_seen_assignment_version,
        sent.active_groups == status.active_groups,
        sent.healthy == status.healthy,
        sent.draining == status.draining,
{
}

/// The first status of a stream tells who the broker is and how it fares, and
/// nothing yet of assignments or groups.
pub proof fn law_first_status(s: BrokerStatus, id: Seq<char>, healthy: bool, draining: bool, now_ms: i64)
    requires
        heartbeat::is_first_status(s, id, healthy, draining, now_ms),
    ensures
        s.broker_id@ == id,
        s.timestamp_ms == now_ms,
        s.healthy == healthy,
        s.draining == draining,
        s.last_seen_assignment_version == 0,
        s.active_groups@.len() == 0,
{
}

/// An installed resolver is asked, and what it answers holds, also that there
/// is no target; the fixed target counts only without one.
pub proof fn law_resolver_outranks_the_fixed_target(c: ClientSide, answer: Option<String>)
    ensures
        answer matches Some(t) ==> heartbeat::wanted_target(c, Some(answer)) == Some(t@),
        answer is None ==> heartbeat::wanted_target(c, Some(answer)) is None,
        heartbeat::wanted_target(c, None) == c.target,
{
}

/// A command is noted at the millisecond at which it came, one that came at
/// once at the first.
pub proof fn law_command_is_noted_when_it_came(elapsed_ms: u64)
    ensures
        1 <= elapsed_ms <= i64::MAX ==> heartbeat::noted_ms(elapsed_ms) == elapsed_ms,
        elapsed_ms == 0 ==> heartbeat::noted_ms(elapsed_ms) == 1,
        heartbeat::noted_ms(elapsed_ms) > 0,
{
}

} // verus!
