//! What a broker makes of the cluster around it: pods and slices, the topics
//! that are declared, what it advertises and whether it is ready.

use vstd::prelude::*;
use crate::endpoints;
use crate::endpoints::{BrokersModel, DnsModel, EndpointRow, SliceModel, SliceRow};
use crate::health;
use crate::health::{GateEvent, GateModel};
use crate::kube_watchers;
use crate::kube_watchers::{ActionModel, LeaseSpec, SliceEndpoint, SliceEvent, SliceObject, SlicePort, TopicEvent, TopicObject, WatchModel};
use crate::listener_advert;
use crate::listener_advert::{AdvertRow, ListenerEntry, NodeRow};
use crate::text;

verus! {

// Pods and slices.

/// The name of a pod ends in a hyphen and its ordinal; a name without a hyphen
/// has none, nor has one with anything but a number behind it.
pub proof fn law_pod_ends_in_its_ordinal(set: Seq<char>, n: int, tail: Seq<char>)
    requires
        forall|i: int| 0 <= i < tail.len() ==> tail[i] != '-',
    ensures
        0 <= n <= i32::MAX ==> endpoints::pod_ordinal(set.push('-') + text::int_text(n)) == Some(n),
        n > i32::MAX ==> endpoints::pod_ordinal(set.push('-') + text::int_text(n)) is None,
        endpoints::pod_ordinal(tail) is None,
        endpoints::pod_ordinal(set.push('-')) is None,
{
    let name = set.push('-') + text::int_text(n);
    if n >= 0 {
        text::lemma_int_text(n);
        text::lemma_nat_text(n as nat);
        text::lemma_last_index(name, '-');
        assert(name[set.len() as int] == '-');
        assert forall|j: int| set.len() < j < name.len() implies name[j] != '-' by {
            assert(name[j] == text::nat_text(n as nat)[j - set.len() - 1]);
            assert(text::is_digit(text::nat_text(n as nat)[j - set.len() - 1]));
        }
        assert(name.skip(set.len() as int + 1) =~= text::int_text(n));
    }
    text::lemma_last_index(tail, '-');
    let bare = set.push('-');
    text::lemma_last_index(bare, '-');
    assert(bare[set.len() as int] == '-');
    assert(bare.skip(set.len() as int + 1) =~= Seq::<char>::empty());
}

proof fn lemma_filled_from(p: Seq<char>, i: int, ordinal: Seq<char>)
    requires
        0 <= i <= p.len(),
        forall|j: int| i <= j < p.len() ==> p[j] != '{',
    ensures
        endpoints::filled(p, i, ordinal) == p.skip(i),
    decreases p.len() - i,
{
    if i < p.len() {
        if endpoints::hole_at(p, i) {
            assert(p.subrange(i, i + 9)[0] == '{');
        }
        lemma_filled_from(p, i + 1, ordinal);
        assert(p.skip(i) =~= seq![p[i]] + p.skip(i + 1));
    } else {
        assert(p.skip(i) =~= Seq::<char>::empty());
    }
}

proof fn lemma_filled_up_to(p: Seq<char>, i: int, at: int, ordinal: Seq<char>)
    requires
        0 <= i <= at < p.len(),
        forall|j: int| i <= j < at ==> p[j] != '{',
    ensures
        endpoints::filled(p, i, ordinal) == p.subrange(i, at) + endpoints::filled(p, at, ordinal),
    decreases at - i,
{
    if i < at {
        if endpoints::hole_at(p, i) {
            assert(p.subrange(i, i + 9)[0] == '{');
        }
        lemma_filled_up_to(p, i + 1, at, ordinal);
        assert(p.subrange(i, at) + endpoints::filled(p, at, ordinal) =~= seq![p[i]] + (p.subrange(i + 1, at) + endpoints::filled(p, at, ordinal)));
    } else {
        assert(p.subrange(i, at) + endpoints::filled(p, at, ordinal) =~= endpoints::filled(p, at, ordinal));
    }
}

/// The full name of a pod: the pattern with the ordinal in its hole, the
/// service, the namespace, `svc` and the domain, with dots between them.
pub proof fn law_full_name_of_a_pod(d: DnsModel, front: Seq<char>, back: Seq<char>, ordinal: int)
    requires
        d.pattern == front + "{ordinal}"@ + back,
        forall|i: int| 0 <= i < front.len() ==> front[i] != '{',
        forall|i: int| 0 <= i < back.len() ==> back[i] != '{',
    ensures
        endpoints::full_name(d, ordinal) == front + text::int_text(ordinal) + back + "."@ + d.service + "."@ + d.namespace + ".svc."@
            + d.domain,
{
    reveal_strlit("{ordinal}");
    let p = d.pattern;
    let o = text::int_text(ordinal);
    let at = front.len() as int;
    assert(p.subrange(at, at + 9) =~= endpoints::hole());
    assert forall|j: int| 0 <= j < at implies p[j] != '{' by {
        assert(p[j] == front[j]);
    }
    assert forall|j: int| at + 9 <= j < p.len() implies p[j] != '{' by {
        assert(p[j] == back[j - at - 9]);
    }
    lemma_filled_up_to(p, 0, at, o);
    lemma_filled_from(p, at + 9, o);
    assert(p.subrange(0, at) =~= front);
    assert(p.skip(at + 9) =~= back);
    assert(endpoints::filled(p, 0, o) =~= front + o + back);
}

/// Whether row `j` of a slice is the last one for an ordinal.
pub open spec fn is_last_row_for(rows: Seq<SliceRow>, j: int, ordinal: i32) -> bool {
    &&& 0 <= j < rows.len() && endpoints::pod_ordinal(rows[j].hostname) == Some(ordinal as int)
    &&& forall|n: int| j < n < rows.len() ==> endpoints::pod_ordinal((#[trigger] rows[n]).hostname) != Some(ordinal as int)
}

pub open spec fn has_no_row_for(rows: Seq<SliceRow>, ordinal: i32) -> bool {
    forall|n: int| 0 <= n < rows.len() ==> endpoints::pod_ordinal((#[trigger] rows[n]).hostname) != Some(ordinal as int)
}

proof fn lemma_row_for(rows: Seq<SliceRow>, j: int, ordinal: i32)
    ensures
        is_last_row_for(rows, j, ordinal) ==> endpoints::row_for(rows, ordinal) == Some(rows[j]),
        has_no_row_for(rows, ordinal) ==> endpoints::row_for(rows, ordinal) is None,
    decreases rows.len(),
{
    if rows.len() > 0 {
        let d = rows.drop_last();
        let last = rows.len() - 1;
        lemma_row_for(d, j, ordinal);
        if is_last_row_for(rows, j, ordinal) && j < last {
            assert(endpoints::pod_ordinal(rows[last].hostname) != Some(ordinal as int));
            assert forall|n: int| j < n < d.len() implies endpoints::pod_ordinal((#[trigger] d[n]).hostname) != Some(ordinal as int) by {
                assert(d[n] == rows[n]);
            }
            assert(is_last_row_for(d, j, ordinal));
        }
        if has_no_row_for(rows, ordinal) {
            assert(endpoints::pod_ordinal(rows[last].hostname) != Some(ordinal as int));
            assert forall|n: int| 0 <= n < d.len() implies endpoints::pod_ordinal((#[trigger] d[n]).hostname) != Some(ordinal as int) by {
                assert(d[n] == rows[n]);
            }
        }
    }
}

/// A slice that comes registers each broker that it lists as its last row says:
/// under its ordinal, at its full name where names are configured and at its
/// address elsewhere, at the port of the slice or else the broker's own, as
/// ready as the row. It takes away the brokers that it listed and no longer
/// lists, and leaves alone everybody else and the broker itself.
pub proof fn law_slice_registers_its_brokers(m: BrokersModel, s: SliceModel, j: int, ordinal: i32)
    requires
        m.wf(),
    ensures
        ({
            let t = m.applied(s);
            let owned = m.slice_of.contains_key(ordinal) && m.slice_of[ordinal] == s.name;
            &&& t.me == m.me && t.dns == m.dns
            &&& t.brokers[m.me.node_id] == m.brokers[m.me.node_id]
            &&& ordinal != m.me.node_id && is_last_row_for(s.rows, j, ordinal) ==> {
                let e = t.brokers[ordinal];
                &&& t.brokers.contains_key(ordinal)
                &&& t.slice_of.contains_key(ordinal) && t.slice_of[ordinal] == s.name
                &&& e.node_id == ordinal
                &&& e.ready == s.rows[j].ready
                &&& (s.port matches Some(p) ==> e.port == p)
                &&& s.port is None ==> e.port == m.me.port
                &&& m.dns.service.len() > 0 && m.dns.pattern.len() > 0 ==> e.host == endpoints::full_name(m.dns, ordinal as int)
                &&& m.dns.service.len() == 0 || m.dns.pattern.len() == 0 ==> e.host == s.rows[j].address
            }
            &&& ordinal != m.me.node_id && has_no_row_for(s.rows, ordinal) ==> {
                &&& owned ==> !t.brokers.contains_key(ordinal) && !t.slice_of.contains_key(ordinal)
                &&& !owned ==> t.brokers.contains_key(ordinal) == m.brokers.contains_key(ordinal) && t.slice_of.contains_key(ordinal)
                    == m.slice_of.contains_key(ordinal)
                &&& !owned && m.brokers.contains_key(ordinal) ==> t.brokers[ordinal] == m.brokers[ordinal]
            }
        }),
{
    lemma_row_for(s.rows, j, ordinal);
}

/// A slice that goes takes with it the brokers that it lists, and nobody else.
pub proof fn law_slice_takes_its_brokers_along(m: BrokersModel, s: SliceModel, j: int, ordinal: i32)
    requires
        m.wf(),
    ensures
        ({
            let t = m.deleted(s);
            &&& t.me == m.me && t.dns == m.dns
            &&& t.brokers.contains_key(m.me.node_id)
            &&& ordinal != m.me.node_id && is_last_row_for(s.rows, j, ordinal) ==> !t.brokers.contains_key(ordinal) && !t.slice_of.contains_key(ordinal)
            &&& has_no_row_for(s.rows, ordinal) ==> t.brokers.contains_key(ordinal) == m.brokers.contains_key(ordinal)
                && t.slice_of.contains_key(ordinal) == m.slice_of.contains_key(ordinal)
            &&& has_no_row_for(s.rows, ordinal) && m.brokers.contains_key(ordinal) ==> t.brokers[ordinal] == m.brokers[ordinal]
        }),
{
    lemma_row_for(s.rows, j, ordinal);
}

/// A broker that is put in is there as it was given, and the others stay.
pub proof fn law_broker_is_put_in(m: BrokersModel, e: EndpointRow, other: i32)
    requires
        other != e.node_id,
    ensures
        m.upserted(e).brokers.contains_key(e.node_id),
        m.upserted(e).brokers[e.node_id] == e,
        m.upserted(e).brokers.contains_key(other) == m.brokers.contains_key(other),
        m.upserted(e).brokers[other] == m.brokers[other],
        m.upserted(e).slice_of == m.slice_of,
{
}

/// A snapshot holds every broker once, by ascending node id.
pub proof fn law_snapshot_holds_every_broker(out: Seq<EndpointRow>, brokers: Map<i32, EndpointRow>, k: i32)
    requires
        endpoints::snapshot_of(out, brokers),
        forall|i: i32| #[trigger] brokers.contains_key(i) ==> brokers[i].node_id == i,
    ensures
        brokers.contains_key(k) <==> exists|i: int| 0 <= i < out.len() && (#[trigger] out[i]).node_id == k && out[i] == brokers[k],
        forall|i: int, j: int| 0 <= i < j < out.len() ==> (#[trigger] out[i]).node_id < (#[trigger] out[j]).node_id,
{
    let keys = choose|keys: Seq<i32>| endpoints::lists(out, brokers, keys);
    assert forall|i: int, j: int| 0 <= i < j < out.len() implies (#[trigger] out[i]).node_id < (#[trigger] out[j]).node_id by {
        assert(brokers.contains_key(keys[i]) && brokers.contains_key(keys[j]));
        assert(keys[i] < keys[j]);
    }
    if brokers.contains_key(k) {
        let i = choose|i: int| 0 <= i < keys.len() && keys[i] == k;
        assert(out[i].node_id == k);
    }
    if exists|i: int| 0 <= i < out.len() && (#[trigger] out[i]).node_id == k && out[i] == brokers[k] {
        let i = choose|i: int| 0 <= i < out.len() && (#[trigger] out[i]).node_id == k && out[i] == brokers[k];
        assert(brokers.contains_key(keys[i]));
    }
}

/// A broker counts as ready where it is there and says so.
pub proof fn law_ready_brokers(brokers: Map<i32, EndpointRow>, k: i32)
    ensures
        endpoints::ready_set(brokers).contains(k) <==> brokers.contains_key(k) && brokers[k].ready,
{
}

/// Of a slice object is read its name, the number of the first port called
/// `kafka`, and for each endpoint with a name and an address its first address;
/// one that does not say that it is ready is not.
pub proof fn law_slice_object_is_read(o: SliceObject, es: Seq<SliceEndpoint>, e: SliceEndpoint, ports: Seq<SlicePort>, j: int)
    ensures
        o.name matches Some(n) ==> kube_watchers::slice_model(o).name == n@,
        o.name is None ==> kube_watchers::slice_model(o).name.len() == 0,
        kube_watchers::slice_model(o).rows == kube_watchers::rows_among(o.endpoints@),
        o.ports is None ==> kube_watchers::slice_model(o).port is None,
        o.ports matches Some(p) ==> kube_watchers::slice_model(o).port == kube_watchers::kafka_port(p@, 0),
        kube_watchers::rows_among(Seq::empty()).len() == 0,
        e.hostname is None || e.addresses@.len() == 0 ==> kube_watchers::rows_among(es.push(e)) == kube_watchers::rows_among(es),
        e.hostname matches Some(h) ==> (e.addresses@.len() > 0 ==> kube_watchers::rows_among(es.push(e)) == kube_watchers::rows_among(es).push(
            SliceRow { hostname: h@, address: e.addresses@[0]@, ready: e.ready == Some(true) },
        )),
        is_first_kafka(ports, j) ==> kube_watchers::kafka_port(ports, 0) == ports[j].port,
        (forall|n: int| 0 <= n < ports.len() ==> !((#[trigger] ports[n]).name is Some && ports[n].name->0@ == "kafka"@)) ==> kube_watchers::kafka_port(
            ports,
            0,
        ) is None,
{
    assert(es.push(e).drop_last() =~= es);
    lemma_kafka_port(ports, 0, j);
}

/// Whether port `j` is the first one called `kafka`.
pub open spec fn is_first_kafka(ports: Seq<SlicePort>, j: int) -> bool {
    &&& 0 <= j < ports.len() && ports[j].name is Some && ports[j].name->0@ == "kafka"@
    &&& forall|n: int| 0 <= n < j ==> !((#[trigger] ports[n]).name is Some && ports[n].name->0@ == "kafka"@)
}

proof fn lemma_kafka_port(ports: Seq<SlicePort>, i: int, j: int)
    requires
        0 <= i <= ports.len(),
    ensures
        is_first_kafka(ports, j) && i <= j ==> kube_watchers::kafka_port(ports, i) == ports[j].port,
        (forall|n: int| i <= n < ports.len() ==> !((#[trigger] ports[n]).name is Some && ports[n].name->0@ == "kafka"@)) ==> kube_watchers::kafka_port(
            ports,
            i,
        ) is None,
    decreases ports.len() - i,
{
    if i < ports.len() {
        lemma_kafka_port(ports, i + 1, j);
        let here = ports[i];
        assert(kube_watchers::is_kafka(here) <==> here.name is Some && here.name->0@ == "kafka"@);
    }
}

/// Slices that come are taken in and slices that go are taken out; the borders
/// of a listing change nothing.
pub proof fn law_slice_events(m: BrokersModel, s: SliceObject)
    ensures
        kube_watchers::slice_seen(m, SliceEvent::Apply(s)) == m.applied(kube_watchers::slice_model(s)),
        kube_watchers::slice_seen(m, SliceEvent::InitApply(s)) == m.applied(kube_watchers::slice_model(s)),
        kube_watchers::slice_seen(m, SliceEvent::Delete(s)) == m.deleted(kube_watchers::slice_model(s)),
        kube_watchers::slice_seen(m, SliceEvent::Init) == m,
        kube_watchers::slice_seen(m, SliceEvent::InitDone) == m,
{
}

// The lease and the topics.

/// A lease tells how often it changed hands, zero where it does not say, and
/// its holder.
pub proof fn law_lease_tells_the_epoch(s: LeaseSpec)
    ensures
        s.transitions matches Some(n) ==> kube_watchers::told_by(Some(s)).epoch == n,
        s.transitions is None ==> kube_watchers::told_by(Some(s)).epoch == 0,
        s.holder matches Some(h) ==> kube_watchers::told_by(Some(s)).holder == Some(h@),
        s.holder is None ==> kube_watchers::told_by(Some(s)).holder is None,
        kube_watchers::told_by(None).epoch == 0,
        kube_watchers::told_by(None).holder is None,
{
}

/// A topic is named as it is declared, or as its object where it declares no
/// name of its own.
pub proof fn law_topic_is_named_as_declared(t: TopicObject)
    ensures
        t.topic_name@.len() > 0 ==> kube_watchers::topic_of(t) == t.topic_name@,
        t.topic_name@.len() == 0 ==> kube_watchers::topic_of(t) == t.metadata_name@,
{
}

/// Of a topic is reported its name and its partitions, where it is to be moved,
/// and from its status the directories and the id; an empty id is none.
pub proof fn law_topic_is_reported_as_it_stands(t: TopicObject)
    ensures
        ({
            let r = kube_watchers::report_of(t);
            &&& r.name == kube_watchers::topic_of(t)
            &&& r.partitions == t.partitions
            &&& (t.status matches Some(s) ==> {
                &&& forall|k: Seq<char>| #[trigger] r.volumes.contains_key(k) <==> s.volume_assignments@.contains_key(k)
                &&& forall|k: Seq<char>| #[trigger] s.volume_assignments@.contains_key(k) ==> r.volumes[k] == s.volume_assignments@[k]@
                &&& s.topic_id@.len() > 0 ==> r.topic_id == Some(s.topic_id@)
                &&& s.topic_id@.len() == 0 ==> r.topic_id is None
            })
            &&& t.status is None ==> r.topic_id is None && r.volumes == Map::<Seq<char>, Seq<char>>::empty()
            &&& t.annotations is None ==> r.migrate_to is None
            &&& (t.annotations matches Some(a) ==> {
                &&& a@.contains_key("kaas.rs/migrate-to-volume"@) ==> r.migrate_to == Some(a@["kaas.rs/migrate-to-volume"@]@)
                &&& !a@.contains_key("kaas.rs/migrate-to-volume"@) ==> r.migrate_to is None
            })
        }),
{
}

/// A topic that comes is reported and known, one that goes is taken back and
/// forgotten; one without a name is passed over. A listing under way takes down
/// what it brings and starts empty.
pub proof fn law_topic_events(w: WatchModel, t: TopicObject, other: Seq<char>)
    requires
        other != kube_watchers::topic_of(t),
    ensures
        ({
            let n = kube_watchers::topic_of(t);
            &&& n.len() > 0 ==> {
                &&& w.reports(TopicEvent::Apply(t)) == seq![ActionModel::Apply(kube_watchers::report_of(t))]
                &&& w.reports(TopicEvent::InitApply(t)) == seq![ActionModel::Apply(kube_watchers::report_of(t))]
                &&& w.reports(TopicEvent::Delete(t)) == seq![ActionModel::Delete(n)]
                &&& w.after(TopicEvent::Apply(t)).known.contains(n)
                &&& w.after(TopicEvent::InitApply(t)).known.contains(n)
                &&& !w.after(TopicEvent::Delete(t)).known.contains(n)
                &&& w.after(TopicEvent::Apply(t)).known.contains(other) == w.known.contains(other)
                &&& w.after(TopicEvent::InitApply(t)).known.contains(other) == w.known.contains(other)
                &&& w.after(TopicEvent::Delete(t)).known.contains(other) == w.known.contains(other)
                &&& (w.relist matches Some(r) ==> (w.after(TopicEvent::InitApply(t)).relist matches Some(q) && q.contains(n) && q.contains(other)
                    == r.contains(other)))
            }
            &&& n.len() == 0 ==> {
                &&& w.reports(TopicEvent::Apply(t)).len() == 0 && w.after(TopicEvent::Apply(t)) == w
                &&& w.reports(TopicEvent::InitApply(t)).len() == 0 && w.after(TopicEvent::InitApply(t)) == w
                &&& w.reports(TopicEvent::Delete(t)).len() == 0 && w.after(TopicEvent::Delete(t)) == w
            }
            &&& w.reports(TopicEvent::Init).len() == 0
            &&& w.after(TopicEvent::Init).known == w.known
            &&& w.after(TopicEvent::Init).relist == Some(Set::<Seq<char>>::empty())
            &&& w.relist is Some ==> w.after(TopicEvent::InitDone).synced && w.after(TopicEvent::InitDone).relist is None
        }),
{
}

/// The wait before a stream is opened again doubles up to half a minute.
pub proof fn law_watch_waits_double(backoff: u64)
    ensures
        backoff <= 15_000 ==> kube_watchers::waited_longer(backoff) == 2 * backoff,
        backoff > 15_000 ==> kube_watchers::waited_longer(backoff) == 30_000,
{
}

// What is advertised.

/// A listener is advertised under the host that it is told to advertise, else
/// under its address, and under localhost where that stands for every address
/// or could not be read; at its own port.
pub proof fn law_listener_is_advertised(e: ListenerEntry)
    ensures
        ({
            let a = listener_advert::advert_of(e);
            let told = e.advertised_host is Some && e.advertised_host->0@.len() > 0;
            &&& a.name == e.name@
            &&& told ==> a.host == e.advertised_host->0@
            &&& !told && e.addr is Some && !e.addr->0.unspecified ==> a.host == e.addr->0.ip@
            &&& !told && (e.addr is None || e.addr->0.unspecified) ==> a.host == "127.0.0.1"@
            &&& (e.addr matches Some(b) ==> a.port == b.port)
            &&& e.addr is None ==> a.port == 9092
        }),
{
}

/// On a listener is advertised the first row of its name; without one the first
/// row of all.
pub proof fn law_listener_has_its_own_row(rows: Seq<AdvertRow>, name: Seq<char>, j: int)
    ensures
        0 <= j < rows.len() && rows[j].name == name && (forall|n: int| 0 <= n < j ==> (#[trigger] rows[n]).name != name)
            ==> listener_advert::advert_for(rows, name) == rows[j],
        rows.len() > 0 && (forall|n: int| 0 <= n < rows.len() ==> (#[trigger] rows[n]).name != name) ==> listener_advert::advert_for(rows, name)
            == rows[0],
        rows.len() == 0 ==> listener_advert::advert_for(rows, name) == (AdvertRow { name: "internal"@, host: "127.0.0.1"@, port: 9092 }),
{
    lemma_named(rows, name, 0, j);
}

proof fn lemma_named(rows: Seq<AdvertRow>, name: Seq<char>, i: int, j: int)
    requires
        0 <= i <= rows.len(),
    ensures
        i <= j < rows.len() && rows[j].name == name && (forall|n: int| i <= n < j ==> (#[trigger] rows[n]).name != name)
            ==> listener_advert::named(rows, name, i) == Some(rows[j]),
        (forall|n: int| i <= n < rows.len() ==> (#[trigger] rows[n]).name != name) ==> listener_advert::named(rows, name, i) is None,
    decreases rows.len() - i,
{
    if i < rows.len() {
        lemma_named(rows, name, i + 1, j);
        let here = rows[i];
    }
}

/// Where some broker of the catalogue serves, or the broker itself is in it,
/// the catalogue is advertised row by row: each under its own id, at its own
/// host and the port of the listener, fenced or not as it is; the broker itself
/// at the host of the listener and not fenced.
pub proof fn law_catalogue_is_advertised_row_by_row(self_id: i32, view: Seq<NodeRow>, advert: AdvertRow, i: int, j: int)
    requires
        0 <= i < view.len(),
        0 <= j < view.len(),
        !view[j].fenced || view[j].node_id == self_id,
    ensures
        ({
            let out = listener_advert::advertised(self_id, Some(view), advert);
            &&& out.len() == view.len()
            &&& out[i].node_id == view[i].node_id
            &&& out[i].port == advert.port
            &&& view[i].node_id != self_id ==> out[i].host == view[i].host && out[i].fenced == view[i].fenced
            &&& view[i].node_id == self_id ==> out[i].host == advert.host && !out[i].fenced
        }),
{
    let rows = view.map_values(listener_advert::row_map(self_id, advert));
    assert(!rows[j].fenced);
    assert(listener_advert::any_serving(rows));
}

/// Where nobody in the catalogue serves and the broker itself is not in it, it
/// is advertised behind the others; alone where there is no catalogue.
pub proof fn law_broker_stands_in(self_id: i32, view: Seq<NodeRow>, advert: AdvertRow)
    requires
        forall|i: int| 0 <= i < view.len() ==> (#[trigger] view[i]).fenced && view[i].node_id != self_id,
    ensures
        ({
            let me = NodeRow { node_id: self_id, host: advert.host, port: advert.port, fenced: false };
            let out = listener_advert::advertised(self_id, Some(view), advert);
            &&& listener_advert::advertised(self_id, None, advert) == seq![me]
            &&& out.len() == view.len() + 1
            &&& out[view.len() as int] == me
            &&& forall|i: int| 0 <= i < view.len() ==> (#[trigger] out[i]).node_id == view[i].node_id && out[i].host == view[i].host && out[i].fenced
                && out[i].port == advert.port
        }),
{
    let rows = view.map_values(listener_advert::row_map(self_id, advert));
    assert forall|i: int| 0 <= i < rows.len() implies (#[trigger] rows[i]).fenced && rows[i].node_id != self_id by {
        assert(view[i].fenced);
    }
    assert(!listener_advert::any_serving(rows));
    lemma_all_kept(rows, listener_advert::is_other(self_id));
}

proof fn lemma_all_kept(rows: Seq<NodeRow>, ok: spec_fn(NodeRow) -> bool)
    requires
        forall|i: int| 0 <= i < rows.len() ==> ok(#[trigger] rows[i]),
    ensures
        rows.filter(ok) == rows,
    decreases rows.len(),
{
    reveal(Seq::filter);
    if rows.len() > 0 {
        let d = rows.drop_last();
        assert forall|i: int| 0 <= i < d.len() implies ok(#[trigger] d[i]) by {
            assert(ok(rows[i]));
        }
        lemma_all_kept(d, ok);
        assert(ok(rows[rows.len() - 1]));
        assert(rows.filter(ok) =~= rows);
    } else {
        assert(rows.filter(ok) =~= rows);
    }
}

/// The number of a broker is what stands behind its last hyphen; a name that is
/// a number is its own.
pub proof fn law_broker_number(set: Seq<char>, n: int)
    requires
        0 <= n <= i32::MAX,
    ensures
        listener_advert::ordinal_of(set.push('-') + text::int_text(n)) == Some(n),
        listener_advert::ordinal_of(text::int_text(n)) == Some(n),
{
    let name = set.push('-') + text::int_text(n);
    let bare = text::int_text(n);
    text::lemma_int_text(n);
    text::lemma_nat_text(n as nat);
    text::lemma_last_index(name, '-');
    assert(name[set.len() as int] == '-');
    assert forall|j: int| set.len() < j < name.len() implies name[j] != '-' by {
        assert(name[j] == text::nat_text(n as nat)[j - set.len() - 1]);
        assert(text::is_digit(text::nat_text(n as nat)[j - set.len() - 1]));
    }
    assert(name.skip(set.len() as int + 1) =~= bare);
    text::lemma_last_index(bare, '-');
    assert forall|j: int| 0 <= j < bare.len() implies bare[j] != '-' by {
        assert(text::is_digit(bare[j]));
    }
}

// Readiness.

/// A broker is ready where its listeners are up, it has a host to advertise
/// outside where it listens there, the last progress is less than five seconds
/// old and, in a cluster, it serves.
pub proof fn law_readiness(g: GateModel, tls: Seq<char>, host: Seq<char>, now: int, cluster: bool, serving: Option<bool>)
    ensures
        health::is_ready(g, tls, host, now, cluster, serving) <==> {
            &&& g.ready
            &&& tls.len() > 0 ==> host.len() > 0
            &&& g.tick is Some && now < g.tick->0 + 5_000
            &&& cluster ==> serving is Some && serving->0
        },
{
}

/// What the process tells of itself changes just that.
pub proof fn law_gate_takes_down_what_it_is_told(g: GateModel, v: bool, now_ms: i64)
    ensures
        ({
            let a = health::gate_after(g, GateEvent::Ready(v));
            let b = health::gate_after(g, GateEvent::Progress(now_ms));
            let c = health::gate_after(g, GateEvent::Draining);
            &&& a.ready == v && a.tick == g.tick && a.draining == g.draining
            &&& b.ready == g.ready && b.draining == g.draining && (b.tick matches Some(t) && t >= 1 && (now_ms >= 1 ==> t == now_ms))
            &&& c.draining && c.ready == g.ready && c.tick == g.tick
        }),
{
}

/// A measurement below zero is none.
pub proof fn law_measurement(v: i64)
    ensures
        v >= 0 ==> health::measured(v) == Some(v),
        v < 0 ==> health::measured(v) is None,
{
}

} // verus!
