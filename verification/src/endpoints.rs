//! The brokers of a cluster, as the slices of a headless service list them.
//!
//! A broker that is listed and not ready is fenced: it is there and does not
//! serve. A broker that its slice no longer lists is gone. The broker that
//! keeps the registry is never touched by a slice.

use vstd::prelude::*;
use crate::keyed;
use crate::numbered::NumberMap;
use crate::order;
use crate::text;
use crate::text::{chars_of, find_last, int_string, parse_decimal, text_eq, text_of};

verus! {

#[derive(Debug, PartialEq, Eq)]
pub struct BrokerEndpoint {
    pub node_id: i32,
    pub host: String,
    pub port: i32,
    /// False for a fenced broker.
    pub ready: bool,
}

#[verifier::ext_equal]
pub struct EndpointRow {
    pub node_id: i32,
    pub host: Seq<char>,
    pub port: i32,
    pub ready: bool,
}

impl View for BrokerEndpoint {
    type V = EndpointRow;

    open spec fn view(&self) -> EndpointRow {
        EndpointRow { node_id: self.node_id, host: self.host@, port: self.port, ready: self.ready }
    }
}

impl Clone for BrokerEndpoint {
    fn clone(&self) -> (r: Self)
        ensures
            r == *self,
    {
        BrokerEndpoint { node_id: self.node_id, host: self.host.clone(), port: self.port, ready: self.ready }
    }
}

/// One row of a slice.
#[derive(Debug, Clone, PartialEq, Eq)]
pub struct EndpointSliceEntry {
    /// The name of the pod, which ends in its ordinal.
    pub hostname: String,
    pub address: String,
    pub ready: bool,
}

#[verifier::ext_equal]
pub struct SliceRow {
    pub hostname: Seq<char>,
    pub address: Seq<char>,
    pub ready: bool,
}

impl View for EndpointSliceEntry {
    type V = SliceRow;

    open spec fn view(&self) -> SliceRow {
        SliceRow { hostname: self.hostname@, address: self.address@, ready: self.ready }
    }
}

/// A slice.
#[derive(Debug, Clone, PartialEq, Eq, Default)]
pub struct EndpointSliceData {
    pub name: String,
    pub entries: Vec<EndpointSliceEntry>,
    pub kafka_port: Option<i32>,
}

#[verifier::ext_equal]
pub struct SliceModel {
    pub name: Seq<char>,
    pub rows: Seq<SliceRow>,
    pub port: Option<i32>,
}

pub open spec fn rows_of(s: Seq<EndpointSliceEntry>) -> Seq<SliceRow> {
    s.map_values(|e: EndpointSliceEntry| e@)
}

impl View for EndpointSliceData {
    type V = SliceModel;

    open spec fn view(&self) -> SliceModel {
        SliceModel { name: self.name@, rows: rows_of(self.entries@), port: self.kafka_port }
    }
}

/// How a pod is named in the cluster's DNS.
#[derive(Debug, Clone, PartialEq, Eq)]
pub struct DnsConfig {
    pub namespace: String,
    pub headless_service: String,
    /// The name of a pod, with `{ordinal}` for its ordinal.
    pub pod_name_pattern: String,
    pub cluster_domain: String,
}

#[verifier::ext_equal]
pub struct DnsModel {
    pub namespace: Seq<char>,
    pub service: Seq<char>,
    pub pattern: Seq<char>,
    pub domain: Seq<char>,
}

impl View for DnsConfig {
    type V = DnsModel;

    open spec fn view(&self) -> DnsModel {
        DnsModel {
            namespace: self.namespace@,
            service: self.headless_service@,
            pattern: self.pod_name_pattern@,
            domain: self.cluster_domain@,
        }
    }
}

pub open spec fn hole() -> Seq<char> {
    seq!['{', 'o', 'r', 'd', 'i', 'n', 'a', 'l', '}']
}

pub open spec fn hole_at(p: Seq<char>, i: int) -> bool {
    0 <= i && i + 9 <= p.len() && p.subrange(i, i + 9) == hole()
}

/// A pattern from a place on with the ordinal in every hole.
pub open spec fn filled(p: Seq<char>, i: int, ordinal: Seq<char>) -> Seq<char>
    decreases p.len() - i,
{
    if i < 0 || i >= p.len() {
        Seq::empty()
    } else if hole_at(p, i) {
        ordinal + filled(p, i + 9, ordinal)
    } else {
        seq![p[i]] + filled(p, i + 1, ordinal)
    }
}

/// The full name of the pod with an ordinal.
pub open spec fn full_name(d: DnsModel, ordinal: int) -> Seq<char> {
    filled(d.pattern, 0, text::int_text(ordinal)) + "."@ + d.service + "."@ + d.namespace + ".svc."@ + d.domain
}

fn is_hole(v: &Vec<char>, i: usize) -> (r: bool)
    requires
        i < v@.len(),
    ensures
        r == hole_at(v@, i as int),
{
    if v.len() - i < 9 {
        return false;
    }
    let r = v[i] == '{' && v[i + 1] == 'o' && v[i + 2] == 'r' && v[i + 3] == 'd' && v[i + 4] == 'i' && v[i + 5] == 'n' && v[i + 6] == 'a'
        && v[i + 7] == 'l' && v[i + 8] == '}';
    proof {
        let s = v@.subrange(i as int, i + 9);
        if r {
            assert(s =~= hole());
        } else if s == hole() {
            assert(s[0] == v@[i as int] && s[1] == v@[i + 1] && s[2] == v@[i + 2] && s[3] == v@[i + 3] && s[4] == v@[i + 4] && s[5] == v@[i + 5]
                && s[6] == v@[i + 6] && s[7] == v@[i + 7] && s[8] == v@[i + 8]);
        }
    }
    r
}

impl DnsConfig {
    /// The full name of the pod with an ordinal.
    pub fn fqdn(&self, ordinal: i32) -> (s: String)
        ensures
            s@ == full_name(self@, ordinal as int),
    {
        let v = chars_of(&self.pod_name_pattern);
        let n = int_string(ordinal as i64);
        let mut s = String::new();
        let mut i: usize = 0;
        assert(s@ + filled(v@, 0, n@) =~= filled(v@, 0, n@));
        while i < v.len()
            invariant
                i <= v@.len(),
                s@ + filled(v@, i as int, n@) == filled(v@, 0, n@),
            decreases v.len() - i,
        {
            let ghost before = s@;
            if is_hole(&v, i) {
                s.push_str(&n);
                assert(s@ + filled(v@, i + 9, n@) =~= before + (n@ + filled(v@, i + 9, n@)));
                i = i + 9;
            } else {
                s.push(v[i]);
                assert(s@ + filled(v@, i + 1, n@) =~= before + (seq![v@[i as int]] + filled(v@, i + 1, n@)));
                i = i + 1;
            }
        }
        assert(s@ + filled(v@, i as int, n@) =~= s@);
        s.push_str(".");
        s.push_str(&self.headless_service);
        s.push_str(".");
        s.push_str(&self.namespace);
        s.push_str(".svc.");
        s.push_str(&self.cluster_domain);
        s
    }
}

/// The ordinal at the end of the name of a pod, behind its last hyphen.
pub open spec fn pod_ordinal(name: Seq<char>) -> Option<int> {
    match text::last_index(name, '-') {
        Some(i) => text::decimal_within(name.skip(i + 1), 0, i32::MAX as int),
        None => None,
    }
}

/// The ordinal at the end of the name of a pod.
pub fn parse_ordinal(name: &str) -> (r: Option<i32>)
    ensures
        match r {
            Some(n) => pod_ordinal(name@) == Some(n as int),
            None => pod_ordinal(name@) is None,
        },
{
    let v = chars_of(name);
    let len: usize = v.len();
    match find_last(&v, '-') {
        Some(i) => {
            assert(v@.subrange(i + 1, v@.len() as int) =~= name@.skip(i + 1));
            let tail = text_of(&v, i + 1, len);
            match parse_decimal(&tail) {
                Some(n) => if n >= 0 && n <= i32::MAX as i64 {
                    Some(n as i32)
                } else {
                    None
                },
                None => None,
            }
        },
        None => None,
    }
}

// The registry.

#[verifier::ext_equal]
pub struct BrokersModel {
    pub me: EndpointRow,
    pub dns: DnsModel,
    pub brokers: Map<i32, EndpointRow>,
    /// The slice that last listed a broker.
    pub slice_of: Map<i32, Seq<char>>,
}

/// The last row of a slice for an ordinal.
pub open spec fn row_for(rows: Seq<SliceRow>, ordinal: i32) -> Option<SliceRow>
    decreases rows.len(),
{
    if rows.len() == 0 {
        None
    } else if pod_ordinal(rows.last().hostname) == Some(ordinal as int) {
        Some(rows.last())
    } else {
        row_for(rows.drop_last(), ordinal)
    }
}

impl BrokersModel {
    /// The broker itself is there, and no slice owns it.
    pub open spec fn wf(self) -> bool {
        self.brokers.contains_key(self.me.node_id) && !self.slice_of.contains_key(self.me.node_id)
    }

    /// What a row of a slice says of a broker. It is known by its full name
    /// where the names are configured, else by its address.
    pub open spec fn endpoint(self, s: SliceModel, row: SliceRow, ordinal: i32) -> EndpointRow {
        EndpointRow {
            node_id: ordinal,
            host: if self.dns.service.len() > 0 && self.dns.pattern.len() > 0 {
                full_name(self.dns, ordinal as int)
            } else {
                row.address
            },
            port: match s.port {
                Some(p) => p,
                None => self.me.port,
            },
            ready: row.ready,
        }
    }

    /// What a slice lists for an ordinal; nothing for the broker itself.
    pub open spec fn listed(self, s: SliceModel, ordinal: i32) -> Option<SliceRow> {
        if ordinal == self.me.node_id {
            None
        } else {
            row_for(s.rows, ordinal)
        }
    }

    pub open spec fn owns(self, slice: Seq<char>, ordinal: i32) -> bool {
        self.slice_of.contains_key(ordinal) && self.slice_of[ordinal] == slice
    }

    /// A broker is there after a slice came where the slice lists it, or
    /// where it was there and the slice did not own it.
    pub open spec fn kept(self, s: SliceModel, ordinal: i32) -> bool {
        self.listed(s, ordinal) is Some || (self.brokers.contains_key(ordinal) && !self.owns(s.name, ordinal))
    }

    pub open spec fn applied(self, s: SliceModel) -> BrokersModel {
        BrokersModel {
            brokers: Map::new(
                |o: i32| self.kept(s, o),
                |o: i32|
                    match self.listed(s, o) {
                        Some(row) => self.endpoint(s, row, o),
                        None => self.brokers[o],
                    },
            ),
            slice_of: Map::new(
                |o: i32| self.listed(s, o) is Some || (self.slice_of.contains_key(o) && !self.owns(s.name, o)),
                |o: i32|
                    match self.listed(s, o) {
                        Some(row) => s.name,
                        None => self.slice_of[o],
                    },
            ),
            ..self
        }
    }

    pub open spec fn deleted(self, s: SliceModel) -> BrokersModel {
        BrokersModel {
            brokers: Map::new(
                |o: i32| self.brokers.contains_key(o) && self.listed(s, o) is None,
                |o: i32| self.brokers[o],
            ),
            slice_of: Map::new(
                |o: i32| self.slice_of.contains_key(o) && self.listed(s, o) is None,
                |o: i32| self.slice_of[o],
            ),
            ..self
        }
    }

    pub open spec fn upserted(self, e: EndpointRow) -> BrokersModel {
        BrokersModel { brokers: self.brokers.insert(e.node_id, e), ..self }
    }
}

pub open spec fn endpoint_view() -> spec_fn(BrokerEndpoint) -> EndpointRow {
    |e: BrokerEndpoint| e@
}

pub open spec fn name_view() -> spec_fn(String) -> Seq<char> {
    |s: String| s@
}

/// The brokers of a cluster.
#[derive(Debug)]
pub struct BrokerRegistry {
    me: BrokerEndpoint,
    dns: DnsConfig,
    brokers: NumberMap<BrokerEndpoint>,
    slice_of: NumberMap<String>,
}

impl View for BrokerRegistry {
    type V = BrokersModel;

    closed spec fn view(&self) -> BrokersModel {
        BrokersModel {
            me: self.me@,
            dns: self.dns@,
            brokers: self.brokers@.map_values(endpoint_view()),
            slice_of: self.slice_of@.map_values(name_view()),
        }
    }
}

/// Whether a list holds the values of a map in the order of its keys.
pub open spec fn lists(out: Seq<EndpointRow>, brokers: Map<i32, EndpointRow>, keys: Seq<i32>) -> bool {
    &&& out.len() == keys.len()
    &&& forall|i: int, j: int| 0 <= i < j < keys.len() ==> #[trigger] keys[i] < #[trigger] keys[j]
    &&& forall|i: int| 0 <= i < keys.len() ==> brokers.contains_key(#[trigger] keys[i]) && out[i] == brokers[keys[i]]
    &&& forall|k: i32| #[trigger] brokers.contains_key(k) ==> keys.contains(k)
}

/// Whether a list holds every broker, by node id.
pub open spec fn snapshot_of(out: Seq<EndpointRow>, brokers: Map<i32, EndpointRow>) -> bool {
    exists|keys: Seq<i32>| lists(out, brokers, keys)
}

/// How many brokers of a list of keys are ready.
pub open spec fn ready_among(brokers: Map<i32, EndpointRow>, keys: Seq<i32>) -> nat
    decreases keys.len(),
{
    if keys.len() == 0 {
        0
    } else {
        ready_among(brokers, keys.drop_last()) + if brokers[keys.last()].ready {
            1nat
        } else {
            0nat
        }
    }
}

pub open spec fn ready_set(brokers: Map<i32, EndpointRow>) -> Set<i32> {
    brokers.dom().filter(|k: i32| brokers[k].ready)
}

proof fn lemma_ready(brokers: Map<i32, EndpointRow>, keys: Seq<i32>)
    requires
        forall|i: int, j: int| 0 <= i < j < keys.len() ==> #[trigger] keys[i] < #[trigger] keys[j],
    ensures
        ready_among(brokers, keys) == keys.to_set().filter(|k: i32| brokers[k].ready).len(),
        keys.to_set().filter(|k: i32| brokers[k].ready).finite(),
    decreases keys.len(),
{
    let f = |k: i32| brokers[k].ready;
    if keys.len() == 0 {
        assert(keys.to_set().filter(f) =~= Set::empty());
    } else {
        let d = keys.drop_last();
        let k = keys.last();
        lemma_ready(brokers, d);
        assert(keys =~= d.push(k));
        d.lemma_push_to_set_commute(k);
        assert(!d.to_set().contains(k)) by {
            if d.contains(k) {
                let i = choose|i: int| 0 <= i < d.len() && d[i] == k;
                assert(keys[i] < keys[keys.len() - 1]);
            }
        }
        if f(k) {
            assert(keys.to_set().filter(f) =~= d.to_set().filter(f).insert(k));
        } else {
            assert(keys.to_set().filter(f) =~= d.to_set().filter(f));
        }
    }
}

impl BrokerRegistry {
    pub fn new(self_endpoint: BrokerEndpoint, dns: DnsConfig) -> (r: Self)
        ensures
            r@.wf(),
            r@ == (BrokersModel {
                me: self_endpoint@,
                dns: dns@,
                brokers: Map::<i32, EndpointRow>::empty().insert(self_endpoint.node_id, self_endpoint@),
                slice_of: Map::empty(),
            }),
    {
        let mut brokers: NumberMap<BrokerEndpoint> = NumberMap::new();
        brokers.insert(self_endpoint.node_id, self_endpoint.clone());
        let r = BrokerRegistry { me: self_endpoint, dns, brokers, slice_of: NumberMap::new() };
        assert(r@.brokers =~= Map::<i32, EndpointRow>::empty().insert(self_endpoint.node_id, self_endpoint@));
        assert(r@.slice_of =~= Map::<i32, Seq<char>>::empty());
        r
    }

    /// The broker that keeps the registry.
    pub fn self_endpoint(&self) -> (e: BrokerEndpoint)
        ensures
            e@ == self@.me,
    {
        self.me.clone()
    }

    /// Every registered broker, ready or fenced, by node id.
    pub fn all(&self) -> (out: Vec<BrokerEndpoint>)
        ensures
            snapshot_of(out@.map_values(endpoint_view()), self@.brokers),
            out@.len() == self@.brokers.dom().len(),
    {
        let n = self.brokers.len();
        let ghost keys = self.brokers.keys();
        let mut out: Vec<BrokerEndpoint> = Vec::new();
        let mut i: usize = 0;
        proof {
            keyed::lemma_mapped(self.brokers@, endpoint_view(), 0, arbitrary());
        }
        while i < n
            invariant
                i <= n,
                n == keys.len(),
                keys == self.brokers.keys(),
                out@.len() == i,
                self@.brokers == self.brokers@.map_values(endpoint_view()),
                forall|j: int| 0 <= j < n ==> self.brokers@.contains_key(#[trigger] keys[j]),
                forall|j: int| 0 <= j < i ==> (#[trigger] out@[j])@ == self@.brokers[keys[j]],
            decreases n - i,
        {
            out.push(self.brokers.value_at(i).clone());
            proof {
                assert(self.brokers@.contains_key(keys[i as int]));
                keyed::lemma_mapped(self.brokers@, endpoint_view(), keys[i as int], arbitrary());
            }
            i = i + 1;
        }
        assert(lists(out@.map_values(endpoint_view()), self@.brokers, keys));
        out
    }

    /// How many brokers are registered.
    pub fn count(&self) -> (n: usize)
        ensures
            n == self@.brokers.dom().len(),
    {
        proof {
            keyed::lemma_mapped(self.brokers@, endpoint_view(), 0, arbitrary());
        }
        self.brokers.len()
    }

    /// How many brokers are ready.
    pub fn ready_count(&self) -> (n: usize)
        ensures
            n == ready_set(self@.brokers).len(),
    {
        let len = self.brokers.len();
        let ghost keys = self.brokers.keys();
        let mut n: usize = 0;
        let mut i: usize = 0;
        proof {
            keyed::lemma_mapped(self.brokers@, endpoint_view(), 0, arbitrary());
        }
        while i < len
            invariant
                i <= len,
                n <= i,
                len == keys.len(),
                keys == self.brokers.keys(),
                self@.brokers == self.brokers@.map_values(endpoint_view()),
                forall|j: int| 0 <= j < len ==> self.brokers@.contains_key(#[trigger] keys[j]),
                n == ready_among(self@.brokers, keys.take(i as int)),
            decreases len - i,
        {
            proof {
                assert(keys.take(i + 1).drop_last() =~= keys.take(i as int));
                assert(self.brokers@.contains_key(keys[i as int]));
                keyed::lemma_mapped(self.brokers@, endpoint_view(), keys[i as int], arbitrary());
            }
            if self.brokers.value_at(i).ready {
                n = n + 1;
            }
            i = i + 1;
        }
        proof {
            assert(keys.take(i as int) =~= keys);
            lemma_ready(self@.brokers, keys);
            assert(keys.to_set() =~= self@.brokers.dom());
        }
        n
    }

    /// Puts a broker in. Returned is what a subscriber is told.
    pub fn upsert(&mut self, endpoint: BrokerEndpoint) -> (out: Vec<BrokerEndpoint>)
        ensures
            final(self)@ == old(self)@.upserted(endpoint@),
            old(self)@.wf() ==> final(self)@.wf(),
            snapshot_of(out@.map_values(endpoint_view()), final(self)@.brokers),
    {
        proof {
            keyed::lemma_mapped(self.brokers@, endpoint_view(), endpoint.node_id, endpoint);
        }
        self.brokers.insert(endpoint.node_id, endpoint);
        assert(self@ =~= old(self)@.upserted(endpoint@));
        self.all()
    }

    /// Takes in a slice that was added or changed. Returned is what a
    /// subscriber is told.
    pub fn apply_slice(&mut self, slice: &EndpointSliceData) -> (out: Vec<BrokerEndpoint>)
        requires
            old(self)@.wf(),
        ensures
            final(self)@ == old(self)@.applied(slice@),
            final(self)@.wf(),
            snapshot_of(out@.map_values(endpoint_view()), final(self)@.brokers),
    {
        let ghost m0 = self@;
        let ghost s = slice@;
        let port: i32 = match slice.kafka_port {
            Some(p) => p,
            None => self.me.port,
        };
        let named = !self.dns.headless_service.as_str().is_empty() && !self.dns.pod_name_pattern.as_str().is_empty();
        let mut seen: Vec<i32> = Vec::new();
        let mut i: usize = 0;
        assert(s.rows.take(0) =~= Seq::empty());
        while i < slice.entries.len()
            invariant
                i <= slice.entries@.len(),
                s == slice@,
                m0 == old(self)@,
                self.me == old(self).me,
                self.dns == old(self).dns,
                m0.me == self.me@,
                m0.dns == self.dns@,
                port == (match s.port {
                    Some(p) => p,
                    None => m0.me.port,
                }),
                named == (m0.dns.service.len() > 0 && m0.dns.pattern.len() > 0),
                forall|o: i32| #[trigger] self@.brokers.contains_key(o) == ((o != m0.me.node_id && row_for(s.rows.take(i as int), o) is Some)
                    || m0.brokers.contains_key(o)),
                forall|o: i32| #[trigger] self@.brokers.contains_key(o) ==> self@.brokers[o] == (if o != m0.me.node_id && row_for(s.rows.take(i as int), o) is Some {
                    m0.endpoint(s, row_for(s.rows.take(i as int), o)->0, o)
                } else {
                    m0.brokers[o]
                }),
                forall|o: i32| #[trigger] self@.slice_of.contains_key(o) == ((o != m0.me.node_id && row_for(s.rows.take(i as int), o) is Some)
                    || m0.slice_of.contains_key(o)),
                forall|o: i32| #[trigger] self@.slice_of.contains_key(o) ==> self@.slice_of[o] == (if o != m0.me.node_id && row_for(s.rows.take(i as int), o) is Some {
                    s.name
                } else {
                    m0.slice_of[o]
                }),
                forall|o: i32| #[trigger] seen@.contains(o) == (o != m0.me.node_id && row_for(s.rows.take(i as int), o) is Some),
            decreases slice.entries.len() - i,
        {
            let ep = &slice.entries[i];
            proof {
                assert(s.rows.take(i + 1).drop_last() =~= s.rows.take(i as int));
                assert(s.rows.take(i + 1).last() == ep@);
            }
            if let Some(ordinal) = parse_ordinal(&ep.hostname) {
                if ordinal != self.me.node_id {
                    let ghost seen0 = seen@;
                    seen.push(ordinal);
                    proof {
                        order::lemma_push_contains(seen0, ordinal);
                    }
                    let host = if named {
                        self.dns.fqdn(ordinal)
                    } else {
                        ep.address.clone()
                    };
                    let e = BrokerEndpoint { node_id: ordinal, host, port, ready: ep.ready };
                    let name = slice.name.clone();
                    proof {
                        assert(e@ =~= m0.endpoint(s, ep@, ordinal));
                        keyed::lemma_mapped(self.brokers@, endpoint_view(), ordinal, e);
                        keyed::lemma_mapped(self.slice_of@, name_view(), ordinal, name);
                    }
                    let ghost prev = self@;
                    self.brokers.insert(ordinal, e);
                    self.slice_of.insert(ordinal, name);
                    proof {
                        assert(self@.brokers == prev.brokers.insert(ordinal, e@));
                        assert(self@.slice_of == prev.slice_of.insert(ordinal, s.name));
                        assert forall|o: i32| #[trigger] self@.brokers.contains_key(o) == (prev.brokers.contains_key(o) || o == ordinal) by {}
                        assert forall|o: i32| #[trigger] self@.slice_of.contains_key(o) == (prev.slice_of.contains_key(o) || o == ordinal) by {}
                    }
                }
            }
            i = i + 1;
        }
        assert(s.rows.take(i as int) =~= s.rows);
        let ghost m1 = self@;
        assert forall|o: i32| #[trigger] seen@.contains(o) == (m0.listed(s, o) is Some) by {}
        // What the slice owned and no longer lists goes.
        let n = self.slice_of.len();
        let ghost keys = self.slice_of.keys();
        let mut dropped: Vec<i32> = Vec::new();
        let mut j: usize = 0;
        while j < n
            invariant
                j <= n,
                n == keys.len(),
                keys == self.slice_of.keys(),
                s == slice@,
                m1 == self@,
                m1.slice_of == self.slice_of@.map_values(name_view()),
                forall|o: i32| #[trigger] seen@.contains(o) == (m0.listed(s, o) is Some),
                forall|k: int| 0 <= k < n ==> self.slice_of@.contains_key(#[trigger] keys[k]),
                forall|o: i32| #[trigger] dropped@.contains(o) == (keys.take(j as int).contains(o) && m1.slice_of[o] == s.name && m0.listed(s, o) is None),
            decreases n - j,
        {
            let k = self.slice_of.key_at(j);
            let ghost d0 = dropped@;
            proof {
                keyed::lemma_mapped(self.slice_of@, name_view(), k, arbitrary());
                order::lemma_take_contains(keys, j as int);
            }
            if text_eq(self.slice_of.value_at(j), &slice.name) && !has_number(&seen, k) {
                dropped.push(k);
                proof {
                    order::lemma_push_contains(d0, k);
                }
            }
            j = j + 1;
        }
        proof {
            assert(keys.take(j as int) =~= keys);
            keyed::lemma_mapped(self.slice_of@, name_view(), 0, arbitrary());
            assert forall|o: i32| #[trigger] dropped@.contains(o) == (m1.slice_of.contains_key(o) && m1.slice_of[o] == s.name && m0.listed(s, o) is None) by {
                if keys.contains(o) {
                    let x = choose|x: int| 0 <= x < keys.len() && keys[x] == o;
                    assert(self.slice_of@.contains_key(keys[x]));
                }
                if m1.slice_of.contains_key(o) {
                    assert(self.slice_of@.contains_key(o));
                }
            }
        }
        self.drop_all(&dropped);
        proof {
            assert(self@.brokers =~= m0.applied(s).brokers);
            assert(self@.slice_of =~= m0.applied(s).slice_of);
            assert(self@ =~= m0.applied(s));
        }
        self.all()
    }

    fn drop_all(&mut self, dropped: &Vec<i32>)
        ensures
            final(self)@.me == old(self)@.me,
            final(self)@.dns == old(self)@.dns,
            forall|o: i32| #[trigger] final(self)@.brokers.contains_key(o) == (old(self)@.brokers.contains_key(o) && !dropped@.contains(o)),
            forall|o: i32| #[trigger] final(self)@.brokers.contains_key(o) ==> final(self)@.brokers[o] == old(self)@.brokers[o],
            forall|o: i32| #[trigger] final(self)@.slice_of.contains_key(o) == (old(self)@.slice_of.contains_key(o) && !dropped@.contains(o)),
            forall|o: i32| #[trigger] final(self)@.slice_of.contains_key(o) ==> final(self)@.slice_of[o] == old(self)@.slice_of[o],
    {
        let mut i: usize = 0;
        while i < dropped.len()
            invariant
                i <= dropped@.len(),
                self@.me == old(self)@.me,
                self@.dns == old(self)@.dns,
                forall|o: i32| #[trigger] self@.brokers.contains_key(o) == (old(self)@.brokers.contains_key(o) && !dropped@.take(i as int).contains(o)),
                forall|o: i32| #[trigger] self@.brokers.contains_key(o) ==> self@.brokers[o] == old(self)@.brokers[o],
                forall|o: i32| #[trigger] self@.slice_of.contains_key(o) == (old(self)@.slice_of.contains_key(o) && !dropped@.take(i as int).contains(o)),
                forall|o: i32| #[trigger] self@.slice_of.contains_key(o) ==> self@.slice_of[o] == old(self)@.slice_of[o],
            decreases dropped.len() - i,
        {
            let k = dropped[i];
            proof {
                keyed::lemma_mapped(self.brokers@, endpoint_view(), k, arbitrary());
                keyed::lemma_mapped(self.slice_of@, name_view(), k, arbitrary());
                order::lemma_take_contains(dropped@, i as int);
            }
            let ghost prev = self@;
            self.brokers.remove(k);
            self.slice_of.remove(k);
            proof {
                assert(self@.brokers == prev.brokers.remove(k));
                assert(self@.slice_of == prev.slice_of.remove(k));
                assert forall|o: i32| #[trigger] self@.brokers.contains_key(o) == (prev.brokers.contains_key(o) && o != k) by {}
                assert forall|o: i32| #[trigger] self@.slice_of.contains_key(o) == (prev.slice_of.contains_key(o) && o != k) by {}
            }
            i = i + 1;
        }
        assert(dropped@.take(i as int) =~= dropped@);
    }

    /// Takes in that a slice was deleted. Returned is what a subscriber is
    /// told.
    pub fn delete_slice(&mut self, slice: &EndpointSliceData) -> (out: Vec<BrokerEndpoint>)
        requires
            old(self)@.wf(),
        ensures
            final(self)@ == old(self)@.deleted(slice@),
            final(self)@.wf(),
            snapshot_of(out@.map_values(endpoint_view()), final(self)@.brokers),
    {
        let ghost m0 = self@;
        let ghost s = slice@;
        let mut dropped: Vec<i32> = Vec::new();
        let mut i: usize = 0;
        assert(s.rows.take(0) =~= Seq::empty());
        while i < slice.entries.len()
            invariant
                i <= slice.entries@.len(),
                s == slice@,
                m0 == self@,
                forall|o: i32| #[trigger] dropped@.contains(o) == (o != m0.me.node_id && row_for(s.rows.take(i as int), o) is Some),
            decreases slice.entries.len() - i,
        {
            let ep = &slice.entries[i];
            proof {
                assert(s.rows.take(i + 1).drop_last() =~= s.rows.take(i as int));
                assert(s.rows.take(i + 1).last() == ep@);
            }
            if let Some(ordinal) = parse_ordinal(&ep.hostname) {
                if ordinal != self.me.node_id {
                    let ghost d0 = dropped@;
                    dropped.push(ordinal);
                    proof {
                        order::lemma_push_contains(d0, ordinal);
                    }
                }
            }
            i = i + 1;
        }
        assert(s.rows.take(i as int) =~= s.rows);
        assert forall|o: i32| #[trigger] dropped@.contains(o) == (m0.listed(s, o) is Some) by {}
        self.drop_all(&dropped);
        proof {
            assert(self@.brokers =~= m0.deleted(s).brokers);
            assert(self@.slice_of =~= m0.deleted(s).slice_of);
            assert(self@ =~= m0.deleted(s));
        }
        self.all()
    }
}

fn has_number(v: &Vec<i32>, k: i32) -> (r: bool)
    ensures
        r == v@.contains(k),
{
    let mut i: usize = 0;
    while i < v.len()
        invariant
            i <= v@.len(),
            forall|j: int| 0 <= j < i ==> v@[j] != k,
        decreases v.len() - i,
    {
        if v[i] == k {
            assert(v@[i as int] == k);
            return true;
        }
        i = i + 1;
    }
    false
}

/// No slice fences, changes or removes the broker that keeps the registry.
pub proof fn law_self_is_never_touched(m: BrokersModel, s: SliceModel)
    requires
        m.wf(),
    ensures
        m.applied(s).wf(),
        m.deleted(s).wf(),
        m.applied(s).brokers[m.me.node_id] == m.brokers[m.me.node_id],
        m.deleted(s).brokers[m.me.node_id] == m.brokers[m.me.node_id],
{
}

/// A broker that is listed stays registered, ready or not, and is as ready as
/// the slice says.
pub proof fn law_fenced_broker_stays_registered(m: BrokersModel, s: SliceModel, ordinal: i32)
    requires
        ordinal != m.me.node_id,
        row_for(s.rows, ordinal) is Some,
    ensures
        m.applied(s).brokers.contains_key(ordinal),
        m.applied(s).brokers[ordinal].ready == row_for(s.rows, ordinal)->0.ready,
        m.applied(s).brokers[ordinal].node_id == ordinal,
{
}

/// A broker that a slice listed and no longer lists is gone.
pub proof fn law_absent_broker_is_deregistered(m: BrokersModel, before: SliceModel, after: SliceModel, ordinal: i32)
    requires
        ordinal != m.me.node_id,
        before.name == after.name,
        row_for(before.rows, ordinal) is Some,
        row_for(after.rows, ordinal) is None,
    ensures
        !m.applied(before).applied(after).brokers.contains_key(ordinal),
{
}

/// A slice leaves alone the brokers that only another slice lists.
pub proof fn law_slices_do_not_evict_each_other(m: BrokersModel, a: SliceModel, b: SliceModel, ordinal: i32)
    requires
        a.name != b.name,
        ordinal != m.me.node_id,
        row_for(a.rows, ordinal) is Some,
        row_for(b.rows, ordinal) is None,
    ensures
        m.applied(a).applied(b).brokers.contains_key(ordinal),
        m.applied(a).applied(b).brokers[ordinal] == m.applied(a).brokers[ordinal],
{
}

/// Taking in a slice twice is taking it in once.
pub proof fn law_slice_can_come_again(m: BrokersModel, s: SliceModel)
    ensures
        m.applied(s).applied(s) == m.applied(s),
{
    let t = m.applied(s);
    assert(t.applied(s).brokers =~= t.brokers);
    assert(t.applied(s).slice_of =~= t.slice_of);
    assert(t.applied(s) =~= t);
}

} // verus!
