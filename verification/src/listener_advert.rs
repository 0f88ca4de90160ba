//! Advertised endpoints and the catalogue of brokers.
//!
//! Every endpoint that a client is told carries the port of the listener that
//! its request arrived on. Peers are reached at their own hosts; the broker
//! itself at the host that it advertises.

use vstd::prelude::*;
use crate::order;
use crate::text;
use crate::text::{chars_of, find_last, parse_decimal, text_eq, text_of};

verus! {

/// The address that a listener is bound to.
#[derive(Debug, Clone, PartialEq, Eq)]
pub struct BindAddr {
    /// The address as text.
    pub ip: String,
    pub port: u16,
    /// Whether it stands for every address of the machine.
    pub unspecified: bool,
}

/// A configured listener. `addr` is none where it could not be read.
#[derive(Debug, Clone, PartialEq, Eq)]
pub struct ListenerEntry {
    pub name: String,
    pub addr: Option<BindAddr>,
    pub advertised_host: Option<String>,
}

/// The endpoint that a listener is advertised with.
#[derive(Debug, PartialEq, Eq)]
pub struct ListenerAdvert {
    pub name: String,
    pub host: String,
    pub port: i32,
}

impl Clone for ListenerAdvert {
    fn clone(&self) -> (r: Self)
        ensures
            r == *self,
    {
        ListenerAdvert { name: self.name.clone(), host: self.host.clone(), port: self.port }
    }
}

#[verifier::ext_equal]
pub struct AdvertRow {
    pub name: Seq<char>,
    pub host: Seq<char>,
    pub port: i32,
}

impl View for ListenerAdvert {
    type V = AdvertRow;

    open spec fn view(&self) -> AdvertRow {
        AdvertRow { name: self.name@, host: self.host@, port: self.port }
    }
}

/// What a listener is advertised with: the host it is told to advertise, else
/// its address, with localhost for an address that nobody can dial.
pub open spec fn advert_of(e: ListenerEntry) -> AdvertRow {
    AdvertRow {
        name: e.name@,
        host: if e.advertised_host matches Some(h) && h@.len() > 0 {
            e.advertised_host->0@
        } else {
            match e.addr {
                Some(a) => if a.unspecified {
                    "127.0.0.1"@
                } else {
                    a.ip@
                },
                None => "127.0.0.1"@,
            }
        },
        port: match e.addr {
            Some(a) => a.port as i32,
            None => 9092,
        },
    }
}

fn advert_from(entry: &ListenerEntry) -> (a: ListenerAdvert)
    ensures
        a@ == advert_of(*entry),
{
    let port: i32 = match &entry.addr {
        Some(a) => a.port as i32,
        None => 9092,
    };
    let own: String = match &entry.addr {
        Some(a) => {
            if a.unspecified {
                "127.0.0.1".to_owned()
            } else {
                a.ip.clone()
            }
        },
        None => "127.0.0.1".to_owned(),
    };
    let host: String = match &entry.advertised_host {
        Some(h) => {
            if h.as_str().is_empty() {
                own
            } else {
                h.clone()
            }
        },
        None => own,
    };
    ListenerAdvert { name: entry.name.clone(), host, port }
}

/// The listeners of a broker.
#[derive(Debug, Clone)]
pub struct ListenerAdverts {
    entries: Vec<ListenerAdvert>,
}

impl View for ListenerAdverts {
    type V = Seq<AdvertRow>;

    closed spec fn view(&self) -> Seq<AdvertRow> {
        self.entries@.map_values(|a: ListenerAdvert| a@)
    }
}

/// The first row with a name, from a place on.
pub open spec fn named(rows: Seq<AdvertRow>, name: Seq<char>, i: int) -> Option<AdvertRow>
    decreases rows.len() - i,
{
    if i < 0 || i >= rows.len() {
        None
    } else if rows[i].name == name {
        Some(rows[i])
    } else {
        named(rows, name, i + 1)
    }
}

/// What is advertised on a listener: its own row, else the first one, else
/// localhost.
pub open spec fn advert_for(rows: Seq<AdvertRow>, name: Seq<char>) -> AdvertRow {
    match named(rows, name, 0) {
        Some(r) => r,
        None => if rows.len() > 0 {
            rows[0]
        } else {
            AdvertRow { name: "internal"@, host: "127.0.0.1"@, port: 9092 }
        },
    }
}

impl ListenerAdverts {
    pub fn new(listeners: &[ListenerEntry]) -> (a: Self)
        ensures
            a@ == listeners@.map_values(|e: ListenerEntry| advert_of(e)),
    {
        let mut entries: Vec<ListenerAdvert> = Vec::new();
        let mut i: usize = 0;
        while i < listeners.len()
            invariant
                i <= listeners@.len(),
                entries@.len() == i,
                forall|j: int| 0 <= j < i ==> (#[trigger] entries@[j])@ == advert_of(listeners@[j]),
            decreases listeners.len() - i,
        {
            entries.push(advert_from(&listeners[i]));
            i = i + 1;
        }
        let a = ListenerAdverts { entries };
        assert(a@ =~= listeners@.map_values(|e: ListenerEntry| advert_of(e)));
        a
    }

    /// The endpoint for the listener that a connection arrived on.
    pub fn for_listener(&self, listener_name: &str) -> (a: ListenerAdvert)
        ensures
            a@ == advert_for(self@, listener_name@),
    {
        let mut i: usize = 0;
        while i < self.entries.len()
            invariant
                i <= self.entries@.len(),
                named(self@, listener_name@, 0) == named(self@, listener_name@, i as int),
            decreases self.entries.len() - i,
        {
            if text_eq(&self.entries[i].name, listener_name) {
                return self.entries[i].clone();
            }
            i = i + 1;
        }
        if self.entries.len() > 0 {
            self.entries[0].clone()
        } else {
            ListenerAdvert { name: "internal".to_owned(), host: "127.0.0.1".to_owned(), port: 9092 }
        }
    }
}

/// A broker of the catalogue.
#[derive(Debug, PartialEq, Eq)]
pub struct BrokerNode {
    pub node_id: i32,
    pub host: String,
    pub port: i32,
    /// Registered but not serving.
    pub fenced: bool,
}

impl Clone for BrokerNode {
    fn clone(&self) -> (r: Self)
        ensures
            r == *self,
    {
        BrokerNode { node_id: self.node_id, host: self.host.clone(), port: self.port, fenced: self.fenced }
    }
}

#[verifier::ext_equal]
pub struct NodeRow {
    pub node_id: i32,
    pub host: Seq<char>,
    pub port: i32,
    pub fenced: bool,
}

impl View for BrokerNode {
    type V = NodeRow;

    open spec fn view(&self) -> NodeRow {
        NodeRow { node_id: self.node_id, host: self.host@, port: self.port, fenced: self.fenced }
    }
}

pub open spec fn node_rows(s: Seq<BrokerNode>) -> Seq<NodeRow> {
    s.map_values(|b: BrokerNode| b@)
}

/// The row of the broker itself.
pub open spec fn self_row(self_id: i32, advert: AdvertRow) -> NodeRow {
    NodeRow { node_id: self_id, host: advert.host, port: advert.port, fenced: false }
}

/// A row of the catalogue as it is advertised. The broker itself is never
/// fenced: it is answering.
pub open spec fn advertised_row(self_id: i32, advert: AdvertRow, b: NodeRow) -> NodeRow {
    NodeRow {
        node_id: b.node_id,
        host: if b.node_id == self_id {
            advert.host
        } else {
            b.host
        },
        port: advert.port,
        fenced: b.fenced && b.node_id != self_id,
    }
}

pub open spec fn row_map(self_id: i32, advert: AdvertRow) -> spec_fn(NodeRow) -> NodeRow {
    |b: NodeRow| advertised_row(self_id, advert, b)
}

pub open spec fn is_other(self_id: i32) -> spec_fn(NodeRow) -> bool {
    |b: NodeRow| b.node_id != self_id
}

/// Whether some row is not fenced.
pub open spec fn any_serving(rows: Seq<NodeRow>) -> bool {
    exists|i: int| 0 <= i < rows.len() && !(#[trigger] rows[i]).fenced
}

/// The catalogue as it is advertised. Where nobody in it serves, the broker
/// itself does.
pub open spec fn advertised(self_id: i32, view: Option<Seq<NodeRow>>, advert: AdvertRow) -> Seq<NodeRow> {
    match view {
        None => seq![self_row(self_id, advert)],
        Some(v) => {
            let rows = v.map_values(row_map(self_id, advert));
            if any_serving(rows) {
                rows
            } else {
                rows.filter(is_other(self_id)).push(self_row(self_id, advert))
            }
        },
    }
}

/// The catalogue to advertise on a listener. `view` is none where the broker
/// runs alone.
pub fn advertised_brokers(self_id: i32, view: Option<&Vec<BrokerNode>>, advert: &ListenerAdvert) -> (out: Vec<BrokerNode>)
    ensures
        node_rows(out@) == advertised(
            self_id,
            match view {
                Some(v) => Some(node_rows(v@)),
                None => None,
            },
            advert@,
        ),
{
    let own = BrokerNode { node_id: self_id, host: advert.host.clone(), port: advert.port, fenced: false };
    let mut out: Vec<BrokerNode> = Vec::new();
    match view {
        None => {
            out.push(own);
            assert(node_rows(out@) =~= seq![self_row(self_id, advert@)]);
            out
        },
        Some(v) => {
            let ghost rows = node_rows(v@).map_values(row_map(self_id, advert@));
            let mut serving: bool = false;
            let mut i: usize = 0;
            assert(node_rows(out@) =~= rows.take(0));
            while i < v.len()
                invariant
                    i <= v@.len(),
                    rows == node_rows(v@).map_values(row_map(self_id, advert@)),
                    node_rows(out@) == rows.take(i as int),
                    serving == exists|j: int| 0 <= j < i && !(#[trigger] rows[j]).fenced,
                decreases v.len() - i,
            {
                let b = &v[i];
                let ghost before = node_rows(out@);
                let fenced: bool = b.fenced && b.node_id != self_id;
                let row = BrokerNode {
                    node_id: b.node_id,
                    host: if b.node_id == self_id {
                        advert.host.clone()
                    } else {
                        b.host.clone()
                    },
                    port: advert.port,
                    fenced,
                };
                let ghost seen = row@;
                out.push(row);
                proof {
                    assert(seen =~= rows[i as int]);
                    assert(node_rows(out@) =~= before.push(seen));
                    assert(rows.take(i + 1) =~= rows.take(i as int).push(rows[i as int]));
                }
                if !fenced {
                    serving = true;
                }
                i = i + 1;
            }
            assert(rows.take(i as int) =~= rows);
            if serving {
                return out;
            }
            let mut kept: Vec<BrokerNode> = Vec::new();
            let mut k: usize = 0;
            proof {
                reveal(Seq::filter);
                assert(node_rows(kept@) =~= rows.take(0).filter(is_other(self_id)));
            }
            while k < out.len()
                invariant
                    k <= out@.len(),
                    node_rows(out@) == rows,
                    node_rows(kept@) == rows.take(k as int).filter(is_other(self_id)),
                decreases out.len() - k,
            {
                let ghost before = node_rows(kept@);
                proof {
                    reveal(Seq::filter);
                    assert(rows[k as int] == out@[k as int]@);
                    assert(rows.take(k + 1).drop_last() =~= rows.take(k as int));
                }
                if out[k].node_id != self_id {
                    kept.push(out[k].clone());
                    assert(node_rows(kept@) =~= before.push(rows[k as int]));
                }
                k = k + 1;
            }
            let ghost before = node_rows(kept@);
            kept.push(own);
            proof {
                assert(rows.take(k as int) =~= rows);
                assert(node_rows(kept@) =~= before.push(self_row(self_id, advert@)));
            }
            kept
        },
    }
}

/// What stands behind the last hyphen, or the whole text where there is none.
pub open spec fn last_segment(id: Seq<char>) -> Seq<char> {
    match text::last_index(id, '-') {
        Some(i) => id.skip(i + 1),
        None => id,
    }
}

/// The number at the end of a broker's name.
pub open spec fn ordinal_of(id: Seq<char>) -> Option<int> {
    text::decimal_within(last_segment(id), i32::MIN as int, i32::MAX as int)
}

pub fn trailing_ordinal(id: &str) -> (r: Option<i32>)
    ensures
        match r {
            Some(n) => ordinal_of(id@) == Some(n as int),
            None => ordinal_of(id@) is None,
        },
{
    let v = chars_of(id);
    let n: usize = v.len();
    let tail: String = match find_last(&v, '-') {
        Some(i) => {
            assert(v@.subrange(i + 1, v@.len() as int) =~= id@.skip(i + 1));
            text_of(&v, i + 1, n)
        },
        None => id.to_owned(),
    };
    match parse_decimal(&tail) {
        Some(n) => {
            if n >= i32::MIN as i64 && n <= i32::MAX as i64 {
                Some(n as i32)
            } else {
                None
            }
        },
        None => None,
    }
}

/// The node id of the controller named in the assignment; the broker's own
/// where there is none, or its name has no number.
pub fn controller_id(self_id: i32, controller: Option<&str>) -> (r: i32)
    ensures
        r == (match controller {
            Some(c) => match ordinal_of(c@) {
                Some(n) => n,
                None => self_id as int,
            },
            None => self_id as int,
        }),
{
    match controller {
        Some(c) => match trailing_ordinal(c) {
            Some(n) => n,
            None => self_id,
        },
        None => self_id,
    }
}

// Laws.

/// A client is always told a broker that serves.
pub proof fn law_somebody_serves(self_id: i32, view: Option<Seq<NodeRow>>, advert: AdvertRow)
    ensures
        any_serving(advertised(self_id, view, advert)),
{
    let out = advertised(self_id, view, advert);
    match view {
        None => {
            assert(!out[0].fenced);
        },
        Some(v) => {
            let rows = v.map_values(row_map(self_id, advert));
            if !any_serving(rows) {
                assert(!out[out.len() - 1].fenced);
            }
        },
    }
}

/// Every advertised endpoint carries the port of the listener, and the broker
/// itself is advertised under its own host and never as fenced.
pub proof fn law_endpoints_follow_the_listener(self_id: i32, view: Option<Seq<NodeRow>>, advert: AdvertRow, i: int)
    requires
        0 <= i < advertised(self_id, view, advert).len(),
    ensures
        ({
            let row = advertised(self_id, view, advert)[i];
            &&& row.port == advert.port
            &&& row.node_id == self_id ==> row.host == advert.host && !row.fenced
        }),
{
    match view {
        None => {},
        Some(v) => {
            let rows = v.map_values(row_map(self_id, advert));
            let others = rows.filter(is_other(self_id));
            if !any_serving(rows) && i < others.len() {
                order::lemma_filtered(rows, is_other(self_id), others[i]);
                assert(others.contains(others[i]));
            }
        },
    }
}

} // verus!
