//! Settings of the export of metrics and traces.

use vstd::prelude::*;
use crate::heartbeat::has_scheme;
use crate::text;
use crate::text::{chars_of, find_text, text_eq, text_of};

verus! {

/// An endpoint with a scheme: plain HTTP where it has none, and in place of
/// the first mention of gRPC.
pub open spec fn with_scheme(s: Seq<char>) -> Seq<char> {
    if text::first_place(s, "://"@, 0) is Some {
        match text::first_place(s, "grpc://"@, 0) {
            Some(i) => s.take(i) + "http://"@ + s.skip(i + "grpc://"@.len()),
            None => s,
        }
    } else {
        "http://"@ + s
    }
}

/// The endpoint with a scheme.
pub fn ensure_scheme(s: &str) -> (r: String)
    ensures
        r@ == with_scheme(s@),
{
    if !has_scheme(s) {
        let mut r = "http://".to_owned();
        r.push_str(s);
        return r;
    }
    let v = chars_of(s);
    let part = chars_of("grpc://");
    let n: usize = v.len();
    match find_text(&v, &part) {
        Some(i) => {
            let mut r = text_of(&v, 0, i);
            let tail = text_of(&v, i + part.len(), n);
            proof {
                assert(v@.subrange(0, i as int) =~= s@.take(i as int));
                assert(v@.subrange(i + part@.len(), v@.len() as int) =~= s@.skip(i + part@.len()));
            }
            r.push_str("http://");
            r.push_str(&tail);
            r
        },
        None => s.to_owned(),
    }
}

/// Where something is exported to, if anywhere: a setting that is missing or
/// empty turns the export off.
pub fn export_endpoint(setting: Option<&str>) -> (r: Option<String>)
    ensures
        match r {
            Some(e) => setting matches Some(s) && s@.len() > 0 && e@ == with_scheme(s@),
            None => setting matches Some(s) ==> s@.len() == 0,
        },
{
    match setting {
        Some(s) => if s.is_empty() {
            None
        } else {
            Some(ensure_scheme(s))
        },
        None => None,
    }
}

/// The unit of a duration.
#[derive(Debug, Clone, Copy, PartialEq, Eq, Structural)]
pub enum DurationUnit {
    Nanoseconds,
    Microseconds,
    Milliseconds,
    Seconds,
    Minutes,
    Hours,
}

/// The unit that a text stands for. Without a text it is seconds.
pub open spec fn unit_named(s: Seq<char>) -> Option<DurationUnit> {
    if s == "ns"@ {
        Some(DurationUnit::Nanoseconds)
    } else if s == "us"@ || s == "µs"@ {
        Some(DurationUnit::Microseconds)
    } else if s == "ms"@ {
        Some(DurationUnit::Milliseconds)
    } else if s == "s"@ || s.len() == 0 {
        Some(DurationUnit::Seconds)
    } else if s == "m"@ {
        Some(DurationUnit::Minutes)
    } else if s == "h"@ {
        Some(DurationUnit::Hours)
    } else {
        None
    }
}

/// The unit that a text stands for, or none.
pub fn duration_unit(s: &str) -> (r: Option<DurationUnit>)
    ensures
        r == unit_named(s@),
{
    if text_eq(s, "ns") {
        Some(DurationUnit::Nanoseconds)
    } else if text_eq(s, "us") || text_eq(s, "µs") {
        Some(DurationUnit::Microseconds)
    } else if text_eq(s, "ms") {
        Some(DurationUnit::Milliseconds)
    } else if text_eq(s, "s") || s.is_empty() {
        Some(DurationUnit::Seconds)
    } else if text_eq(s, "m") {
        Some(DurationUnit::Minutes)
    } else if text_eq(s, "h") {
        Some(DurationUnit::Hours)
    } else {
        None
    }
}

/// Whether a character can stand in the number of a duration.
pub open spec fn in_number(c: char) -> bool {
    text::is_digit(c) || c == '.' || c == '-' || c == '+'
}

/// How many characters at the beginning belong to the number.
pub open spec fn number_len(s: Seq<char>, i: int) -> int
    decreases s.len() - i,
{
    if i < 0 || i >= s.len() || !in_number(s[i]) {
        i
    } else {
        number_len(s, i + 1)
    }
}

/// Parts a duration into its number and its unit; none without a number.
pub fn split_num_unit(s: &str) -> (r: Option<(String, String)>)
    ensures
        match r {
            Some((n, u)) => number_len(s@, 0) > 0 && n@ == s@.take(number_len(s@, 0)) && u@ == s@.skip(number_len(s@, 0)),
            None => number_len(s@, 0) == 0,
        },
{
    let v = chars_of(s);
    let mut i: usize = 0;
    while i < v.len() && (('0' <= v[i] && v[i] <= '9') || v[i] == '.' || v[i] == '-' || v[i] == '+')
        invariant
            i <= v@.len(),
            v@ == s@,
            number_len(s@, 0) == number_len(s@, i as int),
        decreases v.len() - i,
    {
        i = i + 1;
    }
    if i == 0 {
        return None;
    }
    let n = text_of(&v, 0, i);
    let u = text_of(&v, i, v.len());
    proof {
        assert(v@.subrange(0, i as int) =~= s@.take(i as int));
        assert(v@.subrange(i as int, v@.len() as int) =~= s@.skip(i as int));
    }
    Some((n, u))
}

/// What a value that may be missing adds under names. An empty one adds
/// nothing.
pub open spec fn under(names: Seq<Seq<char>>, value: Option<Seq<char>>) -> Seq<(Seq<char>, Seq<char>)> {
    match value {
        Some(v) => if v.len() > 0 {
            names.map_values(|n: Seq<char>| (n, v))
        } else {
            Seq::empty()
        },
        None => Seq::empty(),
    }
}

/// The attributes under which everything is exported.
pub open spec fn attributes(service: Seq<char>, version: Option<Seq<char>>, pod: Option<Seq<char>>, namespace: Option<Seq<char>>) -> Seq<
    (Seq<char>, Seq<char>),
> {
    seq![("service.name"@, service)] + under(seq!["service.version"@], version) + under(
        seq!["k8s.pod.name"@, "service.instance.id"@],
        pod,
    ) + under(seq!["k8s.namespace.name"@], namespace)
}

pub open spec fn attribute_view() -> spec_fn((&'static str, String)) -> (Seq<char>, Seq<char>) {
    |a: (&'static str, String)| (a.0@, a.1@)
}

pub open spec fn opt_view(s: Option<&str>) -> Option<Seq<char>> {
    match s {
        Some(x) => Some(x@),
        None => None,
    }
}

/// The attributes under which everything is exported. A pod is an instance of
/// its own.
pub fn resource_attributes(service: &str, version: Option<&str>, pod: Option<&str>, namespace: Option<&str>) -> (out: Vec<(&'static str, String)>)
    ensures
        out@.map_values(attribute_view()) == attributes(service@, opt_view(version), opt_view(pod), opt_view(namespace)),
{
    let mut out: Vec<(&'static str, String)> = Vec::new();
    out.push(("service.name", service.to_owned()));
    if let Some(v) = version {
        if !v.is_empty() {
            out.push(("service.version", v.to_owned()));
        }
    }
    if let Some(v) = pod {
        if !v.is_empty() {
            out.push(("k8s.pod.name", v.to_owned()));
            out.push(("service.instance.id", v.to_owned()));
        }
    }
    if let Some(v) = namespace {
        if !v.is_empty() {
            out.push(("k8s.namespace.name", v.to_owned()));
        }
    }
    assert(out@.map_values(attribute_view()) =~= attributes(service@, opt_view(version), opt_view(pod), opt_view(namespace)));
    out
}

// Laws.

/// Every endpoint that is exported to carries a scheme.
pub proof fn law_endpoint_has_a_scheme(s: Seq<char>)
    ensures
        text::first_place(with_scheme(s), "://"@, 0) is Some,
{
    reveal_strlit("://");
    reveal_strlit("http://");
    let t = with_scheme(s);
    text::lemma_first_place(s, "grpc://"@, 0);
    text::lemma_first_place(t, "://"@, 0);
    if text::first_place(s, "://"@, 0) is None {
        assert(t.subrange(4, 7) =~= "://"@);
        assert(text::stands_at(t, "://"@, 4));
    } else {
        match text::first_place(s, "grpc://"@, 0) {
            Some(i) => {
                assert(t.subrange(i + 4, i + 7) =~= "://"@);
                assert(text::stands_at(t, "://"@, i + 4));
            },
            None => {},
        }
    }
}

/// An endpoint with a scheme that does not mention gRPC is taken as it is.
pub proof fn law_other_schemes_are_kept(s: Seq<char>)
    requires
        text::first_place(s, "://"@, 0) is Some,
        forall|i: int| !#[trigger] text::stands_at(s, "grpc://"@, i),
    ensures
        with_scheme(s) == s,
{
    text::lemma_first_place(s, "grpc://"@, 0);
}

} // verus!
