//! What the broker does with one incoming request: answer it directly, or
//! forward it to a configured service, and how the forwarded headers are
//! rewritten.
use vstd::prelude::*;

use crate::config::{
    blocked_header_names, injected_header_ok, is_blocked_header, service_wf, spec_service,
    BrokerConfig, BrokerView, ServiceView,
};
use crate::routing::{
    route_request_path, spec_path_matches_prefix, spec_route, spec_validate_forward_path,
    spec_validate_service_name, validate_forward_path, validate_service_name,
};
use crate::seqs::{keys_unique, pairs_view};
use crate::text::{chars_eq, chars_of, concat3, owned, views};

verus! {

/// A response the broker produces itself.
#[derive(Debug)]
pub struct Reply {
    /// HTTP status code.
    pub status: u16,
    /// Plain-text body.
    pub body: String,
}

/// Everything needed to forward a request to a service.
#[derive(Debug)]
pub struct ForwardPlan {
    pub service_name: String,
    /// The service's upstream base URL.
    pub base_url: String,
    /// The part of the incoming path that the upstream does not see.
    pub strip_prefix: String,
    /// The path forwarded to the upstream.
    pub forward_path: String,
    pub preserve_host: bool,
    pub timeout_ms: Option<u64>,
    /// Caller headers to remove, by lower-case name.
    pub strip_headers: Vec<String>,
    /// Headers to set, by lower-case name.
    pub inject_headers: Vec<(String, Vec<u8>)>,
}

/// What to do with a request.
#[derive(Debug)]
pub enum Decision {
    Respond(Reply),
    Forward(ForwardPlan),
}

/// A forward plan as plain values.
pub struct ForwardView {
    pub service_name: Seq<char>,
    pub base_url: Seq<char>,
    pub strip_prefix: Seq<char>,
    pub forward_path: Seq<char>,
    pub preserve_host: bool,
    pub timeout_ms: Option<u64>,
    pub strip_headers: Seq<Seq<char>>,
    pub inject_headers: Seq<(Seq<char>, Seq<u8>)>,
}

/// A decision as plain values.
pub enum DecisionView {
    Respond(u16, Seq<char>),
    Forward(ForwardView),
}

/// A decision, taken by views.
pub open spec fn decision_view(d: Decision) -> DecisionView {
    match d {
        Decision::Respond(r) => DecisionView::Respond(r.status, r.body@),
        Decision::Forward(p) => DecisionView::Forward(
            ForwardView {
                service_name: p.service_name@,
                base_url: p.base_url@,
                strip_prefix: p.strip_prefix@,
                forward_path: p.forward_path@,
                preserve_host: p.preserve_host,
                timeout_ms: p.timeout_ms,
                strip_headers: views(p.strip_headers@),
                inject_headers: pairs_view(p.inject_headers@),
            },
        ),
    }
}

/// Some allowed prefix of `s` admits `path`.
pub open spec fn spec_path_allowed(s: ServiceView, path: Seq<char>) -> bool {
    exists|i: int|
        0 <= i < s.allowed_path_prefixes.len() && spec_path_matches_prefix(
            path,
            #[trigger] s.allowed_path_prefixes[i],
        )
}

/// The broker's answer to a request with `method` for `path`, in the order of
/// its checks: health check, route, service name, known service, method,
/// forward path, path prefix; a request that passes them all is forwarded.
pub open spec fn spec_decide(c: crate::config::BrokerView, method: Seq<char>, path: Seq<char>) -> DecisionView {
    if path == "/healthz"@ {
        DecisionView::Respond(200, "ok\n"@)
    } else {
        match spec_route(c.proxy_prefix, path) {
            None => DecisionView::Respond(404, "not found\n"@),
            Some((svc, fwd, strip)) => match spec_validate_service_name(svc) {
                Err(m) => DecisionView::Respond(400, "invalid service name: "@ + m + "\n"@),
                Ok(_) => match spec_service(c, svc) {
                    None => DecisionView::Respond(404, "unknown service\n"@),
                    Some(s) => if !s.allowed_methods.contains(method) {
                        DecisionView::Respond(405, "method not allowed\n"@)
                    } else {
                        match spec_validate_forward_path(fwd) {
                            Err(m) => DecisionView::Respond(400, "invalid path: "@ + m + "\n"@),
                            Ok(_) => if !spec_path_allowed(s, fwd) {
                                DecisionView::Respond(403, "path not allowed\n"@)
                            } else {
                                DecisionView::Forward(
                                    ForwardView {
                                        service_name: svc,
                                        base_url: s.base_url,
                                        strip_prefix: strip,
                                        forward_path: fwd,
                                        preserve_host: s.preserve_host,
                                        timeout_ms: s.timeout_ms,
                                        strip_headers: s.strip_request_headers,
                                        inject_headers: s.inject_headers,
                                    },
                                )
                            },
                        }
                    },
                },
            },
        }
    }
}

/// A copy of `v`.
fn copy_texts(v: &Vec<String>) -> (r: Vec<String>)
    ensures
        views(r@) == views(v@),
{
    let mut r: Vec<String> = Vec::new();
    let mut i: usize = 0;
    while i < v.len()
        invariant
            i <= v@.len(),
            views(r@) == views(v@).take(i as int),
        decreases v@.len() - i,
    {
        let ghost before = views(r@);
        let item = v[i].clone();
        assert(item@ == v@[i as int]@);
        r.push(item);
        assert(views(r@) =~= before.push(v@[i as int]@));
        assert(views(r@) =~= views(v@).take(i + 1));
        i = i + 1;
    }
    assert(views(v@).take(v@.len() as int) =~= views(v@));
    r
}

/// A copy of the bytes `v`.
fn copy_bytes(v: &Vec<u8>) -> (r: Vec<u8>)
    ensures
        r@ == v@,
{
    let mut r: Vec<u8> = Vec::new();
    let mut i: usize = 0;
    while i < v.len()
        invariant
            i <= v@.len(),
            r@ == v@.take(i as int),
        decreases v@.len() - i,
    {
        r.push(v[i]);
        assert(r@ =~= v@.take(i + 1));
        i = i + 1;
    }
    assert(v@.take(v@.len() as int) =~= v@);
    r
}

/// A copy of the headers `v`.
fn copy_headers(v: &Vec<(String, Vec<u8>)>) -> (r: Vec<(String, Vec<u8>)>)
    ensures
        pairs_view(r@) == pairs_view(v@),
{
    let mut r: Vec<(String, Vec<u8>)> = Vec::new();
    let mut i: usize = 0;
    while i < v.len()
        invariant
            i <= v@.len(),
            pairs_view(r@) == pairs_view(v@).take(i as int),
        decreases v@.len() - i,
    {
        let ghost before = pairs_view(r@);
        let name = v[i].0.clone();
        let bytes = copy_bytes(&v[i].1);
        assert(name@ == v@[i as int].0@);
        r.push((name, bytes));
        assert(pairs_view(r@) =~= before.push((v@[i as int].0@, v@[i as int].1@)));
        assert(pairs_view(r@) =~= pairs_view(v@).take(i + 1));
        i = i + 1;
    }
    assert(pairs_view(v@).take(v@.len() as int) =~= pairs_view(v@));
    r
}

/// A reply with `status` and the literal `body`.
fn reply(status: u16, body: &str) -> (r: Decision)
    ensures
        decision_view(r) == DecisionView::Respond(status, body@),
{
    Decision::Respond(Reply { status, body: owned(body) })
}

/// Decides what to do with a request with `method` for `path`: answer the
/// health check, refuse what does not route to an allowed method and path of
/// a configured service, or forward.
pub fn decide_request(config: &BrokerConfig, method: &str, path: &str) -> (d: Decision)
    ensures
        decision_view(d) == spec_decide(config@, method@, path@),
{
    let healthz = chars_of("/healthz");
    if chars_eq(&chars_of(path), &healthz) {
        return reply(200, "ok\n");
    }
    let route = match route_request_path(config.proxy_prefix(), path) {
        Some(r) => r,
        None => {
            return reply(404, "not found\n");
        },
    };
    match validate_service_name(route.service_name.as_str()) {
        Ok(()) => {},
        Err(msg) => {
            let body = concat3("invalid service name: ", msg.as_str(), "\n");
            return Decision::Respond(Reply { status: 400, body });
        },
    }
    let service = match config.service(route.service_name.as_str()) {
        Some(s) => s,
        None => {
            return reply(404, "unknown service\n");
        },
    };
    if !service.method_allowed(method) {
        return reply(405, "method not allowed\n");
    }
    match validate_forward_path(route.forward_path.as_str()) {
        Ok(()) => {},
        Err(msg) => {
            let body = concat3("invalid path: ", msg.as_str(), "\n");
            return Decision::Respond(Reply { status: 400, body });
        },
    }
    if !service.path_allowed(route.forward_path.as_str()) {
        return reply(403, "path not allowed\n");
    }
    Decision::Forward(
        ForwardPlan {
            service_name: route.service_name,
            base_url: owned(service.base_url()),
            strip_prefix: route.strip_prefix,
            forward_path: route.forward_path,
            preserve_host: service.preserve_host(),
            timeout_ms: service.timeout_ms(),
            strip_headers: copy_texts(service.strip_request_headers()),
            inject_headers: copy_headers(service.inject_headers()),
        },
    )
}

/// The reply when the upstream request fails: 502 with a plain message.
pub fn upstream_failure_reply() -> (r: Reply)
    ensures
        r.status == 502,
        r.body@ == "upstream request failed\n"@,
{
    Reply { status: 502, body: owned("upstream request failed\n") }
}

// ---------------------------------------------------------------------------
// Rewriting the forwarded request's headers
// ---------------------------------------------------------------------------

/// `hs` without any header named `name` (`HeaderMap::remove`).
pub open spec fn remove_header(hs: Seq<(Seq<char>, Seq<u8>)>, name: Seq<char>) -> Seq<
    (Seq<char>, Seq<u8>),
>
    decreases hs.len(),
{
    if hs.len() == 0 {
        Seq::empty()
    } else {
        let r = remove_header(hs.drop_last(), name);
        if hs.last().0 == name {
            r
        } else {
            r.push(hs.last())
        }
    }
}

/// `hs` without any header named in `names`.
pub open spec fn strip_named(hs: Seq<(Seq<char>, Seq<u8>)>, names: Seq<Seq<char>>) -> Seq<
    (Seq<char>, Seq<u8>),
>
    decreases names.len(),
{
    if names.len() == 0 {
        hs
    } else {
        remove_header(strip_named(hs, names.drop_last()), names.last())
    }
}

/// `hs` with each header of `inj` set in turn (`HeaderMap::insert`: every
/// earlier value of that name is replaced by the one given).
pub open spec fn set_named(hs: Seq<(Seq<char>, Seq<u8>)>, inj: Seq<(Seq<char>, Seq<u8>)>) -> Seq<
    (Seq<char>, Seq<u8>),
>
    decreases inj.len(),
{
    if inj.len() == 0 {
        hs
    } else {
        remove_header(set_named(hs, inj.drop_last()), inj.last().0).push(inj.last())
    }
}

/// The headers sent upstream: the caller's headers with the stripped names
/// removed, then the injected headers set.
pub open spec fn spec_rewrite_headers(
    hs: Seq<(Seq<char>, Seq<u8>)>,
    strip: Seq<Seq<char>>,
    inject: Seq<(Seq<char>, Seq<u8>)>,
) -> Seq<(Seq<char>, Seq<u8>)> {
    set_named(strip_named(hs, strip), inject)
}

/// `hs` without the headers named `name`.
fn remove_named(hs: &Vec<(String, Vec<u8>)>, name: &String) -> (r: Vec<(String, Vec<u8>)>)
    ensures
        pairs_view(r@) == remove_header(pairs_view(hs@), name@),
{
    let ghost s = pairs_view(hs@);
    let mut r: Vec<(String, Vec<u8>)> = Vec::new();
    let mut i: usize = 0;
    assert(s.take(0) =~= Seq::<(Seq<char>, Seq<u8>)>::empty());
    assert(pairs_view(r@) =~= Seq::<(Seq<char>, Seq<u8>)>::empty());
    while i < hs.len()
        invariant
            i <= hs@.len(),
            s == pairs_view(hs@),
            pairs_view(r@) == remove_header(s.take(i as int), name@),
        decreases hs@.len() - i,
    {
        assert(s.take(i + 1).drop_last() =~= s.take(i as int));
        assert(s.take(i + 1).last() == s[i as int]);
        if hs[i].0 != *name {
            let ghost before = pairs_view(r@);
            let n = hs[i].0.clone();
            let b = copy_bytes(&hs[i].1);
            r.push((n, b));
            assert(pairs_view(r@) =~= before.push(s[i as int]));
        }
        i = i + 1;
    }
    assert(s.take(hs@.len() as int) =~= s);
    r
}

/// The headers to send upstream: `headers` (the caller's, by lower-case
/// name) without any header named in `strip`, then with each header of
/// `inject` set, replacing every caller value of that name.
pub fn rewrite_request_headers(
    headers: &Vec<(String, Vec<u8>)>,
    strip: &Vec<String>,
    inject: &Vec<(String, Vec<u8>)>,
) -> (r: Vec<(String, Vec<u8>)>)
    ensures
        pairs_view(r@) == spec_rewrite_headers(
            pairs_view(headers@),
            views(strip@),
            pairs_view(inject@),
        ),
{
    let ghost hs = pairs_view(headers@);
    let ghost ns = views(strip@);
    let ghost inj = pairs_view(inject@);
    let mut cur = copy_headers(headers);
    let mut i: usize = 0;
    assert(ns.take(0) =~= Seq::<Seq<char>>::empty());
    while i < strip.len()
        invariant
            i <= strip@.len(),
            ns == views(strip@),
            pairs_view(cur@) == strip_named(hs, ns.take(i as int)),
        decreases strip@.len() - i,
    {
        assert(ns.take(i + 1).drop_last() =~= ns.take(i as int));
        cur = remove_named(&cur, &strip[i]);
        i = i + 1;
    }
    assert(ns.take(strip@.len() as int) =~= ns);
    let ghost stripped = pairs_view(cur@);
    let mut j: usize = 0;
    assert(inj.take(0) =~= Seq::<(Seq<char>, Seq<u8>)>::empty());
    while j < inject.len()
        invariant
            j <= inject@.len(),
            inj == pairs_view(inject@),
            pairs_view(cur@) == set_named(stripped, inj.take(j as int)),
        decreases inject@.len() - j,
    {
        assert(inj.take(j + 1).drop_last() =~= inj.take(j as int));
        assert(inj.take(j + 1).last() == inj[j as int]);
        let mut next = remove_named(&cur, &inject[j].0);
        let ghost before = pairs_view(next@);
        let n = inject[j].0.clone();
        let b = copy_bytes(&inject[j].1);
        next.push((n, b));
        assert(pairs_view(next@) =~= before.push(inj[j as int]));
        cur = next;
        j = j + 1;
    }
    assert(inj.take(inject@.len() as int) =~= inj);
    cur
}

/// What `remove_header` keeps.
pub proof fn lemma_remove_header(hs: Seq<(Seq<char>, Seq<u8>)>, name: Seq<char>)
    ensures
        forall|e: (Seq<char>, Seq<u8>)| #[trigger]
            remove_header(hs, name).contains(e) <==> (hs.contains(e) && e.0 != name),
    decreases hs.len(),
{
    if hs.len() > 0 {
        lemma_remove_header(hs.drop_last(), name);
        let r = remove_header(hs.drop_last(), name);
        assert forall|e: (Seq<char>, Seq<u8>)| #[trigger] hs.contains(e) <==> (hs.drop_last().contains(
            e,
        ) || e == hs.last()) by {
            if hs.contains(e) && e != hs.last() {
                let i = choose|i: int| 0 <= i < hs.len() && hs[i] == e;
                assert(hs.drop_last()[i] == e);
            }
            if hs.drop_last().contains(e) {
                let i = choose|i: int| 0 <= i < hs.drop_last().len() && hs.drop_last()[i] == e;
                assert(hs[i] == e);
            }
            if e == hs.last() {
                assert(hs[hs.len() - 1] == e);
            }
        }
        if hs.last().0 != name {
            assert forall|e: (Seq<char>, Seq<u8>)| #[trigger] r.push(hs.last()).contains(e) <==> (
            r.contains(e) || e == hs.last()) by {
                if r.push(hs.last()).contains(e) && e != hs.last() {
                    let i = choose|i: int| 0 <= i < r.len() + 1 && r.push(hs.last())[i] == e;
                    assert(r[i] == e);
                }
                if r.contains(e) {
                    let i = choose|i: int| 0 <= i < r.len() && r[i] == e;
                    assert(r.push(hs.last())[i] == e);
                }
                if e == hs.last() {
                    assert(r.push(hs.last())[r.len() as int] == e);
                }
            }
        }
    }
}

/// What `strip_named` keeps.
pub proof fn lemma_strip_named(hs: Seq<(Seq<char>, Seq<u8>)>, names: Seq<Seq<char>>)
    ensures
        forall|e: (Seq<char>, Seq<u8>)| #[trigger]
            strip_named(hs, names).contains(e) <==> (hs.contains(e) && !names.contains(e.0)),
    decreases names.len(),
{
    if names.len() > 0 {
        lemma_strip_named(hs, names.drop_last());
        lemma_remove_header(strip_named(hs, names.drop_last()), names.last());
        assert forall|n: Seq<char>| #[trigger] names.contains(n) <==> (names.drop_last().contains(n)
            || n == names.last()) by {
            if names.contains(n) && n != names.last() {
                let i = choose|i: int| 0 <= i < names.len() && names[i] == n;
                assert(names.drop_last()[i] == n);
            }
            if names.drop_last().contains(n) {
                let i = choose|i: int| 0 <= i < names.drop_last().len() && names.drop_last()[i] == n;
                assert(names[i] == n);
            }
            if n == names.last() {
                assert(names[names.len() - 1] == n);
            }
        }
    } else {
        assert forall|e: (Seq<char>, Seq<u8>)| #[trigger]
            strip_named(hs, names).contains(e) <==> (hs.contains(e) && !names.contains(e.0)) by {
            if names.contains(e.0) {
                let i = choose|i: int| 0 <= i < names.len() && names[i] == e.0;
            }
        }
    }
}

/// The names of the headers in `hs`.
pub open spec fn header_names(hs: Seq<(Seq<char>, Seq<u8>)>) -> Seq<Seq<char>> {
    hs.map_values(|e: (Seq<char>, Seq<u8>)| e.0)
}

/// What `set_named` holds when the set headers have distinct names.
pub proof fn lemma_set_named(hs: Seq<(Seq<char>, Seq<u8>)>, inj: Seq<(Seq<char>, Seq<u8>)>)
    requires
        keys_unique(inj),
    ensures
        forall|e: (Seq<char>, Seq<u8>)| #[trigger]
            set_named(hs, inj).contains(e) <==> ((hs.contains(e) && !header_names(inj).contains(e.0))
                || inj.contains(e)),
    decreases inj.len(),
{
    if inj.len() > 0 {
        let pre = inj.drop_last();
        let last = inj.last();
        assert(keys_unique(pre)) by {
            assert forall|i: int, j: int|
                0 <= i < pre.len() && 0 <= j < pre.len() && i != j implies pre[i].0 != pre[j].0 by {
                assert(pre[i] == inj[i] && pre[j] == inj[j]);
            }
        }
        lemma_set_named(hs, pre);
        let h = set_named(hs, pre);
        lemma_remove_header(h, last.0);
        let r = remove_header(h, last.0);
        assert forall|e: (Seq<char>, Seq<u8>)| #[trigger]
            set_named(hs, inj).contains(e) <==> ((hs.contains(e) && !header_names(inj).contains(e.0))
                || inj.contains(e)) by {
            // membership in the pushed sequence
            if r.push(last).contains(e) && e != last {
                let i = choose|i: int| 0 <= i < r.len() + 1 && r.push(last)[i] == e;
                assert(r[i] == e);
            }
            if r.contains(e) {
                let i = choose|i: int| 0 <= i < r.len() && r[i] == e;
                assert(r.push(last)[i] == e);
            }
            assert(r.push(last)[r.len() as int] == last);
            // names of inj
            if header_names(inj).contains(e.0) && e.0 != last.0 {
                let i = choose|i: int| 0 <= i < header_names(inj).len() && header_names(inj)[i] == e.0;
                assert(header_names(pre)[i] == e.0);
            }
            if header_names(pre).contains(e.0) {
                let i = choose|i: int| 0 <= i < header_names(pre).len() && header_names(pre)[i] == e.0;
                assert(header_names(inj)[i] == e.0);
                assert(inj[i].0 != last.0) by {
                    assert(inj[inj.len() - 1] == last);
                }
            }
            assert(header_names(inj)[inj.len() - 1] == last.0);
            // entries of inj
            if inj.contains(e) && e != last {
                let i = choose|i: int| 0 <= i < inj.len() && inj[i] == e;
                assert(pre[i] == e);
                assert(e.0 != last.0) by {
                    assert(inj[inj.len() - 1] == last);
                }
            }
            if pre.contains(e) {
                let i = choose|i: int| 0 <= i < pre.len() && pre[i] == e;
                assert(inj[i] == e);
                assert(e.0 != last.0) by {
                    assert(inj[inj.len() - 1] == last);
                }
            }
            assert(inj[inj.len() - 1] == last);
        }
    } else {
        assert forall|e: (Seq<char>, Seq<u8>)| #[trigger]
            set_named(hs, inj).contains(e) <==> ((hs.contains(e) && !header_names(inj).contains(e.0))
                || inj.contains(e)) by {
            if header_names(inj).contains(e.0) {
                let i = choose|i: int| 0 <= i < header_names(inj).len() && header_names(inj)[i] == e.0;
            }
            if inj.contains(e) {
                let i = choose|i: int| 0 <= i < inj.len() && inj[i] == e;
            }
        }
    }
}

/// Header law of forwarding: with injected headers of distinct names,
/// (1) every injected header reaches the upstream, and it is the only header
/// of its name; (2) no header named in the strip list reaches the upstream
/// unless the broker injects it; (3) every other caller header reaches the
/// upstream unchanged; (4) nothing else does.
pub proof fn lemma_forwarded_headers(
    hs: Seq<(Seq<char>, Seq<u8>)>,
    strip: Seq<Seq<char>>,
    inject: Seq<(Seq<char>, Seq<u8>)>,
)
    requires
        keys_unique(inject),
    ensures
        ({
            let r = spec_rewrite_headers(hs, strip, inject);
            &&& forall|e: (Seq<char>, Seq<u8>)| #[trigger]
                inject.contains(e) ==> r.contains(e) && forall|f: (Seq<char>, Seq<u8>)|
                    r.contains(f) && f.0 == e.0 ==> f == e
            &&& forall|n: Seq<char>, f: (Seq<char>, Seq<u8>)|
                #[trigger] strip.contains(n) && !header_names(inject).contains(n) && #[trigger] r.contains(f)
                    ==> f.0 != n
            &&& forall|e: (Seq<char>, Seq<u8>)| #[trigger]
                hs.contains(e) && !strip.contains(e.0) && !header_names(inject).contains(e.0)
                    ==> r.contains(e)
            &&& forall|f: (Seq<char>, Seq<u8>)| #[trigger]
                r.contains(f) ==> hs.contains(f) || inject.contains(f)
        }),
{
    let s = strip_named(hs, strip);
    lemma_strip_named(hs, strip);
    lemma_set_named(s, inject);
    let r = spec_rewrite_headers(hs, strip, inject);
    assert forall|f: (Seq<char>, Seq<u8>)| inject.contains(f) implies #[trigger] header_names(
        inject,
    ).contains(f.0) by {
        let j = choose|j: int| 0 <= j < inject.len() && inject[j] == f;
        assert(header_names(inject)[j] == f.0);
    }
    assert forall|e: (Seq<char>, Seq<u8>)| #[trigger] inject.contains(e) implies r.contains(e)
        && forall|f: (Seq<char>, Seq<u8>)| r.contains(f) && f.0 == e.0 ==> f == e by {
        let i = choose|i: int| 0 <= i < inject.len() && inject[i] == e;
        assert(header_names(inject)[i] == e.0);
        assert forall|f: (Seq<char>, Seq<u8>)| r.contains(f) && f.0 == e.0 implies f == e by {
            assert(header_names(inject).contains(f.0));
            if inject.contains(f) {
                let j = choose|j: int| 0 <= j < inject.len() && inject[j] == f;
                if i != j {
                    assert(inject[i].0 != inject[j].0);
                }
            }
        }
    }
    assert forall|n: Seq<char>, f: (Seq<char>, Seq<u8>)|
        #[trigger] strip.contains(n) && !header_names(inject).contains(n) && #[trigger] r.contains(
            f,
        ) implies f.0 != n by {
        if f.0 == n && inject.contains(f) {
            assert(header_names(inject).contains(f.0));
        }
    }
}

/// Injected headers have distinct names once inserted into a table.
pub proof fn lemma_injected_unique(inject: Seq<(Seq<char>, Seq<u8>)>)
    ensures
        keys_unique(crate::seqs::upsert_all(inject)),
{
    crate::seqs::lemma_upsert_all_unique(inject);
}

// ---------------------------------------------------------------------------
// Laws of request handling
// ---------------------------------------------------------------------------

/// Forwarding law: a request is forwarded only when it is not the health
/// check, its path routes to a validly named, configured service, its method
/// is allowed there, its forward path is valid and admitted by an allowed
/// prefix; the plan carries that service's upstream, header rules and
/// options, and the forward path is what follows the strip prefix in the
/// incoming path.
pub proof fn lemma_forward_only_when_allowed(c: BrokerView, method: Seq<char>, path: Seq<char>)
    requires
        spec_decide(c, method, path) is Forward,
    ensures
        ({
            let p = spec_decide(c, method, path)->Forward_0;
            &&& path != "/healthz"@
            &&& spec_route(c.proxy_prefix, path) == Some((p.service_name, p.forward_path, p.strip_prefix))
            &&& spec_validate_service_name(p.service_name) is Ok
            &&& spec_validate_forward_path(p.forward_path) is Ok
            &&& spec_service(c, p.service_name) matches Some(s) && {
                &&& s.allowed_methods.contains(method)
                &&& spec_path_allowed(s, p.forward_path)
                &&& p.base_url == s.base_url
                &&& p.strip_headers == s.strip_request_headers
                &&& p.inject_headers == s.inject_headers
                &&& p.preserve_host == s.preserve_host
                &&& p.timeout_ms == s.timeout_ms
            }
            &&& (path == p.strip_prefix + p.forward_path || (p.forward_path == seq!['/'] && (path
                == p.strip_prefix || path == p.strip_prefix.push('/'))))
        }),
{
    crate::routing::lemma_route_reconstructs(c.proxy_prefix, path);
}

/// Health-check law: the broker's own health reply is given only for the
/// path `/healthz` itself; any other path, however it ends, is routed.
pub proof fn lemma_health_reply_only_for_healthz(c: BrokerView, method: Seq<char>, path: Seq<char>)
    requires
        spec_decide(c, method, path) == DecisionView::Respond(200, "ok\n"@),
    ensures
        path == "/healthz"@,
{
}

/// Forwarding completeness: a request other than the health check whose path
/// routes to a validly named, configured service, whose method that service
/// allows and whose forward path is valid and admitted by one of the
/// service's path prefixes, is forwarded with that service's upstream,
/// header rules and options.
pub proof fn lemma_forward_when_allowed(
    c: BrokerView,
    method: Seq<char>,
    path: Seq<char>,
    svc: Seq<char>,
    fwd: Seq<char>,
    strip: Seq<char>,
    s: ServiceView,
)
    requires
        path != "/healthz"@,
        spec_route(c.proxy_prefix, path) == Some((svc, fwd, strip)),
        spec_validate_service_name(svc) is Ok,
        spec_service(c, svc) == Some(s),
        s.allowed_methods.contains(method),
        spec_validate_forward_path(fwd) is Ok,
        spec_path_allowed(s, fwd),
    ensures
        spec_decide(c, method, path) == DecisionView::Forward(
            ForwardView {
                service_name: svc,
                base_url: s.base_url,
                strip_prefix: strip,
                forward_path: fwd,
                preserve_host: s.preserve_host,
                timeout_ms: s.timeout_ms,
                strip_headers: s.strip_request_headers,
                inject_headers: s.inject_headers,
            },
        ),
{
}

/// Credential law: for a well-formed service whose strip list names
/// `authorization` and `proxy-authorization` (the default), no
/// `proxy-authorization` header reaches the upstream, and every
/// `authorization` header that does is the one the broker injects.
pub proof fn lemma_caller_credentials_not_forwarded(s: ServiceView, hs: Seq<(Seq<char>, Seq<u8>)>)
    requires
        service_wf(s),
        s.strip_request_headers.contains("authorization"@),
        s.strip_request_headers.contains("proxy-authorization"@),
    ensures
        ({
            let r = spec_rewrite_headers(hs, s.strip_request_headers, s.inject_headers);
            &&& forall|f: (Seq<char>, Seq<u8>)| #[trigger] r.contains(f) ==> f.0 != "proxy-authorization"@
            &&& forall|f: (Seq<char>, Seq<u8>)| #[trigger]
                r.contains(f) && f.0 == "authorization"@ ==> s.inject_headers.contains(f)
        }),
{
    reveal_strlit("authorization");
    reveal_strlit("proxy-authorization");
    let inj = s.inject_headers;
    lemma_forwarded_headers(hs, s.strip_request_headers, inj);
    let r = spec_rewrite_headers(hs, s.strip_request_headers, inj);
    let pa = "proxy-authorization"@;
    assert(pa != "authorization"@) by {
        assert(pa.len() != "authorization"@.len());
    }
    assert(is_blocked_header(pa)) by {
        assert(blocked_header_names()[3] == pa);
        assert(crate::text::eq_ignore_ascii_case(pa, blocked_header_names()[3]));
    }
    assert(!header_names(inj).contains(pa)) by {
        if header_names(inj).contains(pa) {
            let j = choose|j: int| 0 <= j < header_names(inj).len() && header_names(inj)[j] == pa;
            assert(inj.contains(inj[j]));
            assert(injected_header_ok(inj[j]));
        }
    }
    assert forall|f: (Seq<char>, Seq<u8>)| #[trigger] r.contains(f) implies f.0 != pa by {
        if f.0 == pa {
            assert(s.strip_request_headers.contains(pa));
        }
    }
    assert forall|f: (Seq<char>, Seq<u8>)| #[trigger]
        r.contains(f) && f.0 == "authorization"@ implies inj.contains(f) by {
        if !header_names(inj).contains(f.0) {
            assert(s.strip_request_headers.contains(f.0));
        } else {
            let j = choose|j: int| 0 <= j < header_names(inj).len() && header_names(inj)[j] == f.0;
            assert(inj.contains(inj[j]));
        }
    }
}

/// Default credential law: for any service that resolves with the default
/// strip list, the caller's `proxy-authorization` never reaches the upstream,
/// and the only `authorization` that does is the one the broker injects.
pub proof fn lemma_default_service_hides_caller_credentials(
    raw: crate::config::RawServiceConfig,
    name: Seq<char>,
    env: Seq<(Seq<char>, Seq<char>)>,
    hs: Seq<(Seq<char>, Seq<u8>)>,
)
    requires
        crate::config::spec_resolve_service(raw, name, env) is Ok,
        views(raw.strip_request_headers@) == crate::config::spec_default_strip_request_headers(),
    ensures
        ({
            let v = crate::config::spec_resolve_service(raw, name, env)->Ok_0;
            let r = spec_rewrite_headers(hs, v.strip_request_headers, v.inject_headers);
            &&& forall|f: (Seq<char>, Seq<u8>)| #[trigger] r.contains(f) ==> f.0 != "proxy-authorization"@
            &&& forall|f: (Seq<char>, Seq<u8>)| #[trigger]
                r.contains(f) && f.0 == "authorization"@ ==> v.inject_headers.contains(f)
        }),
{
    let v = crate::config::spec_resolve_service(raw, name, env)->Ok_0;
    crate::config::lemma_default_strip_list(name);
    crate::config::lemma_resolved_service_wf(raw, name, env);
    let d = crate::config::spec_default_strip_request_headers();
    assert(v.strip_request_headers == d);
    assert(d[0] == "authorization"@);
    assert(d[1] == "proxy-authorization"@);
    lemma_caller_credentials_not_forwarded(v, hs);
}

} // verus!
