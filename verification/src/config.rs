//! Broker configuration: the raw form read from TOML, the checks it must pass
//! and the resolved form the broker runs with.
use vstd::prelude::*;
use vstd::utf8::encode_utf8;

use crate::env::{env_lookup, Environment};
use crate::error::{config_error, BrokerError};
use crate::outside::{
    base64_encode, base64_standard, header_name_ok, header_name_text, header_value_ok, method_ok,
    parse_header_name_text, parse_header_value, parse_method, parse_uri, uri_parse, UriParts,
};
use crate::seqs::{
    dedup, keys_unique, key_index, key_index_from, lemma_dedup, lemma_map_all_err, lemma_map_all_ok,
    lemma_upsert_all_contains, lemma_upsert_all_last, lemma_upsert_all_unique, map_all, pairs_view, upsert_all,
    upsert_vec,
};
use crate::text::{
    chars_eq_ignore_case, chars_of, concat2, concat3, eq_ignore_ascii_case, has_char, owned,
    starts_with, string_of, trim_end, trim_end_len, views,
};

verus! {

/// An optional `String`, taken by its view.
pub open spec fn opt_view(o: Option<String>) -> Option<Seq<char>> {
    match o {
        Some(s) => Some(s@),
        None => None,
    }
}

/// A `Result` of `String`s, taken by views.
pub open spec fn text_result_view(r: Result<String, String>) -> Result<Seq<char>, Seq<char>> {
    match r {
        Ok(s) => Ok(s@),
        Err(e) => Err(e@),
    }
}

// ---------------------------------------------------------------------------
// Defaults
// ---------------------------------------------------------------------------

/// The proxy prefix used when the configuration names none: `/proxy`.
pub fn default_proxy_prefix() -> (s: String)
    ensures
        s@ == "/proxy"@,
{
    owned("/proxy")
}

/// The caller headers stripped when the configuration names none.
pub open spec fn spec_default_strip_request_headers() -> Seq<Seq<char>> {
    seq!["authorization"@, "proxy-authorization"@]
}

/// The caller headers stripped when the configuration names none:
/// `authorization` and `proxy-authorization`.
pub fn default_strip_request_headers() -> (v: Vec<String>)
    ensures
        views(v@) == spec_default_strip_request_headers(),
{
    let mut v: Vec<String> = Vec::new();
    v.push(owned("authorization"));
    v.push(owned("proxy-authorization"));
    assert(views(v@) =~= spec_default_strip_request_headers());
    v
}

/// `s` is a valid header name already in lower case.
proof fn lemma_lower_name(s: Seq<char>)
    requires
        forall|i: int| 0 <= i < s.len() ==> ('a' <= #[trigger] s[i] && s[i] <= 'z') || s[i] == '-',
        1 <= s.len() <= 65535,
    ensures
        header_name_ok(s),
        header_name_text(s) == s,
{
    assert(header_name_text(s) =~= s);
}

/// Default law: the default strip list resolves to itself, so by default the
/// broker strips exactly the caller's `authorization` and
/// `proxy-authorization` headers.
pub proof fn lemma_default_strip_list(service_name: Seq<char>)
    ensures
        map_all(spec_default_strip_request_headers(), strip_header_checker(service_name)) == Ok::<
            Seq<Seq<char>>,
            Seq<char>,
        >(spec_default_strip_request_headers()),
{
    reveal_strlit("authorization");
    reveal_strlit("proxy-authorization");
    let a = "authorization"@;
    let p = "proxy-authorization"@;
    assert(a =~= seq!['a', 'u', 't', 'h', 'o', 'r', 'i', 'z', 'a', 't', 'i', 'o', 'n']);
    assert(p =~= seq![
        'p', 'r', 'o', 'x', 'y', '-', 'a', 'u', 't', 'h', 'o', 'r', 'i', 'z', 'a', 't', 'i', 'o', 'n',
    ]);
    lemma_lower_name(a);
    lemma_lower_name(p);
    let d = spec_default_strip_request_headers();
    let f = strip_header_checker(service_name);
    assert(d.drop_last().drop_last() =~= Seq::<Seq<char>>::empty());
    assert(d.drop_last() =~= seq![a]);
    assert(seq![a].drop_last() =~= Seq::<Seq<char>>::empty());
    assert(f(a) == Ok::<Seq<char>, Seq<char>>(a));
    assert(f(p) == Ok::<Seq<char>, Seq<char>>(p));
    assert(map_all(Seq::<Seq<char>>::empty(), f) == Ok::<Seq<Seq<char>>, Seq<char>>(
        Seq::empty(),
    ));
    assert(seq![a].last() == a);
    assert(Seq::<Seq<char>>::empty().push(a) =~= seq![a]);
    assert(map_all(seq![a], f) == Ok::<Seq<Seq<char>>, Seq<char>>(seq![a]));
    assert(d.last() == p);
    assert(seq![a].push(p) =~= d);
}

// ---------------------------------------------------------------------------
// validate_proxy_prefix
// ---------------------------------------------------------------------------

/// The proxy prefix with trailing `/` removed, or the error text.
pub open spec fn spec_validate_proxy_prefix(prefix: Seq<char>) -> Result<Seq<char>, Seq<char>> {
    let p = trim_end(prefix, '/');
    if p.len() == 0 || !starts_with(p, seq!['/']) {
        Err("proxy_prefix must start with `/`"@)
    } else if p.contains('?') || p.contains('#') {
        Err("proxy_prefix must be a path, not a URL"@)
    } else {
        Ok(p)
    }
}

/// Normalises the proxy prefix (trailing `/` removed) and checks that it is a
/// path: it starts with `/` and holds no `?` or `#`.
pub fn validate_proxy_prefix(prefix: &str) -> (r: Result<String, BrokerError>)
    ensures
        match r {
            Ok(p) => spec_validate_proxy_prefix(prefix@) == Ok::<Seq<char>, Seq<char>>(p@),
            Err(e) => e matches BrokerError::Config(m) && spec_validate_proxy_prefix(prefix@)
                == Err::<Seq<char>, Seq<char>>(m@),
        },
{
    let v = chars_of(prefix);
    let n = trim_end_len(&v, '/');
    let p = string_of(&v, 0, n);
    let pv = chars_of(p.as_str());
    if pv.len() == 0 || pv[0] != '/' {
        proof {
            if pv@.len() > 0 && starts_with(pv@, seq!['/']) {
                assert(pv@.take(1)[0] == pv@[0]);
            }
        }
        return Err(config_error(owned("proxy_prefix must start with `/`")));
    }
    assert(pv@.take(1) =~= seq!['/']);
    if has_char(&pv, '?') || has_char(&pv, '#') {
        return Err(config_error(owned("proxy_prefix must be a path, not a URL")));
    }
    Ok(p)
}

/// `trim_end` leaves no trailing `c`.
proof fn lemma_trim_end_last(s: Seq<char>, c: char)
    ensures
        trim_end(s, c).len() == 0 || trim_end(s, c).last() != c,
        trim_end(trim_end(s, c), c) == trim_end(s, c),
    decreases s.len(),
{
    if s.len() > 0 && s.last() == c {
        lemma_trim_end_last(s.drop_last(), c);
    }
}

/// Normalisation law: a proxy prefix that passes the check is returned in a
/// form that passes it again unchanged.
pub proof fn lemma_proxy_prefix_idempotent(prefix: Seq<char>)
    requires
        spec_validate_proxy_prefix(prefix) is Ok,
    ensures
        spec_validate_proxy_prefix(spec_validate_proxy_prefix(prefix)->Ok_0) == spec_validate_proxy_prefix(
            prefix,
        ),
{
    lemma_trim_end_last(prefix, '/');
}

// ---------------------------------------------------------------------------
// resolve_secret_source
// ---------------------------------------------------------------------------

/// The secret named by a `value` / `env` pair, or the error text. Exactly one
/// of the two must be given; the value, or the variable's value, must not be
/// empty.
pub open spec fn spec_resolve_secret(
    label: Seq<char>,
    value: Option<Seq<char>>,
    env_name: Option<Seq<char>>,
    env: Seq<(Seq<char>, Seq<char>)>,
) -> Result<Seq<char>, Seq<char>> {
    match (value, env_name) {
        (Some(_), Some(_)) => Err(label + " must use either value or env, not both"@),
        (Some(v), None) => if v.len() == 0 {
            Err(label + " value must not be empty"@)
        } else {
            Ok(v)
        },
        (None, Some(n)) => if n.len() == 0 {
            Err(label + " env name must not be empty"@)
        } else {
            match env_lookup(env, n) {
                None => Err(label + " env var `"@ + n + "` is missing"@),
                Some(x) => if x.len() == 0 {
                    Err(label + " env var `"@ + n + "` must not be empty"@)
                } else {
                    Ok(x)
                },
            }
        },
        (None, None) => Err(label + " must provide value or env"@),
    }
}

/// Resolves a secret given inline (`value`) or by environment variable name
/// (`env_name`), looked up in `env`.
pub fn resolve_secret_source(
    label: &str,
    value: Option<String>,
    env_name: Option<String>,
    env: &Environment,
) -> (r: Result<String, String>)
    ensures
        text_result_view(r) == spec_resolve_secret(label@, opt_view(value), opt_view(env_name), env@),
{
    match (value, env_name) {
        (Some(_), Some(_)) => Err(concat2(label, " must use either value or env, not both")),
        (Some(value), None) => {
            if value.as_str().is_empty() {
                Err(concat2(label, " value must not be empty"))
            } else {
                Ok(value)
            }
        },
        (None, Some(env_name)) => {
            if env_name.as_str().is_empty() {
                Err(concat2(label, " env name must not be empty"))
            } else {
                match env.lookup(env_name.as_str()) {
                    None => {
                        let mut m = concat2(label, " env var `");
                        m.append(env_name.as_str());
                        m.append("` is missing");
                        Err(m)
                    },
                    Some(x) => {
                        if x.as_str().is_empty() {
                            let mut m = concat2(label, " env var `");
                            m.append(env_name.as_str());
                            m.append("` must not be empty");
                            Err(m)
                        } else {
                            Ok(x)
                        }
                    },
                }
            }
        },
        (None, None) => Err(concat2(label, " must provide value or env")),
    }
}

// ---------------------------------------------------------------------------
// Header names
// ---------------------------------------------------------------------------

/// Header names that the broker or the HTTP stack manage, which the
/// configuration may not inject.
pub open spec fn blocked_header_names() -> Seq<Seq<char>> {
    seq![
        "connection"@,
        "content-length"@,
        "host"@,
        "proxy-authorization"@,
        "te"@,
        "trailer"@,
        "transfer-encoding"@,
        "upgrade"@,
    ]
}

/// `name` equals a blocked header name, ignoring ASCII case.
pub open spec fn is_blocked_header(name: Seq<char>) -> bool {
    exists|i: int|
        0 <= i < blocked_header_names().len() && eq_ignore_ascii_case(
            name,
            #[trigger] blocked_header_names()[i],
        )
}

/// The outcome of checking that a header may be injected.
pub open spec fn spec_ensure_injectable(name: Seq<char>) -> Result<(), Seq<char>> {
    if is_blocked_header(name) {
        Err("header `"@ + name + "` is managed by the broker or HTTP stack"@)
    } else {
        Ok(())
    }
}

/// Refuses to inject a header that the broker or the HTTP stack manage
/// (connection, content-length, host, proxy-authorization, te, trailer,
/// transfer-encoding, upgrade), compared ignoring ASCII case.
pub fn ensure_config_injectable_header(name: &str) -> (r: Result<(), String>)
    ensures
        crate::routing::unit_result_view(r) == spec_ensure_injectable(name@),
{
    let blocked: Vec<&str> = vec![
        "connection",
        "content-length",
        "host",
        "proxy-authorization",
        "te",
        "trailer",
        "transfer-encoding",
        "upgrade",
    ];
    assert(blocked@.map_values(|b: &str| b@) =~= blocked_header_names());
    let nv = chars_of(name);
    let mut i: usize = 0;
    while i < blocked.len()
        invariant
            i <= blocked@.len(),
            nv@ == name@,
            blocked@.map_values(|b: &str| b@) == blocked_header_names(),
            forall|k: int| 0 <= k < i ==> !eq_ignore_ascii_case(name@, #[trigger] blocked_header_names()[k]),
        decreases blocked@.len() - i,
    {
        let bv = chars_of(blocked[i]);
        assert(bv@ == blocked_header_names()[i as int]);
        if chars_eq_ignore_case(&nv, &bv) {
            return Err(concat3("header `", name, "` is managed by the broker or HTTP stack"));
        }
        i = i + 1;
    }
    Ok(())
}

/// The outcome of reading `raw` as a header name: the lower-case name, or the
/// error text.
pub open spec fn spec_parse_header_name(raw: Seq<char>) -> Result<Seq<char>, Seq<char>> {
    if header_name_ok(raw) {
        Ok(header_name_text(raw))
    } else {
        Err("invalid header name `"@ + raw + "`: "@ + "invalid HTTP header name"@)
    }
}

/// Reads `raw` as an HTTP header name (`http::HeaderName`), in lower case.
pub fn parse_header_name(raw: &str) -> (r: Result<String, String>)
    ensures
        text_result_view(r) == spec_parse_header_name(raw@),
{
    match parse_header_name_text(raw) {
        Ok(name) => Ok(name),
        Err(err) => {
            let mut m = concat3("invalid header name `", raw, "`: ");
            m.append(err.as_str());
            Err(m)
        },
    }
}

// ---------------------------------------------------------------------------
// parse_base_url
// ---------------------------------------------------------------------------

/// The outcome of checking a base URL `raw` once parsing it has given
/// `parsed` (its components, or the parse error's text).
pub open spec fn spec_base_url_from_parts(
    raw: Seq<char>,
    parsed: Result<UriParts, Seq<char>>,
) -> Result<Seq<char>, Seq<char>> {
    match parsed {
        Err(e) => Err("invalid base_url `"@ + raw + "`: "@ + e),
        Ok(p) => if !p.has_scheme || !p.has_authority {
            Err("base_url must include scheme and authority"@)
        } else if p.has_query {
            Err("base_url must not include query"@)
        } else {
            Ok(raw)
        },
    }
}

/// The outcome of checking a service's upstream base URL.
pub open spec fn spec_parse_base_url(raw: Seq<char>) -> Result<Seq<char>, Seq<char>> {
    if raw.contains('#') {
        Err("base_url must not include fragment"@)
    } else {
        spec_base_url_from_parts(raw, uri_parse(raw))
    }
}

/// A parse outcome whose error is a `String`, with the error taken by its view.
pub open spec fn parts_result_view(r: Result<UriParts, String>) -> Result<UriParts, Seq<char>> {
    match r {
        Ok(p) => Ok(p),
        Err(e) => Err(e@),
    }
}

/// Decides on the base URL `raw` from the outcome of parsing it: a parse
/// error is reported with the URL; an accepted URL has a scheme and an
/// authority and no query, and its text is kept.
pub fn base_url_from_parts(raw: &str, parsed: Result<UriParts, String>) -> (r: Result<
    String,
    String,
>)
    ensures
        text_result_view(r) == spec_base_url_from_parts(raw@, parts_result_view(parsed)),
{
    match parsed {
        Err(err) => {
            let mut m = concat3("invalid base_url `", raw, "`: ");
            m.append(err.as_str());
            Err(m)
        },
        Ok(parts) => {
            if !parts.has_scheme || !parts.has_authority {
                Err(owned("base_url must include scheme and authority"))
            } else if parts.has_query {
                Err(owned("base_url must not include query"))
            } else {
                Ok(owned(raw))
            }
        },
    }
}

/// Accepts an absolute URL (scheme and authority) without query or fragment
/// as a service's upstream base; the URL's text is kept.
pub fn parse_base_url(raw: &str) -> (r: Result<String, String>)
    ensures
        text_result_view(r) == spec_parse_base_url(raw@),
{
    let rv = chars_of(raw);
    if has_char(&rv, '#') {
        return Err(owned("base_url must not include fragment"));
    }
    base_url_from_parts(raw, parse_uri(raw))
}

// ---------------------------------------------------------------------------
// Lists of methods, path prefixes and header names
// ---------------------------------------------------------------------------

/// A list of `String`s, or an error text, taken by views.
pub open spec fn texts_result_view(r: Result<Vec<String>, String>) -> Result<
    Seq<Seq<char>>,
    Seq<char>,
> {
    match r {
        Ok(v) => Ok(views(v@)),
        Err(e) => Err(e@),
    }
}

/// Whether `v` holds a string equal to `s`.
fn contains_text(v: &Vec<String>, s: &String) -> (b: bool)
    ensures
        b == views(v@).contains(s@),
{
    let mut i: usize = 0;
    while i < v.len()
        invariant
            i <= v@.len(),
            forall|k: int| 0 <= k < i ==> v@[k]@ != s@,
        decreases v@.len() - i,
    {
        if v[i] == *s {
            assert(views(v@)[i as int] == s@);
            return true;
        }
        i = i + 1;
    }
    proof {
        if views(v@).contains(s@) {
            let k = choose|k: int| 0 <= k < views(v@).len() && views(v@)[k] == s@;
            assert(v@[k]@ == s@);
        }
    }
    false
}

/// The check made on one allowed method.
pub open spec fn spec_check_method(v: Seq<char>) -> Result<Seq<char>, Seq<char>> {
    if !method_ok(v) {
        Err("invalid HTTP method `"@ + v + "`: "@ + "invalid HTTP method"@)
    } else if v == "CONNECT"@ {
        Err("CONNECT is not supported by this broker"@)
    } else {
        Ok(v)
    }
}

/// `spec_check_method` as a function value.
pub open spec fn method_checker() -> spec_fn(Seq<char>) -> Result<Seq<char>, Seq<char>> {
    |v: Seq<char>| spec_check_method(v)
}

/// The outcome of reading the allowed methods: each distinct method once.
pub open spec fn spec_parse_methods(raw: Seq<Seq<char>>) -> Result<Seq<Seq<char>>, Seq<char>> {
    if raw.len() == 0 {
        Err("allowed_methods must not be empty"@)
    } else {
        match map_all(raw, method_checker()) {
            Err(e) => Err(e),
            Ok(ms) => Ok(dedup(ms)),
        }
    }
}

/// Reads the allowed methods: at least one, each a valid HTTP method and not
/// `CONNECT`; the result is their set, each method once.
pub fn parse_methods(raw: &Vec<String>) -> (r: Result<Vec<String>, String>)
    ensures
        texts_result_view(r) == spec_parse_methods(views(raw@)),
{
    if raw.len() == 0 {
        return Err(owned("allowed_methods must not be empty"));
    }
    let ghost s = views(raw@);
    let connect = owned("CONNECT");
    let mut out: Vec<String> = Vec::new();
    let mut i: usize = 0;
    assert(s.take(0) =~= Seq::<Seq<char>>::empty());
    assert(views(out@) =~= Seq::<Seq<char>>::empty());
    while i < raw.len()
        invariant
            i <= raw@.len(),
            s == views(raw@),
            connect@ == "CONNECT"@,
            map_all(s.take(i as int), method_checker()) == Ok::<Seq<Seq<char>>, Seq<char>>(
                s.take(i as int),
            ),
            views(out@) == dedup(s.take(i as int)),
        decreases raw@.len() - i,
    {
        let value = &raw[i];
        assert(s.take(i + 1).drop_last() =~= s.take(i as int));
        assert(s.take(i + 1).last() == value@);
        match parse_method(value.as_str()) {
            Err(err) => {
                let mut m = concat3("invalid HTTP method `", value.as_str(), "`: ");
                m.append(err.as_str());
                proof {
                    lemma_map_all_err(s, method_checker(), i + 1);
                }
                return Err(m);
            },
            Ok(method) => {
                if method == connect {
                    proof {
                        lemma_map_all_err(s, method_checker(), i + 1);
                    }
                    return Err(owned("CONNECT is not supported by this broker"));
                }
                let present = contains_text(&out, &method);
                if !present {
                    out.push(method);
                    assert(views(out@) =~= dedup(s.take(i as int)).push(value@));
                }
                assert(s.take(i as int).push(value@) =~= s.take(i + 1));
            },
        }
        i = i + 1;
    }
    assert(s.take(raw@.len() as int) =~= s);
    Ok(out)
}

/// The check made on one allowed path prefix.
pub open spec fn spec_check_path_prefix(p: Seq<char>) -> Result<Seq<char>, Seq<char>> {
    if !starts_with(p, seq!['/']) {
        Err("path prefix `"@ + p + "` must start with `/`"@)
    } else if p.contains('?') || p.contains('#') {
        Err("path prefix `"@ + p + "` must not contain query or fragment"@)
    } else {
        Ok(p)
    }
}

/// `spec_check_path_prefix` as a function value.
pub open spec fn path_prefix_checker() -> spec_fn(Seq<char>) -> Result<Seq<char>, Seq<char>> {
    |p: Seq<char>| spec_check_path_prefix(p)
}

/// The outcome of reading the allowed path prefixes.
pub open spec fn spec_parse_path_prefixes(raw: Seq<Seq<char>>) -> Result<
    Seq<Seq<char>>,
    Seq<char>,
> {
    if raw.len() == 0 {
        Err("allowed_path_prefixes must not be empty"@)
    } else {
        map_all(raw, path_prefix_checker())
    }
}

/// Reads the allowed path prefixes: at least one, each starting with `/` and
/// holding no `?` or `#`.
pub fn parse_path_prefixes(raw: &Vec<String>) -> (r: Result<Vec<String>, String>)
    ensures
        texts_result_view(r) == spec_parse_path_prefixes(views(raw@)),
{
    if raw.len() == 0 {
        return Err(owned("allowed_path_prefixes must not be empty"));
    }
    let ghost s = views(raw@);
    let mut out: Vec<String> = Vec::new();
    let mut i: usize = 0;
    assert(s.take(0) =~= Seq::<Seq<char>>::empty());
    assert(views(out@) =~= Seq::<Seq<char>>::empty());
    while i < raw.len()
        invariant
            i <= raw@.len(),
            s == views(raw@),
            map_all(s.take(i as int), path_prefix_checker()) == Ok::<
                Seq<Seq<char>>,
                Seq<char>,
            >(views(out@)),
            views(out@) == s.take(i as int),
        decreases raw@.len() - i,
    {
        let prefix = &raw[i];
        assert(s.take(i + 1).drop_last() =~= s.take(i as int));
        assert(s.take(i + 1).last() == prefix@);
        let pv = chars_of(prefix.as_str());
        if !(pv.len() > 0 && pv[0] == '/') {
            proof {
                if starts_with(prefix@, seq!['/']) {
                    assert(prefix@.take(1)[0] == prefix@[0]);
                }
                lemma_map_all_err(s, path_prefix_checker(), i + 1);
            }
            return Err(concat3("path prefix `", prefix.as_str(), "` must start with `/`"));
        }
        assert(prefix@.take(1) =~= seq!['/']);
        if has_char(&pv, '?') || has_char(&pv, '#') {
            proof {
                lemma_map_all_err(s, path_prefix_checker(), i + 1);
            }
            return Err(
                concat3("path prefix `", prefix.as_str(), "` must not contain query or fragment"),
            );
        }
        let ghost before = views(out@);
        out.push(prefix.clone());
        assert(path_prefix_checker()(prefix@) == Ok::<Seq<char>, Seq<char>>(prefix@));
        assert(views(out@) =~= before.push(prefix@));
        assert(views(out@) =~= s.take(i + 1));
        i = i + 1;
    }
    assert(s.take(raw@.len() as int) =~= s);
    Ok(out)
}

/// The check made on one header name that callers may not pass upstream.
pub open spec fn spec_check_strip_header(service_name: Seq<char>, n: Seq<char>) -> Result<
    Seq<char>,
    Seq<char>,
> {
    match spec_parse_header_name(n) {
        Ok(name) => Ok(name),
        Err(e) => Err("invalid strip_request_headers entry for `"@ + service_name + "`: "@ + e),
    }
}

/// `spec_check_strip_header` for one service, as a function value.
pub open spec fn strip_header_checker(service_name: Seq<char>) -> spec_fn(Seq<char>) -> Result<
    Seq<char>,
    Seq<char>,
> {
    |n: Seq<char>| spec_check_strip_header(service_name, n)
}

/// Reads the header names that are removed from callers' requests, each in
/// lower case.
pub fn parse_strip_request_headers(raw: &Vec<String>, service_name: &str) -> (r: Result<
    Vec<String>,
    String,
>)
    ensures
        texts_result_view(r) == map_all(views(raw@), strip_header_checker(service_name@)),
{
    let ghost s = views(raw@);
    let mut out: Vec<String> = Vec::new();
    let mut i: usize = 0;
    assert(s.take(0) =~= Seq::<Seq<char>>::empty());
    assert(views(out@) =~= Seq::<Seq<char>>::empty());
    while i < raw.len()
        invariant
            i <= raw@.len(),
            s == views(raw@),
            map_all(s.take(i as int), strip_header_checker(service_name@)) == Ok::<
                Seq<Seq<char>>,
                Seq<char>,
            >(views(out@)),
        decreases raw@.len() - i,
    {
        let raw_name = &raw[i];
        assert(s.take(i + 1).drop_last() =~= s.take(i as int));
        assert(s.take(i + 1).last() == raw_name@);
        match parse_header_name(raw_name.as_str()) {
            Err(err) => {
                let mut m = concat3("invalid strip_request_headers entry for `", service_name, "`: ");
                m.append(err.as_str());
                proof {
                    lemma_map_all_err(s, strip_header_checker(service_name@), i + 1);
                }
                return Err(m);
            },
            Ok(name) => {
                let ghost before = views(out@);
                assert(strip_header_checker(service_name@)(raw_name@) == Ok::<Seq<char>, Seq<char>>(
                    name@,
                ));
                out.push(name);
                assert(views(out@) =~= before.push(name@));
            },
        }
        i = i + 1;
    }
    assert(s.take(raw@.len() as int) =~= s);
    Ok(out)
}

// ---------------------------------------------------------------------------
// Injected headers: raw forms and their resolution
// ---------------------------------------------------------------------------

/// An extra header to inject, as configured.
pub struct RawHeaderConfig {
    pub name: String,
    pub value: Option<String>,
    pub value_env: Option<String>,
}

/// The authentication header to inject, as configured.
pub enum RawAuthConfig {
    Bearer { token: Option<String>, token_env: Option<String> },
    Basic {
        username: Option<String>,
        username_env: Option<String>,
        password: Option<String>,
        password_env: Option<String>,
    },
    Header { name: String, value: Option<String>, value_env: Option<String> },
}

/// A header `(name, value bytes)`, or an error text, taken by views.
pub open spec fn entry_result_view(r: Result<(String, Vec<u8>), String>) -> Result<
    (Seq<char>, Seq<u8>),
    Seq<char>,
> {
    match r {
        Ok(e) => Ok((e.0@, e.1@)),
        Err(e) => Err(e@),
    }
}

/// A copy of `o`.
fn clone_opt(o: &Option<String>) -> (r: Option<String>)
    ensures
        r == *o,
{
    match o {
        Some(s) => Some(s.clone()),
        None => None,
    }
}

/// The header `name: text`, where the text must be a valid header value.
pub open spec fn spec_header_entry(name: Seq<char>, text: Seq<char>, err_prefix: Seq<char>) -> Result<
    (Seq<char>, Seq<u8>),
    Seq<char>,
> {
    if header_value_ok(encode_utf8(text)) {
        Ok((name, encode_utf8(text)))
    } else {
        Err(err_prefix + "failed to parse header value"@)
    }
}

/// The outcome of resolving one extra header of the service `service_name`.
pub open spec fn spec_resolve_header(
    h: RawHeaderConfig,
    service_name: Seq<char>,
    env: Seq<(Seq<char>, Seq<char>)>,
) -> Result<(Seq<char>, Seq<u8>), Seq<char>> {
    match spec_parse_header_name(h.name@) {
        Err(e) => Err(e),
        Ok(n) => match spec_ensure_injectable(n) {
            Err(e) => Err(e),
            Ok(_) => match spec_resolve_secret(
                "service `"@ + service_name + "` header `"@ + h.name@ + "`"@,
                opt_view(h.value),
                opt_view(h.value_env),
                env,
            ) {
                Err(e) => Err(e),
                Ok(v) => spec_header_entry(n, v, "invalid header `"@ + h.name@ + "` value: "@),
            },
        },
    }
}

/// Builds the header `name: text`, prefixing a value error with `err_prefix`.
fn header_entry(name: String, text: &str, err_prefix: &str) -> (r: Result<(String, Vec<u8>), String>)
    ensures
        entry_result_view(r) == spec_header_entry(name@, text@, err_prefix@),
{
    match parse_header_value(text) {
        Ok(bytes) => Ok((name, bytes)),
        Err(err) => Err(concat2(err_prefix, err.as_str())),
    }
}

impl RawHeaderConfig {
    /// Resolves this extra header of the service `service_name`: a valid,
    /// injectable name (in lower case) and a valid value taken inline or from
    /// the environment.
    pub fn resolve(&self, service_name: &str, env: &Environment) -> (r: Result<
        (String, Vec<u8>),
        String,
    >)
        ensures
            entry_result_view(r) == spec_resolve_header(*self, service_name@, env@),
    {
        let name = match parse_header_name(self.name.as_str()) {
            Ok(n) => n,
            Err(e) => {
                return Err(e);
            },
        };
        match ensure_config_injectable_header(name.as_str()) {
            Ok(()) => {},
            Err(e) => {
                return Err(e);
            },
        }
        let mut label = concat3("service `", service_name, "` header `");
        label.append(self.name.as_str());
        label.append("`");
        let value = match resolve_secret_source(
            label.as_str(),
            clone_opt(&self.value),
            clone_opt(&self.value_env),
            env,
        ) {
            Ok(v) => v,
            Err(e) => {
                return Err(e);
            },
        };
        let err_prefix = concat3("invalid header `", self.name.as_str(), "` value: ");
        header_entry(name, value.as_str(), err_prefix.as_str())
    }
}

/// The outcome of resolving the authentication header.
pub open spec fn spec_resolve_auth(a: RawAuthConfig, env: Seq<(Seq<char>, Seq<char>)>) -> Result<
    (Seq<char>, Seq<u8>),
    Seq<char>,
> {
    match a {
        RawAuthConfig::Bearer { token, token_env } => match spec_resolve_secret(
            "bearer token"@,
            opt_view(token),
            opt_view(token_env),
            env,
        ) {
            Err(e) => Err(e),
            Ok(t) => spec_header_entry(
                "authorization"@,
                "Bearer "@ + t,
                "invalid bearer token header value: "@,
            ),
        },
        RawAuthConfig::Basic { username, username_env, password, password_env } => match spec_resolve_secret(
            "basic auth username"@,
            opt_view(username),
            opt_view(username_env),
            env,
        ) {
            Err(e) => Err(e),
            Ok(u) => match spec_resolve_secret(
                "basic auth password"@,
                opt_view(password),
                opt_view(password_env),
                env,
            ) {
                Err(e) => Err(e),
                Ok(p) => spec_header_entry(
                    "authorization"@,
                    "Basic "@ + base64_standard(encode_utf8(u + ":"@ + p)),
                    "invalid basic auth header value: "@,
                ),
            },
        },
        RawAuthConfig::Header { name, value, value_env } => match spec_parse_header_name(name@) {
            Err(e) => Err(e),
            Ok(n) => match spec_ensure_injectable(n) {
                Err(e) => Err(e),
                Ok(_) => match spec_resolve_secret(
                    "header auth value"@,
                    opt_view(value),
                    opt_view(value_env),
                    env,
                ) {
                    Err(e) => Err(e),
                    Ok(v) => spec_header_entry(n, v, "invalid header auth value: "@),
                },
            },
        },
    }
}

impl RawAuthConfig {
    /// Resolves the authentication header: `authorization: Bearer <token>`,
    /// `authorization: Basic <base64 of user:password>`, or a named header
    /// with a value; every secret is taken inline or from the environment.
    pub fn resolve(&self, env: &Environment) -> (r: Result<(String, Vec<u8>), String>)
        ensures
            entry_result_view(r) == spec_resolve_auth(*self, env@),
    {
        match self {
            RawAuthConfig::Bearer { token, token_env } => {
                let token = match resolve_secret_source(
                    "bearer token",
                    clone_opt(token),
                    clone_opt(token_env),
                    env,
                ) {
                    Ok(t) => t,
                    Err(e) => {
                        return Err(e);
                    },
                };
                let text = concat2("Bearer ", token.as_str());
                header_entry(
                    owned("authorization"),
                    text.as_str(),
                    "invalid bearer token header value: ",
                )
            },
            RawAuthConfig::Basic { username, username_env, password, password_env } => {
                let username = match resolve_secret_source(
                    "basic auth username",
                    clone_opt(username),
                    clone_opt(username_env),
                    env,
                ) {
                    Ok(u) => u,
                    Err(e) => {
                        return Err(e);
                    },
                };
                let password = match resolve_secret_source(
                    "basic auth password",
                    clone_opt(password),
                    clone_opt(password_env),
                    env,
                ) {
                    Ok(p) => p,
                    Err(e) => {
                        return Err(e);
                    },
                };
                let user_pass = concat3(username.as_str(), ":", password.as_str());
                let encoded = base64_encode(user_pass.as_str().as_bytes());
                let text = concat2("Basic ", encoded.as_str());
                header_entry(
                    owned("authorization"),
                    text.as_str(),
                    "invalid basic auth header value: ",
                )
            },
            RawAuthConfig::Header { name, value, value_env } => {
                let header_name = match parse_header_name(name.as_str()) {
                    Ok(n) => n,
                    Err(e) => {
                        return Err(e);
                    },
                };
                match ensure_config_injectable_header(header_name.as_str()) {
                    Ok(()) => {},
                    Err(e) => {
                        return Err(e);
                    },
                }
                let value = match resolve_secret_source(
                    "header auth value",
                    clone_opt(value),
                    clone_opt(value_env),
                    env,
                ) {
                    Ok(v) => v,
                    Err(e) => {
                        return Err(e);
                    },
                };
                header_entry(header_name, value.as_str(), "invalid header auth value: ")
            },
        }
    }
}

// ---------------------------------------------------------------------------
// Services
// ---------------------------------------------------------------------------

/// A named upstream service, as configured.
pub struct RawServiceConfig {
    pub base_url: String,
    pub allowed_methods: Vec<String>,
    pub allowed_path_prefixes: Vec<String>,
    pub auth: Option<RawAuthConfig>,
    pub headers: Vec<RawHeaderConfig>,
    pub strip_request_headers: Vec<String>,
    pub preserve_host: bool,
    pub timeout_ms: Option<u64>,
}

/// Runtime configuration for a single named upstream service.
pub struct ServiceConfig {
    base_url: String,
    allowed_methods: Vec<String>,
    allowed_path_prefixes: Vec<String>,
    inject_headers: Vec<(String, Vec<u8>)>,
    strip_request_headers: Vec<String>,
    preserve_host: bool,
    timeout_ms: Option<u64>,
}

/// A service's configuration as plain values.
pub struct ServiceView {
    /// The upstream URL (scheme and authority, no query or fragment).
    pub base_url: Seq<char>,
    /// The request methods forwarded, each once.
    pub allowed_methods: Seq<Seq<char>>,
    /// The forward-path prefixes admitted.
    pub allowed_path_prefixes: Seq<Seq<char>>,
    /// Headers set on every forwarded request, by lower-case name.
    pub inject_headers: Seq<(Seq<char>, Seq<u8>)>,
    /// Lower-case names of caller headers removed before forwarding.
    pub strip_request_headers: Seq<Seq<char>>,
    /// Whether the caller's `Host` is kept.
    pub preserve_host: bool,
    /// The upstream timeout in milliseconds, if any.
    pub timeout_ms: Option<u64>,
}

impl View for ServiceConfig {
    type V = ServiceView;

    closed spec fn view(&self) -> ServiceView {
        ServiceView {
            base_url: self.base_url@,
            allowed_methods: views(self.allowed_methods@),
            allowed_path_prefixes: views(self.allowed_path_prefixes@),
            inject_headers: pairs_view(self.inject_headers@),
            strip_request_headers: views(self.strip_request_headers@),
            preserve_host: self.preserve_host,
            timeout_ms: self.timeout_ms,
        }
    }
}

impl ServiceConfig {
    /// Whether some allowed path prefix admits `path` (segment-aware).
    pub fn path_allowed(&self, path: &str) -> (b: bool)
        ensures
            b == exists|i: int|
                0 <= i < self@.allowed_path_prefixes.len()
                    && crate::routing::spec_path_matches_prefix(
                    path@,
                    #[trigger] self@.allowed_path_prefixes[i],
                ),
    {
        let mut i: usize = 0;
        while i < self.allowed_path_prefixes.len()
            invariant
                i <= self.allowed_path_prefixes@.len(),
                self@.allowed_path_prefixes == views(self.allowed_path_prefixes@),
                forall|k: int|
                    0 <= k < i ==> !crate::routing::spec_path_matches_prefix(
                        path@,
                        #[trigger] self@.allowed_path_prefixes[k],
                    ),
            decreases self.allowed_path_prefixes@.len() - i,
        {
            if crate::routing::path_matches_prefix(path, self.allowed_path_prefixes[i].as_str()) {
                assert(self@.allowed_path_prefixes[i as int] == self.allowed_path_prefixes@[i as int]@);
                return true;
            }
            i = i + 1;
        }
        false
    }

    /// Whether `method` is one of the allowed methods.
    pub fn method_allowed(&self, method: &str) -> (b: bool)
        ensures
            b == self@.allowed_methods.contains(method@),
    {
        contains_text(&self.allowed_methods, &owned(method))
    }

    /// The upstream base URL.
    pub fn base_url(&self) -> (r: &str)
        ensures
            r@ == self@.base_url,
    {
        self.base_url.as_str()
    }

    /// The allowed request methods.
    pub fn allowed_methods(&self) -> (r: &Vec<String>)
        ensures
            views(r@) == self@.allowed_methods,
    {
        &self.allowed_methods
    }

    /// The allowed forward-path prefixes.
    pub fn allowed_path_prefixes(&self) -> (r: &Vec<String>)
        ensures
            views(r@) == self@.allowed_path_prefixes,
    {
        &self.allowed_path_prefixes
    }

    /// The headers injected into forwarded requests.
    pub fn inject_headers(&self) -> (r: &Vec<(String, Vec<u8>)>)
        ensures
            pairs_view(r@) == self@.inject_headers,
    {
        &self.inject_headers
    }

    /// The caller headers removed before forwarding.
    pub fn strip_request_headers(&self) -> (r: &Vec<String>)
        ensures
            views(r@) == self@.strip_request_headers,
    {
        &self.strip_request_headers
    }

    /// Whether the caller's `Host` header is kept.
    pub fn preserve_host(&self) -> (b: bool)
        ensures
            b == self@.preserve_host,
    {
        self.preserve_host
    }

    /// The upstream timeout in milliseconds, if any.
    pub fn timeout_ms(&self) -> (t: Option<u64>)
        ensures
            t == self@.timeout_ms,
    {
        self.timeout_ms
    }
}

/// `spec_resolve_header` for one service, as a function value.
pub open spec fn header_checker(
    service_name: Seq<char>,
    env: Seq<(Seq<char>, Seq<char>)>,
) -> spec_fn(RawHeaderConfig) -> Result<(Seq<char>, Seq<u8>), Seq<char>> {
    |h: RawHeaderConfig| spec_resolve_header(h, service_name, env)
}

/// The authentication header, if one is configured, as a list of zero or one
/// entries.
pub open spec fn spec_auth_entries(
    auth: Option<RawAuthConfig>,
    env: Seq<(Seq<char>, Seq<char>)>,
) -> Result<Seq<(Seq<char>, Seq<u8>)>, Seq<char>> {
    match auth {
        None => Ok(Seq::empty()),
        Some(a) => match spec_resolve_auth(a, env) {
            Err(e) => Err(e),
            Ok(e) => Ok(seq![e]),
        },
    }
}

/// The outcome of resolving the service `name`: checks run in the order base
/// URL, methods, path prefixes, auth, extra headers, stripped headers; the
/// auth header and then the extra headers are inserted by name, a later one
/// replacing an earlier one of the same name.
pub open spec fn spec_resolve_service(
    raw: RawServiceConfig,
    name: Seq<char>,
    env: Seq<(Seq<char>, Seq<char>)>,
) -> Result<ServiceView, Seq<char>> {
    match spec_parse_base_url(raw.base_url@) {
        Err(e) => Err(e),
        Ok(b) => match spec_parse_methods(views(raw.allowed_methods@)) {
            Err(e) => Err(e),
            Ok(ms) => match spec_parse_path_prefixes(views(raw.allowed_path_prefixes@)) {
                Err(e) => Err(e),
                Ok(ps) => match spec_auth_entries(raw.auth, env) {
                    Err(e) => Err(e),
                    Ok(a) => match map_all(raw.headers@, header_checker(name, env)) {
                        Err(e) => Err(e),
                        Ok(hs) => match map_all(
                            views(raw.strip_request_headers@),
                            strip_header_checker(name),
                        ) {
                            Err(e) => Err(e),
                            Ok(st) => Ok(
                                ServiceView {
                                    base_url: b,
                                    allowed_methods: ms,
                                    allowed_path_prefixes: ps,
                                    inject_headers: upsert_all(a + hs),
                                    strip_request_headers: st,
                                    preserve_host: raw.preserve_host,
                                    timeout_ms: raw.timeout_ms,
                                },
                            ),
                        },
                    },
                },
            },
        },
    }
}

/// A resolved service, or an error text, taken by views.
pub open spec fn service_result_view(r: Result<ServiceConfig, String>) -> Result<
    ServiceView,
    Seq<char>,
> {
    match r {
        Ok(c) => Ok(c@),
        Err(e) => Err(e@),
    }
}

impl RawServiceConfig {
    /// Checks and resolves the configuration of the service `service_name`.
    pub fn resolve(&self, service_name: &str, env: &Environment) -> (r: Result<
        ServiceConfig,
        String,
    >)
        ensures
            service_result_view(r) == spec_resolve_service(*self, service_name@, env@),
    {
        let base_url = match parse_base_url(self.base_url.as_str()) {
            Ok(b) => b,
            Err(e) => {
                return Err(e);
            },
        };
        let allowed_methods = match parse_methods(&self.allowed_methods) {
            Ok(m) => m,
            Err(e) => {
                return Err(e);
            },
        };
        let allowed_path_prefixes = match parse_path_prefixes(&self.allowed_path_prefixes) {
            Ok(p) => p,
            Err(e) => {
                return Err(e);
            },
        };
        let mut inject_headers: Vec<(String, Vec<u8>)> = Vec::new();
        let ghost mut a: Seq<(Seq<char>, Seq<u8>)> = Seq::empty();
        assert(pairs_view(inject_headers@) =~= upsert_all(a));
        match &self.auth {
            None => {},
            Some(auth) => {
                match auth.resolve(env) {
                    Ok(entry) => {
                        let ghost e = (entry.0@, entry.1@);
                        upsert_vec(&mut inject_headers, entry.0, entry.1);
                        proof {
                            a = seq![e];
                            assert(a.drop_last() =~= Seq::<(Seq<char>, Seq<u8>)>::empty());
                        }
                    },
                    Err(e) => {
                        return Err(e);
                    },
                }
            },
        }
        assert(spec_auth_entries(self.auth, env@) == Ok::<
            Seq<(Seq<char>, Seq<u8>)>,
            Seq<char>,
        >(a));
        let ghost hs_all = self.headers@;
        let ghost checker = header_checker(service_name@, env@);
        let ghost mut hs: Seq<(Seq<char>, Seq<u8>)> = Seq::empty();
        let mut i: usize = 0;
        assert(hs_all.take(0) =~= Seq::<RawHeaderConfig>::empty());
        assert(a + hs =~= a);
        #[verifier::loop_isolation(false)]
        while i < self.headers.len()
            invariant
                i <= self.headers@.len(),
                hs_all == self.headers@,
                checker == header_checker(service_name@, env@),
                map_all(hs_all.take(i as int), checker) == Ok::<
                    Seq<(Seq<char>, Seq<u8>)>,
                    Seq<char>,
                >(hs),
                pairs_view(inject_headers@) == upsert_all(a + hs),
            decreases self.headers@.len() - i,
        {
            assert(hs_all.take(i + 1).drop_last() =~= hs_all.take(i as int));
            assert(hs_all.take(i + 1).last() == self.headers@[i as int]);
            match self.headers[i].resolve(service_name, env) {
                Ok(entry) => {
                    let ghost e = (entry.0@, entry.1@);
                    assert(checker(self.headers@[i as int]) == Ok::<
                        (Seq<char>, Seq<u8>),
                        Seq<char>,
                    >(e));
                    upsert_vec(&mut inject_headers, entry.0, entry.1);
                    proof {
                        assert((a + hs).push(e).drop_last() =~= a + hs);
                        assert((a + hs).push(e) =~= a + hs.push(e));
                        hs = hs.push(e);
                    }
                },
                Err(e) => {
                    assert(checker(self.headers@[i as int]) == Err::<
                        (Seq<char>, Seq<u8>),
                        Seq<char>,
                    >(e@));
                    proof {
                        lemma_map_all_err(hs_all, checker, i + 1);
                    }
                    return Err(e);
                },
            }
            i = i + 1;
        }
        assert(hs_all.take(self.headers@.len() as int) =~= hs_all);
        let strip_request_headers = match parse_strip_request_headers(
            &self.strip_request_headers,
            service_name,
        ) {
            Ok(s) => s,
            Err(e) => {
                return Err(e);
            },
        };
        Ok(
            ServiceConfig {
                base_url,
                allowed_methods,
                allowed_path_prefixes,
                inject_headers,
                strip_request_headers,
                preserve_host: self.preserve_host,
                timeout_ms: self.timeout_ms,
            },
        )
    }
}

// ---------------------------------------------------------------------------
// The broker
// ---------------------------------------------------------------------------

/// The broker configuration as read from TOML.
pub struct RawBrokerConfig {
    /// Socket address to listen on, as text.
    pub listen: String,
    /// URL prefix used for proxied services.
    pub proxy_prefix: String,
    /// Named upstream services (a map: each name once, in key order).
    pub services: Vec<(String, RawServiceConfig)>,
}

/// Runtime broker configuration.
pub struct BrokerConfig {
    listen: String,
    proxy_prefix: String,
    services: Vec<(String, ServiceConfig)>,
}

/// The broker configuration as plain values.
pub struct BrokerView {
    /// Socket address to listen on, as text.
    pub listen: Seq<char>,
    /// URL prefix used for proxied services, without trailing `/`.
    pub proxy_prefix: Seq<char>,
    /// The services by name, each name once.
    pub services: Seq<(Seq<char>, ServiceView)>,
}

impl View for BrokerConfig {
    type V = BrokerView;

    closed spec fn view(&self) -> BrokerView {
        BrokerView {
            listen: self.listen@,
            proxy_prefix: self.proxy_prefix@,
            services: pairs_view(self.services@),
        }
    }
}

/// The service named `name`, if the configuration has one.
pub open spec fn spec_service(c: BrokerView, name: Seq<char>) -> Option<ServiceView> {
    match key_index(c.services, name) {
        Some(i) => Some(c.services[i].1),
        None => None,
    }
}

impl BrokerConfig {
    /// The configuration of the service named `name`.
    pub fn service(&self, name: &str) -> (r: Option<&ServiceConfig>)
        ensures
            match r {
                Some(s) => spec_service(self@, name@) == Some(s@),
                None => spec_service(self@, name@) is None,
            },
    {
        let key = owned(name);
        let ghost s = self@.services;
        let mut i: usize = 0;
        while i < self.services.len()
            invariant
                i <= self.services@.len(),
                key@ == name@,
                s == pairs_view(self.services@),
                key_index(s, name@) == key_index_from(s, name@, i as int),
            decreases self.services@.len() - i,
        {
            if self.services[i].0 == key {
                assert(s[i as int].0 == name@);
                assert(key_index_from(s, name@, i as int) == Some(i as int));
                return Some(&self.services[i].1);
            }
            i = i + 1;
        }
        None
    }

    /// Socket address to listen on, as text.
    pub fn listen(&self) -> (r: &str)
        ensures
            r@ == self@.listen,
    {
        self.listen.as_str()
    }

    /// URL prefix used for proxied services, without trailing `/`.
    pub fn proxy_prefix(&self) -> (r: &str)
        ensures
            r@ == self@.proxy_prefix,
    {
        self.proxy_prefix.as_str()
    }

    /// The services, by name.
    pub fn services(&self) -> (r: &Vec<(String, ServiceConfig)>)
        ensures
            pairs_view(r@) == self@.services,
    {
        &self.services
    }
}

/// The outcome of checking and resolving one named service; errors name the
/// service.
pub open spec fn spec_service_entry(
    e: (String, RawServiceConfig),
    env: Seq<(Seq<char>, Seq<char>)>,
) -> Result<(Seq<char>, ServiceView), Seq<char>> {
    match crate::routing::spec_validate_service_name(e.0@) {
        Err(m) => Err("service `"@ + e.0@ + "`: "@ + m),
        Ok(_) => match spec_resolve_service(e.1, e.0@, env) {
            Err(m) => Err("service `"@ + e.0@ + "`: "@ + m),
            Ok(v) => Ok((e.0@, v)),
        },
    }
}

/// `spec_service_entry` in one environment, as a function value.
pub open spec fn service_checker(env: Seq<(Seq<char>, Seq<char>)>) -> spec_fn(
    (String, RawServiceConfig),
) -> Result<(Seq<char>, ServiceView), Seq<char>> {
    |e: (String, RawServiceConfig)| spec_service_entry(e, env)
}

/// The outcome of resolving the whole configuration (the error is the text of
/// a configuration error): the proxy prefix is normalised, at least one
/// service is required, and the services are resolved in order and kept by
/// name.
pub open spec fn spec_resolve_broker(raw: RawBrokerConfig, env: Seq<(Seq<char>, Seq<char>)>) -> Result<
    BrokerView,
    Seq<char>,
> {
    match spec_validate_proxy_prefix(raw.proxy_prefix@) {
        Err(m) => Err(m),
        Ok(p) => if raw.services@.len() == 0 {
            Err("at least one service must be configured"@)
        } else {
            match map_all(raw.services@, service_checker(env)) {
                Err(m) => Err(m),
                Ok(es) => Ok(
                    BrokerView { listen: raw.listen@, proxy_prefix: p, services: upsert_all(es) },
                ),
            }
        },
    }
}

/// Prefixes `msg` with the service it concerns.
fn service_error(name: &str, msg: &str) -> (e: BrokerError)
    ensures
        e matches BrokerError::Config(m) && m@ == "service `"@ + name@ + "`: "@ + msg@,
{
    let mut m = concat3("service `", name, "`: ");
    m.append(msg);
    config_error(m)
}

impl RawBrokerConfig {
    /// Checks and resolves the configuration, looking secrets up in `env`.
    pub fn resolve(&self, env: &Environment) -> (r: Result<BrokerConfig, BrokerError>)
        ensures
            match r {
                Ok(c) => spec_resolve_broker(*self, env@) == Ok::<BrokerView, Seq<char>>(c@),
                Err(e) => e matches BrokerError::Config(m) && spec_resolve_broker(*self, env@)
                    == Err::<BrokerView, Seq<char>>(m@),
            },
    {
        let proxy_prefix = match validate_proxy_prefix(self.proxy_prefix.as_str()) {
            Ok(p) => p,
            Err(e) => {
                return Err(e);
            },
        };
        if self.services.len() == 0 {
            return Err(config_error(owned("at least one service must be configured")));
        }
        let ghost all = self.services@;
        let ghost checker = service_checker(env@);
        let ghost mut es: Seq<(Seq<char>, ServiceView)> = Seq::empty();
        let mut services: Vec<(String, ServiceConfig)> = Vec::new();
        let mut i: usize = 0;
        assert(all.take(0) =~= Seq::<(String, RawServiceConfig)>::empty());
        assert(pairs_view(services@) =~= upsert_all(es));
        #[verifier::loop_isolation(false)]
        while i < self.services.len()
            invariant
                i <= self.services@.len(),
                all == self.services@,
                checker == service_checker(env@),
                map_all(all.take(i as int), checker) == Ok::<
                    Seq<(Seq<char>, ServiceView)>,
                    Seq<char>,
                >(es),
                pairs_view(services@) == upsert_all(es),
            decreases self.services@.len() - i,
        {
            assert(all.take(i + 1).drop_last() =~= all.take(i as int));
            assert(all.take(i + 1).last() == self.services@[i as int]);
            let name = &self.services[i].0;
            let raw = &self.services[i].1;
            match crate::routing::validate_service_name(name.as_str()) {
                Ok(()) => {},
                Err(msg) => {
                    let e = service_error(name.as_str(), msg.as_str());
                    proof {
                        lemma_map_all_err(all, checker, i + 1);
                    }
                    return Err(e);
                },
            }
            match raw.resolve(name.as_str(), env) {
                Ok(service) => {
                    let ghost entry = (name@, service@);
                    assert(checker(self.services@[i as int]) == Ok::<
                        (Seq<char>, ServiceView),
                        Seq<char>,
                    >(entry));
                    upsert_vec(&mut services, name.clone(), service);
                    proof {
                        assert(es.push(entry).drop_last() =~= es);
                        es = es.push(entry);
                    }
                },
                Err(msg) => {
                    let e = service_error(name.as_str(), msg.as_str());
                    proof {
                        lemma_map_all_err(all, checker, i + 1);
                    }
                    return Err(e);
                },
            }
            i = i + 1;
        }
        assert(all.take(self.services@.len() as int) =~= all);
        Ok(BrokerConfig { listen: self.listen.clone(), proxy_prefix, services })
    }
}

// ---------------------------------------------------------------------------
// What every resolved configuration satisfies
// ---------------------------------------------------------------------------

/// An injected header is a valid value under either the authorization name
/// or a name the broker and HTTP stack do not manage.
pub open spec fn injected_header_ok(e: (Seq<char>, Seq<u8>)) -> bool {
    header_value_ok(e.1) && (e.0 == "authorization"@ || !is_blocked_header(e.0))
}

/// A service configuration that passed every check.
pub open spec fn service_wf(v: ServiceView) -> bool {
    &&& spec_parse_base_url(v.base_url) == Ok::<Seq<char>, Seq<char>>(v.base_url)
    &&& v.allowed_methods.len() > 0
    &&& v.allowed_methods.no_duplicates()
    &&& forall|i: int|
        0 <= i < v.allowed_methods.len() ==> spec_check_method(#[trigger] v.allowed_methods[i])
            == Ok::<Seq<char>, Seq<char>>(v.allowed_methods[i])
    &&& v.allowed_path_prefixes.len() > 0
    &&& forall|i: int|
        0 <= i < v.allowed_path_prefixes.len() ==> spec_check_path_prefix(
            #[trigger] v.allowed_path_prefixes[i],
        ) == Ok::<Seq<char>, Seq<char>>(v.allowed_path_prefixes[i])
    &&& keys_unique(v.inject_headers)
    &&& forall|e: (Seq<char>, Seq<u8>)| #[trigger] v.inject_headers.contains(e) ==> injected_header_ok(e)
}

/// A header built by `spec_header_entry` is valid.
proof fn lemma_header_entry(name: Seq<char>, text: Seq<char>, p: Seq<char>)
    requires
        spec_header_entry(name, text, p) is Ok,
    ensures
        spec_header_entry(name, text, p)->Ok_0.0 == name,
        header_value_ok(spec_header_entry(name, text, p)->Ok_0.1),
{
}

/// A resolved authentication header is acceptable.
proof fn lemma_auth_entry_ok(a: RawAuthConfig, env: Seq<(Seq<char>, Seq<char>)>)
    requires
        spec_resolve_auth(a, env) is Ok,
    ensures
        injected_header_ok(spec_resolve_auth(a, env)->Ok_0),
{
}

/// A resolved extra header is acceptable.
proof fn lemma_header_ok(h: RawHeaderConfig, svc: Seq<char>, env: Seq<(Seq<char>, Seq<char>)>)
    requires
        spec_resolve_header(h, svc, env) is Ok,
    ensures
        injected_header_ok(spec_resolve_header(h, svc, env)->Ok_0),
{
}

/// Configuration law: every service that resolves is well formed: its base
/// URL is accepted, it allows at least one method, each once, none of them
/// `CONNECT`, at least one path prefix, each a path without query or
/// fragment, and its injected headers have distinct names, valid values and
/// no name the broker or HTTP stack manage (authorization excepted).
pub proof fn lemma_resolved_service_wf(
    raw: RawServiceConfig,
    name: Seq<char>,
    env: Seq<(Seq<char>, Seq<char>)>,
)
    requires
        spec_resolve_service(raw, name, env) is Ok,
    ensures
        service_wf(spec_resolve_service(raw, name, env)->Ok_0),
{
    let v = spec_resolve_service(raw, name, env)->Ok_0;
    // methods
    let rm = views(raw.allowed_methods@);
    lemma_map_all_ok(rm, method_checker());
    let m0 = map_all(rm, method_checker())->Ok_0;
    lemma_dedup(m0);
    assert forall|i: int| 0 <= i < m0.len() implies spec_check_method(#[trigger] m0[i]) == Ok::<
        Seq<char>,
        Seq<char>,
    >(m0[i]) by {
        assert(method_checker()(rm[i]) == Ok::<Seq<char>, Seq<char>>(m0[i]));
    }
    assert forall|i: int| 0 <= i < v.allowed_methods.len() implies spec_check_method(
        #[trigger] v.allowed_methods[i],
    ) == Ok::<Seq<char>, Seq<char>>(v.allowed_methods[i]) by {
        assert(dedup(m0).contains(v.allowed_methods[i]));
        let j = choose|j: int| 0 <= j < m0.len() && m0[j] == v.allowed_methods[i];
        assert(spec_check_method(m0[j]) == Ok::<Seq<char>, Seq<char>>(m0[j]));
    }
    assert(dedup(m0).contains(m0[0]));
    // prefixes
    let rp = views(raw.allowed_path_prefixes@);
    lemma_map_all_ok(rp, path_prefix_checker());
    assert forall|i: int| 0 <= i < v.allowed_path_prefixes.len() implies spec_check_path_prefix(
        #[trigger] v.allowed_path_prefixes[i],
    ) == Ok::<Seq<char>, Seq<char>>(v.allowed_path_prefixes[i]) by {
        assert(path_prefix_checker()(rp[i]) == Ok::<Seq<char>, Seq<char>>(
            v.allowed_path_prefixes[i],
        ));
    }
    // injected headers
    let a = spec_auth_entries(raw.auth, env)->Ok_0;
    let hs = map_all(raw.headers@, header_checker(name, env))->Ok_0;
    lemma_map_all_ok(raw.headers@, header_checker(name, env));
    lemma_upsert_all_unique(a + hs);
    lemma_upsert_all_contains(a + hs);
    assert forall|e: (Seq<char>, Seq<u8>)| #[trigger] v.inject_headers.contains(e) implies injected_header_ok(
        e,
    ) by {
        assert((a + hs).contains(e));
        let k = choose|k: int| 0 <= k < (a + hs).len() && (a + hs)[k] == e;
        if k < a.len() {
            let auth = raw.auth->0;
            lemma_auth_entry_ok(auth, env);
        } else {
            let j = k - a.len();
            assert(hs[j] == e);
            assert(header_checker(name, env)(raw.headers@[j]) == Ok::<
                (Seq<char>, Seq<u8>),
                Seq<char>,
            >(hs[j]));
            lemma_header_ok(raw.headers@[j], name, env);
        }
    }
}

/// Configuration law: resolving a service keeps what was configured: the
/// base URL as written, every allowed path prefix in order, the allowed
/// methods as a set (each once), every stripped header name in order and in
/// lower case, and the `preserve_host` and timeout options.
pub proof fn lemma_resolve_keeps_settings(
    raw: RawServiceConfig,
    name: Seq<char>,
    env: Seq<(Seq<char>, Seq<char>)>,
)
    requires
        spec_resolve_service(raw, name, env) is Ok,
    ensures
        ({
            let v = spec_resolve_service(raw, name, env)->Ok_0;
            &&& v.base_url == raw.base_url@
            &&& v.allowed_path_prefixes == views(raw.allowed_path_prefixes@)
            &&& v.allowed_methods.no_duplicates()
            &&& forall|m: Seq<char>|
                #[trigger] v.allowed_methods.contains(m) <==> views(
                    raw.allowed_methods@,
                ).contains(m)
            &&& v.strip_request_headers.len() == raw.strip_request_headers@.len()
            &&& forall|i: int|
                0 <= i < raw.strip_request_headers@.len() ==> #[trigger] v.strip_request_headers[i]
                    == header_name_text(raw.strip_request_headers@[i]@)
            &&& v.preserve_host == raw.preserve_host
            &&& v.timeout_ms == raw.timeout_ms
        }),
{
    let v = spec_resolve_service(raw, name, env)->Ok_0;
    // methods
    let rm = views(raw.allowed_methods@);
    lemma_map_all_ok(rm, method_checker());
    let m0 = map_all(rm, method_checker())->Ok_0;
    lemma_dedup(m0);
    assert forall|m: Seq<char>| #[trigger] v.allowed_methods.contains(m) <==> rm.contains(m) by {
        if m0.contains(m) {
            let j = choose|j: int| 0 <= j < m0.len() && m0[j] == m;
            assert(method_checker()(rm[j]) == Ok::<Seq<char>, Seq<char>>(m0[j]));
            assert(rm[j] == m);
        }
        if rm.contains(m) {
            let j = choose|j: int| 0 <= j < rm.len() && rm[j] == m;
            assert(method_checker()(rm[j]) == Ok::<Seq<char>, Seq<char>>(m0[j]));
            assert(m0[j] == m);
        }
    }
    // prefixes
    let rp = views(raw.allowed_path_prefixes@);
    lemma_map_all_ok(rp, path_prefix_checker());
    assert forall|i: int| 0 <= i < rp.len() implies v.allowed_path_prefixes[i] == rp[i] by {
        assert(path_prefix_checker()(rp[i]) == Ok::<Seq<char>, Seq<char>>(
            v.allowed_path_prefixes[i],
        ));
    }
    assert(v.allowed_path_prefixes =~= rp);
    // stripped header names
    let rs = views(raw.strip_request_headers@);
    lemma_map_all_ok(rs, strip_header_checker(name));
    assert forall|i: int|
        0 <= i < raw.strip_request_headers@.len() implies #[trigger] v.strip_request_headers[i]
        == header_name_text(raw.strip_request_headers@[i]@) by {
        assert(rs[i] == raw.strip_request_headers@[i]@);
        assert(strip_header_checker(name)(rs[i]) == Ok::<Seq<char>, Seq<char>>(
            v.strip_request_headers[i],
        ));
    }
}

/// Configuration law: a resolved service injects each configured extra
/// header unless a later one has the same name, and the authentication
/// header unless an extra header has its name; each with its resolved value.
pub proof fn lemma_resolve_injects_headers(
    raw: RawServiceConfig,
    name: Seq<char>,
    env: Seq<(Seq<char>, Seq<char>)>,
)
    requires
        spec_resolve_service(raw, name, env) is Ok,
    ensures
        ({
            let v = spec_resolve_service(raw, name, env)->Ok_0;
            let h = raw.headers@;
            &&& forall|i: int|
                0 <= i < h.len() && (forall|j: int|
                    i < j < h.len() ==> spec_resolve_header(h[j], name, env)->Ok_0.0
                        != spec_resolve_header(h[i], name, env)->Ok_0.0) ==> v.inject_headers.contains(
                    #[trigger] spec_resolve_header(h[i], name, env)->Ok_0,
                )
            &&& raw.auth matches Some(a) ==> ((forall|j: int|
                0 <= j < h.len() ==> spec_resolve_header(h[j], name, env)->Ok_0.0
                    != spec_resolve_auth(a, env)->Ok_0.0) ==> v.inject_headers.contains(
                spec_resolve_auth(a, env)->Ok_0,
            ))
        }),
{
    let v = spec_resolve_service(raw, name, env)->Ok_0;
    let h = raw.headers@;
    let a = spec_auth_entries(raw.auth, env)->Ok_0;
    let hs = map_all(h, header_checker(name, env))->Ok_0;
    lemma_map_all_ok(h, header_checker(name, env));
    let all = a + hs;
    assert(v.inject_headers == upsert_all(all));
    assert forall|i: int|
        0 <= i < h.len() && (forall|j: int|
            i < j < h.len() ==> spec_resolve_header(h[j], name, env)->Ok_0.0
                != spec_resolve_header(h[i], name, env)->Ok_0.0) implies v.inject_headers.contains(
        #[trigger] spec_resolve_header(h[i], name, env)->Ok_0,
    ) by {
        let k = a.len() + i;
        assert(header_checker(name, env)(h[i]) == Ok::<(Seq<char>, Seq<u8>), Seq<char>>(hs[i]));
        assert(all[k] == hs[i]);
        assert forall|j: int| k < j < all.len() implies all[j].0 != all[k].0 by {
            let m = j - a.len();
            assert(header_checker(name, env)(h[m]) == Ok::<(Seq<char>, Seq<u8>), Seq<char>>(
                hs[m],
            ));
            assert(all[j] == hs[m]);
        }
        lemma_upsert_all_last(all, k);
    }
    if raw.auth is Some {
        let au = raw.auth->0;
        if forall|j: int|
            0 <= j < h.len() ==> spec_resolve_header(h[j], name, env)->Ok_0.0
                != spec_resolve_auth(au, env)->Ok_0.0 {
            assert(a.len() == 1);
            assert(all[0] == spec_resolve_auth(au, env)->Ok_0);
            assert forall|j: int| 0 < j < all.len() implies #[trigger] all[j].0 != all[0].0 by {
                let m = j - 1;
                assert(header_checker(name, env)(h[m]) == Ok::<(Seq<char>, Seq<u8>), Seq<char>>(
                    hs[m],
                ));
                assert(all[j] == hs[m]);
            }
            lemma_upsert_all_last(all, 0);
        }
    }
}

/// A secret given only by environment variable name is set, and not empty,
/// in `env`.
pub open spec fn env_secret_present(
    value: Option<Seq<char>>,
    env_name: Option<Seq<char>>,
    env: Seq<(Seq<char>, Seq<char>)>,
) -> bool {
    (value is None && env_name is Some) ==> (env_lookup(env, env_name->0) matches Some(x)
        && x.len() > 0)
}

/// Every secret the authentication header takes from the environment is set
/// and not empty.
pub open spec fn auth_env_present(a: RawAuthConfig, env: Seq<(Seq<char>, Seq<char>)>) -> bool {
    match a {
        RawAuthConfig::Bearer { token, token_env } => env_secret_present(
            opt_view(token),
            opt_view(token_env),
            env,
        ),
        RawAuthConfig::Basic { username, username_env, password, password_env } => env_secret_present(
            opt_view(username),
            opt_view(username_env),
            env,
        ) && env_secret_present(opt_view(password), opt_view(password_env), env),
        RawAuthConfig::Header { name: _, value, value_env } => env_secret_present(
            opt_view(value),
            opt_view(value_env),
            env,
        ),
    }
}

/// Every secret a service takes from the environment is set and not empty.
pub open spec fn service_env_present(s: RawServiceConfig, env: Seq<(Seq<char>, Seq<char>)>) -> bool {
    &&& (s.auth matches Some(a) ==> auth_env_present(a, env))
    &&& forall|j: int|
        0 <= j < s.headers@.len() ==> env_secret_present(
            opt_view(#[trigger] s.headers@[j].value),
            opt_view(s.headers@[j].value_env),
            env,
        )
}

/// A secret that resolves is present in the environment when named there.
proof fn lemma_secret_env(
    label: Seq<char>,
    value: Option<Seq<char>>,
    env_name: Option<Seq<char>>,
    env: Seq<(Seq<char>, Seq<char>)>,
)
    requires
        spec_resolve_secret(label, value, env_name, env) is Ok,
    ensures
        env_secret_present(value, env_name, env),
{
}

/// Start-up law: a configuration resolves only when every environment
/// variable its secrets name is set and not empty; otherwise the broker
/// refuses to start.
pub proof fn lemma_startup_requires_env(raw: RawBrokerConfig, env: Seq<(Seq<char>, Seq<char>)>)
    requires
        spec_resolve_broker(raw, env) is Ok,
    ensures
        forall|i: int|
            0 <= i < raw.services@.len() ==> service_env_present(#[trigger] raw.services@[i].1, env),
{
    lemma_map_all_ok(raw.services@, service_checker(env));
    assert forall|i: int| 0 <= i < raw.services@.len() implies service_env_present(
        #[trigger] raw.services@[i].1,
        env,
    ) by {
        let entry = raw.services@[i];
        assert(service_checker(env)(entry) is Ok);
        let svc = entry.1;
        let name = entry.0@;
        assert(spec_resolve_service(svc, name, env) is Ok);
        match svc.auth {
            Some(a) => {
                assert(spec_resolve_auth(a, env) is Ok);
                match a {
                    RawAuthConfig::Bearer { token, token_env } => {
                        lemma_secret_env("bearer token"@, opt_view(token), opt_view(token_env), env);
                    },
                    RawAuthConfig::Basic { username, username_env, password, password_env } => {
                        lemma_secret_env(
                            "basic auth username"@,
                            opt_view(username),
                            opt_view(username_env),
                            env,
                        );
                        lemma_secret_env(
                            "basic auth password"@,
                            opt_view(password),
                            opt_view(password_env),
                            env,
                        );
                    },
                    RawAuthConfig::Header { name: n, value, value_env } => {
                        lemma_secret_env("header auth value"@, opt_view(value), opt_view(value_env), env);
                    },
                }
            },
            None => {},
        }
        lemma_map_all_ok(svc.headers@, header_checker(name, env));
        assert forall|j: int| 0 <= j < svc.headers@.len() implies env_secret_present(
            opt_view(#[trigger] svc.headers@[j].value),
            opt_view(svc.headers@[j].value_env),
            env,
        ) by {
            let h = svc.headers@[j];
            assert(header_checker(name, env)(h) is Ok);
            lemma_secret_env(
                "service `"@ + name + "` header `"@ + h.name@ + "`"@,
                opt_view(h.value),
                opt_view(h.value_env),
                env,
            );
        }
    }
}

/// Configuration law: in a resolved configuration each service name occurs
/// once, is a valid service name, and names a well-formed service; the proxy
/// prefix passes its own check unchanged.
pub proof fn lemma_resolved_broker_wf(raw: RawBrokerConfig, env: Seq<(Seq<char>, Seq<char>)>)
    requires
        spec_resolve_broker(raw, env) is Ok,
    ensures
        ({
            let c = spec_resolve_broker(raw, env)->Ok_0;
            &&& keys_unique(c.services)
            &&& spec_validate_proxy_prefix(c.proxy_prefix) == Ok::<Seq<char>, Seq<char>>(
                c.proxy_prefix,
            )
            &&& forall|e: (Seq<char>, ServiceView)| #[trigger]
                c.services.contains(e) ==> crate::routing::spec_validate_service_name(e.0) == Ok::<
                    (),
                    Seq<char>,
                >(()) && service_wf(e.1)
        }),
{
    let c = spec_resolve_broker(raw, env)->Ok_0;
    lemma_proxy_prefix_idempotent(raw.proxy_prefix@);
    let es = map_all(raw.services@, service_checker(env))->Ok_0;
    lemma_map_all_ok(raw.services@, service_checker(env));
    lemma_upsert_all_unique(es);
    lemma_upsert_all_contains(es);
    assert forall|e: (Seq<char>, ServiceView)| #[trigger] c.services.contains(e) implies crate::routing::spec_validate_service_name(
        e.0,
    ) == Ok::<(), Seq<char>>(()) && service_wf(e.1) by {
        assert(es.contains(e));
        let k = choose|k: int| 0 <= k < es.len() && es[k] == e;
        let entry = raw.services@[k];
        assert(service_checker(env)(entry) == Ok::<(Seq<char>, ServiceView), Seq<char>>(es[k]));
        lemma_resolved_service_wf(entry.1, entry.0@, env);
    }
}

} // verus!
