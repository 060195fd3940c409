//! Request-path routing: which service a path names, what is forwarded, and
//! which forward paths and path prefixes are acceptable.
use vstd::prelude::*;

use crate::outside::{percent_decode_text, percent_decode_utf8};
use crate::text::{
    chars_eq, chars_of, char_string, concat2, find_from, first_index, has_char, is_first_index,
    lemma_first_index, lemma_no_index, owned, split_once, starts_with, starts_with_at, ends_with,
    string_of, trim_end, trim_end_len,
};

verus! {

/// The service named by a proxied request path, and what to forward.
#[derive(Debug, PartialEq, Eq)]
pub struct RouteMatch {
    /// The path segment right after the proxy prefix.
    pub service_name: String,
    /// The rest of the path, always starting with `/`.
    pub forward_path: String,
    /// The part of the incoming path that the upstream does not see.
    pub strip_prefix: String,
}

// ---------------------------------------------------------------------------
// route_request_path
// ---------------------------------------------------------------------------

/// Routing of `path` under `prefix`: `(service_name, forward_path, strip_prefix)`.
pub open spec fn spec_route(prefix: Seq<char>, path: Seq<char>) -> Option<
    (Seq<char>, Seq<char>, Seq<char>),
> {
    let p = trim_end(prefix, '/');
    let head = p.push('/');
    if path == p || !starts_with(path, head) {
        None
    } else {
        let rest = path.skip(head.len() as int);
        let (svc, tail) = match split_once(rest, '/') {
            Some(pair) => pair,
            None => (rest, Seq::<char>::empty()),
        };
        if svc.len() == 0 {
            None
        } else {
            Some(
                (
                    svc,
                    if tail.len() == 0 {
                        seq!['/']
                    } else {
                        seq!['/'] + tail
                    },
                    head + svc,
                ),
            )
        }
    }
}

/// The parts of a route match, by view.
pub open spec fn route_view(m: RouteMatch) -> (Seq<char>, Seq<char>, Seq<char>) {
    (m.service_name@, m.forward_path@, m.strip_prefix@)
}

/// Splits `/{prefix}/{service}/{rest}` into the service name and the path to
/// forward; `None` when `path` is not under the proxy prefix or names no
/// service. Trailing `/` of `proxy_prefix` are ignored.
pub fn route_request_path(proxy_prefix: &str, path: &str) -> (r: Option<RouteMatch>)
    ensures
        match r {
            Some(m) => spec_route(proxy_prefix@, path@) == Some(route_view(m)),
            None => spec_route(proxy_prefix@, path@) is None,
        },
{
    let pv = chars_of(proxy_prefix);
    let n = trim_end_len(&pv, '/');
    let prefix = string_of(&pv, 0, n);
    let prefix_chars = chars_of(prefix.as_str());
    let slash = char_string('/');
    let head = concat2(prefix.as_str(), slash.as_str());
    let head_chars = chars_of(head.as_str());
    let xv = chars_of(path);
    let ghost p = trim_end(proxy_prefix@, '/');
    assert(prefix@ == p);
    assert(head@ == p.push('/'));
    if chars_eq(&xv, &prefix_chars) {
        return None;
    }
    if !starts_with_at(&xv, 0, &head_chars) {
        assert(xv@.skip(0) =~= xv@);
        return None;
    }
    assert(xv@.skip(0) =~= xv@);
    let start = head_chars.len();
    let ghost rest = path@.skip(start as int);
    let (svc_end, tail_start) = match find_from(&xv, '/', start) {
        Some(j) => {
            assert(is_first_index(rest, '/', j - start));
            proof {
                lemma_first_index(rest, '/', j - start);
            }
            assert(rest.take(j - start) =~= xv@.subrange(start as int, j as int));
            assert(rest.skip(j - start + 1) =~= xv@.skip(j + 1));
            let len = xv.len();
            assert(j < len);
            (j, j + 1)
        },
        None => {
            proof {
                lemma_no_index(rest, '/');
            }
            assert(rest =~= xv@.subrange(start as int, xv@.len() as int));
            (xv.len(), xv.len())
        },
    };
    if svc_end == start {
        return None;
    }
    let service_name = string_of(&xv, start, svc_end);
    let forward_path = if tail_start == xv.len() {
        char_string('/')
    } else {
        let tail = string_of(&xv, tail_start, xv.len());
        concat2(slash.as_str(), tail.as_str())
    };
    let strip_prefix = concat2(head.as_str(), service_name.as_str());
    proof {
        if tail_start < xv@.len() {
            assert(tail_start == svc_end + 1);
        } else {
            assert(xv@.skip(tail_start as int) =~= Seq::<char>::empty());
        }
    }
    Some(RouteMatch { service_name, forward_path, strip_prefix })
}

/// Routing law: a match names a non-empty service segment without `/`, its
/// forward path starts with `/`, and the incoming path is the strip prefix
/// followed by the forward path (or the strip prefix alone, with or without
/// one trailing `/`, when the forward path is just `/`).
pub proof fn lemma_route_reconstructs(prefix: Seq<char>, path: Seq<char>)
    requires
        spec_route(prefix, path) is Some,
    ensures
        ({
            let (svc, fwd, strip) = spec_route(prefix, path)->0;
            &&& svc.len() > 0
            &&& !svc.contains('/')
            &&& fwd.len() > 0 && fwd[0] == '/'
            &&& strip == trim_end(prefix, '/').push('/') + svc
            &&& starts_with(path, strip)
            &&& (path == strip + fwd || (fwd == seq!['/'] && (path == strip || path == strip.push(
                '/',
            ))))
        }),
{
    let p = trim_end(prefix, '/');
    let head = p.push('/');
    let rest = path.skip(head.len() as int);
    let (svc, fwd, strip) = spec_route(prefix, path)->0;
    assert(path =~= head + rest);
    match first_index(rest, '/') {
        Some(i) => {
            crate::text::lemma_first_index_some(rest, '/');
            assert(svc =~= rest.take(i));
            if svc.contains('/') {
                let k = choose|k: int| 0 <= k < svc.len() && svc[k] == '/';
                assert(rest[k] == '/');
            }
            let tail = rest.skip(i + 1);
            assert(rest =~= svc + seq!['/'] + tail);
            if tail.len() == 0 {
                assert(path =~= strip.push('/'));
            } else {
                assert(path =~= strip + (seq!['/'] + tail));
            }
            assert(strip.len() <= path.len());
            assert(path.take(strip.len() as int) =~= strip);
        },
        None => {
            assert(!rest.contains('/'));
            assert(svc =~= rest);
            assert(path =~= strip);
            assert(path.take(strip.len() as int) =~= strip);
        },
    }
}

/// Routing completeness: a path made of the trimmed proxy prefix, `/`, a
/// non-empty service segment without `/`, and a tail that is empty or starts
/// with `/`, routes to that service; the forward path is the tail (`/` when
/// the tail is empty or `/` alone) and the strip prefix is everything before
/// the tail. This holds for every proxy prefix, however many segments it has.
pub proof fn lemma_route_complete(prefix: Seq<char>, svc: Seq<char>, tail: Seq<char>)
    requires
        svc.len() > 0,
        !svc.contains('/'),
        tail.len() == 0 || tail[0] == '/',
    ensures
        ({
            let head = trim_end(prefix, '/').push('/');
            spec_route(prefix, head + svc + tail) == Some(
                (svc, if tail.len() <= 1 { seq!['/'] } else { tail }, head + svc),
            )
        }),
{
    let p = trim_end(prefix, '/');
    let head = p.push('/');
    let path = head + svc + tail;
    assert(path.len() > p.len());
    assert(path != p);
    assert(path.take(head.len() as int) =~= head);
    let rest = path.skip(head.len() as int);
    assert(rest =~= svc + tail);
    if tail.len() == 0 {
        assert forall|k: int| 0 <= k < rest.len() implies rest[k] != '/' by {
            assert(rest[k] == svc[k]);
            if svc[k] == '/' {
                assert(svc.contains('/'));
            }
        }
        lemma_no_index(rest, '/');
    } else {
        let n = svc.len() as int;
        assert forall|k: int| 0 <= k < n implies rest[k] != '/' by {
            assert(rest[k] == svc[k]);
            if svc[k] == '/' {
                assert(svc.contains('/'));
            }
        }
        assert(is_first_index(rest, '/', n));
        lemma_first_index(rest, '/', n);
        assert(rest.take(n) =~= svc);
        let after = rest.skip(n + 1);
        assert(after =~= tail.skip(1));
        if tail.len() == 1 {
            assert(after.len() == 0);
        } else {
            assert(seq!['/'] + after =~= tail);
        }
    }
}

// ---------------------------------------------------------------------------
// validate_service_name
// ---------------------------------------------------------------------------

/// A character allowed in a service name: ASCII letter, digit, `-` or `_`.
pub open spec fn service_name_char(c: char) -> bool {
    ('a' <= c && c <= 'z') || ('A' <= c && c <= 'Z') || ('0' <= c && c <= '9') || c == '-' || c
        == '_'
}

/// The outcome of checking a service name, with the error text.
pub open spec fn spec_validate_service_name(name: Seq<char>) -> Result<(), Seq<char>> {
    if name.len() == 0 {
        Err("must not be empty"@)
    } else if exists|i: int| 0 <= i < name.len() && !service_name_char(#[trigger] name[i]) {
        Err("may contain only ASCII letters, digits, `_`, or `-`"@)
    } else {
        Ok(())
    }
}

/// A `Result` whose error is a `String`, with the error taken by its view.
pub open spec fn unit_result_view(r: Result<(), String>) -> Result<(), Seq<char>> {
    match r {
        Ok(()) => Ok(()),
        Err(e) => Err(e@),
    }
}

/// Accepts a non-empty name made of ASCII letters, digits, `_` and `-`.
pub fn validate_service_name(name: &str) -> (r: Result<(), String>)
    ensures
        unit_result_view(r) == spec_validate_service_name(name@),
{
    let v = chars_of(name);
    if v.len() == 0 {
        return Err(owned("must not be empty"));
    }
    let mut i: usize = 0;
    while i < v.len()
        invariant
            v@ == name@,
            i <= v@.len(),
            forall|k: int| 0 <= k < i ==> service_name_char(v@[k]),
        decreases v@.len() - i,
    {
        let c = v[i];
        if !(('a' <= c && c <= 'z') || ('A' <= c && c <= 'Z') || ('0' <= c && c <= '9') || c
            == '-' || c == '_') {
            assert(!service_name_char(name@[i as int]));
            return Err(owned("may contain only ASCII letters, digits, `_`, or `-`"));
        }
        i = i + 1;
    }
    Ok(())
}

// ---------------------------------------------------------------------------
// validate_forward_path
// ---------------------------------------------------------------------------

/// The check made on one `/`-separated segment of a forward path.
pub open spec fn spec_check_segment(seg: Seq<char>) -> Result<(), Seq<char>> {
    match percent_decode_text(seg) {
        None => Err("path segments must be valid UTF-8 after percent decoding"@),
        Some(d) => if d == seq!['.'] || d == seq!['.', '.'] {
            Err("dot segments are not allowed"@)
        } else if d.contains('/') || d.contains('\\') {
            Err("encoded path separators are not allowed"@)
        } else {
            Ok(())
        },
    }
}

/// The checks of all segments of `s` (split at every `/`), in order; the
/// first failing segment gives the error.
pub open spec fn spec_check_segments(s: Seq<char>) -> Result<(), Seq<char>>
    decreases s.len(),
{
    match first_index(s, '/') {
        None => spec_check_segment(s),
        Some(i) => match spec_check_segment(s.take(i)) {
            Err(e) => Err(e),
            Ok(()) => if 0 <= i < s.len() {
                spec_check_segments(s.skip(i + 1))
            } else {
                Ok(())
            },
        },
    }
}

/// The outcome of checking a forward path.
pub open spec fn spec_validate_forward_path(path: Seq<char>) -> Result<(), Seq<char>> {
    if !starts_with(path, seq!['/']) {
        Err("must start with `/`"@)
    } else {
        spec_check_segments(path)
    }
}

/// Segment law: a segment is accepted when its decoded text is neither `.`
/// nor `..` and holds no `/` or `\`; dots elsewhere, as in a file name, are
/// no reason to refuse it.
pub proof fn lemma_segment_accepted(seg: Seq<char>, decoded: Seq<char>)
    requires
        percent_decode_text(seg) == Some(decoded),
        decoded != seq!['.'],
        decoded != seq!['.', '.'],
        !decoded.contains('/'),
        !decoded.contains('\\'),
    ensures
        spec_check_segment(seg) == Ok::<(), Seq<char>>(()),
{
}

/// Segment law for segments without any `%`: they are taken as they are, so
/// one without `/` or `\` is accepted unless it is `.` or `..`.
pub proof fn lemma_plain_segment_accepted(seg: Seq<char>)
    requires
        !seg.contains('%'),
        !seg.contains('/'),
        !seg.contains('\\'),
        seg != seq!['.'],
        seg != seq!['.', '.'],
    ensures
        spec_check_segment(seg) == Ok::<(), Seq<char>>(()),
{
    crate::outside::lemma_percent_decode_plain(seg);
}

/// Segment law: a segment is refused as a dot segment only when its decoded
/// text is exactly `.` or `..`.
pub proof fn lemma_dot_segment_refusal(seg: Seq<char>)
    requires
        spec_check_segment(seg) == Err::<(), Seq<char>>("dot segments are not allowed"@),
    ensures
        percent_decode_text(seg) == Some(seq!['.']) || percent_decode_text(seg) == Some(
            seq!['.', '.'],
        ),
{
    reveal_strlit("dot segments are not allowed");
    reveal_strlit("encoded path separators are not allowed");
    reveal_strlit("path segments must be valid UTF-8 after percent decoding");
    assert("dot segments are not allowed"@.len() != "encoded path separators are not allowed"@.len());
    assert("dot segments are not allowed"@.len()
        != "path segments must be valid UTF-8 after percent decoding"@.len());
}

/// Path law: the segments of `first + "/" + rest`, where `first` holds no
/// `/`, are checked by checking `first` and then, if it passes, the segments
/// of `rest`; a path without `/` is one segment.
pub proof fn lemma_check_segments_split(first: Seq<char>, rest: Seq<char>)
    requires
        !first.contains('/'),
    ensures
        spec_check_segments(first) == spec_check_segment(first),
        spec_check_segments(first + seq!['/'] + rest) == match spec_check_segment(first) {
            Err(e) => Err(e),
            Ok(()) => spec_check_segments(rest),
        },
{
    lemma_no_index(first, '/');
    let s = first + seq!['/'] + rest;
    let n = first.len() as int;
    assert forall|k: int| 0 <= k < n implies s[k] != '/' by {
        assert(s[k] == first[k]);
        if first[k] == '/' {
            assert(first.contains('/'));
        }
    }
    assert(is_first_index(s, '/', n));
    lemma_first_index(s, '/', n);
    assert(s.take(n) =~= first);
    assert(s.skip(n + 1) =~= rest);
}

/// Checks one segment, given as its text.
fn check_segment(seg: &str) -> (r: Result<(), String>)
    ensures
        unit_result_view(r) == spec_check_segment(seg@),
{
    match percent_decode_utf8(seg) {
        None => Err(owned("path segments must be valid UTF-8 after percent decoding")),
        Some(decoded) => {
            let d = chars_of(decoded.as_str());
            let one_dot = (d.len() == 1 && d[0] == '.');
            let two_dots = (d.len() == 2 && d[0] == '.' && d[1] == '.');
            if one_dot || two_dots {
                proof {
                    if one_dot {
                        assert(d@ =~= seq!['.']);
                    } else {
                        assert(d@ =~= seq!['.', '.']);
                    }
                }
                return Err(owned("dot segments are not allowed"));
            }
            assert(d@ != seq!['.']) by {
                if d@ == seq!['.'] {
                    assert(d@[0] == '.');
                }
            }
            assert(d@ != seq!['.', '.']) by {
                if d@ == seq!['.', '.'] {
                    assert(d@[0] == '.' && d@[1] == '.');
                }
            }
            if has_char(&d, '/') || has_char(&d, '\\') {
                return Err(owned("encoded path separators are not allowed"));
            }
            Ok(())
        },
    }
}

/// Accepts a path that starts with `/` and whose every segment, once
/// percent-decoded, is valid UTF-8, is neither `.` nor `..`, and holds no
/// `/` or `\`.
pub fn validate_forward_path(path: &str) -> (r: Result<(), String>)
    ensures
        unit_result_view(r) == spec_validate_forward_path(path@),
{
    let v = chars_of(path);
    if !(v.len() > 0 && v[0] == '/') {
        proof {
            if starts_with(path@, seq!['/']) {
                assert(path@.take(1)[0] == path@[0]);
            }
        }
        return Err(owned("must start with `/`"));
    }
    assert(path@.take(1) =~= seq!['/']);
    assert(path@.skip(0) =~= path@);
    let mut start: usize = 0;
    loop
        invariant
            v@ == path@,
            start <= v@.len(),
            spec_check_segments(path@) == spec_check_segments(path@.skip(start as int)),
            spec_validate_forward_path(path@) == spec_check_segments(path@),
        decreases v@.len() - start,
    {
        let ghost s = path@.skip(start as int);
        match find_from(&v, '/', start) {
            Some(j) => {
                proof {
                    lemma_first_index(s, '/', j - start);
                }
                assert(s.take(j - start) =~= v@.subrange(start as int, j as int));
                assert(s.skip(j - start + 1) =~= path@.skip(j + 1));
                let len = v.len();
                assert(j < len);
                let seg = string_of(&v, start, j);
                match check_segment(seg.as_str()) {
                    Err(e) => {
                        return Err(e);
                    },
                    Ok(()) => {},
                }
                start = j + 1;
            },
            None => {
                proof {
                    lemma_no_index(s, '/');
                }
                assert(s =~= v@.subrange(start as int, v@.len() as int));
                let seg = string_of(&v, start, v.len());
                return check_segment(seg.as_str());
            },
        }
    }
}

// ---------------------------------------------------------------------------
// path_matches_prefix
// ---------------------------------------------------------------------------

/// Whether an allowed path prefix admits `path`: `/` admits every path; a
/// prefix ending in `/` admits the paths that start with it; any other prefix
/// admits itself and the paths that continue it with a `/`.
pub open spec fn spec_path_matches_prefix(path: Seq<char>, prefix: Seq<char>) -> bool {
    if prefix == seq!['/'] || path == prefix {
        true
    } else if ends_with(prefix, seq!['/']) {
        starts_with(path, prefix)
    } else {
        starts_with(path, prefix) && starts_with(path.skip(prefix.len() as int), seq!['/'])
    }
}

/// Segment-aware prefix match of `path` against `prefix`.
pub fn path_matches_prefix(path: &str, prefix: &str) -> (b: bool)
    ensures
        b == spec_path_matches_prefix(path@, prefix@),
{
    let xv = chars_of(path);
    let pv = chars_of(prefix);
    let root = (pv.len() == 1 && pv[0] == '/');
    proof {
        if root {
            assert(prefix@ =~= seq!['/']);
        } else if prefix@ == seq!['/'] {
            assert(prefix@[0] == '/');
        }
    }
    if root || chars_eq(&xv, &pv) {
        return true;
    }
    if pv.len() > 0 && pv[pv.len() - 1] == '/' {
        assert(prefix@.skip(prefix@.len() - 1) =~= seq!['/']);
        assert(xv@.skip(0) =~= xv@);
        starts_with_at(&xv, 0, &pv)
    } else {
        proof {
            if ends_with(prefix@, seq!['/']) {
                assert(prefix@[prefix@.len() - 1] == prefix@.skip(prefix@.len() - 1)[0]);
            }
        }
        assert(xv@.skip(0) =~= xv@);
        if !starts_with_at(&xv, 0, &pv) {
            return false;
        }
        let at = pv.len();
        let r = at < xv.len() && xv[at] == '/';
        proof {
            if r {
                assert(path@.skip(at as int).take(1) =~= seq!['/']);
            } else if starts_with(path@.skip(at as int), seq!['/']) {
                assert(path@.skip(at as int).take(1)[0] == path@[at as int]);
            }
        }
        r
    }
}

/// Prefix-matching law: a prefix other than `/` and not ending in `/` admits
/// a path only at a segment boundary, that is, the path is the prefix itself
/// or continues it with `/`.
pub proof fn lemma_prefix_match_segment_aware(path: Seq<char>, prefix: Seq<char>)
    requires
        spec_path_matches_prefix(path, prefix),
        prefix != seq!['/'],
        !ends_with(prefix, seq!['/']),
    ensures
        path == prefix || starts_with(path, prefix.push('/')),
{
    if path != prefix {
        let n = prefix.len() as int;
        assert(path.skip(n).take(1)[0] == path[n]);
        assert(path.take(n + 1) =~= prefix.push('/'));
    }
}

/// Prefix-matching law, converse of the segment law: every prefix admits
/// itself and every path that continues it with `/`, however many segments
/// follow.
pub proof fn lemma_prefix_match_at_boundary(path: Seq<char>, prefix: Seq<char>)
    requires
        path == prefix || starts_with(path, prefix.push('/')),
    ensures
        spec_path_matches_prefix(path, prefix),
{
    if path != prefix && prefix != seq!['/'] {
        let n = prefix.len() as int;
        assert(path.take(n + 1)[n] == '/');
        assert(path.take(n) =~= path.take(n + 1).take(n));
        assert(path.take(n + 1).take(n) =~= prefix);
        assert(path.skip(n).take(1) =~= seq!['/']);
    }
}

/// Prefix-matching law for prefixes ending in `/` other than `/` itself:
/// such a prefix admits exactly the paths that start with it, at any depth.
pub proof fn lemma_slash_prefix_match(path: Seq<char>, prefix: Seq<char>)
    requires
        ends_with(prefix, seq!['/']),
        prefix != seq!['/'],
    ensures
        spec_path_matches_prefix(path, prefix) <==> starts_with(path, prefix),
{
    if path == prefix {
        assert(path.take(prefix.len() as int) =~= path);
    }
}

/// Prefix-matching law for the root: `/` admits every path.
pub proof fn lemma_root_prefix_admits_all(path: Seq<char>)
    ensures
        spec_path_matches_prefix(path, seq!['/']),
{
}

} // verus!
