//! Request-handling decisions: host extraction, WebSocket upgrade
//! detection, subroute resolution with path rewriting, and the
//! redirect / forward / tunnel decision for one inbound request.

use vstd::prelude::*;

use crate::config::Config;
use crate::config::SubrouteView;
use crate::config::lookup_spec;
use crate::numfmt::dec_str;
use crate::numfmt::u16_to_string;
use crate::strutil::push_char;
use crate::strutil::spec_starts_with;
use crate::strutil::str_eq;
use crate::strutil::str_starts_with;
use crate::validator::can_serve_tls_spec;

verus! {

/// Case-insensitive equality of two ASCII characters.
pub open spec fn eq_ci(c: char, d: char) -> bool {
    ||| c == d
    ||| (65 <= c as u32 <= 90 && c as u32 + 32 == d as u32)
    ||| (65 <= d as u32 <= 90 && d as u32 + 32 == c as u32)
}

/// Case-insensitive equality of two character sequences.
pub open spec fn seq_eq_ci(a: Seq<char>, b: Seq<char>) -> bool {
    a.len() == b.len() && forall|i: int| 0 <= i < a.len() ==> eq_ci(a[i], #[trigger] b[i])
}

/// The sequence holds the pattern, compared case-insensitively.
pub open spec fn contains_ci(s: Seq<char>, pat: Seq<char>) -> bool {
    exists|k: int|
        0 <= k <= s.len() - pat.len() && #[trigger] seq_eq_ci(s.subrange(k, k + pat.len()), pat)
}

/// ASCII case-insensitive equality of two strings.
pub fn str_eq_ignore_case(a: &str, b: &str) -> (r: bool)
    ensures
        r == seq_eq_ci(a@, b@),
{
    let alen = a.unicode_len();
    let blen = b.unicode_len();
    if alen != blen {
        return false;
    }
    let mut i: usize = 0;
    while i < alen
        invariant
            i <= alen,
            alen == a@.len(),
            alen == b@.len(),
            forall|j: int| 0 <= j < i ==> eq_ci(a@[j], #[trigger] b@[j]),
        decreases alen - i,
    {
        let ca = a.get_char(i) as u32;
        let cb = b.get_char(i) as u32;
        let fa = if 65 <= ca && ca <= 90 {
            ca + 32
        } else {
            ca
        };
        let fb = if 65 <= cb && cb <= 90 {
            cb + 32
        } else {
            cb
        };
        if fa != fb {
            proof {
                assert(!eq_ci(a@[i as int], b@[i as int]));
            }
            return false;
        }
        i = i + 1;
    }
    true
}

/// Whether the pattern matches at offset `k`, case-insensitively.
#[verifier::loop_isolation(false)]
fn matches_at_ci(s: &str, pat: &str, k: usize) -> (r: bool)
    requires
        k + pat@.len() <= s@.len(),
    ensures
        r == seq_eq_ci(s@.subrange(k as int, k + pat@.len()), pat@),
{
    let n = s.unicode_len();
    let m = pat.unicode_len();
    let mut i: usize = 0;
    while i < m
        invariant
            i <= m,
            k + m <= n,
            n == s@.len(),
            m == pat@.len(),
            forall|j: int| 0 <= j < i ==> eq_ci(s@[k + j], #[trigger] pat@[j]),
        decreases m - i,
    {
        let ca = s.get_char(k + i) as u32;
        let cb = pat.get_char(i) as u32;
        let fa = if 65 <= ca && ca <= 90 {
            ca + 32
        } else {
            ca
        };
        let fb = if 65 <= cb && cb <= 90 {
            cb + 32
        } else {
            cb
        };
        if fa != fb {
            proof {
                assert(s@.subrange(k as int, k + pat@.len())[i as int] == s@[k + i]);
                assert(!eq_ci(s@[k + i], pat@[i as int]));
            }
            return false;
        }
        proof {
            assert(eq_ci(s@[k + i], pat@[i as int]));
        }
        i = i + 1;
    }
    proof {
        assert(forall|j: int|
            0 <= j < pat@.len() ==> #[trigger] s@.subrange(k as int, k + pat@.len())[j] == s@[k
                + j]);
    }
    true
}

/// Case-insensitive substring search.
#[verifier::loop_isolation(false)]
pub fn str_contains_ignore_case(s: &str, pat: &str) -> (r: bool)
    ensures
        r == contains_ci(s@, pat@),
{
    let n = s.unicode_len();
    let m = pat.unicode_len();
    if m > n {
        return false;
    }
    let mut k: usize = 0;
    while k <= n - m
        invariant
            k <= n - m + 1,
            forall|x: int|
                0 <= x < k ==> !#[trigger] seq_eq_ci(s@.subrange(x, x + pat@.len()), pat@),
        decreases n + 1 - k,
    {
        if matches_at_ci(s, pat, k) {
            return true;
        }
        k = k + 1;
    }
    false
}

/// An upgrade request: an `Upgrade: websocket` header together with a
/// `Connection` header that contains `upgrade`, case-insensitively.
pub open spec fn is_websocket_spec(upgrade: Option<Seq<char>>, connection: Option<Seq<char>>) -> bool {
    &&& (upgrade matches Some(u) && seq_eq_ci(u, "websocket"@))
    &&& (connection matches Some(c) && contains_ci(c, "upgrade"@))
}

/// Detect a WebSocket upgrade from the two header values.
pub fn is_websocket(upgrade: Option<&str>, connection: Option<&str>) -> (r: bool)
    ensures
        r == is_websocket_spec(
            match upgrade {
                Some(u) => Some(u@),
                None => None,
            },
            match connection {
                Some(c) => Some(c@),
                None => None,
            },
        ),
{
    let up_ok = match upgrade {
        Some(u) => str_eq_ignore_case(u, "websocket"),
        None => false,
    };
    if !up_ok {
        return false;
    }
    match connection {
        Some(c) => str_contains_ignore_case(c, "upgrade"),
        None => false,
    }
}

/// The index of the first occurrence of the character at or after `i`,
/// or the length when there is none.
pub open spec fn first_index_from(s: Seq<char>, c: char, i: int) -> int
    decreases s.len() - i,
{
    if i < 0 || i >= s.len() {
        s.len() as int
    } else if s[i] == c {
        i
    } else {
        first_index_from(s, c, i + 1)
    }
}

fn find_char_from(s: &str, c: char, i: usize) -> (r: usize)
    requires
        i <= s@.len(),
    ensures
        r as int == first_index_from(s@, c, i as int),
        r <= s@.len(),
    decreases s@.len() - i,
{
    let n = s.unicode_len();
    if i >= n {
        n
    } else if s.get_char(i) == c {
        i
    } else {
        find_char_from(s, c, i + 1)
    }
}

/// What the host of a request is: the URI authority when present, else
/// the `Host` header with any `:port` suffix removed, else the URI host.
pub open spec fn extract_host_spec(
    authority: Option<Seq<char>>,
    host_header: Option<Seq<char>>,
    uri_host: Option<Seq<char>>,
) -> Option<Seq<char>> {
    if authority is Some {
        authority
    } else {
        match host_header {
            Some(h) => Some(h.subrange(0, first_index_from(h, ':', 0))),
            None => uri_host,
        }
    }
}

/// Extract the host for routing from the pieces of the request.
pub fn extract_host(
    authority: Option<&str>,
    host_header: Option<&str>,
    uri_host: Option<&str>,
) -> (r: Option<String>)
    ensures
        ({
            let spec = extract_host_spec(
                match authority {
                    Some(a) => Some(a@),
                    None => None,
                },
                match host_header {
                    Some(h) => Some(h@),
                    None => None,
                },
                match uri_host {
                    Some(u) => Some(u@),
                    None => None,
                },
            );
            match r {
                Some(s) => spec == Some(s@),
                None => spec is None,
            }
        }),
{
    if let Some(a) = authority {
        return Some(a.to_owned());
    }
    if let Some(h) = host_header {
        let cut = find_char_from(h, ':', 0);
        return Some(h.substring_char(0, cut).to_owned());
    }
    match uri_host {
        Some(u) => Some(u.to_owned()),
        None => None,
    }
}

/// The first subroute, in stored order, whose path is neither `/` nor
/// empty and is a literal prefix of the request path.
pub open spec fn subroute_lookup(subs: Seq<SubrouteView>, path: Seq<char>) -> Option<SubrouteView>
    decreases subs.len(),
{
    if subs.len() == 0 {
        None
    } else if subs[0].path != seq!['/'] && subs[0].path.len() > 0 && spec_starts_with(
        path,
        subs[0].path,
    ) {
        Some(subs[0])
    } else {
        subroute_lookup(subs.skip(1), path)
    }
}

/// A matched subroute's path is a non-empty prefix of the request
/// path.
pub proof fn lemma_subroute_lookup_props(subs: Seq<SubrouteView>, path: Seq<char>)
    ensures
        subroute_lookup(subs, path) matches Some(s) ==> spec_starts_with(path, s.path)
            && s.path.len() > 0,
    decreases subs.len(),
{
    if subs.len() > 0 {
        lemma_subroute_lookup_props(subs.skip(1), path);
    }
}

/// What the proxy decides to do with one request.
pub enum ProxyDecision {
    /// No route is configured for the host.
    NotFound,
    /// Answer a permanent redirect to the HTTPS equivalent.
    Redirect { location: String },
    /// Hand the connection to the WebSocket tunnel.
    Websocket { host: String, port: u16, subroute_path: String },
    /// Forward to the backend, with the path and query the upstream
    /// request must carry.
    Forward { target: String, path_and_query: String },
}

/// The request's path and query, as they appear after the authority.
pub open spec fn path_query(path: Seq<char>, query: Option<Seq<char>>) -> Seq<char> {
    path + match query {
        Some(q) => seq!['?'] + q,
        None => Seq::empty(),
    }
}

/// The backend target for a plain forward.
pub open spec fn forward_target(host: Seq<char>, port: u16) -> Seq<char> {
    "http://"@ + host + seq![':'] + dec_str(port as int)
}

/// The decision for one request, given the frontend scheme, the
/// resolved host, the request path and query, and whether the request
/// asks for a WebSocket upgrade.
pub open spec fn decision_spec(
    c: crate::config::ConfigView,
    scheme_is_http: bool,
    host: Seq<char>,
    path: Seq<char>,
    query: Option<Seq<char>>,
    is_ws: bool,
) -> ProxyDecisionView {
    match lookup_spec(c.routes, host) {
        None => ProxyDecisionView::NotFound,
        Some(route) => {
            if scheme_is_http && route.redirect_to_https && can_serve_tls_spec(c, host) {
                ProxyDecisionView::Redirect { location: "https://"@ + host + path_query(path, query) }
            } else {
                let sub = subroute_lookup(route.subroutes, path);
                if is_ws {
                    match sub {
                        Some(s) => ProxyDecisionView::Websocket {
                            host: route.host,
                            port: s.port,
                            subroute_path: s.path,
                        },
                        None => ProxyDecisionView::Websocket {
                            host: route.host,
                            port: route.port,
                            subroute_path: Seq::empty(),
                        },
                    }
                } else {
                    match sub {
                        Some(s) => ProxyDecisionView::Forward {
                            target: forward_target(route.host, s.port),
                            path_and_query: (if path.len() == s.path.len() {
                                seq!['/']
                            } else {
                                path.skip(s.path.len() as int)
                            }) + match query {
                                Some(q) => seq!['?'] + q,
                                None => Seq::empty(),
                            },
                        },
                        None => ProxyDecisionView::Forward {
                            target: forward_target(route.host, route.port),
                            path_and_query: path_query(path, query),
                        },
                    }
                }
            }
        },
    }
}

/// The ghost image of a decision.
pub ghost enum ProxyDecisionView {
    NotFound,
    Redirect { location: Seq<char> },
    Websocket { host: Seq<char>, port: u16, subroute_path: Seq<char> },
    Forward { target: Seq<char>, path_and_query: Seq<char> },
}

impl View for ProxyDecision {
    type V = ProxyDecisionView;

    open spec fn view(&self) -> ProxyDecisionView {
        match self {
            ProxyDecision::NotFound => ProxyDecisionView::NotFound,
            ProxyDecision::Redirect { location } => ProxyDecisionView::Redirect {
                location: location@,
            },
            ProxyDecision::Websocket { host, port, subroute_path } => ProxyDecisionView::Websocket {
                host: host@,
                port: *port,
                subroute_path: subroute_path@,
            },
            ProxyDecision::Forward { target, path_and_query } => ProxyDecisionView::Forward {
                target: target@,
                path_and_query: path_and_query@,
            },
        }
    }
}

/// Build the path-and-query string.
fn build_path_query(path: &str, query: Option<&str>) -> (r: String)
    ensures
        r@ == path_query(
            path@,
            match query {
                Some(q) => Some(q@),
                None => None,
            },
        ),
{
    let mut r = path.to_owned();
    if let Some(q) = query {
        push_char(&mut r, '?');
        r.append(q);
        proof {
            assert(r@ =~= path@ + (seq!['?'] + q@));
        }
    } else {
        proof {
            assert(r@ =~= path@ + Seq::<char>::empty());
        }
    }
    r
}

/// Build the backend target URL.
fn build_forward_target(host: &str, port: u16) -> (r: String)
    ensures
        r@ == forward_target(host@, port),
{
    let mut r = "http://".to_owned();
    r.append(host);
    push_char(&mut r, ':');
    let p = u16_to_string(port);
    r.append(p.as_str());
    proof {
        assert(r@ =~= "http://"@ + host@ + seq![':'] + dec_str(port as int));
    }
    r
}

/// The path of the upstream WebSocket handshake: the original path and
/// query with the subroute prefix stripped when it applies, `/` when
/// stripping leaves nothing; always over plain transport, since TLS
/// terminates at the proxy.
pub open spec fn ws_upstream_path_spec(subroute_path: Seq<char>, suffix: Seq<char>) -> Seq<char> {
    if subroute_path.len() > 0 && spec_starts_with(suffix, subroute_path) {
        let stripped = suffix.skip(subroute_path.len() as int);
        if stripped.len() == 0 {
            seq!['/']
        } else {
            stripped
        }
    } else {
        suffix
    }
}

/// Build the upstream handshake path from the original path and query.
pub fn ws_upstream_path(subroute_path: &str, path_and_query: &str) -> (r: String)
    ensures
        r@ == ws_upstream_path_spec(subroute_path@, path_and_query@),
{
    let plen = subroute_path.unicode_len();
    if plen > 0 && str_starts_with(path_and_query, subroute_path) {
        let n = path_and_query.unicode_len();
        if plen == n {
            let slash = "/".to_owned();
            proof {
                reveal_strlit("/");
                assert(slash@ =~= seq!['/']);
            }
            slash
        } else {
            path_and_query.substring_char(plen, n).to_owned()
        }
    } else {
        path_and_query.to_owned()
    }
}

/// The upstream WebSocket URL: plain transport to `host:port` with the
/// rewritten path.
pub fn ws_upstream_uri(host: &str, port: u16, subroute_path: &str, path_and_query: &str) -> (r:
    String)
    ensures
        r@ == "http://"@ + host@ + seq![':'] + dec_str(port as int) + ws_upstream_path_spec(
            subroute_path@,
            path_and_query@,
        ),
{
    let mut r = "http://".to_owned();
    r.append(host);
    push_char(&mut r, ':');
    let p = u16_to_string(port);
    r.append(p.as_str());
    let path = ws_upstream_path(subroute_path, path_and_query);
    r.append(path.as_str());
    proof {
        assert(r@ =~= "http://"@ + host@ + seq![':'] + dec_str(port as int) + ws_upstream_path_spec(
            subroute_path@,
            path_and_query@,
        ));
    }
    r
}

/// The `X-Forwarded-For` value handed upstream: the client address,
/// appended to the existing chain when one came in.
pub open spec fn xff_value_spec(existing: Option<Seq<char>>, client_ip: Seq<char>) -> Seq<char> {
    match existing {
        Some(e) => e + ", "@ + client_ip,
        None => client_ip,
    }
}

pub fn xff_value(existing: Option<&str>, client_ip: &str) -> (r: String)
    ensures
        r@ == xff_value_spec(
            match existing {
                Some(e) => Some(e@),
                None => None,
            },
            client_ip@,
        ),
{
    match existing {
        Some(e) => {
            let mut r = e.to_owned();
            r.append(", ");
            r.append(client_ip);
            proof {
                assert(r@ =~= e@ + ", "@ + client_ip@);
            }
            r
        },
        None => client_ip.to_owned(),
    }
}

/// What the tunnel does with the upstream handshake answer: only a
/// `101 Switching Protocols` opens the tunnel; any other status is
/// relayed to the client verbatim, headers and body included.
pub enum WsHandshake {
    RelayVerbatim,
    OpenTunnel,
}

pub fn ws_handshake_decision(status: u16) -> (r: WsHandshake)
    ensures
        r is OpenTunnel <==> status == 101,
{
    if status == 101 {
        WsHandshake::OpenTunnel
    } else {
        WsHandshake::RelayVerbatim
    }
}

/// The protocol-negotiation headers mirrored back to the client on a
/// `101`: exactly these five, nothing else.
pub fn ws_mirror_header_names() -> (r: Vec<String>)
    ensures
        r@.len() == 5,
        r@[0]@ == "upgrade"@,
        r@[1]@ == "connection"@,
        r@[2]@ == "sec-websocket-accept"@,
        r@[3]@ == "sec-websocket-protocol"@,
        r@[4]@ == "sec-websocket-extensions"@,
{
    let mut r: Vec<String> = Vec::new();
    r.push("upgrade".to_owned());
    r.push("connection".to_owned());
    r.push("sec-websocket-accept".to_owned());
    r.push("sec-websocket-protocol".to_owned());
    r.push("sec-websocket-extensions".to_owned());
    r
}

/// The index of the first subroute that applies to the path.
#[verifier::loop_isolation(false)]
fn find_subroute(subroutes: &Vec<crate::config::ProxyPathRoute>, path: &str) -> (r: Option<usize>)
    ensures
        ({
            let subs = subroutes@.map_values(|s: crate::config::ProxyPathRoute| s@);
            match r {
                Some(i) => i < subs.len() && subroute_lookup(subs, path@) == Some(subs[i as int]),
                None => subroute_lookup(subs, path@) is None,
            }
        }),
{
    let ghost subs = subroutes@.map_values(|s: crate::config::ProxyPathRoute| s@);
    let n = subroutes.len();
    proof {
        assert(subs.skip(0) =~= subs);
    }
    let mut i: usize = 0;
    while i < n
        invariant
            i <= n,
            n == subroutes.len(),
            subroute_lookup(subs.skip(i as int), path@) == subroute_lookup(subs, path@),
        decreases n - i,
    {
        proof {
            assert(subs.skip(i as int)[0] == subs[i as int]);
            assert(subs.skip(i as int).skip(1) =~= subs.skip(i + 1));
            reveal_strlit("/");
            assert("/"@ =~= seq!['/']);
        }
        let sp: &str = subroutes[i].path.as_str();
        if !str_eq(sp, "/") && sp.unicode_len() > 0 && str_starts_with(path, sp) {
            return Some(i);
        }
        i = i + 1;
    }
    proof {
        assert(subs.skip(n as int).len() == 0);
    }
    None
}

impl Config {
    /// Decide what to do with one request: reject an unknown host,
    /// redirect to HTTPS when asked for and actually servable, tunnel a
    /// WebSocket upgrade, or forward to the backend chosen by the first
    /// matching subroute, stripping its prefix from the path.
    #[verifier::loop_isolation(false)]
    pub fn route_request(
        &self,
        scheme_is_http: bool,
        host: &str,
        path: &str,
        query: Option<&str>,
        is_ws: bool,
    ) -> (r: ProxyDecision)
        ensures
            r@ == decision_spec(
                self@,
                scheme_is_http,
                host@,
                path@,
                match query {
                    Some(q) => Some(q@),
                    None => None,
                },
                is_ws,
            ),
    {
        let route = match self.lookup_host(host) {
            None => {
                return ProxyDecision::NotFound;
            },
            Some(route) => route,
        };
        if scheme_is_http && route.get_redirect_to_https() && self.can_serve_tls_for_host(host) {
            let mut location = "https://".to_owned();
            location.append(host);
            let pq = build_path_query(path, query);
            location.append(pq.as_str());
            proof {
                assert(location@ =~= "https://"@ + host@ + pq@);
            }
            return ProxyDecision::Redirect { location };
        }
        let found = find_subroute(&route.subroutes, path);
        let ghost subs = route@.subroutes;
        match found {
            Some(si) => {
                let sub = &route.subroutes[si];
                if is_ws {
                    ProxyDecision::Websocket {
                        host: route.host.clone(),
                        port: sub.port,
                        subroute_path: sub.path.clone(),
                    }
                } else {
                    let target = build_forward_target(route.host.as_str(), sub.port);
                    let splen = sub.path.as_str().unicode_len();
                    proof {
                        lemma_subroute_lookup_props(subs, path@);
                    }
                    let n = path.unicode_len();
                    let pq = if splen == n {
                        proof {
                            reveal_strlit("/");
                            assert("/"@ =~= seq!['/']);
                        }
                        build_path_query("/", query)
                    } else {
                        let stripped = path.substring_char(splen, n);
                        proof {
                            assert(stripped@ =~= path@.skip(subs[si as int].path.len() as int));
                        }
                        build_path_query(stripped, query)
                    };
                    ProxyDecision::Forward { target, path_and_query: pq }
                }
            },
            None => {
                if is_ws {
                    ProxyDecision::Websocket {
                        host: route.host.clone(),
                        port: route.get_port(),
                        subroute_path: String::new(),
                    }
                } else {
                    let target = build_forward_target(route.host.as_str(), route.get_port());
                    let pq = build_path_query(path, query);
                    ProxyDecision::Forward { target, path_and_query: pq }
                }
            },
        }
    }
}

} // verus!
