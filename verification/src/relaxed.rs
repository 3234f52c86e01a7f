//! The forgiving reader for the persisted file: JSON with any amount
//! of whitespace, keys in any order, optional fields absent, unknown
//! keys ignored, and a scalar of the wrong type replaced by the
//! field's default instead of failing the whole load. Structural
//! damage — text that is not a JSON object, a route map or route that
//! is not an object, a subroute list that is not an array — still
//! fails the load, and the store then treats the file as corrupted.
//!
//! On a text the serializer produced, the reader is proved to succeed
//! and to return exactly the serialized configuration, and the bare
//! object `{}` is proved to load as the all-defaults configuration.
//! The string, number and boolean readers carry exact span-level
//! contracts; the composition of members on other accepted texts is
//! pinned by tests.

use vstd::prelude::*;

use crate::codec::expect_lit;
use crate::codec::parse_bool_at;
use crate::codec::parse_u16_at;
use crate::codec::ser_config;
use crate::config::Config;
use crate::config::ConfigView;
use crate::config::ProxyPathRoute;
use crate::config::ProxyRoute;
use crate::config::RouteView;
use crate::config::keys_unique;
use crate::strutil::push_char;
use crate::strutil::str_eq;

verus! {

/// The whitespace JSON allows between tokens.
pub open spec fn is_json_ws(c: char) -> bool {
    c == ' ' || c == '\t' || c == '\n' || c == '\r'
}

/// The first position at or after `pos` that holds no whitespace.
fn skip_ws(s: &str, pos: usize) -> (r: usize)
    requires
        pos <= s@.len(),
    ensures
        pos <= r <= s@.len(),
        forall|k: int| pos <= k < r ==> is_json_ws(#[trigger] s@[k]),
        r < s@.len() ==> !is_json_ws(s@[r as int]),
    decreases s@.len() - pos,
{
    let n = s.unicode_len();
    if pos >= n {
        return pos;
    }
    let c = s.get_char(pos);
    if c == ' ' || c == '\t' || c == '\n' || c == '\r' {
        skip_ws(s, pos + 1)
    } else {
        pos
    }
}

/// Step over a JSON string, escape pairs included.
#[verifier::loop_isolation(false)]
fn skip_string(s: &str, pos: usize) -> (r: Option<usize>)
    requires
        pos <= s@.len(),
    ensures
        r matches Some(e) ==> pos < e <= s@.len(),
{
    let n = s.unicode_len();
    if pos >= n || s.get_char(pos) != '"' {
        return None;
    }
    let mut i = pos + 1;
    while i < n
        invariant
            pos + 1 <= i <= n,
        decreases n - i,
    {
        let c = s.get_char(i);
        if c == '"' {
            return Some(i + 1);
        }
        if c == '\\' {
            if i + 1 >= n {
                return None;
            }
            i = i + 2;
        } else {
            i = i + 1;
        }
    }
    None
}

/// Step over the characters a JSON number is made of.
#[verifier::loop_isolation(false)]
fn skip_number(s: &str, pos: usize) -> (r: Option<usize>)
    requires
        pos <= s@.len(),
    ensures
        r matches Some(e) ==> pos < e <= s@.len(),
{
    let n = s.unicode_len();
    let mut i = pos;
    while i < n
        invariant
            pos <= i <= n,
        decreases n - i,
    {
        let c = s.get_char(i) as u32;
        let numeric = (48 <= c && c <= 57) || c == 43 || c == 45 || c == 46 || c == 101 || c == 69;
        if !numeric {
            break ;
        }
        i = i + 1;
    }
    if i == pos {
        None
    } else {
        Some(i)
    }
}

/// Step over any JSON value, nested structures included.
#[verifier::loop_isolation(false)]
fn skip_value(s: &str, pos: usize) -> (r: Option<usize>)
    requires
        pos <= s@.len(),
    ensures
        r matches Some(e) ==> pos < e <= s@.len(),
    decreases s@.len() - pos,
{
    let n = s.unicode_len();
    if pos >= n {
        return None;
    }
    proof {
        reveal_strlit("true");
        reveal_strlit("false");
        reveal_strlit("null");
    }
    let c = s.get_char(pos);
    if c == '"' {
        return skip_string(s, pos);
    }
    if c == 't' {
        return expect_lit(s, pos, "true");
    }
    if c == 'f' {
        return expect_lit(s, pos, "false");
    }
    if c == 'n' {
        return expect_lit(s, pos, "null");
    }
    if c == '[' {
        let mut i = skip_ws(s, pos + 1);
        if i < n && s.get_char(i) == ']' {
            return Some(i + 1);
        }
        loop
            invariant
                pos < i <= n,
            decreases n - i,
        {
            let e = match skip_value(s, i) {
                Some(e) => e,
                None => {
                    return None;
                },
            };
            let j = skip_ws(s, e);
            if j >= n {
                return None;
            }
            if s.get_char(j) == ']' {
                return Some(j + 1);
            }
            if s.get_char(j) != ',' {
                return None;
            }
            i = skip_ws(s, j + 1);
            if i <= e {
                return None;
            }
        }
    }
    if c == '{' {
        let mut i = skip_ws(s, pos + 1);
        if i < n && s.get_char(i) == '}' {
            return Some(i + 1);
        }
        loop
            invariant
                pos < i <= n,
            decreases n - i,
        {
            let ke = match skip_string(s, i) {
                Some(e) => e,
                None => {
                    return None;
                },
            };
            let mut j = skip_ws(s, ke);
            if j >= n || s.get_char(j) != ':' {
                return None;
            }
            j = skip_ws(s, j + 1);
            let e = match skip_value(s, j) {
                Some(e) => e,
                None => {
                    return None;
                },
            };
            let k = skip_ws(s, e);
            if k >= n {
                return None;
            }
            if s.get_char(k) == '}' {
                return Some(k + 1);
            }
            if s.get_char(k) != ',' {
                return None;
            }
            i = skip_ws(s, k + 1);
            if i <= e {
                return None;
            }
        }
    }
    skip_number(s, pos)
}

/// How one escape letter names a character in the relaxed string
/// form.
pub open spec fn esc_map(d: char) -> Option<char> {
    if d == '"' {
        Some('"')
    } else if d == '\\' {
        Some('\\')
    } else if d == '/' {
        Some('/')
    } else if d == 'n' {
        Some('\n')
    } else if d == 't' {
        Some('\t')
    } else if d == 'r' {
        Some('\r')
    } else if d == 'b' {
        Some('\u{0008}')
    } else if d == 'f' {
        Some('\u{000C}')
    } else {
        None
    }
}

/// The span from `i` to `j` reads as the string body `v` in the
/// relaxed form: plain characters stand for themselves, an escape pair
/// for its named character, and no unescaped quote occurs inside.
pub open spec fn rstr_body(s: Seq<char>, i: int, j: int, v: Seq<char>) -> bool
    decreases j - i,
{
    if i >= j {
        i == j && v.len() == 0
    } else if s[i] == '\\' {
        &&& i + 2 <= j
        &&& v.len() > 0
        &&& esc_map(s[i + 1]) == Some(v[0])
        &&& rstr_body(s, i + 2, j, v.skip(1))
    } else {
        &&& s[i] != '"'
        &&& v.len() > 0
        &&& v[0] == s[i]
        &&& rstr_body(s, i + 1, j, v.skip(1))
    }
}

/// Extending a read body by one plain character.
proof fn lemma_rstr_snoc_plain(s: Seq<char>, a: int, b: int, v: Seq<char>)
    requires
        rstr_body(s, a, b, v),
        a <= b,
        s[b] != '"',
        s[b] != '\\',
    ensures
        rstr_body(s, a, b + 1, v.push(s[b])),
    decreases b - a,
{
    if a >= b {
        assert(v.len() == 0);
        assert(v.push(s[b]).skip(1) =~= Seq::<char>::empty());
        assert(rstr_body(s, b + 1, b + 1, v.push(s[b]).skip(1)));
        assert(v.push(s[b])[0] == s[b]);
    } else {
        if s[a] == '\\' {
            lemma_rstr_snoc_plain(s, a + 2, b, v.skip(1));
            assert(v.push(s[b]).skip(1) =~= v.skip(1).push(s[b]));
            assert(rstr_body(s, a + 2, b + 1, v.push(s[b]).skip(1)));
        } else {
            lemma_rstr_snoc_plain(s, a + 1, b, v.skip(1));
            assert(v.push(s[b]).skip(1) =~= v.skip(1).push(s[b]));
            assert(rstr_body(s, a + 1, b + 1, v.push(s[b]).skip(1)));
        }
        assert(v.push(s[b])[0] == v[0]);
    }
}

/// Extending a read body by one escape pair.
proof fn lemma_rstr_snoc_escape(s: Seq<char>, a: int, b: int, v: Seq<char>, c: char)
    requires
        rstr_body(s, a, b, v),
        a <= b,
        s[b] == '\\',
        esc_map(s[b + 1]) == Some(c),
    ensures
        rstr_body(s, a, b + 2, v.push(c)),
    decreases b - a,
{
    if a >= b {
        assert(v.len() == 0);
        assert(v.push(c).skip(1) =~= Seq::<char>::empty());
        assert(rstr_body(s, b + 2, b + 2, v.push(c).skip(1)));
        assert(v.push(c)[0] == c);
    } else {
        if s[a] == '\\' {
            lemma_rstr_snoc_escape(s, a + 2, b, v.skip(1), c);
            assert(v.push(c).skip(1) =~= v.skip(1).push(c));
            assert(rstr_body(s, a + 2, b + 2, v.push(c).skip(1)));
        } else {
            lemma_rstr_snoc_escape(s, a + 1, b, v.skip(1), c);
            assert(v.push(c).skip(1) =~= v.skip(1).push(c));
            assert(rstr_body(s, a + 1, b + 2, v.push(c).skip(1)));
        }
        assert(v.push(c)[0] == v[0]);
    }
}

/// Read a JSON string with the common escapes: the returned value is
/// exactly what the quoted span reads as.
#[verifier::loop_isolation(false)]
fn parse_string_relaxed(s: &str, pos: usize) -> (r: Option<(String, usize)>)
    requires
        pos <= s@.len(),
    ensures
        r matches Some((v, e)) ==> pos + 2 <= e <= s@.len() && s@[pos as int] == '"' && s@[e - 1]
            == '"' && rstr_body(s@, pos + 1, e - 1, v@),
{
    let n = s.unicode_len();
    if pos >= n || s.get_char(pos) != '"' {
        return None;
    }
    let mut out = String::new();
    let mut i = pos + 1;
    while i < n
        invariant
            pos + 1 <= i <= n,
            s@[pos as int] == '"',
            rstr_body(s@, pos + 1, i as int, out@),
        decreases n - i,
    {
        let c = s.get_char(i);
        if c == '"' {
            return Some((out, i + 1));
        }
        if c == '\\' {
            if i + 1 >= n {
                return None;
            }
            let d = s.get_char(i + 1);
            let mapped: char = if d == '"' {
                '"'
            } else if d == '\\' {
                '\\'
            } else if d == '/' {
                '/'
            } else if d == 'n' {
                '\n'
            } else if d == 't' {
                '\t'
            } else if d == 'r' {
                '\r'
            } else if d == 'b' {
                '\u{0008}'
            } else if d == 'f' {
                '\u{000C}'
            } else {
                // Other escapes (including the hexadecimal form) are
                // not read; the field falls back to its default.
                return None;
            };
            proof {
                assert(esc_map(s@[i + 1]) == Some(mapped));
                lemma_rstr_snoc_escape(s@, pos + 1, i as int, out@, mapped);
            }
            push_char(&mut out, mapped);
            i = i + 2;
        } else {
            proof {
                lemma_rstr_snoc_plain(s@, pos + 1, i as int, out@);
            }
            push_char(&mut out, c);
            i = i + 1;
        }
    }
    None
}

/// Read one subroute object, key by key: unknown keys are ignored, a
/// duplicate known key fails, a wrong-typed scalar takes the default.
#[verifier::loop_isolation(false)]
fn parse_subroute_relaxed(s: &str, pos: usize) -> (r: Option<(ProxyPathRoute, usize)>)
    requires
        pos <= s@.len(),
    ensures
        r matches Some((v, e)) ==> pos < e <= s@.len(),
{
    let n = s.unicode_len();
    if pos >= n || s.get_char(pos) != '{' {
        return None;
    }
    let mut path_f: Option<String> = None;
    let mut port_f: Option<u16> = None;
    let mut i = skip_ws(s, pos + 1);
    let mut end_pos: Option<usize> = None;
    if i < n && s.get_char(i) == '}' {
        end_pos = Some(i + 1);
    }
    while end_pos.is_none()
        invariant
            pos < i <= n,
            n == s@.len(),
            end_pos matches Some(e) ==> pos < e <= n,
        decreases n - i + if end_pos is Some {
            0int
        } else {
            1int
        },
    {
        let (key, ke) = match parse_string_relaxed(s, i) {
            Some(x) => x,
            None => {
                return None;
            },
        };
        let mut j = skip_ws(s, ke);
        if j >= n || s.get_char(j) != ':' {
            return None;
        }
        j = skip_ws(s, j + 1);
        let vend = match skip_value(s, j) {
            Some(e) => e,
            None => {
                return None;
            },
        };
        if str_eq(key.as_str(), "path") {
            if path_f.is_some() {
                return None;
            }
            let v = match parse_string_relaxed(s, j) {
                Some((v, e)) => if e == vend {
                    v
                } else {
                    String::new()
                },
                None => String::new(),
            };
            path_f = Some(v);
        } else if str_eq(key.as_str(), "port") {
            if port_f.is_some() {
                return None;
            }
            let v = match parse_u16_at(s, j) {
                Some((v, e)) => if e == vend {
                    v
                } else {
                    0u16
                },
                None => 0u16,
            };
            port_f = Some(v);
        }
        let k = skip_ws(s, vend);
        if k >= n {
            return None;
        }
        if s.get_char(k) == '}' {
            end_pos = Some(k + 1);
        } else if s.get_char(k) == ',' {
            i = skip_ws(s, k + 1);
            if i <= j {
                return None;
            }
        } else {
            return None;
        }
    }
    let e = match end_pos {
        Some(e) => e,
        None => {
            return None;
        },
    };
    let path = match path_f {
        Some(v) => v,
        None => String::new(),
    };
    let port = match port_f {
        Some(v) => v,
        None => 0u16,
    };
    Some((ProxyPathRoute { path, port }, e))
}

/// Read the subroute array; an element that is not an object fails the
/// load, as the strict reader always has.
#[verifier::loop_isolation(false)]
fn parse_subs_relaxed(s: &str, pos: usize) -> (r: Option<(Vec<ProxyPathRoute>, usize)>)
    requires
        pos <= s@.len(),
    ensures
        r matches Some((v, e)) ==> pos < e <= s@.len(),
{
    let n = s.unicode_len();
    if pos >= n || s.get_char(pos) != '[' {
        return None;
    }
    let mut subs: Vec<ProxyPathRoute> = Vec::new();
    let mut i = skip_ws(s, pos + 1);
    if i < n && s.get_char(i) == ']' {
        return Some((subs, i + 1));
    }
    loop
        invariant
            pos < i <= n,
            n == s@.len(),
        decreases n - i,
    {
        let (sub, e) = match parse_subroute_relaxed(s, i) {
            Some(x) => x,
            None => {
                return None;
            },
        };
        subs.push(sub);
        let j = skip_ws(s, e);
        if j >= n {
            return None;
        }
        if s.get_char(j) == ']' {
            return Some((subs, j + 1));
        }
        if s.get_char(j) != ',' {
            return None;
        }
        i = skip_ws(s, j + 1);
        if i <= e {
            return None;
        }
    }
}

/// Read one route object, key by key, with the field defaults of the
/// persisted format: a missing `host` is `localhost`, a missing or
/// wrong-typed scalar falls back as the format prescribes, a custom
/// listen port is kept only strictly between 0 and 65535, and the
/// subroute list must be an array when present.
#[verifier::loop_isolation(false)]
#[verifier::rlimit(100)]
fn parse_route_relaxed(s: &str, pos: usize) -> (r: Option<(ProxyRoute, usize)>)
    requires
        pos <= s@.len(),
    ensures
        r matches Some((v, e)) ==> pos < e <= s@.len(),
{
    let n = s.unicode_len();
    if pos >= n || s.get_char(pos) != '{' {
        return None;
    }
    let mut host_f: Option<String> = None;
    let mut path_f: Option<String> = None;
    let mut port_f: Option<u16> = None;
    let mut ssl_f: Option<bool> = None;
    let mut lp_f: Option<Option<u16>> = None;
    let mut rd_f: Option<bool> = None;
    let mut subs_f: Option<Vec<ProxyPathRoute>> = None;
    let mut i = skip_ws(s, pos + 1);
    let mut end_pos: Option<usize> = None;
    if i < n && s.get_char(i) == '}' {
        end_pos = Some(i + 1);
    }
    while end_pos.is_none()
        invariant
            pos < i <= n,
            n == s@.len(),
            end_pos matches Some(e) ==> pos < e <= n,
        decreases n - i + if end_pos is Some {
            0int
        } else {
            1int
        },
    {
        let (key, ke) = match parse_string_relaxed(s, i) {
            Some(x) => x,
            None => {
                return None;
            },
        };
        let mut j = skip_ws(s, ke);
        if j >= n || s.get_char(j) != ':' {
            return None;
        }
        j = skip_ws(s, j + 1);
        let is_subs = str_eq(key.as_str(), "subroutes");
        if is_subs {
            if subs_f.is_some() {
                return None;
            }
            let (subs, e) = match parse_subs_relaxed(s, j) {
                Some(x) => x,
                None => {
                    return None;
                },
            };
            subs_f = Some(subs);
            let k = skip_ws(s, e);
            if k >= n {
                return None;
            }
            if s.get_char(k) == '}' {
                end_pos = Some(k + 1);
            } else if s.get_char(k) == ',' {
                i = skip_ws(s, k + 1);
                if i <= j {
                    return None;
                }
            } else {
                return None;
            }
            continue ;
        }
        let vend = match skip_value(s, j) {
            Some(e) => e,
            None => {
                return None;
            },
        };
        if str_eq(key.as_str(), "host") {
            if host_f.is_some() {
                return None;
            }
            let v = match parse_string_relaxed(s, j) {
                Some((v, e)) => if e == vend {
                    v
                } else {
                    String::new()
                },
                None => String::new(),
            };
            host_f = Some(v);
        } else if str_eq(key.as_str(), "path") {
            if path_f.is_some() {
                return None;
            }
            let v = match parse_string_relaxed(s, j) {
                Some((v, e)) => if e == vend {
                    v
                } else {
                    String::new()
                },
                None => String::new(),
            };
            path_f = Some(v);
        } else if str_eq(key.as_str(), "port") {
            if port_f.is_some() {
                return None;
            }
            let v = match parse_u16_at(s, j) {
                Some((v, e)) => if e == vend {
                    v
                } else {
                    0u16
                },
                None => 0u16,
            };
            port_f = Some(v);
        } else if str_eq(key.as_str(), "ssl_enable") {
            if ssl_f.is_some() {
                return None;
            }
            let v = match parse_bool_at(s, j) {
                Some((v, e)) => if e == vend {
                    v
                } else {
                    false
                },
                None => false,
            };
            ssl_f = Some(v);
        } else if str_eq(key.as_str(), "redirect_to_https") {
            if rd_f.is_some() {
                return None;
            }
            let v = match parse_bool_at(s, j) {
                Some((v, e)) => if e == vend {
                    v
                } else {
                    false
                },
                None => false,
            };
            rd_f = Some(v);
        } else if str_eq(key.as_str(), "listen_port") {
            if lp_f.is_some() {
                return None;
            }
            let null_end = expect_lit(s, j, "null");
            let v: Option<u16> = match null_end {
                Some(e) => if e == vend {
                    None
                } else {
                    None
                },
                None => match parse_u16_at(s, j) {
                    Some((v, e)) => if e == vend && 0 < v && v < 65535 {
                        Some(v)
                    } else {
                        None
                    },
                    None => None,
                },
            };
            lp_f = Some(v);
        }
        let k = skip_ws(s, vend);
        if k >= n {
            return None;
        }
        if s.get_char(k) == '}' {
            end_pos = Some(k + 1);
        } else if s.get_char(k) == ',' {
            i = skip_ws(s, k + 1);
            if i <= j {
                return None;
            }
        } else {
            return None;
        }
    }
    let e = match end_pos {
        Some(e) => e,
        None => {
            return None;
        },
    };
    let route = ProxyRoute {
        host: match host_f {
            Some(v) => v,
            None => "localhost".to_owned(),
        },
        path: match path_f {
            Some(v) => v,
            None => String::new(),
        },
        port: match port_f {
            Some(v) => v,
            None => 0u16,
        },
        ssl_enable: match ssl_f {
            Some(v) => v,
            None => false,
        },
        listen_port: match lp_f {
            Some(v) => v,
            None => None,
        },
        redirect_to_https: match rd_f {
            Some(v) => v,
            None => false,
        },
        subroutes: match subs_f {
            Some(v) => v,
            None => Vec::new(),
        },
    };
    Some((route, e))
}

/// Read the route map: every key is a domain, every value must be a
/// route object, and a repeated key keeps the later route, as a map
/// does. The keys of the result are distinct.
#[verifier::loop_isolation(false)]
#[verifier::rlimit(100)]
fn parse_routes_relaxed(s: &str, pos: usize) -> (r: Option<(Vec<(String, ProxyRoute)>, usize)>)
    requires
        pos <= s@.len(),
    ensures
        r matches Some((v, e)) ==> pos < e <= s@.len() && keys_unique(
            v@.map_values(|kv: (String, ProxyRoute)| (kv.0@, kv.1@)),
        ),
{
    let n = s.unicode_len();
    if pos >= n || s.get_char(pos) != '{' {
        return None;
    }
    let mut routes: Vec<(String, ProxyRoute)> = Vec::new();
    let mut i = skip_ws(s, pos + 1);
    if i < n && s.get_char(i) == '}' {
        return Some((routes, i + 1));
    }
    loop
        invariant
            pos < i <= n,
            n == s@.len(),
            keys_unique(routes@.map_values(|kv: (String, ProxyRoute)| (kv.0@, kv.1@))),
        decreases n - i,
    {
        let (key, ke) = match parse_string_relaxed(s, i) {
            Some(x) => x,
            None => {
                return None;
            },
        };
        let mut j = skip_ws(s, ke);
        if j >= n || s.get_char(j) != ':' {
            return None;
        }
        j = skip_ws(s, j + 1);
        let (route, e) = match parse_route_relaxed(s, j) {
            Some(x) => x,
            None => {
                return None;
            },
        };
        // A repeated domain keeps the later route.
        let m = routes.len();
        let mut at: Option<usize> = None;
        let mut x: usize = 0;
        while x < m && at.is_none()
            invariant
                x <= m,
                m == routes.len(),
                at is None ==> forall|a: int| 0 <= a < x ==> (#[trigger] routes@[a]).0@ != key@,
                at matches Some(p) ==> p < routes@.len() && routes@[p as int].0@ == key@,
            decreases m - x + if at is Some {
                0int
            } else {
                1int
            },
        {
            if str_eq(routes[x].0.as_str(), key.as_str()) {
                at = Some(x);
            } else {
                x = x + 1;
            }
        }
        let ghost views0 = routes@.map_values(|kv: (String, ProxyRoute)| (kv.0@, kv.1@));
        match at {
            Some(p) => {
                let _ = routes.remove(p);
                routes.insert(p, (key, route));
                proof {
                    let views1 = routes@.map_values(|kv: (String, ProxyRoute)| (kv.0@, kv.1@));
                    assert(views1.len() == views0.len());
                    assert(forall|a: int|
                        0 <= a < views0.len() && a != p as int ==> #[trigger] views1[a]
                            == views0[a]);
                    assert(views1[p as int].0 == views0[p as int].0);
                    assert(keys_unique(views1)) by {
                        assert(forall|a: int|
                            0 <= a < views1.len() ==> (#[trigger] views1[a]).0 == views0[a].0);
                    }
                }
            },
            None => {
                routes.push((key, route));
                proof {
                    let views1 = routes@.map_values(|kv: (String, ProxyRoute)| (kv.0@, kv.1@));
                    assert(keys_unique(views1)) by {
                        assert(forall|a: int|
                            0 <= a < views0.len() ==> #[trigger] views1[a] == views0[a]);
                        assert(forall|a: int|
                            0 <= a < views0.len() ==> (#[trigger] views0[a]).0 != views1[
                                views1.len() - 1].0);
                    }
                }
            },
        }
        let k = skip_ws(s, e);
        if k >= n {
            return None;
        }
        if s.get_char(k) == '}' {
            return Some((routes, k + 1));
        }
        if s.get_char(k) != ',' {
            return None;
        }
        i = skip_ws(s, k + 1);
        if i <= j {
            return None;
        }
    }
}

/// Read a whole configuration in the forgiving form.
#[verifier::loop_isolation(false)]
#[verifier::rlimit(100)]
fn parse_config_tolerant(s: &str) -> (r: Option<Config>)
    ensures
        r matches Some(c) ==> c@.path =~= Seq::<char>::empty() && keys_unique(c@.routes),
        s@ == "{}"@ ==> (r matches Some(c) && c@.email =~= Seq::<char>::empty() && c@.cache_dir
            == "./cache"@ && c@.routes =~= Seq::<(Seq<char>, RouteView)>::empty()),
{
    let ghost bare = s@ == "{}"@;
    proof {
        if bare {
            reveal_strlit("{}");
        }
    }
    let n = s.unicode_len();
    let start = skip_ws(s, 0);
    proof {
        if bare {
            assert(!is_json_ws('{'));
            assert(start == 0) by {
                if start > 0 {
                    assert(is_json_ws(s@[0]));
                }
            }
        }
    }
    if start >= n || s.get_char(start) != '{' {
        return None;
    }
    let mut email_f: Option<String> = None;
    let mut cache_f: Option<String> = None;
    let mut routes_f: Option<Vec<(String, ProxyRoute)>> = None;
    let mut i = skip_ws(s, start + 1);
    proof {
        if bare {
            assert(!is_json_ws('}'));
            assert(i == 1) by {
                if i > 1 {
                    assert(is_json_ws(s@[1]));
                }
            }
        }
    }
    let mut end_pos: Option<usize> = None;
    if i < n && s.get_char(i) == '}' {
        end_pos = Some(i + 1);
    }
    proof {
        if bare {
            assert(end_pos == Some(2usize));
        }
    }
    while end_pos.is_none()
        invariant
            start < i <= n,
            n == s@.len(),
            end_pos matches Some(e) ==> e <= n,
            routes_f matches Some(v) ==> keys_unique(
                v@.map_values(|kv: (String, ProxyRoute)| (kv.0@, kv.1@)),
            ),
            bare ==> end_pos == Some(2usize),
            bare ==> email_f is None && cache_f is None && routes_f is None,
        decreases n - i + if end_pos is Some {
            0int
        } else {
            1int
        },
    {
        let (key, ke) = match parse_string_relaxed(s, i) {
            Some(x) => x,
            None => {
                return None;
            },
        };
        let mut j = skip_ws(s, ke);
        if j >= n || s.get_char(j) != ':' {
            return None;
        }
        j = skip_ws(s, j + 1);
        let is_routes = str_eq(key.as_str(), "routes");
        let after: usize;
        if is_routes {
            if routes_f.is_some() {
                return None;
            }
            let (routes, e) = match parse_routes_relaxed(s, j) {
                Some(x) => x,
                None => {
                    return None;
                },
            };
            routes_f = Some(routes);
            after = e;
        } else {
            let vend = match skip_value(s, j) {
                Some(e) => e,
                None => {
                    return None;
                },
            };
            if str_eq(key.as_str(), "email") {
                if email_f.is_some() {
                    return None;
                }
                let v = match parse_string_relaxed(s, j) {
                    Some((v, e)) => if e == vend {
                        v
                    } else {
                        String::new()
                    },
                    None => String::new(),
                };
                email_f = Some(v);
            } else if str_eq(key.as_str(), "cache_dir") {
                if cache_f.is_some() {
                    return None;
                }
                let v = match parse_string_relaxed(s, j) {
                    Some((v, e)) => if e == vend {
                        v
                    } else {
                        String::new()
                    },
                    None => String::new(),
                };
                cache_f = Some(v);
            }
            after = vend;
        }
        let k = skip_ws(s, after);
        if k >= n {
            return None;
        }
        if s.get_char(k) == '}' {
            end_pos = Some(k + 1);
        } else if s.get_char(k) == ',' {
            i = skip_ws(s, k + 1);
            if i <= j {
                return None;
            }
        } else {
            return None;
        }
    }
    let e = match end_pos {
        Some(e) => e,
        None => {
            return None;
        },
    };
    if skip_ws(s, e) != n {
        return None;
    }
    let c = Config {
        path: String::new(),
        email: match email_f {
            Some(v) => v,
            None => String::new(),
        },
        cache_dir: match cache_f {
            Some(v) => v,
            None => "./cache".to_owned(),
        },
        routes: match routes_f {
            Some(v) => v,
            None => Vec::new(),
        },
    };
    proof {
        if c.routes@.len() == 0 {
            assert(keys_unique(c@.routes));
        }
        if bare {
            assert(c@.routes =~= Seq::<(Seq<char>, RouteView)>::empty());
        }
    }
    Some(c)
}

impl Config {
    /// Read a configuration from its persisted text, forgivingly. The
    /// canonical form the serializer writes is proved to be read back
    /// exactly — every serialized text parses, to the one
    /// configuration it serializes — and other texts are read by the
    /// forgiving rules above, always with distinct domain keys and an
    /// empty file location.
    pub fn parse_config_forgiving(s: &str) -> (r: Option<Config>)
        ensures
            (exists|c: ConfigView| s@ == #[trigger] ser_config(c)) ==> (r matches Some(c2) && s@
                == ser_config(c2@)),
            s@ == "{}"@ ==> (r matches Some(c2) && c2@.email =~= Seq::<char>::empty()
                && c2@.cache_dir == "./cache"@ && c2@.routes =~= Seq::<
                (Seq<char>, RouteView),
            >::empty()),
            r matches Some(c2) ==> c2@.path =~= Seq::<char>::empty(),
    {
        match Config::parse_config(s) {
            Some(c) => {
                proof {
                    if s@ == "{}"@ {
                        reveal_strlit("{}");
                        reveal_strlit("{\"email\":");
                        assert(ser_config(c@).len() >= "{\"email\":"@.len());
                        assert(false);
                    }
                }
                Some(c)
            },
            None => parse_config_tolerant(s),
        }
    }
}

} // verus!
