//! The persisted form of a configuration: a compact JSON text with a
//! fixed key order. The serializer is specified exactly; the parser
//! accepts precisely the serializer's output, in both directions of
//! that claim: it is proved to return a configuration whose
//! serialization is the text it read, and to accept every text the
//! serializer can produce. With the injectivity of the serialization,
//! the store loads exactly what it saved, and loses nothing of it.

use vstd::prelude::*;

use crate::config::Config;
use crate::config::ConfigView;
use crate::config::ProxyPathRoute;
use crate::config::ProxyRoute;
use crate::config::RouteView;
use crate::config::SubrouteView;
use crate::numfmt::dec_digit;
use crate::numfmt::is_dec_digit;
use crate::numfmt::dec_str;
use crate::numfmt::digit_val;
use crate::numfmt::u16_to_string;
use crate::strutil::push_char;

verus! {

/// How one character appears inside a JSON string: quote and backslash
/// are escaped, everything else stands as itself.
pub open spec fn esc_char(c: char) -> Seq<char> {
    if c == '"' {
        seq!['\\', '"']
    } else if c == '\\' {
        seq!['\\', '\\']
    } else {
        seq![c]
    }
}

/// The body of a JSON string: each character escaped, in order.
pub open spec fn esc_body(v: Seq<char>) -> Seq<char>
    decreases v.len(),
{
    if v.len() == 0 {
        Seq::empty()
    } else {
        esc_char(v[0]) + esc_body(v.skip(1))
    }
}

/// A JSON string: the escaped body in quotes.
pub open spec fn ser_str(v: Seq<char>) -> Seq<char> {
    seq!['"'] + esc_body(v) + seq!['"']
}

pub open spec fn ser_bool(b: bool) -> Seq<char> {
    if b {
        "true"@
    } else {
        "false"@
    }
}

pub open spec fn ser_opt_port(lp: Option<u16>) -> Seq<char> {
    match lp {
        None => "null"@,
        Some(p) => dec_str(p as int),
    }
}

pub open spec fn ser_sub(s: SubrouteView) -> Seq<char> {
    "{\"path\":"@ + ser_str(s.path) + ",\"port\":"@ + dec_str(s.port as int) + "}"@
}

/// Comma-joined list elements after the first.
pub open spec fn ser_subs_tail(subs: Seq<SubrouteView>) -> Seq<char>
    decreases subs.len(),
{
    if subs.len() == 0 {
        Seq::empty()
    } else {
        ","@ + ser_sub(subs[0]) + ser_subs_tail(subs.skip(1))
    }
}

pub open spec fn ser_subs_body(subs: Seq<SubrouteView>) -> Seq<char> {
    if subs.len() == 0 {
        Seq::empty()
    } else {
        ser_sub(subs[0]) + ser_subs_tail(subs.skip(1))
    }
}

/// The fields of a route after its port, in serialized order.
pub open spec fn ser_route_tail(r: RouteView) -> Seq<char> {
    ",\"ssl_enable\":"@ + (ser_bool(r.ssl_enable) + (",\"listen_port\":"@ + (ser_opt_port(
        r.listen_port,
    ) + (",\"redirect_to_https\":"@ + (ser_bool(r.redirect_to_https) + (",\"subroutes\":["@ + (
    ser_subs_body(r.subroutes) + "]}"@)))))))
}

pub open spec fn ser_route(r: RouteView) -> Seq<char> {
    "{\"host\":"@ + ser_str(r.host) + ",\"path\":"@ + ser_str(r.path) + ",\"port\":"@ + dec_str(
        r.port as int,
    ) + ",\"ssl_enable\":"@ + ser_bool(r.ssl_enable) + ",\"listen_port\":"@ + ser_opt_port(
        r.listen_port,
    ) + ",\"redirect_to_https\":"@ + ser_bool(r.redirect_to_https) + ",\"subroutes\":["@
        + ser_subs_body(r.subroutes) + "]}"@
}

/// Rebracketing a seven-part concatenation, over abstract parts.
#[verifier::spinoff_prover]
proof fn lemma_shape7(
    f1: Seq<char>, f2: Seq<char>, f3: Seq<char>, f4: Seq<char>, f5: Seq<char>,
    f6: Seq<char>, f7: Seq<char>,
)
    ensures
        f1 + f2 + f3 + f4 + f5 + f6 + f7 == f1 + (f2 + (f3 + (f4 + (f5 + (f6 + f7))))),
{
    assert(f1 + f2 + f3 + f4 + f5 + f6 + f7 =~= f1 + (f2 + (f3 + (f4 + (f5 + (f6 + f7))))));
}

/// Rebracketing a long concatenation, over abstract parts.
#[verifier::spinoff_prover]
proof fn lemma_shape15(
    f1: Seq<char>, f2: Seq<char>, f3: Seq<char>, f4: Seq<char>, f5: Seq<char>,
    f6: Seq<char>, f7: Seq<char>, f8: Seq<char>, f9: Seq<char>, f10: Seq<char>,
    f11: Seq<char>, f12: Seq<char>, f13: Seq<char>, f14: Seq<char>, f15: Seq<char>,
)
    ensures
        f1 + f2 + f3 + f4 + f5 + f6 + f7 + f8 + f9 + f10 + f11 + f12 + f13 + f14 + f15 == f1 + (f2
            + (f3 + (f4 + (f5 + (f6 + (f7 + (f8 + (f9 + (f10 + (f11 + (f12 + (f13 + (f14
            + f15))))))))))))),
{
    assert(f1 + f2 + f3 + f4 + f5 + f6 + f7 + f8 + f9 + f10 + f11 + f12 + f13 + f14 + f15 =~= f1 + (
    f2 + (f3 + (f4 + (f5 + (f6 + (f7 + (f8 + (f9 + (f10 + (f11 + (f12 + (f13 + (f14
        + f15))))))))))))));
}

/// A route's serialization is its head up to the port, then the tail.
#[verifier::spinoff_prover]
proof fn lemma_ser_route_shape(r: RouteView)
    ensures
        ser_route(r) == "{\"host\":"@ + (ser_str(r.host) + (",\"path\":"@ + (ser_str(r.path) + (
        ",\"port\":"@ + (dec_str(r.port as int) + ser_route_tail(r)))))),
{
    lemma_shape15(
        "{\"host\":"@,
        ser_str(r.host),
        ",\"path\":"@,
        ser_str(r.path),
        ",\"port\":"@,
        dec_str(r.port as int),
        ",\"ssl_enable\":"@,
        ser_bool(r.ssl_enable),
        ",\"listen_port\":"@,
        ser_opt_port(r.listen_port),
        ",\"redirect_to_https\":"@,
        ser_bool(r.redirect_to_https),
        ",\"subroutes\":["@,
        ser_subs_body(r.subroutes),
        "]}"@,
    );
}

pub open spec fn ser_entry(e: (Seq<char>, RouteView)) -> Seq<char> {
    ser_str(e.0) + ":"@ + ser_route(e.1)
}

pub open spec fn ser_routes_tail(routes: Seq<(Seq<char>, RouteView)>) -> Seq<char>
    decreases routes.len(),
{
    if routes.len() == 0 {
        Seq::empty()
    } else {
        ","@ + ser_entry(routes[0]) + ser_routes_tail(routes.skip(1))
    }
}

pub open spec fn ser_routes_body(routes: Seq<(Seq<char>, RouteView)>) -> Seq<char> {
    if routes.len() == 0 {
        Seq::empty()
    } else {
        ser_entry(routes[0]) + ser_routes_tail(routes.skip(1))
    }
}

/// The whole persisted text. The file location is not part of it.
pub open spec fn ser_config(c: ConfigView) -> Seq<char> {
    "{\"email\":"@ + ser_str(c.email) + ",\"cache_dir\":"@ + ser_str(c.cache_dir)
        + ",\"routes\":{"@ + ser_routes_body(c.routes) + "}}"@
}

proof fn lemma_esc_body_snoc(v: Seq<char>, c: char)
    ensures
        esc_body(v.push(c)) == esc_body(v) + esc_char(c),
    decreases v.len(),
{
    if v.len() == 0 {
        assert(v.push(c)[0] == c);
        assert(v.push(c).skip(1) =~= Seq::<char>::empty());
        assert(esc_body(Seq::<char>::empty()) =~= Seq::<char>::empty());
        assert(esc_body(v.push(c)) == esc_char(c) + esc_body(Seq::<char>::empty()));
        assert(esc_char(c) + Seq::<char>::empty() =~= esc_char(c));
        assert(esc_body(v) + esc_char(c) =~= esc_char(c));
    } else {
        assert(v.push(c)[0] == v[0]);
        assert(v.push(c).skip(1) =~= v.skip(1).push(c));
        lemma_esc_body_snoc(v.skip(1), c);
        assert(esc_body(v.push(c)) == esc_char(v[0]) + (esc_body(v.skip(1)) + esc_char(c)));
        assert(esc_char(v[0]) + (esc_body(v.skip(1)) + esc_char(c)) =~= (esc_char(v[0]) + esc_body(
            v.skip(1),
        )) + esc_char(c));
    }
}

proof fn lemma_subs_body_snoc(subs: Seq<SubrouteView>, s: SubrouteView)
    ensures
        ser_subs_body(subs.push(s)) == ser_subs_body(subs) + if subs.len() == 0 {
            ser_sub(s)
        } else {
            ","@ + ser_sub(s)
        },
    decreases subs.len(),
{
    if subs.len() == 0 {
        assert(subs.push(s)[0] == s);
        assert(subs.push(s).skip(1) =~= Seq::<SubrouteView>::empty());
        assert(ser_subs_body(subs.push(s)) =~= ser_subs_body(subs) + ser_sub(s));
    } else {
        assert(subs.push(s)[0] == subs[0]);
        assert(subs.push(s).skip(1) =~= subs.skip(1).push(s));
        lemma_subs_tail_snoc(subs.skip(1), s);
        assert(ser_subs_body(subs.push(s)) =~= ser_subs_body(subs) + (","@ + ser_sub(s)));
    }
}

proof fn lemma_subs_tail_snoc(subs: Seq<SubrouteView>, s: SubrouteView)
    ensures
        ser_subs_tail(subs.push(s)) == ser_subs_tail(subs) + (","@ + ser_sub(s)),
    decreases subs.len(),
{
    if subs.len() == 0 {
        assert(subs.push(s)[0] == s);
        assert(subs.push(s).skip(1) =~= Seq::<SubrouteView>::empty());
        assert(ser_subs_tail(Seq::<SubrouteView>::empty()) =~= Seq::<char>::empty());
        assert(ser_subs_tail(subs.push(s)) == ","@ + ser_sub(s) + Seq::<char>::empty());
        assert(ser_subs_tail(subs.push(s)) =~= ser_subs_tail(subs) + (","@ + ser_sub(s)));
    } else {
        assert(subs.push(s)[0] == subs[0]);
        assert(subs.push(s).skip(1) =~= subs.skip(1).push(s));
        lemma_subs_tail_snoc(subs.skip(1), s);
        assert(ser_subs_tail(subs.push(s)) == ","@ + ser_sub(subs[0]) + (ser_subs_tail(
            subs.skip(1),
        ) + (","@ + ser_sub(s))));
        assert(ser_subs_tail(subs.push(s)) =~= ser_subs_tail(subs) + (","@ + ser_sub(s)));
    }
}

proof fn lemma_routes_body_snoc(routes: Seq<(Seq<char>, RouteView)>, e: (Seq<char>, RouteView))
    ensures
        ser_routes_body(routes.push(e)) == ser_routes_body(routes) + if routes.len() == 0 {
            ser_entry(e)
        } else {
            ","@ + ser_entry(e)
        },
    decreases routes.len(),
{
    if routes.len() == 0 {
        assert(routes.push(e)[0] == e);
        assert(routes.push(e).skip(1) =~= Seq::<(Seq<char>, RouteView)>::empty());
        assert(ser_routes_body(routes.push(e)) =~= ser_routes_body(routes) + ser_entry(e));
    } else {
        assert(routes.push(e)[0] == routes[0]);
        assert(routes.push(e).skip(1) =~= routes.skip(1).push(e));
        lemma_routes_tail_snoc(routes.skip(1), e);
        assert(ser_routes_body(routes.push(e)) =~= ser_routes_body(routes) + (","@ + ser_entry(
            e,
        )));
    }
}

proof fn lemma_routes_tail_snoc(routes: Seq<(Seq<char>, RouteView)>, e: (Seq<char>, RouteView))
    ensures
        ser_routes_tail(routes.push(e)) == ser_routes_tail(routes) + (","@ + ser_entry(e)),
    decreases routes.len(),
{
    if routes.len() == 0 {
        assert(routes.push(e)[0] == e);
        assert(routes.push(e).skip(1) =~= Seq::<(Seq<char>, RouteView)>::empty());
        assert(ser_routes_tail(Seq::<(Seq<char>, RouteView)>::empty()) =~= Seq::<char>::empty());
        assert(ser_routes_tail(routes.push(e)) == ","@ + ser_entry(e) + Seq::<char>::empty());
        assert(ser_routes_tail(routes.push(e)) =~= ser_routes_tail(routes) + (","@ + ser_entry(
            e,
        )));
    } else {
        assert(routes.push(e)[0] == routes[0]);
        assert(routes.push(e).skip(1) =~= routes.skip(1).push(e));
        lemma_routes_tail_snoc(routes.skip(1), e);
        assert(ser_routes_tail(routes.push(e)) == ","@ + ser_entry(routes[0]) + (ser_routes_tail(
            routes.skip(1),
        ) + (","@ + ser_entry(e))));
        assert(ser_routes_tail(routes.push(e)) =~= ser_routes_tail(routes) + (","@ + ser_entry(
            e,
        )));
    }
}

/// Append the escaped body of `v`.
fn append_escaped(out: &mut String, v: &str)
    ensures
        final(out)@ == old(out)@ + esc_body(v@),
{
    let n = v.unicode_len();
    let mut i: usize = 0;
    proof {
        assert(v@.subrange(0, 0) =~= Seq::<char>::empty());
        assert(old(out)@ + esc_body(v@.subrange(0, 0)) =~= old(out)@);
    }
    while i < n
        invariant
            i <= n,
            n == v@.len(),
            out@ == old(out)@ + esc_body(v@.subrange(0, i as int)),
        decreases n - i,
    {
        let c = v.get_char(i);
        if c == '"' {
            push_char(out, '\\');
            push_char(out, '"');
        } else if c == '\\' {
            push_char(out, '\\');
            push_char(out, '\\');
        } else {
            push_char(out, c);
        }
        proof {
            assert(v@.subrange(0, i + 1) =~= v@.subrange(0, i as int).push(v@[i as int]));
            lemma_esc_body_snoc(v@.subrange(0, i as int), v@[i as int]);
            assert(out@ =~= old(out)@ + esc_body(v@.subrange(0, i + 1)));
        }
        i = i + 1;
    }
    proof {
        assert(v@.subrange(0, n as int) =~= v@);
    }
}

/// Append `v` as a JSON string.
fn append_json_string(out: &mut String, v: &str)
    ensures
        final(out)@ == old(out)@ + ser_str(v@),
{
    push_char(out, '"');
    append_escaped(out, v);
    push_char(out, '"');
    proof {
        assert(out@ =~= old(out)@ + ser_str(v@));
    }
}

fn append_bool(out: &mut String, b: bool)
    ensures
        final(out)@ == old(out)@ + ser_bool(b),
{
    if b {
        out.append("true");
    } else {
        out.append("false");
    }
}

fn append_subroute(out: &mut String, s: &ProxyPathRoute)
    ensures
        final(out)@ == old(out)@ + ser_sub(s@),
{
    out.append("{\"path\":");
    append_json_string(out, s.path.as_str());
    out.append(",\"port\":");
    let p = u16_to_string(s.port);
    out.append(p.as_str());
    out.append("}");
    proof {
        assert(out@ =~= old(out)@ + ser_sub(s@));
    }
}

#[verifier::rlimit(100)]
#[verifier::spinoff_prover]
fn append_route(out: &mut String, r: &ProxyRoute)
    ensures
        final(out)@ == old(out)@ + ser_route(r@),
{
    out.append("{\"host\":");
    append_json_string(out, r.host.as_str());
    out.append(",\"path\":");
    append_json_string(out, r.path.as_str());
    out.append(",\"port\":");
    let p = u16_to_string(r.port);
    out.append(p.as_str());
    out.append(",\"ssl_enable\":");
    append_bool(out, r.ssl_enable);
    out.append(",\"listen_port\":");
    match r.listen_port {
        None => {
            out.append("null");
        },
        Some(lp) => {
            let q = u16_to_string(lp);
            out.append(q.as_str());
        },
    }
    out.append(",\"redirect_to_https\":");
    append_bool(out, r.redirect_to_https);
    out.append(",\"subroutes\":[");
    let ghost mid = out@;
    let nsub = r.subroutes.len();
    let ghost subs = r@.subroutes;
    proof {
        assert(subs.subrange(0, 0) =~= Seq::<SubrouteView>::empty());
        assert(mid + ser_subs_body(subs.subrange(0, 0)) =~= mid);
    }
    let mut i: usize = 0;
    while i < nsub
        invariant
            i <= nsub,
            nsub == r.subroutes.len(),
            subs == r@.subroutes,
            out@ == mid + ser_subs_body(subs.subrange(0, i as int)),
        decreases nsub - i,
    {
        if i > 0 {
            out.append(",");
        }
        append_subroute(out, &r.subroutes[i]);
        proof {
            assert(subs.subrange(0, i + 1) =~= subs.subrange(0, i as int).push(subs[i as int]));
            lemma_subs_body_snoc(subs.subrange(0, i as int), subs[i as int]);
            assert(out@ =~= mid + ser_subs_body(subs.subrange(0, i + 1)));
        }
        i = i + 1;
    }
    proof {
        assert(subs.subrange(0, nsub as int) =~= subs);
    }
    out.append("]}");
    proof {
        assert(out@ =~= old(out)@ + ser_route(r@));
    }
}

/// Equal prefixes cancel.
proof fn lemma_cancel(p: Seq<char>, a: Seq<char>, b: Seq<char>)
    requires
        p + a == p + b,
    ensures
        a == b,
{
    assert((p + a).len() == p.len() + a.len());
    assert((p + b).len() == p.len() + b.len());
    assert(a.len() == b.len());
    assert forall|i: int| 0 <= i < a.len() implies a[i] == b[i] by {
        assert((p + a)[p.len() + i] == a[i]);
        assert((p + b)[p.len() + i] == b[i]);
    }
    assert(a =~= b);
}

/// Concatenation reassociates.
proof fn lemma_assoc(a: Seq<char>, b: Seq<char>, c: Seq<char>)
    ensures
        (a + b) + c == a + (b + c),
{
    assert((a + b) + c =~= a + (b + c));
}

/// A number below ten prints as one digit, a larger one as more.
proof fn lemma_dec_str_len(n: int)
    requires
        n >= 0,
    ensures
        dec_str(n).len() >= 1,
        n < 10 <==> dec_str(n).len() == 1,
    decreases n,
{
    if n >= 10 {
        lemma_dec_str_len(n / 10);
    }
}

/// Decimal notation is injective.
proof fn lemma_dec_str_inj(m: int, n: int)
    requires
        m >= 0,
        n >= 0,
        dec_str(m) == dec_str(n),
    ensures
        m == n,
    decreases m,
{
    lemma_dec_str_len(m);
    lemma_dec_str_len(n);
    if m < 10 && n < 10 {
        crate::numfmt::lemma_digit_roundtrip(m);
        crate::numfmt::lemma_digit_roundtrip(n);
        assert(dec_str(m)[0] == dec_digit(m));
        assert(dec_str(n)[0] == dec_digit(n));
    } else if m >= 10 && n >= 10 {
        crate::numfmt::lemma_digit_roundtrip(m % 10);
        crate::numfmt::lemma_digit_roundtrip(n % 10);
        assert(dec_str(m).last() == dec_digit(m % 10));
        assert(dec_str(n).last() == dec_digit(n % 10));
        assert(m % 10 == n % 10);
        assert(dec_str(m).drop_last() =~= dec_str(m / 10));
        assert(dec_str(n).drop_last() =~= dec_str(n / 10));
        lemma_dec_str_inj(m / 10, n / 10);
    }
}

/// A decimal notation followed by a non-digit is read off uniquely.
proof fn lemma_dec_str_prefix(m: int, n: int, r: Seq<char>, s: Seq<char>)
    requires
        m >= 0,
        n >= 0,
        r.len() > 0,
        s.len() > 0,
        !is_dec_digit(r[0]),
        !is_dec_digit(s[0]),
        dec_str(m) + r == dec_str(n) + s,
    ensures
        m == n,
        r == s,
{
    crate::numfmt::lemma_dec_str_digits(m);
    crate::numfmt::lemma_dec_str_digits(n);
    let dm = dec_str(m);
    let dn = dec_str(n);
    if dm.len() < dn.len() {
        assert((dm + r)[dm.len() as int] == r[0]);
        assert((dn + s)[dm.len() as int] == dn[dm.len() as int]);
        assert(is_dec_digit(dn[dm.len() as int]));
    } else if dn.len() < dm.len() {
        assert((dn + s)[dn.len() as int] == s[0]);
        assert((dm + r)[dn.len() as int] == dm[dn.len() as int]);
        assert(is_dec_digit(dm[dn.len() as int]));
    }
    assert(dm.len() == dn.len());
    assert(dm =~= dn) by {
        assert(forall|i: int| 0 <= i < dm.len() ==> dm[i] == (dm + r)[i] && dn[i] == (dn + s)[i]);
    }
    lemma_dec_str_inj(m, n);
    lemma_cancel(dm, r, s);
}

/// A known prefix at `pos` occupies exactly its own length there.
proof fn lemma_prefix_at(s: Seq<char>, pos: int, x: Seq<char>, z: Seq<char>)
    requires
        0 <= pos <= s.len(),
        s.skip(pos) == x + z,
    ensures
        pos + x.len() <= s.len(),
        s.subrange(pos, pos + x.len()) == x,
        s.skip(pos + x.len()) == z,
{
    assert(s.skip(pos).len() == s.len() - pos);
    assert(s.subrange(pos, pos + x.len()) =~= x) by {
        assert(forall|i: int|
            0 <= i < x.len() ==> s.subrange(pos, pos + x.len())[i] == #[trigger] s.skip(pos)[i]);
    }
    assert(s.skip(pos + x.len()).len() == z.len());
    assert forall|i: int| 0 <= i < z.len() implies s.skip(pos + x.len())[i] == z[i] by {
        assert(s.skip(pos + x.len())[i] == s[pos + x.len() + i]);
        assert(s.skip(pos)[x.len() + i] == s[pos + x.len() + i]);
        assert((x + z)[x.len() + i] == z[i]);
    }
    assert(s.skip(pos + x.len()) =~= z);
}

/// The text from `a` splits at any midpoint `b`.
proof fn lemma_skip_split(s: Seq<char>, a: int, b: int)
    requires
        0 <= a <= b <= s.len(),
    ensures
        s.skip(a) == s.subrange(a, b) + s.skip(b),
{
    assert(s.skip(a) =~= s.subrange(a, b) + s.skip(b));
}

/// A digit character is the digit of its value.
proof fn lemma_digit_char_roundtrip(c: char)
    requires
        is_dec_digit(c),
    ensures
        0 <= digit_val(c) <= 9,
        dec_digit(digit_val(c)) == c,
{
    assert(dec_digit(digit_val(c)) as u32 == c as u32);
    crate::strutil::lemma_char_cast_eq(dec_digit(digit_val(c)), c);
}

/// A positive number's decimal notation does not start with `0`.
proof fn lemma_dec_first_nonzero(w: int)
    requires
        w >= 1,
    ensures
        dec_str(w)[0] != '0',
        is_dec_digit(dec_str(w)[0]),
    decreases w,
{
    crate::numfmt::lemma_dec_str_digits(w);
    if w < 10 {
    } else {
        lemma_dec_first_nonzero(w / 10);
        lemma_dec_str_len(w / 10);
        assert(dec_str(w)[0] == dec_str(w / 10)[0]);
    }
}

/// A decimal prefix of a number's notation is at most the number.
proof fn lemma_dec_prefix_le(p: int, w: int, l: int)
    requires
        p >= 0,
        w >= 0,
        0 <= l <= dec_str(w).len(),
        dec_str(p) == dec_str(w).subrange(0, l),
    ensures
        p <= w,
    decreases dec_str(w).len() - l,
{
    lemma_dec_str_len(p);
    lemma_dec_str_len(w);
    if l == dec_str(w).len() {
        assert(dec_str(w).subrange(0, l) =~= dec_str(w));
        lemma_dec_str_inj(p, w);
    } else {
        assert(l >= 1);
        assert(w >= 10);
        assert(dec_str(w).drop_last() =~= dec_str(w / 10));
        assert(dec_str(p) =~= dec_str(w / 10).subrange(0, l)) by {
            assert(forall|i: int|
                0 <= i < l ==> #[trigger] dec_str(w).subrange(0, l)[i] == dec_str(
                    w,
                ).drop_last()[i]);
        }
        lemma_dec_prefix_le(p, w / 10, l);
    }
}

/// A decimal notation bounded by a non-digit on either side is read
/// off uniquely even when one side's remainder is empty.
proof fn lemma_dec_str_align(m: int, n: int, r: Seq<char>, s2: Seq<char>)
    requires
        m >= 0,
        n >= 0,
        s2.len() > 0,
        !is_dec_digit(s2[0]),
        r.len() == 0 || !is_dec_digit(r[0]),
        dec_str(m) + r == dec_str(n) + s2,
    ensures
        m == n,
        r == s2,
{
    if r.len() == 0 {
        crate::numfmt::lemma_dec_str_digits(m);
        assert((dec_str(m) + r).len() == dec_str(m).len());
        assert(dec_str(n).len() < dec_str(m).len());
        assert((dec_str(n) + s2)[dec_str(n).len() as int] == s2[0]);
        assert((dec_str(m) + r)[dec_str(n).len() as int] == dec_str(m)[dec_str(n).len() as int]);
        assert(is_dec_digit(dec_str(m)[dec_str(n).len() as int]));
        assert(false);
    } else {
        lemma_dec_str_prefix(m, n, r, s2);
    }
}

/// An optional port bounded by a non-digit is read off uniquely.
proof fn lemma_opt_port_align(a: Option<u16>, b: Option<u16>, r: Seq<char>, s2: Seq<char>)
    requires
        s2.len() > 0,
        !is_dec_digit(s2[0]),
        a matches Some(p) ==> r.len() == 0 || !is_dec_digit(r[0]),
        ser_opt_port(a) + r == ser_opt_port(b) + s2,
    ensures
        a == b,
        r == s2,
{
    reveal_strlit("null");
    match (a, b) {
        (None, None) => {
            lemma_cancel("null"@, r, s2);
        },
        (None, Some(q)) => {
            crate::numfmt::lemma_dec_str_digits(q as int);
            lemma_dec_str_len(q as int);
            assert((ser_opt_port(a) + r)[0] == 'n');
            assert((ser_opt_port(b) + s2)[0] == dec_str(q as int)[0]);
            assert(is_dec_digit(dec_str(q as int)[0]));
            assert(false);
        },
        (Some(p), None) => {
            crate::numfmt::lemma_dec_str_digits(p as int);
            lemma_dec_str_len(p as int);
            assert((ser_opt_port(b) + s2)[0] == 'n');
            assert((ser_opt_port(a) + r)[0] == dec_str(p as int)[0]);
            assert(is_dec_digit(dec_str(p as int)[0]));
            assert(false);
        },
        (Some(p), Some(q)) => {
            lemma_dec_str_align(p as int, q as int, r, s2);
        },
    }
}

/// An escaped string body followed by its closing quote is read off
/// uniquely: no unescaped quote occurs inside it.
proof fn lemma_esc_body_prefix(x: Seq<char>, y: Seq<char>, r: Seq<char>, s: Seq<char>)
    requires
        esc_body(x) + seq!['"'] + r == esc_body(y) + seq!['"'] + s,
    ensures
        x == y,
        r == s,
    decreases x.len(),
{
    let lhs = esc_body(x) + seq!['"'] + r;
    let rhs = esc_body(y) + seq!['"'] + s;
    if x.len() == 0 && y.len() == 0 {
        assert(esc_body(x) =~= Seq::<char>::empty());
        assert(esc_body(y) =~= Seq::<char>::empty());
        assert(seq!['"'] + r =~= lhs);
        assert(seq!['"'] + s =~= rhs);
        lemma_cancel(seq!['"'], r, s);
        assert(x =~= y);
    } else if x.len() == 0 {
        assert(lhs[0] == '"');
        assert(rhs =~= esc_char(y[0]) + (esc_body(y.skip(1)) + seq!['"'] + s));
        assert(rhs[0] == esc_char(y[0])[0]);
        assert(esc_char(y[0])[0] != '"');
        assert(false);
    } else if y.len() == 0 {
        assert(rhs[0] == '"');
        assert(lhs =~= esc_char(x[0]) + (esc_body(x.skip(1)) + seq!['"'] + r));
        assert(lhs[0] == esc_char(x[0])[0]);
        assert(esc_char(x[0])[0] != '"');
        assert(false);
    } else {
        let c = x[0];
        let d = y[0];
        assert(lhs =~= esc_char(c) + (esc_body(x.skip(1)) + seq!['"'] + r));
        assert(rhs =~= esc_char(d) + (esc_body(y.skip(1)) + seq!['"'] + s));
        assert(lhs[0] == esc_char(c)[0]);
        assert(rhs[0] == esc_char(d)[0]);
        if c == '"' || c == '\\' {
            // The escape introducer pins the next character.
            assert(esc_char(c)[0] == '\\');
            assert(esc_char(d)[0] == '\\');
            assert(d == '"' || d == '\\');
            assert(lhs[1] == esc_char(c)[1]);
            assert(rhs[1] == esc_char(d)[1]);
            assert(c == d);
        } else {
            assert(esc_char(c)[0] == c);
            if d == '"' || d == '\\' {
                assert(esc_char(d)[0] == '\\');
                assert(c == '\\');
                assert(false);
            }
            assert(esc_char(d)[0] == d);
            assert(c == d);
        }
        lemma_cancel(
            esc_char(c),
            esc_body(x.skip(1)) + seq!['"'] + r,
            esc_body(y.skip(1)) + seq!['"'] + s,
        );
        lemma_esc_body_prefix(x.skip(1), y.skip(1), r, s);
        assert(x =~= y) by {
            assert(forall|i: int| 1 <= i < x.len() ==> x[i] == x.skip(1)[i - 1]);
            assert(forall|i: int| 1 <= i < y.len() ==> y[i] == y.skip(1)[i - 1]);
        }
    }
}

/// A serialized string is read off uniquely.
proof fn lemma_ser_str_prefix(x: Seq<char>, y: Seq<char>, r: Seq<char>, s: Seq<char>)
    requires
        ser_str(x) + r == ser_str(y) + s,
    ensures
        x == y,
        r == s,
{
    assert(ser_str(x) + r =~= seq!['"'] + (esc_body(x) + seq!['"'] + r));
    assert(ser_str(y) + s =~= seq!['"'] + (esc_body(y) + seq!['"'] + s));
    lemma_cancel(seq!['"'], esc_body(x) + seq!['"'] + r, esc_body(y) + seq!['"'] + s);
    lemma_esc_body_prefix(x, y, r, s);
}

/// A serialized boolean is read off uniquely.
proof fn lemma_ser_bool_prefix(a: bool, b: bool, r: Seq<char>, s: Seq<char>)
    requires
        ser_bool(a) + r == ser_bool(b) + s,
    ensures
        a == b,
        r == s,
{
    reveal_strlit("true");
    reveal_strlit("false");
    if a != b {
        assert((ser_bool(a) + r)[0] == ser_bool(a)[0]);
        assert((ser_bool(b) + s)[0] == ser_bool(b)[0]);
        assert(false);
    }
    lemma_cancel(ser_bool(a), r, s);
}

/// A serialized optional port followed by a non-digit is read off
/// uniquely.
proof fn lemma_ser_opt_port_prefix(a: Option<u16>, b: Option<u16>, r: Seq<char>, s: Seq<char>)
    requires
        r.len() > 0,
        s.len() > 0,
        !is_dec_digit(r[0]),
        !is_dec_digit(s[0]),
        ser_opt_port(a) + r == ser_opt_port(b) + s,
    ensures
        a == b,
        r == s,
{
    reveal_strlit("null");
    match (a, b) {
        (None, None) => {
            lemma_cancel("null"@, r, s);
        },
        (None, Some(q)) => {
            crate::numfmt::lemma_dec_str_digits(q as int);
            assert((ser_opt_port(a) + r)[0] == 'n');
            assert((ser_opt_port(b) + s)[0] == dec_str(q as int)[0]);
            assert(is_dec_digit(dec_str(q as int)[0]));
            assert(false);
        },
        (Some(p), None) => {
            crate::numfmt::lemma_dec_str_digits(p as int);
            assert((ser_opt_port(b) + s)[0] == 'n');
            assert((ser_opt_port(a) + r)[0] == dec_str(p as int)[0]);
            assert(is_dec_digit(dec_str(p as int)[0]));
            assert(false);
        },
        (Some(p), Some(q)) => {
            lemma_dec_str_prefix(p as int, q as int, r, s);
        },
    }
}

/// A serialized subroute is read off uniquely.
#[verifier::rlimit(100)]
#[verifier::spinoff_prover]
proof fn lemma_ser_sub_prefix(a: SubrouteView, b: SubrouteView, r: Seq<char>, s: Seq<char>)
    requires
        ser_sub(a) + r == ser_sub(b) + s,
    ensures
        a == b,
        r == s,
{
    reveal_strlit("}");
    assert(ser_sub(a) + r =~= "{\"path\":"@ + (ser_str(a.path) + (",\"port\":"@ + (dec_str(
        a.port as int,
    ) + ("}"@ + r)))));
    assert(ser_sub(b) + s =~= "{\"path\":"@ + (ser_str(b.path) + (",\"port\":"@ + (dec_str(
        b.port as int,
    ) + ("}"@ + s)))));
    lemma_cancel(
        "{\"path\":"@,
        ser_str(a.path) + (",\"port\":"@ + (dec_str(a.port as int) + ("}"@ + r))),
        ser_str(b.path) + (",\"port\":"@ + (dec_str(b.port as int) + ("}"@ + s))),
    );
    lemma_ser_str_prefix(
        a.path,
        b.path,
        ",\"port\":"@ + (dec_str(a.port as int) + ("}"@ + r)),
        ",\"port\":"@ + (dec_str(b.port as int) + ("}"@ + s)),
    );
    lemma_cancel(
        ",\"port\":"@,
        dec_str(a.port as int) + ("}"@ + r),
        dec_str(b.port as int) + ("}"@ + s),
    );
    assert(("}"@ + r)[0] == '}');
    assert(!is_dec_digit('}'));
    lemma_dec_str_prefix(a.port as int, b.port as int, "}"@ + r, "}"@ + s);
    lemma_cancel("}"@, r, s);
    assert(a == b);
}

/// A serialized subroute list followed by `]` is read off uniquely.
#[verifier::rlimit(100)]
#[verifier::spinoff_prover]
proof fn lemma_subs_tail_prefix(
    aa: Seq<SubrouteView>,
    bb: Seq<SubrouteView>,
    r: Seq<char>,
    s: Seq<char>,
)
    requires
        r.len() > 0,
        s.len() > 0,
        r[0] == ']',
        s[0] == ']',
        ser_subs_tail(aa) + r == ser_subs_tail(bb) + s,
    ensures
        aa == bb,
        r == s,
    decreases aa.len(),
{
    reveal_strlit(",");
    if aa.len() == 0 && bb.len() == 0 {
        assert(ser_subs_tail(aa) =~= Seq::<char>::empty());
        assert(ser_subs_tail(bb) =~= Seq::<char>::empty());
        assert(r =~= ser_subs_tail(aa) + r);
        assert(s =~= ser_subs_tail(bb) + s);
        assert(aa =~= bb);
    } else if aa.len() == 0 {
        assert((ser_subs_tail(aa) + r)[0] == ']');
        assert(ser_subs_tail(bb) + s =~= ","@ + (ser_sub(bb[0]) + (ser_subs_tail(bb.skip(1))
            + s)));
        assert((ser_subs_tail(bb) + s)[0] == ',');
        assert(false);
    } else if bb.len() == 0 {
        assert((ser_subs_tail(bb) + s)[0] == ']');
        assert(ser_subs_tail(aa) + r =~= ","@ + (ser_sub(aa[0]) + (ser_subs_tail(aa.skip(1))
            + r)));
        assert((ser_subs_tail(aa) + r)[0] == ',');
        assert(false);
    } else {
        assert(ser_subs_tail(aa) + r =~= ","@ + (ser_sub(aa[0]) + (ser_subs_tail(aa.skip(1))
            + r)));
        assert(ser_subs_tail(bb) + s =~= ","@ + (ser_sub(bb[0]) + (ser_subs_tail(bb.skip(1))
            + s)));
        lemma_cancel(
            ","@,
            ser_sub(aa[0]) + (ser_subs_tail(aa.skip(1)) + r),
            ser_sub(bb[0]) + (ser_subs_tail(bb.skip(1)) + s),
        );
        lemma_ser_sub_prefix(
            aa[0],
            bb[0],
            ser_subs_tail(aa.skip(1)) + r,
            ser_subs_tail(bb.skip(1)) + s,
        );
        lemma_subs_tail_prefix(aa.skip(1), bb.skip(1), r, s);
        assert(aa =~= bb) by {
            assert(forall|i: int| 1 <= i < aa.len() ==> aa[i] == aa.skip(1)[i - 1]);
            assert(forall|i: int| 1 <= i < bb.len() ==> bb[i] == bb.skip(1)[i - 1]);
        }
    }
}

#[verifier::rlimit(100)]
#[verifier::spinoff_prover]
proof fn lemma_subs_body_prefix(
    aa: Seq<SubrouteView>,
    bb: Seq<SubrouteView>,
    r: Seq<char>,
    s: Seq<char>,
)
    requires
        r.len() > 0,
        s.len() > 0,
        r[0] == ']',
        s[0] == ']',
        ser_subs_body(aa) + r == ser_subs_body(bb) + s,
    ensures
        aa == bb,
        r == s,
{
    reveal_strlit("{\"path\":");
    if aa.len() == 0 && bb.len() == 0 {
        assert(r =~= ser_subs_body(aa) + r);
        assert(s =~= ser_subs_body(bb) + s);
        assert(aa =~= bb);
    } else if aa.len() == 0 {
        assert((ser_subs_body(aa) + r)[0] == ']');
        assert(ser_subs_body(bb) + s =~= ser_sub(bb[0]) + (ser_subs_tail(bb.skip(1)) + s));
        assert(ser_sub(bb[0]) =~= "{\"path\":"@ + (ser_str(bb[0].path) + (",\"port\":"@ + (dec_str(
            bb[0].port as int,
        ) + "}"@))));
        assert((ser_subs_body(bb) + s)[0] == '{');
        assert(false);
    } else if bb.len() == 0 {
        assert((ser_subs_body(bb) + s)[0] == ']');
        assert(ser_subs_body(aa) + r =~= ser_sub(aa[0]) + (ser_subs_tail(aa.skip(1)) + r));
        assert(ser_sub(aa[0]) =~= "{\"path\":"@ + (ser_str(aa[0].path) + (",\"port\":"@ + (dec_str(
            aa[0].port as int,
        ) + "}"@))));
        assert((ser_subs_body(aa) + r)[0] == '{');
        assert(false);
    } else {
        assert(ser_subs_body(aa) + r =~= ser_sub(aa[0]) + (ser_subs_tail(aa.skip(1)) + r));
        assert(ser_subs_body(bb) + s =~= ser_sub(bb[0]) + (ser_subs_tail(bb.skip(1)) + s));
        lemma_ser_sub_prefix(
            aa[0],
            bb[0],
            ser_subs_tail(aa.skip(1)) + r,
            ser_subs_tail(bb.skip(1)) + s,
        );
        lemma_subs_tail_prefix(aa.skip(1), bb.skip(1), r, s);
        assert(aa =~= bb) by {
            assert(forall|i: int| 1 <= i < aa.len() ==> aa[i] == aa.skip(1)[i - 1]);
            assert(forall|i: int| 1 <= i < bb.len() ==> bb[i] == bb.skip(1)[i - 1]);
        }
    }
}

/// The fields after a route's port are read off uniquely.
#[verifier::rlimit(100)]
#[verifier::spinoff_prover]
proof fn lemma_ser_route_tail_prefix(a: RouteView, b: RouteView, r: Seq<char>, s: Seq<char>)
    requires
        ser_route_tail(a) + r == ser_route_tail(b) + s,
    ensures
        a.ssl_enable == b.ssl_enable,
        a.listen_port == b.listen_port,
        a.redirect_to_https == b.redirect_to_https,
        a.subroutes == b.subroutes,
        r == s,
{
    reveal_strlit(",\"redirect_to_https\":");
    reveal_strlit("]}");
    let qa3 = ",\"subroutes\":["@ + (ser_subs_body(a.subroutes) + "]}"@);
    let qa2 = ",\"redirect_to_https\":"@ + (ser_bool(a.redirect_to_https) + qa3);
    let qa1 = ",\"listen_port\":"@ + (ser_opt_port(a.listen_port) + qa2);
    let qa0 = ser_bool(a.ssl_enable) + qa1;
    let qb3 = ",\"subroutes\":["@ + (ser_subs_body(b.subroutes) + "]}"@);
    let qb2 = ",\"redirect_to_https\":"@ + (ser_bool(b.redirect_to_https) + qb3);
    let qb1 = ",\"listen_port\":"@ + (ser_opt_port(b.listen_port) + qb2);
    let qb0 = ser_bool(b.ssl_enable) + qb1;
    lemma_assoc(",\"ssl_enable\":"@, qa0, r);
    lemma_assoc(",\"ssl_enable\":"@, qb0, s);
    lemma_cancel(",\"ssl_enable\":"@, qa0 + r, qb0 + s);
    lemma_assoc(ser_bool(a.ssl_enable), qa1, r);
    lemma_assoc(ser_bool(b.ssl_enable), qb1, s);
    lemma_ser_bool_prefix(a.ssl_enable, b.ssl_enable, qa1 + r, qb1 + s);
    lemma_assoc(",\"listen_port\":"@, ser_opt_port(a.listen_port) + qa2, r);
    lemma_assoc(",\"listen_port\":"@, ser_opt_port(b.listen_port) + qb2, s);
    lemma_cancel(
        ",\"listen_port\":"@,
        (ser_opt_port(a.listen_port) + qa2) + r,
        (ser_opt_port(b.listen_port) + qb2) + s,
    );
    lemma_assoc(ser_opt_port(a.listen_port), qa2, r);
    lemma_assoc(ser_opt_port(b.listen_port), qb2, s);
    assert((qa2 + r)[0] == ',');
    assert((qb2 + s)[0] == ',');
    assert(!is_dec_digit(','));
    lemma_ser_opt_port_prefix(a.listen_port, b.listen_port, qa2 + r, qb2 + s);
    lemma_assoc(",\"redirect_to_https\":"@, ser_bool(a.redirect_to_https) + qa3, r);
    lemma_assoc(",\"redirect_to_https\":"@, ser_bool(b.redirect_to_https) + qb3, s);
    lemma_cancel(
        ",\"redirect_to_https\":"@,
        (ser_bool(a.redirect_to_https) + qa3) + r,
        (ser_bool(b.redirect_to_https) + qb3) + s,
    );
    lemma_assoc(ser_bool(a.redirect_to_https), qa3, r);
    lemma_assoc(ser_bool(b.redirect_to_https), qb3, s);
    lemma_ser_bool_prefix(a.redirect_to_https, b.redirect_to_https, qa3 + r, qb3 + s);
    lemma_assoc(",\"subroutes\":["@, ser_subs_body(a.subroutes) + "]}"@, r);
    lemma_assoc(",\"subroutes\":["@, ser_subs_body(b.subroutes) + "]}"@, s);
    lemma_cancel(
        ",\"subroutes\":["@,
        (ser_subs_body(a.subroutes) + "]}"@) + r,
        (ser_subs_body(b.subroutes) + "]}"@) + s,
    );
    lemma_assoc(ser_subs_body(a.subroutes), "]}"@, r);
    lemma_assoc(ser_subs_body(b.subroutes), "]}"@, s);
    assert(("]}"@ + r)[0] == ']');
    assert(("]}"@ + s)[0] == ']');
    lemma_subs_body_prefix(a.subroutes, b.subroutes, "]}"@ + r, "]}"@ + s);
    lemma_cancel("]}"@, r, s);
}

/// A serialized route is read off uniquely.
#[verifier::rlimit(100)]
#[verifier::spinoff_prover]
proof fn lemma_ser_route_prefix(a: RouteView, b: RouteView, r: Seq<char>, s: Seq<char>)
    requires
        ser_route(a) + r == ser_route(b) + s,
    ensures
        a == b,
        r == s,
{
    reveal_strlit(",\"ssl_enable\":");
    lemma_ser_route_shape(a);
    lemma_ser_route_shape(b);
    let pa2 = ",\"port\":"@ + (dec_str(a.port as int) + ser_route_tail(a));
    let pa1 = ",\"path\":"@ + (ser_str(a.path) + pa2);
    let pa0 = ser_str(a.host) + pa1;
    let pb2 = ",\"port\":"@ + (dec_str(b.port as int) + ser_route_tail(b));
    let pb1 = ",\"path\":"@ + (ser_str(b.path) + pb2);
    let pb0 = ser_str(b.host) + pb1;
    lemma_assoc("{\"host\":"@, pa0, r);
    lemma_assoc("{\"host\":"@, pb0, s);
    lemma_cancel("{\"host\":"@, pa0 + r, pb0 + s);
    lemma_assoc(ser_str(a.host), pa1, r);
    lemma_assoc(ser_str(b.host), pb1, s);
    lemma_ser_str_prefix(a.host, b.host, pa1 + r, pb1 + s);
    lemma_assoc(",\"path\":"@, ser_str(a.path) + pa2, r);
    lemma_assoc(",\"path\":"@, ser_str(b.path) + pb2, s);
    lemma_cancel(",\"path\":"@, (ser_str(a.path) + pa2) + r, (ser_str(b.path) + pb2) + s);
    lemma_assoc(ser_str(a.path), pa2, r);
    lemma_assoc(ser_str(b.path), pb2, s);
    lemma_ser_str_prefix(a.path, b.path, pa2 + r, pb2 + s);
    lemma_assoc(",\"port\":"@, dec_str(a.port as int) + ser_route_tail(a), r);
    lemma_assoc(",\"port\":"@, dec_str(b.port as int) + ser_route_tail(b), s);
    lemma_cancel(
        ",\"port\":"@,
        (dec_str(a.port as int) + ser_route_tail(a)) + r,
        (dec_str(b.port as int) + ser_route_tail(b)) + s,
    );
    lemma_assoc(dec_str(a.port as int), ser_route_tail(a), r);
    lemma_assoc(dec_str(b.port as int), ser_route_tail(b), s);
    assert((ser_route_tail(a) + r)[0] == ',');
    assert((ser_route_tail(b) + s)[0] == ',');
    assert(!is_dec_digit(','));
    lemma_dec_str_prefix(
        a.port as int,
        b.port as int,
        ser_route_tail(a) + r,
        ser_route_tail(b) + s,
    );
    lemma_ser_route_tail_prefix(a, b, r, s);
    assert(a == b);
}

/// A serialized route map followed by `}` is read off uniquely.
#[verifier::rlimit(100)]
#[verifier::spinoff_prover]
proof fn lemma_routes_tail_prefix(
    aa: Seq<(Seq<char>, RouteView)>,
    bb: Seq<(Seq<char>, RouteView)>,
    r: Seq<char>,
    s: Seq<char>,
)
    requires
        r.len() > 0,
        s.len() > 0,
        r[0] == '}',
        s[0] == '}',
        ser_routes_tail(aa) + r == ser_routes_tail(bb) + s,
    ensures
        aa == bb,
        r == s,
    decreases aa.len(),
{
    reveal_strlit(",");
    if aa.len() == 0 && bb.len() == 0 {
        assert(r =~= ser_routes_tail(aa) + r);
        assert(s =~= ser_routes_tail(bb) + s);
        assert(aa =~= bb);
    } else if aa.len() == 0 {
        assert((ser_routes_tail(aa) + r)[0] == '}');
        assert(ser_routes_tail(bb) + s =~= ","@ + (ser_entry(bb[0]) + (ser_routes_tail(
            bb.skip(1),
        ) + s)));
        assert((ser_routes_tail(bb) + s)[0] == ',');
        assert(false);
    } else if bb.len() == 0 {
        assert((ser_routes_tail(bb) + s)[0] == '}');
        assert(ser_routes_tail(aa) + r =~= ","@ + (ser_entry(aa[0]) + (ser_routes_tail(
            aa.skip(1),
        ) + r)));
        assert((ser_routes_tail(aa) + r)[0] == ',');
        assert(false);
    } else {
        assert(ser_routes_tail(aa) + r =~= ","@ + (ser_entry(aa[0]) + (ser_routes_tail(
            aa.skip(1),
        ) + r)));
        assert(ser_routes_tail(bb) + s =~= ","@ + (ser_entry(bb[0]) + (ser_routes_tail(
            bb.skip(1),
        ) + s)));
        lemma_cancel(
            ","@,
            ser_entry(aa[0]) + (ser_routes_tail(aa.skip(1)) + r),
            ser_entry(bb[0]) + (ser_routes_tail(bb.skip(1)) + s),
        );
        lemma_ser_entry_prefix(
            aa[0],
            bb[0],
            ser_routes_tail(aa.skip(1)) + r,
            ser_routes_tail(bb.skip(1)) + s,
        );
        lemma_routes_tail_prefix(aa.skip(1), bb.skip(1), r, s);
        assert(aa =~= bb) by {
            assert(forall|i: int| 1 <= i < aa.len() ==> aa[i] == aa.skip(1)[i - 1]);
            assert(forall|i: int| 1 <= i < bb.len() ==> bb[i] == bb.skip(1)[i - 1]);
        }
    }
}

/// A serialized map entry is read off uniquely.
proof fn lemma_ser_entry_prefix(
    a: (Seq<char>, RouteView),
    b: (Seq<char>, RouteView),
    r: Seq<char>,
    s: Seq<char>,
)
    requires
        ser_entry(a) + r == ser_entry(b) + s,
    ensures
        a == b,
        r == s,
{
    assert(ser_entry(a) + r =~= ser_str(a.0) + (":"@ + (ser_route(a.1) + r)));
    assert(ser_entry(b) + s =~= ser_str(b.0) + (":"@ + (ser_route(b.1) + s)));
    lemma_ser_str_prefix(a.0, b.0, ":"@ + (ser_route(a.1) + r), ":"@ + (ser_route(b.1) + s));
    lemma_cancel(":"@, ser_route(a.1) + r, ser_route(b.1) + s);
    lemma_ser_route_prefix(a.1, b.1, r, s);
}

#[verifier::rlimit(100)]
#[verifier::spinoff_prover]
proof fn lemma_routes_body_prefix(
    aa: Seq<(Seq<char>, RouteView)>,
    bb: Seq<(Seq<char>, RouteView)>,
    r: Seq<char>,
    s: Seq<char>,
)
    requires
        r.len() > 0,
        s.len() > 0,
        r[0] == '}',
        s[0] == '}',
        ser_routes_body(aa) + r == ser_routes_body(bb) + s,
    ensures
        aa == bb,
        r == s,
{
    if aa.len() == 0 && bb.len() == 0 {
        assert(r =~= ser_routes_body(aa) + r);
        assert(s =~= ser_routes_body(bb) + s);
        assert(aa =~= bb);
    } else if aa.len() == 0 {
        assert((ser_routes_body(aa) + r)[0] == '}');
        assert(ser_routes_body(bb) + s =~= ser_entry(bb[0]) + (ser_routes_tail(bb.skip(1)) + s));
        assert(ser_entry(bb[0]) + (ser_routes_tail(bb.skip(1)) + s) =~= seq!['"'] + (esc_body(
            bb[0].0,
        ) + seq!['"'] + (":"@ + (ser_route(bb[0].1) + (ser_routes_tail(bb.skip(1)) + s)))));
        assert((ser_routes_body(bb) + s)[0] == '"');
        assert(false);
    } else if bb.len() == 0 {
        assert((ser_routes_body(bb) + s)[0] == '}');
        assert(ser_routes_body(aa) + r =~= ser_entry(aa[0]) + (ser_routes_tail(aa.skip(1)) + r));
        assert(ser_entry(aa[0]) + (ser_routes_tail(aa.skip(1)) + r) =~= seq!['"'] + (esc_body(
            aa[0].0,
        ) + seq!['"'] + (":"@ + (ser_route(aa[0].1) + (ser_routes_tail(aa.skip(1)) + r)))));
        assert((ser_routes_body(aa) + r)[0] == '"');
        assert(false);
    } else {
        assert(ser_routes_body(aa) + r =~= ser_entry(aa[0]) + (ser_routes_tail(aa.skip(1)) + r));
        assert(ser_routes_body(bb) + s =~= ser_entry(bb[0]) + (ser_routes_tail(bb.skip(1)) + s));
        lemma_ser_entry_prefix(
            aa[0],
            bb[0],
            ser_routes_tail(aa.skip(1)) + r,
            ser_routes_tail(bb.skip(1)) + s,
        );
        lemma_routes_tail_prefix(aa.skip(1), bb.skip(1), r, s);
        assert(aa =~= bb) by {
            assert(forall|i: int| 1 <= i < aa.len() ==> aa[i] == aa.skip(1)[i - 1]);
            assert(forall|i: int| 1 <= i < bb.len() ==> bb[i] == bb.skip(1)[i - 1]);
        }
    }
}

/// The persisted text determines the configuration: two configurations
/// with the same serialization agree on email, cache directory and
/// routes. Together with the parser's guarantee — the text read is the
/// serialization of the configuration returned — a load can only ever
/// reproduce exactly the configuration that was saved.
#[verifier::rlimit(100)]
#[verifier::spinoff_prover]
pub proof fn lemma_ser_config_injective(a: ConfigView, b: ConfigView)
    requires
        ser_config(a) == ser_config(b),
    ensures
        a.email == b.email,
        a.cache_dir == b.cache_dir,
        a.routes == b.routes,
{
    reveal_strlit("}}");
    assert(ser_config(a) =~= "{\"email\":"@ + (ser_str(a.email) + (",\"cache_dir\":"@ + (ser_str(
        a.cache_dir,
    ) + (",\"routes\":{"@ + (ser_routes_body(a.routes) + "}}"@))))));
    assert(ser_config(b) =~= "{\"email\":"@ + (ser_str(b.email) + (",\"cache_dir\":"@ + (ser_str(
        b.cache_dir,
    ) + (",\"routes\":{"@ + (ser_routes_body(b.routes) + "}}"@))))));
    lemma_cancel(
        "{\"email\":"@,
        ser_str(a.email) + (",\"cache_dir\":"@ + (ser_str(a.cache_dir) + (",\"routes\":{"@ + (
        ser_routes_body(a.routes) + "}}"@)))),
        ser_str(b.email) + (",\"cache_dir\":"@ + (ser_str(b.cache_dir) + (",\"routes\":{"@ + (
        ser_routes_body(b.routes) + "}}"@)))),
    );
    lemma_ser_str_prefix(
        a.email,
        b.email,
        ",\"cache_dir\":"@ + (ser_str(a.cache_dir) + (",\"routes\":{"@ + (ser_routes_body(
            a.routes,
        ) + "}}"@))),
        ",\"cache_dir\":"@ + (ser_str(b.cache_dir) + (",\"routes\":{"@ + (ser_routes_body(
            b.routes,
        ) + "}}"@))),
    );
    lemma_cancel(
        ",\"cache_dir\":"@,
        ser_str(a.cache_dir) + (",\"routes\":{"@ + (ser_routes_body(a.routes) + "}}"@)),
        ser_str(b.cache_dir) + (",\"routes\":{"@ + (ser_routes_body(b.routes) + "}}"@)),
    );
    lemma_ser_str_prefix(
        a.cache_dir,
        b.cache_dir,
        ",\"routes\":{"@ + (ser_routes_body(a.routes) + "}}"@),
        ",\"routes\":{"@ + (ser_routes_body(b.routes) + "}}"@),
    );
    lemma_cancel(
        ",\"routes\":{"@,
        ser_routes_body(a.routes) + "}}"@,
        ser_routes_body(b.routes) + "}}"@,
    );
    assert(("}}"@)[0] == '}');
    lemma_routes_body_prefix(a.routes, b.routes, "}}"@, "}}"@);
}

/// A subrange splits at any midpoint.
proof fn lemma_cat(s: Seq<char>, a: int, b: int, c: int)
    requires
        0 <= a <= b <= c <= s.len(),
    ensures
        s.subrange(a, c) == s.subrange(a, b) + s.subrange(b, c),
{
    assert(s.subrange(a, c) =~= s.subrange(a, b) + s.subrange(b, c));
}

/// Appending one digit to a decimal notation.
proof fn lemma_dec_str_snoc(n: int, d: int)
    requires
        n >= 1,
        0 <= d <= 9,
    ensures
        dec_str(10 * n + d) == dec_str(n).push(dec_digit(d)),
{
    assert((10 * n + d) / 10 == n && (10 * n + d) % 10 == d) by (nonlinear_arith)
        requires
            n >= 1 && 0 <= d <= 9,
    ;
    assert(10 * n + d >= 10);
}

/// The exact literal at `pos`, or nothing. When it answers, the
/// consumed slice is the literal; when the literal stands there, it
/// answers.
pub(crate) fn expect_lit(s: &str, pos: usize, lit: &str) -> (r: Option<usize>)
    ensures
        r matches Some(end) ==> pos <= end <= s@.len() && end == pos + lit@.len()
            && s@.subrange(pos as int, end as int) == lit@,
        pos + lit@.len() <= s@.len() && s@.subrange(pos as int, pos + lit@.len()) == lit@
            ==> r is Some,
{
    let n = s.unicode_len();
    let m = lit.unicode_len();
    if m > n || pos > n - m {
        return None;
    }
    let mut i: usize = 0;
    while i < m
        invariant
            i <= m,
            pos + m <= n,
            n == s@.len(),
            m == lit@.len(),
            forall|j: int| 0 <= j < i ==> s@[pos + j] == lit@[j],
        decreases m - i,
    {
        if s.get_char(pos + i) != lit.get_char(i) {
            proof {
                assert(s@.subrange(pos as int, pos + lit@.len())[i as int] == s@[pos + i]);
            }
            return None;
        }
        i = i + 1;
    }
    proof {
        assert(s@.subrange(pos as int, (pos + m) as int) =~= lit@);
    }
    Some(pos + m)
}

/// A JSON string at `pos`: what it consumed is exactly the
/// serialization of what it returns, and every serialized string is
/// accepted.
#[verifier::loop_isolation(false)]
#[verifier::rlimit(100)]
fn parse_string_at(s: &str, pos: usize) -> (r: Option<(String, usize)>)
    ensures
        r matches Some((v, end)) ==> pos <= end <= s@.len() && s@.subrange(
            pos as int,
            end as int,
        ) == ser_str(v@),
        (pos as int <= s@.len() && exists|v: Seq<char>, rest: Seq<char>|
            s@.skip(pos as int) == #[trigger] (ser_str(v) + rest)) ==> r is Some,
{
    let ghost hyp = pos as int <= s@.len() && (exists|v: Seq<char>, rest: Seq<char>|
        s@.skip(pos as int) == #[trigger] (ser_str(v) + rest));
    let ghost wit: (Seq<char>, Seq<char>) = if hyp {
        choose|v: Seq<char>, rest: Seq<char>| s@.skip(pos as int) == #[trigger] (ser_str(v) + rest)
    } else {
        (Seq::empty(), Seq::empty())
    };
    let ghost v0 = wit.0;
    let ghost rest0 = wit.1;
    proof {
        if hyp {
            assert(ser_str(v0) + rest0 =~= seq!['"'] + (esc_body(v0) + seq!['"'] + rest0));
            lemma_prefix_at(s@, pos as int, seq!['"'], esc_body(v0) + seq!['"'] + rest0);
        }
    }
    let n = s.unicode_len();
    if pos >= n {
        proof {
            if hyp {
                assert(s@.skip(pos as int).len() == n - pos);
            }
        }
        return None;
    }
    if s.get_char(pos) != '"' {
        proof {
            if hyp {
                assert(s@.subrange(pos as int, pos + 1)[0] == s@[pos as int]);
            }
        }
        return None;
    }
    let mut out = String::new();
    let mut i = pos + 1;
    let ghost mut k: int = 0;
    proof {
        assert(s@.subrange(pos + 1, pos + 1) =~= Seq::<char>::empty());
        if hyp {
            assert(v0.skip(0) =~= v0);
            assert(out@ =~= v0.subrange(0, 0));
        }
    }
    while i < n
        invariant
            pos + 1 <= i <= n,
            s@.subrange(pos + 1, i as int) == esc_body(out@),
            hyp ==> 0 <= k <= v0.len() && out@ == v0.subrange(0, k) && s@.skip(i as int)
                == esc_body(v0.skip(k)) + seq!['"'] + rest0,
        decreases n - i,
    {
        let c = s.get_char(i);
        proof {
            if hyp {
                if k < v0.len() {
                    assert(v0.skip(k)[0] == v0[k as int]);
                    assert(esc_body(v0.skip(k)) == esc_char(v0[k as int]) + esc_body(
                        v0.skip(k).skip(1),
                    ));
                    assert(v0.skip(k).skip(1) =~= v0.skip(k + 1));
                    assert((esc_body(v0.skip(k)) + seq!['"'] + rest0)[0] == esc_char(
                        v0[k as int],
                    )[0]);
                    assert(s@.skip(i as int)[0] == s@[i as int]);
                } else {
                    assert(esc_body(v0.skip(k)) =~= Seq::<char>::empty());
                    assert((esc_body(v0.skip(k)) + seq!['"'] + rest0)[0] == '"');
                    assert(s@.skip(i as int)[0] == s@[i as int]);
                }
            }
        }
        if c == '"' {
            proof {
                assert(s@.subrange(pos as int, i + 1) =~= seq!['"'] + esc_body(out@) + seq!['"'])
                    by {
                    assert(forall|j: int|
                        0 <= j < i - pos - 1 ==> #[trigger] s@.subrange(pos + 1, i as int)[j]
                            == s@[pos + 1 + j]);
                }
            }
            return Some((out, i + 1));
        }
        if c == '\\' {
            proof {
                if hyp {
                    assert(k < v0.len());
                    assert(v0[k as int] == '"' || v0[k as int] == '\\');
                    assert(esc_char(v0[k as int]).len() == 2);
                    assert(s@.skip(i as int) =~= esc_char(v0[k as int]) + (esc_body(v0.skip(k + 1))
                        + seq!['"'] + rest0));
                    lemma_prefix_at(
                        s@,
                        i as int,
                        esc_char(v0[k as int]),
                        esc_body(v0.skip(k + 1)) + seq!['"'] + rest0,
                    );
                    assert(s@.subrange(i as int, i + 2)[1] == s@[i + 1]);
                    assert(s@[i + 1] == esc_char(v0[k as int])[1]);
                    assert(esc_char(v0[k as int])[1] == v0[k as int]);
                }
            }
            if i + 1 >= n {
                return None;
            }
            let d = s.get_char(i + 1);
            if d == '"' || d == '\\' {
                let ghost out0 = out@;
                push_char(&mut out, d);
                proof {
                    lemma_esc_body_snoc(out0, d);
                    assert(s@.subrange(pos + 1, i + 2) =~= s@.subrange(pos + 1, i as int) + esc_char(
                        d,
                    ));
                    if hyp {
                        assert(d == v0[k as int]);
                        assert(out@ =~= v0.subrange(0, k + 1));
                        k = k + 1;
                    }
                }
                i = i + 2;
            } else {
                return None;
            }
        } else {
            proof {
                if hyp {
                    assert(k < v0.len());
                    assert(v0[k as int] != '"' && v0[k as int] != '\\');
                    assert(esc_char(v0[k as int]) =~= seq![v0[k as int]]);
                    assert(c == v0[k as int]);
                    assert(s@.skip(i as int) =~= esc_char(v0[k as int]) + (esc_body(v0.skip(k + 1))
                        + seq!['"'] + rest0));
                    lemma_prefix_at(
                        s@,
                        i as int,
                        esc_char(v0[k as int]),
                        esc_body(v0.skip(k + 1)) + seq!['"'] + rest0,
                    );
                }
            }
            let ghost out0 = out@;
            push_char(&mut out, c);
            proof {
                lemma_esc_body_snoc(out0, c);
                assert(s@.subrange(pos + 1, i + 1) =~= s@.subrange(pos + 1, i as int) + esc_char(
                    c,
                ));
                if hyp {
                    assert(out@ =~= v0.subrange(0, k + 1));
                    k = k + 1;
                }
            }
            i = i + 1;
        }
    }
    proof {
        if hyp {
            assert(s@.skip(i as int).len() == n - i);
        }
    }
    None
}

/// A canonical decimal port at `pos`: what it consumed is exactly the
/// notation of what it returns, it never stops in the middle of a
/// digit run, and every port notation followed by a non-digit is
/// accepted.
#[verifier::loop_isolation(false)]
#[verifier::rlimit(100)]
pub(crate) fn parse_u16_at(s: &str, pos: usize) -> (r: Option<(u16, usize)>)
    ensures
        r matches Some((v, end)) ==> pos <= end <= s@.len() && s@.subrange(
            pos as int,
            end as int,
        ) == dec_str(v as int),
        r matches Some((v, end)) ==> end as int == s@.len() || !is_dec_digit(s@[end as int]),
        (pos as int <= s@.len() && exists|w: u16, rest: Seq<char>|
            s@.skip(pos as int) == #[trigger] (dec_str(w as int) + rest) && (rest.len() == 0
                || !is_dec_digit(rest[0]))) ==> r is Some,
{
    let ghost hyp = pos as int <= s@.len() && (exists|w: u16, rest: Seq<char>|
        s@.skip(pos as int) == #[trigger] (dec_str(w as int) + rest) && (rest.len() == 0
            || !is_dec_digit(rest[0])));
    let ghost wit: (u16, Seq<char>) = if hyp {
        choose|w: u16, rest: Seq<char>|
            s@.skip(pos as int) == #[trigger] (dec_str(w as int) + rest) && (rest.len() == 0
                || !is_dec_digit(rest[0]))
    } else {
        (0u16, Seq::empty())
    };
    let ghost w0 = wit.0;
    let ghost rest0 = wit.1;
    let ghost dd = dec_str(w0 as int);
    proof {
        if hyp {
            crate::numfmt::lemma_dec_str_digits(w0 as int);
            lemma_dec_str_len(w0 as int);
            assert(s@.skip(pos as int)[0] == s@[pos as int]);
            assert((dd + rest0)[0] == dd[0]);
        }
    }
    let n = s.unicode_len();
    if pos >= n {
        proof {
            if hyp {
                assert(s@.skip(pos as int).len() == n - pos);
            }
        }
        return None;
    }
    let c0 = s.get_char(pos);
    let d0 = c0 as u32;
    if !(48 <= d0 && d0 <= 57) {
        proof {
            if hyp {
                assert(is_dec_digit(dd[0]));
            }
        }
        return None;
    }
    if d0 == 48 {
        proof {
            if hyp {
                if w0 != 0 {
                    lemma_dec_first_nonzero(w0 as int);
                    assert(s@[pos as int] == dd[0]);
                    assert(c0 as u32 == '0' as u32);
                    crate::strutil::lemma_char_cast_eq(c0, '0');
                    assert(false);
                }
                assert(dd =~= seq![dec_digit(0)]);
                lemma_prefix_at(s@, pos as int, dd, rest0);
            }
        }
        // A canonical notation has no leading zero: a digit after a
        // zero is rejected.
        if pos + 1 < n {
            let c1 = s.get_char(pos + 1) as u32;
            if 48 <= c1 && c1 <= 57 {
                proof {
                    if hyp {
                        assert(s@.skip(pos + 1)[0] == s@[pos + 1]);
                    }
                }
                return None;
            }
        }
        proof {
            assert(s@.subrange(pos as int, pos + 1) =~= seq![s@[pos as int]]);
            assert(dec_str(0) == seq![dec_digit(0)]);
            assert(c0 == dec_digit(0)) by {
                assert(c0 as u32 == '0' as u32);
                crate::strutil::lemma_char_cast_eq(c0, '0');
            }
        }
        return Some((0u16, pos + 1));
    }
    let mut acc: u32 = d0 - 48;
    let mut i = pos + 1;
    proof {
        assert(s@.subrange(pos as int, pos + 1) =~= seq![s@[pos as int]]);
        assert(c0 == dec_digit(acc as int)) by {
            crate::strutil::lemma_char_cast_eq(c0, dec_digit(acc as int));
        }
        assert(dec_str(acc as int) == seq![dec_digit(acc as int)]);
        if hyp {
            assert(dd[0] == s@[pos as int]);
            assert(dec_str(acc as int) =~= dd.subrange(0, 1));
            assert(dd =~= dd.subrange(0, 1) + dd.skip(1));
            assert(s@.skip(pos as int) =~= dd.subrange(0, 1) + (dd.skip(1) + rest0));
            lemma_prefix_at(s@, pos as int, dd.subrange(0, 1), dd.skip(1) + rest0);
        }
    }
    while i < n
        invariant
            pos + 1 <= i <= n,
            1 <= acc <= 65535,
            s@.subrange(pos as int, i as int) == dec_str(acc as int),
            hyp ==> 1 <= i - pos <= dd.len() && dec_str(acc as int) == dd.subrange(0, i - pos)
                && s@.skip(i as int) == dd.skip(i - pos) + rest0,
        decreases n - i,
    {
        let c = s.get_char(i);
        let d = c as u32;
        proof {
            if hyp {
                assert(s@.skip(i as int)[0] == s@[i as int]);
                if i - pos == dd.len() {
                    assert(dd.skip(i - pos) =~= Seq::<char>::empty());
                    assert((dd.skip(i - pos) + rest0)[0] == rest0[0]);
                } else {
                    assert((dd.skip(i - pos) + rest0)[0] == dd.skip(i - pos)[0]);
                    assert(dd.skip(i - pos)[0] == dd[i - pos]);
                    assert(is_dec_digit(dd[i - pos]));
                }
            }
        }
        if !(48 <= d && d <= 57) {
            return Some((acc as u16, i));
        }
        proof {
            if hyp {
                assert(i - pos < dd.len());
                assert(c == dd[i - pos]);
                lemma_dec_str_snoc(acc as int, (d - 48) as int);
                assert(c == dec_digit((d - 48) as int)) by {
                    crate::strutil::lemma_char_cast_eq(c, dec_digit((d - 48) as int));
                }
                assert(dec_str(10 * (acc as int) + (d - 48)) =~= dd.subrange(0, i - pos + 1)) by {
                    assert(dec_str(acc as int).push(dec_digit((d - 48) as int)) =~= dd.subrange(
                        0,
                        i - pos + 1,
                    ));
                }
                lemma_dec_prefix_le(10 * (acc as int) + (d - 48), w0 as int, i - pos + 1);
            }
        }
        if acc > 6553 || (acc == 6553 && d > 53) {
            return None;
        }
        proof {
            lemma_dec_str_snoc(acc as int, (d - 48) as int);
            assert(c == dec_digit((d - 48) as int)) by {
                crate::strutil::lemma_char_cast_eq(c, dec_digit((d - 48) as int));
            }
            assert(s@.subrange(pos as int, i + 1) =~= s@.subrange(pos as int, i as int).push(
                s@[i as int],
            ));
            if hyp {
                assert(dd.skip(i - pos) =~= dd.subrange(i - pos, i - pos + 1) + dd.skip(i - pos
                    + 1));
                assert(dd.subrange(i - pos, i - pos + 1) =~= seq![dd[i - pos]]);
                assert(s@.skip(i as int) =~= seq![dd[i - pos]] + (dd.skip(i - pos + 1) + rest0));
                lemma_prefix_at(s@, i as int, seq![dd[i - pos]], dd.skip(i - pos + 1) + rest0);
            }
        }
        acc = acc * 10 + (d - 48);
        i = i + 1;
    }
    proof {
        if hyp {
            if i - pos < dd.len() {
                assert(s@.skip(i as int).len() == n - i);
                assert((dd.skip(i - pos) + rest0).len() >= 1);
                assert(false);
            }
        }
    }
    Some((acc as u16, i))
}

/// `true` or `false` at `pos`; every serialized boolean is accepted.
pub(crate) fn parse_bool_at(s: &str, pos: usize) -> (r: Option<(bool, usize)>)
    ensures
        r matches Some((v, end)) ==> pos <= end <= s@.len() && s@.subrange(
            pos as int,
            end as int,
        ) == ser_bool(v),
        (pos as int <= s@.len() && exists|b: bool, rest: Seq<char>|
            s@.skip(pos as int) == #[trigger] (ser_bool(b) + rest)) ==> r is Some,
{
    let ghost hyp = pos as int <= s@.len() && (exists|b: bool, rest: Seq<char>|
        s@.skip(pos as int) == #[trigger] (ser_bool(b) + rest));
    let ghost wit: (bool, Seq<char>) = if hyp {
        choose|b: bool, rest: Seq<char>| s@.skip(pos as int) == #[trigger] (ser_bool(b) + rest)
    } else {
        (false, Seq::empty())
    };
    proof {
        if hyp {
            lemma_prefix_at(s@, pos as int, ser_bool(wit.0), wit.1);
        }
    }
    match expect_lit(s, pos, "true") {
        Some(end) => Some((true, end)),
        None => match expect_lit(s, pos, "false") {
            Some(end) => Some((false, end)),
            None => {
                proof {
                    if hyp {
                        if !wit.0 {
                        } else {
                            assert(s@.subrange(pos as int, pos + 4) == "true"@);
                        }
                    }
                }
                None
            },
        },
    }
}

/// `null` or a port at `pos`; every serialized optional port followed
/// by a non-digit is accepted, and a port value never ends against a
/// digit.
fn parse_opt_port_at(s: &str, pos: usize) -> (r: Option<(Option<u16>, usize)>)
    ensures
        r matches Some((v, end)) ==> pos <= end <= s@.len() && s@.subrange(
            pos as int,
            end as int,
        ) == ser_opt_port(v),
        r matches Some((v, end)) ==> (v is Some ==> end as int == s@.len() || !is_dec_digit(
            s@[end as int],
        )),
        (pos as int <= s@.len() && exists|o: Option<u16>, rest: Seq<char>|
            s@.skip(pos as int) == #[trigger] (ser_opt_port(o) + rest) && (rest.len() == 0
                || !is_dec_digit(rest[0]))) ==> r is Some,
{
    let ghost hyp = pos as int <= s@.len() && (exists|o: Option<u16>, rest: Seq<char>|
        s@.skip(pos as int) == #[trigger] (ser_opt_port(o) + rest) && (rest.len() == 0
            || !is_dec_digit(rest[0])));
    let ghost wit: (Option<u16>, Seq<char>) = if hyp {
        choose|o: Option<u16>, rest: Seq<char>|
            s@.skip(pos as int) == #[trigger] (ser_opt_port(o) + rest) && (rest.len() == 0
                || !is_dec_digit(rest[0]))
    } else {
        (None, Seq::empty())
    };
    proof {
        if hyp {
            match wit.0 {
                None => {
                    lemma_prefix_at(s@, pos as int, "null"@, wit.1);
                },
                Some(p) => {
                    assert(s@.skip(pos as int) == dec_str(p as int) + wit.1);
                },
            }
        }
    }
    match expect_lit(s, pos, "null") {
        Some(end) => Some((None, end)),
        None => match parse_u16_at(s, pos) {
            Some((p, end)) => Some((Some(p), end)),
            None => {
                proof {
                    if hyp {
                        match wit.0 {
                            None => {},
                            Some(p) => {},
                        }
                    }
                }
                None
            },
        },
    }
}

/// A subroute object at `pos`; every serialized subroute is accepted.
#[verifier::rlimit(100)]
#[verifier::spinoff_prover]
fn parse_subroute_at(s: &str, pos: usize) -> (r: Option<(ProxyPathRoute, usize)>)
    ensures
        r matches Some((v, end)) ==> pos <= end <= s@.len() && s@.subrange(
            pos as int,
            end as int,
        ) == ser_sub(v@),
        (pos as int <= s@.len() && exists|v: SubrouteView, rest: Seq<char>|
            s@.skip(pos as int) == #[trigger] (ser_sub(v) + rest)) ==> r is Some,
{
    let ghost hyp = pos as int <= s@.len() && (exists|v: SubrouteView, rest: Seq<char>|
        s@.skip(pos as int) == #[trigger] (ser_sub(v) + rest));
    let ghost wit: (SubrouteView, Seq<char>) = if hyp {
        choose|v: SubrouteView, rest: Seq<char>| s@.skip(pos as int) == #[trigger] (ser_sub(v)
            + rest)
    } else {
        (SubrouteView { path: Seq::empty(), port: 0 }, Seq::empty())
    };
    let ghost v0 = wit.0;
    let ghost rest0 = wit.1;
    proof {
        if hyp {
            assert(ser_sub(v0) + rest0 =~= "{\"path\":"@ + (ser_str(v0.path) + (",\"port\":"@ + (
            dec_str(v0.port as int) + ("}"@ + rest0)))));
            lemma_prefix_at(
                s@,
                pos as int,
                "{\"path\":"@,
                ser_str(v0.path) + (",\"port\":"@ + (dec_str(v0.port as int) + ("}"@ + rest0))),
            );
        }
    }
    let p1 = match expect_lit(s, pos, "{\"path\":") {
        Some(p) => p,
        None => {
            return None;
        },
    };
    let (path, p2) = match parse_string_at(s, p1) {
        Some(x) => x,
        None => {
            return None;
        },
    };
    proof {
        if hyp {
            lemma_skip_split(s@, p1 as int, p2 as int);
            lemma_ser_str_prefix(
                path@,
                v0.path,
                s@.skip(p2 as int),
                ",\"port\":"@ + (dec_str(v0.port as int) + ("}"@ + rest0)),
            );
            lemma_prefix_at(
                s@,
                p2 as int,
                ",\"port\":"@,
                dec_str(v0.port as int) + ("}"@ + rest0),
            );
        }
    }
    let p3 = match expect_lit(s, p2, ",\"port\":") {
        Some(p) => p,
        None => {
            return None;
        },
    };
    proof {
        if hyp {
            reveal_strlit("}");
            assert(("}"@ + rest0)[0] == '}');
            assert(!is_dec_digit('}'));
        }
    }
    let (port, p4) = match parse_u16_at(s, p3) {
        Some(x) => x,
        None => {
            return None;
        },
    };
    proof {
        if hyp {
            lemma_skip_split(s@, p3 as int, p4 as int);
            if (p4 as int) < s@.len() {
                assert(s@.skip(p4 as int)[0] == s@[p4 as int]);
            } else {
                assert(s@.skip(p4 as int).len() == 0);
            }
            lemma_dec_str_align(
                port as int,
                v0.port as int,
                s@.skip(p4 as int),
                "}"@ + rest0,
            );
            lemma_prefix_at(s@, p4 as int, "}"@, rest0);
        }
    }
    let p5 = match expect_lit(s, p4, "}") {
        Some(p) => p,
        None => {
            return None;
        },
    };
    let sub = ProxyPathRoute { path, port };
    proof {
        lemma_cat(s@, pos as int, p1 as int, p2 as int);
        lemma_cat(s@, pos as int, p2 as int, p3 as int);
        lemma_cat(s@, pos as int, p3 as int, p4 as int);
        lemma_cat(s@, pos as int, p4 as int, p5 as int);
        assert(s@.subrange(pos as int, p5 as int) =~= ser_sub(sub@));
    }
    Some((sub, p5))
}

/// The subroute list from after its opening bracket through `]}`;
/// every serialized list is accepted.
#[verifier::rlimit(100)]
#[verifier::spinoff_prover]
#[verifier::loop_isolation(false)]
fn parse_subs_at(s: &str, pos: usize) -> (r: Option<(Vec<ProxyPathRoute>, usize)>)
    requires
        pos <= s@.len(),
    ensures
        r matches Some((v, end)) ==> pos <= end <= s@.len() && s@.subrange(
            pos as int,
            end as int,
        ) == ser_subs_body(v@.map_values(|x: ProxyPathRoute| x@)) + "]}"@,
        (pos as int <= s@.len() && exists|subs: Seq<SubrouteView>, rest: Seq<char>|
            s@.skip(pos as int) == #[trigger] (ser_subs_body(subs) + ("]}"@ + rest))) ==> r is Some,
{
    let ghost hyp = pos as int <= s@.len() && (exists|subs: Seq<SubrouteView>, rest: Seq<char>|
        s@.skip(pos as int) == #[trigger] (ser_subs_body(subs) + ("]}"@ + rest)));
    let ghost wit: (Seq<SubrouteView>, Seq<char>) = if hyp {
        choose|subs: Seq<SubrouteView>, rest: Seq<char>|
            s@.skip(pos as int) == #[trigger] (ser_subs_body(subs) + ("]}"@ + rest))
    } else {
        (Seq::empty(), Seq::empty())
    };
    let ghost subs = wit.0;
    let ghost rest0 = wit.1;
    let mut subroutes: Vec<ProxyPathRoute> = Vec::new();
    let mut i = pos;
    let ghost body_start = pos as int;
    proof {
        assert(subroutes@.map_values(|x: ProxyPathRoute| x@) =~= Seq::<SubrouteView>::empty());
        assert(s@.subrange(body_start, i as int) =~= ser_subs_body(
            subroutes@.map_values(|x: ProxyPathRoute| x@),
        ));
        if hyp {
            if subs.len() == 0 {
                assert(ser_subs_body(subs) =~= Seq::<char>::empty());
                assert(s@.skip(pos as int) =~= "]}"@ + rest0);
                lemma_prefix_at(s@, pos as int, "]}"@, rest0);
            }
        }
    }
    let close = match expect_lit(s, i, "]}") {
        Some(p) => Some(p),
        None => None,
    };
    let p_end: usize;
    if let Some(p) = close {
        p_end = p;
    } else {
        proof {
            if hyp {
                assert(subs.len() > 0);
            }
        }
        // At least one subroute.
        let n = s.unicode_len();
        let mut done: Option<usize> = None;
        while done.is_none()
            invariant
                pos <= i <= n,
                n == s@.len(),
                s@.subrange(body_start, i as int) == ser_subs_body(
                    subroutes@.map_values(|x: ProxyPathRoute| x@),
                ),
                done matches Some(e) ==> i <= e <= n && s@.subrange(i as int, e as int) == "]}"@,
                hyp ==> subroutes@.map_values(|x: ProxyPathRoute| x@) == subs.subrange(
                    0,
                    subroutes@.len() as int,
                ) && subroutes@.len() <= subs.len() && subs.len() > 0,
                hyp && done is None ==> (if subroutes@.len() == 0 {
                    s@.skip(i as int) == ser_subs_body(subs) + ("]}"@ + rest0)
                } else {
                    s@.skip(i as int) == ser_subs_tail(subs.skip(subroutes@.len() as int)) + (
                    "]}"@ + rest0)
                }),
            decreases n - i + if done is Some {
                0int
            } else {
                1int
            },
        {
            let ghost k = subroutes@.len() as int;
            proof {
                if hyp {
                    if k == 0 {
                        assert(ser_subs_body(subs) == ser_sub(subs[0]) + ser_subs_tail(
                            subs.skip(1),
                        ));
                        lemma_assoc(ser_sub(subs[0]), ser_subs_tail(subs.skip(1)), "]}"@ + rest0);
                        assert(s@.skip(i as int) == ser_sub(subs[0]) + (ser_subs_tail(subs.skip(1))
                            + ("]}"@ + rest0)));
                    } else if k < subs.len() {
                        assert(subs.skip(k)[0] == subs[k]);
                        assert(subs.skip(k).skip(1) =~= subs.skip(k + 1));
                        assert(ser_subs_tail(subs.skip(k)) == ","@ + ser_sub(subs[k])
                            + ser_subs_tail(subs.skip(k + 1)));
                        lemma_assoc(
                            ","@ + ser_sub(subs[k]),
                            ser_subs_tail(subs.skip(k + 1)),
                            "]}"@ + rest0,
                        );
                        lemma_assoc(
                            ","@,
                            ser_sub(subs[k]),
                            ser_subs_tail(subs.skip(k + 1)) + ("]}"@ + rest0),
                        );
                        assert(s@.skip(i as int) == ","@ + (ser_sub(subs[k]) + (ser_subs_tail(
                            subs.skip(k + 1),
                        ) + ("]}"@ + rest0))));
                        lemma_prefix_at(
                            s@,
                            i as int,
                            ","@,
                            ser_sub(subs[k]) + (ser_subs_tail(subs.skip(k + 1)) + ("]}"@
                                + rest0)),
                        );
                    } else {
                        assert(ser_subs_tail(subs.skip(k)) =~= Seq::<char>::empty());
                        assert(s@.skip(i as int) =~= "]}"@ + rest0);
                        lemma_prefix_at(s@, i as int, "]}"@, rest0);
                    }
                }
            }
            if subroutes.len() > 0 {
                // A separator or the closing bracket.
                match expect_lit(s, i, ",") {
                    Some(p) => {
                        proof {
                            if hyp {
                                if k >= subs.len() {
                                    reveal_strlit(",");
                                    reveal_strlit("]}");
                                    assert(s@.subrange(i as int, p as int)[0] == s@[i as int]);
                                    assert(s@.subrange(i as int, i + 2)[0] == s@[i as int]);
                                    assert(false);
                                }
                            }
                        }
                        let (sub, q) = match parse_subroute_at(s, p) {
                            Some(x) => x,
                            None => {
                                return None;
                            },
                        };
                        proof {
                            let views = subroutes@.map_values(|x: ProxyPathRoute| x@);
                            lemma_subs_body_snoc(views, sub@);
                            lemma_cat(s@, body_start, i as int, p as int);
                            lemma_cat(s@, body_start, p as int, q as int);
                            assert((subroutes@.push(sub)).map_values(|x: ProxyPathRoute| x@)
                                =~= views.push(sub@));
                            assert(s@.subrange(body_start, q as int) =~= ser_subs_body(
                                views.push(sub@),
                            ));
                            if hyp {
                                lemma_skip_split(s@, p as int, q as int);
                                lemma_ser_sub_prefix(
                                    sub@,
                                    subs[k],
                                    s@.skip(q as int),
                                    ser_subs_tail(subs.skip(k + 1)) + ("]}"@ + rest0),
                                );
                                assert(views.push(sub@) =~= subs.subrange(0, k + 1));
                            }
                        }
                        subroutes.push(sub);
                        i = q;
                    },
                    None => {
                        match expect_lit(s, i, "]}") {
                            Some(p) => {
                                done = Some(p);
                            },
                            None => {
                                return None;
                            },
                        }
                    },
                }
            } else {
                let (sub, q) = match parse_subroute_at(s, i) {
                    Some(x) => x,
                    None => {
                        return None;
                    },
                };
                proof {
                    let views = subroutes@.map_values(|x: ProxyPathRoute| x@);
                    lemma_subs_body_snoc(views, sub@);
                    lemma_cat(s@, body_start, i as int, q as int);
                    assert((subroutes@.push(sub)).map_values(|x: ProxyPathRoute| x@) =~= views.push(
                        sub@,
                    ));
                    assert(s@.subrange(body_start, q as int) =~= ser_subs_body(views.push(sub@)));
                    if hyp {
                        lemma_skip_split(s@, i as int, q as int);
                        lemma_ser_sub_prefix(
                            sub@,
                            subs[0],
                            s@.skip(q as int),
                            ser_subs_tail(subs.skip(1)) + ("]}"@ + rest0),
                        );
                        assert(views.push(sub@) =~= subs.subrange(0, 1));
                    }
                }
                subroutes.push(sub);
                i = q;
            }
        }
        p_end = match done {
            Some(e) => e,
            None => {
                return None;
            },
        };
        proof {
            lemma_cat(s@, body_start, i as int, p_end as int);
        }
    }
    Some((subroutes, p_end))
}

/// A route object at `pos`; every serialized route is accepted.
#[verifier::rlimit(100)]
#[verifier::spinoff_prover]
#[verifier::loop_isolation(false)]
fn parse_route_at(s: &str, pos: usize) -> (r: Option<(ProxyRoute, usize)>)
    ensures
        r matches Some((v, end)) ==> pos <= end <= s@.len() && s@.subrange(
            pos as int,
            end as int,
        ) == ser_route(v@),
        (pos as int <= s@.len() && exists|v: RouteView, rest: Seq<char>|
            s@.skip(pos as int) == #[trigger] (ser_route(v) + rest)) ==> r is Some,
{
    let ghost hyp = pos as int <= s@.len() && (exists|v: RouteView, rest: Seq<char>|
        s@.skip(pos as int) == #[trigger] (ser_route(v) + rest));
    let ghost wit: (RouteView, Seq<char>) = if hyp {
        choose|v: RouteView, rest: Seq<char>| s@.skip(pos as int) == #[trigger] (ser_route(v)
            + rest)
    } else {
        (arbitrary(), Seq::empty())
    };
    let ghost v0 = wit.0;
    let ghost rest0 = wit.1;
    let ghost t0 = ser_route_tail(v0);
    let ghost g6 = t0 + rest0;
    let ghost g5 = dec_str(v0.port as int) + g6;
    let ghost g4 = ",\"port\":"@ + g5;
    let ghost g3 = ser_str(v0.path) + g4;
    let ghost g2 = ",\"path\":"@ + g3;
    let ghost g1 = ser_str(v0.host) + g2;
    let ghost u7 = ser_subs_body(v0.subroutes) + ("]}"@ + rest0);
    let ghost u6 = ",\"subroutes\":["@ + u7;
    let ghost u5 = ser_bool(v0.redirect_to_https) + u6;
    let ghost u4 = ",\"redirect_to_https\":"@ + u5;
    let ghost u3 = ser_opt_port(v0.listen_port) + u4;
    let ghost u2 = ",\"listen_port\":"@ + u3;
    let ghost u1 = ser_bool(v0.ssl_enable) + u2;
    proof {
        if hyp {
            lemma_ser_route_shape(v0);
            let h5 = dec_str(v0.port as int) + t0;
            let h4 = ",\"port\":"@ + h5;
            let h3 = ser_str(v0.path) + h4;
            let h2 = ",\"path\":"@ + h3;
            let h1 = ser_str(v0.host) + h2;
            lemma_assoc("{\"host\":"@, h1, rest0);
            lemma_assoc(ser_str(v0.host), h2, rest0);
            lemma_assoc(",\"path\":"@, h3, rest0);
            lemma_assoc(ser_str(v0.path), h4, rest0);
            lemma_assoc(",\"port\":"@, h5, rest0);
            lemma_assoc(dec_str(v0.port as int), t0, rest0);
            assert(s@.skip(pos as int) == "{\"host\":"@ + g1);
            lemma_prefix_at(s@, pos as int, "{\"host\":"@, g1);
        }
    }
    let p1 = match expect_lit(s, pos, "{\"host\":") {
        Some(p) => p,
        None => {
            return None;
        },
    };
    let (host, p2) = match parse_string_at(s, p1) {
        Some(x) => x,
        None => {
            return None;
        },
    };
    proof {
        if hyp {
            lemma_skip_split(s@, p1 as int, p2 as int);
            lemma_ser_str_prefix(host@, v0.host, s@.skip(p2 as int), g2);
            lemma_prefix_at(s@, p2 as int, ",\"path\":"@, g3);
        }
    }
    let p3 = match expect_lit(s, p2, ",\"path\":") {
        Some(p) => p,
        None => {
            return None;
        },
    };
    let (path, p4) = match parse_string_at(s, p3) {
        Some(x) => x,
        None => {
            return None;
        },
    };
    proof {
        if hyp {
            lemma_skip_split(s@, p3 as int, p4 as int);
            lemma_ser_str_prefix(path@, v0.path, s@.skip(p4 as int), g4);
            lemma_prefix_at(s@, p4 as int, ",\"port\":"@, g5);
        }
    }
    let p5 = match expect_lit(s, p4, ",\"port\":") {
        Some(p) => p,
        None => {
            return None;
        },
    };
    proof {
        if hyp {
            reveal_strlit(",\"ssl_enable\":");
            assert(t0[0] == ',');
            assert(g6[0] == ',');
            assert(!is_dec_digit(','));
        }
    }
    let (port, p6) = match parse_u16_at(s, p5) {
        Some(x) => x,
        None => {
            return None;
        },
    };
    proof {
        if hyp {
            lemma_skip_split(s@, p5 as int, p6 as int);
            if (p6 as int) < s@.len() {
                assert(s@.skip(p6 as int)[0] == s@[p6 as int]);
            } else {
                assert(s@.skip(p6 as int).len() == 0);
            }
            lemma_dec_str_align(port as int, v0.port as int, s@.skip(p6 as int), g6);
            // Unfold the tail into its parts, with the remainder pushed
            // to the innermost position.
            let q8 = ser_subs_body(v0.subroutes) + "]}"@;
            let q7 = ",\"subroutes\":["@ + q8;
            let q6b = ser_bool(v0.redirect_to_https) + q7;
            let q5b = ",\"redirect_to_https\":"@ + q6b;
            let q4b = ser_opt_port(v0.listen_port) + q5b;
            let q3b = ",\"listen_port\":"@ + q4b;
            let q2b = ser_bool(v0.ssl_enable) + q3b;
            assert(t0 == ",\"ssl_enable\":"@ + q2b);
            lemma_assoc(",\"ssl_enable\":"@, q2b, rest0);
            lemma_assoc(ser_bool(v0.ssl_enable), q3b, rest0);
            lemma_assoc(",\"listen_port\":"@, q4b, rest0);
            lemma_assoc(ser_opt_port(v0.listen_port), q5b, rest0);
            lemma_assoc(",\"redirect_to_https\":"@, q6b, rest0);
            lemma_assoc(ser_bool(v0.redirect_to_https), q7, rest0);
            lemma_assoc(",\"subroutes\":["@, q8, rest0);
            lemma_assoc(ser_subs_body(v0.subroutes), "]}"@, rest0);
            assert(g6 == ",\"ssl_enable\":"@ + u1);
            lemma_prefix_at(s@, p6 as int, ",\"ssl_enable\":"@, u1);
        }
    }
    let p7 = match expect_lit(s, p6, ",\"ssl_enable\":") {
        Some(p) => p,
        None => {
            return None;
        },
    };
    let (ssl_enable, p8) = match parse_bool_at(s, p7) {
        Some(x) => x,
        None => {
            return None;
        },
    };
    proof {
        if hyp {
            lemma_skip_split(s@, p7 as int, p8 as int);
            lemma_ser_bool_prefix(ssl_enable, v0.ssl_enable, s@.skip(p8 as int), u2);
            lemma_prefix_at(s@, p8 as int, ",\"listen_port\":"@, u3);
            reveal_strlit(",\"redirect_to_https\":");
            assert(u4[0] == ',');
            assert(!is_dec_digit(','));
        }
    }
    let p9 = match expect_lit(s, p8, ",\"listen_port\":") {
        Some(p) => p,
        None => {
            return None;
        },
    };
    let (listen_port, p10) = match parse_opt_port_at(s, p9) {
        Some(x) => x,
        None => {
            return None;
        },
    };
    proof {
        if hyp {
            lemma_skip_split(s@, p9 as int, p10 as int);
            if (p10 as int) < s@.len() {
                assert(s@.skip(p10 as int)[0] == s@[p10 as int]);
            } else {
                assert(s@.skip(p10 as int).len() == 0);
            }
            lemma_opt_port_align(listen_port, v0.listen_port, s@.skip(p10 as int), u4);
            lemma_prefix_at(s@, p10 as int, ",\"redirect_to_https\":"@, u5);
        }
    }
    let p11 = match expect_lit(s, p10, ",\"redirect_to_https\":") {
        Some(p) => p,
        None => {
            return None;
        },
    };
    let (redirect_to_https, p12) = match parse_bool_at(s, p11) {
        Some(x) => x,
        None => {
            return None;
        },
    };
    proof {
        if hyp {
            lemma_skip_split(s@, p11 as int, p12 as int);
            lemma_ser_bool_prefix(redirect_to_https, v0.redirect_to_https, s@.skip(p12 as int), u6);
            lemma_prefix_at(s@, p12 as int, ",\"subroutes\":["@, u7);
        }
    }
    let p13 = match expect_lit(s, p12, ",\"subroutes\":[") {
        Some(p) => p,
        None => {
            return None;
        },
    };
    proof {
        if hyp {
            assert(s@.skip(p13 as int) == ser_subs_body(v0.subroutes) + ("]}"@ + rest0));
        }
    }
    let (subroutes, p_end) = match parse_subs_at(s, p13) {
        Some(x) => x,
        None => {
            return None;
        },
    };
    let route = ProxyRoute {
        host,
        path,
        port,
        ssl_enable,
        listen_port,
        redirect_to_https,
        subroutes,
    };
    proof {
        lemma_cat(s@, pos as int, p1 as int, p2 as int);
        lemma_cat(s@, pos as int, p2 as int, p3 as int);
        lemma_cat(s@, pos as int, p3 as int, p4 as int);
        lemma_cat(s@, pos as int, p4 as int, p5 as int);
        lemma_cat(s@, pos as int, p5 as int, p6 as int);
        lemma_cat(s@, pos as int, p6 as int, p7 as int);
        lemma_cat(s@, pos as int, p7 as int, p8 as int);
        lemma_cat(s@, pos as int, p8 as int, p9 as int);
        lemma_cat(s@, pos as int, p9 as int, p10 as int);
        lemma_cat(s@, pos as int, p10 as int, p11 as int);
        lemma_cat(s@, pos as int, p11 as int, p12 as int);
        lemma_cat(s@, pos as int, p12 as int, p13 as int);
        lemma_cat(s@, pos as int, p13 as int, p_end as int);
        assert(s@.subrange(pos as int, p_end as int) =~= ser_route(route@));
    }
    Some((route, p_end))
}

/// One route-map entry at `pos`; every serialized entry is accepted.
#[verifier::rlimit(100)]
#[verifier::spinoff_prover]
fn parse_entry_at(s: &str, pos: usize) -> (r: Option<((String, ProxyRoute), usize)>)
    ensures
        r matches Some((e, end)) ==> pos <= end <= s@.len() && s@.subrange(
            pos as int,
            end as int,
        ) == ser_entry((e.0@, e.1@)),
        (pos as int <= s@.len() && exists|e: (Seq<char>, RouteView), rest: Seq<char>|
            s@.skip(pos as int) == #[trigger] (ser_entry(e) + rest)) ==> r is Some,
{
    let ghost hyp = pos as int <= s@.len() && (exists|e: (Seq<char>, RouteView), rest: Seq<char>|
        s@.skip(pos as int) == #[trigger] (ser_entry(e) + rest));
    let ghost wit: ((Seq<char>, RouteView), Seq<char>) = if hyp {
        choose|e: (Seq<char>, RouteView), rest: Seq<char>|
            s@.skip(pos as int) == #[trigger] (ser_entry(e) + rest)
    } else {
        (arbitrary(), Seq::empty())
    };
    let ghost e0 = wit.0;
    let ghost rest0 = wit.1;
    proof {
        if hyp {
            lemma_assoc(ser_str(e0.0) + ":"@, ser_route(e0.1), rest0);
            lemma_assoc(ser_str(e0.0), ":"@, ser_route(e0.1) + rest0);
            assert(s@.skip(pos as int) == ser_str(e0.0) + (":"@ + (ser_route(e0.1) + rest0)));
        }
    }
    let (key, q1) = match parse_string_at(s, pos) {
        Some(x) => x,
        None => {
            return None;
        },
    };
    proof {
        if hyp {
            lemma_skip_split(s@, pos as int, q1 as int);
            lemma_ser_str_prefix(
                key@,
                e0.0,
                s@.skip(q1 as int),
                ":"@ + (ser_route(e0.1) + rest0),
            );
            lemma_prefix_at(s@, q1 as int, ":"@, ser_route(e0.1) + rest0);
        }
    }
    let q2 = match expect_lit(s, q1, ":") {
        Some(p) => p,
        None => {
            return None;
        },
    };
    let (route, q3) = match parse_route_at(s, q2) {
        Some(x) => x,
        None => {
            return None;
        },
    };
    proof {
        lemma_cat(s@, pos as int, q1 as int, q2 as int);
        lemma_cat(s@, pos as int, q2 as int, q3 as int);
        assert(s@.subrange(pos as int, q3 as int) =~= ser_entry((key@, route@)));
    }
    Some(((key, route), q3))
}

/// The route map from after its opening brace through `}}`; every
/// serialized map is accepted.
#[verifier::rlimit(100)]
#[verifier::spinoff_prover]
#[verifier::loop_isolation(false)]
fn parse_routes_at(s: &str, pos: usize) -> (r: Option<(Vec<(String, ProxyRoute)>, usize)>)
    requires
        pos <= s@.len(),
    ensures
        r matches Some((v, end)) ==> pos <= end <= s@.len() && s@.subrange(
            pos as int,
            end as int,
        ) == ser_routes_body(v@.map_values(|kv: (String, ProxyRoute)| (kv.0@, kv.1@))) + "}}"@,
        (exists|es: Seq<(Seq<char>, RouteView)>, rest: Seq<char>|
            s@.skip(pos as int) == #[trigger] (ser_routes_body(es) + ("}}"@ + rest))) ==> r is Some,
{
    let ghost hyp = exists|es: Seq<(Seq<char>, RouteView)>, rest: Seq<char>|
        s@.skip(pos as int) == #[trigger] (ser_routes_body(es) + ("}}"@ + rest));
    let ghost wit: (Seq<(Seq<char>, RouteView)>, Seq<char>) = if hyp {
        choose|es: Seq<(Seq<char>, RouteView)>, rest: Seq<char>|
            s@.skip(pos as int) == #[trigger] (ser_routes_body(es) + ("}}"@ + rest))
    } else {
        (Seq::empty(), Seq::empty())
    };
    let ghost es = wit.0;
    let ghost rest0 = wit.1;
    let n = s.unicode_len();
    let mut routes: Vec<(String, ProxyRoute)> = Vec::new();
    let mut i = pos;
    let ghost body_start = pos as int;
    proof {
        assert(routes@.map_values(|kv: (String, ProxyRoute)| (kv.0@, kv.1@)) =~= Seq::<
            (Seq<char>, RouteView),
        >::empty());
        assert(s@.subrange(body_start, i as int) =~= ser_routes_body(
            routes@.map_values(|kv: (String, ProxyRoute)| (kv.0@, kv.1@)),
        ));
        if hyp {
            if es.len() == 0 {
                assert(ser_routes_body(es) =~= Seq::<char>::empty());
                assert(s@.skip(pos as int) =~= "}}"@ + rest0);
                lemma_prefix_at(s@, pos as int, "}}"@, rest0);
            }
        }
    }
    let close = match expect_lit(s, i, "}}") {
        Some(p) => Some(p),
        None => None,
    };
    let p_end: usize;
    if let Some(p) = close {
        p_end = p;
    } else {
        proof {
            if hyp {
                assert(es.len() > 0);
            }
        }
        let mut done: Option<usize> = None;
        while done.is_none()
            invariant
                pos <= i <= n,
                n == s@.len(),
                s@.subrange(body_start, i as int) == ser_routes_body(
                    routes@.map_values(|kv: (String, ProxyRoute)| (kv.0@, kv.1@)),
                ),
                done matches Some(e) ==> i <= e <= n && s@.subrange(i as int, e as int) == "}}"@,
                hyp ==> routes@.map_values(|kv: (String, ProxyRoute)| (kv.0@, kv.1@))
                    == es.subrange(0, routes@.len() as int) && routes@.len() <= es.len()
                    && es.len() > 0,
                hyp && done is None ==> (if routes@.len() == 0 {
                    s@.skip(i as int) == ser_routes_body(es) + ("}}"@ + rest0)
                } else {
                    s@.skip(i as int) == ser_routes_tail(es.skip(routes@.len() as int)) + ("}}"@
                        + rest0)
                }),
            decreases n - i + if done is Some {
                0int
            } else {
                1int
            },
        {
            let ghost k = routes@.len() as int;
            proof {
                if hyp {
                    if k == 0 {
                        assert(ser_routes_body(es) == ser_entry(es[0]) + ser_routes_tail(
                            es.skip(1),
                        ));
                        lemma_assoc(ser_entry(es[0]), ser_routes_tail(es.skip(1)), "}}"@ + rest0);
                        assert(s@.skip(i as int) == ser_entry(es[0]) + (ser_routes_tail(es.skip(1))
                            + ("}}"@ + rest0)));
                    } else if k < es.len() {
                        assert(es.skip(k)[0] == es[k]);
                        assert(es.skip(k).skip(1) =~= es.skip(k + 1));
                        assert(ser_routes_tail(es.skip(k)) == ","@ + ser_entry(es[k])
                            + ser_routes_tail(es.skip(k + 1)));
                        lemma_assoc(
                            ","@ + ser_entry(es[k]),
                            ser_routes_tail(es.skip(k + 1)),
                            "}}"@ + rest0,
                        );
                        lemma_assoc(
                            ","@,
                            ser_entry(es[k]),
                            ser_routes_tail(es.skip(k + 1)) + ("}}"@ + rest0),
                        );
                        assert(s@.skip(i as int) == ","@ + (ser_entry(es[k]) + (ser_routes_tail(
                            es.skip(k + 1),
                        ) + ("}}"@ + rest0))));
                        lemma_prefix_at(
                            s@,
                            i as int,
                            ","@,
                            ser_entry(es[k]) + (ser_routes_tail(es.skip(k + 1)) + ("}}"@
                                + rest0)),
                        );
                    } else {
                        assert(ser_routes_tail(es.skip(k)) =~= Seq::<char>::empty());
                        assert(s@.skip(i as int) =~= "}}"@ + rest0);
                        lemma_prefix_at(s@, i as int, "}}"@, rest0);
                    }
                }
            }
            let sep: usize;
            if routes.len() > 0 {
                match expect_lit(s, i, ",") {
                    Some(p) => {
                        proof {
                            if hyp {
                                if k >= es.len() {
                                    reveal_strlit(",");
                                    reveal_strlit("}}");
                                    assert(s@.subrange(i as int, p as int)[0] == s@[i as int]);
                                    assert(s@.subrange(i as int, i + 2)[0] == s@[i as int]);
                                    assert(false);
                                }
                            }
                        }
                        sep = p;
                    },
                    None => {
                        match expect_lit(s, i, "}}") {
                            Some(p) => {
                                done = Some(p);
                            },
                            None => {
                                return None;
                            },
                        }
                        continue ;
                    },
                }
            } else {
                sep = i;
            }
            let (entry, q3) = match parse_entry_at(s, sep) {
                Some(x) => x,
                None => {
                    return None;
                },
            };
            let (key, route) = entry;
            proof {
                let views = routes@.map_values(|kv: (String, ProxyRoute)| (kv.0@, kv.1@));
                lemma_routes_body_snoc(views, (key@, route@));
                lemma_cat(s@, body_start, i as int, sep as int);
                lemma_cat(s@, body_start, sep as int, q3 as int);
                assert((routes@.push((key, route))).map_values(
                    |kv: (String, ProxyRoute)| (kv.0@, kv.1@),
                ) =~= views.push((key@, route@)));
                assert(s@.subrange(body_start, q3 as int) =~= ser_routes_body(
                    views.push((key@, route@)),
                ));
                if hyp {
                    lemma_skip_split(s@, sep as int, q3 as int);
                    lemma_ser_entry_prefix(
                        (key@, route@),
                        es[k],
                        s@.skip(q3 as int),
                        ser_routes_tail(es.skip(k + 1)) + ("}}"@ + rest0),
                    );
                    assert(views.push((key@, route@)) =~= es.subrange(0, k + 1));
                }
            }
            routes.push((key, route));
            i = q3;
        }
        p_end = match done {
            Some(e) => e,
            None => {
                return None;
            },
        };
        proof {
            lemma_cat(s@, body_start, i as int, p_end as int);
        }
    }
    Some((routes, p_end))
}

impl Config {
    /// Read back a configuration from its persisted text: exactly the
    /// texts the serializer produces are accepted — every serialized
    /// configuration parses — and the text read is the serialization of
    /// the configuration returned. The file location is not part of the
    /// text and comes back empty.
    #[verifier::rlimit(100)]
    #[verifier::spinoff_prover]
    pub fn parse_config(s: &str) -> (r: Option<Config>)
        ensures
            r matches Some(c) ==> s@ == ser_config(c@) && c@.path =~= Seq::<char>::empty(),
            (exists|c: ConfigView| s@ == #[trigger] ser_config(c)) ==> r is Some,
    {
        let ghost hyp = exists|c: ConfigView| s@ == #[trigger] ser_config(c);
        let ghost c0: ConfigView = if hyp {
            choose|c: ConfigView| s@ == ser_config(c)
        } else {
            arbitrary()
        };
        let ghost g5 = ser_routes_body(c0.routes) + ("}}"@ + Seq::<char>::empty());
        let ghost g4 = ",\"routes\":{"@ + g5;
        let ghost g3 = ser_str(c0.cache_dir) + g4;
        let ghost g2 = ",\"cache_dir\":"@ + g3;
        let ghost g1 = ser_str(c0.email) + g2;
        proof {
            if hyp {
                lemma_shape7(
                    "{\"email\":"@,
                    ser_str(c0.email),
                    ",\"cache_dir\":"@,
                    ser_str(c0.cache_dir),
                    ",\"routes\":{"@,
                    ser_routes_body(c0.routes),
                    "}}"@,
                );
                assert(("}}"@ + Seq::<char>::empty()) =~= "}}"@);
                assert(s@.skip(0) =~= s@);
                assert(s@.skip(0) == "{\"email\":"@ + g1);
                lemma_prefix_at(s@, 0, "{\"email\":"@, g1);
            }
        }
        let n = s.unicode_len();
        let p1 = match expect_lit(s, 0, "{\"email\":") {
            Some(p) => p,
            None => {
                return None;
            },
        };
        let (email, p2) = match parse_string_at(s, p1) {
            Some(x) => x,
            None => {
                return None;
            },
        };
        proof {
            if hyp {
                lemma_skip_split(s@, p1 as int, p2 as int);
                lemma_ser_str_prefix(email@, c0.email, s@.skip(p2 as int), g2);
                lemma_prefix_at(s@, p2 as int, ",\"cache_dir\":"@, g3);
            }
        }
        let p3 = match expect_lit(s, p2, ",\"cache_dir\":") {
            Some(p) => p,
            None => {
                return None;
            },
        };
        let (cache_dir, p4) = match parse_string_at(s, p3) {
            Some(x) => x,
            None => {
                return None;
            },
        };
        proof {
            if hyp {
                lemma_skip_split(s@, p3 as int, p4 as int);
                lemma_ser_str_prefix(cache_dir@, c0.cache_dir, s@.skip(p4 as int), g4);
                lemma_prefix_at(s@, p4 as int, ",\"routes\":{"@, g5);
            }
        }
        let p5 = match expect_lit(s, p4, ",\"routes\":{") {
            Some(p) => p,
            None => {
                return None;
            },
        };
        let (routes, fin) = match parse_routes_at(s, p5) {
            Some(x) => x,
            None => {
                return None;
            },
        };
        proof {
            if hyp {
                reveal_strlit("}}");
                lemma_skip_split(s@, p5 as int, fin as int);
                let parsed = routes@.map_values(|kv: (String, ProxyRoute)| (kv.0@, kv.1@));
                lemma_assoc(ser_routes_body(parsed), "}}"@, s@.skip(fin as int));
                assert(s@.skip(p5 as int) == ser_routes_body(parsed) + ("}}"@ + s@.skip(
                    fin as int,
                )));
                assert(("}}"@ + s@.skip(fin as int))[0] == '}');
                assert(("}}"@ + Seq::<char>::empty())[0] == '}');
                lemma_routes_body_prefix(
                    parsed,
                    c0.routes,
                    "}}"@ + s@.skip(fin as int),
                    "}}"@ + Seq::<char>::empty(),
                );
                lemma_cancel("}}"@, s@.skip(fin as int), Seq::<char>::empty());
                assert(s@.skip(fin as int).len() == n - fin);
            }
        }
        if fin != n {
            return None;
        }
        let c = Config { path: String::new(), email, cache_dir, routes };
        proof {
            lemma_cat(s@, 0, p1 as int, p2 as int);
            lemma_cat(s@, 0, p2 as int, p3 as int);
            lemma_cat(s@, 0, p3 as int, p4 as int);
            lemma_cat(s@, 0, p4 as int, p5 as int);
            lemma_cat(s@, 0, p5 as int, fin as int);
            assert(s@.subrange(0, n as int) =~= s@);
            assert(s@ =~= ser_config(c@));
        }
        Some(c)
    }


    /// The persisted text of this configuration.
    #[verifier::rlimit(60)]
    pub fn to_json(&self) -> (r: String)
        ensures
            r@ == ser_config(self@),
    {
        let mut out = "{\"email\":".to_owned();
        append_json_string(&mut out, self.email.as_str());
        out.append(",\"cache_dir\":");
        append_json_string(&mut out, self.cache_dir.as_str());
        out.append(",\"routes\":{");
        let ghost mid = out@;
        let ghost routes = self@.routes;
        proof {
            assert(routes.subrange(0, 0) =~= Seq::<(Seq<char>, RouteView)>::empty());
            assert(mid + ser_routes_body(routes.subrange(0, 0)) =~= mid);
        }
        let n = self.routes.len();
        let mut i: usize = 0;
        while i < n
            invariant
                i <= n,
                n == self.routes.len(),
                routes == self@.routes,
                out@ == mid + ser_routes_body(routes.subrange(0, i as int)),
            decreases n - i,
        {
            if i > 0 {
                out.append(",");
            }
            append_json_string(&mut out, self.routes[i].0.as_str());
            out.append(":");
            append_route(&mut out, &self.routes[i].1);
            proof {
                assert(routes.subrange(0, i + 1) =~= routes.subrange(0, i as int).push(
                    routes[i as int],
                ));
                lemma_routes_body_snoc(routes.subrange(0, i as int), routes[i as int]);
                assert(out@ =~= mid + ser_routes_body(routes.subrange(0, i + 1)));
            }
            i = i + 1;
        }
        proof {
            assert(routes.subrange(0, n as int) =~= routes);
        }
        out.append("}}");
        proof {
            assert(out@ =~= ser_config(self@));
        }
        out
    }
}

} // verus!
