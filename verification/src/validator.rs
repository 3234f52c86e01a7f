//! TLS eligibility rules: which routes ask for TLS, what counts as a
//! syntactically valid certificate domain and contact email, and the
//! valid/invalid domain sets handed to the certificate component.

use vstd::prelude::*;

use crate::config::Config;
use crate::config::ConfigView;
use crate::config::RouteView;
use crate::config::is_wildcard_key;
use crate::config::lookup_spec;
use crate::strutil::lemma_lex_irrefl;
use crate::strutil::lemma_lex_trans;
use crate::strutil::lex_lt;
use crate::strutil::str_contains_char;
use crate::strutil::str_eq;
use crate::strutil::str_lex_lt;
use crate::validation::is_ascii_alphanumeric_char;

verus! {

/// At least one route terminates TLS at the proxy.
pub open spec fn spec_ssl_enabled(routes: Seq<(Seq<char>, RouteView)>) -> bool {
    exists|i: int| 0 <= i < routes.len() && (#[trigger] routes[i]).1.ssl_enable
}

/// A character allowed in a certificate domain: letters, digits, `-`
/// and `.` — no wildcard star.
pub open spec fn domain_char_ok(c: char) -> bool {
    is_ascii_alphanumeric_char(c) || c == '-' || c == '.'
}

/// A domain label: one to sixty-three characters, no dash at either
/// end.
pub open spec fn label_ok(l: Seq<char>) -> bool {
    1 <= l.len() <= 63 && l[0] != '-' && l.last() != '-'
}

/// Every label of `d` from position `i` on is well-formed, where the
/// label under scan began at `start`.
pub open spec fn labels_ok_from(d: Seq<char>, start: int, i: int) -> bool
    decreases d.len() - i,
{
    if i >= d.len() {
        label_ok(d.subrange(start, d.len() as int))
    } else if d[i] == '.' {
        label_ok(d.subrange(start, i)) && labels_ok_from(d, i + 1, i + 1)
    } else {
        labels_ok_from(d, start, i + 1)
    }
}

/// A domain eligible for certificate issuance: not a wildcard, at most
/// 253 characters, at least one dot, no trailing dot, only domain
/// characters, and every dot-separated label well-formed.
pub open spec fn valid_domain_spec(d: Seq<char>) -> bool {
    &&& !is_wildcard_key(d)
    &&& d.len() <= 253
    &&& d.contains('.')
    &&& (forall|i: int| 0 <= i < d.len() ==> domain_char_ok(#[trigger] d[i]))
    &&& d.len() > 0
    &&& d.last() != '.'
    &&& labels_ok_from(d, 0, 0)
}

/// How many times the character occurs.
pub open spec fn char_count(s: Seq<char>, c: char) -> int
    decreases s.len(),
{
    if s.len() == 0 {
        0
    } else {
        char_count(s.drop_last(), c) + if s.last() == c {
            1int
        } else {
            0int
        }
    }
}

proof fn lemma_char_count_split(s: Seq<char>, c: char, m: int)
    requires
        0 <= m <= s.len(),
    ensures
        char_count(s, c) == char_count(s.subrange(0, m), c) + char_count(
            s.subrange(m, s.len() as int),
            c,
        ),
    decreases s.len() - m,
{
    if m == s.len() {
        assert(s.subrange(0, m) =~= s);
        assert(s.subrange(m, s.len() as int).len() == 0);
    } else {
        let tail = s.subrange(m, s.len() as int);
        let dl = s.drop_last();
        lemma_char_count_split(dl, c, m);
        assert(dl.subrange(0, m) =~= s.subrange(0, m));
        assert(dl.subrange(m, dl.len() as int) =~= tail.drop_last());
        assert(tail.last() == s.last());
    }
}

proof fn lemma_char_count_nonneg(s: Seq<char>, c: char)
    ensures
        char_count(s, c) >= 0,
    decreases s.len(),
{
    if s.len() > 0 {
        lemma_char_count_nonneg(s.drop_last(), c);
    }
}

proof fn lemma_char_count_pos(s: Seq<char>, c: char, i: int)
    requires
        0 <= i < s.len(),
        s[i] == c,
    ensures
        char_count(s, c) >= 1,
    decreases s.len(),
{
    if i == s.len() - 1 {
        lemma_char_count_nonneg(s.drop_last(), c);
    } else {
        lemma_char_count_pos(s.drop_last(), c, i);
        lemma_char_count_nonneg(s, c);
    }
}

/// With exactly one occurrence, any two positions of the character
/// coincide.
pub proof fn lemma_char_count_unique(s: Seq<char>, c: char, i: int, j: int)
    requires
        char_count(s, c) == 1,
        0 <= i < s.len(),
        0 <= j < s.len(),
        s[i] == c,
        s[j] == c,
    ensures
        i == j,
{
    if i != j {
        let a = if i < j {
            i
        } else {
            j
        };
        let b = if i < j {
            j
        } else {
            i
        };
        lemma_char_count_split(s, c, b);
        lemma_char_count_pos(s.subrange(0, b), c, a);
        lemma_char_count_pos(s.subrange(b, s.len() as int), c, 0);
    }
}

/// A syntactically valid contact email: no spaces, exactly one `@`,
/// a non-empty part before it, and a valid certificate domain after it.
pub open spec fn valid_email_spec(e: Seq<char>) -> bool {
    &&& !e.contains(' ')
    &&& char_count(e, '@') == 1
    &&& ({
        let k = choose|k: int| 0 <= k < e.len() && e[k] == '@';
        1 <= k && k + 1 < e.len() && valid_domain_spec(e.subrange(k + 1, e.len() as int))
    })
}

/// The domain is stored as a key, asks for TLS, is not a wildcard, and
/// passes certificate-domain validation.
pub open spec fn acme_valid_domain(routes: Seq<(Seq<char>, RouteView)>, d: Seq<char>) -> bool {
    exists|i: int|
        0 <= i < routes.len() && (#[trigger] routes[i]).0 == d && !is_wildcard_key(d)
            && routes[i].1.ssl_enable && valid_domain_spec(d)
}

/// The keys reported invalid, in stored order: every wildcard key, and
/// every TLS-enabled key that fails domain validation.
pub open spec fn acme_invalid_list(routes: Seq<(Seq<char>, RouteView)>) -> Seq<Seq<char>>
    decreases routes.len(),
{
    if routes.len() == 0 {
        Seq::empty()
    } else {
        let head: Seq<Seq<char>> = if is_wildcard_key(routes[0].0) {
            seq![routes[0].0]
        } else if routes[0].1.ssl_enable && !valid_domain_spec(routes[0].0) {
            seq![routes[0].0]
        } else {
            Seq::empty()
        };
        head + acme_invalid_list(routes.skip(1))
    }
}

/// A string sequence holds the character sequence.
pub open spec fn seq_has_str(vs: Seq<String>, d: Seq<char>) -> bool {
    exists|a: int| 0 <= a < vs.len() && (#[trigger] vs[a])@ == d
}

/// Strictly sorted in lexicographic order; entails distinctness.
pub open spec fn sorted_strings(vs: Seq<String>) -> bool {
    forall|a: int, b: int|
        0 <= a < b < vs.len() ==> lex_lt((#[trigger] vs[a])@, (#[trigger] vs[b])@)
}

/// In a strictly sorted sequence, membership in the tail is membership
/// away from the head.
proof fn lemma_sorted_tail_membership(a: Seq<String>, d: Seq<char>)
    requires
        sorted_strings(a),
        a.len() > 0,
    ensures
        seq_has_str(a.skip(1), d) == (seq_has_str(a, d) && d != a[0]@),
{
    if seq_has_str(a.skip(1), d) {
        let j = choose|j: int| 0 <= j < a.skip(1).len() && (#[trigger] a.skip(1)[j])@ == d;
        assert(a[j + 1]@ == d);
        assert(seq_has_str(a, d));
        assert(lex_lt(a[0]@, a[j + 1]@));
        lemma_lex_irrefl(a[0]@);
        assert(d != a[0]@);
    }
    if seq_has_str(a, d) && d != a[0]@ {
        let k = choose|k: int| 0 <= k < a.len() && (#[trigger] a[k])@ == d;
        assert(k > 0);
        assert(a.skip(1)[k - 1]@ == d);
        assert(seq_has_str(a.skip(1), d));
    }
}

/// Two strictly sorted string sequences with the same members are
/// elementwise equal.
pub proof fn lemma_sorted_strings_unique(a: Seq<String>, b: Seq<String>)
    requires
        sorted_strings(a),
        sorted_strings(b),
        forall|d: Seq<char>| #[trigger] seq_has_str(a, d) == seq_has_str(b, d),
    ensures
        a.len() == b.len(),
        forall|i: int| 0 <= i < a.len() ==> (#[trigger] a[i])@ == b[i]@,
    decreases a.len(),
{
    if a.len() == 0 {
        if b.len() > 0 {
            assert(seq_has_str(b, b[0]@));
            assert(seq_has_str(a, b[0]@));
            let j = choose|j: int| 0 <= j < a.len() && (#[trigger] a[j])@ == b[0]@;
            assert(false);
        }
    } else {
        if b.len() == 0 {
            assert(seq_has_str(a, a[0]@));
            assert(seq_has_str(b, a[0]@));
            let j = choose|j: int| 0 <= j < b.len() && (#[trigger] b[j])@ == a[0]@;
            assert(false);
        }
        assert(seq_has_str(a, a[0]@));
        assert(seq_has_str(b, a[0]@));
        let j = choose|j: int| 0 <= j < b.len() && (#[trigger] b[j])@ == a[0]@;
        assert(seq_has_str(b, b[0]@));
        assert(seq_has_str(a, b[0]@));
        let k = choose|k: int| 0 <= k < a.len() && (#[trigger] a[k])@ == b[0]@;
        if a[0]@ != b[0]@ {
            assert(j > 0 || k > 0);
            if j > 0 && k > 0 {
                assert(lex_lt(b[0]@, b[j]@));
                assert(lex_lt(a[0]@, a[k]@));
                assert(lex_lt(b[0]@, a[0]@));
                assert(lex_lt(a[0]@, b[0]@));
                lemma_lex_trans(a[0]@, b[0]@, a[0]@);
                lemma_lex_irrefl(a[0]@);
            } else if j == 0 {
                assert(b[0]@ == a[0]@);
            } else {
                assert(a[0]@ == b[0]@);
            }
        }
        assert(sorted_strings(a.skip(1))) by {
            assert(forall|x: int, y: int|
                0 <= x < y < a.skip(1).len() ==> lex_lt(
                    (#[trigger] a.skip(1)[x])@,
                    (#[trigger] a.skip(1)[y])@,
                )) by {
                assert(forall|x: int| 0 <= x < a.skip(1).len() ==> #[trigger] a.skip(1)[x] == a[x
                    + 1]);
            }
        }
        assert(sorted_strings(b.skip(1))) by {
            assert(forall|x: int, y: int|
                0 <= x < y < b.skip(1).len() ==> lex_lt(
                    (#[trigger] b.skip(1)[x])@,
                    (#[trigger] b.skip(1)[y])@,
                )) by {
                assert(forall|x: int| 0 <= x < b.skip(1).len() ==> #[trigger] b.skip(1)[x] == b[x
                    + 1]);
            }
        }
        assert forall|d: Seq<char>|
            #[trigger] seq_has_str(a.skip(1), d) == seq_has_str(b.skip(1), d) by {
            lemma_sorted_tail_membership(a, d);
            lemma_sorted_tail_membership(b, d);
        }
        lemma_sorted_strings_unique(a.skip(1), b.skip(1));
        assert(forall|i: int| 0 <= i < a.len() ==> (#[trigger] a[i])@ == b[i]@) by {
            assert(forall|i: int| 1 <= i < a.len() ==> a[i] == a.skip(1)[i - 1]);
            assert(forall|i: int| 1 <= i < b.len() ==> b[i] == b.skip(1)[i - 1]);
            assert(forall|i: int|
                0 <= i < a.skip(1).len() ==> (#[trigger] a.skip(1)[i])@ == b.skip(1)[i]@);
        }
    }
}

/// All conditions under which the proxy can actually answer TLS for a
/// host: the global flag, a valid contact email, a TLS-enabled route
/// for the host, and membership in the valid certificate domain set.
pub open spec fn can_serve_tls_spec(c: ConfigView, host: Seq<char>) -> bool {
    &&& spec_ssl_enabled(c.routes)
    &&& valid_email_spec(c.email)
    &&& (lookup_spec(c.routes, host) matches Some(r) && r.ssl_enable)
    &&& acme_valid_domain(c.routes, host)
}

/// The exact-length label checks, reading the characters the spec
/// reads.
#[verifier::loop_isolation(false)]
fn labels_ok_exec(d: &str, start: usize, i: usize) -> (r: bool)
    requires
        start <= i <= d@.len(),
    ensures
        r == labels_ok_from(d@, start as int, i as int),
    decreases d@.len() - i,
{
    let n = d.unicode_len();
    if i >= n {
        let len = n - start;
        1 <= len && len <= 63 && d.get_char(start) != '-' && d.get_char(n - 1) != '-'
    } else if d.get_char(i) == '.' {
        let len = i - start;
        let head_ok = 1 <= len && len <= 63 && d.get_char(start) != '-' && d.get_char(i - 1)
            != '-';
        proof {
            if len >= 1 {
                assert(d@.subrange(start as int, i as int).last() == d@[i - 1]);
            }
        }
        if !head_ok {
            return false;
        }
        labels_ok_exec(d, i + 1, i + 1)
    } else {
        labels_ok_exec(d, start, i + 1)
    }
}

impl Config {
    /// Validate a domain for certificate issuance.
    pub fn validate_domain(domain: &str) -> (r: bool)
        ensures
            r == valid_domain_spec(domain@),
    {
        validate_domain_str(domain)
    }
}

/// Validate a domain for certificate issuance.
pub fn validate_domain_str(domain: &str) -> (r: bool)
    ensures
        r == valid_domain_spec(domain@),
{
    let n = domain.unicode_len();
    if n >= 2 && domain.get_char(0) == '*' && domain.get_char(1) == '.' {
        return false;
    }
    if n > 253 {
        return false;
    }
    if !str_contains_char(domain, '.') {
        return false;
    }
    let mut i: usize = 0;
    while i < n
        invariant
            i <= n,
            n == domain@.len(),
            forall|j: int| 0 <= j < i ==> domain_char_ok(#[trigger] domain@[j]),
        decreases n - i,
    {
        let c = domain.get_char(i);
        let code = c as u32;
        let alnum = (48 <= code && code <= 57) || (65 <= code && code <= 90) || (97 <= code
            && code <= 122);
        if !(alnum || c == '-' || c == '.') {
            return false;
        }
        i = i + 1;
    }
    if domain.get_char(n - 1) == '.' {
        return false;
    }
    labels_ok_exec(domain, 0, 0)
}

impl Config {
    /// Whether at least one route has TLS enabled; an empty route set
    /// has none.
    pub fn is_ssl_enabled(&self) -> (r: bool)
        ensures
            r == spec_ssl_enabled(self@.routes),
    {
        let n = self.routes.len();
        let mut i: usize = 0;
        while i < n
            invariant
                i <= n,
                n == self.routes.len(),
                forall|j: int| 0 <= j < i ==> !(#[trigger] self@.routes[j]).1.ssl_enable,
            decreases n - i,
        {
            if self.routes[i].1.ssl_enable {
                proof {
                    assert(self@.routes[i as int].1.ssl_enable);
                }
                return true;
            }
            i = i + 1;
        }
        false
    }

    /// Whether the operator email is syntactically valid.
    #[verifier::loop_isolation(false)]
    pub fn is_email_valid(&self) -> (r: bool)
        ensures
            r == valid_email_spec(self@.email),
    {
        let email: &str = self.email.as_str();
        let n = email.unicode_len();
        let mut at_count: usize = 0;
        let mut at_pos: usize = 0;
        let mut i: usize = 0;
        while i < n
            invariant
                i <= n,
                at_count <= i,
                at_count == char_count(email@.subrange(0, i as int), '@'),
                at_count > 0 ==> at_pos < i && email@[at_pos as int] == '@',
                forall|j: int| 0 <= j < i ==> email@[j] != ' ',
            decreases n - i,
        {
            let c = email.get_char(i);
            if c == ' ' {
                proof {
                    assert(email@.contains(' '));
                }
                return false;
            }
            proof {
                assert(email@.subrange(0, i + 1).drop_last() =~= email@.subrange(0, i as int));
                assert(email@.subrange(0, i + 1).last() == email@[i as int]);
            }
            if c == '@' {
                if at_count == 0 {
                    at_pos = i;
                }
                at_count = at_count + 1;
            }
            i = i + 1;
        }
        proof {
            assert(email@.subrange(0, n as int) =~= email@);
        }
        if at_count != 1 {
            return false;
        }
        proof {
            let k = choose|k: int| 0 <= k < email@.len() && email@[k] == '@';
            assert(email@[at_pos as int] == '@');
            lemma_char_count_unique(email@, '@', k, at_pos as int);
        }
        if at_pos == 0 {
            return false;
        }
        if at_pos + 1 >= n {
            return false;
        }
        let domain = email.substring_char(at_pos + 1, n);
        validate_domain_str(domain)
    }

    /// The valid and invalid certificate domain sets derived from the
    /// routes: valid domains sorted and without duplicates, invalid
    /// keys in stored order; keys without TLS appear in neither.
    #[verifier::loop_isolation(false)]
    pub fn get_valid_domains_for_acme(&self) -> (r: (Vec<String>, Vec<String>))
        ensures
            sorted_strings(r.0@),
            forall|a: int|
                0 <= a < r.0@.len() ==> acme_valid_domain(self@.routes, (#[trigger] r.0@[a])@),
            forall|i: int|
                0 <= i < self@.routes.len() && !is_wildcard_key((#[trigger] self@.routes[i]).0)
                    && self@.routes[i].1.ssl_enable && valid_domain_spec(self@.routes[i].0)
                    ==> seq_has_str(r.0@, self@.routes[i].0),
            r.1@.map_values(|s: String| s@) == acme_invalid_list(self@.routes),
    {
        let ghost routes = self@.routes;
        let mut valid: Vec<String> = Vec::new();
        let mut invalid: Vec<String> = Vec::new();
        let n = self.routes.len();
        proof {
            assert(routes.skip(0) =~= routes);
            assert(invalid@.map_values(|s: String| s@) =~= Seq::<Seq<char>>::empty());
        }
        let mut i: usize = 0;
        while i < n
            invariant
                i <= n,
                n == self.routes.len(),
                routes == self@.routes,
                sorted_strings(valid@),
                forall|a: int|
                    0 <= a < valid@.len() ==> acme_valid_domain(routes, (#[trigger] valid@[a])@),
                forall|j: int|
                    0 <= j < i && !is_wildcard_key((#[trigger] routes[j]).0)
                        && routes[j].1.ssl_enable && valid_domain_spec(routes[j].0)
                        ==> seq_has_str(valid@, routes[j].0),
                invalid@.map_values(|s: String| s@) + acme_invalid_list(routes.skip(i as int))
                    =~= acme_invalid_list(routes),
            decreases n - i,
        {
            proof {
                assert(routes.skip(i as int)[0] == routes[i as int]);
                assert(routes.skip(i as int).skip(1) =~= routes.skip(i + 1));
            }
            let key: &String = &self.routes[i].0;
            let klen = key.as_str().unicode_len();
            let is_wild = klen >= 2 && key.as_str().get_char(0) == '*' && key.as_str().get_char(1)
                == '.';
            if is_wild {
                let ghost inv0 = invalid@;
                invalid.push(key.clone());
                proof {
                    assert(invalid@.map_values(|s: String| s@) =~= inv0.map_values(
                        |s: String| s@,
                    ).push(routes[i as int].0));
                }
            } else if self.routes[i].1.ssl_enable {
                if validate_domain_str(key.as_str()) {
                    proof {
                        assert(acme_valid_domain(routes, routes[i as int].0)) by {
                            assert(0 <= (i as int) < routes.len() && routes[i as int].0 == routes[
                                i as int].0 && !is_wildcard_key(routes[i as int].0) && routes[
                                i as int].1.ssl_enable && valid_domain_spec(routes[i as int].0));
                        }
                    }
                    let ghost v0 = valid@;
                    insert_sorted_unique(&mut valid, key.clone());
                    proof {
                        assert forall|a: int| 0 <= a < valid@.len() implies acme_valid_domain(
                            routes,
                            (#[trigger] valid@[a])@,
                        ) by {
                            assert(seq_has_str(valid@, valid@[a]@));
                            if valid@[a]@ != routes[i as int].0 {
                                assert(seq_has_str(v0, valid@[a]@));
                                let b = choose|b: int|
                                    0 <= b < v0.len() && (#[trigger] v0[b])@ == valid@[a]@;
                                assert(acme_valid_domain(routes, v0[b]@));
                            }
                        }
                        assert forall|j: int|
                            0 <= j < i + 1 && !is_wildcard_key((#[trigger] routes[j]).0)
                                && routes[j].1.ssl_enable && valid_domain_spec(routes[j].0) implies
                            seq_has_str(valid@, routes[j].0) by {
                            if j < i as int {
                                assert(seq_has_str(v0, routes[j].0));
                            }
                        }
                    }
                } else {
                    let ghost inv0 = invalid@;
                    invalid.push(key.clone());
                    proof {
                        assert(invalid@.map_values(|s: String| s@) =~= inv0.map_values(
                            |s: String| s@,
                        ).push(routes[i as int].0));
                    }
                }
            }
            i = i + 1;
        }
        proof {
            assert(routes.skip(n as int).len() == 0);
            assert(invalid@.map_values(|s: String| s@) =~= acme_invalid_list(routes));
        }
        (valid, invalid)
    }

    /// Whether the proxy can actually serve TLS for the host right now.
    pub fn can_serve_tls_for_host(&self, host: &str) -> (r: bool)
        ensures
            r == can_serve_tls_spec(self@, host@),
    {
        if !self.is_ssl_enabled() {
            return false;
        }
        if !self.is_email_valid() {
            return false;
        }
        match self.lookup_host(host) {
            None => {
                return false;
            },
            Some(route) => {
                if !route.is_ssl_enabled() {
                    return false;
                }
            },
        }
        let (valid, _invalid) = self.get_valid_domains_for_acme();
        let n = valid.len();
        let mut i: usize = 0;
        while i < n
            invariant
                i <= n,
                n == valid.len(),
                forall|a: int| 0 <= a < valid@.len() ==> acme_valid_domain(self@.routes, (
                #[trigger] valid@[a])@),
                forall|j: int|
                    0 <= j < self@.routes.len() && !is_wildcard_key((#[trigger] self@.routes[j]).0)
                        && self@.routes[j].1.ssl_enable && valid_domain_spec(self@.routes[j].0)
                        ==> seq_has_str(valid@, self@.routes[j].0),
                forall|a: int| 0 <= a < i ==> (#[trigger] valid@[a])@ != host@,
                spec_ssl_enabled(self@.routes),
                valid_email_spec(self@.email),
                lookup_spec(self@.routes, host@) matches Some(r) && r.ssl_enable,
            decreases n - i,
        {
            if str_eq(valid[i].as_str(), host) {
                return true;
            }
            i = i + 1;
        }
        proof {
            if acme_valid_domain(self@.routes, host@) {
                let j = choose|j: int|
                    0 <= j < self@.routes.len() && (#[trigger] self@.routes[j]).0 == host@
                        && !is_wildcard_key(host@) && self@.routes[j].1.ssl_enable
                        && valid_domain_spec(host@);
                assert(seq_has_str(valid@, host@));
                let a = choose|a: int| 0 <= a < valid@.len() && (#[trigger] valid@[a])@ == host@;
                assert(false);
            }
        }
        false
    }
}

/// Insert into a sorted vector, keeping order and dropping a duplicate.
#[verifier::loop_isolation(false)]
fn insert_sorted_unique(v: &mut Vec<String>, s: String)
    requires
        sorted_strings(old(v)@),
    ensures
        sorted_strings(final(v)@),
        forall|d: Seq<char>|
            #[trigger] seq_has_str(final(v)@, d) <==> (seq_has_str(old(v)@, d) || d == s@),
{
    let n = v.len();
    let mut p: usize = 0;
    while p < n && str_lex_lt(v[p].as_str(), s.as_str())
        invariant
            p <= n,
            n == v.len(),
            forall|a: int| 0 <= a < p ==> lex_lt((#[trigger] v@[a])@, s@),
        decreases n - p,
    {
        p = p + 1;
    }
    if p < n && str_eq(v[p].as_str(), s.as_str()) {
        proof {
            assert(v@[p as int]@ == s@);
            assert(forall|d: Seq<char>|
                seq_has_str(v@, d) <==> (seq_has_str(old(v)@, d) || d == s@)) by {
                assert(seq_has_str(v@, s@));
            }
        }
        return;
    }
    let ghost v0 = v@;
    v.insert(p, s);
    proof {
        crate::strutil::lemma_lex_connected();
        crate::strutil::lemma_lex_transitive_all();
        assert(forall|a: int| 0 <= a < p ==> v@[a] == v0[a]);
        assert(forall|a: int| p < a < v@.len() ==> v@[a] == v0[a - 1]);
        assert(v@[p as int]@ == s@);
        if (p as int) < v0.len() {
            assert(!lex_lt(v0[p as int]@, s@));
            assert(v0[p as int]@ != s@);
            assert(lex_lt(s@, v0[p as int]@));
        }
        assert(sorted_strings(v@)) by {
            assert(forall|a: int, b: int|
                0 <= a < b < v@.len() ==> lex_lt((#[trigger] v@[a])@, (#[trigger] v@[b])@)) by {
                assert(forall|b: int|
                    p < b < v@.len() ==> lex_lt(s@, (#[trigger] v@[b])@));
            }
        }
        assert(forall|d: Seq<char>|
            #[trigger] seq_has_str(v@, d) <==> (seq_has_str(v0, d) || d == s@)) by {
            assert(forall|d: Seq<char>| seq_has_str(v0, d) ==> seq_has_str(v@, d)) by {
                assert(forall|a: int|
                    0 <= a < v0.len() ==> #[trigger] v0[a] == if a < p as int {
                        v@[a]
                    } else {
                        v@[a + 1]
                    });
            }
            assert(seq_has_str(v@, s@));
            assert(forall|d: Seq<char>| seq_has_str(v@, d) && d != s@ ==> seq_has_str(v0, d));
        }
    }
}

} // verus!
