//! The TLS supervisor's decisions: from a configuration snapshot to the
//! state its loop enters, and whether a new snapshot requires the
//! running listener to restart.

use vstd::prelude::*;

use crate::config::Config;
use crate::strutil::str_eq;
use crate::config::is_wildcard_key;
use crate::validator::acme_invalid_list;
use crate::validator::acme_valid_domain;
use crate::validator::seq_has_str;
use crate::validator::sorted_strings;
use crate::validator::spec_ssl_enabled;
use crate::validator::valid_domain_spec;
use crate::validator::valid_email_spec;

verus! {

/// What the TLS supervisor does next for a given snapshot: wait for a
/// flag, wait for a usable email, wait for a non-empty valid domain
/// set, or serve the listed domains.
pub enum SslGate {
    Disabled,
    InvalidEmail,
    NoValidDomains { invalid: Vec<String> },
    Serve { domains: Vec<String>, invalid: Vec<String>, email: String, cache_dir: String },
}

impl Config {
    /// Evaluate the supervisor's gate for this snapshot, in the order
    /// the loop checks: the global flag, then the contact email, then
    /// the valid certificate domain set.
    pub fn evaluate_ssl_gate(&self) -> (g: SslGate)
        ensures
            (g is Disabled) == !spec_ssl_enabled(self@.routes),
            spec_ssl_enabled(self@.routes) ==> ((g is InvalidEmail) == !valid_email_spec(
                self@.email,
            )),
            match g {
                SslGate::Disabled => true,
                SslGate::InvalidEmail => true,
                SslGate::NoValidDomains { invalid } => {
                    &&& spec_ssl_enabled(self@.routes)
                    &&& valid_email_spec(self@.email)
                    &&& invalid@.map_values(|s: String| s@) == acme_invalid_list(self@.routes)
                    &&& forall|d: Seq<char>| !acme_valid_domain(self@.routes, d)
                },
                SslGate::Serve { domains, invalid, email, cache_dir } => {
                    &&& spec_ssl_enabled(self@.routes)
                    &&& valid_email_spec(self@.email)
                    &&& domains@.len() > 0
                    &&& sorted_strings(domains@)
                    &&& forall|a: int|
                        0 <= a < domains@.len() ==> acme_valid_domain(
                            self@.routes,
                            (#[trigger] domains@[a])@,
                        )
                    &&& forall|i: int|
                        0 <= i < self@.routes.len() && !is_wildcard_key(
                            (#[trigger] self@.routes[i]).0,
                        ) && self@.routes[i].1.ssl_enable && valid_domain_spec(self@.routes[i].0)
                            ==> seq_has_str(domains@, self@.routes[i].0)
                    &&& invalid@.map_values(|s: String| s@) == acme_invalid_list(self@.routes)
                    &&& email@ == self@.email
                    &&& cache_dir@ == self@.cache_dir
                },
            },
    {
        if !self.is_ssl_enabled() {
            return SslGate::Disabled;
        }
        if !self.is_email_valid() {
            return SslGate::InvalidEmail;
        }
        let (domains, invalid) = self.get_valid_domains_for_acme();
        if domains.is_empty() {
            proof {
                assert forall|d: Seq<char>| !acme_valid_domain(self@.routes, d) by {
                    if acme_valid_domain(self@.routes, d) {
                        let i = choose|i: int|
                            0 <= i < self@.routes.len() && (#[trigger] self@.routes[i]).0 == d
                                && !is_wildcard_key(d) && self@.routes[i].1.ssl_enable
                                && valid_domain_spec(d);
                        assert(seq_has_str(domains@, d));
                    }
                }
            }
            return SslGate::NoValidDomains { invalid };
        }
        SslGate::Serve {
            domains,
            invalid,
            email: self.get_email().clone(),
            cache_dir: self.get_cache_dir().clone(),
        }
    }

    /// While serving `domains` for `email` with certificate material
    /// under `cache_dir`: whether this new snapshot forces a graceful
    /// restart — the flag dropped, the email broke, the valid domain
    /// set changed, or the contact or cache directory changed. The
    /// served list is sorted, so set equality is list equality.
    pub fn ssl_restart_needed(
        &self,
        domains: &Vec<String>,
        email: &String,
        cache_dir: &String,
    ) -> (r: bool)
        ensures
            sorted_strings(domains@) ==> r == ({
                ||| !spec_ssl_enabled(self@.routes)
                ||| !valid_email_spec(self@.email)
                ||| !(forall|d: Seq<char>|
                    #[trigger] seq_has_str(domains@, d) == acme_valid_domain(self@.routes, d))
                ||| self@.email != email@
                ||| self@.cache_dir != cache_dir@
            }),
    {
        if !self.is_ssl_enabled() {
            return true;
        }
        if !self.is_email_valid() {
            return true;
        }
        let (new_valid, _invalid) = self.get_valid_domains_for_acme();
        let lists_equal = vec_strings_equal(&new_valid, domains);
        proof {
            assert(forall|d: Seq<char>|
                #[trigger] seq_has_str(new_valid@, d) == acme_valid_domain(self@.routes, d)) by {
                assert forall|d: Seq<char>|
                    #[trigger] seq_has_str(new_valid@, d) implies acme_valid_domain(
                    self@.routes,
                    d,
                ) by {
                    let a = choose|a: int|
                        0 <= a < new_valid@.len() && (#[trigger] new_valid@[a])@ == d;
                }
                assert forall|d: Seq<char>|
                    acme_valid_domain(self@.routes, d) implies #[trigger] seq_has_str(
                    new_valid@,
                    d,
                ) by {
                    let i = choose|i: int|
                        0 <= i < self@.routes.len() && (#[trigger] self@.routes[i]).0 == d
                            && !is_wildcard_key(d) && self@.routes[i].1.ssl_enable
                            && valid_domain_spec(d);
                }
            }
            if lists_equal {
                assert(new_valid@.len() == domains@.len()) by {
                    assert(new_valid@.map_values(|s: String| s@).len() == new_valid@.len());
                    assert(domains@.map_values(|s: String| s@).len() == domains@.len());
                }
                assert forall|j: int|
                    0 <= j < new_valid@.len() implies (#[trigger] new_valid@[j])@ == domains@[j]@
                     by {
                    let ma = new_valid@.map_values(|s: String| s@);
                    let mb = domains@.map_values(|s: String| s@);
                    assert(ma[j] == mb[j]);
                    assert(ma[j] == new_valid@[j]@);
                    assert(mb[j] == domains@[j]@);
                }
                assert forall|d: Seq<char>|
                    #[trigger] seq_has_str(domains@, d) == seq_has_str(new_valid@, d) by {
                    if seq_has_str(domains@, d) {
                        let x = choose|x: int|
                            0 <= x < domains@.len() && (#[trigger] domains@[x])@ == d;
                        assert(new_valid@[x]@ == d);
                        assert(seq_has_str(new_valid@, d));
                    }
                    if seq_has_str(new_valid@, d) {
                        let x = choose|x: int|
                            0 <= x < new_valid@.len() && (#[trigger] new_valid@[x])@ == d;
                        assert(domains@[x]@ == d);
                        assert(seq_has_str(domains@, d));
                    }
                }
            } else {
                if sorted_strings(domains@) && forall|d: Seq<char>|
                    #[trigger] seq_has_str(domains@, d) == acme_valid_domain(self@.routes, d) {
                    assert forall|d: Seq<char>|
                        #[trigger] seq_has_str(new_valid@, d) == seq_has_str(domains@, d) by {
                        assert(seq_has_str(new_valid@, d) == acme_valid_domain(self@.routes, d));
                        assert(seq_has_str(domains@, d) == acme_valid_domain(self@.routes, d));
                    }
                    crate::validator::lemma_sorted_strings_unique(new_valid@, domains@);
                    assert(vec_strings_equal_spec(
                        new_valid@.map_values(|s: String| s@),
                        domains@.map_values(|s: String| s@),
                    ));
                }
            }
        }
        if !lists_equal {
            return true;
        }
        if !str_eq(self.get_email().as_str(), email.as_str()) {
            return true;
        }
        if !str_eq(self.get_cache_dir().as_str(), cache_dir.as_str()) {
            return true;
        }
        false
    }
}

/// Elementwise equality of two string sequences.
pub open spec fn vec_strings_equal_spec(a: Seq<Seq<char>>, b: Seq<Seq<char>>) -> bool {
    a.len() == b.len() && forall|i: int| 0 <= i < a.len() ==> a[i] == b[i]
}

/// Elementwise comparison of two string vectors.
pub fn vec_strings_equal(a: &Vec<String>, b: &Vec<String>) -> (r: bool)
    ensures
        r == vec_strings_equal_spec(
            a@.map_values(|s: String| s@),
            b@.map_values(|s: String| s@),
        ),
{
    let n = a.len();
    if n != b.len() {
        proof {
            assert(a@.map_values(|s: String| s@).len() == a@.len());
            assert(b@.map_values(|s: String| s@).len() == b@.len());
        }
        return false;
    }
    let mut i: usize = 0;
    while i < n
        invariant
            i <= n,
            n == a@.len(),
            n == b@.len(),
            forall|j: int| 0 <= j < i ==> (#[trigger] a@[j])@ == b@[j]@,
        decreases n - i,
    {
        if !str_eq(a[i].as_str(), b[i].as_str()) {
            proof {
                assert(a@.map_values(|s: String| s@)[i as int] != b@.map_values(
                    |s: String| s@,
                )[i as int]);
            }
            return false;
        }
        i = i + 1;
    }
    proof {
        let ma = a@.map_values(|s: String| s@);
        let mb = b@.map_values(|s: String| s@);
        assert(forall|j: int| 0 <= j < ma.len() ==> #[trigger] ma[j] == mb[j]);
    }
    true
}

} // verus!
