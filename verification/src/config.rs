//! The configuration data model: a map from domain keys to routes, the
//! operator email and the certificate cache directory, together with the
//! command operations that mutate it and the host lookup that resolves an
//! inbound hostname to a route.

use vstd::prelude::*;

use crate::numfmt::dec_str;
use crate::numfmt::u16_to_string;
use crate::path_util::trim_trailing_slash;
use crate::path_util::trimmed_trailing_slash;
use crate::strutil::str_eq;

verus! {

/// A path-prefix-scoped override of the backend port under a route.
#[derive(Debug, Clone)]
pub struct ProxyPathRoute {
    pub path: String,
    pub port: u16,
}

/// One backend target with its TLS and redirect policy and its subroutes.
#[derive(Debug, Clone)]
pub struct ProxyRoute {
    pub host: String,
    pub path: String,
    pub port: u16,
    pub ssl_enable: bool,
    pub listen_port: Option<u16>,
    pub redirect_to_https: bool,
    pub subroutes: Vec<ProxyPathRoute>,
}

/// The single source of truth: where the file lives, the operator email,
/// the certificate cache directory, and the routes keyed by domain.
#[derive(Debug, Clone)]
pub struct Config {
    pub path: String,
    pub email: String,
    pub cache_dir: String,
    pub routes: Vec<(String, ProxyRoute)>,
}

/// An all-optional mirror of a route's mutable fields, for partial
/// updates; a `listen_port` of `0` clears the custom port.
#[derive(Debug, Clone)]
pub struct RoutePatch {
    pub host: Option<String>,
    pub path: Option<String>,
    pub port: Option<u16>,
    pub ssl_enable: Option<bool>,
    pub redirect_to_https: Option<bool>,
    pub listen_port: Option<u16>,
}

pub ghost struct SubrouteView {
    pub path: Seq<char>,
    pub port: u16,
}

pub ghost struct RouteView {
    pub host: Seq<char>,
    pub path: Seq<char>,
    pub port: u16,
    pub ssl_enable: bool,
    pub listen_port: Option<u16>,
    pub redirect_to_https: bool,
    pub subroutes: Seq<SubrouteView>,
}

pub ghost struct ConfigView {
    pub path: Seq<char>,
    pub email: Seq<char>,
    pub cache_dir: Seq<char>,
    pub routes: Seq<(Seq<char>, RouteView)>,
}

pub ghost struct PatchView {
    pub host: Option<Seq<char>>,
    pub path: Option<Seq<char>>,
    pub port: Option<u16>,
    pub ssl_enable: Option<bool>,
    pub redirect_to_https: Option<bool>,
    pub listen_port: Option<u16>,
}

impl View for ProxyPathRoute {
    type V = SubrouteView;

    open spec fn view(&self) -> SubrouteView {
        SubrouteView { path: self.path@, port: self.port }
    }
}

impl View for ProxyRoute {
    type V = RouteView;

    open spec fn view(&self) -> RouteView {
        RouteView {
            host: self.host@,
            path: self.path@,
            port: self.port,
            ssl_enable: self.ssl_enable,
            listen_port: self.listen_port,
            redirect_to_https: self.redirect_to_https,
            subroutes: self.subroutes@.map_values(|s: ProxyPathRoute| s@),
        }
    }
}

impl View for Config {
    type V = ConfigView;

    open spec fn view(&self) -> ConfigView {
        ConfigView {
            path: self.path@,
            email: self.email@,
            cache_dir: self.cache_dir@,
            routes: self.routes@.map_values(|kv: (String, ProxyRoute)| (kv.0@, kv.1@)),
        }
    }
}

impl View for RoutePatch {
    type V = PatchView;

    open spec fn view(&self) -> PatchView {
        PatchView {
            host: match self.host {
                Some(ref h) => Some(h@),
                None => None,
            },
            path: match self.path {
                Some(ref p) => Some(p@),
                None => None,
            },
            port: self.port,
            ssl_enable: self.ssl_enable,
            redirect_to_https: self.redirect_to_https,
            listen_port: self.listen_port,
        }
    }
}

/// Some route is stored under this exact domain key.
pub open spec fn has_domain(routes: Seq<(Seq<char>, RouteView)>, d: Seq<char>) -> bool {
    exists|i: int| 0 <= i < routes.len() && routes[i].0 == d
}

/// Domain keys are pairwise distinct.
pub open spec fn keys_unique(routes: Seq<(Seq<char>, RouteView)>) -> bool {
    forall|i: int, j: int|
        0 <= i < j < routes.len() ==> (#[trigger] routes[i]).0 != (#[trigger] routes[j]).0
}

/// The key is a wildcard: it starts with `*.`.
pub open spec fn is_wildcard_key(key: Seq<char>) -> bool {
    key.len() >= 2 && key[0] == '*' && key[1] == '.'
}

/// A wildcard key `*.suffix` matches every host that ends with
/// `.suffix` — and never the bare suffix itself, whose length is short
/// by one.
pub open spec fn wildcard_key_matches(key: Seq<char>, host: Seq<char>) -> bool {
    &&& is_wildcard_key(key)
    &&& host.len() >= key.len() - 1
    &&& host.subrange(host.len() - (key.len() - 1), host.len() as int) == key.subrange(
        1,
        key.len() as int,
    )
}

/// The first route whose key equals the host, in stored order.
pub open spec fn exact_lookup(routes: Seq<(Seq<char>, RouteView)>, host: Seq<char>) -> Option<
    RouteView,
>
    decreases routes.len(),
{
    if routes.len() == 0 {
        None
    } else if routes[0].0 == host {
        Some(routes[0].1)
    } else {
        exact_lookup(routes.skip(1), host)
    }
}

/// The first route whose wildcard key matches the host, in stored order.
pub open spec fn wildcard_lookup(routes: Seq<(Seq<char>, RouteView)>, host: Seq<char>) -> Option<
    RouteView,
>
    decreases routes.len(),
{
    if routes.len() == 0 {
        None
    } else if wildcard_key_matches(routes[0].0, host) {
        Some(routes[0].1)
    } else {
        wildcard_lookup(routes.skip(1), host)
    }
}

/// Host resolution: an exact key wins over any wildcard key.
pub open spec fn lookup_spec(routes: Seq<(Seq<char>, RouteView)>, host: Seq<char>) -> Option<
    RouteView,
> {
    if exact_lookup(routes, host) is Some {
        exact_lookup(routes, host)
    } else {
        wildcard_lookup(routes, host)
    }
}

/// An exact match exists exactly when some key equals the host.
pub proof fn lemma_exact_lookup_has_domain(routes: Seq<(Seq<char>, RouteView)>, host: Seq<char>)
    ensures
        (exact_lookup(routes, host) is Some) == has_domain(routes, host),
    decreases routes.len(),
{
    if routes.len() > 0 {
        lemma_exact_lookup_has_domain(routes.skip(1), host);
        if routes[0].0 == host {
        } else {
            assert(has_domain(routes, host) == has_domain(routes.skip(1), host)) by {
                if has_domain(routes, host) {
                    let i = choose|i: int| 0 <= i < routes.len() && routes[i].0 == host;
                    assert(routes.skip(1)[i - 1] == routes[i]);
                }
                if has_domain(routes.skip(1), host) {
                    let i = choose|i: int|
                        0 <= i < routes.skip(1).len() && routes.skip(1)[i].0 == host;
                    assert(routes[i + 1] == routes.skip(1)[i]);
                }
            }
        }
    }
}

/// When keys are unique, the exact lookup returns the route stored at
/// any index whose key equals the host.
pub proof fn lemma_exact_lookup_at(routes: Seq<(Seq<char>, RouteView)>, host: Seq<char>, i: int)
    requires
        keys_unique(routes),
        0 <= i < routes.len(),
        routes[i].0 == host,
    ensures
        exact_lookup(routes, host) == Some(routes[i].1),
    decreases routes.len(),
{
    if i == 0 {
    } else {
        assert(routes[0].0 != host);
        assert(forall|a: int, b: int|
            0 <= a < b < routes.skip(1).len() ==> (#[trigger] routes.skip(1)[a]).0 != (
            #[trigger] routes.skip(1)[b]).0) by {
            assert(forall|a: int|
                0 <= a < routes.skip(1).len() ==> routes.skip(1)[a] == routes[a + 1]);
        }
        assert(routes.skip(1)[i - 1] == routes[i]);
        lemma_exact_lookup_at(routes.skip(1), host, i - 1);
    }
}

/// A wildcard key `*.suffix` matches exactly the hosts that end with
/// `.suffix` — the key with the `*` removed.
pub proof fn lemma_wildcard_matches_is_suffix(key: Seq<char>, host: Seq<char>)
    ensures
        wildcard_key_matches(key, host) == (is_wildcard_key(key) && crate::strutil::spec_ends_with(
            host,
            key.skip(1),
        )),
{
    if is_wildcard_key(key) {
        assert(key.skip(1) =~= key.subrange(1, key.len() as int));
        if key.len() - 1 <= host.len() {
            assert(host.subrange(host.len() - (key.len() - 1), host.len() as int) =~= host.subrange(
                host.len() - key.skip(1).len(),
                host.len() as int,
            ));
        }
    }
}

/// A wildcard key never matches its own base domain: the base is one
/// character too short to end with the dotted suffix.
pub proof fn lemma_wildcard_never_matches_base(key: Seq<char>)
    requires
        is_wildcard_key(key),
    ensures
        !wildcard_key_matches(key, key.skip(2)),
{
    assert(key.skip(2).len() == key.len() - 2);
}

/// With unique keys, a host stored as an exact key resolves to that
/// key's route — also when wildcard keys would match it.
pub proof fn lemma_lookup_exact_wins(routes: Seq<(Seq<char>, RouteView)>, host: Seq<char>, i: int)
    requires
        keys_unique(routes),
        0 <= i < routes.len(),
        routes[i].0 == host,
    ensures
        lookup_spec(routes, host) == Some(routes[i].1),
{
    lemma_exact_lookup_at(routes, host, i);
}

/// A host matched by some wildcard key and stored under no exact key
/// resolves to a route stored under a matching wildcard key.
pub proof fn lemma_lookup_wildcard(routes: Seq<(Seq<char>, RouteView)>, host: Seq<char>, i: int)
    requires
        !has_domain(routes, host),
        0 <= i < routes.len(),
        wildcard_key_matches(routes[i].0, host),
    ensures
        lookup_spec(routes, host) matches Some(r) && exists|j: int|
            0 <= j < routes.len() && wildcard_key_matches((#[trigger] routes[j]).0, host) && r
                == routes[j].1,
{
    lemma_exact_lookup_has_domain(routes, host);
    lemma_wildcard_lookup_some(routes, host, i);
}

proof fn lemma_wildcard_lookup_some(routes: Seq<(Seq<char>, RouteView)>, host: Seq<char>, i: int)
    requires
        0 <= i < routes.len(),
        wildcard_key_matches(routes[i].0, host),
    ensures
        wildcard_lookup(routes, host) matches Some(r) && exists|j: int|
            0 <= j < routes.len() && wildcard_key_matches((#[trigger] routes[j]).0, host) && r
                == routes[j].1,
    decreases routes.len(),
{
    if wildcard_key_matches(routes[0].0, host) {
        assert(wildcard_lookup(routes, host) == Some(routes[0].1));
    } else {
        assert(routes.skip(1)[i - 1] == routes[i]);
        lemma_wildcard_lookup_some(routes.skip(1), host, i - 1);
        let j = choose|j: int|
            0 <= j < routes.skip(1).len() && wildcard_key_matches(
                (#[trigger] routes.skip(1)[j]).0,
                host,
            ) && wildcard_lookup(routes.skip(1), host) == Some(routes.skip(1)[j].1);
        assert(routes[j + 1] == routes.skip(1)[j]);
    }
}

/// A host stored under no key and matched by no wildcard key resolves
/// to nothing.
pub proof fn lemma_lookup_none(routes: Seq<(Seq<char>, RouteView)>, host: Seq<char>)
    requires
        !has_domain(routes, host),
        forall|i: int| 0 <= i < routes.len() ==> !wildcard_key_matches((#[trigger] routes[i]).0, host),
    ensures
        lookup_spec(routes, host) is None,
{
    lemma_exact_lookup_has_domain(routes, host);
    lemma_wildcard_lookup_none(routes, host);
}

proof fn lemma_wildcard_lookup_none(routes: Seq<(Seq<char>, RouteView)>, host: Seq<char>)
    requires
        forall|i: int| 0 <= i < routes.len() ==> !wildcard_key_matches((#[trigger] routes[i]).0, host),
    ensures
        wildcard_lookup(routes, host) is None,
    decreases routes.len(),
{
    if routes.len() > 0 {
        assert(forall|i: int|
            0 <= i < routes.skip(1).len() ==> routes.skip(1)[i] == routes[i + 1]);
        lemma_wildcard_lookup_none(routes.skip(1), host);
    }
}

impl Default for Config {
    /// An empty configuration persisted at the conventional location.
    fn default() -> (r: Config)
        ensures
            r@.path == json_path("./minipx.json"@),
            r@.email =~= Seq::<char>::empty(),
            r@.cache_dir == "./cache"@,
            r@.routes =~= Seq::<(Seq<char>, RouteView)>::empty(),
    {
        Config::new("./minipx.json")
    }
}

impl ProxyRoute {
    /// Build a route with no subroutes.
    pub fn new(
        host: String,
        path: String,
        port: u16,
        ssl_enable: bool,
        listen_port: Option<u16>,
        redirect_to_https: bool,
    ) -> (r: ProxyRoute)
        ensures
            r@ == (RouteView {
                host: host@,
                path: path@,
                port,
                ssl_enable,
                listen_port,
                redirect_to_https,
                subroutes: Seq::<SubrouteView>::empty(),
            }),
    {
        let r = ProxyRoute {
            host,
            path,
            port,
            ssl_enable,
            listen_port,
            redirect_to_https,
            subroutes: Vec::new(),
        };
        proof {
            assert(r.subroutes@.map_values(|s: ProxyPathRoute| s@) =~= Seq::<
                SubrouteView,
            >::empty());
        }
        r
    }

    pub fn is_ssl_enabled(&self) -> (r: bool)
        ensures
            r == self@.ssl_enable,
    {
        self.ssl_enable
    }

    pub fn get_redirect_to_https(&self) -> (r: bool)
        ensures
            r == self@.redirect_to_https,
    {
        self.redirect_to_https
    }

    pub fn get_listen_port(&self) -> (r: Option<u16>)
        ensures
            r == self@.listen_port,
    {
        self.listen_port
    }

    pub fn get_host(&self) -> (r: &str)
        ensures
            r@ == self@.host,
    {
        self.host.as_str()
    }

    pub fn get_port(&self) -> (r: u16)
        ensures
            r == self@.port,
    {
        self.port
    }

    pub fn get_path(&self) -> (r: &str)
        ensures
            r@ == self@.path,
    {
        self.path.as_str()
    }

    /// The backend URL this route forwards to.
    pub fn get_full_url(&self) -> (r: String)
        ensures
            r@ == "http://"@ + self@.host + seq![':'] + dec_str(self@.port as int) + self@.path,
    {
        let mut r = "http://".to_owned();
        r.append(self.host.as_str());
        crate::strutil::push_char(&mut r, ':');
        let p = u16_to_string(self.port);
        r.append(p.as_str());
        r.append(self.path.as_str());
        proof {
            assert(r@ =~= "http://"@ + self@.host + seq![':'] + dec_str(self@.port as int)
                + self@.path);
        }
        r
    }

    pub fn get_subroutes(&self) -> (r: &Vec<ProxyPathRoute>)
        ensures
            r@.map_values(|s: ProxyPathRoute| s@) == self@.subroutes,
    {
        &self.subroutes
    }
}

impl Config {
    /// An empty configuration that will persist at the given path, with
    /// the file name's extension forced to `json`.
    pub fn new(path: &str) -> (r: Config)
        ensures
            r@.path == crate::config::json_path(path@),
            r@.email =~= Seq::<char>::empty(),
            r@.cache_dir == "./cache"@,
            r@.routes =~= Seq::<(Seq<char>, RouteView)>::empty(),
    {
        let r = Config {
            path: with_json_extension(path),
            email: String::new(),
            cache_dir: "./cache".to_owned(),
            routes: Vec::new(),
        };
        proof {
            assert(r.routes@.map_values(|kv: (String, ProxyRoute)| (kv.0@, kv.1@)) =~= Seq::<
                (Seq<char>, RouteView),
            >::empty());
        }
        r
    }

    pub fn set_email(&mut self, email: String)
        ensures
            final(self)@ == (ConfigView { email: email@, ..old(self)@ }),
    {
        self.email = email;
    }

    pub fn get_email(&self) -> (r: &String)
        ensures
            r@ == self@.email,
    {
        &self.email
    }

    pub fn get_cache_dir(&self) -> (r: &String)
        ensures
            r@ == self@.cache_dir,
    {
        &self.cache_dir
    }

    pub fn get_path(&self) -> (r: &String)
        ensures
            r@ == self@.path,
    {
        &self.path
    }

    pub fn get_routes(&self) -> (r: &Vec<(String, ProxyRoute)>)
        ensures
            r@.map_values(|kv: (String, ProxyRoute)| (kv.0@, kv.1@)) == self@.routes,
    {
        &self.routes
    }

    /// Replace the stored file location.
    pub fn set_path(&mut self, path: String)
        ensures
            final(self)@ == (ConfigView { path: path@, ..old(self)@ }),
    {
        self.path = path;
    }

    /// Resolve an inbound hostname to a route: an exact key match wins;
    /// otherwise the first wildcard key `*.suffix` such that the host
    /// ends with `.suffix`.
    pub fn lookup_host(&self, key: &str) -> (r: Option<&ProxyRoute>)
        ensures
            match r {
                Some(route) => lookup_spec(self@.routes, key@) == Some(route@),
                None => lookup_spec(self@.routes, key@) is None,
            },
    {
        let ghost routes = self@.routes;
        let n = self.routes.len();
        proof {
            assert(routes.skip(0) =~= routes);
        }
        let mut i: usize = 0;
        while i < n
            invariant
                i <= n,
                n == self.routes.len(),
                routes == self@.routes,
                exact_lookup(routes.skip(i as int), key@) == exact_lookup(routes, key@),
            decreases n - i,
        {
            proof {
                assert(routes.skip(i as int)[0] == routes[i as int]);
                assert(routes.skip(i as int).skip(1) =~= routes.skip(i + 1));
            }
            if str_eq(self.routes[i].0.as_str(), key) {
                return Some(&self.routes[i].1);
            }
            i = i + 1;
        }
        proof {
            assert(routes.skip(n as int).len() == 0);
            assert(routes.skip(0) =~= routes);
        }
        let mut j: usize = 0;
        while j < n
            invariant
                j <= n,
                n == self.routes.len(),
                routes == self@.routes,
                exact_lookup(routes, key@) is None,
                wildcard_lookup(routes.skip(j as int), key@) == wildcard_lookup(routes, key@),
            decreases n - j,
        {
            proof {
                assert(routes.skip(j as int)[0] == routes[j as int]);
                assert(routes.skip(j as int).skip(1) =~= routes.skip(j + 1));
            }
            let k: &String = &self.routes[j].0;
            let klen = k.as_str().unicode_len();
            let is_wild = klen >= 2 && k.as_str().get_char(0) == '*' && k.as_str().get_char(1)
                == '.';
            if is_wild {
                let keylen = key.unicode_len();
                if keylen >= klen - 1 {
                    let suffix = k.as_str().substring_char(1, klen);
                    let tail = key.substring_char(keylen - (klen - 1), keylen);
                    if str_eq(tail, suffix) {
                        proof {
                            assert(wildcard_key_matches(routes[j as int].0, key@));
                        }
                        return Some(&self.routes[j].1);
                    }
                    proof {
                        assert(!wildcard_key_matches(routes[j as int].0, key@));
                    }
                } else {
                    proof {
                        assert(!wildcard_key_matches(routes[j as int].0, key@));
                    }
                }
            } else {
                proof {
                    assert(!is_wildcard_key(routes[j as int].0));
                }
            }
            j = j + 1;
        }
        proof {
            assert(routes.skip(n as int).len() == 0);
        }
        None
    }
}

/// Where the stem of the final path component ends, scanning from the
/// right: the last `.` of the component counts as the extension dot
/// unless it starts the component; a path whose component has no such
/// dot keeps its whole length.
pub open spec fn json_stem_len_from(p: Seq<char>, i: int) -> int
    decreases i,
{
    if i <= 0 {
        p.len() as int
    } else if p[i - 1] == '/' {
        p.len() as int
    } else if p[i - 1] == '.' {
        if i - 1 >= 1 && p[i - 2] != '/' {
            i - 1
        } else {
            p.len() as int
        }
    } else {
        json_stem_len_from(p, i - 1)
    }
}

pub open spec fn json_stem_len(p: Seq<char>) -> int {
    json_stem_len_from(p, p.len() as int)
}

/// The path with the extension of its final component replaced by
/// `json`.
pub open spec fn json_path(p: Seq<char>) -> Seq<char> {
    p.subrange(0, json_stem_len(p)) + ".json"@
}

/// A recoverable failure of one of the configuration commands.
#[derive(Debug, Clone)]
pub enum ConfigError {
    RouteExists { domain: String },
    PortOutOfRange,
    PortReserved,
    RouteNotFound { domain: String },
    SubroutePortEqualsParent { port: u16 },
    SubrouteExists { path: String },
}

/// The human-readable description of each failure.
pub open spec fn error_message(e: ConfigError) -> Seq<char> {
    match e {
        ConfigError::RouteExists { domain } => "Route already exists: "@ + domain@,
        ConfigError::PortOutOfRange => "Port must be between 1 and 65535"@,
        ConfigError::PortReserved => "Port cannot be 80 or 443 (reserved for HTTP/HTTPS)"@,
        ConfigError::RouteNotFound { domain } => "Route not found: "@ + domain@,
        ConfigError::SubroutePortEqualsParent { port } => "Subroute port cannot be the same as the parent route port: "@
            + dec_str(port as int),
        ConfigError::SubrouteExists { path } => "Subroute already exists for path: "@ + path@,
    }
}

impl ConfigError {
    /// Render the failure as the message the command line shows.
    pub fn message(&self) -> (r: String)
        ensures
            r@ == error_message(*self),
    {
        match self {
            ConfigError::RouteExists { domain } => {
                let mut m = "Route already exists: ".to_owned();
                m.append(domain.as_str());
                m
            },
            ConfigError::PortOutOfRange => "Port must be between 1 and 65535".to_owned(),
            ConfigError::PortReserved => "Port cannot be 80 or 443 (reserved for HTTP/HTTPS)".to_owned(),
            ConfigError::RouteNotFound { domain } => {
                let mut m = "Route not found: ".to_owned();
                m.append(domain.as_str());
                m
            },
            ConfigError::SubroutePortEqualsParent { port } => {
                let mut m = "Subroute port cannot be the same as the parent route port: ".to_owned();
                let p = u16_to_string(*port);
                m.append(p.as_str());
                m
            },
            ConfigError::SubrouteExists { path } => {
                let mut m = "Subroute already exists for path: ".to_owned();
                m.append(path.as_str());
                m
            },
        }
    }
}

/// The index of the first route stored under the key.
pub open spec fn first_key_index(routes: Seq<(Seq<char>, RouteView)>, d: Seq<char>) -> int {
    choose|i: int|
        0 <= i < routes.len() && routes[i].0 == d && (forall|j: int|
            0 <= j < i ==> routes[j].0 != d)
}

/// Any index with the first-occurrence property is that index.
pub proof fn lemma_first_key_index(routes: Seq<(Seq<char>, RouteView)>, d: Seq<char>, i: int)
    requires
        0 <= i < routes.len(),
        routes[i].0 == d,
        forall|j: int| 0 <= j < i ==> routes[j].0 != d,
    ensures
        first_key_index(routes, d) == i,
        has_domain(routes, d),
{
    let k = first_key_index(routes, d);
    assert(0 <= k < routes.len() && routes[k].0 == d && (forall|j: int|
        0 <= j < k ==> routes[j].0 != d)) by {
        assert(0 <= i < routes.len() && routes[i].0 == d && (forall|j: int|
            0 <= j < i ==> routes[j].0 != d));
    }
    if k < i {
        assert(routes[k].0 != d);
    }
    if i < k {
        assert(routes[i].0 != d);
    }
}

/// A route after the host and path parts of a patch are applied.
pub open spec fn patched_prefix(r: RouteView, p: PatchView) -> RouteView {
    RouteView {
        host: match p.host {
            Some(h) => h,
            None => r.host,
        },
        path: match p.path {
            Some(q) => trimmed_trailing_slash(q),
            None => r.path,
        },
        ..r
    }
}

/// A route after a whole patch is applied; a `listen_port` of `0`
/// clears the custom port.
pub open spec fn patched_route(r: RouteView, p: PatchView) -> RouteView {
    RouteView {
        port: match p.port {
            Some(pt) => pt,
            None => r.port,
        },
        ssl_enable: match p.ssl_enable {
            Some(b) => b,
            None => r.ssl_enable,
        },
        redirect_to_https: match p.redirect_to_https {
            Some(b) => b,
            None => r.redirect_to_https,
        },
        listen_port: match p.listen_port {
            Some(lp) => if lp == 0 {
                None
            } else {
                Some(lp)
            },
            None => r.listen_port,
        },
        ..patched_prefix(r, p)
    }
}

/// The stored form of a subroute path: trailing slashes removed, a
/// leading slash supplied.
pub open spec fn cleaned_subroute_path(p: Seq<char>) -> Seq<char> {
    let t = trimmed_trailing_slash(p);
    if t.len() > 0 && t[0] == '/' {
        t
    } else {
        seq!['/'] + t
    }
}

impl Config {
    /// Where the route with this domain key is stored.
    fn find_route_index(&self, domain: &str) -> (r: Option<usize>)
        ensures
            match r {
                Some(i) => {
                    &&& i < self@.routes.len()
                    &&& self@.routes[i as int].0 == domain@
                    &&& forall|j: int| 0 <= j < i ==> self@.routes[j].0 != domain@
                    &&& first_key_index(self@.routes, domain@) == i
                    &&& has_domain(self@.routes, domain@)
                },
                None => !has_domain(self@.routes, domain@),
            },
    {
        let n = self.routes.len();
        let mut i: usize = 0;
        while i < n
            invariant
                i <= n,
                n == self.routes.len(),
                forall|j: int| 0 <= j < i ==> self@.routes[j].0 != domain@,
            decreases n - i,
        {
            if str_eq(self.routes[i].0.as_str(), domain) {
                proof {
                    lemma_first_key_index(self@.routes, domain@, i as int);
                }
                return Some(i);
            }
            i = i + 1;
        }
        None
    }

    /// Add a route under a new domain key. Fails when the key is taken
    /// or the backend port is 0, 80 or 443; a trailing slash on the
    /// backend path is stripped.
    pub fn add_route(&mut self, domain: String, route: ProxyRoute) -> (r: Result<(), ConfigError>)
        ensures
            has_domain(old(self)@.routes, domain@) ==> (r matches Err(e) && (e matches ConfigError::RouteExists { domain: d } && d@ == domain@))
                && *final(self) == *old(self),
            !has_domain(old(self)@.routes, domain@) && route@.port == 0 ==> (r matches Err(e)
                && e is PortOutOfRange) && *final(self) == *old(self),
            !has_domain(old(self)@.routes, domain@) && (route@.port == 80 || route@.port == 443)
                ==> (r matches Err(e) && e is PortReserved) && *final(self) == *old(self),
            !has_domain(old(self)@.routes, domain@) && route@.port != 0 && route@.port != 80
                && route@.port != 443 ==> r is Ok && final(self)@ == (ConfigView {
                routes: old(self)@.routes.push(
                    (domain@, RouteView { path: trimmed_trailing_slash(route@.path), ..route@ }),
                ),
                ..old(self)@
            }),
            r is Ok <==> !has_domain(old(self)@.routes, domain@) && route@.port != 0
                && route@.port != 80 && route@.port != 443,
            keys_unique(old(self)@.routes) ==> keys_unique(final(self)@.routes),
    {
        if self.find_route_index(domain.as_str()).is_some() {
            return Err(ConfigError::RouteExists { domain });
        }
        if route.port == 0 {
            return Err(ConfigError::PortOutOfRange);
        }
        if route.port == 80 || route.port == 443 {
            return Err(ConfigError::PortReserved);
        }
        let ghost routev = route@;
        let ProxyRoute { host, path, port, ssl_enable, listen_port, redirect_to_https, subroutes } =
            route;
        let path = trim_trailing_slash(path);
        let cleaned = ProxyRoute { host, path, port, ssl_enable, listen_port, redirect_to_https, subroutes };
        let ghost routes0 = self@.routes;
        let ghost domainv = domain@;
        self.routes.push((domain, cleaned));
        proof {
            assert(self@.routes =~= routes0.push(
                (domainv, RouteView { path: trimmed_trailing_slash(routev.path), ..routev }),
            ));
            assert(keys_unique(routes0) ==> keys_unique(self@.routes)) by {
                if keys_unique(routes0) {
                    let rs = self@.routes;
                    assert(forall|i: int, j: int|
                        0 <= i < j < rs.len() ==> (#[trigger] rs[i]).0 != (#[trigger] rs[j]).0) by {
                        assert(forall|i: int|
                            0 <= i < routes0.len() ==> (#[trigger] rs[i]) == routes0[i]);
                        assert(forall|i: int|
                            0 <= i < routes0.len() ==> (#[trigger] routes0[i]).0 != domain@);
                    }
                }
            }
        }
        Ok(())
    }

    /// Remove the route stored under the key; an absent key is a
    /// recoverable error and leaves the configuration unchanged.
    pub fn remove_route(&mut self, host: &str) -> (r: Result<(), ConfigError>)
        ensures
            r is Ok <==> has_domain(old(self)@.routes, host@),
            !has_domain(old(self)@.routes, host@) ==> (r matches Err(e) && (e matches ConfigError::RouteNotFound { domain: d } && d@ == host@))
                && *final(self) == *old(self),
            has_domain(old(self)@.routes, host@) ==> final(self)@ == (ConfigView {
                routes: old(self)@.routes.remove(first_key_index(old(self)@.routes, host@)),
                ..old(self)@
            }),
            keys_unique(old(self)@.routes) ==> keys_unique(final(self)@.routes),
    {
        let found = self.find_route_index(host);
        match found {
            None => Err(ConfigError::RouteNotFound { domain: host.to_owned() }),
            Some(i) => {
                let ghost routes0 = self@.routes;
                let _ = self.routes.remove(i);
                proof {
                    assert(self@.routes =~= routes0.remove(i as int));
                    assert(keys_unique(routes0) ==> keys_unique(self@.routes)) by {
                        if keys_unique(routes0) {
                            let rs = self@.routes;
                            assert(forall|a: int|
                                0 <= a < rs.len() ==> #[trigger] rs[a] == if a < i as int {
                                    routes0[a]
                                } else {
                                    routes0[a + 1]
                                });
                        }
                    }
                }
                Ok(())
            },
        }
    }

    /// Apply a partial update to the route stored under the key,
    /// all-or-nothing: a missing route or a rejected port changes
    /// nothing.
    pub fn update_route(&mut self, domain: &str, patch: RoutePatch) -> (r: Result<
        (),
        ConfigError,
    >)
        ensures
            !has_domain(old(self)@.routes, domain@) ==> (r matches Err(e) && (e matches ConfigError::RouteNotFound { domain: d } && d@ == domain@))
                && *final(self) == *old(self),
            has_domain(old(self)@.routes, domain@) ==> ({
                let i = first_key_index(old(self)@.routes, domain@);
                let key = old(self)@.routes[i].0;
                let r0 = old(self)@.routes[i].1;
                if patch@.port matches Some(pt) && (pt == 0 || pt == 80 || pt == 443) {
                    (r matches Err(e) && (e is PortOutOfRange || e is PortReserved) && (e is PortOutOfRange
                        <==> patch@.port == Some(0u16))) && *final(self) == *old(self)
                } else {
                    r is Ok && final(self)@ == (ConfigView {
                        routes: old(self)@.routes.update(i, (key, patched_route(r0, patch@))),
                        ..old(self)@
                    })
                }
            }),
            r is Ok <==> has_domain(old(self)@.routes, domain@) && !(patch@.port matches Some(pt)
                && (pt == 0 || pt == 80 || pt == 443)),
            keys_unique(old(self)@.routes) ==> keys_unique(final(self)@.routes),
    {
        let found = self.find_route_index(domain);
        let i = match found {
            None => {
                return Err(ConfigError::RouteNotFound { domain: domain.to_owned() });
            },
            Some(i) => i,
        };
        if let Some(pt) = patch.port {
            if pt == 0 {
                return Err(ConfigError::PortOutOfRange);
            }
            if pt == 80 || pt == 443 {
                return Err(ConfigError::PortReserved);
            }
        }
        let ghost routes0 = self@.routes;
        let ghost patchv = patch@;
        let (key, r0) = self.routes.remove(i);
        let RoutePatch { host, path, port, ssl_enable, redirect_to_https, listen_port } = patch;
        let mut rr = r0;
        if let Some(h) = host {
            rr.host = h;
        }
        if let Some(q) = path {
            rr.path = trim_trailing_slash(q);
        }
        if let Some(pt) = port {
            rr.port = pt;
        }
        if let Some(b) = ssl_enable {
            rr.ssl_enable = b;
        }
        if let Some(b) = redirect_to_https {
            rr.redirect_to_https = b;
        }
        if let Some(lp) = listen_port {
            rr.listen_port = if lp == 0 {
                None
            } else {
                Some(lp)
            };
        }
        proof {
            assert(rr@ == patched_route(routes0[i as int].1, patchv));
        }
        let ghost rrv = rr@;
        self.routes.insert(i, (key, rr));
        proof {
            assert(forall|a: int|
                0 <= a < routes0.len() && a != i as int ==> self@.routes[a] == routes0[a]);
            lemma_update_route_view(routes0, i as int, self@.routes);
        }
        Ok(())
    }

    /// Add a subroute to the route stored under the key. Fails when the
    /// route is absent, the port is 0, 80 or 443, the port equals the
    /// parent route's port, or the cleaned path is already taken; the
    /// path is stored without trailing slashes and with a leading slash.
    #[verifier::loop_isolation(false)]
    pub fn add_subroute(&mut self, domain: &str, path: String, port: u16) -> (r: Result<
        (),
        ConfigError,
    >)
        ensures
            !has_domain(old(self)@.routes, domain@) ==> (r matches Err(e) && (e matches ConfigError::RouteNotFound { domain: d } && d@ == domain@))
                && *final(self) == *old(self),
            has_domain(old(self)@.routes, domain@) ==> ({
                let i = first_key_index(old(self)@.routes, domain@);
                let key = old(self)@.routes[i].0;
                let r0 = old(self)@.routes[i].1;
                let cleaned = cleaned_subroute_path(path@);
                if port == 0 {
                    (r matches Err(e) && e is PortOutOfRange) && *final(self) == *old(self)
                } else if port == 80 || port == 443 {
                    (r matches Err(e) && e is PortReserved) && *final(self) == *old(self)
                } else if port == r0.port {
                    (r matches Err(e) && (e matches ConfigError::SubroutePortEqualsParent { port: p } && p == port))
                        && *final(self) == *old(self)
                } else if exists|j: int| 0 <= j < r0.subroutes.len() && r0.subroutes[j].path == cleaned {
                    (r matches Err(e) && (e matches ConfigError::SubrouteExists { path: q } && q@ == cleaned))
                        && *final(self) == *old(self)
                } else {
                    r is Ok && final(self)@ == (ConfigView {
                        routes: old(self)@.routes.update(
                            i,
                            (key, RouteView {
                                subroutes: r0.subroutes.push(
                                    SubrouteView { path: cleaned, port },
                                ),
                                ..r0
                            }),
                        ),
                        ..old(self)@
                    })
                }
            }),
            keys_unique(old(self)@.routes) ==> keys_unique(final(self)@.routes),
    {
        let found = self.find_route_index(domain);
        let i = match found {
            None => {
                return Err(ConfigError::RouteNotFound { domain: domain.to_owned() });
            },
            Some(i) => i,
        };
        if port == 0 {
            return Err(ConfigError::PortOutOfRange);
        }
        if port == 80 || port == 443 {
            return Err(ConfigError::PortReserved);
        }
        if port == self.routes[i].1.port {
            return Err(ConfigError::SubroutePortEqualsParent { port });
        }
        let ghost pathv = path@;
        let trimmed = trim_trailing_slash(path);
        let clean_path = if trimmed.as_str().unicode_len() > 0 && trimmed.as_str().get_char(0)
            == '/' {
            trimmed
        } else {
            let mut with_slash = "/".to_owned();
            with_slash.append(trimmed.as_str());
            proof {
                assert("/"@ + trimmed@ =~= seq!['/'] + trimmed@) by {
                    reveal_strlit("/");
                }
            }
            with_slash
        };
        proof {
            assert(clean_path@ == cleaned_subroute_path(pathv));
        }
        let ghost routes0 = self@.routes;
        let ghost r0 = self@.routes[i as int].1;
        let nsub = self.routes[i].1.subroutes.len();
        let mut j: usize = 0;
        while j < nsub
            invariant
                j <= nsub,
                i < self.routes.len(),
                nsub == self.routes[i as int].1.subroutes.len(),
                routes0 == self@.routes,
                r0 == self@.routes[i as int].1,
                forall|k: int| 0 <= k < j ==> r0.subroutes[k].path != clean_path@,
            decreases nsub - j,
        {
            if str_eq(self.routes[i].1.subroutes[j].path.as_str(), clean_path.as_str()) {
                proof {
                    let cp = cleaned_subroute_path(pathv);
                    assert(r0.subroutes.len() == nsub as int);
                    assert(r0.subroutes[j as int].path == clean_path@);
                    assert(clean_path@ == cp);
                    assert(exists|k: int|
                        0 <= k < r0.subroutes.len() && #[trigger] r0.subroutes[k].path == cp) by {
                        assert(0 <= (j as int) < r0.subroutes.len());
                        assert(r0.subroutes[j as int].path == cp);
                    }
                }
                return Err(ConfigError::SubrouteExists { path: clean_path });
            }
            j = j + 1;
        }
        let (key, mut rr) = self.routes.remove(i);
        rr.subroutes.push(ProxyPathRoute { path: clean_path, port });
        proof {
            assert(rr@.subroutes =~= r0.subroutes.push(
                SubrouteView { path: cleaned_subroute_path(pathv), port },
            ));
            assert(rr@ == (RouteView {
                subroutes: r0.subroutes.push(
                    SubrouteView { path: cleaned_subroute_path(pathv), port },
                ),
                ..r0
            }));
        }
        let ghost rrv = rr@;
        self.routes.insert(i, (key, rr));
        proof {
            assert(forall|a: int|
                0 <= a < routes0.len() && a != i as int ==> self@.routes[a] == routes0[a]);
            lemma_update_route_view(routes0, i as int, self@.routes);
        }
        Ok(())
    }
}

/// Removing an element and inserting its replacement at the same index
/// is the pointwise update, and it keeps distinct keys distinct when the
/// key is unchanged.
proof fn lemma_update_route_view(
    routes0: Seq<(Seq<char>, RouteView)>,
    i: int,
    routes1: Seq<(Seq<char>, RouteView)>,
)
    requires
        0 <= i < routes0.len(),
        routes1.len() == routes0.len(),
        routes1[i].0 == routes0[i].0,
        forall|a: int| 0 <= a < routes0.len() && a != i ==> routes1[a] == routes0[a],
    ensures
        routes1 =~= routes0.update(i, routes1[i]),
        keys_unique(routes0) ==> keys_unique(routes1),
{
    if keys_unique(routes0) {
        assert(forall|a: int, b: int|
            0 <= a < b < routes1.len() ==> (#[trigger] routes1[a]).0 != (#[trigger] routes1[b]).0)
            by {
            assert(forall|a: int| 0 <= a < routes1.len() ==> (#[trigger] routes1[a]).0 == routes0[
                a].0);
        }
    }
}

/// The stem length, computed exactly as `json_stem_len_from` reads.
fn stem_len_from(path: &str, i: usize) -> (r: usize)
    requires
        i <= path@.len(),
    ensures
        r as int == json_stem_len_from(path@, i as int),
        r <= path@.len(),
    decreases i,
{
    let n: usize = path.unicode_len();
    if i == 0 {
        return n;
    }
    let c = path.get_char(i - 1);
    if c == '/' {
        n
    } else if c == '.' {
        if i >= 2 && path.get_char(i - 2) != '/' {
            i - 1
        } else {
            n
        }
    } else {
        stem_len_from(path, i - 1)
    }
}

/// The backup name a corrupted configuration file is moved to: the
/// extension of the final component replaced by `corrupted.<n>`; the
/// suffix is raised until an unused name is found.
pub open spec fn backup_path(p: Seq<char>, n: int) -> Seq<char> {
    p.subrange(0, json_stem_len(p)) + ".corrupted."@ + dec_str(n)
}

/// Build the backup name for a corrupted configuration file.
pub fn backup_file_name(path: &str, n: u64) -> (r: String)
    ensures
        r@ == backup_path(path@, n as int),
{
    let len = path.unicode_len();
    let cut = stem_len_from(path, len);
    let stem = path.substring_char(0, cut);
    let mut r = stem.to_owned();
    r.append(".corrupted.");
    let num = crate::numfmt::u64_to_string(n);
    r.append(num.as_str());
    proof {
        assert(r@ =~= backup_path(path@, n as int));
    }
    r
}

/// Replace the extension of the final path component by `json`.
fn with_json_extension(path: &str) -> (r: String)
    ensures
        r@ == json_path(path@),
{
    let n: usize = path.unicode_len();
    let cut = stem_len_from(path, n);
    let stem = path.substring_char(0, cut);
    let mut r = stem.to_owned();
    r.append(".json");
    r
}

} // verus!
