//! The plain argument bundles the command line hands to the route
//! commands, and their conversions into the configuration types.

use vstd::prelude::*;

use crate::config::ProxyRoute;
use crate::config::RoutePatch;
use crate::config::RouteView;
use crate::config::SubrouteView;

verus! {

/// The fields of a new route as the `add` command collects them.
#[derive(Debug, Clone)]
pub struct ProxyRouteArgs {
    pub host: String,
    pub path: String,
    pub port: u16,
    pub ssl_enable: bool,
    pub listen_port: Option<u16>,
    pub redirect_to_https: bool,
}

/// The optional fields of the `update` command; `ssl`/`no_ssl` and
/// `redirect`/`no_redirect` are flag pairs where the positive one wins.
#[derive(Debug, Clone)]
pub struct UpdateRouteOptions {
    pub host: Option<String>,
    pub path: Option<String>,
    pub port: Option<u16>,
    pub ssl: bool,
    pub no_ssl: bool,
    pub redirect: bool,
    pub no_redirect: bool,
}

impl From<ProxyRouteArgs> for ProxyRoute {
    /// A new route carries the collected fields and no subroutes.
    fn from(args: ProxyRouteArgs) -> (r: ProxyRoute)
        ensures
            r@ == (RouteView {
                host: args.host@,
                path: args.path@,
                port: args.port,
                ssl_enable: args.ssl_enable,
                listen_port: args.listen_port,
                redirect_to_https: args.redirect_to_https,
                subroutes: Seq::<SubrouteView>::empty(),
            }),
    {
        let ProxyRouteArgs { host, path, port, ssl_enable, listen_port, redirect_to_https } = args;
        ProxyRoute::new(host, path, port, ssl_enable, listen_port, redirect_to_https)
    }
}

/// A fresh route's value cannot be pinned as a whole — an empty vector
/// is no spec constant — so the conversion is specified by its view on
/// the `From::from` impl itself.
impl vstd::std_specs::convert::FromSpecImpl<ProxyRouteArgs> for ProxyRoute {
    open spec fn obeys_from_spec() -> bool {
        false
    }

    open spec fn from_spec(args: ProxyRouteArgs) -> ProxyRoute {
        arbitrary()
    }
}

impl From<UpdateRouteOptions> for RoutePatch {
    /// Flags become `Some` patches: `ssl` wins over `no_ssl`,
    /// `redirect` over `no_redirect`; neither flag leaves the field
    /// untouched. The command line sets no listen port.
    fn from(o: UpdateRouteOptions) -> (r: RoutePatch) {
        RoutePatch {
            host: o.host,
            path: o.path,
            port: o.port,
            ssl_enable: if o.ssl {
                Some(true)
            } else if o.no_ssl {
                Some(false)
            } else {
                None
            },
            redirect_to_https: if o.redirect {
                Some(true)
            } else if o.no_redirect {
                Some(false)
            } else {
                None
            },
            listen_port: None,
        }
    }
}

impl vstd::std_specs::convert::FromSpecImpl<UpdateRouteOptions> for RoutePatch {
    open spec fn obeys_from_spec() -> bool {
        true
    }

    open spec fn from_spec(o: UpdateRouteOptions) -> RoutePatch {
        RoutePatch {
            host: o.host,
            path: o.path,
            port: o.port,
            ssl_enable: if o.ssl {
                Some(true)
            } else if o.no_ssl {
                Some(false)
            } else {
                None
            },
            redirect_to_https: if o.redirect {
                Some(true)
            } else if o.no_redirect {
                Some(false)
            } else {
                None
            },
            listen_port: None,
        }
    }
}

} // verus!
