//! The TCP/UDP forwarder plan: which listen ports to open at startup,
//! and where each forwards to. Built once from a snapshot; for a listen
//! port claimed by several routes, the first route in stored order
//! wins, and the plan lists ports in ascending order.

use vstd::prelude::*;

use crate::config::Config;
use crate::config::RouteView;

verus! {

/// One raw forwarder to start: listen on `listen_port`, forward each
/// connection or datagram to `host:port`.
#[derive(Debug, Clone)]
pub struct ForwardTarget {
    pub listen_port: u16,
    pub host: String,
    pub port: u16,
}

/// A listen port eligible for raw forwarding: declared, and not one of
/// the ports the proxy itself serves.
pub open spec fn eligible_listen_port(r: RouteView) -> bool {
    r.listen_port matches Some(lp) && lp != 0 && lp != 80 && lp != 443
}

/// The backend of the first route in stored order that claims the
/// listen port.
pub open spec fn first_target_for(
    routes: Seq<(Seq<char>, RouteView)>,
    lp: u16,
) -> Option<(Seq<char>, u16)>
    decreases routes.len(),
{
    if routes.len() == 0 {
        None
    } else if eligible_listen_port(routes[0].1) && routes[0].1.listen_port == Some(lp) {
        Some((routes[0].1.host, routes[0].1.port))
    } else {
        first_target_for(routes.skip(1), lp)
    }
}

/// Some route claims the listen port.
pub open spec fn port_claimed(routes: Seq<(Seq<char>, RouteView)>, lp: u16) -> bool {
    exists|i: int|
        0 <= i < routes.len() && eligible_listen_port((#[trigger] routes[i]).1)
            && routes[i].1.listen_port == Some(lp)
}

/// A claimed port has a first target.
pub proof fn lemma_claimed_has_target(routes: Seq<(Seq<char>, RouteView)>, lp: u16)
    ensures
        port_claimed(routes, lp) == (first_target_for(routes, lp) is Some),
    decreases routes.len(),
{
    if routes.len() > 0 {
        lemma_claimed_has_target(routes.skip(1), lp);
        if eligible_listen_port(routes[0].1) && routes[0].1.listen_port == Some(lp) {
        } else {
            assert(port_claimed(routes, lp) == port_claimed(routes.skip(1), lp)) by {
                if port_claimed(routes, lp) {
                    let i = choose|i: int|
                        0 <= i < routes.len() && eligible_listen_port((#[trigger] routes[i]).1)
                            && routes[i].1.listen_port == Some(lp);
                    assert(routes.skip(1)[i - 1] == routes[i]);
                }
                if port_claimed(routes.skip(1), lp) {
                    let i = choose|i: int|
                        0 <= i < routes.skip(1).len() && eligible_listen_port(
                            (#[trigger] routes.skip(1)[i]).1,
                        ) && routes.skip(1)[i].1.listen_port == Some(lp);
                    assert(routes[i + 1] == routes.skip(1)[i]);
                }
            }
        }
    }
}

impl Config {
    /// The forwarders to start for this snapshot: one per distinct
    /// eligible listen port, ports ascending, each forwarding to the
    /// first route in stored order that claims its port.
    #[verifier::loop_isolation(false)]
    pub fn forwarder_plan(&self) -> (r: Vec<ForwardTarget>)
        ensures
            forall|a: int, b: int|
                0 <= a < b < r@.len() ==> (#[trigger] r@[a]).listen_port < (
                #[trigger] r@[b]).listen_port,
            forall|a: int|
                0 <= a < r@.len() ==> first_target_for(self@.routes, (#[trigger] r@[a]).listen_port)
                    == Some((r@[a].host@, r@[a].port)),
            forall|lp: u16|
                #[trigger] port_claimed(self@.routes, lp) ==> exists|a: int|
                    0 <= a < r@.len() && (#[trigger] r@[a]).listen_port == lp,
    {
        let ghost routes = self@.routes;
        let mut plan: Vec<ForwardTarget> = Vec::new();
        let n = self.routes.len();
        let mut i: usize = 0;
        while i < n
            invariant
                i <= n,
                n == self.routes.len(),
                routes == self@.routes,
                forall|a: int, b: int|
                    0 <= a < b < plan@.len() ==> (#[trigger] plan@[a]).listen_port < (
                    #[trigger] plan@[b]).listen_port,
                forall|a: int|
                    0 <= a < plan@.len() ==> first_target_for(
                        routes,
                        (#[trigger] plan@[a]).listen_port,
                    ) == Some((plan@[a].host@, plan@[a].port)),
                forall|j: int|
                    0 <= j < i && eligible_listen_port((#[trigger] routes[j]).1) ==> exists|a: int|
                        0 <= a < plan@.len() && Some((#[trigger] plan@[a]).listen_port)
                            == routes[j].1.listen_port,
            decreases n - i,
        {
            let route = &self.routes[i].1;
            if let Some(lp) = route.listen_port {
                if lp != 0 && lp != 80 && lp != 443 {
                    // Is the port already planned?
                    let m = plan.len();
                    let mut k: usize = 0;
                    let mut present = false;
                    while k < m && !present
                        invariant
                            k <= m,
                            m == plan.len(),
                            !present ==> forall|a: int|
                                0 <= a < k ==> (#[trigger] plan@[a]).listen_port != lp,
                            present ==> exists|a: int|
                                0 <= a < plan@.len() && (#[trigger] plan@[a]).listen_port == lp,
                        decreases m - k + if present {
                            0int
                        } else {
                            1int
                        },
                    {
                        if plan[k].listen_port == lp {
                            present = true;
                        } else {
                            k = k + 1;
                        }
                    }
                    if !present {
                        // Insert in ascending position.
                        let ghost plan0 = plan@;
                        let mut p: usize = 0;
                        while p < plan.len() && plan[p].listen_port < lp
                            invariant
                                p <= plan.len(),
                                plan@ == plan0,
                                forall|a: int|
                                    0 <= a < p ==> (#[trigger] plan@[a]).listen_port < lp,
                            decreases plan.len() - p,
                        {
                            p = p + 1;
                        }
                        proof {
                            lemma_first_target_here(routes, i as int, lp);
                        }
                        let t = ForwardTarget {
                            listen_port: lp,
                            host: route.host.clone(),
                            port: route.port,
                        };
                        plan.insert(p, t);
                        proof {
                            assert(forall|a: int| 0 <= a < p ==> plan@[a] == plan0[a]);
                            assert(forall|a: int|
                                p < a < plan@.len() ==> plan@[a] == plan0[a - 1]);
                            assert(plan@[p as int].listen_port == lp);
                            if (p as int) < plan0.len() {
                                assert(plan0[p as int].listen_port >= lp);
                                assert(plan0[p as int].listen_port != lp);
                            }
                            assert forall|j: int|
                                0 <= j < i && eligible_listen_port(
                                    (#[trigger] routes[j]).1,
                                ) implies exists|a: int|
                                0 <= a < plan@.len() && Some((#[trigger] plan@[a]).listen_port)
                                    == routes[j].1.listen_port by {
                                let a0 = choose|a: int|
                                    0 <= a < plan0.len() && Some(
                                        (#[trigger] plan0[a]).listen_port,
                                    ) == routes[j].1.listen_port;
                                if a0 < p as int {
                                    assert(plan@[a0] == plan0[a0]);
                                } else {
                                    assert(plan@[a0 + 1] == plan0[a0]);
                                }
                            }
                        }
                    }
                }
            }
            i = i + 1;
        }
        proof {
            assert forall|lp: u16| #[trigger] port_claimed(routes, lp) implies exists|a: int|
                0 <= a < plan@.len() && (#[trigger] plan@[a]).listen_port == lp by {
                let j = choose|j: int|
                    0 <= j < routes.len() && eligible_listen_port((#[trigger] routes[j]).1)
                        && routes[j].1.listen_port == Some(lp);
            }
        }
        plan
    }
}

/// When no earlier route claims the port, the first target is the
/// route at `i`.
proof fn lemma_first_target_here(routes: Seq<(Seq<char>, RouteView)>, i: int, lp: u16)
    requires
        0 <= i < routes.len(),
        eligible_listen_port(routes[i].1),
        routes[i].1.listen_port == Some(lp),
        forall|j: int|
            0 <= j < i ==> !(eligible_listen_port((#[trigger] routes[j]).1)
                && routes[j].1.listen_port == Some(lp)),
    ensures
        first_target_for(routes, lp) == Some((routes[i].1.host, routes[i].1.port)),
    decreases i,
{
    if i == 0 {
    } else {
        assert(forall|j: int|
            0 <= j < i - 1 ==> routes.skip(1)[j] == routes[j + 1]);
        assert(routes.skip(1)[i - 1] == routes[i]);
        lemma_first_target_here(routes.skip(1), i - 1, lp);
    }
}

} // verus!
