//! Routes: which peer an address lies behind, and which addresses a peer may use.
use crate::addr::{parse_network, parsed_network, IpAddr, IpNetwork};
use crate::bytes::{from_be128, from_be32, Reader};
use crate::cert::Cert;
use crate::net::{is_mesh, NetError};
use crate::text::{after_prefix, same_text, strip_prefix};
use vstd::arithmetic::div_mod::lemma_div_denominator;
use vstd::arithmetic::power2::{lemma2_to64, lemma_pow2_adds, lemma_pow2_pos, pow2};
use vstd::prelude::*;

pub mod grants;
pub mod lookup;

verus! {

/// The group that allows a node to announce any subnet.
pub const ROUTE_ALL_GRANT: &'static str = "route:*";

/// The start of a group that allows a node to announce the subnets of a network.
pub const ROUTE_GRANT_PREFIX: &'static str = "route:";

/// Which peer each network lies behind. Its view is the routes in the order in which they
/// came.
pub struct RouteTable {
    routes: Vec<(IpNetwork, u32)>,
}

impl View for RouteTable {
    type V = Seq<(IpNetwork, u32)>;

    closed spec fn view(&self) -> Seq<(IpNetwork, u32)> {
        self.routes@
    }
}

/// Whether the route at `i` is the one for `ip`: of the routes that hold it, none has a
/// longer prefix, and none of the same length came later.
pub open spec fn is_best(routes: Seq<(IpNetwork, u32)>, ip: IpAddr, i: int) -> bool {
    &&& 0 <= i < routes.len()
    &&& routes[i].0.holds(ip)
    &&& forall|j: int|
        0 <= j < routes.len() && (#[trigger] routes[j]).0.holds(ip) ==> {
            &&& routes[j].0.prefix <= routes[i].0.prefix
            &&& j > i ==> routes[j].0.prefix < routes[i].0.prefix
        }
}

/// The peer that `ip` lies behind, if a route holds it.
pub open spec fn route_of(routes: Seq<(IpNetwork, u32)>, ip: IpAddr) -> Option<u32> {
    if exists|i: int| is_best(routes, ip, i) {
        Some(routes[choose|i: int| is_best(routes, ip, i)].1)
    } else {
        None
    }
}

/// At most one route is the best.
proof fn lemma_best_is_unique(routes: Seq<(IpNetwork, u32)>, ip: IpAddr, i: int, j: int)
    requires
        is_best(routes, ip, i),
        is_best(routes, ip, j),
    ensures
        i == j,
{
    assert(routes[i].0.holds(ip) && routes[j].0.holds(ip));
}

/// The best route gives the peer.
pub proof fn lemma_route_of(routes: Seq<(IpNetwork, u32)>, ip: IpAddr, i: int)
    requires
        is_best(routes, ip, i),
    ensures
        route_of(routes, ip) == Some(routes[i].1),
{
    lemma_best_is_unique(routes, ip, i, choose|i: int| is_best(routes, ip, i));
}

/// The test for routes to another network.
pub open spec fn leads_elsewhere(network: IpNetwork) -> spec_fn((IpNetwork, u32)) -> bool {
    |r: (IpNetwork, u32)| r.0 != network
}

/// The test for routes of another peer.
pub open spec fn of_others(peer_id: u32) -> spec_fn((IpNetwork, u32)) -> bool {
    |r: (IpNetwork, u32)| r.1 != peer_id
}

/// The routes after a new one, which takes the place of one to the same network.
pub open spec fn with_route(routes: Seq<(IpNetwork, u32)>, network: IpNetwork, peer_id: u32) -> Seq<(IpNetwork, u32)> {
    routes.filter(leads_elsewhere(network)).push((network, peer_id))
}

/// The routes without those of a peer.
pub open spec fn without_peer(routes: Seq<(IpNetwork, u32)>, peer_id: u32) -> Seq<(IpNetwork, u32)> {
    routes.filter(of_others(peer_id))
}

/// Whether every network is valid and none occurs twice.
pub open spec fn is_route_list(routes: Seq<(IpNetwork, u32)>) -> bool {
    &&& forall|i: int| 0 <= i < routes.len() ==> (#[trigger] routes[i]).0.valid()
    &&& forall|i: int, j: int| 0 <= i < j < routes.len() ==> routes[i].0 != routes[j].0
}

proof fn lemma_filter_step(all: Seq<(IpNetwork, u32)>, n: int, keep: spec_fn((IpNetwork, u32)) -> bool)
    requires
        0 <= n < all.len(),
    ensures
        all.take(n + 1).filter(keep) == (if keep(all[n]) {
            all.take(n).filter(keep).push(all[n])
        } else {
            all.take(n).filter(keep)
        }),
{
    reveal(Seq::filter);
    assert(all.take(n + 1).drop_last() =~= all.take(n));
}

/// What a filter leaves of a list of routes is one.
proof fn lemma_filtered(all: Seq<(IpNetwork, u32)>, n: int, keep: spec_fn((IpNetwork, u32)) -> bool)
    requires
        is_route_list(all),
        0 <= n <= all.len(),
    ensures
        is_route_list(all.take(n).filter(keep)),
        forall|i: int|
            0 <= i < all.take(n).filter(keep).len() ==> {
                &&& keep(#[trigger] all.take(n).filter(keep)[i])
                &&& exists|j: int| 0 <= j < n && all[j] == all.take(n).filter(keep)[i]
            },
        forall|j: int| 0 <= j < n && keep(#[trigger] all[j]) ==> all.take(n).filter(keep).contains(all[j]),
    decreases n,
{
    reveal(Seq::filter);
    if n == 0 {
        assert(all.take(0).filter(keep) =~= Seq::empty());
    } else {
        lemma_filtered(all, n - 1, keep);
        lemma_filter_step(all, n - 1, keep);
        let before = all.take(n - 1).filter(keep);
        let after = all.take(n).filter(keep);
        assert forall|i: int| 0 <= i < after.len() implies {
            &&& keep(#[trigger] after[i])
            &&& exists|j: int| 0 <= j < n && all[j] == after[i]
        } by {
            if i < before.len() {
                assert(after[i] == before[i]);
                let j = choose|j: int| 0 <= j < n - 1 && all[j] == before[i];
                assert(all[j] == after[i]);
            } else {
                assert(all[n - 1] == after[i]);
            }
        }
        assert forall|i: int, j: int| 0 <= i < j < after.len() implies after[i].0 != after[j].0 by {
            assert(after[i] == before[i]);
            let a = choose|a: int| 0 <= a < n - 1 && all[a] == before[i];
            if j < before.len() {
                assert(after[j] == before[j]);
            } else {
                assert(all[a].0 != all[n - 1].0);
            }
        }
        assert forall|i: int| 0 <= i < after.len() implies (#[trigger] after[i]).0.valid() by {
            let j = choose|j: int| 0 <= j < n && all[j] == after[i];
            assert(all[j].0.valid());
        }
        assert forall|j: int| 0 <= j < n && keep(#[trigger] all[j]) implies after.contains(all[j]) by {
            if j < n - 1 {
                let i = choose|i: int| 0 <= i < before.len() && before[i] == all[j];
                assert(after[i] == all[j]);
            } else {
                assert(after[before.len() as int] == all[j]);
            }
        }
    }
}

impl RouteTable {
    /// Whether every network in the table is valid and none occurs twice.
    pub open spec fn wf(&self) -> bool {
        is_route_list(self@)
    }

    /// A table without routes.
    pub fn new() -> (r: RouteTable)
        ensures
            r.wf(),
            r@ == Seq::<(IpNetwork, u32)>::empty(),
    {
        RouteTable { routes: Vec::new() }
    }

    /// Adds a route, in place of one to the same network.
    pub fn insert(&mut self, network: IpNetwork, peer_id: u32)
        requires
            old(self).wf(),
            network.valid(),
        ensures
            final(self).wf(),
            final(self)@ == with_route(old(self)@, network, peer_id),
    {
        let ghost keep = leads_elsewhere(network);
        let ghost all = self@;
        let mut kept: Vec<(IpNetwork, u32)> = Vec::new();
        let mut i: usize = 0;
        proof {
            reveal(Seq::filter);
            assert(all.take(0).filter(keep) =~= Seq::empty());
        }
        while i < self.routes.len()
            invariant
                all == self@,
                keep == leads_elsewhere(network),
                i <= self.routes@.len(),
                kept@ == all.take(i as int).filter(keep),
            decreases self.routes@.len() - i,
        {
            proof {
                lemma_filter_step(all, i as int, keep);
            }
            if self.routes[i].0 != network {
                kept.push(self.routes[i]);
            }
            i = i + 1;
        }
        assert(all.take(i as int) =~= all);
        proof {
            lemma_filtered(all, i as int, keep);
        }
        kept.push((network, peer_id));
        self.routes = kept;
    }

    /// The peer that `ip` lies behind: that of the longest prefix, and of the latest route
    /// where several are as long.
    pub fn lookup(&self, ip: IpAddr) -> (r: Option<u32>)
        requires
            self.wf(),
        ensures
            r == route_of(self@, ip),
            r is None ==> forall|i: int| 0 <= i < self@.len() ==> !(#[trigger] self@[i]).0.holds(ip),
    {
        let mut best: Option<usize> = None;
        let mut i: usize = 0;
        while i < self.routes.len()
            invariant
                self.wf(),
                i <= self.routes@.len(),
                best is None ==> forall|j: int| 0 <= j < i ==> !(#[trigger] self@[j]).0.holds(ip),
                best matches Some(b) ==> b < i && is_best(self@.take(i as int), ip, b as int),
            decreases self.routes@.len() - i,
        {
            let ghost before = self@.take(i as int);
            let ghost after = self@.take(i + 1);
            assert(forall|j: int| 0 <= j < i ==> before[j] == after[j]);
            if self.routes[i].0.contains(ip) {
                let better = match best {
                    Some(b) => self.routes[b].0.prefix <= self.routes[i].0.prefix,
                    None => true,
                };
                if better {
                    best = Some(i);
                }
            }
            i = i + 1;
        }
        assert(self@.take(i as int) =~= self@);
        match best {
            Some(b) => {
                proof {
                    lemma_route_of(self@, ip, b as int);
                }
                Some(self.routes[b].1)
            },
            None => None,
        }
    }

    /// Takes out the routes of a peer.
    pub fn remove_peer(&mut self, peer_id: u32)
        requires
            old(self).wf(),
        ensures
            final(self).wf(),
            final(self)@ == without_peer(old(self)@, peer_id),
            forall|i: int| 0 <= i < final(self)@.len() ==> (#[trigger] final(self)@[i]).1 != peer_id,
    {
        let ghost keep = of_others(peer_id);
        let ghost all = self@;
        let mut kept: Vec<(IpNetwork, u32)> = Vec::new();
        let mut i: usize = 0;
        proof {
            reveal(Seq::filter);
            assert(all.take(0).filter(keep) =~= Seq::empty());
        }
        while i < self.routes.len()
            invariant
                all == self@,
                keep == of_others(peer_id),
                i <= self.routes@.len(),
                kept@ == all.take(i as int).filter(keep),
            decreases self.routes@.len() - i,
        {
            proof {
                lemma_filter_step(all, i as int, keep);
            }
            if self.routes[i].1 != peer_id {
                kept.push(self.routes[i]);
            }
            i = i + 1;
        }
        assert(all.take(i as int) =~= all);
        proof {
            lemma_filtered(all, i as int, keep);
        }
        self.routes = kept;
    }
}

/// A new route decides about every address in its network that no route with a longer
/// prefix holds.
pub proof fn law_new_route_is_taken(routes: Seq<(IpNetwork, u32)>, network: IpNetwork, peer_id: u32, ip: IpAddr)
    requires
        network.holds(ip),
        forall|j: int|
            0 <= j < routes.len() && (#[trigger] routes[j]).0.holds(ip) ==> routes[j].0.prefix <= network.prefix,
    ensures
        route_of(with_route(routes, network, peer_id), ip) == Some(peer_id),
{
    let keep = leads_elsewhere(network);
    let kept = routes.filter(keep);
    let after = with_route(routes, network, peer_id);
    let last = after.len() - 1;
    assert forall|j: int| 0 <= j < after.len() && (#[trigger] after[j]).0.holds(ip) implies {
        &&& after[j].0.prefix <= after[last].0.prefix
        &&& j > last ==> after[j].0.prefix < after[last].0.prefix
    } by {
        if j < last {
            assert(after[j] == kept[j]);
            lemma_filter_comes_from(routes, keep, j);
        }
    }
    assert(is_best(after, ip, last));
    lemma_route_of(after, ip, last);
}

/// A peer whose routes were taken out is behind no address.
pub proof fn law_removed_peer_is_behind_nothing(routes: Seq<(IpNetwork, u32)>, peer_id: u32, ip: IpAddr)
    ensures
        route_of(without_peer(routes, peer_id), ip) != Some(peer_id),
{
    let after = without_peer(routes, peer_id);
    if exists|i: int| is_best(after, ip, i) {
        let i = choose|i: int| is_best(after, ip, i);
        lemma_filter_passes(routes, of_others(peer_id), i);
    }
}

pub proof fn lemma_filter_passes(all: Seq<(IpNetwork, u32)>, keep: spec_fn((IpNetwork, u32)) -> bool, i: int)
    requires
        0 <= i < all.filter(keep).len(),
    ensures
        keep(all.filter(keep)[i]),
    decreases all.len(),
{
    reveal(Seq::filter);
    if i < all.drop_last().filter(keep).len() {
        lemma_filter_passes(all.drop_last(), keep, i);
    }
}

pub proof fn lemma_filter_comes_from(all: Seq<(IpNetwork, u32)>, keep: spec_fn((IpNetwork, u32)) -> bool, i: int)
    requires
        0 <= i < all.filter(keep).len(),
    ensures
        exists|j: int| 0 <= j < all.len() && #[trigger] all[j] == all.filter(keep)[i],
    decreases all.len(),
{
    reveal(Seq::filter);
    let before = all.drop_last();
    if i < before.filter(keep).len() {
        lemma_filter_comes_from(before, keep, i);
        let j = choose|j: int| 0 <= j < before.len() && #[trigger] before[j] == before.filter(keep)[i];
        assert(all[j] == all.filter(keep)[i]);
    } else {
        assert(all[all.len() - 1] == all.filter(keep)[i]);
    }
}

/// What a filter leaves of a list of routes is one.
pub proof fn lemma_filter_is_route_list(all: Seq<(IpNetwork, u32)>, keep: spec_fn((IpNetwork, u32)) -> bool)
    requires
        is_route_list(all),
    ensures
        is_route_list(all.filter(keep)),
{
    lemma_filtered(all, all.len() as int, keep);
    assert(all.take(all.len() as int) =~= all);
}

/// A new route to a valid network leaves a list of routes one.
pub proof fn lemma_with_route_is_route_list(routes: Seq<(IpNetwork, u32)>, network: IpNetwork, peer_id: u32)
    requires
        is_route_list(routes),
        network.valid(),
    ensures
        is_route_list(with_route(routes, network, peer_id)),
{
    let keep = leads_elsewhere(network);
    let kept = routes.filter(keep);
    let after = with_route(routes, network, peer_id);
    lemma_filter_is_route_list(routes, keep);
    assert forall|i: int, j: int| 0 <= i < j < after.len() implies after[i].0 != after[j].0 by {
        lemma_filter_passes(routes, keep, i);
    }
}

/// Filtering twice is filtering by both tests.
pub proof fn lemma_filter_twice(
    all: Seq<(IpNetwork, u32)>,
    first: spec_fn((IpNetwork, u32)) -> bool,
    second: spec_fn((IpNetwork, u32)) -> bool,
    both: spec_fn((IpNetwork, u32)) -> bool,
)
    requires
        forall|r: (IpNetwork, u32)| #[trigger] both(r) == (first(r) && second(r)),
    ensures
        all.filter(first).filter(second) == all.filter(both),
    decreases all.len(),
{
    reveal(Seq::filter);
    if all.len() > 0 {
        let rest = all.drop_last();
        lemma_filter_twice(rest, first, second, both);
        if first(all.last()) {
            let once = rest.filter(first).push(all.last());
            assert(once.drop_last() =~= rest.filter(first));
        }
    }
}

/// A filter that every route passes leaves them all.
pub proof fn lemma_filter_all(all: Seq<(IpNetwork, u32)>, keep: spec_fn((IpNetwork, u32)) -> bool)
    requires
        forall|r: (IpNetwork, u32)| #[trigger] keep(r),
    ensures
        all.filter(keep) == all,
    decreases all.len(),
{
    reveal(Seq::filter);
    if all.len() > 0 {
        lemma_filter_all(all.drop_last(), keep);
        assert(all.drop_last().push(all.last()) =~= all);
    }
}

/// The network of a single address.
pub open spec fn single(ip: IpAddr) -> IpNetwork {
    IpNetwork { ip, prefix: ip.width() as u8 }
}

/// The route to a node itself: the single address of a text in CIDR notation.
pub fn host_route(addr: &str) -> (r: Result<IpNetwork, NetError>)
    ensures
        r == (match parsed_network(addr@) {
            Some(net) => Ok(single(net.ip)),
            None => Err(NetError::InvalidAddress),
        }),
        r matches Ok(net) ==> net.valid(),
{
    match parse_network(addr) {
        Some(net) => Ok(IpNetwork { ip: net.ip, prefix: net.ip.max_prefix() }),
        None => Err(NetError::InvalidAddress),
    }
}

/// The address that a certificate gives its owner.
pub open spec fn cert_ip(cert: Cert) -> Option<IpAddr> {
    match cert.body.addresses {
        Some(addresses) => match parsed_network(addresses.ip@) {
            Some(net) => Some(net.ip),
            None => None,
        },
        None => None,
    }
}

/// The address that a certificate gives its owner.
pub fn primary_cert_ip(cert: &Cert) -> (r: Option<IpAddr>)
    ensures
        r == cert_ip(*cert),
{
    match &cert.body.addresses {
        Some(addresses) => match parse_network(addresses.ip.as_str()) {
            Some(net) => Some(net.ip),
            None => None,
        },
        None => None,
    }
}

/// The network that an interface's address lies in, for nodes to be discovered in; `None`
/// where the prefix leaves room for no other node or holds everything.
pub fn discovery_route_from_interface_addr(addr: &str) -> (r: Result<Option<IpNetwork>, NetError>)
    ensures
        r == (match parsed_network(addr@) {
            Some(net) => Ok(
                if is_mesh(net) {
                    Some(IpNetwork { ip: net.network_address(), prefix: net.prefix })
                } else {
                    None
                },
            ),
            None => Err(NetError::InvalidAddress),
        }),
        r matches Ok(Some(net)) ==> net.valid(),
{
    let net = match parse_network(addr) {
        Some(net) => net,
        None => return Err(NetError::InvalidAddress),
    };
    if net.prefix == 0 || net.prefix >= net.ip.max_prefix() {
        return Ok(None);
    }
    Ok(Some(IpNetwork { ip: net.network(), prefix: net.prefix }))
}

/// Whether a group allows its members to announce a route.
pub open spec fn group_grants(group: Seq<char>, route: IpNetwork) -> bool {
    group == ROUTE_ALL_GRANT@ || match after_prefix(group, ROUTE_GRANT_PREFIX@) {
        Some(text) => match parsed_network(text) {
            Some(net) => net.holds(route.ip) && net.prefix <= route.prefix,
            None => false,
        },
        None => false,
    }
}

/// Whether a group of the certificate allows its owner to announce a route.
pub open spec fn granted(cert: Cert, route: IpNetwork) -> bool {
    exists|i: int| 0 <= i < cert.body.meta.groups@.len() && group_grants(#[trigger] cert.body.meta.groups@[i]@, route)
}

/// Whether a certificate allows its owner to announce a route.
pub fn route_granted_by_cert(cert: &Cert, route: IpNetwork) -> (r: bool)
    ensures
        r == granted(*cert, route),
{
    let groups = &cert.body.meta.groups;
    let mut i: usize = 0;
    while i < groups.len()
        invariant
            i <= groups@.len(),
            groups@ == cert.body.meta.groups@,
            forall|j: int| 0 <= j < i ==> !group_grants(#[trigger] groups@[j]@, route),
        decreases groups@.len() - i,
    {
        let group = groups[i].as_str();
        if same_text(group, ROUTE_ALL_GRANT) {
            return true;
        }
        if let Some(text) = strip_prefix(group, ROUTE_GRANT_PREFIX) {
            if let Some(net) = parse_network(text) {
                if net.contains(route.ip) && net.prefix <= route.prefix {
                    return true;
                }
            }
        }
        i = i + 1;
    }
    false
}

/// Whether a route holds every address.
pub fn is_default_route(route: IpNetwork) -> (r: bool)
    ensures
        r == (route.prefix == 0),
{
    route.prefix == 0
}

/// Whether a certificate lets its owner have the announced subnet `route`: it is not
/// everything, and a group grants it.
pub open spec fn subnet_authorized(cert: Cert, text: Seq<char>, route: IpNetwork) -> bool {
    parsed_network(text) == Some(route) && route.prefix != 0 && granted(cert, route)
}

/// Whether a certificate lets its owner have `route`: it is the owner's own address, or an
/// announced subnet that is authorized.
pub open spec fn authorized(cert: Cert, route: IpNetwork) -> bool {
    match cert.body.addresses {
        None => false,
        Some(addresses) => {
            ||| parsed_network(addresses.ip@) is Some && route == single(parsed_network(addresses.ip@)->0.ip)
            ||| exists|i: int|
                0 <= i < addresses.subnets@.len() && subnet_authorized(
                    cert,
                    #[trigger] addresses.subnets@[i]@,
                    route,
                )
        },
    }
}

/// Whether routes are in strictly rising order, so that none occurs twice.
pub open spec fn is_rising(routes: Seq<IpNetwork>) -> bool {
    forall|i: int, j: int| 0 <= i < j < routes.len() ==> (#[trigger] routes[i]).before(#[trigger] routes[j])
}

/// Puts a route in its place, unless it is there already.
fn insert_sorted(routes: &mut Vec<IpNetwork>, route: IpNetwork)
    requires
        is_rising(old(routes)@),
    ensures
        is_rising(final(routes)@),
        forall|n: IpNetwork| final(routes)@.contains(n) == (old(routes)@.contains(n) || n == route),
{
    let mut i: usize = 0;
    while i < routes.len() && routes[i].is_before(&route)
        invariant
            i <= routes@.len(),
            forall|j: int| 0 <= j < i ==> (#[trigger] routes@[j]).before(route),
        decreases routes@.len() - i,
    {
        i = i + 1;
    }
    if i < routes.len() && routes[i] == route {
        assert(routes@.contains(route));
        return;
    }
    let ghost before = routes@;
    routes.insert(i, route);
    proof {
        let after = routes@;
        assert(after =~= before.insert(i as int, route));
        assert forall|n: IpNetwork| after.contains(n) == (before.contains(n) || n == route) by {
            if before.contains(n) {
                let k = choose|k: int| 0 <= k < before.len() && before[k] == n;
                assert(after[if k < i { k } else { k + 1 }] == n);
            }
            if n == route {
                assert(after[i as int] == n);
            }
            if after.contains(n) {
                let k = choose|k: int| 0 <= k < after.len() && after[k] == n;
                if k != i {
                    assert(before[if k < i { k } else { k - 1 }] == n);
                }
            }
        }
        assert forall|a: int, b: int| 0 <= a < b < after.len() implies (#[trigger] after[a]).before(
            #[trigger] after[b],
        ) by {
            if a == i {
                assert(after[b] == before[b - 1]);
                assert(before[i as int] == before[b - 1] || before[i as int].before(before[b - 1]));
            } else if b == i {
                assert(after[a] == before[a]);
            } else {
                assert(before[if a < i { a } else { a - 1 }].before(before[if b < i { b } else { b - 1 }]));
            }
        }
    }
}

/// The routes that a certificate lets its owner have, in rising order.
pub fn authorized_peer_routes(cert: &Cert) -> (r: Vec<IpNetwork>)
    ensures
        forall|n: IpNetwork| #[trigger] r@.contains(n) == authorized(*cert, n),
        is_rising(r@),
        forall|i: int| 0 <= i < r@.len() ==> (#[trigger] r@[i]).valid(),
{
    let mut routes: Vec<IpNetwork> = Vec::new();
    let addresses = match &cert.body.addresses {
        Some(addresses) => addresses,
        None => {
            assert(routes@ =~= Seq::empty());
            return routes;
        },
    };
    match host_route(addresses.ip.as_str()) {
        Ok(route) => insert_sorted(&mut routes, route),
        Err(_) => {},
    }
    let ghost own = parsed_network(addresses.ip@) is Some;
    let ghost host = single(parsed_network(addresses.ip@)->0.ip);
    assert(forall|n: IpNetwork| routes@.contains(n) == (own && n == host));
    let mut i: usize = 0;
    while i < addresses.subnets.len()
        invariant
            i <= addresses.subnets@.len(),
            is_rising(routes@),
            forall|n: IpNetwork| #[trigger] routes@.contains(n) ==> n.valid(),
            forall|n: IpNetwork| #[trigger]
                routes@.contains(n) == ((own && n == host) || exists|j: int|
                    0 <= j < i && subnet_authorized(*cert, #[trigger] addresses.subnets@[j]@, n)),
        decreases addresses.subnets@.len() - i,
    {
        let ghost before = routes@;
        let text = addresses.subnets[i].as_str();
        if let Some(route) = parse_network(text) {
            if !is_default_route(route) && route_granted_by_cert(cert, route) {
                insert_sorted(&mut routes, route);
            }
        }
        assert forall|n: IpNetwork| #[trigger]
            routes@.contains(n) == ((own && n == host) || exists|j: int|
                0 <= j < i + 1 && subnet_authorized(*cert, #[trigger] addresses.subnets@[j]@, n)) by {
            let newly = subnet_authorized(*cert, addresses.subnets@[i as int]@, n);
            assert(routes@.contains(n) == (before.contains(n) || newly));
            let earlier = exists|j: int|
                0 <= j < i && subnet_authorized(*cert, #[trigger] addresses.subnets@[j]@, n);
            let now = exists|j: int|
                0 <= j < i + 1 && subnet_authorized(*cert, #[trigger] addresses.subnets@[j]@, n);
            if now {
                let j = choose|j: int|
                    0 <= j < i + 1 && subnet_authorized(*cert, #[trigger] addresses.subnets@[j]@, n);
                assert(j == i ==> newly);
            }
        }
        i = i + 1;
    }
    assert forall|k: int| 0 <= k < routes@.len() implies (#[trigger] routes@[k]).valid() by {
        assert(routes@.contains(routes@[k]));
    }
    routes
}

/// The address in an IP packet that stands at `v4_at` in an IPv4 header, or at `v6_at` in
/// an IPv6 header; `None` where the packet is neither or shorter than its header.
pub open spec fn header_ip(packet: Seq<u8>, v4_at: int, v6_at: int) -> Option<IpAddr> {
    if packet.len() >= 20 && packet[0] / 16 == 4 {
        Some(IpAddr::V4(from_be32(packet.skip(v4_at))))
    } else if packet.len() >= 40 && packet[0] / 16 == 6 {
        Some(IpAddr::V6(from_be128(packet.skip(v6_at))))
    } else {
        None
    }
}

/// The source address of an IP packet.
pub open spec fn source_ip(packet: Seq<u8>) -> Option<IpAddr> {
    header_ip(packet, 12, 8)
}

/// The destination address of an IP packet.
pub open spec fn dest_ip(packet: Seq<u8>) -> Option<IpAddr> {
    header_ip(packet, 16, 24)
}

fn parse_header_ip(packet: &[u8], v4_at: usize, v6_at: usize) -> (r: Option<IpAddr>)
    requires
        v4_at <= 16,
        v6_at <= 24,
    ensures
        r == header_ip(packet@, v4_at as int, v6_at as int),
{
    if packet.len() == 0 {
        return None;
    }
    let version: u8 = packet[0] / 16;
    let mut rd = Reader::new(packet);
    if version == 4 && packet.len() >= 20 {
        let _before = rd.bytes(v4_at)?;
        return Some(IpAddr::V4(rd.u32()?));
    }
    if version == 6 && packet.len() >= 40 {
        let _before = rd.bytes(v6_at)?;
        return Some(IpAddr::V6(rd.u128()?));
    }
    None
}

/// The source address of an IP packet.
pub fn parse_source_ip(packet: &[u8]) -> (r: Option<IpAddr>)
    ensures
        r == source_ip(packet@),
{
    parse_header_ip(packet, 12, 8)
}

/// The destination address of an IP packet.
pub fn parse_dest_ip(packet: &[u8]) -> (r: Option<IpAddr>)
    ensures
        r == dest_ip(packet@),
{
    parse_header_ip(packet, 16, 24)
}

/// Whether one of the networks holds an address.
pub open spec fn any_holds(networks: Seq<IpNetwork>, ip: IpAddr) -> bool {
    exists|i: int| 0 <= i < networks.len() && (#[trigger] networks[i]).holds(ip)
}

/// Whether every network is valid.
pub open spec fn all_valid(networks: Seq<IpNetwork>) -> bool {
    forall|i: int| 0 <= i < networks.len() ==> (#[trigger] networks[i]).valid()
}

/// Whether one of the networks holds an address.
pub fn any_contains(networks: &[IpNetwork], ip: IpAddr) -> (r: bool)
    requires
        all_valid(networks@),
    ensures
        r == any_holds(networks@, ip),
{
    let mut i: usize = 0;
    while i < networks.len()
        invariant
            i <= networks@.len(),
            all_valid(networks@),
            forall|j: int| 0 <= j < i ==> !(#[trigger] networks@[j]).holds(ip),
        decreases networks@.len() - i,
    {
        if networks[i].contains(ip) {
            return true;
        }
        i = i + 1;
    }
    false
}

/// Whether a certificate lets its owner have an address.
pub open spec fn authorized_ip(cert: Cert, ip: IpAddr) -> bool {
    exists|n: IpNetwork| #[trigger] authorized(cert, n) && n.holds(ip)
}

/// Whether a certificate lets its owner have an address.
pub fn authorizes_ip(cert: &Cert, ip: IpAddr) -> (r: bool)
    ensures
        r == authorized_ip(*cert, ip),
{
    let routes = authorized_peer_routes(cert);
    let r = any_contains(routes.as_slice(), ip);
    proof {
        lemma_listed_routes(*cert, routes@, ip);
    }
    r
}

pub proof fn lemma_listed_routes(cert: Cert, routes: Seq<IpNetwork>, ip: IpAddr)
    requires
        forall|n: IpNetwork| #[trigger] routes.contains(n) == authorized(cert, n),
    ensures
        any_holds(routes, ip) == authorized_ip(cert, ip),
{
    if any_holds(routes, ip) {
        let i = choose|i: int| 0 <= i < routes.len() && (#[trigger] routes[i]).holds(ip);
        assert(routes.contains(routes[i]));
        assert(authorized(cert, routes[i]) && routes[i].holds(ip));
    }
    if authorized_ip(cert, ip) {
        let n = choose|n: IpNetwork| #[trigger] authorized(cert, n) && n.holds(ip);
        assert(routes.contains(n));
        let i = choose|i: int| 0 <= i < routes.len() && routes[i] == n;
        assert(routes[i].holds(ip));
    }
}

/// Whether an address is the broadcast address of an overlay network: an IPv4 network of
/// more than one address.
pub open spec fn overlay_broadcast(ip: IpAddr, networks: Seq<IpNetwork>) -> bool {
    ip is V4 && exists|i: int|
        {
            &&& 0 <= i < networks.len()
            &&& (#[trigger] networks[i]).ip is V4
            &&& networks[i].prefix < 32
            &&& networks[i].last_number() == ip.bits()
        }
}

/// Whether an address is the broadcast address of an overlay network.
pub fn is_overlay_broadcast(ip: IpAddr, overlay_networks: &[IpNetwork]) -> (r: bool)
    requires
        all_valid(overlay_networks@),
    ensures
        r == overlay_broadcast(ip, overlay_networks@),
{
    let dst: u32 = match ip {
        IpAddr::V4(dst) => dst,
        IpAddr::V6(_) => return false,
    };
    let mut i: usize = 0;
    while i < overlay_networks.len()
        invariant
            ip == IpAddr::V4(dst),
            i <= overlay_networks@.len(),
            all_valid(overlay_networks@),
            forall|j: int|
                0 <= j < i ==> !((#[trigger] overlay_networks@[j]).ip is V4 && overlay_networks@[j].prefix < 32
                    && overlay_networks@[j].last_number() == dst),
        decreases overlay_networks@.len() - i,
    {
        if overlay_networks[i].prefix < 32 {
            if let Some(broadcast) = overlay_networks[i].broadcast_v4() {
                if broadcast == dst {
                    return true;
                }
            }
        }
        i = i + 1;
    }
    false
}

/// No certificate lets its owner have everything, and none lets it have a subnet beyond
/// its own address that no group grants.
pub proof fn law_routes_are_restricted(cert: Cert, route: IpNetwork)
    requires
        authorized(cert, route),
    ensures
        route.prefix != 0,
        granted(cert, route) || cert_ip(cert) is Some && route == single(cert_ip(cert)->0),
{
}

/// The grant for all routes allows every announced subnet but everything.
pub proof fn law_grant_for_all_routes(cert: Cert, g: int, i: int, route: IpNetwork)
    requires
        0 <= g < cert.body.meta.groups@.len(),
        cert.body.meta.groups@[g]@ == ROUTE_ALL_GRANT@,
        cert.body.addresses is Some,
        0 <= i < cert.body.addresses->0.subnets@.len(),
        parsed_network(cert.body.addresses->0.subnets@[i]@) == Some(route),
        route.prefix != 0,
    ensures
        authorized(cert, route),
{
    assert(group_grants(cert.body.meta.groups@[g]@, route));
    assert(subnet_authorized(cert, cert.body.addresses->0.subnets@[i]@, route));
}

/// The only valid network with the longest prefix that holds an address is the one of the
/// address alone.
pub proof fn lemma_single(net: IpNetwork, ip: IpAddr)
    requires
        net.valid(),
    ensures
        single(ip).valid(),
        single(ip).holds(ip),
        net.holds(ip) ==> net.prefix <= single(ip).prefix,
        net.holds(ip) && net.prefix == single(ip).prefix ==> net == single(ip),
{
    lemma2_to64();
    assert(pow2(0) == 1);
    if net.holds(ip) && net.prefix == single(ip).prefix {
        assert(net.size() == 1);
        assert(ip.bits() / 1 == ip.bits());
        assert(net.ip.bits() / 1 == net.ip.bits());
        assert(net.ip == ip);
    }
}

/// A network that starts inside another one with a prefix no longer lies inside it.
pub proof fn lemma_inner_network(outer: IpNetwork, inner: IpNetwork, ip: IpAddr)
    requires
        outer.valid(),
        inner.valid(),
        outer.holds(inner.ip),
        outer.prefix <= inner.prefix,
        inner.holds(ip),
    ensures
        outer.holds(ip),
{
    let w = outer.ip.width();
    let small = (w - inner.prefix) as nat;
    let more = (inner.prefix - outer.prefix) as nat;
    lemma_pow2_adds(small, more);
    lemma_pow2_pos(small);
    lemma_pow2_pos(more);
    lemma_div_denominator(ip.bits() as int, pow2(small) as int, pow2(more) as int);
    lemma_div_denominator(inner.ip.bits() as int, pow2(small) as int, pow2(more) as int);
}

/// A grant for a network covers no address outside it: a route that it allows lies inside
/// the network.
pub proof fn law_grant_covers_its_network_only(group: Seq<char>, route: IpNetwork, net: IpNetwork, ip: IpAddr)
    requires
        group_grants(group, route),
        group != ROUTE_ALL_GRANT@,
        after_prefix(group, ROUTE_GRANT_PREFIX@) is Some ==> parsed_network(
            after_prefix(group, ROUTE_GRANT_PREFIX@)->0,
        ) == Some(net),
        route.valid(),
        net.valid(),
        route.holds(ip),
    ensures
        net.holds(ip),
{
    lemma_inner_network(net, route, ip);
}

} // verus!
