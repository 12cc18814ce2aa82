//! Which addresses a certificate gives to its owner, said without the routes that they are
//! reached by.
use crate::addr::{law_inner_network, parsed_network, IpAddr, IpNetwork};
use crate::cert::Cert;
use crate::route::{
    any_holds, authorized, authorized_ip, granted, group_grants, lemma_listed_routes, lemma_single, single,
    subnet_authorized, ROUTE_ALL_GRANT, ROUTE_GRANT_PREFIX,
};
use crate::text::after_prefix;
use vstd::prelude::*;

verus! {

/// Whether no network that a text stands for has a prefix longer than its address.
pub open spec fn prefixes_fit() -> bool {
    forall|text: Seq<char>| (#[trigger] parsed_network(text)) matches Some(net) ==> net.valid()
}

/// Whether a group is `route:*`, or `route:` and a network that every address of `route`
/// lies in.
pub open spec fn is_grant_for(group: Seq<char>, route: IpNetwork) -> bool {
    ||| group == "route:*"@
    ||| exists|text: Seq<char>|
        {
            &&& group == "route:"@ + text
            &&& (#[trigger] parsed_network(text)) matches Some(net)
            &&& forall|ip: IpAddr| route.holds(ip) ==> #[trigger] net.holds(ip)
        }
}

/// Whether a certificate announces `route`, and one of its groups is a grant for it.
pub open spec fn announces(cert: Cert, route: IpNetwork) -> bool {
    &&& cert.body.addresses matches Some(addresses)
    &&& exists|i: int| 0 <= i < addresses.subnets@.len() && parsed_network(#[trigger] addresses.subnets@[i]@) == Some(route)
    &&& exists|g: int| 0 <= g < cert.body.meta.groups@.len() && is_grant_for(#[trigger] cert.body.meta.groups@[g]@, route)
}

/// Whether a certificate gives its owner this address.
pub open spec fn is_own_address(cert: Cert, ip: IpAddr) -> bool {
    match cert.body.addresses {
        Some(addresses) => match parsed_network(addresses.ip@) {
            Some(own) => own.ip == ip,
            None => false,
        },
        None => false,
    }
}

/// Whether the owner of a certificate may be at an address: it is the owner's own, or lies in
/// a subnet that the certificate announces by a grant and that is not everything.
pub open spec fn may_use(cert: Cert, ip: IpAddr) -> bool {
    ||| is_own_address(cert, ip)
    ||| exists|route: IpNetwork| #[trigger] announces(cert, route) && route.prefix > 0 && route.holds(ip)
}

/// A group grants a route exactly where it is a grant for it.
proof fn lemma_grant(group: Seq<char>, route: IpNetwork)
    requires
        prefixes_fit(),
        route.valid(),
    ensures
        group_grants(group, route) == is_grant_for(group, route),
{
    assert(ROUTE_ALL_GRANT@ == "route:*"@);
    assert(ROUTE_GRANT_PREFIX@ == "route:"@);
    let start = "route:"@;
    if group_grants(group, route) && group != "route:*"@ {
        let text = after_prefix(group, start)->0;
        let net = parsed_network(text)->0;
        assert(group =~= start + text);
        law_inner_network(net, route);
    }
    if is_grant_for(group, route) && group != "route:*"@ {
        let text = choose|text: Seq<char>|
            {
                &&& group == start + text
                &&& (#[trigger] parsed_network(text)) matches Some(net)
                &&& forall|ip: IpAddr| route.holds(ip) ==> #[trigger] net.holds(ip)
            };
        let net = parsed_network(text)->0;
        assert(start.is_prefix_of(group));
        assert(group.skip(start.len() as int) =~= text);
        law_inner_network(net, route);
    }
}

/// The announced subnets that a certificate lets its owner have are those with a grant, but
/// for everything.
pub proof fn law_granted_subnets_are_authorized(cert: Cert, route: IpNetwork)
    requires
        prefixes_fit(),
    ensures
        announces(cert, route) && route.prefix > 0 ==> authorized(cert, route),
        authorized(cert, route) ==> announces(cert, route) && route.prefix > 0 || is_own_address(cert, route.ip)
            && route.prefix == (match route.ip {
            IpAddr::V4(_) => 32u8,
            IpAddr::V6(_) => 128u8,
        }),
{
    if announces(cert, route) && route.prefix > 0 {
        let subnets = cert.body.addresses->0.subnets@;
        let groups = cert.body.meta.groups@;
        let i = choose|i: int| 0 <= i < subnets.len() && parsed_network(#[trigger] subnets[i]@) == Some(route);
        let g = choose|g: int| 0 <= g < groups.len() && is_grant_for(#[trigger] groups[g]@, route);
        lemma_grant(groups[g]@, route);
        assert(group_grants(groups[g]@, route));
        assert(granted(cert, route));
        assert(subnet_authorized(cert, subnets[i]@, route));
    }
    if authorized(cert, route) {
        let addresses = cert.body.addresses->0;
        let subnets = addresses.subnets@;
        let groups = cert.body.meta.groups@;
        if exists|i: int| 0 <= i < subnets.len() && subnet_authorized(cert, #[trigger] subnets[i]@, route) {
            let i = choose|i: int| 0 <= i < subnets.len() && subnet_authorized(cert, #[trigger] subnets[i]@, route);
            let g = choose|g: int| 0 <= g < groups.len() && group_grants(#[trigger] groups[g]@, route);
            lemma_grant(groups[g]@, route);
            assert(announces(cert, route));
        }
    }
}

/// A certificate authorizes its owner for the addresses that the owner may use, and for no
/// others.
pub proof fn law_authorized_addresses_are_those_of_the_owner(cert: Cert, ip: IpAddr)
    requires
        prefixes_fit(),
    ensures
        authorized_ip(cert, ip) <==> may_use(cert, ip),
{
    if authorized_ip(cert, ip) {
        let route = choose|n: IpNetwork| #[trigger] authorized(cert, n) && n.holds(ip);
        law_granted_subnets_are_authorized(cert, route);
        if !(announces(cert, route) && route.prefix > 0) {
            lemma_single(single(route.ip), ip);
            assert(route == single(route.ip));
        }
    }
    if may_use(cert, ip) {
        if exists|route: IpNetwork| #[trigger] announces(cert, route) && route.prefix > 0 && route.holds(ip) {
            let route = choose|route: IpNetwork| #[trigger]
                announces(cert, route) && route.prefix > 0 && route.holds(ip);
            law_granted_subnets_are_authorized(cert, route);
            assert(authorized(cert, route) && route.holds(ip));
        } else {
            lemma_single(single(ip), ip);
            assert(authorized(cert, single(ip)) && single(ip).holds(ip));
        }
    }
}

/// The routes that a certificate gives to its owner hold the addresses that the owner may
/// use, and no others.
pub proof fn law_routes_hold_the_addresses_of_the_owner(cert: Cert, routes: Seq<IpNetwork>, ip: IpAddr)
    requires
        prefixes_fit(),
        forall|n: IpNetwork| #[trigger] routes.contains(n) == authorized(cert, n),
    ensures
        any_holds(routes, ip) <==> may_use(cert, ip),
{
    lemma_listed_routes(cert, routes, ip);
    law_authorized_addresses_are_those_of_the_owner(cert, ip);
}

} // verus!
