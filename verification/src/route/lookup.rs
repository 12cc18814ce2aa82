//! What the table of routes is for: every address leads to the peer with the closest route.
use crate::addr::{IpAddr, IpNetwork};
use crate::route::{
    is_best, leads_elsewhere, lemma_filter_comes_from, lemma_route_of, of_others, route_of, with_route, without_peer,
};
use vstd::prelude::*;

verus! {

/// If a route holds an address, one of them is the best.
pub proof fn lemma_some_route_is_best(routes: Seq<(IpNetwork, u32)>, ip: IpAddr, k: int)
    requires
        0 <= k < routes.len(),
        routes[k].0.holds(ip),
    ensures
        exists|i: int| is_best(routes, ip, i),
    decreases routes.len(),
{
    let last = routes.len() - 1;
    let rest = routes.drop_last();
    if exists|j: int| 0 <= j < rest.len() && (#[trigger] rest[j]).0.holds(ip) {
        let j = choose|j: int| 0 <= j < rest.len() && (#[trigger] rest[j]).0.holds(ip);
        lemma_some_route_is_best(rest, ip, j);
        let i = choose|i: int| is_best(rest, ip, i);
        assert(rest[i] == routes[i]);
        if routes[last].0.holds(ip) && routes[i].0.prefix <= routes[last].0.prefix {
            assert forall|j: int| 0 <= j < routes.len() && (#[trigger] routes[j]).0.holds(ip) implies {
                &&& routes[j].0.prefix <= routes[last].0.prefix
                &&& j > last ==> routes[j].0.prefix < routes[last].0.prefix
            } by {
                if j < last {
                    assert(rest[j].0.holds(ip));
                }
            }
            assert(is_best(routes, ip, last));
        } else {
            assert forall|j: int| 0 <= j < routes.len() && (#[trigger] routes[j]).0.holds(ip) implies {
                &&& routes[j].0.prefix <= routes[i].0.prefix
                &&& j > i ==> routes[j].0.prefix < routes[i].0.prefix
            } by {
                if j < last {
                    assert(rest[j].0.holds(ip));
                }
            }
            assert(is_best(routes, ip, i));
        }
    } else {
        assert forall|j: int| 0 <= j < routes.len() && (#[trigger] routes[j]).0.holds(ip) implies j == last by {
            if j < last {
                assert(rest[j].0.holds(ip));
            }
        }
        assert(is_best(routes, ip, last));
    }
}

/// An address leads somewhere if and only if a route holds it, and then to the peer of the
/// route with the longest prefix, of which the latest counts.
pub proof fn law_longest_prefix_decides(routes: Seq<(IpNetwork, u32)>, ip: IpAddr)
    ensures
        route_of(routes, ip) is Some <==> exists|i: int| 0 <= i < routes.len() && (#[trigger] routes[i]).0.holds(ip),
        forall|i: int|
            0 <= i < routes.len() && (#[trigger] routes[i]).0.holds(ip) && (forall|j: int|
                0 <= j < routes.len() && (#[trigger] routes[j]).0.holds(ip) ==> routes[j].0.prefix
                    < routes[i].0.prefix || routes[j].0.prefix == routes[i].0.prefix && j <= i) ==> route_of(
                routes,
                ip,
            ) == Some(routes[i].1),
{
    if exists|i: int| 0 <= i < routes.len() && (#[trigger] routes[i]).0.holds(ip) {
        let k = choose|i: int| 0 <= i < routes.len() && (#[trigger] routes[i]).0.holds(ip);
        lemma_some_route_is_best(routes, ip, k);
    }
    assert forall|i: int|
        0 <= i < routes.len() && (#[trigger] routes[i]).0.holds(ip) && (forall|j: int|
            0 <= j < routes.len() && (#[trigger] routes[j]).0.holds(ip) ==> routes[j].0.prefix < routes[i].0.prefix
                || routes[j].0.prefix == routes[i].0.prefix && j <= i) implies route_of(routes, ip) == Some(
        routes[i].1,
    ) by {
        assert(is_best(routes, ip, i));
        lemma_route_of(routes, ip, i);
    }
}

/// The best route stays the best among those that pass a test which it passes.
pub proof fn lemma_best_passes(
    routes: Seq<(IpNetwork, u32)>,
    keep: spec_fn((IpNetwork, u32)) -> bool,
    ip: IpAddr,
    i: int,
) -> (k: int)
    requires
        is_best(routes, ip, i),
        keep(routes[i]),
    ensures
        is_best(routes.filter(keep), ip, k),
        routes.filter(keep)[k] == routes[i],
    decreases routes.len(),
{
    reveal(Seq::filter);
    let last = routes.len() - 1;
    let rest = routes.drop_last();
    let kept = rest.filter(keep);
    let after = routes.filter(keep);
    if i == last {
        let k = kept.len() as int;
        assert forall|j: int| 0 <= j < after.len() && (#[trigger] after[j]).0.holds(ip) implies {
            &&& after[j].0.prefix <= after[k].0.prefix
            &&& j > k ==> after[j].0.prefix < after[k].0.prefix
        } by {
            lemma_filter_comes_from(routes, keep, j);
        }
        k
    } else {
        assert(rest[i] == routes[i]);
        assert forall|j: int| 0 <= j < rest.len() && (#[trigger] rest[j]).0.holds(ip) implies {
            &&& rest[j].0.prefix <= rest[i].0.prefix
            &&& j > i ==> rest[j].0.prefix < rest[i].0.prefix
        } by {
            assert(routes[j].0.holds(ip));
        }
        let k = lemma_best_passes(rest, keep, ip, i);
        assert forall|j: int| 0 <= j < after.len() && (#[trigger] after[j]).0.holds(ip) implies {
            &&& after[j].0.prefix <= after[k].0.prefix
            &&& j > k ==> after[j].0.prefix < after[k].0.prefix
        } by {
            if j < kept.len() {
                assert(kept[j].0.holds(ip));
            } else {
                assert(routes[last].0.holds(ip));
            }
        }
        k
    }
}

/// A new route changes nothing for the addresses outside its network.
pub proof fn law_new_route_leaves_the_rest(routes: Seq<(IpNetwork, u32)>, network: IpNetwork, peer_id: u32, ip: IpAddr)
    requires
        !network.holds(ip),
    ensures
        route_of(with_route(routes, network, peer_id), ip) == route_of(routes, ip),
{
    let keep = leads_elsewhere(network);
    let kept = routes.filter(keep);
    let after = with_route(routes, network, peer_id);
    if exists|i: int| is_best(routes, ip, i) {
        let i = choose|i: int| is_best(routes, ip, i);
        let k = lemma_best_passes(routes, keep, ip, i);
        assert(after[k] == kept[k]);
        assert forall|j: int| 0 <= j < after.len() && (#[trigger] after[j]).0.holds(ip) implies {
            &&& after[j].0.prefix <= after[k].0.prefix
            &&& j > k ==> after[j].0.prefix < after[k].0.prefix
        } by {
            assert(kept[j].0.holds(ip));
        }
        assert(is_best(after, ip, k));
        lemma_route_of(after, ip, k);
        lemma_route_of(routes, ip, i);
    } else if exists|i: int| is_best(after, ip, i) {
        let i = choose|i: int| is_best(after, ip, i);
        assert(after[i] == kept[i]);
        lemma_filter_comes_from(routes, keep, i);
        let j = choose|j: int| 0 <= j < routes.len() && #[trigger] routes[j] == kept[i];
        lemma_some_route_is_best(routes, ip, j);
    }
}

/// Taking out the routes of a peer changes nothing for the addresses behind other peers.
pub proof fn law_removal_leaves_the_rest(routes: Seq<(IpNetwork, u32)>, peer_id: u32, ip: IpAddr, other: u32)
    requires
        route_of(routes, ip) == Some(other),
        other != peer_id,
    ensures
        route_of(without_peer(routes, peer_id), ip) == Some(other),
{
    let keep = of_others(peer_id);
    let i = choose|i: int| is_best(routes, ip, i);
    lemma_route_of(routes, ip, i);
    let k = lemma_best_passes(routes, keep, ip, i);
    lemma_route_of(routes.filter(keep), ip, k);
}

} // verus!
