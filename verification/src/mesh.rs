//! The state of a node in the mesh: its peers, their sessions and routes, and the
//! handshakes under way.
use crate::addr::{IpNetwork, SocketAddr};
use crate::cert::{CaVerifyKey, Cert, NodeSigningSecretKey};
use crate::crypto::{wipe, zeros, K_HEADER_LEN, SESSION_KEY_LEN};
use crate::handshake::HandshakeInitiate;
use crate::packet::{derive_traffic_key, traffic_key_of, Body, DataPacket};
use crate::replay::ReplayWindow;
use crate::route::{
    all_valid, authorized, authorized_peer_routes, is_rising, is_route_list, lemma_filter_all,
    lemma_filter_comes_from, lemma_filter_twice, of_others, with_route, without_peer, RouteTable,
};
use std::collections::HashMap;
use vstd::prelude::*;
use vstd::std_specs::hash::spec_hash_map_iter;
use vstd::std_specs::iter::IteratorSpec;

pub mod connect;
pub mod deliver;
pub mod exchange;
pub mod laws;
pub mod outbound;
pub mod reach;
pub mod receive;
pub mod service;

verus! {

broadcast use vstd::std_specs::hash::group_hash_axioms;

/// A peer that has not been heard of for longer than this is forgotten.
pub const PEER_EXPIRY_SECS: u64 = 300;

pub const CLEANUP_INTERVAL_SECS: u64 = 60;

/// Who the node is, and what it does for others.
pub struct Identity {
    pub our_id: u32,
    pub cert: Cert,
    pub signing_key: NodeSigningSecretKey,
    pub network_key: [u8; K_HEADER_LEN],
    pub ca_vk: CaVerifyKey,
    pub am_lighthouse: bool,
    pub am_relay: bool,
}

/// A peer with an established session. Times are in seconds since the start of 1970.
pub struct PeerState {
    pub name: String,
    pub cert: Cert,
    pub tx_key: [u8; SESSION_KEY_LEN],
    pub rx_key: [u8; SESSION_KEY_LEN],
    pub addr: SocketAddr,
    pub is_relay: bool,
    pub tx_session_id: u32,
    pub rx_session_id: u32,
    pub tx_seq: u64,
    pub rx_replay: ReplayWindow,
    pub last_seen: u64,
    pub routes: Vec<IpNetwork>,
}

impl PeerState {
    /// Overwrites the keys of the session.
    pub fn zeroize(&mut self)
        ensures
            final(self).tx_key@ == zeros(SESSION_KEY_LEN as nat),
            final(self).rx_key@ == zeros(SESSION_KEY_LEN as nat),
            *final(self) == (PeerState {
                tx_key: final(self).tx_key,
                rx_key: final(self).rx_key,
                ..*old(self)
            }),
    {
        wipe(&mut self.tx_key);
        wipe(&mut self.rx_key);
    }
}

/// A handshake whose answer has not come yet.
pub struct PendingHandshake {
    pub initiate: HandshakeInitiate,
    pub addr: SocketAddr,
    pub peer_id: Option<u32>,
    pub peer_name: String,
    pub sent_at: u64,
    pub relay_attempted: bool,
}

/// A keepalive whose answer has not come yet.
#[derive(Debug, Clone, Copy, PartialEq, Eq, Structural)]
pub struct KeepalivePending {
    pub token: u64,
    pub sent_at: u64,
}

/// The state of a node in the mesh.
pub struct Mesh {
    peers: HashMap<u32, PeerState>,
    rx_sessions: HashMap<u32, u32>,
    routes: RouteTable,
    established: Vec<SocketAddr>,
    pending: HashMap<u32, PendingHandshake>,
    keepalives: HashMap<u32, KeepalivePending>,
}

/// The mathematical value of a `Mesh`: the peers by their number, the peer of each session
/// on which the node receives, the routes in the order in which they came, the endpoints
/// with an established handshake, the handshakes under way by the session that they would
/// open, and the keepalives under way by peer.
pub struct MeshState {
    pub peers: Map<u32, PeerState>,
    pub rx_sessions: Map<u32, u32>,
    pub routes: Seq<(IpNetwork, u32)>,
    pub established: Set<SocketAddr>,
    pub pending: Map<u32, PendingHandshake>,
    pub keepalives: Map<u32, KeepalivePending>,
}

impl View for Mesh {
    type V = MeshState;

    closed spec fn view(&self) -> MeshState {
        MeshState {
            peers: self.peers@,
            rx_sessions: self.rx_sessions@,
            routes: self.routes@,
            established: self.established@.to_set(),
            pending: self.pending@,
            keepalives: self.keepalives@,
        }
    }
}

/// The number after `seq`; it starts over at zero.
pub open spec fn next_seq(seq: u64) -> u64 {
    if seq == u64::MAX {
        0
    } else {
        (seq + 1) as u64
    }
}

/// How many seconds lie between two times; none if the first is later.
pub open spec fn seconds_since(then: u64, now: u64) -> int {
    if then <= now {
        now - then
    } else {
        0
    }
}

/// Whether a list holds exactly the routes that a certificate lets its owner have, in
/// rising order.
pub open spec fn is_authorized_list(routes: Seq<IpNetwork>, cert: Cert) -> bool {
    &&& forall|n: IpNetwork| #[trigger] routes.contains(n) == authorized(cert, n)
    &&& is_rising(routes)
}

/// The routes after those of a peer were added one after the other.
pub open spec fn with_routes(table: Seq<(IpNetwork, u32)>, routes: Seq<IpNetwork>, peer_id: u32) -> Seq<(IpNetwork, u32)>
    decreases routes.len(),
{
    if routes.len() == 0 {
        table
    } else {
        with_route(with_routes(table, routes.drop_last(), peer_id), routes.last(), peer_id)
    }
}

impl MeshState {
    /// What holds of the state at all times: no network has two routes, every route leads
    /// to a peer, and every session is the one on which its peer is received.
    pub open spec fn consistent(self) -> bool {
        &&& is_route_list(self.routes)
        &&& forall|i: int| 0 <= i < self.routes.len() ==> self.peers.contains_key((#[trigger] self.routes[i]).1)
        &&& forall|s: u32| #[trigger]
            self.rx_sessions.contains_key(s) ==> {
                &&& self.peers.contains_key(self.rx_sessions[s])
                &&& self.peers[self.rx_sessions[s]].rx_session_id == s
            }
        &&& forall|id: u32| #[trigger] self.peers.contains_key(id) ==> all_valid(self.peers[id].routes@)
    }

    /// The state after a peer was added, in place of what was known of it.
    pub open spec fn with_peer(self, id: u32, peer: PeerState) -> MeshState {
        let sessions = if self.peers.contains_key(id) {
            self.rx_sessions.remove(self.peers[id].rx_session_id)
        } else {
            self.rx_sessions
        };
        MeshState {
            peers: self.peers.insert(id, peer),
            rx_sessions: sessions.insert(peer.rx_session_id, id),
            routes: with_routes(self.routes, peer.routes@, id),
            ..self
        }
    }

    /// The state without a peer, its session and its routes.
    pub open spec fn without(self, id: u32) -> MeshState {
        if self.peers.contains_key(id) {
            MeshState {
                peers: self.peers.remove(id),
                rx_sessions: self.rx_sessions.remove(self.peers[id].rx_session_id),
                routes: without_peer(self.routes, id),
                ..self
            }
        } else {
            MeshState { routes: without_peer(self.routes, id), ..self }
        }
    }

    /// The state after a packet was numbered for a peer.
    pub open spec fn with_next_seq(self, id: u32) -> MeshState {
        let peer = self.peers[id];
        MeshState { peers: self.peers.insert(id, PeerState { tx_seq: next_seq(peer.tx_seq), ..peer }), ..self }
    }

    /// Whether `after` is the state without the peers that have not been heard of for too
    /// long, and `gone` lists their numbers.
    pub open spec fn forgotten(self, now: u64, after: MeshState, gone: Seq<u32>) -> bool {
        &&& forall|id: u32| #[trigger] gone.contains(id) == self.expired(id, now)
        &&& forall|id: u32| #[trigger]
            after.peers.contains_key(id) == (self.peers.contains_key(id) && !self.expired(id, now))
        &&& forall|id: u32| #[trigger] after.peers.contains_key(id) ==> after.peers[id] == self.peers[id]
        &&& forall|s: u32| #[trigger]
            after.rx_sessions.contains_key(s) == (self.rx_sessions.contains_key(s) && !exists|id: u32| #[trigger]
                self.expired(id, now) && self.peers[id].rx_session_id == s)
        &&& forall|s: u32| #[trigger] after.rx_sessions.contains_key(s) ==> after.rx_sessions[s] == self.rx_sessions[s]
        &&& after.routes == self.routes.filter(of_unexpired(self, now))
        &&& after.established == self.established
        &&& after.pending == self.pending
        &&& after.keepalives == self.keepalives
    }

    /// Whether a peer is known and has not been heard of for too long.
    pub open spec fn expired(self, id: u32, now: u64) -> bool {
        self.peers.contains_key(id) && seconds_since(self.peers[id].last_seen, now) > PEER_EXPIRY_SECS
    }
}

/// The test for routes of peers that have not expired.
pub open spec fn of_unexpired(state: MeshState, now: u64) -> spec_fn((IpNetwork, u32)) -> bool {
    |r: (IpNetwork, u32)| !state.expired(r.1, now)
}

/// The keys of a map, in some order.
pub(crate) fn keys_of<V>(map: &HashMap<u32, V>) -> (r: Vec<u32>)
    ensures
        forall|id: u32| #[trigger] r@.contains(id) == map@.contains_key(id),
        r@.no_duplicates(),
{
    let mut out: Vec<u32> = Vec::new();
    let ghost pairs = spec_hash_map_iter(map).remaining();
    for (id, _value) in it: map.iter()
        invariant
            pairs == spec_hash_map_iter(map).remaining(),
            it.seq() == pairs,
            out@.len() == it.index(),
            forall|j: int| 0 <= j < out@.len() ==> out@[j] == *(#[trigger] pairs[j]).0,
    {
        out.push(*id);
    }
    proof {
        assert forall|id: u32| #[trigger] out@.contains(id) == map@.contains_key(id) by {
            if out@.contains(id) {
                let j = choose|j: int| 0 <= j < out@.len() && out@[j] == id;
                assert(map@.contains_key(*pairs[j].0));
            }
            if map@.contains_key(id) {
                assert(pairs.contains((&id, &map@[id])));
                let j = choose|j: int| 0 <= j < pairs.len() && pairs[j] == (&id, &map@[id]);
                assert(out@[j] == id);
            }
        }
        assert forall|i: int, j: int| 0 <= i < j < out@.len() implies out@[i] != out@[j] by {
            assert(map@[*pairs[i].0] == *pairs[i].1);
            assert(map@[*pairs[j].0] == *pairs[j].1);
            if out@[i] == out@[j] {
                assert(pairs[i] == pairs[j]);
            }
        }
    }
    out
}

impl Mesh {
    /// Whether the state is consistent.
    pub open spec fn wf(&self) -> bool {
        self@.consistent()
    }

    /// A node that knows nobody.
    pub fn new() -> (r: Mesh)
        ensures
            r.wf(),
            r@ == (MeshState {
                peers: Map::empty(),
                rx_sessions: Map::empty(),
                routes: Seq::empty(),
                established: Set::empty(),
                pending: Map::empty(),
                keepalives: Map::empty(),
            }),
    {
        let r = Mesh {
            peers: HashMap::new(),
            rx_sessions: HashMap::new(),
            routes: RouteTable::new(),
            established: Vec::new(),
            pending: HashMap::new(),
            keepalives: HashMap::new(),
        };
        assert(r.established@.to_set() =~= Set::empty());
        r
    }
}

/// Adding routes keeps a list of routes one, and adds no peer but the given one.
proof fn lemma_with_routes(table: Seq<(IpNetwork, u32)>, routes: Seq<IpNetwork>, peer_id: u32, known: Map<u32, PeerState>)
    requires
        is_route_list(table),
        all_valid(routes),
        forall|i: int| 0 <= i < table.len() ==> known.contains_key((#[trigger] table[i]).1),
        known.contains_key(peer_id),
    ensures
        forall|i: int|
            0 <= i < with_routes(table, routes, peer_id).len() ==> known.contains_key(
                (#[trigger] with_routes(table, routes, peer_id)[i]).1,
            ),
        is_route_list(with_routes(table, routes, peer_id)),
    decreases routes.len(),
{
    if routes.len() > 0 {
        let before = with_routes(table, routes.drop_last(), peer_id);
        let after = with_routes(table, routes, peer_id);
        lemma_with_routes(table, routes.drop_last(), peer_id, known);
        assert(routes[routes.len() - 1].valid());
        crate::route::lemma_with_route_is_route_list(before, routes.last(), peer_id);
        let keep = crate::route::leads_elsewhere(routes.last());
        assert forall|i: int| 0 <= i < after.len() implies known.contains_key((#[trigger] after[i]).1) by {
            if i < before.filter(keep).len() {
                lemma_filter_comes_from(before, keep, i);
                assert(after[i] == before.filter(keep)[i]);
            }
        }
    }
}

impl MeshState {
    /// Adding a peer with valid routes keeps the state consistent.
    pub proof fn law_with_peer_is_consistent(self, id: u32, peer: PeerState)
        requires
            self.consistent(),
            all_valid(peer.routes@),
        ensures
            self.with_peer(id, peer).consistent(),
    {
        let after = self.with_peer(id, peer);
        assert forall|i: int| 0 <= i < self.routes.len() implies after.peers.contains_key(
            (#[trigger] self.routes[i]).1,
        ) by {
            assert(self.peers.contains_key(self.routes[i].1));
        }
        lemma_with_routes(self.routes, peer.routes@, id, after.peers);
        assert forall|s: u32| #[trigger] after.rx_sessions.contains_key(s) implies {
            &&& after.peers.contains_key(after.rx_sessions[s])
            &&& after.peers[after.rx_sessions[s]].rx_session_id == s
        } by {
            if s != peer.rx_session_id {
                assert(self.rx_sessions.contains_key(s));
            }
        }
    }

    /// Taking a peer out keeps the state consistent.
    pub proof fn law_without_is_consistent(self, id: u32)
        requires
            self.consistent(),
        ensures
            self.without(id).consistent(),
    {
        let after = self.without(id);
        let keep = of_others(id);
        assert forall|i: int| 0 <= i < after.routes.len() implies {
            &&& (#[trigger] after.routes[i]).0.valid()
            &&& after.peers.contains_key(after.routes[i].1)
        } by {
            lemma_filter_comes_from(self.routes, keep, i);
            crate::route::lemma_filter_passes(self.routes, keep, i);
            let j = choose|j: int| 0 <= j < self.routes.len() && #[trigger] self.routes[j] == after.routes[i];
            assert(self.peers.contains_key(self.routes[j].1));
        }
        crate::route::lemma_filter_is_route_list(self.routes, keep);
        assert forall|s: u32| #[trigger] after.rx_sessions.contains_key(s) implies {
            &&& after.peers.contains_key(after.rx_sessions[s])
            &&& after.peers[after.rx_sessions[s]].rx_session_id == s
        } by {
            assert(self.rx_sessions.contains_key(s));
        }
    }
}

impl Mesh {
    /// Adds a peer with which a handshake has given the session key `sk`, in place of what
    /// was known of it, and returns the routes that its certificate lets it have.
    #[verifier::rlimit(60)]
    #[verifier::spinoff_prover]
    pub fn add_peer(
        &mut self,
        our_id: u32,
        id: u32,
        sk: [u8; SESSION_KEY_LEN],
        cert: Cert,
        addr: SocketAddr,
        is_relay: bool,
        tx_session_id: u32,
        rx_session_id: u32,
        now: u64,
    ) -> (routes: Vec<IpNetwork>)
        requires
            old(self).wf(),
        ensures
            final(self).wf(),
            exists|peer: PeerState|
                {
                    &&& final(self)@ == #[trigger] old(self)@.with_peer(id, peer)
                    &&& is_new_peer(peer, our_id, id, sk@, cert, addr, is_relay, tx_session_id, rx_session_id, now)
                    &&& routes@ == peer.routes@
                },
    {
        let tx_key = derive_traffic_key(&sk, our_id, id);
        let rx_key = derive_traffic_key(&sk, id, our_id);
        let mut sk = sk;
        wipe(&mut sk);
        let routes = authorized_peer_routes(&cert);
        let peer = PeerState {
            name: cert.body.meta.name.clone(),
            cert,
            tx_key,
            rx_key,
            addr,
            is_relay,
            tx_session_id,
            rx_session_id,
            tx_seq: 0,
            rx_replay: ReplayWindow::new(),
            last_seen: now,
            routes: copy_networks(&routes),
        };
        let ghost added = peer;
        let ghost before = self@;
        match self.peers.remove(&id) {
            Some(known) => {
                self.rx_sessions.remove(&known.rx_session_id);
                let mut known = known;
                known.zeroize();
            },
            None => {},
        }
        self.peers.insert(id, peer);
        self.rx_sessions.insert(rx_session_id, id);
        let mut i: usize = 0;
        assert(routes@.take(0) =~= Seq::empty());
        while i < routes.len()
            invariant
                i <= routes@.len(),
                all_valid(routes@),
                is_route_list(self.routes@),
                self.routes@ == with_routes(before.routes, routes@.take(i as int), id),
                self.peers@ == before.peers.insert(id, added),
                self.rx_sessions@ == before.with_peer(id, added).rx_sessions,
                self.established@.to_set() == before.established,
                self.pending@ == before.pending,
                self.keepalives@ == before.keepalives,
            decreases routes@.len() - i,
        {
            self.routes.insert(routes[i], id);
            i = i + 1;
            assert(routes@.take(i as int).drop_last() =~= routes@.take(i - 1));
        }
        assert(routes@.take(i as int) =~= routes@);
        assert(self@.peers =~= before.with_peer(id, added).peers);
        assert(self@.rx_sessions =~= before.with_peer(id, added).rx_sessions);
        proof {
            before.law_with_peer_is_consistent(id, added);
        }
        routes
    }

    /// Takes a peer out, with its session and its routes.
    fn remove_peer(&mut self, id: u32) -> (r: Option<PeerState>)
        requires
            old(self).wf(),
        ensures
            final(self).wf(),
            final(self)@ == old(self)@.without(id),
            r is Some == old(self)@.peers.contains_key(id),
            r matches Some(peer) ==> peer == old(self)@.peers[id],
    {
        let ghost before = self@;
        let r = self.peers.remove(&id);
        match &r {
            Some(peer) => {
                self.rx_sessions.remove(&peer.rx_session_id);
            },
            None => {},
        }
        self.routes.remove_peer(id);
        proof {
            before.law_without_is_consistent(id);
            assert(self@.peers =~= before.without(id).peers);
            assert(self@.rx_sessions =~= before.without(id).rx_sessions);
        }
        r
    }

    /// Forgets the peers that have not been heard of for too long, with their sessions and
    /// routes, and returns their numbers.
    #[verifier::rlimit(60)]
    #[verifier::spinoff_prover]
    pub fn expire_peers(&mut self, now: u64) -> (gone: Vec<u32>)
        requires
            old(self).wf(),
        ensures
            final(self).wf(),
            old(self)@.forgotten(now, final(self)@, gone@),
    {
        let ghost before = self@;
        let ids = keys_of(&self.peers);
        let mut gone: Vec<u32> = Vec::new();
        let mut i: usize = 0;
        proof {
            lemma_filter_all(before.routes, of_unlisted(gone@));
        }
        while i < ids.len()
            invariant
                self.wf(),
                i <= ids@.len(),
                ids@.no_duplicates(),
                forall|id: u32| #[trigger] ids@.contains(id) == before.peers.contains_key(id),
                forall|id: u32| #[trigger]
                    gone@.contains(id) == (ids@.take(i as int).contains(id) && before.expired(id, now)),
                forall|id: u32| #[trigger]
                    self@.peers.contains_key(id) == (before.peers.contains_key(id) && !gone@.contains(id)),
                forall|id: u32| #[trigger] self@.peers.contains_key(id) ==> self@.peers[id] == before.peers[id],
                forall|s: u32| #[trigger]
                    self@.rx_sessions.contains_key(s) == (before.rx_sessions.contains_key(s) && !exists|id: u32|
                        #[trigger] gone@.contains(id) && before.peers[id].rx_session_id == s),
                forall|s: u32| #[trigger]
                    self@.rx_sessions.contains_key(s) ==> self@.rx_sessions[s] == before.rx_sessions[s],
                self@.routes == before.routes.filter(of_unlisted(gone@)),
                self@.established == before.established,
                self@.pending == before.pending,
                self@.keepalives == before.keepalives,
            decreases ids@.len() - i,
        {
            let id: u32 = ids[i];
            let ghost done = ids@.take(i as int);
            let ghost listed = gone@;
            let ghost held = self@;
            proof {
                assert(ids@.contains(id));
                assert(!done.contains(id));
                assert(ids@.take(i + 1) =~= done.push(id));
                lemma_push_contains(done, id);
                lemma_push_contains(listed, id);
                assert(self@.peers.contains_key(id));
            }
            let expired = match self.peers.get(&id) {
                Some(peer) => now.saturating_sub(peer.last_seen) > PEER_EXPIRY_SECS,
                None => false,
            };
            if expired {
                if let Some(peer) = self.remove_peer(id) {
                    let mut peer = peer;
                    peer.zeroize();
                }
                gone.push(id);
                proof {
                    lemma_filter_twice(
                        before.routes,
                        of_unlisted(listed),
                        of_others(id),
                        of_unlisted(gone@),
                    );
                    assert forall|s: u32| #[trigger]
                        self@.rx_sessions.contains_key(s) == (before.rx_sessions.contains_key(s) && !exists|k: u32|
                            #[trigger] gone@.contains(k) && before.peers[k].rx_session_id == s) by {
                        if exists|k: u32| #[trigger] listed.contains(k) && before.peers[k].rx_session_id == s {
                            let k = choose|k: u32| #[trigger] listed.contains(k) && before.peers[k].rx_session_id == s;
                            assert(gone@.contains(k));
                        }
                        if exists|k: u32| #[trigger] gone@.contains(k) && before.peers[k].rx_session_id == s {
                            let k = choose|k: u32| #[trigger] gone@.contains(k) && before.peers[k].rx_session_id == s;
                            assert(listed.contains(k) || k == id);
                        }
                        assert(gone@.contains(id));
                    }
                }
            }
            i = i + 1;
        }
        proof {
            assert(ids@.take(i as int) =~= ids@);
            assert forall|id: u32| #[trigger] gone@.contains(id) == before.expired(id, now) by {
                assert(ids@.contains(id) == before.peers.contains_key(id));
            }
            assert forall|s: u32| #[trigger]
                self@.rx_sessions.contains_key(s) == (before.rx_sessions.contains_key(s) && !exists|id: u32|
                    #[trigger] before.expired(id, now) && before.peers[id].rx_session_id == s) by {
                if exists|k: u32| #[trigger] gone@.contains(k) && before.peers[k].rx_session_id == s {
                    let k = choose|k: u32| #[trigger] gone@.contains(k) && before.peers[k].rx_session_id == s;
                    assert(before.expired(k, now));
                }
                if exists|k: u32| #[trigger] before.expired(k, now) && before.peers[k].rx_session_id == s {
                    let k = choose|k: u32| #[trigger] before.expired(k, now) && before.peers[k].rx_session_id == s;
                    assert(gone@.contains(k));
                }
            }
            lemma_filter_twice(
                before.routes,
                of_unlisted(gone@),
                of_unlisted(Seq::empty()),
                of_unexpired(before, now),
            );
            lemma_filter_all(self@.routes, of_unlisted(Seq::empty()));
        }
        gone
    }

    /// Numbers the next packet for a peer.
    fn next_seq_for(&mut self, id: u32) -> (seq: u64)
        requires
            old(self).wf(),
            old(self)@.peers.contains_key(id),
        ensures
            final(self).wf(),
            final(self)@ == old(self)@.with_next_seq(id),
            seq == next_seq(old(self)@.peers[id].tx_seq),
    {
        let ghost before = self@;
        match self.peers.remove(&id) {
            Some(peer) => {
                let seq: u64 = if peer.tx_seq == u64::MAX { 0 } else { peer.tx_seq + 1 };
                let mut peer = peer;
                peer.tx_seq = seq;
                self.peers.insert(id, peer);
                assert(self@.peers =~= before.with_next_seq(id).peers);
                seq
            },
            None => 0,
        }
    }
}

/// The test for routes of peers that are not in a list.
spec fn of_unlisted(ids: Seq<u32>) -> spec_fn((IpNetwork, u32)) -> bool {
    |r: (IpNetwork, u32)| !ids.contains(r.1)
}

pub proof fn lemma_push_contains(s: Seq<u32>, x: u32)
    ensures
        forall|y: u32| #[trigger] s.push(x).contains(y) == (s.contains(y) || y == x),
{
    assert forall|y: u32| #[trigger] s.push(x).contains(y) == (s.contains(y) || y == x) by {
        if s.contains(y) {
            let k = choose|k: int| 0 <= k < s.len() && s[k] == y;
            assert(s.push(x)[k] == y);
        }
        if y == x {
            assert(s.push(x)[s.len() as int] == y);
        }
    }
}

/// Whether `peer` is what a finished handshake makes of the owner of `cert`.
pub open spec fn is_new_peer(
    peer: PeerState,
    our_id: u32,
    id: u32,
    sk: Seq<u8>,
    cert: Cert,
    addr: SocketAddr,
    is_relay: bool,
    tx_session_id: u32,
    rx_session_id: u32,
    now: u64,
) -> bool {
    &&& peer.name@ == cert.body.meta.name@
    &&& peer.cert == cert
    &&& peer.tx_key@ == traffic_key_of(sk, our_id, id)
    &&& peer.rx_key@ == traffic_key_of(sk, id, our_id)
    &&& peer.addr == addr
    &&& peer.is_relay == is_relay
    &&& peer.tx_session_id == tx_session_id
    &&& peer.rx_session_id == rx_session_id
    &&& peer.tx_seq == 0
    &&& !peer.rx_replay.initialized
    &&& peer.last_seen == now
    &&& is_authorized_list(peer.routes@, cert)
}

/// A copy of a list of networks.
fn copy_networks(networks: &Vec<IpNetwork>) -> (r: Vec<IpNetwork>)
    ensures
        r@ == networks@,
{
    let mut out: Vec<IpNetwork> = Vec::with_capacity(networks.len());
    let mut i: usize = 0;
    while i < networks.len()
        invariant
            i <= networks@.len(),
            out@ == networks@.take(i as int),
        decreases networks@.len() - i,
    {
        out.push(networks[i]);
        i = i + 1;
        assert(out@ =~= networks@.take(i as int));
    }
    assert(out@ =~= networks@);
    out
}

/// A packet for an endpoint; it is missing where it would be too long to be encrypted.
pub struct Outgoing {
    pub addr: SocketAddr,
    pub wire: Option<Vec<u8>>,
}

/// What a packet for a peer says, and how it is encrypted.
pub struct Message {
    pub addr: SocketAddr,
    pub dst_peer_id: u32,
    pub session_id: u32,
    pub key: Seq<u8>,
    pub body: Body,
}

/// Whether `wire` is a packet that carries the message.
pub open spec fn is_packet(wire: Seq<u8>, message: Message, network_key: Seq<u8>) -> bool {
    exists|pkt: DataPacket|
        {
            &&& wire == #[trigger] pkt.wire()
            &&& pkt.carries(message.body, message.dst_peer_id, message.session_id, network_key, message.key)
        }
}

/// Whether `out` sends the message.
pub open spec fn sends(out: Outgoing, message: Message, network_key: Seq<u8>) -> bool {
    &&& out.addr == message.addr
    &&& out.wire is Some == message.body.sealable()
    &&& out.wire matches Some(wire) ==> is_packet(wire@, message, network_key)
}

/// Whether `out` sends the messages one after the other.
pub open spec fn sends_all(out: Seq<Outgoing>, messages: Seq<Message>, network_key: Seq<u8>) -> bool {
    &&& out.len() == messages.len()
    &&& forall|i: int| 0 <= i < out.len() ==> sends(#[trigger] out[i], messages[i], network_key)
}

/// A body on its way to a peer, under the peer's current keys.
pub open spec fn message_to(id: u32, peer: PeerState, body: Body) -> Message {
    Message { addr: peer.addr, dst_peer_id: id, session_id: peer.tx_session_id, key: peer.tx_key@, body }
}

} // verus!
