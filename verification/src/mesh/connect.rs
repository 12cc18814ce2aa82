//! Handshakes with peers: answering, finishing, and falling back to a relay.
use crate::addr::{IpNetwork, SocketAddr};
use crate::bytes::to_vec;
use crate::cert::{node_id, node_id_from_cert, Cert};
use crate::handshake::{
    is_completion, is_outcome_1, process_handshake_1_at, process_handshake_2_at, second_error, HandshakeError,
    HandshakeInitiate, HandshakeResponse, HandshakeResult,
};
use crate::mesh::{is_new_peer, keys_of, seconds_since, Identity, Mesh, MeshState, PeerState, PendingHandshake};
use vstd::prelude::*;

verus! {

broadcast use vstd::std_specs::hash::group_hash_axioms;

/// A handshake that is not answered is given up after this many times the time after which
/// a relay is tried.
pub const GIVE_UP_FACTOR: u64 = 6;

/// No handshake is given up before this many seconds.
pub const GIVE_UP_MIN_SECS: u64 = 60;

/// A peer that a first message has made known, and the answer for it.
pub struct Answer {
    pub peer_id: u32,
    pub msg: Vec<u8>,
    pub routes: Vec<IpNetwork>,
}

/// A peer that the answer to a first message has made known.
pub struct Joined {
    pub peer_id: u32,
    pub routes: Vec<IpNetwork>,
}

/// Why an answer does not finish a handshake.
#[derive(Debug, Clone, Copy, PartialEq, Eq, Structural)]
pub enum JoinError {
    /// No handshake waits for the answer.
    NoPending,
    Handshake(HandshakeError),
}

/// What is done about a lighthouse from time to time.
#[derive(Debug, Clone, Copy, PartialEq, Eq, Structural)]
pub enum Punch {
    Keepalive,
    Skip,
    Handshake,
}

/// A handshake that is to be tried through a relay.
pub struct RelayCandidate {
    pub session_id: u32,
    pub peer_id: u32,
    pub peer_name: String,
    pub msg: Vec<u8>,
}

/// After how many seconds a handshake that is not answered is given up.
pub open spec fn give_up_after(timeout: u64) -> int {
    if timeout * GIVE_UP_FACTOR > u64::MAX {
        u64::MAX as int
    } else if timeout * GIVE_UP_FACTOR > GIVE_UP_MIN_SECS {
        timeout * GIVE_UP_FACTOR
    } else {
        GIVE_UP_MIN_SECS as int
    }
}

impl MeshState {
    /// The state with a peer that a handshake from `addr` has made known.
    pub open spec fn joined(self, id: u32, peer: PeerState, addr: SocketAddr) -> MeshState {
        MeshState { established: self.established.insert(addr), ..self.with_peer(id, peer) }
    }

    /// Whether `after` and `r` are what the first message `packet`, which gave `outcome`,
    /// leads to.
    pub open spec fn answered(
        self,
        ident: Identity,
        src: SocketAddr,
        now: u64,
        outcome: Result<HandshakeResponse, HandshakeError>,
        after: MeshState,
        r: Result<Answer, HandshakeError>,
    ) -> bool {
        match outcome {
            Err(e) => after == self && r == Err::<Answer, HandshakeError>(e),
            Ok(resp) => {
                let id = node_id(resp.peer_cert.body.keys);
                &&& r matches Ok(answer) && answer.peer_id == id && answer.msg@ == resp.msg@ && exists|peer: PeerState|
                    {
                        &&& after == #[trigger] self.joined(id, peer, src)
                        &&& is_new_peer(
                            peer,
                            ident.our_id,
                            id,
                            resp.session_key@,
                            resp.peer_cert,
                            src,
                            resp.peer_is_relay,
                            resp.peer_rx_session_id,
                            resp.my_rx_session_id,
                            now,
                        )
                        &&& answer.routes@ == peer.routes@
                    }
            },
        }
    }

    /// Whether `after` and `r` are what the answer to a first message, which gave
    /// `outcome`, leads to.
    pub open spec fn finished(
        self,
        ident: Identity,
        src: SocketAddr,
        now: u64,
        outcome: Result<HandshakeResult, HandshakeError>,
        after: MeshState,
        r: Result<Joined, JoinError>,
    ) -> bool {
        match outcome {
            Err(e) => after == self && r == Err::<Joined, JoinError>(JoinError::Handshake(e)),
            Ok(result) => {
                let id = node_id(result.peer_cert.body.keys);
                &&& r matches Ok(joined) && joined.peer_id == id && exists|peer: PeerState|
                    {
                        &&& after == #[trigger] self.joined(id, peer, src)
                        &&& is_new_peer(
                            peer,
                            ident.our_id,
                            id,
                            result.session_key@,
                            result.peer_cert,
                            src,
                            result.peer_is_relay,
                            result.peer_rx_session_id,
                            result.my_rx_session_id,
                            now,
                        )
                        &&& joined.routes@ == peer.routes@
                    }
            },
        }
    }

    /// Whether `after` and `r` are what an answer to the handshake that would open a session
    /// leads to. The handshake is over, whatever becomes of the answer.
    pub open spec fn answer_taken(
        self,
        ident: Identity,
        src: SocketAddr,
        packet: Seq<u8>,
        session_id: u32,
        peer_cert: Option<Cert>,
        now: u64,
        after: MeshState,
        r: Result<Joined, JoinError>,
    ) -> bool {
        if !self.pending.contains_key(session_id) {
            after == self && r == Err::<Joined, JoinError>(JoinError::NoPending)
        } else {
            let initiate = self.pending[session_id].initiate;
            let error = second_error(packet, initiate.msg@, ident.network_key@, peer_cert, ident.ca_vk, now);
            exists|outcome: Result<HandshakeResult, HandshakeError>|
                {
                    &&& outcome is Err == error is Some
                    &&& outcome matches Err(e) ==> error == Some(e)
                    &&& outcome matches Ok(result) ==> is_completion(
                        result,
                        packet,
                        peer_cert,
                        initiate,
                        ident.network_key@,
                    )
                    &&& #[trigger] self.without_pending(session_id).finished(ident, src, now, outcome, after, r)
                }
        }
    }

    /// The state without the handshake that would open a session.
    pub open spec fn without_pending(self, session_id: u32) -> MeshState {
        MeshState { pending: self.pending.remove(session_id), ..self }
    }

    /// Whether a handshake under way is kept.
    pub open spec fn still_pending(self, session_id: u32, timeout: u64, now: u64) -> bool {
        &&& self.pending.contains_key(session_id)
        &&& seconds_since(self.pending[session_id].sent_at, now) <= give_up_after(timeout)
    }

    /// Whether a handshake under way is to be tried through a relay: its peer is known by
    /// number, it has waited long enough, and no relay was tried yet.
    pub open spec fn wants_relay(self, session_id: u32, timeout: u64, now: u64) -> bool {
        &&& self.still_pending(session_id, timeout, now)
        &&& self.pending[session_id].peer_id is Some
        &&& !self.pending[session_id].relay_attempted
        &&& seconds_since(self.pending[session_id].sent_at, now) >= timeout
    }

    /// The state after a handshake was tried through a relay.
    pub open spec fn relayed(self, session_id: u32, relay_addr: SocketAddr, now: u64) -> MeshState {
        if self.pending.contains_key(session_id) && !self.pending[session_id].relay_attempted {
            let waiting = self.pending[session_id];
            MeshState {
                pending: self.pending.insert(
                    session_id,
                    PendingHandshake { addr: relay_addr, sent_at: now, relay_attempted: true, ..waiting },
                ),
                ..self
            }
        } else {
            self
        }
    }

    /// Whether `r` lists the handshakes that are to be tried through a relay, each once.
    pub open spec fn offers(self, timeout: u64, now: u64, r: Seq<RelayCandidate>) -> bool {
        &&& forall|i: int| 0 <= i < r.len() ==> self.is_candidate(#[trigger] r[i])
        &&& forall|i: int| 0 <= i < r.len() ==> self.wants_relay((#[trigger] r[i]).session_id, timeout, now)
        &&& forall|s: u32| #[trigger]
            self.wants_relay(s, timeout, now) ==> exists|i: int| 0 <= i < r.len() && (#[trigger] r[i]).session_id == s
        &&& forall|i: int, j: int|
            #![trigger r[i], r[j]]
            0 <= i < j < r.len() ==> r[i].session_id != r[j].session_id
    }

    /// Whether `after` is the state without the handshakes that have waited too long.
    pub open spec fn given_up(self, timeout: u64, now: u64, after: MeshState) -> bool {
        &&& forall|s: u32| #[trigger] after.pending.contains_key(s) == self.still_pending(s, timeout, now)
        &&& forall|s: u32| #[trigger] after.pending.contains_key(s) ==> after.pending[s] == self.pending[s]
        &&& after == (MeshState { pending: after.pending, ..self })
    }

    /// The state with a handshake whose first message was sent to `addr`.
    pub open spec fn awaiting(
        self,
        initiate: HandshakeInitiate,
        addr: SocketAddr,
        peer_id: Option<u32>,
        peer_name: String,
        now: u64,
    ) -> MeshState {
        MeshState {
            pending: self.pending.insert(
                initiate.my_rx_session_id,
                PendingHandshake { initiate, addr, peer_id, peer_name, sent_at: now, relay_attempted: false },
            ),
            ..self
        }
    }

    /// What is done about a lighthouse at `addr`.
    pub open spec fn punch_at(self, addr: SocketAddr, keepalive_punch: bool) -> Punch {
        if !self.established.contains(addr) {
            Punch::Handshake
        } else if keepalive_punch {
            Punch::Keepalive
        } else {
            Punch::Skip
        }
    }

    /// Whether `r` is a connected relay for a peer that is not connected, or `None` where the
    /// peer is connected or no relay is.
    pub open spec fn is_relay_for(self, target: u32, r: Option<(u32, SocketAddr)>) -> bool {
        &&& self.peers.contains_key(target) ==> r is None
        &&& r matches Some((id, addr)) ==> {
            &&& self.peers.contains_key(id)
            &&& self.peers[id].is_relay
            &&& id != target
            &&& addr == self.peers[id].addr
        }
        &&& r is None && !self.peers.contains_key(target) ==> forall|id: u32| #[trigger]
            self.peers.contains_key(id) ==> !self.peers[id].is_relay
    }

    /// Whether a candidate is the handshake that would open its session.
    pub open spec fn is_candidate(self, c: RelayCandidate) -> bool {
        &&& self.pending.contains_key(c.session_id)
        &&& self.pending[c.session_id].peer_id == Some(c.peer_id)
        &&& self.pending[c.session_id].peer_name@ == c.peer_name@
        &&& self.pending[c.session_id].initiate.msg@ == c.msg@
    }
}

impl Mesh {
    /// Adds an endpoint to those with an established handshake.
    fn note_endpoint(&mut self, addr: SocketAddr)
        requires
            old(self).wf(),
        ensures
            final(self).wf(),
            final(self)@ == (MeshState { established: old(self)@.established.insert(addr), ..old(self)@ }),
    {
        let ghost before = self.established@;
        if self.is_established(addr) {
            assert(before.to_set() =~= before.to_set().insert(addr));
            return;
        }
        self.established.push(addr);
        proof {
            assert forall|a: SocketAddr| #[trigger] before.push(addr).contains(a) == (before.contains(a) || a == addr) by {
                if before.contains(a) {
                    let k = choose|k: int| 0 <= k < before.len() && before[k] == a;
                    assert(before.push(addr)[k] == a);
                }
                if a == addr {
                    assert(before.push(addr)[before.len() as int] == a);
                }
            }
            assert(self.established@.to_set() =~= before.to_set().insert(addr));
        }
    }

    /// Whether an endpoint has an established handshake.
    pub fn is_established(&self, addr: SocketAddr) -> (r: bool)
        ensures
            r == self@.established.contains(addr),
    {
        let mut i: usize = 0;
        while i < self.established.len()
            invariant
                i <= self.established@.len(),
                forall|j: int| 0 <= j < i ==> self.established@[j] != addr,
            decreases self.established@.len() - i,
        {
            if self.established[i] == addr {
                assert(self.established@.contains(addr));
                return true;
            }
            i = i + 1;
        }
        false
    }

    /// Processes a first message that came from `src`: the sender becomes a peer, and gets
    /// an answer. `peer_cert` is what the message's certificate field reads as.
    #[verifier::rlimit(60)]
    #[verifier::spinoff_prover]
    pub fn on_handshake_1(
        &mut self,
        ident: &Identity,
        src: SocketAddr,
        packet: &[u8],
        peer_cert: Option<Cert>,
        now: u64,
    ) -> (r: Result<Answer, HandshakeError>)
        requires
            old(self).wf(),
        ensures
            final(self).wf(),
            exists|outcome: Result<HandshakeResponse, HandshakeError>|
                {
                    &&& is_outcome_1(
                        outcome,
                        packet@,
                        peer_cert,
                        ident.cert,
                        ident.signing_key.hybrid(),
                        ident.network_key@,
                        ident.ca_vk,
                        ident.am_relay,
                        now,
                    )
                    &&& #[trigger] old(self)@.answered(*ident, src, now, outcome, final(self)@, r)
                },
    {
        let outcome = process_handshake_1_at(
            packet,
            peer_cert,
            &ident.cert,
            &ident.signing_key,
            &ident.network_key,
            &ident.ca_vk,
            ident.am_relay,
            now,
        );
        let ghost result = outcome;
        let resp = match outcome {
            Ok(resp) => resp,
            Err(e) => {
                assert(old(self)@.answered(*ident, src, now, result, self@, Err(e)));
                return Err(e);
            },
        };
        let ghost before = self@;
        let peer_id: u32 = node_id_from_cert(&resp.peer_cert);
        let routes = self.add_peer(
            ident.our_id,
            peer_id,
            resp.session_key,
            resp.peer_cert,
            src,
            resp.peer_is_relay,
            resp.peer_rx_session_id,
            resp.my_rx_session_id,
            now,
        );
        let ghost peer = choose|peer: PeerState|
            {
                &&& self@ == #[trigger] before.with_peer(peer_id, peer)
                &&& is_new_peer(
                    peer,
                    ident.our_id,
                    peer_id,
                    resp.session_key@,
                    resp.peer_cert,
                    src,
                    resp.peer_is_relay,
                    resp.peer_rx_session_id,
                    resp.my_rx_session_id,
                    now,
                )
                &&& routes@ == peer.routes@
            };
        self.note_endpoint(src);
        let r = Ok(Answer { peer_id, msg: resp.msg, routes });
        assert(self@ == before.joined(peer_id, peer, src));
        assert(before.answered(*ident, src, now, result, self@, r));
        r
    }

    /// Processes the answer to the handshake that would open the session `session_id`. The
    /// handshake is over, whatever becomes of the answer.
    #[verifier::rlimit(60)]
    #[verifier::spinoff_prover]
    pub fn on_handshake_2(
        &mut self,
        ident: &Identity,
        src: SocketAddr,
        packet: &[u8],
        session_id: u32,
        peer_cert: Option<Cert>,
        now: u64,
    ) -> (r: Result<Joined, JoinError>)
        requires
            old(self).wf(),
        ensures
            final(self).wf(),
            old(self)@.answer_taken(*ident, src, packet@, session_id, peer_cert, now, final(self)@, r),
    {
        let waiting = match self.pending.remove(&session_id) {
            Some(waiting) => waiting,
            None => {
                assert(self@.pending =~= old(self)@.pending);
                return Err(JoinError::NoPending);
            },
        };
        let ghost before = self@;
        assert(before.pending =~= old(self)@.pending.remove(session_id));
        assert(before == old(self)@.without_pending(session_id));
        let outcome = process_handshake_2_at(
            packet,
            peer_cert,
            waiting.initiate,
            &ident.network_key,
            &ident.ca_vk,
            now,
        );
        let ghost result = outcome;
        let done = match outcome {
            Ok(done) => done,
            Err(e) => {
                assert(before.finished(*ident, src, now, result, self@, Err(JoinError::Handshake(e))));
                return Err(JoinError::Handshake(e));
            },
        };
        let peer_id: u32 = node_id_from_cert(&done.peer_cert);
        let routes = self.add_peer(
            ident.our_id,
            peer_id,
            done.session_key,
            done.peer_cert,
            src,
            done.peer_is_relay,
            done.peer_rx_session_id,
            done.my_rx_session_id,
            now,
        );
        let ghost peer = choose|peer: PeerState|
            {
                &&& self@ == #[trigger] before.with_peer(peer_id, peer)
                &&& is_new_peer(
                    peer,
                    ident.our_id,
                    peer_id,
                    done.session_key@,
                    done.peer_cert,
                    src,
                    done.peer_is_relay,
                    done.peer_rx_session_id,
                    done.my_rx_session_id,
                    now,
                )
                &&& routes@ == peer.routes@
            };
        self.note_endpoint(src);
        let r = Ok(Joined { peer_id, routes });
        assert(self@ == before.joined(peer_id, peer, src));
        assert(before.finished(*ident, src, now, result, self@, r));
        r
    }

    /// Notes that a first message was sent to `addr`, to be answered.
    pub fn await_answer(
        &mut self,
        initiate: HandshakeInitiate,
        addr: SocketAddr,
        peer_id: Option<u32>,
        peer_name: String,
        now: u64,
    )
        requires
            old(self).wf(),
        ensures
            final(self).wf(),
            final(self)@ == old(self)@.awaiting(initiate, addr, peer_id, peer_name, now),
    {
        let session_id: u32 = initiate.my_rx_session_id;
        let waiting = PendingHandshake { initiate, addr, peer_id, peer_name, sent_at: now, relay_attempted: false };
        self.pending.insert(session_id, waiting);
    }

    /// What is done about a lighthouse at `addr`.
    pub fn punch(&self, addr: SocketAddr, keepalive_punch: bool) -> (r: Punch)
        ensures
            r == self@.punch_at(addr, keepalive_punch),
    {
        if !self.is_established(addr) {
            Punch::Handshake
        } else if keepalive_punch {
            Punch::Keepalive
        } else {
            Punch::Skip
        }
    }

    /// A connected relay through which a peer can be reached that is not connected itself.
    pub fn relay_for(&self, target: u32) -> (r: Option<(u32, SocketAddr)>)
        ensures
            self@.is_relay_for(target, r),
    {
        if self.peers.contains_key(&target) {
            return None;
        }
        let ids = keys_of(&self.peers);
        let mut i: usize = 0;
        while i < ids.len()
            invariant
                i <= ids@.len(),
                forall|id: u32| #[trigger] ids@.contains(id) == self@.peers.contains_key(id),
                !self@.peers.contains_key(target),
                forall|j: int| 0 <= j < i ==> !self@.peers[#[trigger] ids@[j]].is_relay,
            decreases ids@.len() - i,
        {
            let id: u32 = ids[i];
            assert(ids@.contains(id));
            if let Some(peer) = self.peers.get(&id) {
                if peer.is_relay {
                    return Some((id, peer.addr));
                }
            }
            i = i + 1;
        }
        assert forall|id: u32| #[trigger] self@.peers.contains_key(id) implies !self@.peers[id].is_relay by {
            assert(ids@.contains(id));
            let j = choose|j: int| 0 <= j < ids@.len() && ids@[j] == id;
            assert(!self@.peers[ids@[j]].is_relay);
        }
        None
    }

    /// Notes that a handshake was tried through a relay at `relay_addr`.
    pub fn mark_relayed(&mut self, session_id: u32, relay_addr: SocketAddr, now: u64)
        requires
            old(self).wf(),
        ensures
            final(self).wf(),
            final(self)@ == old(self)@.relayed(session_id, relay_addr, now),
    {
        let ghost before = self@;
        match self.pending.remove(&session_id) {
            Some(waiting) => {
                let mut waiting = waiting;
                if !waiting.relay_attempted {
                    waiting.addr = relay_addr;
                    waiting.sent_at = now;
                    waiting.relay_attempted = true;
                    self.pending.insert(session_id, waiting);
                    assert(self@.pending =~= before.pending.insert(session_id, self@.pending[session_id]));
                } else {
                    self.pending.insert(session_id, waiting);
                    assert(self@.pending =~= before.pending);
                }
            },
            None => {
                assert(self@.pending =~= before.pending);
            },
        }
    }

    /// Gives up the handshakes that have waited too long, and returns those that are to be
    /// tried through a relay.
    #[verifier::rlimit(60)]
    #[verifier::spinoff_prover]
    pub fn relay_candidates(&mut self, timeout: u64, now: u64) -> (r: Vec<RelayCandidate>)
        requires
            old(self).wf(),
        ensures
            final(self).wf(),
            old(self)@.given_up(timeout, now, final(self)@),
            old(self)@.offers(timeout, now, r@),
    {
        let ghost before = self@;
        let limit: u64 = match timeout.checked_mul(GIVE_UP_FACTOR) {
            Some(limit) => if limit > GIVE_UP_MIN_SECS { limit } else { GIVE_UP_MIN_SECS },
            None => u64::MAX,
        };
        let ids = keys_of(&self.pending);
        let mut out: Vec<RelayCandidate> = Vec::new();
        let mut i: usize = 0;
        while i < ids.len()
            invariant
                limit == give_up_after(timeout),
                self.wf(),
                i <= ids@.len(),
                ids@.no_duplicates(),
                forall|s: u32| #[trigger] ids@.contains(s) == before.pending.contains_key(s),
                self@ == (MeshState { pending: self@.pending, ..before }),
                forall|s: u32| #[trigger]
                    self@.pending.contains_key(s) == (before.pending.contains_key(s) && (ids@.take(i as int).contains(s)
                        ==> before.still_pending(s, timeout, now))),
                forall|s: u32| #[trigger] self@.pending.contains_key(s) ==> self@.pending[s] == before.pending[s],
                forall|k: int| 0 <= k < out@.len() ==> before.is_candidate(#[trigger] out@[k]),
                forall|k: int|
                    0 <= k < out@.len() ==> {
                        &&& before.wants_relay((#[trigger] out@[k]).session_id, timeout, now)
                        &&& ids@.take(i as int).contains(out@[k].session_id)
                    },
                forall|s: u32| #[trigger]
                    before.wants_relay(s, timeout, now) && ids@.take(i as int).contains(s) ==> exists|k: int|
                        0 <= k < out@.len() && (#[trigger] out@[k]).session_id == s,
                forall|a: int, b: int|
                    #![trigger out@[a], out@[b]]
                    0 <= a < b < out@.len() ==> out@[a].session_id != out@[b].session_id,
            decreases ids@.len() - i,
        {
            let session_id: u32 = ids[i];
            let ghost done = ids@.take(i as int);
            let ghost listed = out@;
            proof {
                assert(ids@.contains(session_id));
                assert(!done.contains(session_id));
                assert(ids@.take(i + 1) =~= done.push(session_id));
                crate::mesh::lemma_push_contains(done, session_id);
                assert(self@.pending.contains_key(session_id));
            }
            let mut keep = true;
            if let Some(waiting) = self.pending.get(&session_id) {
                let age: u64 = now.saturating_sub(waiting.sent_at);
                keep = age <= limit;
                if let Some(peer_id) = waiting.peer_id {
                    if keep && !waiting.relay_attempted && age >= timeout {
                        out.push(
                            RelayCandidate {
                                session_id,
                                peer_id,
                                peer_name: waiting.peer_name.clone(),
                                msg: to_vec(waiting.initiate.msg.as_slice()),
                            },
                        );
                    }
                }
            }
            if !keep {
                self.pending.remove(&session_id);
            }
            proof {
                assert forall|s: u32| #[trigger]
                    before.wants_relay(s, timeout, now) && ids@.take(i + 1).contains(s) implies exists|k: int|
                    0 <= k < out@.len() && (#[trigger] out@[k]).session_id == s by {
                    if done.contains(s) {
                        let k = choose|k: int| 0 <= k < listed.len() && (#[trigger] listed[k]).session_id == s;
                        assert(out@[k] == listed[k]);
                    } else {
                        assert(s == session_id);
                        assert(out@[listed.len() as int].session_id == s);
                    }
                }
            }
            i = i + 1;
        }
        assert(ids@.take(i as int) =~= ids@);
        assert forall|s: u32| #[trigger] before.wants_relay(s, timeout, now) implies exists|k: int|
            0 <= k < out@.len() && (#[trigger] out@[k]).session_id == s by {
            assert(ids@.contains(s));
        }
        out
    }
}

} // verus!
