//! Fragments: splitting a message into datagrams and putting it together again.
pub mod room;

use crate::addr::SocketAddr;
use crate::bytes::{be32, from_be32, lemma_be32, put_slice, put_u32, to_vec};
use crate::crypto::aead::PLAINTEXT_LIMIT;
use crate::crypto::random::random_u32;
use crate::crypto::K_HEADER_LEN;
use crate::handshake::{
    handshake_header, handshake_payload, is_sealed_handshake, law_sealed_handshake_opens, open_handshake,
    opened_handshake, seal_handshake_to_peer, well_framed, FRAG_PREFIX_LEN, KIND_HANDSHAKE_FRAG,
};
use crate::packet::{DataPacket, PACKET_OVERHEAD};
use vstd::arithmetic::div_mod::lemma_fundamental_div_mod;
use vstd::prelude::*;

verus! {

/// Fallback for the largest UDP payload, below the usual smallest path MTU of IPv6.
pub const DEFAULT_MAX_DATAGRAM: usize = 1200;

/// The smallest useful UDP payload: the overhead of a fragment and one byte.
pub const MIN_DATAGRAM: usize = PACKET_OVERHEAD + 1;

/// A message that is not complete after this many seconds is given up.
pub const CLEANUP_AGE_SECS: u64 = 30;

pub const NANOS_PER_SEC: u64 = 1_000_000_000;

pub const MAX_PENDING_MESSAGES: usize = 1024;

pub const MAX_PENDING_MESSAGES_PER_SOURCE: usize = 32;

pub const MAX_BUFFERED_BYTES: usize = 4_194_304;

pub const MAX_BUFFERED_BYTES_PER_SOURCE: usize = 524_288;

pub const MAX_FRAGMENTED_MESSAGE_BYTES: usize = 524_288;

/// What became of a datagram that was fed to the assembler.
pub enum FeedResult {
    Complete(Vec<u8>),
    Buffered,
    NotFragment,
}

/// The mathematical value of a `FeedResult`.
pub enum Fed {
    Complete(Seq<u8>),
    Buffered,
    NotFragment,
}

impl View for FeedResult {
    type V = Fed;

    open spec fn view(&self) -> Fed {
        match *self {
            FeedResult::Complete(message) => Fed::Complete(message@),
            FeedResult::Buffered => Fed::Buffered,
            FeedResult::NotFragment => Fed::NotFragment,
        }
    }
}

/// Why a message cannot be split.
#[derive(Debug, Clone, Copy, PartialEq, Eq, Structural)]
pub enum FragmentError {
    /// The datagram limit leaves no room for data.
    DatagramTooSmall,
    /// The message takes more than 255 chunks.
    TooManyChunks,
}

struct PendingMessage {
    src: SocketAddr,
    msg_id: u32,
    chunks: Vec<Option<Vec<u8>>>,
    started: u64,
    bytes: usize,
}

/// A message of which some chunks have arrived. `started` is when the first came, in
/// nanoseconds.
pub struct Pending {
    pub src: SocketAddr,
    pub msg_id: u32,
    pub chunks: Seq<Option<Seq<u8>>>,
    pub started: u64,
}

spec fn chunk_view(chunk: Option<Vec<u8>>) -> Option<Seq<u8>> {
    match chunk {
        Some(bytes) => Some(bytes@),
        None => None,
    }
}

spec fn pending_view(m: PendingMessage) -> Pending {
    Pending {
        src: m.src,
        msg_id: m.msg_id,
        chunks: m.chunks@.map_values(|c: Option<Vec<u8>>| chunk_view(c)),
        started: m.started,
    }
}

/// The sum of a sequence of numbers.
pub open spec fn sum(s: Seq<nat>) -> nat
    decreases s.len(),
{
    if s.len() == 0 {
        0
    } else {
        sum(s.drop_last()) + s.last()
    }
}

/// The bytes of a chunk, which may not have arrived.
pub open spec fn chunk_len(chunk: Option<Seq<u8>>) -> nat {
    match chunk {
        Some(bytes) => bytes.len(),
        None => 0,
    }
}

/// The lengths of the chunks of a message.
pub open spec fn chunk_lens(chunks: Seq<Option<Seq<u8>>>) -> Seq<nat> {
    chunks.map_values(|c: Option<Seq<u8>>| chunk_len(c))
}

impl Pending {
    /// The bytes that have arrived of the message.
    pub open spec fn bytes(self) -> nat {
        sum(chunk_lens(self.chunks))
    }

    /// Whether every chunk has arrived.
    pub open spec fn complete(self) -> bool {
        forall|i: int| 0 <= i < self.chunks.len() ==> (#[trigger] self.chunks[i]) is Some
    }
}

/// The bytes that have arrived of each message.
pub open spec fn all_bytes(pending: Seq<Pending>) -> Seq<nat> {
    pending.map_values(|m: Pending| m.bytes())
}

/// The bytes that have arrived of each message from `src`, and zero for the others.
pub open spec fn bytes_from(pending: Seq<Pending>, src: SocketAddr) -> Seq<nat> {
    pending.map_values(
        |m: Pending|
            if m.src == src {
                m.bytes()
            } else {
                0nat
            },
    )
}

/// One for each message from `src`, and zero for the others.
pub open spec fn count_from(pending: Seq<Pending>, src: SocketAddr) -> Seq<nat> {
    pending.map_values(
        |m: Pending|
            if m.src == src {
                1nat
            } else {
                0nat
            },
    )
}

/// The place of the message with the given source and number among those pending; past
/// the end if there is none.
pub open spec fn place(pending: Seq<Pending>, src: SocketAddr, msg_id: u32) -> int
    decreases pending.len(),
{
    if pending.len() == 0 {
        0
    } else if pending[0].src == src && pending[0].msg_id == msg_id {
        0
    } else {
        1 + place(pending.drop_first(), src, msg_id)
    }
}

/// A message of which nothing has arrived.
pub open spec fn fresh(src: SocketAddr, msg_id: u32, total: nat, now: u64) -> Pending {
    Pending { src, msg_id, chunks: Seq::new(total, |i: int| None), started: now }
}

/// The chunks of a message, one after the other.
pub open spec fn assembled(chunks: Seq<Option<Seq<u8>>>) -> Seq<u8>
    decreases chunks.len(),
{
    if chunks.len() == 0 {
        Seq::empty()
    } else {
        assembled(chunks.drop_last()) + (match chunks.last() {
            Some(bytes) => bytes,
            None => Seq::empty(),
        })
    }
}

/// How many bytes more are held once `chunk` takes the place of `old`.
pub open spec fn growth(old: Option<Seq<u8>>, chunk: Seq<u8>) -> nat {
    if chunk.len() > chunk_len(old) {
        (chunk.len() - chunk_len(old)) as nat
    } else {
        0
    }
}

/// What becomes of the pending messages when a chunk of a message that is at place `k`
/// arrives.
pub open spec fn stored(pending: Seq<Pending>, k: int, idx: int, total: nat, chunk: Seq<u8>) -> (Seq<Pending>, Fed) {
    let m = pending[k];
    if m.chunks.len() != total {
        (pending.remove(k), Fed::Buffered)
    } else {
        let more = growth(m.chunks[idx], chunk);
        let filled = Pending { chunks: m.chunks.update(idx, Some(chunk)), ..m };
        if m.bytes() + more > MAX_FRAGMENTED_MESSAGE_BYTES {
            (pending.remove(k), Fed::Buffered)
        } else if sum(all_bytes(pending)) + more > MAX_BUFFERED_BYTES || sum(bytes_from(pending, m.src)) + more
            > MAX_BUFFERED_BYTES_PER_SOURCE {
            (pending, Fed::Buffered)
        } else if filled.complete() {
            (pending.remove(k), Fed::Complete(assembled(filled.chunks)))
        } else {
            (pending.update(k, filled), Fed::Buffered)
        }
    }
}

/// What becomes of the pending messages when a chunk arrives: a chunk of a new message
/// makes room for it, unless there are too many messages already.
pub open spec fn received(
    pending: Seq<Pending>,
    src: SocketAddr,
    msg_id: u32,
    idx: int,
    total: nat,
    chunk: Seq<u8>,
    now: u64,
) -> (Seq<Pending>, Fed) {
    let k = place(pending, src, msg_id);
    if chunk.len() > MAX_FRAGMENTED_MESSAGE_BYTES {
        (pending, Fed::Buffered)
    } else if k < pending.len() {
        stored(pending, k, idx, total, chunk)
    } else if pending.len() >= MAX_PENDING_MESSAGES || sum(count_from(pending, src))
        >= MAX_PENDING_MESSAGES_PER_SOURCE {
        (pending, Fed::Buffered)
    } else {
        stored(pending.push(fresh(src, msg_id, total, now)), k, idx, total, chunk)
    }
}

/// What becomes of the pending messages when a datagram arrives: one that does not open
/// as a fragment leaves them as they are.
pub open spec fn fed(
    pending: Seq<Pending>,
    src: SocketAddr,
    data: Seq<u8>,
    network_key: Seq<u8>,
    now: u64,
) -> (Seq<Pending>, Fed) {
    match opened_handshake(data, network_key) {
        Some(p) => if p[0] == KIND_HANDSHAKE_FRAG {
            received(pending, src, from_be32(p.skip(1)), p[5] as int, p[6] as nat, p.skip(FRAG_PREFIX_LEN as int), now)
        } else {
            (pending, Fed::NotFragment)
        },
        None => (pending, Fed::NotFragment),
    }
}

/// Whether a pending message is still young enough to be kept.
pub open spec fn is_young(m: Pending, now: u64) -> bool {
    now < m.started || (now - m.started) / (NANOS_PER_SEC as int) < CLEANUP_AGE_SECS
}

/// The test for messages that are young enough to be kept.
pub open spec fn young_at(now: u64) -> spec_fn(Pending) -> bool {
    |m: Pending| is_young(m, now)
}

/// What the assembler keeps to at all times: no message is held twice, none is complete,
/// and neither their number nor their bytes exceed the limits, in all and for each source.
pub open spec fn within_limits(pending: Seq<Pending>) -> bool {
    &&& pending.len() <= MAX_PENDING_MESSAGES
    &&& sum(all_bytes(pending)) <= MAX_BUFFERED_BYTES
    &&& forall|src: SocketAddr|
        {
            &&& #[trigger] sum(count_from(pending, src)) <= MAX_PENDING_MESSAGES_PER_SOURCE
            &&& sum(bytes_from(pending, src)) <= MAX_BUFFERED_BYTES_PER_SOURCE
        }
    &&& forall|i: int|
        0 <= i < pending.len() ==> {
            &&& !(#[trigger] pending[i]).complete()
            &&& pending[i].chunks.len() <= 255
            &&& pending[i].bytes() <= MAX_FRAGMENTED_MESSAGE_BYTES
        }
    &&& forall|i: int, j: int|
        #![trigger pending[i], pending[j]]
        0 <= i < j < pending.len() ==> !(pending[i].src == pending[j].src && pending[i].msg_id == pending[j].msg_id)
}

/// Puts fragmented messages together. Its view is the messages that are not complete, in
/// the order in which their first chunks came.
pub struct FragmentAssembler {
    pending: Vec<PendingMessage>,
    buffered_bytes: usize,
}

impl View for FragmentAssembler {
    type V = Seq<Pending>;

    closed spec fn view(&self) -> Seq<Pending> {
        self.pending@.map_values(|m: PendingMessage| pending_view(m))
    }
}

pub proof fn lemma_sum_push(s: Seq<nat>, x: nat)
    ensures
        sum(s.push(x)) == sum(s) + x,
{
    assert(s.push(x).drop_last() =~= s);
}

proof fn lemma_sum_take(s: Seq<nat>, n: int)
    requires
        0 <= n < s.len(),
    ensures
        sum(s.take(n + 1)) == sum(s.take(n)) + s[n],
{
    assert(s.take(n + 1).drop_last() =~= s.take(n));
}

proof fn lemma_sum_update(s: Seq<nat>, k: int, x: nat)
    requires
        0 <= k < s.len(),
    ensures
        sum(s.update(k, x)) == sum(s) - s[k] + x,
        s[k] <= sum(s),
    decreases s.len(),
{
    let t = s.update(k, x);
    if k == s.len() - 1 {
        assert(t.drop_last() =~= s.drop_last());
    } else {
        assert(t.drop_last() =~= s.drop_last().update(k, x));
        lemma_sum_update(s.drop_last(), k, x);
    }
}

proof fn lemma_sum_remove(s: Seq<nat>, k: int)
    requires
        0 <= k < s.len(),
    ensures
        sum(s.remove(k)) == sum(s) - s[k],
        s[k] <= sum(s),
    decreases s.len(),
{
    let t = s.remove(k);
    if k == s.len() - 1 {
        assert(t =~= s.drop_last());
    } else {
        assert(t.drop_last() =~= s.drop_last().remove(k));
        lemma_sum_remove(s.drop_last(), k);
        assert(t.last() == s.last());
    }
}

proof fn lemma_sum_zeros(s: Seq<nat>)
    requires
        forall|i: int| 0 <= i < s.len() ==> s[i] == 0,
    ensures
        sum(s) == 0,
    decreases s.len(),
{
    if s.len() > 0 {
        lemma_sum_zeros(s.drop_last());
    }
}

/// The sums over the pending messages after one was added, changed or taken out.
proof fn lemma_sums(pending: Seq<Pending>, k: int, m: Pending, src: SocketAddr)
    ensures
        sum(all_bytes(pending.push(m))) == sum(all_bytes(pending)) + m.bytes(),
        sum(bytes_from(pending.push(m), src)) == sum(bytes_from(pending, src)) + (if m.src == src {
            m.bytes()
        } else {
            0
        }),
        sum(count_from(pending.push(m), src)) == sum(count_from(pending, src)) + (if m.src == src {
            1nat
        } else {
            0
        }),
        0 <= k < pending.len() ==> {
            &&& sum(all_bytes(pending.remove(k))) == sum(all_bytes(pending)) - pending[k].bytes()
            &&& sum(bytes_from(pending.remove(k), src)) == sum(bytes_from(pending, src)) - (if pending[k].src == src {
                pending[k].bytes()
            } else {
                0
            })
            &&& sum(count_from(pending.remove(k), src)) == sum(count_from(pending, src)) - (if pending[k].src == src {
                1nat
            } else {
                0
            })
            &&& m.src == pending[k].src ==> {
                &&& sum(all_bytes(pending.update(k, m))) == sum(all_bytes(pending)) - pending[k].bytes() + m.bytes()
                &&& sum(bytes_from(pending.update(k, m), src)) == sum(bytes_from(pending, src)) + (if m.src == src {
                    m.bytes() - pending[k].bytes()
                } else {
                    0
                })
                &&& sum(count_from(pending.update(k, m), src)) == sum(count_from(pending, src))
            }
        },
{
    let a = all_bytes(pending);
    let b = bytes_from(pending, src);
    let c = count_from(pending, src);
    let mb = if m.src == src { m.bytes() } else { 0 };
    let mc = if m.src == src { 1nat } else { 0 };
    assert(all_bytes(pending.push(m)) =~= a.push(m.bytes()));
    assert(bytes_from(pending.push(m), src) =~= b.push(mb));
    assert(count_from(pending.push(m), src) =~= c.push(mc));
    lemma_sum_push(a, m.bytes());
    lemma_sum_push(b, mb);
    lemma_sum_push(c, mc);
    if 0 <= k < pending.len() {
        assert(all_bytes(pending.remove(k)) =~= a.remove(k));
        assert(bytes_from(pending.remove(k), src) =~= b.remove(k));
        assert(count_from(pending.remove(k), src) =~= c.remove(k));
        lemma_sum_remove(a, k);
        lemma_sum_remove(b, k);
        lemma_sum_remove(c, k);
        assert(all_bytes(pending.update(k, m)) =~= a.update(k, m.bytes()));
        assert(bytes_from(pending.update(k, m), src) =~= b.update(k, mb));
        assert(count_from(pending.update(k, m), src) =~= c.update(k, mc));
        lemma_sum_update(a, k, m.bytes());
        lemma_sum_update(b, k, mb);
        lemma_sum_update(c, k, mc);
    }
}

/// The bytes of a message after a chunk took a place.
proof fn lemma_filled_bytes(m: Pending, idx: int, chunk: Seq<u8>)
    requires
        0 <= idx < m.chunks.len(),
    ensures
        (Pending { chunks: m.chunks.update(idx, Some(chunk)), ..m }).bytes() == m.bytes() - chunk_len(m.chunks[idx])
            + chunk.len(),
        chunk_len(m.chunks[idx]) <= m.bytes(),
{
    let lens = chunk_lens(m.chunks);
    assert(chunk_lens(m.chunks.update(idx, Some(chunk))) =~= lens.update(idx, chunk.len()));
    lemma_sum_update(lens, idx, chunk.len());
}

/// Where a message stands.
pub proof fn lemma_place(pending: Seq<Pending>, src: SocketAddr, msg_id: u32)
    ensures
        ({
            let k = place(pending, src, msg_id);
            &&& 0 <= k <= pending.len()
            &&& k < pending.len() ==> pending[k].src == src && pending[k].msg_id == msg_id
            &&& forall|i: int|
                0 <= i < k ==> !((#[trigger] pending[i]).src == src && pending[i].msg_id == msg_id)
        }),
    decreases pending.len(),
{
    if pending.len() > 0 && !(pending[0].src == src && pending[0].msg_id == msg_id) {
        let rest = pending.drop_first();
        lemma_place(rest, src, msg_id);
        let k = place(pending, src, msg_id);
        assert forall|i: int| 0 <= i < k implies !((#[trigger] pending[i]).src == src && pending[i].msg_id
            == msg_id) by {
            if i > 0 {
                assert(rest[i - 1] == pending[i]);
            }
        }
    }
}

pub proof fn lemma_place_is(pending: Seq<Pending>, src: SocketAddr, msg_id: u32, k: int)
    requires
        0 <= k <= pending.len(),
        k < pending.len() ==> pending[k].src == src && pending[k].msg_id == msg_id,
        forall|i: int| 0 <= i < k ==> !((#[trigger] pending[i]).src == src && pending[i].msg_id == msg_id),
    ensures
        place(pending, src, msg_id) == k,
{
    lemma_place(pending, src, msg_id);
    let p = place(pending, src, msg_id);
    if p < k {
        assert(pending[p].src == src);
    }
}

proof fn lemma_remove_within_limits(pending: Seq<Pending>, k: int)
    requires
        within_limits(pending),
        0 <= k < pending.len(),
    ensures
        within_limits(pending.remove(k)),
{
    let after = pending.remove(k);
    lemma_sums(pending, k, pending[k], pending[k].src);
    assert forall|src: SocketAddr|
        {
            &&& #[trigger] sum(count_from(after, src)) <= MAX_PENDING_MESSAGES_PER_SOURCE
            &&& sum(bytes_from(after, src)) <= MAX_BUFFERED_BYTES_PER_SOURCE
        } by {
        lemma_sums(pending, k, pending[k], src);
        assert(sum(count_from(pending, src)) <= MAX_PENDING_MESSAGES_PER_SOURCE);
    }
    assert forall|i: int| 0 <= i < after.len() implies {
        &&& !(#[trigger] after[i]).complete()
        &&& after[i].chunks.len() <= 255
        &&& after[i].bytes() <= MAX_FRAGMENTED_MESSAGE_BYTES
    } by {
        assert(after[i] == pending[if i < k { i } else { i + 1 }]);
    }
    assert forall|i: int, j: int|
        #![trigger after[i], after[j]]
        0 <= i < j < after.len() implies !(after[i].src == after[j].src && after[i].msg_id == after[j].msg_id) by {
        assert(after[i] == pending[if i < k { i } else { i + 1 }]);
        assert(after[j] == pending[if j < k { j } else { j + 1 }]);
    }
}

pub proof fn lemma_fresh_bytes(src: SocketAddr, msg_id: u32, total: nat, now: u64)
    ensures
        fresh(src, msg_id, total, now).bytes() == 0,
        total > 0 ==> !fresh(src, msg_id, total, now).complete(),
{
    let m = fresh(src, msg_id, total, now);
    lemma_sum_zeros(chunk_lens(m.chunks));
    if total > 0 {
        assert(m.chunks[0] is None);
    }
}

proof fn lemma_push_within_limits(pending: Seq<Pending>, src: SocketAddr, msg_id: u32, total: nat, now: u64)
    requires
        within_limits(pending),
        0 < total <= 255,
        place(pending, src, msg_id) == pending.len(),
        pending.len() < MAX_PENDING_MESSAGES,
        sum(count_from(pending, src)) < MAX_PENDING_MESSAGES_PER_SOURCE,
    ensures
        within_limits(pending.push(fresh(src, msg_id, total, now))),
{
    let m = fresh(src, msg_id, total, now);
    let after = pending.push(m);
    lemma_fresh_bytes(src, msg_id, total, now);
    lemma_place(pending, src, msg_id);
    lemma_sums(pending, 0, m, src);
    assert forall|s: SocketAddr|
        {
            &&& #[trigger] sum(count_from(after, s)) <= MAX_PENDING_MESSAGES_PER_SOURCE
            &&& sum(bytes_from(after, s)) <= MAX_BUFFERED_BYTES_PER_SOURCE
        } by {
        lemma_sums(pending, 0, m, s);
        assert(sum(count_from(pending, s)) <= MAX_PENDING_MESSAGES_PER_SOURCE);
    }
    assert forall|i: int| 0 <= i < after.len() implies {
        &&& !(#[trigger] after[i]).complete()
        &&& after[i].chunks.len() <= 255
        &&& after[i].bytes() <= MAX_FRAGMENTED_MESSAGE_BYTES
    } by {
        if i < pending.len() {
            assert(after[i] == pending[i]);
        }
    }
    assert forall|i: int, j: int|
        #![trigger after[i], after[j]]
        0 <= i < j < after.len() implies !(after[i].src == after[j].src && after[i].msg_id == after[j].msg_id) by {
        assert(after[i] == pending[i]);
        if j < pending.len() {
            assert(after[j] == pending[j]);
        }
    }
}

proof fn lemma_stored_within_limits(pending: Seq<Pending>, k: int, idx: int, total: nat, chunk: Seq<u8>)
    requires
        within_limits(pending),
        0 <= k < pending.len(),
        0 <= idx < total,
    ensures
        within_limits(stored(pending, k, idx, total, chunk).0),
{
    lemma_remove_within_limits(pending, k);
    let m = pending[k];
    let after = stored(pending, k, idx, total, chunk).0;
    if m.chunks.len() == total {
        let filled = Pending { chunks: m.chunks.update(idx, Some(chunk)), ..m };
        lemma_filled_bytes(m, idx, chunk);
        if after == pending.update(k, filled) {
            lemma_sums(pending, k, filled, m.src);
            assert forall|s: SocketAddr|
                {
                    &&& #[trigger] sum(count_from(after, s)) <= MAX_PENDING_MESSAGES_PER_SOURCE
                    &&& sum(bytes_from(after, s)) <= MAX_BUFFERED_BYTES_PER_SOURCE
                } by {
                lemma_sums(pending, k, filled, s);
                assert(sum(count_from(pending, s)) <= MAX_PENDING_MESSAGES_PER_SOURCE);
            }
            assert forall|i: int| 0 <= i < after.len() implies {
                &&& !(#[trigger] after[i]).complete()
                &&& after[i].chunks.len() <= 255
                &&& after[i].bytes() <= MAX_FRAGMENTED_MESSAGE_BYTES
            } by {
                if i != k {
                    assert(after[i] == pending[i]);
                }
            }
            assert forall|i: int, j: int|
                #![trigger after[i], after[j]]
                0 <= i < j < after.len() implies !(after[i].src == after[j].src && after[i].msg_id
                == after[j].msg_id) by {
                assert(pending[i].src == after[i].src && pending[j].src == after[j].src);
            }
        }
    }
}

/// A fragment that opens has an index below its total.
pub proof fn lemma_opened_fragment(data: Seq<u8>, network_key: Seq<u8>)
    ensures
        opened_handshake(data, network_key) matches Some(p) ==> {
            &&& p.len() > 0
            &&& p[0] == KIND_HANDSHAKE_FRAG ==> p.len() >= FRAG_PREFIX_LEN && p[5] < p[6]
        },
{
}

/// Whatever datagrams arrive, the assembler stays within its limits.
pub proof fn law_feed_keeps_limits(
    pending: Seq<Pending>,
    src: SocketAddr,
    data: Seq<u8>,
    network_key: Seq<u8>,
    now: u64,
)
    requires
        within_limits(pending),
    ensures
        within_limits(fed(pending, src, data, network_key, now).0),
{
    lemma_opened_fragment(data, network_key);
    if let Some(p) = opened_handshake(data, network_key) {
        if p[0] == KIND_HANDSHAKE_FRAG {
            let msg_id = from_be32(p.skip(1));
            let chunk = p.skip(FRAG_PREFIX_LEN as int);
            lemma_received_within_limits(pending, src, msg_id, p[5] as int, p[6] as nat, chunk, now);
        }
    }
}

proof fn lemma_received_within_limits(
    pending: Seq<Pending>,
    src: SocketAddr,
    msg_id: u32,
    idx: int,
    total: nat,
    chunk: Seq<u8>,
    now: u64,
)
    requires
        within_limits(pending),
        0 <= idx < total <= 255,
    ensures
        within_limits(received(pending, src, msg_id, idx, total, chunk, now).0),
{
    let k = place(pending, src, msg_id);
    lemma_place(pending, src, msg_id);
    if k < pending.len() {
        lemma_stored_within_limits(pending, k, idx, total, chunk);
    } else if pending.len() < MAX_PENDING_MESSAGES && sum(count_from(pending, src)) < MAX_PENDING_MESSAGES_PER_SOURCE {
        lemma_push_within_limits(pending, src, msg_id, total, now);
        lemma_stored_within_limits(pending.push(fresh(src, msg_id, total, now)), k, idx, total, chunk);
    }
}

proof fn lemma_empty_within_limits()
    ensures
        within_limits(Seq::<Pending>::empty()),
{
    let none = Seq::<Pending>::empty();
    assert forall|src: SocketAddr|
        {
            &&& #[trigger] sum(count_from(none, src)) <= MAX_PENDING_MESSAGES_PER_SOURCE
            &&& sum(bytes_from(none, src)) <= MAX_BUFFERED_BYTES_PER_SOURCE
        } by {
        lemma_sum_zeros(count_from(none, src));
        lemma_sum_zeros(bytes_from(none, src));
    }
    lemma_sum_zeros(all_bytes(none));
}

/// A call that changes what the assembler holds.
pub enum Call {
    Feed { src: SocketAddr, data: Seq<u8>, network_key: Seq<u8>, now: u64 },
    Cleanup { now: u64 },
}

/// What becomes of the pending messages when the calls are made one after the other.
pub open spec fn after_calls(pending: Seq<Pending>, calls: Seq<Call>) -> Seq<Pending>
    decreases calls.len(),
{
    if calls.len() == 0 {
        pending
    } else {
        let before = after_calls(pending, calls.drop_last());
        match calls.last() {
            Call::Feed { src, data, network_key, now } => fed(before, src, data, network_key, now).0,
            Call::Cleanup { now } => before.filter(young_at(now)),
        }
    }
}

/// Giving up the old ones among the first `n` messages keeps to the limits.
proof fn lemma_filter_within_limits(pending: Seq<Pending>, keep: spec_fn(Pending) -> bool, n: int)
    requires
        within_limits(pending),
        0 <= n <= pending.len(),
    ensures
        within_limits(pending.take(n).filter(keep) + pending.skip(n)),
    decreases n,
{
    if n == 0 {
        assert(pending.take(0).filter(keep) =~= Seq::<Pending>::empty()) by {
            reveal(Seq::filter);
        }
        assert(pending.take(0).filter(keep) + pending.skip(0) =~= pending);
    } else {
        let kept = pending.take(n - 1).filter(keep);
        let before = kept + pending.skip(n - 1);
        lemma_filter_within_limits(pending, keep, n - 1);
        lemma_filter_step(pending, n - 1, keep);
        if keep(pending[n - 1]) {
            assert(pending.take(n).filter(keep) + pending.skip(n) =~= before);
        } else {
            lemma_remove_within_limits(before, kept.len() as int);
            assert(pending.take(n).filter(keep) + pending.skip(n) =~= before.remove(kept.len() as int));
        }
    }
}

/// From a new assembler on, whatever datagrams arrive and whenever old messages are given
/// up, what is held stays within the limits.
pub proof fn law_limits_hold_after_any_calls(calls: Seq<Call>)
    ensures
        within_limits(after_calls(Seq::empty(), calls)),
    decreases calls.len(),
{
    if calls.len() == 0 {
        lemma_empty_within_limits();
    } else {
        let before = after_calls(Seq::empty(), calls.drop_last());
        law_limits_hold_after_any_calls(calls.drop_last());
        match calls.last() {
            Call::Feed { src, data, network_key, now } => {
                law_feed_keeps_limits(before, src, data, network_key, now);
            },
            Call::Cleanup { now } => {
                lemma_filter_within_limits(before, young_at(now), before.len() as int);
                assert(before.take(before.len() as int) =~= before);
                assert(before.filter(young_at(now)) + before.skip(before.len() as int) =~= before.filter(
                    young_at(now),
                ));
            },
        }
    }
}

impl FragmentAssembler {
    /// Whether the assembler's own accounts agree with what it holds, and it is within its
    /// limits.
    pub closed spec fn wf(&self) -> bool {
        &&& self.buffered_bytes == sum(all_bytes(self@))
        &&& forall|i: int| 0 <= i < self.pending@.len() ==> (#[trigger] self.pending@[i]).bytes == self@[i].bytes()
        &&& within_limits(self@)
    }

    /// The bytes that the assembler counts as held.
    pub closed spec fn buffered(&self) -> nat {
        self.buffered_bytes as nat
    }

    /// An assembler that holds nothing.
    pub fn new() -> (r: FragmentAssembler)
        ensures
            r.wf(),
            r@ == Seq::<Pending>::empty(),
    {
        let r = FragmentAssembler { pending: Vec::new(), buffered_bytes: 0 };
        assert(r@ =~= Seq::<Pending>::empty());
        proof {
            lemma_empty_within_limits();
            lemma_sum_zeros(all_bytes(r@));
        }
        r
    }

    /// A well-formed assembler is within its limits, and counts as held what it holds.
    pub proof fn law_wf_is_within_limits(&self)
        requires
            self.wf(),
        ensures
            within_limits(self@),
            self.buffered() == sum(all_bytes(self@)),
            self.buffered() <= MAX_BUFFERED_BYTES,
    {
    }

    /// How many messages of `src` are pending, and how many bytes they hold.
    fn source_usage(&self, src: SocketAddr) -> (r: (usize, usize))
        requires
            self.wf(),
        ensures
            r.0 == sum(count_from(self@, src)),
            r.1 == sum(bytes_from(self@, src)),
    {
        let ghost counts = count_from(self@, src);
        let ghost sizes = bytes_from(self@, src);
        let mut messages: usize = 0;
        let mut bytes: usize = 0;
        let mut i: usize = 0;
        assert(counts.take(0) =~= Seq::<nat>::empty());
        assert(sizes.take(0) =~= Seq::<nat>::empty());
        while i < self.pending.len()
            invariant
                self.wf(),
                i <= self.pending@.len(),
                counts == count_from(self@, src),
                sizes == bytes_from(self@, src),
                messages == sum(counts.take(i as int)),
                bytes == sum(sizes.take(i as int)),
                messages <= i,
            decreases self.pending@.len() - i,
        {
            proof {
                lemma_sum_take(counts, i as int);
                lemma_sum_take(sizes, i as int);
                lemma_sum_take_le(sizes, i + 1);
                assert(sum(count_from(self@, src)) <= MAX_PENDING_MESSAGES_PER_SOURCE);
                assert(self.pending@[i as int].bytes == self@[i as int].bytes());
            }
            if self.pending[i].src == src {
                messages = messages + 1;
                bytes = bytes + self.pending[i].bytes;
            }
            i = i + 1;
        }
        assert(counts.take(i as int) =~= counts);
        assert(sizes.take(i as int) =~= sizes);
        (messages, bytes)
    }

    /// Where the message of the given source and number stands; past the end if it is not
    /// pending.
    fn find(&self, src: SocketAddr, msg_id: u32) -> (k: usize)
        ensures
            k == place(self@, src, msg_id),
            k <= self@.len(),
    {
        let mut k: usize = 0;
        while k < self.pending.len()
            invariant_except_break
                k <= self.pending@.len(),
                forall|i: int| 0 <= i < k ==> !((#[trigger] self@[i]).src == src && self@[i].msg_id == msg_id),
            ensures
                k <= self.pending@.len(),
                k < self.pending@.len() ==> self@[k as int].src == src && self@[k as int].msg_id == msg_id,
                forall|i: int| 0 <= i < k ==> !((#[trigger] self@[i]).src == src && self@[i].msg_id == msg_id),
            decreases self.pending@.len() - k,
        {
            if self.pending[k].src == src && self.pending[k].msg_id == msg_id {
                break;
            }
            k = k + 1;
        }
        proof {
            lemma_place_is(self@, src, msg_id, k as int);
        }
        k
    }

    /// Takes the message at place `k` out.
    fn remove_pending(&mut self, k: usize) -> (m: PendingMessage)
        requires
            old(self).wf(),
            k < old(self)@.len(),
        ensures
            final(self).wf(),
            final(self)@ == old(self)@.remove(k as int),
            m == old(self).pending@[k as int],
    {
        proof {
            lemma_sums(self@, k as int, self@[k as int], self@[k as int].src);
            lemma_remove_within_limits(self@, k as int);
        }
        let m = self.pending.remove(k);
        assert(self@ =~= old(self)@.remove(k as int));
        self.buffered_bytes = self.buffered_bytes - m.bytes;
        assert forall|i: int| 0 <= i < self.pending@.len() implies (#[trigger] self.pending@[i]).bytes
            == self@[i].bytes() by {
            let j = if i < k { i } else { i + 1 };
            assert(self.pending@[i] == old(self).pending@[j]);
            assert(old(self).pending@[j].bytes == old(self)@[j].bytes());
        }
        m
    }

    /// Makes room for a message of `total` chunks.
    fn add_pending(&mut self, src: SocketAddr, msg_id: u32, total: usize, now: u64)
        requires
            old(self).wf(),
            0 < total <= 255,
            place(old(self)@, src, msg_id) == old(self)@.len(),
            old(self)@.len() < MAX_PENDING_MESSAGES,
            sum(count_from(old(self)@, src)) < MAX_PENDING_MESSAGES_PER_SOURCE,
        ensures
            final(self).wf(),
            final(self)@ == old(self)@.push(fresh(src, msg_id, total as nat, now)),
    {
        let mut chunks: Vec<Option<Vec<u8>>> = Vec::with_capacity(total);
        let mut i: usize = 0;
        while i < total
            invariant
                i <= total,
                chunks@.len() == i,
                forall|j: int| 0 <= j < i ==> (#[trigger] chunks@[j]) is None,
            decreases total - i,
        {
            chunks.push(None);
            i = i + 1;
        }
        let ghost m = fresh(src, msg_id, total as nat, now);
        proof {
            lemma_fresh_bytes(src, msg_id, total as nat, now);
            lemma_push_within_limits(self@, src, msg_id, total as nat, now);
            lemma_sums(self@, 0, m, src);
        }
        self.pending.push(PendingMessage { src, msg_id, chunks, started: now, bytes: 0 });
        assert(pending_view(self.pending@.last()).chunks =~= m.chunks);
        assert(self@ =~= old(self)@.push(m));
        assert forall|i: int| 0 <= i < self.pending@.len() implies (#[trigger] self.pending@[i]).bytes
            == self@[i].bytes() by {
            if i < old(self).pending@.len() {
                assert(self.pending@[i] == old(self).pending@[i]);
                assert(old(self).pending@[i].bytes == old(self)@[i].bytes());
            }
        }
    }

    /// Stores a chunk of the message at place `k`.
    fn store(&mut self, k: usize, idx: usize, total: usize, chunk: &[u8]) -> (r: FeedResult)
        requires
            old(self).wf(),
            k < old(self)@.len(),
            idx < total <= 255,
            chunk@.len() <= MAX_FRAGMENTED_MESSAGE_BYTES,
        ensures
            final(self).wf(),
            (final(self)@, r@) == stored(old(self)@, k as int, idx as int, total as nat, chunk@),
    {
        let ghost m = self@[k as int];
        proof {
            lemma_stored_within_limits(self@, k as int, idx as int, total as nat, chunk@);
            assert(self.pending@[k as int].bytes == m.bytes());
        }
        if self.pending[k].chunks.len() != total {
            self.remove_pending(k);
            return FeedResult::Buffered;
        }
        let old_len: usize = match &self.pending[k].chunks[idx] {
            Some(bytes) => bytes.len(),
            None => 0,
        };
        let ghost filled = Pending { chunks: m.chunks.update(idx as int, Some(chunk@)), ..m };
        proof {
            lemma_filled_bytes(m, idx as int, chunk@);
            lemma_sums(self@, k as int, filled, m.src);
            assert(old_len == chunk_len(m.chunks[idx as int]));
        }
        let delta: usize = chunk.len().saturating_sub(old_len);
        if self.pending[k].bytes + delta > MAX_FRAGMENTED_MESSAGE_BYTES {
            self.remove_pending(k);
            return FeedResult::Buffered;
        }
        let (_, source_bytes) = self.source_usage(self.pending[k].src);
        assert(sum(count_from(self@, m.src)) <= MAX_PENDING_MESSAGES_PER_SOURCE);
        if self.buffered_bytes + delta > MAX_BUFFERED_BYTES || source_bytes + delta > MAX_BUFFERED_BYTES_PER_SOURCE {
            return FeedResult::Buffered;
        }
        let copy = to_vec(chunk);
        let bytes: usize = self.pending[k].bytes - old_len + chunk.len();
        self.buffered_bytes = self.buffered_bytes - old_len + chunk.len();
        let entry = &mut self.pending[k];
        entry.bytes = bytes;
        entry.chunks[idx] = Some(copy);
        assert(pending_view(self.pending@[k as int]).chunks =~= filled.chunks);
        assert(self@ =~= old(self)@.update(k as int, filled));
        assert forall|i: int| 0 <= i < self.pending@.len() implies (#[trigger] self.pending@[i]).bytes
            == self@[i].bytes() by {
            if i != k {
                assert(self.pending@[i] == old(self).pending@[i]);
                assert(old(self).pending@[i].bytes == old(self)@[i].bytes());
            }
        }
        let present = all_present(&self.pending[k].chunks);
        proof {
            let now_held = self.pending@[k as int].chunks@;
            assert forall|i: int| 0 <= i < now_held.len() implies (#[trigger] filled.chunks[i]) is Some
                == now_held[i] is Some by {
                assert(filled.chunks[i] == chunk_view(now_held[i]));
            }
            if filled.complete() {
                assert forall|i: int| 0 <= i < now_held.len() implies (#[trigger] now_held[i]) is Some by {
                    assert(filled.chunks[i] is Some);
                }
            }
        }
        if present {
            let done = self.pending.remove(k);
            self.buffered_bytes = self.buffered_bytes - done.bytes;
            proof {
                lemma_remove_of_update(old(self)@, k as int, filled);
                lemma_sums(old(self)@, k as int, filled, m.src);
                assert(self@ =~= old(self)@.remove(k as int));
                assert forall|i: int| 0 <= i < self.pending@.len() implies (#[trigger] self.pending@[i]).bytes
                    == self@[i].bytes() by {
                    let j = if i < k { i } else { i + 1 };
                    assert(self.pending@[i] == old(self).pending@[j]);
                    assert(old(self).pending@[j].bytes == old(self)@[j].bytes());
                }
            }
            return FeedResult::Complete(join(&done.chunks));
        }
        FeedResult::Buffered
    }

    /// Takes in a datagram that came from `src` at the time `now`, in nanoseconds. A
    /// datagram that is not a fragment of this network is left to the caller; the last
    /// missing chunk of a message completes it.
    pub fn feed(&mut self, src: SocketAddr, data: &[u8], network_key: &[u8; K_HEADER_LEN], now: u64) -> (r: FeedResult)
        requires
            old(self).wf(),
        ensures
            final(self).wf(),
            (final(self)@, r@) == fed(old(self)@, src, data@, network_key@, now),
    {
        proof {
            lemma_opened_fragment(data@, network_key@);
        }
        let plain = match open_handshake(network_key, data) {
            Some(plain) => plain,
            None => return FeedResult::NotFragment,
        };
        if plain[0] != KIND_HANDSHAKE_FRAG {
            return FeedResult::NotFragment;
        }
        let msg_id: u32 = plain[1] as u32 * 0x100_0000 + plain[2] as u32 * 0x1_0000 + plain[3] as u32 * 0x100
            + plain[4] as u32;
        let idx: usize = plain[5] as usize;
        let total: usize = plain[6] as usize;
        let chunk = vstd::slice::slice_subrange(plain.as_slice(), FRAG_PREFIX_LEN, plain.len());
        assert(chunk@ =~= plain@.skip(FRAG_PREFIX_LEN as int));
        if chunk.len() > MAX_FRAGMENTED_MESSAGE_BYTES {
            return FeedResult::Buffered;
        }
        let k: usize = self.find(src, msg_id);
        if k == self.pending.len() {
            let (source_messages, _) = self.source_usage(src);
            if self.pending.len() >= MAX_PENDING_MESSAGES || source_messages >= MAX_PENDING_MESSAGES_PER_SOURCE {
                return FeedResult::Buffered;
            }
            self.add_pending(src, msg_id, total, now);
        }
        self.store(k, idx, total, chunk)
    }

    /// Gives up the messages that began `CLEANUP_AGE_SECS` ago or earlier.
    pub fn cleanup(&mut self, now: u64)
        requires
            old(self).wf(),
        ensures
            final(self).wf(),
            final(self)@ == old(self)@.filter(young_at(now)),
    {
        let ghost keep = young_at(now);
        let mut i: usize = 0;
        assert(self@.take(0).filter(keep) =~= Seq::<Pending>::empty()) by {
            reveal(Seq::filter);
        }
        let ghost mut seen: int = 0;
        assert(self@ =~= old(self)@.take(0).filter(keep) + old(self)@.skip(0));
        while i < self.pending.len()
            invariant
                self.wf(),
                keep == young_at(now),
                0 <= seen <= old(self)@.len(),
                i == old(self)@.take(seen).filter(keep).len(),
                self@ == old(self)@.take(seen).filter(keep) + old(self)@.skip(seen),
            decreases self.pending@.len() - i,
        {
            let ghost all = old(self)@;
            let ghost kept = all.take(seen).filter(keep);
            proof {
                assert(self@[i as int] == all[seen]);
                lemma_filter_step(all, seen, keep);
            }
            let started: u64 = self.pending[i].started;
            let young = now.saturating_sub(started) / NANOS_PER_SEC < CLEANUP_AGE_SECS;
            if young {
                proof {
                    assert(self@ =~= kept.push(all[seen]) + all.skip(seen + 1));
                    seen = seen + 1;
                }
                i = i + 1;
            } else {
                self.remove_pending(i);
                proof {
                    assert(self@ =~= kept + all.skip(seen + 1));
                    seen = seen + 1;
                }
            }
        }
        proof {
            let all = old(self)@;
            assert(all.skip(seen).len() == 0);
            assert(all.take(seen) =~= all);
            assert(self@ =~= all.filter(keep));
        }
    }
}

proof fn lemma_filter_step(all: Seq<Pending>, n: int, keep: spec_fn(Pending) -> bool)
    requires
        0 <= n < all.len(),
    ensures
        all.take(n + 1).filter(keep) == (if keep(all[n]) {
            all.take(n).filter(keep).push(all[n])
        } else {
            all.take(n).filter(keep)
        }),
{
    reveal(Seq::filter);
    assert(all.take(n + 1).drop_last() =~= all.take(n));
}

proof fn lemma_remove_of_update(pending: Seq<Pending>, k: int, m: Pending)
    requires
        0 <= k < pending.len(),
    ensures
        pending.update(k, m).remove(k) == pending.remove(k),
{
    assert(pending.update(k, m).remove(k) =~= pending.remove(k));
}

proof fn lemma_sum_take_le(s: Seq<nat>, n: int)
    requires
        0 <= n <= s.len(),
    ensures
        sum(s.take(n)) <= sum(s),
    decreases s.len() - n,
{
    if n == s.len() {
        assert(s.take(n) =~= s);
    } else {
        lemma_sum_take(s, n);
        lemma_sum_take_le(s, n + 1);
    }
}

/// Whether every chunk has arrived.
fn all_present(chunks: &Vec<Option<Vec<u8>>>) -> (r: bool)
    ensures
        r == (forall|i: int| 0 <= i < chunks@.len() ==> (#[trigger] chunks@[i]) is Some),
{
    let mut i: usize = 0;
    while i < chunks.len()
        invariant
            i <= chunks@.len(),
            forall|j: int| 0 <= j < i ==> (#[trigger] chunks@[j]) is Some,
        decreases chunks@.len() - i,
    {
        if chunks[i].is_none() {
            return false;
        }
        i = i + 1;
    }
    true
}

/// The chunks one after the other.
fn join(chunks: &Vec<Option<Vec<u8>>>) -> (r: Vec<u8>)
    ensures
        r@ == assembled(chunks@.map_values(|c: Option<Vec<u8>>| chunk_view(c))),
{
    let ghost all = chunks@.map_values(|c: Option<Vec<u8>>| chunk_view(c));
    let mut out: Vec<u8> = Vec::new();
    let mut i: usize = 0;
    assert(all.take(0) =~= Seq::empty());
    assert(out@ =~= Seq::<u8>::empty());
    while i < chunks.len()
        invariant
            i <= chunks@.len(),
            all == chunks@.map_values(|c: Option<Vec<u8>>| chunk_view(c)),
            out@ == assembled(all.take(i as int)),
        decreases chunks@.len() - i,
    {
        proof {
            assert(all.take(i + 1).drop_last() =~= all.take(i as int));
            assert(all.take(i + 1).last() == chunk_view(chunks@[i as int]));
        }
        match &chunks[i] {
            Some(bytes) => {
                put_slice(&mut out, bytes.as_slice());
            },
            None => {},
        }
        i = i + 1;
        assert(out@ =~= assembled(all.take(i as int)));
    }
    assert(all.take(i as int) =~= all);
    out
}

impl Default for FragmentAssembler {
    fn default() -> (r: FragmentAssembler)
        ensures
            r.wf(),
            r@ == Seq::<Pending>::empty(),
    {
        FragmentAssembler::new()
    }
}

/// How many chunks of at most `size` bytes a message of `len` bytes takes; an empty message
/// takes one.
pub open spec fn chunk_count(len: nat, size: nat) -> nat {
    if len == 0 {
        1
    } else {
        (len - 1) as nat / size + 1
    }
}

/// The chunk of a message with the given index.
pub open spec fn piece(data: Seq<u8>, size: nat, i: int) -> Seq<u8> {
    data.subrange(i * size, if (i + 1) * size < data.len() {
        (i + 1) * size
    } else {
        data.len() as int
    })
}

/// The chunks of a message.
pub open spec fn pieces(data: Seq<u8>, size: nat) -> Seq<Seq<u8>> {
    Seq::new(chunk_count(data.len(), size), |i: int| piece(data, size, i))
}

/// The plaintext of a fragment.
pub open spec fn fragment_plain(msg_id: u32, idx: int, total: nat, chunk: Seq<u8>) -> Seq<u8> {
    seq![KIND_HANDSHAKE_FRAG] + be32(msg_id) + seq![idx as u8, total as u8] + chunk
}

/// Whether `packets` are the sealed fragments of a message, in order.
pub open spec fn is_fragmentation(
    packets: Seq<Seq<u8>>,
    data: Seq<u8>,
    msg_id: u32,
    size: nat,
    dst_peer_id: u32,
    network_key: Seq<u8>,
) -> bool {
    let chunks = pieces(data, size);
    &&& packets.len() == chunks.len() <= 255
    &&& forall|i: int|
        0 <= i < packets.len() ==> is_sealed_handshake(
            #[trigger] packets[i],
            fragment_plain(msg_id, i, chunks.len(), chunks[i]),
            dst_peer_id,
            0,
            network_key,
        )
}

/// The bytes of each packet of a list.
pub open spec fn contents(packets: Seq<Vec<u8>>) -> Seq<Seq<u8>> {
    packets.map_values(|p: Vec<u8>| p@)
}

/// Why a message of `len` bytes cannot be split for the given datagram limit.
pub open spec fn fragment_error(len: nat, max_datagram: usize) -> Option<FragmentError> {
    if max_datagram < MIN_DATAGRAM {
        Some(FragmentError::DatagramTooSmall)
    } else if chunk_count(len, (max_datagram - PACKET_OVERHEAD) as nat) > 255 {
        Some(FragmentError::TooManyChunks)
    } else {
        None
    }
}

/// The bounds of a chunk.
pub proof fn lemma_piece(data: Seq<u8>, size: nat, i: int)
    requires
        size > 0,
        0 <= i < chunk_count(data.len(), size),
    ensures
        0 <= i * size <= data.len(),
        piece(data, size, i).len() <= size,
        piece(data, size, i).len() <= data.len(),
        (i + 1) * size == i * size + size,
        i + 1 == chunk_count(data.len(), size) ==> (i + 1) * size >= data.len(),
        i + 1 < chunk_count(data.len(), size) ==> (i + 1) * size < data.len(),
{
    let len = data.len() as int;
    let n = size as int;
    assert((i + 1) * n == i * n + n) by (nonlinear_arith);
    assert(0 <= i * n) by (nonlinear_arith)
        requires
            0 <= i,
            0 <= n,
    ;
    if len > 0 {
        let q = (len - 1) / n;
        lemma_fundamental_div_mod(len - 1, n);
        assert(i * n <= q * n) by (nonlinear_arith)
            requires
                i <= q,
                0 <= n,
        ;
        assert(q * n == n * q) by (nonlinear_arith);
        if i + 1 == q + 1 {
            assert((i + 1) * n == n * q + n) by (nonlinear_arith)
                requires
                    i == q,
            ;
        } else {
            assert((i + 1) * n <= q * n) by (nonlinear_arith)
                requires
                    i + 1 <= q,
                    0 <= n,
            ;
        }
    } else {
        assert(i * n == 0) by (nonlinear_arith)
            requires
                i == 0,
        ;
    }
}

/// Splits a message into sealed fragments for anyone in the network.
pub fn fragment_message(data: &[u8], network_key: &[u8; K_HEADER_LEN], max_datagram: usize) -> (r: Result<
    Vec<Vec<u8>>,
    FragmentError,
>)
    requires
        data@.len() < PLAINTEXT_LIMIT || max_datagram - PACKET_OVERHEAD < PLAINTEXT_LIMIT,
    ensures
        r is Err == fragment_error(data@.len(), max_datagram) is Some,
        r matches Err(e) ==> fragment_error(data@.len(), max_datagram) == Some(e),
        r matches Ok(packets) ==> {
            &&& exists|msg_id: u32| #[trigger]
                is_fragmentation(
                    contents(packets@),
                    data@,
                    msg_id,
                    (max_datagram - PACKET_OVERHEAD) as nat,
                    0,
                    network_key@,
                )
            &&& forall|i: int| 0 <= i < packets@.len() ==> (#[trigger] packets@[i])@.len() <= max_datagram
        },
{
    fragment_message_to_peer(data, network_key, max_datagram, 0)
}

/// Splits a message into sealed fragments that a relay passes on to a peer. Each fits the
/// datagram limit.
pub fn fragment_message_to_peer(
    data: &[u8],
    network_key: &[u8; K_HEADER_LEN],
    max_datagram: usize,
    dst_peer_id: u32,
) -> (r: Result<Vec<Vec<u8>>, FragmentError>)
    requires
        data@.len() < PLAINTEXT_LIMIT || max_datagram - PACKET_OVERHEAD < PLAINTEXT_LIMIT,
    ensures
        r is Err == fragment_error(data@.len(), max_datagram) is Some,
        r matches Err(e) ==> fragment_error(data@.len(), max_datagram) == Some(e),
        r matches Ok(packets) ==> {
            &&& exists|msg_id: u32| #[trigger]
                is_fragmentation(
                    contents(packets@),
                    data@,
                    msg_id,
                    (max_datagram - PACKET_OVERHEAD) as nat,
                    dst_peer_id,
                    network_key@,
                )
            &&& forall|i: int| 0 <= i < packets@.len() ==> (#[trigger] packets@[i])@.len() <= max_datagram
        },
{
    fragment_message_with(data, network_key, max_datagram, dst_peer_id, random_u32())
}

/// `fragment_message_to_peer` with a given number for the message.
pub fn fragment_message_with(
    data: &[u8],
    network_key: &[u8; K_HEADER_LEN],
    max_datagram: usize,
    dst_peer_id: u32,
    msg_id: u32,
) -> (r: Result<Vec<Vec<u8>>, FragmentError>)
    requires
        data@.len() < PLAINTEXT_LIMIT || max_datagram - PACKET_OVERHEAD < PLAINTEXT_LIMIT,
    ensures
        r is Err == fragment_error(data@.len(), max_datagram) is Some,
        r matches Err(e) ==> fragment_error(data@.len(), max_datagram) == Some(e),
        r matches Ok(packets) ==> {
            &&& is_fragmentation(
                contents(packets@),
                data@,
                msg_id,
                (max_datagram - PACKET_OVERHEAD) as nat,
                dst_peer_id,
                network_key@,
            )
            &&& forall|i: int| 0 <= i < packets@.len() ==> (#[trigger] packets@[i])@.len() <= max_datagram
        },
{
    if max_datagram < MIN_DATAGRAM {
        return Err(FragmentError::DatagramTooSmall);
    }
    let size: usize = max_datagram - PACKET_OVERHEAD;
    let last: usize = if data.len() == 0 { 0 } else { (data.len() - 1) / size };
    if last >= 255 {
        return Err(FragmentError::TooManyChunks);
    }
    let total: usize = last + 1;
    let ghost chunks = pieces(data@, size as nat);
    let mut packets: Vec<Vec<u8>> = Vec::new();
    let mut i: usize = 0;
    let mut start: usize = 0;
    while i < total
        invariant
            size == max_datagram - PACKET_OVERHEAD,
            size > 0,
            data@.len() < PLAINTEXT_LIMIT || size < PLAINTEXT_LIMIT,
            i <= total <= 255,
            total == chunk_count(data@.len(), size as nat),
            chunks == pieces(data@, size as nat),
            packets@.len() == i,
            i < total ==> start == i * size,
            forall|j: int|
                0 <= j < i ==> {
                    &&& is_sealed_handshake(
                        (#[trigger] packets@[j])@,
                        fragment_plain(msg_id, j, total as nat, chunks[j]),
                        dst_peer_id,
                        0,
                        network_key@,
                    )
                    &&& packets@[j]@.len() <= max_datagram
                },
        decreases total - i,
    {
        proof {
            lemma_piece(data@, size as nat, i as int);
        }
        let end: usize = if data.len() - start > size { start + size } else { data.len() };
        let chunk = vstd::slice::slice_subrange(data, start, end);
        assert(chunk@ =~= piece(data@, size as nat, i as int));
        let mut plain: Vec<u8> = Vec::new();
        plain.push(KIND_HANDSHAKE_FRAG);
        put_u32(&mut plain, msg_id);
        plain.push(i as u8);
        plain.push(total as u8);
        put_slice(&mut plain, chunk);
        assert(plain@ =~= fragment_plain(msg_id, i as int, total as nat, chunk@));
        assert(handshake_payload(plain@) =~= chunk@);
        let packet = seal_handshake_to_peer(network_key, plain.as_slice(), dst_peer_id);
        proof {
            lemma_sealed_len(packet@, plain@, dst_peer_id, network_key@);
        }
        packets.push(packet);
        start = end;
        i = i + 1;
    }
    assert(contents(packets@).len() == chunks.len());
    assert forall|j: int| 0 <= j < contents(packets@).len() implies is_sealed_handshake(
        #[trigger] contents(packets@)[j],
        fragment_plain(msg_id, j, chunks.len(), chunks[j]),
        dst_peer_id,
        0,
        network_key@,
    ) by {
        assert(contents(packets@)[j] == packets@[j]@);
    }
    Ok(packets)
}

/// A sealed message is longer than what it carries by the overhead of a packet.
proof fn lemma_sealed_len(msg: Seq<u8>, plaintext: Seq<u8>, dst_peer_id: u32, network_key: Seq<u8>)
    requires
        is_sealed_handshake(msg, plaintext, dst_peer_id, 0, network_key),
    ensures
        msg.len() == handshake_payload(plaintext).len() + PACKET_OVERHEAD,
{
    let pkt = choose|pkt: DataPacket|
        {
            &&& msg == #[trigger] pkt.wire()
            &&& pkt.seals(
                handshake_header(plaintext, dst_peer_id, 0),
                handshake_payload(plaintext),
                network_key,
                network_key,
            )
        };
    assert(pkt.wire().len() == 36 + pkt.ciphertext@.len());
}

/// What becomes of the pending messages when datagrams arrive from one source, one after
/// the other, at the given times; the last of them is answered as given.
pub open spec fn fed_all(
    pending: Seq<Pending>,
    src: SocketAddr,
    datagrams: Seq<Seq<u8>>,
    times: Seq<u64>,
    network_key: Seq<u8>,
) -> (Seq<Pending>, Fed)
    decreases datagrams.len(),
{
    if datagrams.len() == 0 {
        (pending, Fed::Buffered)
    } else {
        let n = datagrams.len() - 1;
        fed(
            fed_all(pending, src, datagrams.drop_last(), times, network_key).0,
            src,
            datagrams.last(),
            network_key,
            times[n],
        )
    }
}

/// Whether `order` names each of `0..n` once.
pub open spec fn is_order(order: Seq<int>, n: nat) -> bool {
    &&& order.len() == n
    &&& forall|j: int| 0 <= j < n ==> 0 <= #[trigger] order[j] < n
    &&& forall|i: int, j: int| 0 <= i < j < n ==> order[i] != order[j]
    &&& forall|i: int| 0 <= i < n ==> #[trigger] order.contains(i)
}

/// The packets in another order.
pub open spec fn reordered(packets: Seq<Seq<u8>>, order: Seq<int>) -> Seq<Seq<u8>> {
    Seq::new(order.len(), |j: int| packets[order[j]])
}

/// Whether there is room for a message of `len` bytes from `src` that is not pending yet.
pub open spec fn has_room(pending: Seq<Pending>, src: SocketAddr, msg_id: u32, len: nat) -> bool {
    &&& place(pending, src, msg_id) == pending.len() < MAX_PENDING_MESSAGES
    &&& sum(count_from(pending, src)) < MAX_PENDING_MESSAGES_PER_SOURCE
    &&& sum(all_bytes(pending)) + len <= MAX_BUFFERED_BYTES
    &&& sum(bytes_from(pending, src)) + len <= MAX_BUFFERED_BYTES_PER_SOURCE
}

/// The chunks of a message of which those named by `have` have arrived.
spec fn partial(chunks: Seq<Seq<u8>>, have: Seq<int>) -> Seq<Option<Seq<u8>>> {
    Seq::new(
        chunks.len(),
        |i: int|
            if have.contains(i) {
                Some(chunks[i])
            } else {
                None
            },
    )
}

proof fn lemma_sum_le(a: Seq<nat>, b: Seq<nat>)
    requires
        a.len() == b.len(),
        forall|i: int| 0 <= i < a.len() ==> a[i] <= b[i],
    ensures
        sum(a) <= sum(b),
    decreases a.len(),
{
    if a.len() > 0 {
        lemma_sum_le(a.drop_last(), b.drop_last());
    }
}

/// The first chunks of a message make up its start.
proof fn lemma_assembled_pieces(data: Seq<u8>, size: nat, n: nat)
    requires
        size > 0,
        n <= chunk_count(data.len(), size),
    ensures
        ({
            let chunks = Seq::new(n, |i: int| Some(piece(data, size, i)));
            let len = if n * size < data.len() { (n * size) as int } else { data.len() as int };
            &&& assembled(chunks) == data.take(len)
            &&& sum(chunk_lens(chunks)) == len
        }),
    decreases n,
{
    let chunks = Seq::new(n, |i: int| Some(piece(data, size, i)));
    if n == 0 {
        assert(0 * size == 0) by (nonlinear_arith);
        assert(data.take(0) =~= Seq::empty());
    } else {
        let m = (n - 1) as nat;
        let before = Seq::new(m, |i: int| Some(piece(data, size, i)));
        lemma_assembled_pieces(data, size, m);
        lemma_piece(data, size, m as int);
        assert(chunks.drop_last() =~= before);
        assert(chunk_lens(chunks).drop_last() =~= chunk_lens(before));
        let len = if n * size < data.len() { (n * size) as int } else { data.len() as int };
        assert(assembled(chunks) =~= data.take(len));
    }
}

/// A message of which some chunks have arrived holds no more bytes than the message has.
proof fn lemma_partial_bytes(data: Seq<u8>, size: nat, have: Seq<int>)
    requires
        size > 0,
    ensures
        sum(chunk_lens(partial(pieces(data, size), have))) <= data.len(),
{
    let n = chunk_count(data.len(), size);
    let chunks = Seq::new(n, |i: int| Some(piece(data, size, i)));
    lemma_assembled_pieces(data, size, n);
    lemma_sum_le(chunk_lens(partial(pieces(data, size), have)), chunk_lens(chunks));
}

/// A message of which every chunk has arrived is put together as it was.
proof fn lemma_whole(data: Seq<u8>, size: nat, have: Seq<int>)
    requires
        size > 0,
        forall|i: int| 0 <= i < chunk_count(data.len(), size) ==> #[trigger] have.contains(i),
    ensures
        assembled(partial(pieces(data, size), have)) == data,
{
    let n = chunk_count(data.len(), size);
    let chunks = Seq::new(n, |i: int| Some(piece(data, size, i)));
    lemma_assembled_pieces(data, size, n);
    lemma_piece(data, size, n - 1);
    assert(partial(pieces(data, size), have) =~= chunks);
    assert(data.take(data.len() as int) =~= data);
}

/// A sealed fragment opens as the fragment that it is.
proof fn lemma_fragment_opens(
    packet: Seq<u8>,
    msg_id: u32,
    idx: int,
    total: nat,
    chunk: Seq<u8>,
    dst_peer_id: u32,
    network_key: Seq<u8>,
)
    requires
        0 <= idx < total <= 255,
        is_sealed_handshake(packet, fragment_plain(msg_id, idx, total, chunk), dst_peer_id, 0, network_key),
    ensures
        ({
            let p = fragment_plain(msg_id, idx, total, chunk);
            &&& opened_handshake(packet, network_key) == Some(p)
            &&& p[0] == KIND_HANDSHAKE_FRAG
            &&& from_be32(p.skip(1)) == msg_id
            &&& p[5] == idx
            &&& p[6] == total
            &&& p.skip(FRAG_PREFIX_LEN as int) == chunk
        }),
{
    let p = fragment_plain(msg_id, idx, total, chunk);
    let rest = seq![idx as u8, total as u8] + chunk;
    lemma_be32(msg_id, rest);
    assert(p.skip(1) =~= be32(msg_id) + rest);
    assert(p.skip(FRAG_PREFIX_LEN as int) =~= chunk);
    assert(well_framed(p));
    law_sealed_handshake_opens(packet, p, dst_peer_id, 0, network_key);
}

/// One more fragment of a message for which there is room is kept, or completes it.
proof fn lemma_next_fragment(
    pending: Seq<Pending>,
    src: SocketAddr,
    msg_id: u32,
    data: Seq<u8>,
    size: nat,
    have: Seq<int>,
    idx: int,
    started: u64,
    now: u64,
)
    requires
        size > 0,
        0 <= idx < chunk_count(data.len(), size),
        !have.contains(idx),
        has_room(pending, src, msg_id, data.len()),
        have.len() == 0 ==> started == now,
    ensures
        ({
            let chunks = pieces(data, size);
            let total = chunks.len();
            let before = if have.len() == 0 {
                pending
            } else {
                pending.push(Pending { src, msg_id, chunks: partial(chunks, have), started })
            };
            let after = Pending { src, msg_id, chunks: partial(chunks, have.push(idx)), started };
            received(before, src, msg_id, idx, total, chunks[idx], now) == (if after.complete() {
                (pending, Fed::Complete(assembled(after.chunks)))
            } else {
                (pending.push(after), Fed::Buffered)
            })
        }),
{
    let chunks = pieces(data, size);
    let total = chunks.len();
    let k = pending.len() as int;
    let m = Pending { src, msg_id, chunks: partial(chunks, have), started };
    let before = if have.len() == 0 { pending } else { pending.push(m) };
    let after = Pending { src, msg_id, chunks: partial(chunks, have.push(idx)), started };
    let with_m = pending.push(m);
    lemma_piece(data, size, idx);
    lemma_place(pending, src, msg_id);
    assert(m.chunks =~= fresh(src, msg_id, total, now).chunks || have.len() > 0);
    assert forall|i: int| 0 <= i < k implies !((#[trigger] with_m[i]).src == src && with_m[i].msg_id == msg_id) by {
        assert(with_m[i] == pending[i]);
    }
    lemma_place_is(with_m, src, msg_id, k);
    assert(received(before, src, msg_id, idx, total, chunks[idx], now) == stored(with_m, k, idx, total, chunks[idx]));
    lemma_sums(pending, 0, m, src);
    lemma_filled_bytes(m, idx, chunks[idx]);
    assert(m.chunks[idx] is None);
    assert forall|i: int| 0 <= i < total implies have.push(idx).contains(i) == (have.contains(i) || i == idx) by {
        if have.contains(i) {
            let w = choose|w: int| 0 <= w < have.len() && have[w] == i;
            assert(have.push(idx)[w] == i);
        }
        if i == idx {
            assert(have.push(idx)[have.len() as int] == i);
        }
    }
    assert(m.chunks.update(idx, Some(chunks[idx])) =~= after.chunks);
    lemma_partial_bytes(data, size, have.push(idx));
    lemma_partial_bytes(data, size, have);
    assert(with_m.remove(k) =~= pending);
    assert(with_m.update(k, after) =~= pending.push(after));
}

/// The state after some but not all fragments of a message have arrived.
proof fn lemma_some_fragments(
    pending: Seq<Pending>,
    src: SocketAddr,
    msg_id: u32,
    data: Seq<u8>,
    size: nat,
    packets: Seq<Seq<u8>>,
    dst_peer_id: u32,
    network_key: Seq<u8>,
    order: Seq<int>,
    times: Seq<u64>,
    j: nat,
)
    requires
        size > 0,
        is_fragmentation(packets, data, msg_id, size, dst_peer_id, network_key),
        is_order(order, packets.len()),
        times.len() == packets.len(),
        has_room(pending, src, msg_id, data.len()),
        0 < j <= packets.len(),
    ensures
        ({
            let chunks = pieces(data, size);
            let run = fed_all(pending, src, reordered(packets, order).take(j as int), times, network_key);
            let after = Pending { src, msg_id, chunks: partial(chunks, order.take(j as int)), started: times[0] };
            if j < packets.len() {
                run == (pending.push(after), Fed::Buffered)
            } else {
                run == (pending, Fed::Complete(data))
            }
        }),
    decreases j,
{
    let chunks = pieces(data, size);
    let datagrams = reordered(packets, order);
    let have = order.take(j - 1);
    let idx = order[j - 1];
    let now = times[j - 1];
    assert(datagrams.take(j as int).drop_last() =~= datagrams.take(j - 1));
    assert(have.push(idx) =~= order.take(j as int));
    if j > 1 {
        lemma_some_fragments(
            pending,
            src,
            msg_id,
            data,
            size,
            packets,
            dst_peer_id,
            network_key,
            order,
            times,
            (j - 1) as nat,
        );
    }
    assert(is_sealed_handshake(
        packets[idx],
        fragment_plain(msg_id, idx, chunks.len(), chunks[idx]),
        dst_peer_id,
        0,
        network_key,
    ));
    lemma_fragment_opens(packets[idx], msg_id, idx, chunks.len(), chunks[idx], dst_peer_id, network_key);
    lemma_next_fragment(pending, src, msg_id, data, size, have, idx, times[0], now);
    let after = Pending { src, msg_id, chunks: partial(chunks, order.take(j as int)), started: times[0] };
    let before = if j == 1 {
        pending
    } else {
        pending.push(Pending { src, msg_id, chunks: partial(chunks, have), started: times[0] })
    };
    assert(fed_all(pending, src, datagrams.take(j - 1), times, network_key).0 == before);
    assert(datagrams.take(j as int).last() == packets[idx]);
    assert(fed_all(pending, src, datagrams.take(j as int), times, network_key) == received(
        before,
        src,
        msg_id,
        idx,
        chunks.len(),
        chunks[idx],
        now,
    ));
    if j < packets.len() {
        let missing = order[j as int];
        assert(!order.take(j as int).contains(missing));
        assert(after.chunks[missing] is None);
    } else {
        assert(order.take(j as int) =~= order);
        assert forall|i: int| 0 <= i < after.chunks.len() implies (#[trigger] after.chunks[i]) is Some by {
            assert(order.contains(i));
        }
        lemma_whole(data, size, order);
    }
}

/// The fragments of a message, fed in any order to an assembler that has room for it,
/// come out as the message when the last of them arrives, and not before; the assembler is
/// then as it was.
pub proof fn law_fragments_reassemble(
    pending: Seq<Pending>,
    src: SocketAddr,
    msg_id: u32,
    data: Seq<u8>,
    size: nat,
    packets: Seq<Seq<u8>>,
    dst_peer_id: u32,
    network_key: Seq<u8>,
    order: Seq<int>,
    times: Seq<u64>,
)
    requires
        size > 0,
        is_fragmentation(packets, data, msg_id, size, dst_peer_id, network_key),
        is_order(order, packets.len()),
        times.len() == packets.len(),
        has_room(pending, src, msg_id, data.len()),
    ensures
        fed_all(pending, src, reordered(packets, order), times, network_key) == (pending, Fed::Complete(data)),
        forall|j: int|
            0 < j < packets.len() ==> (#[trigger] fed_all(
                pending,
                src,
                reordered(packets, order).take(j),
                times,
                network_key,
            )).1 == Fed::Buffered,
{
    let datagrams = reordered(packets, order);
    let n = packets.len();
    assert(datagrams.take(n as int) =~= datagrams);
    lemma_some_fragments(pending, src, msg_id, data, size, packets, dst_peer_id, network_key, order, times, n);
    assert forall|j: int| 0 < j < packets.len() implies (#[trigger] fed_all(
        pending,
        src,
        datagrams.take(j),
        times,
        network_key,
    )).1 == Fed::Buffered by {
        lemma_some_fragments(
            pending,
            src,
            msg_id,
            data,
            size,
            packets,
            dst_peer_id,
            network_key,
            order,
            times,
            j as nat,
        );
    }
}

} // verus!
