//! What the assembler has room for, how long it waits, and how a message is split, said in
//! numbers.
use crate::addr::SocketAddr;
use crate::bytes::be32;
use crate::frag::{
    all_bytes, assembled, bytes_from, chunk_lens, count_from, fed_all, fragment_error, fragment_plain, fresh, is_fragmentation,
    is_order, law_fragments_reassemble, lemma_fresh_bytes, lemma_piece, lemma_place, lemma_place_is, lemma_sum_push, pieces,
    received, reordered, sum, within_limits, young_at, Fed, FragmentError, Pending,
};
use vstd::arithmetic::div_mod::lemma_fundamental_div_mod;
use vstd::prelude::*;

verus! {

/// The test for messages from a source.
pub open spec fn from(src: SocketAddr) -> spec_fn(Pending) -> bool {
    |m: Pending| m.src == src
}

proof fn lemma_count(pending: Seq<Pending>, src: SocketAddr)
    ensures
        sum(count_from(pending, src)) == pending.filter(from(src)).len(),
    decreases pending.len(),
{
    reveal(Seq::filter);
    if pending.len() > 0 {
        lemma_count(pending.drop_last(), src);
        assert(count_from(pending, src).drop_last() =~= count_from(pending.drop_last(), src));
    }
}

proof fn lemma_nothing_from(pending: Seq<Pending>, src: SocketAddr)
    requires
        forall|i: int| 0 <= i < pending.len() ==> (#[trigger] pending[i]).src != src,
    ensures
        sum(bytes_from(pending, src)) == 0,
        sum(count_from(pending, src)) == 0,
    decreases pending.len(),
{
    if pending.len() > 0 {
        assert forall|i: int| 0 <= i < pending.drop_last().len() implies (#[trigger] pending.drop_last()[i]).src
            != src by {
            assert(pending[i].src != src);
        }
        lemma_nothing_from(pending.drop_last(), src);
        assert(pending[pending.len() - 1].src != src);
        assert(bytes_from(pending, src).drop_last() =~= bytes_from(pending.drop_last(), src));
        assert(count_from(pending, src).drop_last() =~= count_from(pending.drop_last(), src));
    }
}

/// The fragments of a message of at most 524,288 bytes, in any order, come out as the message
/// with the last of them, and not before, if less than 1,024 messages are pending, less than
/// 32 of them from the same source, none of these with the same number, and the bytes of all
/// stay within 4,194,304 and those from the source within 524,288.
pub proof fn law_there_is_room_for_the_usual(
    pending: Seq<Pending>,
    src: SocketAddr,
    msg_id: u32,
    data: Seq<u8>,
    size: nat,
    packets: Seq<Seq<u8>>,
    dst_peer_id: u32,
    network_key: Seq<u8>,
    order: Seq<int>,
    times: Seq<u64>,
)
    requires
        size > 0,
        is_fragmentation(packets, data, msg_id, size, dst_peer_id, network_key),
        is_order(order, packets.len()),
        times.len() == packets.len(),
        pending.len() < 1024,
        pending.filter(from(src)).len() < 32,
        forall|i: int| 0 <= i < pending.len() ==> (#[trigger] pending[i]).src != src || pending[i].msg_id != msg_id,
        sum(all_bytes(pending)) + data.len() <= 4_194_304,
        sum(bytes_from(pending, src)) + data.len() <= 524_288,
    ensures
        fed_all(pending, src, reordered(packets, order), times, network_key) == (pending, Fed::Complete(data)),
        forall|j: int|
            0 < j < packets.len() ==> (#[trigger] fed_all(
                pending,
                src,
                reordered(packets, order).take(j),
                times,
                network_key,
            )).1 == Fed::Buffered,
{
    lemma_count(pending, src);
    lemma_place(pending, src, msg_id);
    law_fragments_reassemble(pending, src, msg_id, data, size, packets, dst_peer_id, network_key, order, times);
}

/// A new assembler puts any message of at most 524,288 bytes together, from its fragments in
/// any order.
pub proof fn law_new_assembler_has_room(
    src: SocketAddr,
    msg_id: u32,
    data: Seq<u8>,
    size: nat,
    packets: Seq<Seq<u8>>,
    dst_peer_id: u32,
    network_key: Seq<u8>,
    order: Seq<int>,
    times: Seq<u64>,
)
    requires
        size > 0,
        is_fragmentation(packets, data, msg_id, size, dst_peer_id, network_key),
        is_order(order, packets.len()),
        times.len() == packets.len(),
        data.len() <= 524_288,
    ensures
        fed_all(Seq::empty(), src, reordered(packets, order), times, network_key).1 == Fed::Complete(data),
{
    let none = Seq::<Pending>::empty();
    lemma_nothing_from(none, src);
    lemma_count(none, src);
    assert(all_bytes(none) =~= Seq::empty());
    law_there_is_room_for_the_usual(none, src, msg_id, data, size, packets, dst_peer_id, network_key, order, times);
}

/// One source cannot take the room of another: if nothing from a source is pending and the
/// limits of all sources are not reached, its messages are put together.
pub proof fn law_sources_have_their_own_room(
    pending: Seq<Pending>,
    src: SocketAddr,
    msg_id: u32,
    data: Seq<u8>,
    size: nat,
    packets: Seq<Seq<u8>>,
    dst_peer_id: u32,
    network_key: Seq<u8>,
    order: Seq<int>,
    times: Seq<u64>,
)
    requires
        size > 0,
        is_fragmentation(packets, data, msg_id, size, dst_peer_id, network_key),
        is_order(order, packets.len()),
        times.len() == packets.len(),
        forall|i: int| 0 <= i < pending.len() ==> (#[trigger] pending[i]).src != src,
        pending.len() < 1024,
        data.len() <= 524_288,
        sum(all_bytes(pending)) + data.len() <= 4_194_304,
    ensures
        fed_all(pending, src, reordered(packets, order), times, network_key) == (pending, Fed::Complete(data)),
{
    lemma_nothing_from(pending, src);
    lemma_count(pending, src);
    law_there_is_room_for_the_usual(
        pending,
        src,
        msg_id,
        data,
        size,
        packets,
        dst_peer_id,
        network_key,
        order,
        times,
    );
}

/// The limits in numbers: at most 1,024 messages are pending and 32 from each source, with at
/// most 4,194,304 bytes and 524,288 from each source.
pub proof fn law_limits_in_numbers(pending: Seq<Pending>, src: SocketAddr)
    requires
        within_limits(pending),
    ensures
        pending.len() <= 1024,
        pending.filter(from(src)).len() <= 32,
        sum(all_bytes(pending)) <= 4_194_304,
        sum(bytes_from(pending, src)) <= 524_288,
{
    lemma_count(pending, src);
    assert(sum(count_from(pending, src)) <= 32);
}

/// Once the limits are reached, a fragment of a new message changes nothing.
pub proof fn law_full_assembler_takes_no_new_message(
    pending: Seq<Pending>,
    src: SocketAddr,
    msg_id: u32,
    idx: int,
    total: nat,
    chunk: Seq<u8>,
    now: u64,
)
    requires
        forall|i: int| 0 <= i < pending.len() ==> (#[trigger] pending[i]).src != src || pending[i].msg_id != msg_id,
        pending.len() >= 1024 || pending.filter(from(src)).len() >= 32,
    ensures
        received(pending, src, msg_id, idx, total, chunk, now) == (pending, Fed::Buffered),
{
    lemma_count(pending, src);
    lemma_place(pending, src, msg_id);
}

/// A fragment that comes again changes nothing.
pub proof fn law_repeated_fragment_changes_nothing(
    pending: Seq<Pending>,
    k: int,
    idx: int,
    chunk: Seq<u8>,
    now: u64,
)
    requires
        within_limits(pending),
        0 <= k < pending.len(),
        0 <= idx < pending[k].chunks.len(),
        pending[k].chunks[idx] == Some(chunk),
    ensures
        received(pending, pending[k].src, pending[k].msg_id, idx, pending[k].chunks.len(), chunk, now) == (
            pending,
            Fed::Buffered,
        ),
{
    let m = pending[k];
    lemma_place_is(pending, m.src, m.msg_id, k);
    assert(m.chunks.update(idx, Some(chunk)) =~= m.chunks);
    law_limits_in_numbers(pending, m.src);
    assert(pending.update(k, m) =~= pending);
    assert(!m.complete());
}

/// A message is waited for as long as less than 30 seconds have passed since its first
/// fragment came, and no longer.
pub proof fn law_messages_are_waited_for(pending: Seq<Pending>, now: u64, m: Pending)
    ensures
        pending.filter(young_at(now)).contains(m) <==> pending.contains(m) && now < m.started + 30_000_000_000,
    decreases pending.len(),
{
    reveal(Seq::filter);
    let keep = young_at(now);
    assert(keep(m) <==> now < m.started + 30_000_000_000);
    if pending.len() > 0 {
        let rest = pending.drop_last();
        law_messages_are_waited_for(rest, now, m);
        let kept = rest.filter(keep);
        let all = pending.filter(keep);
        if pending.contains(m) {
            let i = choose|i: int| 0 <= i < pending.len() && pending[i] == m;
            if i < rest.len() {
                assert(rest[i] == m);
            }
        }
        if rest.contains(m) {
            let i = choose|i: int| 0 <= i < rest.len() && rest[i] == m;
            assert(pending[i] == m);
        }
        if keep(pending.last()) {
            assert(all == kept.push(pending.last()));
            assert(all[kept.len() as int] == pending.last());
            if kept.contains(m) {
                let i = choose|i: int| 0 <= i < kept.len() && kept[i] == m;
                assert(all[i] == m);
            }
            if all.contains(m) {
                let i = choose|i: int| 0 <= i < all.len() && all[i] == m;
                if i < kept.len() {
                    assert(kept[i] == m);
                }
            }
        }
        assert(pending[pending.len() - 1] == pending.last());
    }
}

/// A message can be split exactly where a datagram holds 53 bytes or more and the message has
/// at most 255 times what a datagram holds beside 52 bytes.
pub proof fn law_what_can_be_split(len: nat, max_datagram: usize)
    ensures
        fragment_error(len, max_datagram) is None <==> max_datagram >= 53 && len <= 255 * (max_datagram - 52),
        max_datagram < 53 ==> fragment_error(len, max_datagram) == Some(FragmentError::DatagramTooSmall),
{
    if max_datagram >= 53 && len > 0 {
        let size = (max_datagram - 52) as int;
        let q = (len - 1) / size;
        lemma_fundamental_div_mod(len - 1, size);
        assert(q < 255 ==> size * q + size <= 255 * size) by (nonlinear_arith)
            requires
                size > 0,
        ;
        assert(q >= 255 ==> size * q >= 255 * size) by (nonlinear_arith)
            requires
                size > 0,
        ;
    }
}

/// A message is split into as few fragments as its length needs: all but the last are full.
pub proof fn law_fragments_are_full(data: Seq<u8>, size: nat, i: int)
    requires
        size > 0,
        0 <= i < pieces(data, size).len(),
    ensures
        i + 1 < pieces(data, size).len() ==> pieces(data, size)[i].len() == size,
        pieces(data, size)[i].len() <= size,
        data.len() > 0 ==> pieces(data, size)[i].len() > 0,
        pieces(data, size)[i] == data.subrange(i * size, i * size + pieces(data, size)[i].len()),
{
    lemma_piece(data, size, i);
    if i + 1 == pieces(data, size).len() && i > 0 {
        lemma_piece(data, size, i - 1);
    }
    assert(i == 0 ==> i * size == 0);
}

/// The plaintext of a fragment holds its kind, the number of the message in four bytes, its
/// place and how many there are in one byte each, and the data.
pub proof fn law_fragment_layout(msg_id: u32, idx: int, total: nat, chunk: Seq<u8>)
    requires
        0 <= idx < total <= 255,
    ensures
        ({
            let p = fragment_plain(msg_id, idx, total, chunk);
            &&& p[0] == 0x13
            &&& p.subrange(1, 5) == be32(msg_id)
            &&& p[5] == idx
            &&& p[6] == total
            &&& p.skip(7) == chunk
        }),
{
    let p = fragment_plain(msg_id, idx, total, chunk);
    assert(p.subrange(1, 5) =~= be32(msg_id));
    assert(p.skip(7) =~= chunk);
}

/// The first fragment of a message of several starts the wait for the others, at the time at
/// which it comes; what else is pending stays as it was.
pub proof fn law_first_fragment_starts_the_wait(
    pending: Seq<Pending>,
    src: SocketAddr,
    msg_id: u32,
    idx: int,
    total: nat,
    chunk: Seq<u8>,
    now: u64,
)
    requires
        forall|i: int| 0 <= i < pending.len() ==> (#[trigger] pending[i]).src != src || pending[i].msg_id != msg_id,
        pending.len() < 1024,
        pending.filter(from(src)).len() < 32,
        sum(all_bytes(pending)) + chunk.len() <= 4_194_304,
        sum(bytes_from(pending, src)) + chunk.len() <= 524_288,
        0 <= idx < total,
        1 < total <= 255,
    ensures
        ({
            let (after, r) = received(pending, src, msg_id, idx, total, chunk, now);
            let new = after[pending.len() as int];
            &&& r == Fed::Buffered
            &&& after.len() == pending.len() + 1
            &&& forall|i: int| 0 <= i < pending.len() ==> #[trigger] after[i] == pending[i]
            &&& new.src == src
            &&& new.msg_id == msg_id
            &&& new.started == now
            &&& new.chunks.len() == total
            &&& forall|i: int|
                0 <= i < total ==> #[trigger] new.chunks[i] == (if i == idx {
                    Some(chunk)
                } else {
                    None
                })
        }),
{
    lemma_count(pending, src);
    lemma_place(pending, src, msg_id);
    let new = fresh(src, msg_id, total, now);
    let all = pending.push(new);
    lemma_fresh_bytes(src, msg_id, total, now);
    lemma_sum_push(all_bytes(pending), new.bytes());
    lemma_sum_push(bytes_from(pending, src), new.bytes());
    assert(all_bytes(all) =~= all_bytes(pending).push(new.bytes()));
    assert(bytes_from(all, src) =~= bytes_from(pending, src).push(new.bytes()));
    let filled = new.chunks.update(idx, Some(chunk));
    let missing = if idx == 0 {
        1int
    } else {
        0int
    };
    assert(filled[missing] is None);
}

/// A later fragment takes its place in the message that waits for it, whose wait goes on from
/// its start; the last one that is missing completes the message.
pub proof fn law_later_fragment_takes_its_place(pending: Seq<Pending>, k: int, idx: int, chunk: Seq<u8>, now: u64)
    requires
        within_limits(pending),
        0 <= k < pending.len(),
        0 <= idx < pending[k].chunks.len(),
        pending[k].chunks[idx] is None,
        pending[k].bytes() + chunk.len() <= 524_288,
        sum(all_bytes(pending)) + chunk.len() <= 4_194_304,
        sum(bytes_from(pending, pending[k].src)) + chunk.len() <= 524_288,
    ensures
        ({
            let m = pending[k];
            let (after, r) = received(pending, m.src, m.msg_id, idx, m.chunks.len(), chunk, now);
            let whole = forall|i: int| 0 <= i < m.chunks.len() && i != idx ==> (#[trigger] m.chunks[i]) is Some;
            &&& whole ==> r == Fed::Complete(assembled(m.chunks.update(idx, Some(chunk)))) && after == pending.remove(k)
            &&& !whole ==> r == Fed::Buffered && after == pending.update(
                k,
                Pending { src: m.src, msg_id: m.msg_id, chunks: m.chunks.update(idx, Some(chunk)), started: m.started },
            )
        }),
{
    let m = pending[k];
    lemma_place_is(pending, m.src, m.msg_id, k);
    let filled = m.chunks.update(idx, Some(chunk));
    let whole = forall|i: int| 0 <= i < m.chunks.len() && i != idx ==> (#[trigger] m.chunks[i]) is Some;
    if whole {
        assert forall|i: int| 0 <= i < filled.len() implies (#[trigger] filled[i]) is Some by {
            if i != idx {
                assert(m.chunks[i] is Some);
            }
        }
    } else {
        let i = choose|i: int| 0 <= i < m.chunks.len() && i != idx && !((#[trigger] m.chunks[i]) is Some);
        assert(!(filled[i] is Some));
    }
}

/// A fragment that gives another number of fragments than the first one did ends the wait for
/// the message, and so does one with which the message has more than 524,288 bytes.
pub proof fn law_contradicting_fragment_ends_the_wait(
    pending: Seq<Pending>,
    k: int,
    idx: int,
    total: nat,
    chunk: Seq<u8>,
    now: u64,
)
    requires
        within_limits(pending),
        0 <= k < pending.len(),
        chunk.len() <= 524_288,
        total != pending[k].chunks.len() || 0 <= idx < total && pending[k].chunks[idx] is None && pending[k].bytes()
            + chunk.len() > 524_288,
    ensures
        received(pending, pending[k].src, pending[k].msg_id, idx, total, chunk, now) == (
            pending.remove(k),
            Fed::Buffered,
        ),
{
    lemma_place_is(pending, pending[k].src, pending[k].msg_id, k);
}

/// A fragment for which there is no room changes nothing, and neither does one of more than
/// 524,288 bytes.
pub proof fn law_fragment_without_room_changes_nothing(
    pending: Seq<Pending>,
    k: int,
    idx: int,
    chunk: Seq<u8>,
    now: u64,
)
    requires
        within_limits(pending),
        0 <= k < pending.len(),
        0 <= idx < pending[k].chunks.len(),
        pending[k].chunks[idx] is None,
        chunk.len() > 524_288 || pending[k].bytes() + chunk.len() <= 524_288 && (sum(all_bytes(pending)) + chunk.len()
            > 4_194_304 || sum(bytes_from(pending, pending[k].src)) + chunk.len() > 524_288),
    ensures
        received(pending, pending[k].src, pending[k].msg_id, idx, pending[k].chunks.len(), chunk, now) == (
            pending,
            Fed::Buffered,
        ),
{
    lemma_place_is(pending, pending[k].src, pending[k].msg_id, k);
}

/// The bytes that are held of a message are those of the fragments that have come, and the
/// message is these fragments one after the other.
pub proof fn law_bytes_are_those_that_came(chunks: Seq<Option<Seq<u8>>>, chunk: Seq<u8>)
    ensures
        assembled(chunks.push(Some(chunk))) == assembled(chunks) + chunk,
        assembled(chunks.push(None)) == assembled(chunks),
        assembled(Seq::empty()) == Seq::<u8>::empty(),
        sum(chunk_lens(chunks)) == assembled(chunks).len(),
    decreases chunks.len(),
{
    assert(chunks.push(Some(chunk)).drop_last() =~= chunks);
    assert(chunks.push(None).drop_last() =~= chunks);
    if chunks.len() > 0 {
        law_bytes_are_those_that_came(chunks.drop_last(), chunk);
        assert(chunk_lens(chunks).drop_last() =~= chunk_lens(chunks.drop_last()));
    }
}

} // verus!
