//! What no one but its maker can get accepted: handshake messages that were changed, that
//! are of another network, or that bear a certificate or a signature of the wrong key.
//!
//! Each law says what it takes of the cipher, the signatures and the hash: `opens_only` and
//! `signs_only` stand for their resistance to forgery, and two different hashes for the
//! resistance to collisions.
use crate::bytes::{field, lemma_field, read_field};
use crate::cert::{CaVerifyKey, Cert};
use crate::crypto::hybrid_kem::{MLKEM_CT_LEN, MLKEM_PK_LEN};
use crate::crypto::hybrid_sig::{
    accepts, is_signature, law_signature_needs_its_maker, signs_only, HybridSignature, HybridSigningKey,
};
use crate::crypto::kdf::blake3_hashed;
use crate::handshake::{
    first_error, first_hello, hello_plaintext, incoming_error, is_answer, is_hello_message, is_initiation,
    is_sealed_handshake, law_sealed_handshake_opens, lemma_read_hello, opened_handshake, read_signature, second_error,
    second_hello, Encapsulation, HandshakeInitiate, HandshakeResponse, Hello, HELLO_PREFIX_LEN, KIND_HANDSHAKE_1,
    KIND_HANDSHAKE_2, TRANSCRIPT_LEN,
};
use crate::packet::{law_packet_needs_its_maker, opens_only, wire_header, wire_opened};
use vstd::prelude::*;

verus! {

/// The part of a handshake plaintext that its signature covers, if the certificate's field
/// starts at `cert_at`.
pub open spec fn signed_part(p: Seq<u8>, cert_at: int) -> Seq<u8> {
    p.take(cert_at + 4 + (read_field(p.skip(cert_at))->0).0.len())
}

/// Where the certificate's field of a first message starts.
pub open spec fn cert_at_1() -> int {
    HELLO_PREFIX_LEN + MLKEM_PK_LEN
}

/// Where the certificate's field of a second message starts.
pub open spec fn cert_at_2() -> int {
    HELLO_PREFIX_LEN + MLKEM_CT_LEN + TRANSCRIPT_LEN
}

/// A handshake message is refused if no holder of the network key sealed it, if the
/// authority did not sign its certificate, or if the certificate's owner did not sign it.
proof fn lemma_message_needs_its_makers(
    data: Seq<u8>,
    network_key: Seq<u8>,
    kind: u8,
    kem_len: nat,
    transcript: Seq<u8>,
    cert: Cert,
    ca_vk: CaVerifyKey,
    now: u64,
    sent: Set<Seq<u8>>,
    signed: Set<Seq<u8>>,
)
    requires
        incoming_error(data, network_key, kind, kem_len, transcript, Some(cert), ca_vk, now) is None,
    ensures
        opens_only(network_key, sent) ==> sent.contains(data),
        signs_only(ca_vk.hybrid(), signed) ==> signed.contains(cert.body.json()),
        signs_only(cert.body.keys.hybrid(), signed) ==> signed.contains(
            signed_part(opened_handshake(data, network_key)->0, (HELLO_PREFIX_LEN + kem_len + transcript.len()) as int),
        ),
{
    let p = opened_handshake(data, network_key)->0;
    let cert_at = (HELLO_PREFIX_LEN + kem_len + transcript.len()) as int;
    let (cert_bytes, rest) = read_field(p.skip(cert_at))->0;
    let part = p.take(cert_at + 4 + cert_bytes.len());
    let sig = choose|sig: HybridSignature|
        #[trigger] read_signature(rest, sig) && accepts(cert.body.keys.hybrid(), part, sig);
    assert(wire_header(data, network_key) is Some && wire_opened(data, network_key) is Some);
    if opens_only(network_key, sent) {
        law_packet_needs_its_maker(data, network_key, sent);
    }
    if signs_only(ca_vk.hybrid(), signed) {
        law_signature_needs_its_maker(ca_vk.hybrid(), cert.body.json(), cert.signature.hybrid(), signed);
    }
    if signs_only(cert.body.keys.hybrid(), signed) {
        law_signature_needs_its_maker(cert.body.keys.hybrid(), part, sig, signed);
    }
}

/// A first message is refused
/// - if it is none of those sealed with the receiver's network key, be it of another
///   network or one of them with any byte changed;
/// - if the authority did not sign the body of its certificate;
/// - if the owner of its certificate did not sign it.
pub proof fn law_forged_first_message_is_refused(
    data: Seq<u8>,
    network_key: Seq<u8>,
    cert: Cert,
    ca_vk: CaVerifyKey,
    now: u64,
    sent: Set<Seq<u8>>,
    signed: Set<Seq<u8>>,
)
    ensures
        opens_only(network_key, sent) && !sent.contains(data) ==> first_error(
            data,
            network_key,
            Some(cert),
            ca_vk,
            now,
        ) is Some,
        signs_only(ca_vk.hybrid(), signed) && !signed.contains(cert.body.json()) ==> first_error(
            data,
            network_key,
            Some(cert),
            ca_vk,
            now,
        ) is Some,
        signs_only(cert.body.keys.hybrid(), signed) && !signed.contains(
            signed_part(opened_handshake(data, network_key)->0, cert_at_1()),
        ) ==> first_error(data, network_key, Some(cert), ca_vk, now) is Some,
{
    if first_error(data, network_key, Some(cert), ca_vk, now) is None {
        lemma_message_needs_its_makers(
            data,
            network_key,
            KIND_HANDSHAKE_1,
            MLKEM_PK_LEN as nat,
            Seq::empty(),
            cert,
            ca_vk,
            now,
            sent,
            signed,
        );
    }
}

/// A second message is refused
/// - if it is none of those sealed with the receiver's network key, be it of another
///   network or one of them with any byte changed;
/// - if the authority did not sign the body of its certificate;
/// - if the owner of its certificate did not sign it.
pub proof fn law_forged_answer_is_refused(
    data: Seq<u8>,
    hs1_msg: Seq<u8>,
    network_key: Seq<u8>,
    cert: Cert,
    ca_vk: CaVerifyKey,
    now: u64,
    sent: Set<Seq<u8>>,
    signed: Set<Seq<u8>>,
)
    requires
        blake3_hashed(hs1_msg).len() == TRANSCRIPT_LEN,
    ensures
        opens_only(network_key, sent) && !sent.contains(data) ==> second_error(
            data,
            hs1_msg,
            network_key,
            Some(cert),
            ca_vk,
            now,
        ) is Some,
        signs_only(ca_vk.hybrid(), signed) && !signed.contains(cert.body.json()) ==> second_error(
            data,
            hs1_msg,
            network_key,
            Some(cert),
            ca_vk,
            now,
        ) is Some,
        signs_only(cert.body.keys.hybrid(), signed) && !signed.contains(
            signed_part(opened_handshake(data, network_key)->0, cert_at_2()),
        ) ==> second_error(data, hs1_msg, network_key, Some(cert), ca_vk, now) is Some,
{
    if second_error(data, hs1_msg, network_key, Some(cert), ca_vk, now) is None {
        lemma_message_needs_its_makers(
            data,
            network_key,
            KIND_HANDSHAKE_2,
            MLKEM_CT_LEN as nat,
            blake3_hashed(hs1_msg),
            cert,
            ca_vk,
            now,
            sent,
            signed,
        );
    }
}

/// The receiver of a message finds in it the part that its sender signed.
proof fn lemma_signed_part(
    msg: Seq<u8>,
    hello: Hello,
    sk: HybridSigningKey,
    padding: Seq<u8>,
    session_id: u32,
    network_key: Seq<u8>,
    kem_len: nat,
)
    requires
        is_hello_message(msg, hello, sk, padding, session_id, network_key),
        hello.kind == KIND_HANDSHAKE_1 || hello.kind == KIND_HANDSHAKE_2,
        hello.sized(kem_len, hello.transcript.len()),
        hello.cert.len() <= u32::MAX,
    ensures
        opened_handshake(msg, network_key) is Some,
        ({
            let p = opened_handshake(msg, network_key)->0;
            let cert_at = HELLO_PREFIX_LEN + kem_len + hello.transcript.len();
            &&& signed_part(p, cert_at as int) == hello.signed()
            &&& p.subrange(HELLO_PREFIX_LEN + kem_len, cert_at as int) == hello.transcript
        }),
{
    let sig = choose|sig: HybridSignature|
        {
            &&& is_signature(sk, hello.signed(), sig)
            &&& is_sealed_handshake(msg, #[trigger] hello_plaintext(hello, sig, padding), 0, session_id, network_key)
        };
    let p = hello_plaintext(hello, sig, padding);
    let cert_at = HELLO_PREFIX_LEN + kem_len + hello.transcript.len();
    let tail = sig.ed25519@ + sig.ml_dsa@ + padding;
    let rest = field(hello.cert) + tail;
    assert(p =~= hello.prefix() + rest);
    lemma_read_hello(hello, kem_len, hello.transcript.len(), rest);
    lemma_field(hello.cert, tail);
    law_sealed_handshake_opens(msg, p, 0, session_id, network_key);
    assert(p.take(cert_at + 4 + hello.cert.len()) =~= hello.signed());
}

/// Whoever starts a handshake with a certificate that is not its own is refused: `init` is
/// signed with some key, and the owner of the certificate signed no such message.
pub proof fn law_copied_certificate_starts_nothing(
    init: HandshakeInitiate,
    cert: Cert,
    sk: HybridSigningKey,
    network_key: Seq<u8>,
    relay_flag: bool,
    sent_at: u64,
    random: Seq<u8>,
    padding: Seq<u8>,
    ca_vk: CaVerifyKey,
    now: u64,
    signed: Set<Seq<u8>>,
)
    requires
        is_initiation(init, cert, sk, network_key, relay_flag, sent_at, random, padding),
        cert.json().len() <= u32::MAX,
        signs_only(cert.body.keys.hybrid(), signed),
        !signed.contains(
            first_hello(
                cert,
                relay_flag,
                init.eph_x25519_sk@,
                init.eph_mlkem_sk.seed@,
                init.my_rx_session_id,
                random,
                sent_at,
            ).signed(),
        ),
    ensures
        first_error(init.msg@, network_key, Some(cert), ca_vk, now) is Some,
{
    let hello = first_hello(
        cert,
        relay_flag,
        init.eph_x25519_sk@,
        init.eph_mlkem_sk.seed@,
        init.my_rx_session_id,
        random,
        sent_at,
    );
    lemma_signed_part(init.msg@, hello, sk, padding, 0, network_key, MLKEM_PK_LEN as nat);
    law_forged_first_message_is_refused(init.msg@, network_key, cert, ca_vk, now, Set::empty(), signed);
}

/// Whoever answers a handshake with a certificate that is not its own is refused: `resp` is
/// signed with some key, and the owner of the certificate signed no such message.
pub proof fn law_copied_certificate_answers_nothing(
    resp: HandshakeResponse,
    hs1_msg: Seq<u8>,
    enc: Encapsulation,
    cert: Cert,
    sk: HybridSigningKey,
    network_key: Seq<u8>,
    relay_flag: bool,
    sent_at: u64,
    random: Seq<u8>,
    padding: Seq<u8>,
    ca_vk: CaVerifyKey,
    now: u64,
    signed: Set<Seq<u8>>,
)
    requires
        is_answer(resp, hs1_msg, enc, cert, sk, network_key, relay_flag, sent_at, random, padding),
        cert.json().len() <= u32::MAX,
        signs_only(cert.body.keys.hybrid(), signed),
        !signed.contains(
            second_hello(
                cert,
                relay_flag,
                enc.eph_x25519_pk@,
                enc.mlkem_ct@,
                hs1_msg,
                resp.my_rx_session_id,
                random,
                sent_at,
            ).signed(),
        ),
    ensures
        second_error(resp.msg@, hs1_msg, network_key, Some(cert), ca_vk, now) is Some,
{
    let hello = second_hello(
        cert,
        relay_flag,
        enc.eph_x25519_pk@,
        enc.mlkem_ct@,
        hs1_msg,
        resp.my_rx_session_id,
        random,
        sent_at,
    );
    lemma_signed_part(resp.msg@, hello, sk, padding, resp.peer_rx_session_id, network_key, MLKEM_CT_LEN as nat);
    law_forged_answer_is_refused(resp.msg@, hs1_msg, network_key, cert, ca_vk, now, Set::empty(), signed);
}

/// An answer is refused by everyone who sent another first message than the one that it
/// answers, where the two messages have different hashes.
pub proof fn law_answer_fits_one_first_message(
    resp: HandshakeResponse,
    answered: Seq<u8>,
    hs1_msg: Seq<u8>,
    enc: Encapsulation,
    cert: Cert,
    sk: HybridSigningKey,
    network_key: Seq<u8>,
    relay_flag: bool,
    sent_at: u64,
    random: Seq<u8>,
    padding: Seq<u8>,
    peer_cert: Option<Cert>,
    ca_vk: CaVerifyKey,
    now: u64,
)
    requires
        is_answer(resp, answered, enc, cert, sk, network_key, relay_flag, sent_at, random, padding),
        cert.json().len() <= u32::MAX,
        blake3_hashed(hs1_msg).len() == TRANSCRIPT_LEN,
        blake3_hashed(hs1_msg) != blake3_hashed(answered),
    ensures
        second_error(resp.msg@, hs1_msg, network_key, peer_cert, ca_vk, now) is Some,
{
    let hello = second_hello(
        cert,
        relay_flag,
        enc.eph_x25519_pk@,
        enc.mlkem_ct@,
        answered,
        resp.my_rx_session_id,
        random,
        sent_at,
    );
    lemma_signed_part(resp.msg@, hello, sk, padding, resp.peer_rx_session_id, network_key, MLKEM_CT_LEN as nat);
}

} // verus!
