//! When the message of an honest node is accepted, and what an accepted message says.
use crate::bytes::{be16, be32, be64, field, from_be32, from_be64, lemma_field, read_field};
use crate::cert::{CaVerifyKey, Cert};
use crate::crypto::hybrid_kem::{MLKEM_CT_LEN, MLKEM_PK_LEN};
use crate::crypto::hybrid_sig::{
    accepts, ed25519_neutral, ed25519_signature, is_keypair, is_signature, HybridSignature, HybridSigningKey,
};
use crate::handshake::{
    first_error, first_hello, hello_plaintext, incoming_error, is_answer, is_hello_message, is_honest, is_initiation,
    is_sealed_handshake, law_honest_message_is_accepted, law_sealed_handshake_opens, lemma_read_hello, opened_handshake,
    read_signature, second_error, second_hello, Encapsulation, HandshakeError, HandshakeInitiate, HandshakeResponse, Hello,
    HANDSHAKE_VERSION, KIND_HANDSHAKE_1, KIND_HANDSHAKE_2,
};
use vstd::prelude::*;

verus! {

/// Whether a certificate is a node's, holds at the time, and is signed by the authority.
pub open spec fn is_good(cert: Cert, ca_vk: CaVerifyKey, now: u64) -> bool {
    &&& !cert.body.meta.is_ca
    &&& cert.body.meta.not_before.spec_secs() <= now
    &&& now <= cert.body.meta.not_after.spec_secs()
    &&& accepts(ca_vk.hybrid(), cert.body.json(), cert.signature.hybrid())
}

/// Whether `sk` is the key of a certificate's owner, and its Ed25519 signature on a message is
/// not the neutral one, which no key accepts.
pub open spec fn is_owner(sk: HybridSigningKey, cert: Cert, signed: Seq<u8>) -> bool {
    &&& is_keypair(sk, cert.body.keys.hybrid())
    &&& ed25519_signature(sk.ed25519@, signed).take(32) != ed25519_neutral()
}

/// The message of a certificate's owner is accepted if and only if it was sent at most 300
/// seconds before or after the time, by the receiver's clock, and the certificate is good.
/// Outside of these 300 seconds it is refused for its time.
#[verifier::rlimit(50)]
#[verifier::spinoff_prover]
pub proof fn law_message_in_time_is_accepted(
    msg: Seq<u8>,
    hello: Hello,
    sk: HybridSigningKey,
    padding: Seq<u8>,
    session_id: u32,
    network_key: Seq<u8>,
    kem_len: nat,
    cert: Cert,
    ca_vk: CaVerifyKey,
    now: u64,
)
    requires
        is_hello_message(msg, hello, sk, padding, session_id, network_key),
        hello.kind == KIND_HANDSHAKE_1 || hello.kind == KIND_HANDSHAKE_2,
        hello.sized(kem_len, hello.transcript.len()),
        hello.cert.len() <= u32::MAX,
        is_owner(sk, cert, hello.signed()),
    ensures
        ({
            let error = incoming_error(msg, network_key, hello.kind, kem_len, hello.transcript, Some(cert), ca_vk, now);
            let in_time = hello.timestamp - now <= 300 && now - hello.timestamp <= 300;
            &&& error is None <==> in_time && is_good(cert, ca_vk, now)
            &&& !in_time ==> error == Some(HandshakeError::ClockSkew)
            &&& in_time && !is_good(cert, ca_vk, now) ==> error == Some(HandshakeError::CertInvalid)
        }),
{
    if hello.timestamp - now <= 300 && now - hello.timestamp <= 300 && is_good(cert, ca_vk, now) {
        law_honest_message_is_accepted(
            msg,
            hello,
            sk,
            padding,
            session_id,
            network_key,
            kem_len,
            cert,
            ca_vk,
            now,
        );
    } else {
        let sig = choose|sig: HybridSignature|
            {
                &&& is_signature(sk, hello.signed(), sig)
                &&& is_sealed_handshake(msg, #[trigger] hello_plaintext(hello, sig, padding), 0, session_id, network_key)
            };
        let p = hello_plaintext(hello, sig, padding);
        let tail = sig.ed25519@ + sig.ml_dsa@ + padding;
        let rest = field(hello.cert) + tail;
        assert(p =~= hello.prefix() + rest);
        lemma_read_hello(hello, kem_len, hello.transcript.len(), rest);
        lemma_field(hello.cert, tail);
        law_sealed_handshake_opens(msg, p, 0, session_id, network_key);
    }
}

/// The first message of a certificate's owner is accepted if and only if the clocks of the two
/// nodes differ by at most 300 seconds and the certificate is good.
#[verifier::rlimit(50)]
#[verifier::spinoff_prover]
pub proof fn law_first_message_in_time_is_accepted(
    init: HandshakeInitiate,
    cert: Cert,
    sk: HybridSigningKey,
    network_key: Seq<u8>,
    relay_flag: bool,
    sent_at: u64,
    random: Seq<u8>,
    padding: Seq<u8>,
    ca_vk: CaVerifyKey,
    now: u64,
)
    requires
        is_initiation(init, cert, sk, network_key, relay_flag, sent_at, random, padding),
        cert.json().len() <= u32::MAX,
        is_owner(
            sk,
            cert,
            first_hello(
                cert,
                relay_flag,
                init.eph_x25519_sk@,
                init.eph_mlkem_sk.seed@,
                init.my_rx_session_id,
                random,
                sent_at,
            ).signed(),
        ),
    ensures
        first_error(init.msg@, network_key, Some(cert), ca_vk, now) is None <==> sent_at - now <= 300 && now - sent_at
            <= 300 && is_good(cert, ca_vk, now),
{
    let hello = first_hello(
        cert,
        relay_flag,
        init.eph_x25519_sk@,
        init.eph_mlkem_sk.seed@,
        init.my_rx_session_id,
        random,
        sent_at,
    );
    law_message_in_time_is_accepted(
        init.msg@,
        hello,
        sk,
        padding,
        0,
        network_key,
        MLKEM_PK_LEN as nat,
        cert,
        ca_vk,
        now,
    );
    if incoming_error(init.msg@, network_key, hello.kind, MLKEM_PK_LEN as nat, hello.transcript, Some(cert), ca_vk, now)
        is None {
        assert(is_honest(hello, sk, cert, ca_vk, now));
        law_honest_message_is_accepted(
            init.msg@,
            hello,
            sk,
            padding,
            0,
            network_key,
            MLKEM_PK_LEN as nat,
            cert,
            ca_vk,
            now,
        );
    }
}

/// The answer of a certificate's owner is accepted if and only if the clocks of the two nodes
/// differ by at most 300 seconds and the certificate is good.
#[verifier::rlimit(50)]
#[verifier::spinoff_prover]
pub proof fn law_answer_in_time_is_accepted(
    resp: HandshakeResponse,
    hs1_msg: Seq<u8>,
    enc: Encapsulation,
    cert: Cert,
    sk: HybridSigningKey,
    network_key: Seq<u8>,
    relay_flag: bool,
    sent_at: u64,
    random: Seq<u8>,
    padding: Seq<u8>,
    ca_vk: CaVerifyKey,
    now: u64,
)
    requires
        is_answer(resp, hs1_msg, enc, cert, sk, network_key, relay_flag, sent_at, random, padding),
        cert.json().len() <= u32::MAX,
        is_owner(
            sk,
            cert,
            second_hello(
                cert,
                relay_flag,
                enc.eph_x25519_pk@,
                enc.mlkem_ct@,
                hs1_msg,
                resp.my_rx_session_id,
                random,
                sent_at,
            ).signed(),
        ),
    ensures
        second_error(resp.msg@, hs1_msg, network_key, Some(cert), ca_vk, now) is None <==> sent_at - now <= 300 && now
            - sent_at <= 300 && is_good(cert, ca_vk, now),
{
    law_message_in_time_is_accepted(
        resp.msg@,
        second_hello(
            cert,
            relay_flag,
            enc.eph_x25519_pk@,
            enc.mlkem_ct@,
            hs1_msg,
            resp.my_rx_session_id,
            random,
            sent_at,
        ),
        sk,
        padding,
        resp.peer_rx_session_id,
        network_key,
        MLKEM_CT_LEN as nat,
        cert,
        ca_vk,
        now,
    );
}

/// The plaintext of a handshake message holds, in this order: its kind, the version 2, two
/// bytes of flags, eight of the time, sixteen random ones, four of the session, thirty-two of
/// the X25519 key, the ML-KEM field, the hash of the message that it answers, the length of
/// the certificate in four bytes and the certificate, and the two signatures.
#[verifier::rlimit(50)]
#[verifier::spinoff_prover]
pub proof fn law_message_layout(hello: Hello, sig: HybridSignature, padding: Seq<u8>, kem_len: nat)
    requires
        hello.sized(kem_len, hello.transcript.len()),
    ensures
        ({
            let p = hello_plaintext(hello, sig, padding);
            let cert_at = (64 + kem_len + hello.transcript.len()) as int;
            let sig_at = cert_at + 4 + hello.cert.len();
            &&& p[0] == hello.kind
            &&& p[1] == 2
            &&& p.subrange(2, 4) == be16(hello.flags)
            &&& p.subrange(4, 12) == be64(hello.timestamp)
            &&& p.subrange(12, 28) == hello.random
            &&& p.subrange(28, 32) == be32(hello.rx_session_id)
            &&& p.subrange(32, 64) == hello.eph_x25519_pk
            &&& p.subrange(64, (64 + kem_len) as int) == hello.kem
            &&& p.subrange((64 + kem_len) as int, cert_at) == hello.transcript
            &&& p.subrange(cert_at, cert_at + 4) == be32(hello.cert.len() as u32)
            &&& p.subrange(cert_at + 4, sig_at) == hello.cert
            &&& p.subrange(sig_at, sig_at + 64) == sig.ed25519@
            &&& p.subrange(sig_at + 64, sig_at + 64 + 3309) == sig.ml_dsa@
            &&& p.skip(sig_at + 64 + 3309) == padding
        }),
{
    let p = hello_plaintext(hello, sig, padding);
    let cert_at = (64 + kem_len + hello.transcript.len()) as int;
    let sig_at = cert_at + 4 + hello.cert.len();
    let tail = sig.ed25519@ + sig.ml_dsa@ + padding;
    let rest = field(hello.cert) + tail;
    assert(p =~= hello.prefix() + rest);
    lemma_read_hello(hello, kem_len, hello.transcript.len(), rest);
    lemma_numbers_in_prefix(hello, rest);
    let n = 4 + hello.cert.len() as int;
    assert(p.subrange(cert_at, cert_at + 4) =~= rest.take(4));
    assert(rest.take(4) =~= be32(hello.cert.len() as u32));
    assert(p.subrange(cert_at + 4, sig_at) =~= rest.subrange(4, n));
    assert(rest.subrange(4, n) =~= hello.cert);
    assert(p.skip(sig_at) =~= rest.skip(n));
    assert(rest.skip(n) =~= tail);
    lemma_signatures(p, sig_at, sig, padding);
}

/// The numbers at the start of a handshake message.
proof fn lemma_numbers_in_prefix(hello: Hello, rest: Seq<u8>)
    requires
        hello.random.len() == 16,
    ensures
        (hello.prefix() + rest).subrange(2, 4) == be16(hello.flags),
        (hello.prefix() + rest).subrange(4, 12) == be64(hello.timestamp),
        (hello.prefix() + rest).subrange(28, 32) == be32(hello.rx_session_id),
{
    let a = seq![hello.kind, HANDSHAKE_VERSION] + be16(hello.flags);
    let b = a + be64(hello.timestamp);
    let c = b + hello.random;
    let d = c + be32(hello.rx_session_id);
    let p = hello.prefix() + rest;
    assert(d.len() == 32);
    assert(p.take(32) =~= d);
    assert(p.subrange(28, 32) =~= d.subrange(28, 32));
    assert(d.subrange(28, 32) =~= be32(hello.rx_session_id));
    assert(p.subrange(4, 12) =~= b.subrange(4, 12));
    assert(b.subrange(4, 12) =~= be64(hello.timestamp));
    assert(p.subrange(2, 4) =~= a.subrange(2, 4));
    assert(a.subrange(2, 4) =~= be16(hello.flags));
}

/// The signatures and the padding at the end of a handshake message.
proof fn lemma_signatures(p: Seq<u8>, at: int, sig: HybridSignature, padding: Seq<u8>)
    requires
        0 <= at <= p.len(),
        p.skip(at) == sig.ed25519@ + sig.ml_dsa@ + padding,
    ensures
        p.subrange(at, at + 64) == sig.ed25519@,
        p.subrange(at + 64, at + 64 + 3309) == sig.ml_dsa@,
        p.skip(at + 64 + 3309) == padding,
{
    let tail = p.skip(at);
    assert(tail.len() == p.len() - at);
    assert(tail.len() == 3373 + padding.len());
    assert(p.subrange(at, at + 64) =~= tail.take(64));
    assert(tail.take(64) =~= sig.ed25519@);
    assert(p.subrange(at + 64, at + 64 + 3309) =~= tail.subrange(64, 3373));
    assert(tail.subrange(64, 3373) =~= sig.ml_dsa@);
    assert(p.skip(at + 64 + 3309) =~= tail.skip(3373));
    assert(tail.skip(3373) =~= padding);
}

/// What is known of an accepted message: it is of the expected kind and of version 2, it was
/// sent at most 300 seconds before or after the time, it repeats the expected hash, its
/// certificate is good, and the certificate's keys accept a signature on all that stands
/// before the signature, the certificate included.
pub proof fn law_accepted_message_is_genuine(
    data: Seq<u8>,
    network_key: Seq<u8>,
    kind: u8,
    kem_len: nat,
    transcript: Seq<u8>,
    cert: Cert,
    ca_vk: CaVerifyKey,
    now: u64,
)
    requires
        incoming_error(data, network_key, kind, kem_len, transcript, Some(cert), ca_vk, now) is None,
    ensures
        opened_handshake(data, network_key) is Some,
        is_good(cert, ca_vk, now),
        ({
            let p = opened_handshake(data, network_key)->0;
            let sent_at = from_be64(p.skip(4));
            let cert_at = (64 + kem_len + transcript.len()) as int;
            let cert_len = from_be32(p.skip(cert_at));
            &&& p.len() >= cert_at + 4 + cert_len + 64 + 3309
            &&& p[0] == kind
            &&& p[1] == 2
            &&& sent_at - now <= 300
            &&& now - sent_at <= 300
            &&& p.subrange((64 + kem_len) as int, cert_at) == transcript
            &&& exists|sig: HybridSignature|
                {
                    &&& sig.ed25519@ == p.subrange(cert_at + 4 + cert_len, cert_at + 4 + cert_len + 64)
                    &&& sig.ml_dsa@ == p.subrange(cert_at + 4 + cert_len + 64, cert_at + 4 + cert_len + 64 + 3309)
                    &&& #[trigger] accepts(cert.body.keys.hybrid(), p.take(cert_at + 4 + cert_len), sig)
                }
        }),
{
    let p = opened_handshake(data, network_key)->0;
    let cert_at = (64 + kem_len + transcript.len()) as int;
    let n = from_be32(p.skip(cert_at)) as int;
    let (cert_bytes, rest) = read_field(p.skip(cert_at))->0;
    assert(cert_bytes.len() == n);
    let at = cert_at + 4 + n;
    assert(rest =~= p.skip(at));
    let sig = choose|sig: HybridSignature|
        #[trigger] read_signature(rest, sig) && accepts(cert.body.keys.hybrid(), p.take(at), sig);
    assert(rest.take(64) =~= p.subrange(at, at + 64));
    assert(rest.subrange(64, 3373) =~= p.subrange(at + 64, at + 64 + 3309));
}

/// Only the lowest flag says whether the sender relays.
pub proof fn law_relay_flag_is_the_lowest(hello: Hello)
    ensures
        hello.is_relay() <==> hello.flags & 1 == 1,
{
    let flags = hello.flags;
    assert(flags % 2 == 1 <==> flags & 1 == 1) by (bit_vector);
}

} // verus!
