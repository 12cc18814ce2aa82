//! What a certificate says under the authority's signature, and for how long.
use crate::bytes::from_be32;
use crate::cert::{
    addresses_json, is_new_ca, is_new_node, keys_json, meta_json, node_id, CaSigningKey, CaVerifyKey, Cert, CertBody,
    FullCaCert, KeyMaterial, NodeKeyFile,
};
use crate::clock::Timestamp;
use crate::crypto::hybrid_sig::{is_degenerate, is_keypair, HybridSigningKey, HybridVerifyKey};
use crate::crypto::kdf::blake3_hashed;
use crate::text::{hex_text, json_items, json_list, json_string, law_hex_is_read_back, texts, utf8};
use vstd::prelude::*;
use vstd::utf8::{is_ascii_chars, is_ascii_chars_encode_utf8};

verus! {

/// Whether JSON strings start with a quotation mark and none goes on as another one does, so
/// that a string can be told from what follows it.
pub open spec fn strings_are_delimited() -> bool {
    &&& forall|a: Seq<char>| (#[trigger] json_string(a)).len() > 0 && json_string(a)[0] == 0x22
    &&& forall|a: Seq<char>, x: Seq<u8>, b: Seq<char>, y: Seq<u8>|
        #[trigger] (json_string(a) + x) == #[trigger] (json_string(b) + y) ==> a == b && x == y
}

/// What follows the same start is the same.
proof fn lemma_strip(p: Seq<u8>, x: Seq<u8>, y: Seq<u8>)
    requires
        p + x == p + y,
    ensures
        x == y,
{
    assert((p + x).skip(p.len() as int) =~= x);
    assert((p + y).skip(p.len() as int) =~= y);
}

/// Three parts, taken together from either end.
proof fn lemma_regroup(a: Seq<u8>, b: Seq<u8>, c: Seq<u8>)
    ensures
        (a + b) + c == a + (b + c),
{
    assert((a + b) + c =~= a + (b + c));
}

/// Six parts, taken together from either end.
proof fn lemma_six_parts(a: Seq<u8>, b: Seq<u8>, c: Seq<u8>, d: Seq<u8>, e: Seq<u8>, x: Seq<u8>)
    ensures
        a + b + c + d + e + x == a + (b + (c + (d + (e + x)))),
{
    lemma_regroup(a + b + c + d, e, x);
    lemma_regroup(a + b + c, d, e + x);
    lemma_regroup(a + b, c, d + (e + x));
    lemma_regroup(a, b, c + (d + (e + x)));
}

/// Seven parts, taken together from either end.
proof fn lemma_seven_parts(a: Seq<u8>, b: Seq<u8>, c: Seq<u8>, d: Seq<u8>, e: Seq<u8>, f: Seq<u8>, x: Seq<u8>)
    ensures
        a + b + c + d + e + f + x == a + (b + (c + (d + (e + (f + x))))),
{
    lemma_regroup(a + b + c + d + e, f, x);
    lemma_regroup(a + b + c + d, e, f + x);
    lemma_regroup(a + b + c, d, e + (f + x));
    lemma_regroup(a + b, c, d + (e + (f + x)));
    lemma_regroup(a, b, c + (d + (e + (f + x))));
}

/// The bytes of the marks that the parts of a certificate are told apart by.
proof fn lemma_marks()
    ensures
        utf8("true")[0] == 0x74,
        utf8("true").len() == 4,
        utf8("false")[0] == 0x66,
        utf8("false").len() == 5,
        utf8(",")[0] == 0x2c,
        utf8(",").len() == 1,
        utf8("]")[0] == 0x5d,
        utf8("]").len() == 1,
        utf8("}")[0] == 0x7d,
        utf8("}").len() == 1,
        utf8(",\"addresses\":")[0] == 0x2c,
        utf8(",\"addresses\":").len() == 13,
{
    reveal_strlit("true");
    reveal_strlit("false");
    reveal_strlit(",");
    reveal_strlit("]");
    reveal_strlit("}");
    reveal_strlit(",\"addresses\":");
    assert(is_ascii_chars("true"@));
    assert(is_ascii_chars("false"@));
    assert(is_ascii_chars(","@));
    assert(is_ascii_chars("]"@));
    assert(is_ascii_chars("}"@));
    assert(is_ascii_chars(",\"addresses\":"@));
    is_ascii_chars_encode_utf8("true"@);
    is_ascii_chars_encode_utf8("false"@);
    is_ascii_chars_encode_utf8(","@);
    is_ascii_chars_encode_utf8("]"@);
    is_ascii_chars_encode_utf8("}"@);
    is_ascii_chars_encode_utf8(",\"addresses\":"@);
}

/// The strings of a list from the `i`-th on, in JSON, with a comma before each, and the end.
spec fn items_from(list: Seq<Seq<char>>, i: nat) -> Seq<u8>
    decreases list.len() - i,
{
    if i >= list.len() {
        utf8("]")
    } else {
        utf8(",") + (json_string(list[i as int]) + items_from(list, i + 1))
    }
}

proof fn lemma_items(list: Seq<Seq<char>>, n: nat)
    requires
        1 <= n <= list.len(),
    ensures
        json_items(list, n) + items_from(list, n) == json_string(list[0]) + items_from(list, 1),
    decreases n,
{
    if n > 1 {
        lemma_items(list, (n - 1) as nat);
        assert(json_items(list, n) + items_from(list, n) =~= json_items(list, (n - 1) as nat) + (utf8(",") + (json_string(
            list[n - 1],
        ) + items_from(list, n))));
    }
}

/// What follows the opening bracket of a list in JSON.
spec fn list_tail(list: Seq<Seq<char>>) -> Seq<u8> {
    if list.len() == 0 {
        utf8("]")
    } else {
        json_string(list[0]) + items_from(list, 1)
    }
}

proof fn lemma_list(list: Seq<Seq<char>>)
    ensures
        json_list(list) == utf8("[") + list_tail(list),
{
    if list.len() > 0 {
        lemma_items(list, list.len());
    }
    assert(json_list(list) =~= utf8("[") + (json_items(list, list.len()) + utf8("]")));
    if list.len() == 0 {
        assert(json_items(list, 0) + utf8("]") =~= utf8("]"));
    }
}

proof fn lemma_same_items(a: Seq<Seq<char>>, b: Seq<Seq<char>>, i: nat, x: Seq<u8>, y: Seq<u8>)
    requires
        strings_are_delimited(),
        items_from(a, i) + x == items_from(b, i) + y,
        i <= a.len(),
        i <= b.len(),
    ensures
        a.len() == b.len(),
        forall|j: int| i <= j < a.len() ==> a[j] == b[j],
        x == y,
    decreases a.len() - i,
{
    lemma_marks();
    let l = items_from(a, i) + x;
    let r = items_from(b, i) + y;
    assert(i >= a.len() ==> l[0] == 0x5d);
    assert(i < a.len() ==> l[0] == 0x2c);
    assert(i >= b.len() ==> r[0] == 0x5d);
    assert(i < b.len() ==> r[0] == 0x2c);
    if i >= a.len() {
        lemma_strip(utf8("]"), x, y);
    } else {
        let (s, t) = (json_string(a[i as int]), json_string(b[i as int]));
        assert(l =~= utf8(",") + (s + (items_from(a, i + 1) + x)));
        assert(r =~= utf8(",") + (t + (items_from(b, i + 1) + y)));
        lemma_strip(utf8(","), s + (items_from(a, i + 1) + x), t + (items_from(b, i + 1) + y));
        lemma_same_items(a, b, i + 1, x, y);
    }
}

proof fn lemma_same_list(a: Seq<Seq<char>>, b: Seq<Seq<char>>, x: Seq<u8>, y: Seq<u8>)
    requires
        strings_are_delimited(),
        json_list(a) + x == json_list(b) + y,
    ensures
        a == b,
        x == y,
{
    lemma_marks();
    lemma_list(a);
    lemma_list(b);
    assert(json_list(a) + x =~= utf8("[") + (list_tail(a) + x));
    assert(json_list(b) + y =~= utf8("[") + (list_tail(b) + y));
    lemma_strip(utf8("["), list_tail(a) + x, list_tail(b) + y);
    let l = list_tail(a) + x;
    let r = list_tail(b) + y;
    assert(a.len() == 0 ==> l[0] == 0x5d);
    assert(a.len() > 0 ==> l[0] == json_string(a[0])[0]);
    assert(b.len() == 0 ==> r[0] == 0x5d);
    assert(b.len() > 0 ==> r[0] == json_string(b[0])[0]);
    if a.len() == 0 {
        lemma_strip(utf8("]"), x, y);
    } else {
        assert(l =~= json_string(a[0]) + (items_from(a, 1) + x));
        assert(r =~= json_string(b[0]) + (items_from(b, 1) + y));
        lemma_same_items(a, b, 1, x, y);
    }
    assert(a =~= b);
}

proof fn lemma_same_flag(a: bool, b: bool, x: Seq<u8>, y: Seq<u8>)
    requires
        (if a {
            utf8("true")
        } else {
            utf8("false")
        }) + x == (if b {
            utf8("true")
        } else {
            utf8("false")
        }) + y,
    ensures
        a == b,
        x == y,
{
    lemma_marks();
    let f = if a {
        utf8("true")
    } else {
        utf8("false")
    };
    let g = if b {
        utf8("true")
    } else {
        utf8("false")
    };
    assert((f + x)[0] == f[0]);
    assert((g + y)[0] == g[0]);
    assert(a == b);
    lemma_strip(f, x, y);
}

proof fn lemma_meta_parts(name: Seq<char>, is_ca: bool, from: Seq<char>, to: Seq<char>, groups: Seq<Seq<char>>, x: Seq<u8>)
    ensures
        meta_json(name, is_ca, from, to, groups) + x == utf8("{\"name\":") + (json_string(name) + (utf8(
            ",\"is_ca\":",
        ) + ((if is_ca {
            utf8("true")
        } else {
            utf8("false")
        }) + (utf8(",\"not_before\":") + (json_string(from) + (utf8(",\"not_after\":") + (json_string(to) + (utf8(
            ",\"groups\":",
        ) + (json_list(groups) + (utf8("}") + x)))))))))),
{
    let (k1, k2, k3, k4, k5) = (
        utf8("{\"name\":"),
        utf8(",\"is_ca\":"),
        utf8(",\"not_before\":"),
        utf8(",\"not_after\":"),
        utf8(",\"groups\":"),
    );
    let f = if is_ca {
        utf8("true")
    } else {
        utf8("false")
    };
    let e = utf8("}");
    let (n, b, a, l) = (json_string(name), json_string(from), json_string(to), json_list(groups));
    let start = k1 + n + k2 + f + k3 + b;
    lemma_seven_parts(start, k4, a, k5, l, e, x);
    lemma_seven_parts(k1, n, k2, f, k3, b, k4 + (a + (k5 + (l + (e + x)))));
}

proof fn lemma_same_meta(
    name: Seq<char>,
    is_ca: bool,
    from: Seq<char>,
    to: Seq<char>,
    groups: Seq<Seq<char>>,
    x: Seq<u8>,
    name2: Seq<char>,
    is_ca2: bool,
    from2: Seq<char>,
    to2: Seq<char>,
    groups2: Seq<Seq<char>>,
    y: Seq<u8>,
)
    requires
        strings_are_delimited(),
        meta_json(name, is_ca, from, to, groups) + x == meta_json(name2, is_ca2, from2, to2, groups2) + y,
    ensures
        name == name2,
        is_ca == is_ca2,
        from == from2,
        to == to2,
        groups == groups2,
        x == y,
{
    let (k1, k2, k3, k4, k5) = (
        utf8("{\"name\":"),
        utf8(",\"is_ca\":"),
        utf8(",\"not_before\":"),
        utf8(",\"not_after\":"),
        utf8(",\"groups\":"),
    );
    let f = if is_ca {
        utf8("true")
    } else {
        utf8("false")
    };
    let g = if is_ca2 {
        utf8("true")
    } else {
        utf8("false")
    };
    let e = utf8("}");
    let (a5, b5) = (json_list(groups) + (e + x), json_list(groups2) + (e + y));
    let (a4, b4) = (json_string(to) + (k5 + a5), json_string(to2) + (k5 + b5));
    let (a3, b3) = (json_string(from) + (k4 + a4), json_string(from2) + (k4 + b4));
    let (a2, b2) = (f + (k3 + a3), g + (k3 + b3));
    let (a1, b1) = (json_string(name) + (k2 + a2), json_string(name2) + (k2 + b2));
    lemma_meta_parts(name, is_ca, from, to, groups, x);
    lemma_meta_parts(name2, is_ca2, from2, to2, groups2, y);
    lemma_strip(k1, a1, b1);
    lemma_strip(k2, a2, b2);
    lemma_same_flag(is_ca, is_ca2, k3 + a3, k3 + b3);
    lemma_strip(k3, a3, b3);
    lemma_strip(k4, a4, b4);
    lemma_strip(k5, a5, b5);
    lemma_same_list(groups, groups2, e + x, e + y);
    lemma_strip(e, x, y);
}

proof fn lemma_same_keys(a: HybridVerifyKey, b: HybridVerifyKey, x: Seq<u8>, y: Seq<u8>)
    requires
        strings_are_delimited(),
        keys_json(a) + x == keys_json(b) + y,
    ensures
        a.ed25519@ == b.ed25519@,
        a.ml_dsa@ == b.ml_dsa@,
        x == y,
{
    let (k1, k2, e) = (utf8("{\"ed25519_pk\":"), utf8(",\"ml_dsa_pk\":"), utf8("}"));
    let (a2, b2) = (json_string(hex_text(a.ml_dsa@)) + (e + x), json_string(hex_text(b.ml_dsa@)) + (e + y));
    let (a1, b1) = (json_string(hex_text(a.ed25519@)) + (k2 + a2), json_string(hex_text(b.ed25519@)) + (k2 + b2));
    lemma_six_parts(k1, json_string(hex_text(a.ed25519@)), k2, json_string(hex_text(a.ml_dsa@)), e, x);
    lemma_six_parts(k1, json_string(hex_text(b.ed25519@)), k2, json_string(hex_text(b.ml_dsa@)), e, y);
    lemma_strip(k1, a1, b1);
    lemma_strip(k2, a2, b2);
    lemma_strip(e, x, y);
    law_hex_is_read_back(a.ed25519@);
    law_hex_is_read_back(b.ed25519@);
    law_hex_is_read_back(a.ml_dsa@);
    law_hex_is_read_back(b.ml_dsa@);
}

proof fn lemma_same_addresses(
    ip: Seq<char>,
    subnets: Seq<Seq<char>>,
    x: Seq<u8>,
    ip2: Seq<char>,
    subnets2: Seq<Seq<char>>,
    y: Seq<u8>,
)
    requires
        strings_are_delimited(),
        addresses_json(ip, subnets) + x == addresses_json(ip2, subnets2) + y,
    ensures
        ip == ip2,
        subnets == subnets2,
        x == y,
{
    let (k1, k2, e) = (utf8("{\"ip\":"), utf8(",\"subnets\":"), utf8("}"));
    let (a2, b2) = (json_list(subnets) + (e + x), json_list(subnets2) + (e + y));
    let (a1, b1) = (json_string(ip) + (k2 + a2), json_string(ip2) + (k2 + b2));
    lemma_six_parts(k1, json_string(ip), k2, json_list(subnets), e, x);
    lemma_six_parts(k1, json_string(ip2), k2, json_list(subnets2), e, y);
    lemma_strip(k1, a1, b1);
    lemma_strip(k2, a2, b2);
    lemma_same_list(subnets, subnets2, e + x, e + y);
    lemma_strip(e, x, y);
}

/// The authority signs everything that a certificate says: two bodies with the same signed
/// bytes have the same name, mark of an authority, validity, groups, keys, address and
/// subnets.
pub proof fn law_signature_covers_the_body(a: CertBody, b: CertBody)
    requires
        strings_are_delimited(),
        a.json() == b.json(),
    ensures
        a.meta.name@ == b.meta.name@,
        a.meta.is_ca == b.meta.is_ca,
        a.meta.not_before.text() == b.meta.not_before.text(),
        a.meta.not_after.text() == b.meta.not_after.text(),
        texts(a.meta.groups@) == texts(b.meta.groups@),
        a.keys.ed25519_pk@ == b.keys.ed25519_pk@,
        a.keys.ml_dsa_pk@ == b.keys.ml_dsa_pk@,
        a.addresses is Some <==> b.addresses is Some,
        a.addresses is Some ==> a.addresses->0.ip@ == b.addresses->0.ip@ && texts(a.addresses->0.subnets@) == texts(
            b.addresses->0.subnets@,
        ),
{
    let (k1, k2, k3, e) = (utf8("{\"meta\":"), utf8(",\"keys\":"), utf8(",\"addresses\":"), utf8("}"));
    let x3 = rest_of(a);
    let y3 = rest_of(b);
    let (x2, y2) = (a.keys.json() + x3, b.keys.json() + y3);
    let (x1, y1) = (a.meta.json() + (k2 + x2), b.meta.json() + (k2 + y2));
    lemma_body_parts(a);
    lemma_body_parts(b);
    lemma_strip(k1, x1, y1);
    lemma_same_meta(
        a.meta.name@,
        a.meta.is_ca,
        a.meta.not_before.text(),
        a.meta.not_after.text(),
        texts(a.meta.groups@),
        k2 + x2,
        b.meta.name@,
        b.meta.is_ca,
        b.meta.not_before.text(),
        b.meta.not_after.text(),
        texts(b.meta.groups@),
        k2 + y2,
    );
    lemma_strip(k2, x2, y2);
    lemma_same_keys(a.keys.hybrid(), b.keys.hybrid(), x3, y3);
    lemma_marks();
    assert(a.addresses is None ==> x3[0] == 0x7d);
    assert(a.addresses is Some ==> x3[0] == 0x2c);
    assert(b.addresses is None ==> y3[0] == 0x7d);
    assert(b.addresses is Some ==> y3[0] == 0x2c);
    if a.addresses is Some {
        let (p, q) = (a.addresses->0, b.addresses->0);
        lemma_strip(k3, p.json() + e, q.json() + e);
        lemma_same_addresses(p.ip@, texts(p.subnets@), e, q.ip@, texts(q.subnets@), e);
    }
}

/// What follows the keys in the bytes of a body.
spec fn rest_of(body: CertBody) -> Seq<u8> {
    match body.addresses {
        Some(addresses) => utf8(",\"addresses\":") + (addresses.json() + utf8("}")),
        None => utf8("}"),
    }
}

proof fn lemma_body_parts(body: CertBody)
    ensures
        body.json() == utf8("{\"meta\":") + (body.meta.json() + (utf8(",\"keys\":") + (body.keys.json() + rest_of(body)))),
{
    let (k1, k2, e) = (utf8("{\"meta\":"), utf8(",\"keys\":"), utf8("}"));
    let (m, k) = (body.meta.json(), body.keys.json());
    match body.addresses {
        Some(addresses) => {
            let (k3, a) = (utf8(",\"addresses\":"), addresses.json());
            lemma_regroup(k1 + m + k2 + k, k3 + a, e);
            lemma_regroup(k3, a, e);
        },
        None => {
            assert(k1 + m + k2 + k + Seq::<u8>::empty() =~= k1 + m + k2 + k);
        },
    }
    let rest = rest_of(body);
    lemma_regroup(k1 + m + k2, k, rest);
    lemma_regroup(k1 + m, k2, k + rest);
    lemma_regroup(k1, m, k2 + (k + rest));
}

/// A certificate that is issued for a number of days verifies under the authority's key at
/// every second of these days of 86,400 seconds, and at no other. The one exception is a
/// signature whose Ed25519 point is the neutral element.
pub proof fn law_issued_certificate_holds_for_its_days(
    cert: Cert,
    key: NodeKeyFile,
    name: Seq<char>,
    ip: Seq<char>,
    subnets: Seq<Seq<char>>,
    groups: Seq<Seq<char>>,
    ca: CaSigningKey,
    ca_vk: CaVerifyKey,
    days: int,
    sk: HybridSigningKey,
    vk: HybridVerifyKey,
    now: Timestamp,
    then: int,
)
    requires
        is_new_node(Some((cert, key)), name, ip, subnets, groups, ca, days, sk, vk, now),
        is_keypair(ca.hybrid(), ca_vk.hybrid()),
        !is_degenerate(cert.signature.hybrid()),
    ensures
        cert.valid_at(ca_vk, then) <==> 0 <= then - now.spec_secs() <= days * 86_400,
        cert.body.meta.name@ == name,
        texts(cert.body.meta.groups@) == groups,
        cert.body.keys.hybrid() == vk,
        cert.body.addresses is Some,
        cert.body.addresses->0.ip@ == ip,
        texts(cert.body.addresses->0.subnets@) == subnets,
{
}

/// An authority that is made for a number of years holds for as many times 31,536,000
/// seconds, and signs what its own public key accepts.
pub proof fn law_new_authority_holds_for_its_years(
    ca: FullCaCert,
    name: Seq<char>,
    years: int,
    groups: Seq<Seq<char>>,
    now: Timestamp,
)
    requires
        is_new_ca(ca, name, years, groups, now),
    ensures
        ca.cert.meta.is_ca,
        ca.cert.meta.name@ == name,
        texts(ca.cert.meta.groups@) == groups,
        ca.cert.meta.not_before == now,
        ca.cert.meta.not_after.spec_secs() - now.spec_secs() == years * 31_536_000,
        is_keypair(ca.signing_key.hybrid(), ca.cert.verify_key.hybrid()),
{
}

/// Whether the hashes of two different messages start with the same four bytes.
pub open spec fn hashes_start_alike(message: Seq<u8>, other: Seq<u8>) -> bool {
    message != other && from_be32(blake3_hashed(message)) == from_be32(blake3_hashed(other))
}

/// A node's number belongs to both of its public keys: nodes with other keys have another
/// number, unless the hashes of two messages start alike.
pub proof fn law_node_number_is_of_both_keys(a: KeyMaterial, b: KeyMaterial)
    requires
        node_id(a) == node_id(b),
    ensures
        a.ed25519_pk@ == b.ed25519_pk@ && a.ml_dsa_pk@ == b.ml_dsa_pk@ || exists|m: Seq<u8>, n: Seq<u8>| #[trigger]
            hashes_start_alike(m, n),
{
    let label = utf8("liteway-node-id-v1");
    let m = label + a.ed25519_pk@ + a.ml_dsa_pk@;
    let n = label + b.ed25519_pk@ + b.ml_dsa_pk@;
    if m != n {
        assert(hashes_start_alike(m, n));
    } else {
        let at = label.len() as int;
        assert(m.subrange(at, at + 32) =~= a.ed25519_pk@);
        assert(n.subrange(at, at + 32) =~= b.ed25519_pk@);
        assert(m.skip(at + 32) =~= a.ml_dsa_pk@);
        assert(n.skip(at + 32) =~= b.ml_dsa_pk@);
    }
}

} // verus!
