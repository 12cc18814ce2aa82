//! Text: UTF-8, hexadecimal and JSON strings.
use vstd::prelude::*;
use vstd::utf8::{decode_utf8, encode_utf8, is_ascii_chars, is_ascii_chars_encode_utf8, valid_utf8};

verus! {

/// The UTF-8 bytes of a string literal.
pub open spec fn utf8(text: &str) -> Seq<u8> {
    encode_utf8(text@)
}

/// The contents of a list of strings.
pub open spec fn texts(list: Seq<String>) -> Seq<Seq<char>> {
    list.map_values(|s: String| s@)
}

/// A character takes at most four bytes in UTF-8.
pub proof fn lemma_utf8_len(text: Seq<char>)
    ensures
        encode_utf8(text).len() <= 4 * text.len(),
    decreases text.len(),
{
    if text.len() > 0 {
        lemma_utf8_len(text.drop_first());
    }
}

/// The text that bytes hold, if they are UTF-8.
pub open spec fn read_text(bytes: Seq<u8>) -> Option<Seq<char>> {
    if valid_utf8(bytes) {
        Some(decode_utf8(bytes))
    } else {
        None
    }
}

/// The value of a hexadecimal digit in either case.
pub open spec fn hex_digit(c: u8) -> Option<u8> {
    if 0x30 <= c <= 0x39 {
        Some((c - 0x30) as u8)
    } else if 0x41 <= c <= 0x46 {
        Some((c - 0x41 + 10) as u8)
    } else if 0x61 <= c <= 0x66 {
        Some((c - 0x61 + 10) as u8)
    } else {
        None
    }
}

/// The bytes that hexadecimal text stands for: an even number of digits, two to a byte,
/// the high one first.
pub open spec fn hex_value(text: Seq<u8>) -> Option<Seq<u8>> {
    if text.len() % 2 == 0 && forall|i: int| 0 <= i < text.len() ==> hex_digit(#[trigger] text[i]) is Some {
        Some(
            Seq::new(
                text.len() / 2,
                |i: int| (hex_digit(text[2 * i])->0 * 16 + hex_digit(text[2 * i + 1])->0) as u8,
            ),
        )
    } else {
        None
    }
}

/// The lower-case hexadecimal digit of a value below 16.
pub open spec fn hex_char(value: int) -> char {
    if value == 0 {
        '0'
    } else if value == 1 {
        '1'
    } else if value == 2 {
        '2'
    } else if value == 3 {
        '3'
    } else if value == 4 {
        '4'
    } else if value == 5 {
        '5'
    } else if value == 6 {
        '6'
    } else if value == 7 {
        '7'
    } else if value == 8 {
        '8'
    } else if value == 9 {
        '9'
    } else if value == 10 {
        'a'
    } else if value == 11 {
        'b'
    } else if value == 12 {
        'c'
    } else if value == 13 {
        'd'
    } else if value == 14 {
        'e'
    } else {
        'f'
    }
}

/// Bytes in lower-case hexadecimal, two digits to a byte, the high one first.
pub open spec fn hex_text(bytes: Seq<u8>) -> Seq<char> {
    Seq::new(
        2 * bytes.len(),
        |i: int| hex_char(if i % 2 == 0 { bytes[i / 2] / 16 } else { bytes[i / 2] % 16 } as int),
    )
}

/// A string as `serde_json` writes it: in quotation marks, escaped.
pub uninterp spec fn json_string(text: Seq<char>) -> Seq<u8>;

/// `std::str::from_utf8`: the text that bytes hold, if they are UTF-8.
#[verifier::external_body]
pub(crate) fn text_from_utf8(bytes: &[u8]) -> (r: Option<&str>)
    ensures
        r is Some == read_text(bytes@) is Some,
        r matches Some(t) ==> read_text(bytes@) == Some(t@),
{
    std::str::from_utf8(bytes).ok()
}

/// `hex::decode`: the bytes of hexadecimal text. It fails on an odd number of digits and
/// on any other character; the cause of the failure is not kept.
#[verifier::external_body]
pub(crate) fn hex_decode(text: &str) -> (r: Option<Vec<u8>>)
    ensures
        r is Some == hex_value(encode_utf8(text@)) is Some,
        r matches Some(v) ==> hex_value(encode_utf8(text@)) == Some(v@),
{
    hex::decode(text).ok()
}

/// `hex::encode`: two lower-case digits to a byte.
#[verifier::external_body]
pub(crate) fn hex_encode(bytes: &[u8]) -> (r: String)
    ensures
        r@ == hex_text(bytes@),
{
    hex::encode(bytes)
}

/// `serde_json::to_vec` of a string, which does not fail: the bytes depend on the string
/// alone.
#[verifier::external_body]
fn json_string_bytes(text: &str) -> (r: Vec<u8>)
    ensures
        r@ == json_string(text@),
{
    serde_json::to_vec(text).expect("a string is representable")
}

/// Appends a string in JSON.
pub(crate) fn put_json_string(out: &mut Vec<u8>, text: &str)
    ensures
        final(out)@ == old(out)@ + json_string(text@),
{
    let bytes = json_string_bytes(text);
    crate::bytes::put_slice(out, bytes.as_slice());
}

/// Appends the UTF-8 bytes of `text`.
pub(crate) fn put_text(out: &mut Vec<u8>, text: &str)
    ensures
        final(out)@ == old(out)@ + utf8(text),
{
    crate::bytes::put_slice(out, text.as_bytes());
}

/// The first `n` strings of a list, separated by commas, in JSON.
pub open spec fn json_items(list: Seq<Seq<char>>, n: nat) -> Seq<u8>
    decreases n,
{
    if n == 0 {
        Seq::empty()
    } else if n == 1 {
        json_string(list[0])
    } else {
        json_items(list, (n - 1) as nat) + utf8(",") + json_string(list[n - 1])
    }
}

/// A list of strings in JSON.
pub open spec fn json_list(list: Seq<Seq<char>>) -> Seq<u8> {
    utf8("[") + json_items(list, list.len()) + utf8("]")
}

/// Appends a list of strings in JSON.
pub(crate) fn put_json_list(out: &mut Vec<u8>, list: &[String])
    ensures
        final(out)@ == old(out)@ + json_list(texts(list@)),
{
    put_text(out, "[");
    let ghost start = out@;
    let mut i: usize = 0;
    assert(out@ =~= start + json_items(texts(list@), 0));
    while i < list.len()
        invariant
            i <= list@.len(),
            out@ == start + json_items(texts(list@), i as nat),
        decreases list@.len() - i,
    {
        if i > 0 {
            put_text(out, ",");
        }
        put_json_string(out, list[i].as_str());
        i = i + 1;
        assert(texts(list@)[i - 1] == list@[i - 1]@);
        assert(out@ =~= start + json_items(texts(list@), i as nat));
    }
    put_text(out, "]");
    assert(out@ =~= old(out)@ + json_list(texts(list@)));
}

/// A copy of a list of strings.
pub(crate) fn copy_strings(list: &[String]) -> (r: Vec<String>)
    ensures
        texts(r@) == texts(list@),
{
    let mut out: Vec<String> = Vec::with_capacity(list.len());
    let mut i: usize = 0;
    while i < list.len()
        invariant
            i <= list@.len(),
            out@.len() == i,
            forall|j: int| 0 <= j < i ==> (#[trigger] out@[j])@ == list@[j]@,
        decreases list@.len() - i,
    {
        out.push(list[i].clone());
        i = i + 1;
    }
    assert(texts(out@) =~= texts(list@));
    out
}

/// Whether two strings are equal.
pub(crate) fn same_text(a: &str, b: &str) -> (r: bool)
    ensures
        r == (a@ == b@),
{
    proof {
        vstd::utf8::encode_utf8_decode_utf8(a@);
        vstd::utf8::encode_utf8_decode_utf8(b@);
    }
    crate::bytes::same_bytes(a.as_bytes(), b.as_bytes())
}

/// What follows `prefix` in a text that starts with it.
pub open spec fn after_prefix(text: Seq<char>, prefix: Seq<char>) -> Option<Seq<char>> {
    if prefix.is_prefix_of(text) {
        Some(text.skip(prefix.len() as int))
    } else {
        None
    }
}

/// What follows `prefix` in a text that starts with it.
pub(crate) fn strip_prefix<'a>(text: &'a str, prefix: &str) -> (r: Option<&'a str>)
    ensures
        r is Some == after_prefix(text@, prefix@) is Some,
        r matches Some(rest) ==> after_prefix(text@, prefix@) == Some(rest@),
{
    let n: usize = prefix.unicode_len();
    let len: usize = text.unicode_len();
    if len < n {
        return None;
    }
    let start = text.substring_char(0, n);
    if !same_text(start, prefix) {
        assert(prefix@.is_prefix_of(text@) ==> start@ =~= prefix@);
        return None;
    }
    let rest = text.substring_char(n, len);
    assert(start@ == prefix@);
    assert(rest@ =~= text@.skip(n as int));
    Some(rest)
}

/// Whether a character occurs in a text.
pub(crate) fn contains_char(text: &str, c: char) -> (r: bool)
    ensures
        r == text@.contains(c),
{
    let n: usize = text.unicode_len();
    let mut i: usize = 0;
    while i < n
        invariant
            n == text@.len(),
            i <= n,
            forall|j: int| 0 <= j < i ==> text@[j] != c,
        decreases n - i,
    {
        if text.get_char(i) == c {
            return true;
        }
        i = i + 1;
    }
    false
}

/// Whether `part` occurs in `text`.
pub open spec fn occurs(text: Seq<char>, part: Seq<char>) -> bool {
    exists|i: int| 0 <= i <= text.len() - part.len() && #[trigger] text.subrange(i, i + part.len()) == part
}

/// Whether `part` occurs in `text`.
pub(crate) fn contains_text(text: &str, part: &str) -> (r: bool)
    ensures
        r == occurs(text@, part@),
{
    let n: usize = text.unicode_len();
    let m: usize = part.unicode_len();
    if n < m {
        return false;
    }
    let mut i: usize = 0;
    while i <= n - m
        invariant
            n == text@.len(),
            m == part@.len(),
            m <= n,
            i <= n - m + 1,
            forall|j: int| 0 <= j < i ==> #[trigger] text@.subrange(j, j + m) != part@,
        decreases n - m + 1 - i,
    {
        if same_text(text.substring_char(i, i + m), part) {
            return true;
        }
        if i == n - m {
            return false;
        }
        i = i + 1;
    }
    false
}

/// Hexadecimal text stands for the bytes that it was made from.
pub proof fn law_hex_is_read_back(bytes: Seq<u8>)
    ensures
        hex_value(encode_utf8(hex_text(bytes))) == Some(bytes),
{
    let text = hex_text(bytes);
    assert(is_ascii_chars(text));
    is_ascii_chars_encode_utf8(text);
    let encoded = encode_utf8(text);
    assert forall|i: int| 0 <= i < encoded.len() implies hex_digit(#[trigger] encoded[i]) == Some(
        (if i % 2 == 0 {
            bytes[i / 2] / 16
        } else {
            bytes[i / 2] % 16
        }) as u8,
    ) by {
        assert(text[i] as u8 == encoded[i]);
    }
    let value = hex_value(encoded)->0;
    assert forall|i: int| 0 <= i < bytes.len() implies value[i] == bytes[i] by {
        let high = encoded[2 * i];
        let low = encoded[2 * i + 1];
        assert(hex_digit(high) == Some((bytes[i] / 16) as u8));
        assert(hex_digit(low) == Some((bytes[i] % 16) as u8));
    }
    assert(value =~= bytes);
}

/// The decimal digit of a value below ten.
pub open spec fn digit_text(value: int) -> Seq<char> {
    if value == 0 {
        "0"@
    } else if value == 1 {
        "1"@
    } else if value == 2 {
        "2"@
    } else if value == 3 {
        "3"@
    } else if value == 4 {
        "4"@
    } else if value == 5 {
        "5"@
    } else if value == 6 {
        "6"@
    } else if value == 7 {
        "7"@
    } else if value == 8 {
        "8"@
    } else {
        "9"@
    }
}

/// A number in decimal, without leading zeros.
pub open spec fn decimal(n: nat) -> Seq<char>
    decreases n,
{
    if n < 10 {
        digit_text(n as int)
    } else {
        decimal(n / 10) + digit_text((n % 10) as int)
    }
}

/// Appends a number in decimal.
pub(crate) fn put_decimal(out: &mut String, n: u32)
    ensures
        final(out)@ == old(out)@ + decimal(n as nat),
    decreases n,
{
    if n >= 10 {
        put_decimal(out, n / 10);
    }
    let d: u32 = n % 10;
    let digit = if d == 0 {
        "0"
    } else if d == 1 {
        "1"
    } else if d == 2 {
        "2"
    } else if d == 3 {
        "3"
    } else if d == 4 {
        "4"
    } else if d == 5 {
        "5"
    } else if d == 6 {
        "6"
    } else if d == 7 {
        "7"
    } else if d == 8 {
        "8"
    } else {
        "9"
    };
    out.append(digit);
    assert(out@ =~= old(out)@ + decimal(n as nat));
}

/// The value of a decimal digit.
pub open spec fn decimal_digit(c: char) -> Option<nat> {
    if '0' <= c <= '9' {
        Some((c as u32 - '0' as u32) as nat)
    } else {
        None
    }
}

/// The number that decimal digits stand for; `None` where one is no digit.
pub open spec fn decimal_value(digits: Seq<char>) -> Option<nat>
    decreases digits.len(),
{
    if digits.len() == 0 {
        Some(0)
    } else {
        match (decimal_value(digits.drop_last()), decimal_digit(digits.last())) {
            (Some(high), Some(low)) => Some(high * 10 + low),
            _ => None,
        }
    }
}

/// The number that a text in decimal stands for: at least one digit, and nothing above
/// `limit`. Leading zeros are allowed.
pub open spec fn decimal_number(text: Seq<char>, limit: u32) -> Option<u32> {
    match decimal_value(text) {
        Some(value) => if text.len() > 0 && value <= limit {
            Some(value as u32)
        } else {
            None
        },
        None => None,
    }
}

/// More digits stand for no smaller a number.
proof fn lemma_decimal_grows(digits: Seq<char>, n: int)
    requires
        0 <= n <= digits.len(),
        decimal_value(digits) is Some,
    ensures
        decimal_value(digits.take(n)) is Some,
        decimal_value(digits.take(n))->0 <= decimal_value(digits)->0,
    decreases digits.len() - n,
{
    if n == digits.len() {
        assert(digits.take(n) =~= digits);
    } else {
        lemma_decimal_grows(digits, n + 1);
        assert(digits.take(n + 1).drop_last() =~= digits.take(n));
    }
}

/// Reads a number in decimal.
pub(crate) fn parse_decimal(text: &str, limit: u32) -> (r: Option<u32>)
    ensures
        r == decimal_number(text@, limit),
{
    let mut value: u64 = 0;
    assert(text@.take(0) =~= Seq::<char>::empty());
    for c in it: text.chars()
        invariant
            it.seq() == text@,
            value <= limit,
            decimal_value(text@.take(it.index() as int)) == Some(value as nat),
    {
        proof {
            let n = it.index() + 1;
            assert(text@.take(n).drop_last() =~= text@.take(n - 1));
            if decimal_value(text@) is Some {
                lemma_decimal_grows(text@, n);
            }
        }
        if c < '0' || '9' < c {
            return None;
        }
        value = value * 10 + (c as u32 - 0x30) as u64;
        if value > limit as u64 {
            return None;
        }
    }
    assert(text@.take(text@.len() as int) =~= text@);
    if text.is_empty() {
        return None;
    }
    Some(value as u32)
}

proof fn lemma_digit_text(value: int)
    requires
        0 <= value < 10,
    ensures
        digit_text(value).len() == 1,
        decimal_digit(digit_text(value)[0]) == Some(value as nat),
{
    reveal_strlit("0");
    reveal_strlit("1");
    reveal_strlit("2");
    reveal_strlit("3");
    reveal_strlit("4");
    reveal_strlit("5");
    reveal_strlit("6");
    reveal_strlit("7");
    reveal_strlit("8");
    reveal_strlit("9");
}

/// A number is read back from its decimal digits.
pub proof fn law_decimal_is_read_back(n: nat)
    ensures
        decimal(n).len() > 0,
        decimal_value(decimal(n)) == Some(n),
    decreases n,
{
    lemma_digit_text((n % 10) as int);
    if n < 10 {
        assert(decimal(n).drop_last() =~= Seq::<char>::empty());
        assert(decimal_value(Seq::<char>::empty()) == Some(0nat));
    } else {
        law_decimal_is_read_back(n / 10);
        assert(decimal(n).drop_last() =~= decimal(n / 10));
    }
}

/// Ten to the power of `k`.
spec fn ten_to(k: nat) -> nat
    decreases k,
{
    if k == 0 {
        1
    } else {
        10 * ten_to((k - 1) as nat)
    }
}

proof fn lemma_decimal_digits(n: nat, k: nat)
    requires
        n < ten_to(k),
        k > 0,
    ensures
        decimal(n).len() <= k,
    decreases k,
{
    lemma_digit_text((n % 10) as int);
    if n >= 10 {
        if k == 1 {
            assert(ten_to(0) == 1);
        }
        lemma_decimal_digits(n / 10, (k - 1) as nat);
    }
}

/// A 32-bit number has at most ten decimal digits.
pub proof fn lemma_decimal_len(n: u32)
    ensures
        decimal(n as nat).len() <= 10,
{
    reveal_with_fuel(ten_to, 11);
    lemma_decimal_digits(n as nat, 10);
}

/// What stands before and after the first `c` in a text.
pub open spec fn split_first(text: Seq<char>, c: char) -> Option<(Seq<char>, Seq<char>)> {
    match text.index_of_first(c) {
        Some(i) => Some((text.take(i), text.skip(i + 1))),
        None => None,
    }
}

/// A text is split at the first `c` between two texts of which the former has none.
pub proof fn lemma_split_first(before: Seq<char>, c: char, after: Seq<char>)
    requires
        !before.contains(c),
    ensures
        split_first(before + seq![c] + after, c) == Some((before, after)),
{
    let text = before + seq![c] + after;
    text.index_of_first_ensures(c);
    assert(text[before.len() as int] == c);
    let i = text.index_of_first(c)->0;
    if i < before.len() {
        assert(before[i] == c);
    }
    assert(text.take(i) =~= before);
    assert(text.skip(i + 1) =~= after);
}

/// Splits a text at the first `c`.
pub(crate) fn split_at_first(text: &str, c: char) -> (r: Option<(&str, &str)>)
    ensures
        r is Some == split_first(text@, c) is Some,
        r matches Some((before, after)) ==> split_first(text@, c) == Some((before@, after@)),
{
    proof {
        text@.index_of_first_ensures(c);
    }
    let n: usize = text.unicode_len();
    let mut i: usize = 0;
    for next in it: text.chars()
        invariant
            it.seq() == text@,
            n == text@.len(),
            i == it.index(),
            forall|j: int| 0 <= j < i ==> text@[j] != c,
    {
        if next == c {
            let before = text.substring_char(0, i);
            let after = text.substring_char(i + 1, n);
            proof {
                assert(text@[i as int] == c);
                text@.index_of_first_ensures(c);
                assert(text@.index_of_first(c) == Some(i as int));
                assert(before@ =~= text@.take(i as int));
                assert(after@ =~= text@.skip(i + 1));
            }
            return Some((before, after));
        }
        i = i + 1;
    }
    None
}

/// A number in decimal is read digit by digit: one more digit makes it ten times as large and
/// adds the digit. Nothing but digits is read, at least one of them, and no more than the
/// limit.
pub proof fn law_decimal_is_read_by_digits(text: Seq<char>, digit: int, limit: u32)
    requires
        0 <= digit <= 9,
    ensures
        decimal_value(text) matches Some(value) ==> decimal_value(text.push(('0' as u32 + digit) as char)) == Some(
            (10 * value + digit) as nat,
        ),
        decimal_number(text, limit) matches Some(n) ==> n <= limit && text.len() > 0 && Some(n as nat) == decimal_value(text),
        decimal_number(text, limit) is None <==> text.len() == 0 || decimal_value(text) is None || decimal_value(text)->0
            > limit,
{
    let c = ('0' as u32 + digit) as char;
    assert(text.push(c).drop_last() =~= text);
    assert(text.push(c).last() == c);
}

} // verus!
