//! Big-endian integers, length-prefixed fields and a cursor over a byte slice.
use vstd::prelude::*;

verus! {

/// The two bytes of `x`, most significant first.
pub open spec fn be16(x: u16) -> Seq<u8> {
    seq![(x / 0x100) as u8, (x % 0x100) as u8]
}

/// The four bytes of `x`, most significant first.
pub open spec fn be32(x: u32) -> Seq<u8> {
    seq![
        (x / 0x100_0000) as u8,
        ((x / 0x1_0000) % 0x100) as u8,
        ((x / 0x100) % 0x100) as u8,
        (x % 0x100) as u8,
    ]
}

/// The eight bytes of `x`, most significant first.
pub open spec fn be64(x: u64) -> Seq<u8> {
    be32((x / 0x1_0000_0000) as u32) + be32((x % 0x1_0000_0000) as u32)
}

/// The number whose bytes, most significant first, are the first two of `s`.
pub open spec fn from_be16(s: Seq<u8>) -> u16 {
    (s[0] * 0x100 + s[1]) as u16
}

/// The number whose bytes, most significant first, are the first four of `s`.
pub open spec fn from_be32(s: Seq<u8>) -> u32 {
    (s[0] * 0x100_0000 + s[1] * 0x1_0000 + s[2] * 0x100 + s[3]) as u32
}

/// The number whose bytes, most significant first, are the first eight of `s`.
pub open spec fn from_be64(s: Seq<u8>) -> u64 {
    (from_be32(s) * 0x1_0000_0000 + from_be32(s.skip(4))) as u64
}

/// The number whose bytes, most significant first, are the first sixteen of `s`.
pub open spec fn from_be128(s: Seq<u8>) -> u128 {
    (from_be64(s) * 0x1_0000_0000_0000_0000 + from_be64(s.skip(8))) as u128
}

/// A field as it stands on the wire: its length in four bytes, then its content.
/// Only the low 32 bits of the length are written.
pub open spec fn field(content: Seq<u8>) -> Seq<u8> {
    be32(content.len() as u32) + content
}

/// The content of the length-prefixed field that `s` starts with, and what follows
/// it; `None` where `s` is too short to hold one.
pub open spec fn read_field(s: Seq<u8>) -> Option<(Seq<u8>, Seq<u8>)> {
    if s.len() < 4 || s.len() - 4 < from_be32(s) {
        None
    } else {
        Some((s.subrange(4, 4 + from_be32(s)), s.skip(4 + from_be32(s))))
    }
}

/// Writing a 16-bit number and reading it back gives the number.
pub proof fn lemma_be16(x: u16, rest: Seq<u8>)
    ensures
        be16(x).len() == 2,
        from_be16(be16(x) + rest) == x,
        (be16(x) + rest).skip(2) == rest,
{
    assert((be16(x) + rest).skip(2) =~= rest);
}

/// Writing a 32-bit number and reading it back gives the number.
pub proof fn lemma_be32(x: u32, rest: Seq<u8>)
    ensures
        be32(x).len() == 4,
        from_be32(be32(x) + rest) == x,
        (be32(x) + rest).skip(4) == rest,
{
    assert((be32(x) + rest).skip(4) =~= rest);
}

/// Writing a 64-bit number and reading it back gives the number.
pub proof fn lemma_be64(x: u64, rest: Seq<u8>)
    ensures
        be64(x).len() == 8,
        from_be64(be64(x) + rest) == x,
        (be64(x) + rest).skip(8) == rest,
{
    let hi = (x / 0x1_0000_0000) as u32;
    let lo = (x % 0x1_0000_0000) as u32;
    assert(be64(x) + rest =~= be32(hi) + (be32(lo) + rest));
    lemma_be32(hi, be32(lo) + rest);
    lemma_be32(lo, rest);
    assert((be64(x) + rest).skip(8) =~= rest);
}

/// Reading a 32-bit number and writing it again gives the bytes that were read.
pub proof fn lemma_from_be32(s: Seq<u8>)
    requires
        s.len() >= 4,
    ensures
        be32(from_be32(s)) == s.take(4),
{
    let (a, b, c, d) = (s[0], s[1], s[2], s[3]);
    let x = from_be32(s);
    assert(x / 0x100_0000 == a && (x / 0x1_0000) % 0x100 == b && (x / 0x100) % 0x100 == c && x % 0x100 == d) by (
        bit_vector)
        requires
            x == (a as u32) * 0x100_0000 + (b as u32) * 0x1_0000 + (c as u32) * 0x100 + (d as u32),
    ;
    assert(be32(x) =~= s.take(4));
}

/// Reading the field that was written gives its content and leaves the rest.
pub proof fn lemma_field(content: Seq<u8>, rest: Seq<u8>)
    requires
        content.len() <= u32::MAX,
    ensures
        read_field(field(content) + rest) == Some((content, rest)),
        field(content).len() == 4 + content.len(),
{
    let s = field(content) + rest;
    let n = content.len() as u32;
    assert(s =~= be32(n) + (content + rest));
    lemma_be32(n, content + rest);
    assert(s.subrange(4, 4 + n) =~= content);
    assert(s.skip(4 + n) =~= rest);
}

/// Appends `x` to `out`, most significant byte first.
pub fn put_u16(out: &mut Vec<u8>, x: u16)
    ensures
        final(out)@ == old(out)@ + be16(x),
{
    out.push((x / 0x100) as u8);
    out.push((x % 0x100) as u8);
    assert(out@ =~= old(out)@ + be16(x));
}

/// Appends `x` to `out`, most significant byte first.
pub fn put_u32(out: &mut Vec<u8>, x: u32)
    ensures
        final(out)@ == old(out)@ + be32(x),
{
    out.push((x / 0x100_0000) as u8);
    out.push(((x / 0x1_0000) % 0x100) as u8);
    out.push(((x / 0x100) % 0x100) as u8);
    out.push((x % 0x100) as u8);
    assert(out@ =~= old(out)@ + be32(x));
}

/// Appends `x` to `out`, most significant byte first.
pub fn put_u64(out: &mut Vec<u8>, x: u64)
    ensures
        final(out)@ == old(out)@ + be64(x),
{
    put_u32(out, (x / 0x1_0000_0000) as u32);
    put_u32(out, (x % 0x1_0000_0000) as u32);
    assert(out@ =~= old(out)@ + be64(x));
}

/// Appends the bytes of `bytes` to `out`.
pub fn put_slice(out: &mut Vec<u8>, bytes: &[u8])
    ensures
        final(out)@ == old(out)@ + bytes@,
{
    out.extend_from_slice(bytes);
    assert(out@ =~= old(out)@ + bytes@);
}

/// Appends a length-prefixed field with the content `bytes`.
pub fn put_vec_u32(out: &mut Vec<u8>, bytes: &[u8])
    ensures
        final(out)@ == old(out)@ + field(bytes@),
{
    let len: u32 = bytes.len() as u32;
    put_u32(out, len);
    put_slice(out, bytes);
    assert(out@ =~= old(out)@ + field(bytes@));
}

/// The number whose bytes, most significant first, are `bytes`.
pub fn u32_from_be(bytes: &[u8; 4]) -> (r: u32)
    ensures
        r == from_be32(bytes@),
{
    bytes[0] as u32 * 0x100_0000 + bytes[1] as u32 * 0x1_0000 + bytes[2] as u32 * 0x100 + bytes[3] as u32
}

/// The number whose bytes, most significant first, are `bytes`.
pub fn u64_from_be(bytes: &[u8; 8]) -> (r: u64)
    ensures
        r == from_be64(bytes@),
{
    let hi: u32 = bytes[0] as u32 * 0x100_0000 + bytes[1] as u32 * 0x1_0000 + bytes[2] as u32 * 0x100
        + bytes[3] as u32;
    let lo: u32 = bytes[4] as u32 * 0x100_0000 + bytes[5] as u32 * 0x1_0000 + bytes[6] as u32 * 0x100
        + bytes[7] as u32;
    hi as u64 * 0x1_0000_0000 + lo as u64
}

/// The first `N` bytes of `s`.
pub fn array_from<const N: usize>(s: &[u8]) -> (r: [u8; N])
    requires
        s@.len() >= N,
    ensures
        r@ == s@.take(N as int),
{
    let mut out = [0u8; N];
    let mut i: usize = 0;
    while i < N
        invariant
            i <= N,
            s@.len() >= N,
            out@.len() == N,
            forall|j: int| 0 <= j < i ==> out@[j] == s@[j],
        decreases N - i,
    {
        out[i] = s[i];
        i = i + 1;
    }
    assert(out@ =~= s@.take(N as int));
    out
}

/// A copy of the bytes of `s`.
pub fn to_vec(s: &[u8]) -> (r: Vec<u8>)
    ensures
        r@ == s@,
{
    let mut out: Vec<u8> = Vec::with_capacity(s.len());
    put_slice(&mut out, s);
    assert(out@ =~= s@);
    out
}

/// Whether two byte slices hold the same bytes.
pub fn same_bytes(a: &[u8], b: &[u8]) -> (r: bool)
    ensures
        r == (a@ == b@),
{
    if a.len() != b.len() {
        return false;
    }
    let mut i: usize = 0;
    while i < a.len()
        invariant
            i <= a@.len(),
            a@.len() == b@.len(),
            forall|j: int| 0 <= j < i ==> a@[j] == b@[j],
        decreases a@.len() - i,
    {
        if a[i] != b[i] {
            return false;
        }
        i = i + 1;
    }
    assert(a@ =~= b@);
    true
}

/// A cursor over a byte slice. Its view is what has not been read yet.
pub struct Reader<'a> {
    data: &'a [u8],
    pos: usize,
}

impl<'a> View for Reader<'a> {
    type V = Seq<u8>;

    closed spec fn view(&self) -> Seq<u8> {
        self.data@.skip(self.pos as int)
    }
}

impl<'a> Reader<'a> {
    #[verifier::type_invariant]
    spec fn in_bounds(self) -> bool {
        self.pos <= self.data@.len()
    }

    /// How many bytes have been read.
    pub closed spec fn read(&self) -> nat {
        self.pos as nat
    }

    /// A cursor at the start of `data`.
    pub fn new(data: &'a [u8]) -> (r: Self)
        ensures
            r@ == data@,
            r.read() == 0,
    {
        let r = Reader { data, pos: 0 };
        assert(r@ =~= data@);
        r
    }

    /// How many bytes have been read.
    pub fn pos(&self) -> (n: usize)
        ensures
            n == self.read(),
    {
        self.pos
    }

    /// The next `len` bytes; `None`, with the cursor where it was, if fewer are left.
    pub fn bytes(&mut self, len: usize) -> (r: Option<&'a [u8]>)
        ensures
            r is Some == (len <= old(self)@.len()),
            r matches Some(b) ==> {
                &&& b@ == old(self)@.take(len as int)
                &&& final(self)@ == old(self)@.skip(len as int)
                &&& final(self).read() == old(self).read() + len
            },
            r is None ==> *final(self) == *old(self),
    {
        proof {
            use_type_invariant(&*self);
        }
        if len > self.data.len() - self.pos {
            return None;
        }
        let bytes = vstd::slice::slice_subrange(self.data, self.pos, self.pos + len);
        assert(bytes@ =~= self@.take(len as int));
        self.pos = self.pos + len;
        assert(self@ =~= old(self)@.skip(len as int));
        Some(bytes)
    }

    /// The next byte.
    pub fn u8(&mut self) -> (r: Option<u8>)
        ensures
            r is Some == (1 <= old(self)@.len()),
            r matches Some(x) ==> {
                &&& x == old(self)@[0]
                &&& final(self)@ == old(self)@.skip(1)
                &&& final(self).read() == old(self).read() + 1
            },
            r is None ==> *final(self) == *old(self),
    {
        let b = self.bytes(1)?;
        Some(b[0])
    }

    /// The next two bytes as a big-endian number.
    pub fn u16(&mut self) -> (r: Option<u16>)
        ensures
            r is Some == (2 <= old(self)@.len()),
            r matches Some(x) ==> {
                &&& x == from_be16(old(self)@)
                &&& final(self)@ == old(self)@.skip(2)
                &&& final(self).read() == old(self).read() + 2
            },
            r is None ==> *final(self) == *old(self),
    {
        let b = self.bytes(2)?;
        Some(b[0] as u16 * 0x100 + b[1] as u16)
    }

    /// The next four bytes as a big-endian number.
    pub fn u32(&mut self) -> (r: Option<u32>)
        ensures
            r is Some == (4 <= old(self)@.len()),
            r matches Some(x) ==> {
                &&& x == from_be32(old(self)@)
                &&& final(self)@ == old(self)@.skip(4)
                &&& final(self).read() == old(self).read() + 4
            },
            r is None ==> *final(self) == *old(self),
    {
        let b = self.bytes(4)?;
        Some(b[0] as u32 * 0x100_0000 + b[1] as u32 * 0x1_0000 + b[2] as u32 * 0x100 + b[3] as u32)
    }

    /// The next eight bytes as a big-endian number.
    pub fn u64(&mut self) -> (r: Option<u64>)
        ensures
            r is Some == (8 <= old(self)@.len()),
            r matches Some(x) ==> {
                &&& x == from_be64(old(self)@)
                &&& final(self)@ == old(self)@.skip(8)
                &&& final(self).read() == old(self).read() + 8
            },
            r is None ==> *final(self) == *old(self),
    {
        let b = self.bytes(8)?;
        let hi: u32 = b[0] as u32 * 0x100_0000 + b[1] as u32 * 0x1_0000 + b[2] as u32 * 0x100 + b[3] as u32;
        let lo: u32 = b[4] as u32 * 0x100_0000 + b[5] as u32 * 0x1_0000 + b[6] as u32 * 0x100 + b[7] as u32;
        Some(hi as u64 * 0x1_0000_0000 + lo as u64)
    }

    /// The next sixteen bytes as a big-endian number.
    pub fn u128(&mut self) -> (r: Option<u128>)
        ensures
            r is Some == (16 <= old(self)@.len()),
            r matches Some(x) ==> {
                &&& x == from_be128(old(self)@)
                &&& final(self)@ == old(self)@.skip(16)
                &&& final(self).read() == old(self).read() + 16
            },
            r is None ==> *final(self) == *old(self),
    {
        let b = self.bytes(16)?;
        let hi: [u8; 8] = array_from(b);
        let lo: [u8; 8] = array_from(vstd::slice::slice_subrange(b, 8, 16));
        Some(u64_from_be(&hi) as u128 * 0x1_0000_0000_0000_0000 + u64_from_be(&lo) as u128)
    }

    /// The next `N` bytes as an array.
    pub fn array<const N: usize>(&mut self) -> (r: Option<[u8; N]>)
        ensures
            r is Some == (N <= old(self)@.len()),
            r matches Some(x) ==> {
                &&& x@ == old(self)@.take(N as int)
                &&& final(self)@ == old(self)@.skip(N as int)
                &&& final(self).read() == old(self).read() + N
            },
            r is None ==> *final(self) == *old(self),
    {
        let b = self.bytes(N)?;
        let a: [u8; N] = array_from(b);
        assert(a@ =~= old(self)@.take(N as int));
        Some(a)
    }

    /// The content of the next length-prefixed field. Where it is not there in full, the
    /// cursor is left behind the length, or where it was if not even the length is there.
    pub fn vec_u32(&mut self) -> (r: Option<&'a [u8]>)
        ensures
            r is Some == read_field(old(self)@) is Some,
            r matches Some(b) ==> {
                &&& b@ == (read_field(old(self)@)->0).0
                &&& final(self)@ == (read_field(old(self)@)->0).1
                &&& final(self).read() == old(self).read() + 4 + b@.len()
            },
            r is None && old(self)@.len() < 4 ==> *final(self) == *old(self),
            r is None && old(self)@.len() >= 4 ==> {
                &&& final(self)@ == old(self)@.skip(4)
                &&& final(self).read() == old(self).read() + 4
            },
    {
        let len: u32 = self.u32()?;
        let b = self.bytes(len as usize)?;
        assert(b@ =~= old(self)@.subrange(4, 4 + len));
        assert(self@ =~= old(self)@.skip(4 + len));
        Some(b)
    }
}

} // verus!
