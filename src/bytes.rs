//! Big-endian integers and UTF-8 strings as byte sequences.
use byteorder::{BigEndian, ByteOrder};
use vstd::prelude::*;
use vstd::utf8::{decode_utf8, valid_utf8, encode_utf8};

verus! {

/// The two bytes of `n`, most significant first.
pub open spec fn be16(n: u16) -> Seq<u8> {
    seq![(n >> 8) as u8, n as u8]
}

/// The four bytes of `n`, most significant first.
pub open spec fn be32(n: u32) -> Seq<u8> {
    seq![(n >> 24) as u8, (n >> 16) as u8, (n >> 8) as u8, n as u8]
}

/// The eight bytes of `n`, most significant first.
pub open spec fn be64(n: u64) -> Seq<u8> {
    seq![
        (n >> 56) as u8,
        (n >> 48) as u8,
        (n >> 40) as u8,
        (n >> 32) as u8,
        (n >> 24) as u8,
        (n >> 16) as u8,
        (n >> 8) as u8,
        n as u8,
    ]
}

/// The big-endian `u16` at `p` in `b`.
#[verifier::opaque]
pub open spec fn get16(b: Seq<u8>, p: int) -> u16 {
    ((b[p] as u16) << 8) | (b[p + 1] as u16)
}

/// The big-endian `u32` at `p` in `b`.
#[verifier::opaque]
pub open spec fn get32(b: Seq<u8>, p: int) -> u32 {
    ((b[p] as u32) << 24) | ((b[p + 1] as u32) << 16) | ((b[p + 2] as u32) << 8) | (b[p
        + 3] as u32)
}

/// The big-endian `u64` at `p` in `b`.
#[verifier::opaque]
pub open spec fn get64(b: Seq<u8>, p: int) -> u64 {
    ((b[p] as u64) << 56) | ((b[p + 1] as u64) << 48) | ((b[p + 2] as u64) << 40) | ((b[p
        + 3] as u64) << 32) | ((b[p + 4] as u64) << 24) | ((b[p + 5] as u64) << 16) | ((b[p
        + 6] as u64) << 8) | (b[p + 7] as u64)
}

/// The bytes of a string.
pub open spec fn utf8(s: Seq<char>) -> Seq<u8> {
    encode_utf8(s)
}

/// Reading back the bytes of a `u16` gives the `u16`.
pub proof fn lemma_get16(b: Seq<u8>, p: int, n: u16)
    requires
        0 <= p,
        p + 2 <= b.len(),
        b.subrange(p, p + 2) == be16(n),
    ensures
        get16(b, p) == n,
{
    reveal(get16);
    let x0 = b[p];
    let x1 = b[p + 1];
    assert(x0 == b.subrange(p, p + 2)[0]);
    assert(x1 == b.subrange(p, p + 2)[1]);
    assert(x0 == (n >> 8) as u8 && x1 == n as u8 ==> ((x0 as u16) << 8) | (x1 as u16) == n)
        by (bit_vector);
}

/// Reading back the bytes of a `u32` gives the `u32`.
pub proof fn lemma_get32(b: Seq<u8>, p: int, n: u32)
    requires
        0 <= p,
        p + 4 <= b.len(),
        b.subrange(p, p + 4) == be32(n),
    ensures
        get32(b, p) == n,
{
    reveal(get32);
    let s = b.subrange(p, p + 4);
    let (x0, x1, x2, x3) = (b[p], b[p + 1], b[p + 2], b[p + 3]);
    assert(x0 == s[0] && x1 == s[1] && x2 == s[2] && x3 == s[3]);
    assert(x0 == (n >> 24) as u8 && x1 == (n >> 16) as u8 && x2 == (n >> 8) as u8 && x3
        == n as u8 ==> ((x0 as u32) << 24) | ((x1 as u32) << 16) | ((x2 as u32) << 8) | (x3 as u32)
        == n) by (bit_vector);
}

/// Reading back the bytes of a `u64` gives the `u64`.
pub proof fn lemma_get64(b: Seq<u8>, p: int, n: u64)
    requires
        0 <= p,
        p + 8 <= b.len(),
        b.subrange(p, p + 8) == be64(n),
    ensures
        get64(b, p) == n,
{
    reveal(get64);
    let s = b.subrange(p, p + 8);
    let (x0, x1, x2, x3) = (b[p], b[p + 1], b[p + 2], b[p + 3]);
    let (x4, x5, x6, x7) = (b[p + 4], b[p + 5], b[p + 6], b[p + 7]);
    assert(x0 == s[0] && x1 == s[1] && x2 == s[2] && x3 == s[3]);
    assert(x4 == s[4] && x5 == s[5] && x6 == s[6] && x7 == s[7]);
    assert(x0 == (n >> 56) as u8 && x1 == (n >> 48) as u8 && x2 == (n >> 40) as u8 && x3 == (n
        >> 32) as u8 && x4 == (n >> 24) as u8 && x5 == (n >> 16) as u8 && x6 == (n >> 8) as u8
        && x7 == n as u8 ==> ((x0 as u64) << 56) | ((x1 as u64) << 48) | ((x2 as u64) << 40) | ((
    x3 as u64) << 32) | ((x4 as u64) << 24) | ((x5 as u64) << 16) | ((x6 as u64) << 8) | (
    x7 as u64) == n) by (bit_vector);
}

/// Relies on byteorder's `BigEndian::read_u16`: the first two bytes of its
/// argument, most significant first.
#[verifier::external_body]
fn be_read_u16(buf: &[u8], pos: usize) -> (r: u16)
    requires
        pos + 2 <= buf@.len(),
    ensures
        r == get16(buf@, pos as int),
{
    BigEndian::read_u16(&buf[pos..])
}

/// Relies on byteorder's `BigEndian::read_u32`: the first four bytes of its
/// argument, most significant first.
#[verifier::external_body]
fn be_read_u32(buf: &[u8], pos: usize) -> (r: u32)
    requires
        pos + 4 <= buf@.len(),
    ensures
        r == get32(buf@, pos as int),
{
    BigEndian::read_u32(&buf[pos..])
}

/// Relies on byteorder's `BigEndian::read_u64`: the first eight bytes of its
/// argument, most significant first.
#[verifier::external_body]
fn be_read_u64(buf: &[u8], pos: usize) -> (r: u64)
    requires
        pos + 8 <= buf@.len(),
    ensures
        r == get64(buf@, pos as int),
{
    BigEndian::read_u64(&buf[pos..])
}

/// Relies on byteorder's `BigEndian::write_u16`: fills a two-byte buffer
/// with `n`, most significant byte first.
#[verifier::external_body]
fn be_bytes_u16(n: u16) -> (r: [u8; 2])
    ensures
        r@ == be16(n),
{
    let mut buf = [0u8; 2];
    BigEndian::write_u16(&mut buf, n);
    buf
}

/// Relies on byteorder's `BigEndian::write_u32`: fills a four-byte buffer
/// with `n`, most significant byte first.
#[verifier::external_body]
fn be_bytes_u32(n: u32) -> (r: [u8; 4])
    ensures
        r@ == be32(n),
{
    let mut buf = [0u8; 4];
    BigEndian::write_u32(&mut buf, n);
    buf
}

/// Relies on byteorder's `BigEndian::write_u64`: fills an eight-byte buffer
/// with `n`, most significant byte first.
#[verifier::external_body]
fn be_bytes_u64(n: u64) -> (r: [u8; 8])
    ensures
        r@ == be64(n),
{
    let mut buf = [0u8; 8];
    BigEndian::write_u64(&mut buf, n);
    buf
}

/// Relies on `String::from_utf8`: it succeeds exactly on valid UTF-8, and
/// the string then holds the characters that the bytes encode.
#[verifier::external_body]
fn string_from_utf8(bytes: Vec<u8>) -> (r: Option<String>)
    ensures
        match r {
            Some(s) => valid_utf8(bytes@) && s@ == decode_utf8(bytes@),
            None => !valid_utf8(bytes@),
        },
{
    String::from_utf8(bytes).ok()
}

/// Reads the big-endian `u16` at `pos`.
pub fn read_u16(buf: &[u8], pos: usize) -> (r: u16)
    requires
        pos + 2 <= buf@.len(),
    ensures
        r == get16(buf@, pos as int),
{
    be_read_u16(buf, pos)
}

/// Reads the big-endian `u32` at `pos`.
pub fn read_u32(buf: &[u8], pos: usize) -> (r: u32)
    requires
        pos + 4 <= buf@.len(),
    ensures
        r == get32(buf@, pos as int),
{
    be_read_u32(buf, pos)
}

/// Reads the big-endian `u64` at `pos`.
pub fn read_u64(buf: &[u8], pos: usize) -> (r: u64)
    requires
        pos + 8 <= buf@.len(),
    ensures
        r == get64(buf@, pos as int),
{
    be_read_u64(buf, pos)
}

/// Appends the bytes of `b` to `out`.
pub fn put_bytes(out: &mut Vec<u8>, b: &[u8])
    ensures
        final(out)@ == old(out)@ + b@,
{
    let mut i: usize = 0;
    while i < b.len()
        invariant
            i <= b@.len(),
            out@ == old(out)@ + b@.subrange(0, i as int),
        decreases b@.len() - i,
    {
        out.push(b[i]);
        i += 1;
        assert(out@ == old(out)@ + b@.subrange(0, i as int));
    }
    assert(b@.subrange(0, i as int) == b@);
}

/// Appends the big-endian bytes of `n` to `out`.
pub fn put_u16(out: &mut Vec<u8>, n: u16)
    ensures
        final(out)@ == old(out)@ + be16(n),
{
    let b = be_bytes_u16(n);
    put_bytes(out, &b);
}

/// Appends the big-endian bytes of `n` to `out`.
pub fn put_u32(out: &mut Vec<u8>, n: u32)
    ensures
        final(out)@ == old(out)@ + be32(n),
{
    let b = be_bytes_u32(n);
    put_bytes(out, &b);
}

/// Appends the big-endian bytes of `n` to `out`.
pub fn put_u64(out: &mut Vec<u8>, n: u64)
    ensures
        final(out)@ == old(out)@ + be64(n),
{
    let b = be_bytes_u64(n);
    put_bytes(out, &b);
}

/// The number of UTF-8 bytes of `s`.
pub fn utf8_len(s: &str) -> (r: usize)
    ensures
        r == utf8(s@).len(),
{
    s.as_bytes().len()
}

/// Appends the UTF-8 bytes of `s` to `out`.
pub fn put_str(out: &mut Vec<u8>, s: &str)
    ensures
        final(out)@ == old(out)@ + utf8(s@),
{
    put_bytes(out, s.as_bytes());
}

/// The `n` bytes at `pos`.
pub fn read_bytes(buf: &[u8], pos: usize, n: usize) -> (r: Vec<u8>)
    requires
        pos + n <= buf@.len(),
    ensures
        r@ == buf@.subrange(pos as int, pos + n),
{
    let len = buf.len();
    let mut r: Vec<u8> = Vec::new();
    let mut i: usize = 0;
    while i < n
        invariant
            i <= n,
            len == buf@.len(),
            pos + n <= buf@.len(),
            r@ == buf@.subrange(pos as int, pos + i),
        decreases n - i,
    {
        r.push(buf[pos + i]);
        i += 1;
        assert(r@ == buf@.subrange(pos as int, pos + i));
    }
    r
}

/// The string held by the `n` bytes at `pos`, or `None` where they are not
/// valid UTF-8.
pub fn read_utf8(buf: &[u8], pos: usize, n: usize) -> (r: Option<String>)
    requires
        pos + n <= buf@.len(),
    ensures
        match r {
            Some(s) => valid_utf8(buf@.subrange(pos as int, pos + n)) && s@ == decode_utf8(
                buf@.subrange(pos as int, pos + n),
            ),
            None => !valid_utf8(buf@.subrange(pos as int, pos + n)),
        },
{
    let bytes = read_bytes(buf, pos, n);
    string_from_utf8(bytes)
}

} // verus!
