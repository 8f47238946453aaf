use vstd::prelude::*;
use byteorder::{BigEndian, ByteOrder};

verus! {

/// The symbols of a byte sequence: each pair of bytes read big-endian; a
/// lone trailing byte becomes the high half of a last symbol whose low half
/// is zero.
pub open spec fn symbols_of(b: Seq<u8>) -> Seq<u16> {
    Seq::new(
        ((b.len() + 1) / 2) as nat,
        |i: int|
            if 2 * i + 1 < b.len() {
                (b[2 * i] as int * 256 + b[2 * i + 1] as int) as u16
            } else {
                (b[2 * i] as int * 256) as u16
            },
    )
}

/// The bytes of a symbol sequence, high byte first.
pub open spec fn bytes_of(s: Seq<u16>) -> Seq<u8> {
    Seq::new(
        2 * s.len(),
        |j: int|
            if j % 2 == 0 {
                (s[j / 2] as int / 256) as u8
            } else {
                (s[j / 2] as int % 256) as u8
            },
    )
}

/// Relies on byteorder's `BigEndian::read_u16`: the first byte is the high one.
#[verifier::external_body]
fn be_u16(hi: u8, lo: u8) -> (r: u16)
    ensures
        r as int == hi as int * 256 + lo as int,
{
    BigEndian::read_u16(&[hi, lo])
}

/// Relies on byteorder's `BigEndian::write_u16`: the high byte is written first.
#[verifier::external_body]
fn be_bytes(n: u16) -> (r: (u8, u8))
    ensures
        r.0 as int == n as int / 256,
        r.1 as int == n as int % 256,
{
    let mut buf = [0u8; 2];
    BigEndian::write_u16(&mut buf, n);
    (buf[0], buf[1])
}

/// Reads bytes as 16-bit big-endian symbols, padding an odd last byte with
/// a zero low byte.
pub fn read_u16_vec(bytes: &[u8]) -> (r: Vec<u16>)
    ensures
        r@ == symbols_of(bytes@),
{
    let n = bytes.len();
    let mut r: Vec<u16> = Vec::new();
    let mut i: usize = 0;
    while i < n / 2
        invariant
            n == bytes@.len(),
            i <= n / 2,
            r@.len() == i,
            forall|k: int| 0 <= k < i ==> r@[k] == symbols_of(bytes@)[k],
        decreases n / 2 - i,
    {
        let s = be_u16(bytes[2 * i], bytes[2 * i + 1]);
        r.push(s);
        i = i + 1;
    }
    if n % 2 == 1 {
        let s = be_u16(bytes[n - 1], 0);
        r.push(s);
    }
    assert(r@ =~= symbols_of(bytes@));
    r
}

/// Writes symbols out as bytes, high byte first.
pub fn symbols_to_bytes(s: &Vec<u16>) -> (r: Vec<u8>)
    ensures
        r@ == bytes_of(s@),
{
    let mut r: Vec<u8> = Vec::new();
    let mut i: usize = 0;
    while i < s.len()
        invariant
            i <= s@.len(),
            r@.len() == 2 * i,
            forall|j: int| 0 <= j < 2 * i ==> r@[j] == bytes_of(s@)[j],
        decreases s@.len() - i,
    {
        let (hi, lo) = be_bytes(s[i]);
        r.push(hi);
        r.push(lo);
        i = i + 1;
    }
    assert(r@ =~= bytes_of(s@));
    r
}

} // verus!
