//! Little-endian encoding of the 64-bit Bloom words and their store keys.

use vstd::prelude::*;

use byteorder::ByteOrder;
use byteorder::LittleEndian;

verus! {

/// Byte `i` of the little-endian encoding of `v`.
pub open spec fn le_byte(v: u64, i: int) -> u8 {
    (v >> ((8 * i) as u64)) as u8
}

/// The 8-byte little-endian encoding of `v`.
pub open spec fn le_bytes_of(v: u64) -> Seq<u8> {
    Seq::new(8, |i: int| le_byte(v, i))
}

/// The value read little-endian from the first 8 bytes of `s`.
pub open spec fn le_val_of(s: Seq<u8>) -> u64 {
    (s[0] as u64) | ((s[1] as u64) << 8) | ((s[2] as u64) << 16) | ((s[3] as u64) << 24) | ((
    s[4] as u64) << 32) | ((s[5] as u64) << 40) | ((s[6] as u64) << 48) | ((s[7] as u64) << 56)
}

/// Decoding the encoding of a word gives the word back.
pub proof fn lemma_le_round_trip(v: u64)
    ensures
        le_val_of(le_bytes_of(v)) == v,
{
    let s = le_bytes_of(v);
    assert(s[0] == (v >> 0) as u8);
    assert(s[1] == (v >> 8) as u8);
    assert(s[2] == (v >> 16) as u8);
    assert(s[3] == (v >> 24) as u8);
    assert(s[4] == (v >> 32) as u8);
    assert(s[5] == (v >> 40) as u8);
    assert(s[6] == (v >> 48) as u8);
    assert(s[7] == (v >> 56) as u8);
    assert((((v >> 0) as u8) as u64) | ((((v >> 8) as u8) as u64) << 8) | ((((v
        >> 16) as u8) as u64) << 16) | ((((v >> 24) as u8) as u64) << 24) | ((((v
        >> 32) as u8) as u64) << 32) | ((((v >> 40) as u8) as u64) << 40) | ((((v
        >> 48) as u8) as u64) << 48) | ((((v >> 56) as u8) as u64) << 56) == v) by (bit_vector);
}

/// Relies on byteorder's `LittleEndian::write_u64`: stores the word in
/// little-endian byte order.
#[verifier::external_body]
pub(crate) fn u64_to_le(v: u64) -> (r: Vec<u8>)
    ensures
        r@ == le_bytes_of(v),
{
    let mut buf = [0u8; 8];
    LittleEndian::write_u64(&mut buf, v);
    buf.to_vec()
}

/// Relies on byteorder's `LittleEndian::read_u64`: reads the first 8 bytes in
/// little-endian byte order.
#[verifier::external_body]
pub(crate) fn u64_from_le(b: &Vec<u8>) -> (r: u64)
    requires
        b@.len() >= 8,
    ensures
        r == le_val_of(b@),
{
    LittleEndian::read_u64(b)
}

/// The well-known store key under which the Bloom hash-function count lives.
pub open spec fn hashcount_key_spec() -> Seq<u8> {
    seq![97u8, 99u8, 99u8, 111u8, 117u8, 110u8, 116u8, 95u8, 104u8, 97u8, 115u8, 104u8, 95u8, 99u8, 111u8, 117u8, 110u8, 116u8]
}

/// The ASCII bytes of the hash-function-count key.
pub fn hashcount_key() -> (r: Vec<u8>)
    ensures
        r@ == hashcount_key_spec(),
{
    let mut v: Vec<u8> = Vec::new();
    v.push(97);
    v.push(99);
    v.push(99);
    v.push(111);
    v.push(117);
    v.push(110);
    v.push(116);
    v.push(95);
    v.push(104);
    v.push(97);
    v.push(115);
    v.push(104);
    v.push(95);
    v.push(99);
    v.push(111);
    v.push(117);
    v.push(110);
    v.push(116);
    proof {
        assert(v@ =~= hashcount_key_spec());
    }
    v
}

} // verus!
