//! Big-endian integers on the wire, read and written through `byteorder`.

use byteorder::{ByteOrder, NetworkEndian};
use vstd::arithmetic::div_mod::lemma_fundamental_div_mod_converse;
use vstd::prelude::*;

verus! {

/// The two bytes of `n`, most significant first.
pub open spec fn be16_bytes(n: u16) -> Seq<u8> {
    seq![(n / 256) as u8, (n % 256) as u8]
}

/// The four bytes of `n`, most significant first.
pub open spec fn be32_bytes(n: u32) -> Seq<u8> {
    seq![
        (n / 0x100_0000) as u8,
        ((n / 0x1_0000) % 256) as u8,
        ((n / 256) % 256) as u8,
        (n % 256) as u8,
    ]
}

/// The integer that the two bytes of `b` at `at` hold, most significant first.
pub open spec fn be16_at(b: Seq<u8>, at: int) -> u16 {
    (b[at] as int * 256 + b[at + 1] as int) as u16
}

/// The integer that the four bytes of `b` at `at` hold, most significant first.
pub open spec fn be32_at(b: Seq<u8>, at: int) -> u32 {
    (b[at] as int * 0x100_0000 + b[at + 1] as int * 0x1_0000 + b[at + 2] as int * 256
        + b[at + 3] as int) as u32
}

/// Reading back what was written gives the same integer.
pub proof fn lemma_be16_round_trip(n: u16)
    ensures
        be16_at(be16_bytes(n), 0) == n,
{
    let b = be16_bytes(n);
    assert(b[0] as int == n as int / 256 && b[1] as int == n as int % 256);
    assert((n as int / 256) * 256 + n as int % 256 == n as int) by (nonlinear_arith);
}

/// Reading back what was written gives the same integer.
pub proof fn lemma_be32_round_trip(n: u32)
    ensures
        be32_at(be32_bytes(n), 0) == n,
{
    let b = be32_bytes(n);
    let x = n as int;
    assert(b[0] as int == x / 0x100_0000);
    assert(b[1] as int == (x / 0x1_0000) % 256);
    assert(b[2] as int == (x / 256) % 256);
    assert(b[3] as int == x % 256);
    assert(0 <= x < 0x1_0000_0000 ==> (x / 0x100_0000) * 0x100_0000 + ((x / 0x1_0000) % 256)
        * 0x1_0000 + ((x / 256) % 256) * 256 + x % 256 == x) by (nonlinear_arith);
}

/// Writing the integer that two bytes hold gives those bytes back.
pub proof fn lemma_be16_bytes_of_value(b: Seq<u8>, at: int)
    requires
        0 <= at,
        at + 2 <= b.len(),
    ensures
        be16_bytes(be16_at(b, at)) == b.subrange(at, at + 2),
{
    let hi = b[at] as int;
    let lo = b[at + 1] as int;
    assert(0 <= hi < 256 && 0 <= lo < 256 ==> (hi * 256 + lo) / 256 == hi && (hi * 256 + lo)
        % 256 == lo) by (nonlinear_arith);
    assert(be16_bytes(be16_at(b, at)) =~= b.subrange(at, at + 2));
}

/// Writing the integer that four bytes hold gives those bytes back.
pub proof fn lemma_be32_bytes_of_value(b: Seq<u8>, at: int)
    requires
        0 <= at,
        at + 4 <= b.len(),
    ensures
        be32_bytes(be32_at(b, at)) == b.subrange(at, at + 4),
{
    let b0 = b[at] as int;
    let b1 = b[at + 1] as int;
    let b2 = b[at + 2] as int;
    let b3 = b[at + 3] as int;
    let x = b0 * 0x100_0000 + b1 * 0x1_0000 + b2 * 256 + b3;
    assert(x == b0 * 0x100_0000 + (b1 * 0x1_0000 + b2 * 256 + b3));
    lemma_fundamental_div_mod_converse(x, 0x100_0000, b0, b1 * 0x1_0000 + b2 * 256 + b3);
    assert(x == (b0 * 256 + b1) * 0x1_0000 + (b2 * 256 + b3));
    lemma_fundamental_div_mod_converse(x, 0x1_0000, b0 * 256 + b1, b2 * 256 + b3);
    lemma_fundamental_div_mod_converse(b0 * 256 + b1, 256, b0, b1);
    assert(x == (b0 * 0x1_0000 + b1 * 256 + b2) * 256 + b3);
    lemma_fundamental_div_mod_converse(x, 256, b0 * 0x1_0000 + b1 * 256 + b2, b3);
    lemma_fundamental_div_mod_converse(b0 * 0x1_0000 + b1 * 256 + b2, 256, b0 * 256 + b1, b2);
    assert(be32_bytes(be32_at(b, at)) =~= b.subrange(at, at + 4));
}

/// Relies on `NetworkEndian::read_u16` (big endian): the two bytes at `at`,
/// most significant first. It panics on fewer than two bytes, which
/// `requires` rules out.
#[verifier::external_body]
pub(crate) fn read_u16_at(b: &[u8], at: usize) -> (r: u16)
    requires
        at + 2 <= b@.len(),
    ensures
        r == be16_at(b@, at as int),
{
    NetworkEndian::read_u16(&b[at..at + 2])
}

/// Relies on `NetworkEndian::read_u32` (big endian): the four bytes at `at`,
/// most significant first. It panics on fewer than four bytes, which
/// `requires` rules out.
#[verifier::external_body]
pub(crate) fn read_u32_at(b: &[u8], at: usize) -> (r: u32)
    requires
        at + 4 <= b@.len(),
    ensures
        r == be32_at(b@, at as int),
{
    NetworkEndian::read_u32(&b[at..at + 4])
}

/// Relies on `NetworkEndian::write_u16` (big endian): it overwrites the two
/// bytes at `at` with `n`, most significant first, and nothing else.
#[verifier::external_body]
pub(crate) fn write_u16_at(b: &mut Vec<u8>, at: usize, n: u16)
    requires
        at + 2 <= old(b)@.len(),
    ensures
        final(b)@ == old(b)@.update(at as int, be16_bytes(n)[0]).update(
            at as int + 1,
            be16_bytes(n)[1],
        ),
{
    NetworkEndian::write_u16(&mut b[at..at + 2], n)
}

/// Relies on `NetworkEndian::write_u32` (big endian): it overwrites the four
/// bytes at `at` with `n`, most significant first, and nothing else.
#[verifier::external_body]
pub(crate) fn write_u32_at(b: &mut Vec<u8>, at: usize, n: u32)
    requires
        at + 4 <= old(b)@.len(),
    ensures
        final(b)@ == old(b)@.update(at as int, be32_bytes(n)[0]).update(
            at as int + 1,
            be32_bytes(n)[1],
        ).update(at as int + 2, be32_bytes(n)[2]).update(at as int + 3, be32_bytes(n)[3]),
{
    NetworkEndian::write_u32(&mut b[at..at + 4], n)
}

} // verus!
