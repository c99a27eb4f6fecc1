//! What sender and receiver agree on at init, and the window arithmetic
//! over 16-bit sequence numbers that both sides use.

use vstd::prelude::*;

verus! {

/// How far `val` lies past `base`, counting modulo 2^16.
pub open spec fn seq_offset(val: u16, base: u16) -> int {
    (val as int - base as int) % 0x1_0000
}

/// The sequence number `i` places past `base`, modulo 2^16.
pub open spec fn seq_add(base: u16, i: int) -> u16 {
    ((base as int + i) % 0x1_0000) as u16
}

/// Whether `val` is one of the `size` sequence numbers from `base`.
pub open spec fn in_window(val: u16, base: u16, size: u16) -> bool {
    seq_offset(val, base) < size as int
}

/// Offsets compose: stepping `i` past `base` lands `i` past it.
pub proof fn lemma_seq_add_offset(base: u16, i: int)
    requires
        0 <= i < 0x1_0000,
    ensures
        seq_offset(seq_add(base, i), base) == i,
{
}

/// The offset from `base` locates a value exactly.
pub proof fn lemma_offset_add(val: u16, base: u16)
    ensures
        0 <= seq_offset(val, base) < 0x1_0000,
        seq_add(base, seq_offset(val, base)) == val,
{
}

/// The offset of `val` past `base`, spelled out without a modulus.
pub proof fn lemma_offset_value(val: u16, base: u16)
    ensures
        seq_offset(val, base) == if val >= base {
            val as int - base as int
        } else {
            val as int - base as int + 0x1_0000
        },
{
}

/// Moving the base `j` places forward lowers every offset by `j`, modulo 2^16.
pub proof fn lemma_offset_from_moved(val: u16, base: u16, j: int)
    requires
        0 <= j < 0x1_0000,
    ensures
        seq_offset(val, seq_add(base, j)) == if seq_offset(val, base) >= j {
            seq_offset(val, base) - j
        } else {
            seq_offset(val, base) - j + 0x1_0000
        },
{
    let b = seq_add(base, j);
    assert(b as int == if base as int + j < 0x1_0000 {
        base as int + j
    } else {
        base as int + j - 0x1_0000
    });
    lemma_offset_value(val, base);
    lemma_offset_value(val, b);
}

/// Parameters that do not change during a transfer.
pub struct ConnectionProperties {
    /// Connection identifier, chosen by the receiver.
    pub id: u32,
    /// Bytes of checksum after each packet.
    pub checksum_size: u16,
    /// Packets in flight at most.
    pub window_size: u16,
    /// Bytes of a packet on the wire, header and checksum included.
    pub packet_size: u16,
    /// Address of the other endpoint, as text (`ip:port`).
    pub socket_addr: String,
}

impl ConnectionProperties {
    pub fn new(id: u32, checksum_size: u16, window_size: u16, packet_size: u16, socket_addr: String) -> (r: Self)
        ensures
            r.id == id,
            r.checksum_size == checksum_size,
            r.window_size == window_size,
            r.packet_size == packet_size,
            r.socket_addr@ == socket_addr@,
    {
        ConnectionProperties { id, checksum_size, window_size, packet_size, socket_addr }
    }

    /// Whether `ack` lies in the window of this connection starting at
    /// `window_position`. The end of the window wraps past 2^16; a window
    /// of size 0 ends where it starts, and then every value counts as in it.
    pub fn is_within_window(&self, ack: u16, window_position: u16) -> (r: bool)
        ensures
            r == (self.window_size == 0 || in_window(ack, window_position, self.window_size)),
    {
        is_within_window(ack, window_position, self.window_size)
    }
}

/// Whether `val` lies in the window of `size` sequence numbers from `base`,
/// the end taken with wrapping addition: inside `[base, end)` when that
/// does not wrap, else at or past `base` or before `end`.
pub fn is_within_window(val: u16, base: u16, size: u16) -> (r: bool)
    ensures
        r == (size == 0 || in_window(val, base, size)),
{
    let end = ((base as u32 + size as u32) % 0x1_0000) as u16;
    if base < end {
        base <= val && val < end
    } else {
        base <= val || val < end
    }
}

} // verus!
