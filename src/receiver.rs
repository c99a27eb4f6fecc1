//! The receiver's side: per-connection reassembly of the stream in order,
//! and the multiplexer that accepts connections, acknowledges data, closes
//! and evicts them.

use crate::connection_properties::{
    in_window, is_within_window, lemma_offset_add, lemma_offset_from_moved, lemma_offset_value,
    lemma_seq_add_offset, seq_add, seq_offset, ConnectionProperties,
};
use crate::byte_order::be16_at;
use crate::checksum::xor_fold;
use crate::packet::{
    decode_error, flag_of_byte, header_bin, init_sizes_valid, parse_header, parse_init_fields,
    wire, DataPacket, EndPacket, ErrorPacket, Flag, InitPacket, Packet, PacketHeader,
    ParsingError, ToBin,
};
use crate::sender::{max16, min16};
use std::collections::BTreeMap;
use vstd::prelude::*;
use vstd::seq_lib::lemma_flatten_concat;

verus! {

broadcast use vstd::laws_cmp::group_laws_cmp;

/// What the receiver keeps per connection.
pub struct ReceiverConnectionProperties {
    /// What sender and receiver agreed on.
    pub static_properties: ConnectionProperties,
    /// The sequence number expected next: the base of the receive window.
    pub window_position: u16,
    /// The sequence number of the next block to write out.
    pub next_write_position: u16,
    /// Blocks received and not yet written out, by sequence number.
    pub parts_received: BTreeMap<u16, Vec<u8>>,
    /// When the last packet of this connection arrived, in milliseconds of
    /// a monotonic clock.
    pub last_receive_time: u64,
    /// Whether the sender closed the connection after a complete transfer.
    pub is_closed: bool,
    /// Every block written out so far, in order: the `i`-th was received
    /// under sequence number `i` modulo 2^16.
    pub delivered: Ghost<Seq<Seq<u8>>>,
}

/// The `n` blocks held from `base` on, in order.
pub open spec fn blocks_from(parts: Map<u16, Seq<u8>>, base: u16, n: int) -> Seq<Seq<u8>> {
    Seq::new(n as nat, |j: int| parts[seq_add(base, j)])
}

/// The bytes of each block held.
pub open spec fn part_views(parts: Map<u16, Vec<u8>>) -> Map<u16, Seq<u8>> {
    parts.map_values(|v: Vec<u8>| v@)
}

impl ReceiverConnectionProperties {
    /// Blocks received in order and not yet written out.
    pub open spec fn flushable(&self) -> int {
        seq_offset(self.window_position, self.next_write_position)
    }

    /// Blocks from the write position up to the window position are all
    /// held; any other block held lies in the window; the block at the
    /// window position is missing; and as many blocks were written as the
    /// write position counts, modulo 2^16.
    pub open spec fn wf(&self) -> bool {
        &&& forall|j: int| 0 <= j < self.flushable() ==> #[trigger] self.parts_received@.contains_key(
            seq_add(self.next_write_position, j),
        )
        &&& forall|k: u16| #[trigger] self.parts_received@.contains_key(k) ==> seq_offset(
            k,
            self.next_write_position,
        ) < self.flushable() || in_window(k, self.window_position, self.static_properties.window_size)
        &&& !self.parts_received@.contains_key(self.window_position)
        &&& self.delivered@.len() % 0x1_0000 == self.next_write_position as int
    }

    /// A fresh connection: nothing received, nothing written, both
    /// positions at 0.
    pub fn new(conn_props: ConnectionProperties, now: u64) -> (r: Self)
        ensures
            r.wf(),
            r.static_properties == conn_props,
            r.window_position == 0,
            r.next_write_position == 0,
            r.parts_received@ == Map::<u16, Vec<u8>>::empty(),
            r.last_receive_time == now,
            !r.is_closed,
            r.delivered@ == Seq::<Seq<u8>>::empty(),
    {
        ReceiverConnectionProperties {
            static_properties: conn_props,
            window_position: 0,
            next_write_position: 0,
            parts_received: BTreeMap::new(),
            last_receive_time: now,
            is_closed: false,
            delivered: Ghost(Seq::empty()),
        }
    }

    /// Whether the connection ended with a complete transfer.
    pub fn is_closed(&self) -> (r: bool)
        ensures
            r == self.is_closed,
    {
        self.is_closed
    }

    /// Marks the connection closed after a complete transfer.
    pub fn close(&mut self)
        ensures
            final(self).is_closed,
            *final(self) == (ReceiverConnectionProperties { is_closed: true, ..*old(self) }),
    {
        self.is_closed = true;
    }

    /// Whether nothing arrived for longer than `timeout` milliseconds
    /// before `now`.
    pub fn timeouted(&self, timeout: u32, now: u64) -> (r: bool)
        ensures
            r == ((self.last_receive_time as int) + (timeout as int) < (now as int)),
    {
        (self.last_receive_time as u128) + (timeout as u128) < now as u128
    }

    /// Whether `ack` lies in this connection's receive window.
    pub fn is_within_window(&self, ack: u16) -> (r: bool)
        ensures
            r == (self.static_properties.window_size == 0 || in_window(
                ack,
                self.window_position,
                self.static_properties.window_size,
            )),
    {
        is_within_window(ack, self.window_position, self.static_properties.window_size)
    }

    /// The acknowledgement to answer with: the last sequence number
    /// received in order, one before the window position.
    pub fn get_acknowledge(&self) -> (r: u16)
        ensures
            r == seq_add(self.window_position, 0xffff),
    {
        ((self.window_position as u32 + 0xffff) % 0x1_0000) as u16
    }

    /// Stores the block `data` received under `seq`, at `now`, when `seq`
    /// lies in the window, and moves the window past every block then held
    /// in order. Expects the blocks before the window to be written out.
    pub fn store_data(&mut self, data: &Vec<u8>, seq: u16, now: u64)
        requires
            old(self).wf(),
            old(self).next_write_position == old(self).window_position,
        ensures
            final(self).wf(),
            final(self).static_properties == old(self).static_properties,
            final(self).next_write_position == old(self).next_write_position,
            final(self).delivered == old(self).delivered,
            final(self).is_closed == old(self).is_closed,
            final(self).last_receive_time == now,
            ({
                let stored = old(self).static_properties.window_size > 0 && in_window(
                    seq,
                    old(self).window_position,
                    old(self).static_properties.window_size,
                );
                &&& stored ==> {
                    &&& final(self).parts_received@.dom() == old(self).parts_received@.dom().insert(seq)
                    &&& final(self).parts_received@[seq]@ == data@
                    &&& forall|k: u16| k != seq && old(self).parts_received@.contains_key(k)
                        ==> #[trigger] final(self).parts_received@[k] == old(self).parts_received@[k]
                    &&& forall|j: int| 0 <= j < seq_offset(final(self).window_position, old(self).window_position)
                        ==> #[trigger] final(self).parts_received@.contains_key(seq_add(old(self).window_position, j))
                    &&& !final(self).parts_received@.contains_key(final(self).window_position)
                }
                &&& !stored ==> final(self).parts_received@ == old(self).parts_received@
                    && final(self).window_position == old(self).window_position
            }),
    {
        self.last_receive_time = now;
        let size = self.static_properties.window_size;
        if size == 0 || !is_within_window(seq, self.window_position, size) {
            return;
        }
        let ghost old_parts = self.parts_received@;
        let ghost wp0 = self.window_position;
        let content = vstd::slice::slice_to_vec(data.as_slice());
        self.parts_received.insert(seq, content);
        let ghost stored_parts = self.parts_received@;
        let mut moved: u16 = 0;
        while self.parts_received.contains_key(&self.window_position)
            invariant
                old(self).wf(),
                old(self).next_write_position == wp0,
                old(self).window_position == wp0,
                old_parts == old(self).parts_received@,
                size == self.static_properties.window_size,
                size > 0,
                in_window(seq, wp0, size),
                self.static_properties == old(self).static_properties,
                self.next_write_position == wp0,
                self.delivered == old(self).delivered,
                self.is_closed == old(self).is_closed,
                self.last_receive_time == now,
                self.parts_received@ == stored_parts,
                stored_parts == old_parts.insert(seq, stored_parts[seq]),
                stored_parts[seq]@ == data@,
                forall|k: u16| #[trigger] self.parts_received@.contains_key(k) ==> in_window(k, wp0, size),
                moved <= size,
                self.window_position == seq_add(wp0, moved as int),
                forall|j: int| 0 <= j < moved ==> #[trigger] self.parts_received@.contains_key(seq_add(wp0, j)),
            decreases size - moved,
        {
            proof {
                lemma_seq_add_offset(wp0, moved as int);
            }
            self.window_position = ((self.window_position as u32 + 1) % 0x1_0000) as u16;
            moved = moved + 1;
            proof {
                assert(seq_add(wp0, moved as int) == self.window_position);
            }
        }
        proof {
            lemma_seq_add_offset(wp0, moved as int);
            assert forall|k: u16| #[trigger] self.parts_received@.contains_key(k) implies seq_offset(
                k,
                self.next_write_position,
            ) < self.flushable() || in_window(k, self.window_position, size) by {
                lemma_offset_from_moved(k, wp0, moved as int);
            }
            assert forall|j: int| 0 <= j < self.flushable() implies #[trigger] self.parts_received@.contains_key(
                seq_add(self.next_write_position, j),
            ) by {
                assert(self.parts_received@.contains_key(seq_add(wp0, j)));
            }
        }
    }

    /// Takes every block from the write position up to the window
    /// position, in order, and returns their bytes to be appended to the
    /// output: after it the output holds every block written so far.
    #[verifier::rlimit(40)]
    pub fn save_into_file(&mut self) -> (r: Vec<u8>)
        requires
            old(self).wf(),
        ensures
            final(self).wf(),
            final(self).static_properties == old(self).static_properties,
            final(self).window_position == old(self).window_position,
            final(self).next_write_position == old(self).window_position,
            final(self).is_closed == old(self).is_closed,
            final(self).last_receive_time == old(self).last_receive_time,
            ({
                let flushed = blocks_from(
                    part_views(old(self).parts_received@),
                    old(self).next_write_position,
                    old(self).flushable(),
                );
                &&& r@ == flushed.flatten()
                &&& final(self).delivered@ == old(self).delivered@ + flushed
                &&& final(self).delivered@.flatten() == old(self).delivered@.flatten() + r@
            }),
            final(self).parts_received@ == old(self).parts_received@.remove_keys(
                Set::new(|k: u16| seq_offset(k, old(self).next_write_position) < old(self).flushable()),
            ),
    {
        let ghost old_parts = self.parts_received@;
        let ghost nwp0 = self.next_write_position;
        let ghost n = self.flushable();
        proof {
            lemma_offset_value(self.window_position, self.next_write_position);
        }
        let count: u32 = (self.window_position as u32 + 0x1_0000 - self.next_write_position as u32) % 0x1_0000;
        let mut out: Vec<u8> = Vec::new();
        let mut i: u32 = 0;
        while i < count
            invariant
                old(self).wf(),
                i <= count,
                count == n,
                n == old(self).flushable(),
                nwp0 == old(self).next_write_position,
                old_parts == old(self).parts_received@,
                self.static_properties == old(self).static_properties,
                self.window_position == old(self).window_position,
                self.is_closed == old(self).is_closed,
                self.last_receive_time == old(self).last_receive_time,
                self.next_write_position == seq_add(nwp0, i as int),
                self.parts_received@ == old_parts.remove_keys(Set::new(|k: u16| seq_offset(k, nwp0) < i)),
                out@ == blocks_from(part_views(old_parts), nwp0, i as int).flatten(),
                self.delivered@ == old(self).delivered@ + blocks_from(part_views(old_parts), nwp0, i as int),
            decreases count - i,
        {
            let key = self.next_write_position;
            proof {
                lemma_seq_add_offset(nwp0, i as int);
                assert(old_parts.contains_key(key));
            }
            let removed = self.parts_received.remove(&key);
            let mut block = match removed {
                Some(b) => b,
                None => {
                    assert(false);
                    return out;
                },
            };
            let ghost piece = block@;
            out.append(&mut block);
            self.delivered = Ghost(self.delivered@.push(piece));
            self.next_write_position = ((key as u32 + 1) % 0x1_0000) as u16;
            proof {
                assert(blocks_from(part_views(old_parts), nwp0, i as int + 1) =~= blocks_from(part_views(old_parts), nwp0, i as int).push(piece));
                blocks_from(part_views(old_parts), nwp0, i as int).lemma_flatten_push(piece);
                assert(self.delivered@ =~= old(self).delivered@ + blocks_from(part_views(old_parts), nwp0, i as int + 1));
                assert(self.parts_received@ =~= old_parts.remove_keys(Set::new(|k: u16| seq_offset(k, nwp0) < i + 1)));
                assert(seq_add(nwp0, i as int + 1) == self.next_write_position);
            }
            i = i + 1;
        }
        proof {
            let flushed = blocks_from(part_views(old_parts), nwp0, n);
            lemma_flatten_concat(old(self).delivered@, flushed);
            lemma_offset_add(self.window_position, nwp0);
            assert(self.next_write_position == self.window_position);
            assert(self.delivered@.len() == old(self).delivered@.len() + n);
            assert(self.flushable() == 0);
            assert forall|k: u16| #[trigger] self.parts_received@.contains_key(k) implies seq_offset(
                k,
                self.next_write_position,
            ) < self.flushable() || in_window(k, self.window_position, self.static_properties.window_size) by {
                assert(old_parts.contains_key(k));
            }
        }
        out
    }
}

/// The receiver's settings.
pub struct Config {
    pub verbose: bool,
    /// Address to listen on, `ip:port`.
    pub bindaddr: String,
    /// Directory of the output files, one per connection id.
    pub directory: String,
    /// Largest packet accepted.
    pub max_packet_size: u16,
    /// Largest window accepted.
    pub max_window_size: u16,
    /// Narrowest checksum accepted.
    pub min_checksum: u16,
    /// Milliseconds of silence after which a connection is evicted.
    pub timeout: u32,
}

impl Config {
    /// The defaults: packets of 1500 bytes, a window of 15, checksums of
    /// at least 16 bytes, 5 s of timeout, files under `received`.
    pub fn new() -> (r: Self)
        ensures
            !r.verbose,
            r.bindaddr@ == "127.0.0.1:3003"@,
            r.directory@ == "received"@,
            r.max_packet_size == 1500,
            r.max_window_size == 15,
            r.min_checksum == 16,
            r.timeout == 5000,
    {
        Config {
            verbose: false,
            bindaddr: "127.0.0.1:3003".to_owned(),
            directory: "received".to_owned(),
            max_packet_size: 1500,
            max_window_size: 15,
            min_checksum: 16,
            timeout: 5000,
        }
    }

    pub fn is_verbose(&self) -> (r: bool)
        ensures
            r == self.verbose,
    {
        self.verbose
    }
}

/// Something for the caller to do with the outside world.
pub enum Action {
    /// Send a datagram to an address.
    Send(Vec<u8>, String),
    /// Append bytes to the output file of a connection.
    Append(u32, Vec<u8>),
    /// Release the output file of a connection that ended complete.
    Close(u32),
    /// Delete the partial output file of a connection.
    Delete(u32),
}

/// Whether `a` sends `bytes` to `to`.
pub open spec fn sends(a: Action, bytes: Seq<u8>, to: Seq<char>) -> bool {
    match a {
        Action::Send(b, t) => b@ == bytes && t@ == to,
        _ => false,
    }
}

/// Whether `a` appends `bytes` to the output of connection `id`.
pub open spec fn appends(a: Action, id: u32, bytes: Seq<u8>) -> bool {
    match a {
        Action::Append(i, b) => i == id && b@ == bytes,
        _ => false,
    }
}

/// The Init that answers with a connection's parameters.
pub open spec fn init_answer(id: u32, window_size: u16, packet_size: u16, checksum_size: u16) -> InitPacket {
    InitPacket {
        header: PacketHeader { id, seq: 0, ack: 0, flag: Flag::Init },
        window_size,
        packet_size,
        checksum_size,
    }
}

/// A packet of header `h` and no body, with a checksum of width `k`.
pub open spec fn bare_wire(h: PacketHeader, k: u16) -> Seq<u8> {
    header_bin(h) + xor_fold(header_bin(h), k as nat)
}

/// The datagram of an Init answer.
fn init_answer_bytes(id: u32, window_size: u16, packet_size: u16, checksum_size: u16) -> (r: Vec<u8>)
    requires
        init_sizes_valid(packet_size, checksum_size),
    ensures
        r@ == wire(&Packet::Init(init_answer(id, window_size, packet_size, checksum_size)), checksum_size as nat),
{
    let mut answer = InitPacket::new(window_size, packet_size, checksum_size);
    answer.header.id = id;
    Packet::Init(answer).to_bin(checksum_size as usize)
}

/// The datagram of a packet of header `h` and no body.
fn bare_bytes(packet: Packet, k: u16) -> (r: Vec<u8>)
    requires
        packet matches Packet::Data(d) ==> d.data@.len() == 0,
        !(packet is Init),
    ensures
        r@ == bare_wire(crate::packet::header_of(&packet), k),
{
    proof {
        if packet is Data {
            let d = packet->Data_0;
            assert(header_bin(d.header) + d.data@ =~= header_bin(d.header));
        }
    }
    packet.to_bin(k as usize)
}

/// Whether `c` is a connection just accepted under `id` with these sizes
/// from `from` at `now`: nothing received, nothing written.
pub open spec fn fresh_connection(
    c: ReceiverConnectionProperties,
    id: u32,
    checksum_size: u16,
    window_size: u16,
    packet_size: u16,
    from: Seq<char>,
    now: u64,
) -> bool {
    &&& c.static_properties.id == id
    &&& c.static_properties.checksum_size == checksum_size
    &&& c.static_properties.window_size == window_size
    &&& c.static_properties.packet_size == packet_size
    &&& c.static_properties.socket_addr@ == from
    &&& c.window_position == 0
    &&& c.next_write_position == 0
    &&& c.parts_received@ == Map::<u16, Vec<u8>>::empty()
    &&& c.last_receive_time == now
    &&& !c.is_closed
    &&& c.delivered@ == Seq::<Seq<u8>>::empty()
}

/// What evicting connection `c` asks for: nothing once it ended complete,
/// else deleting its partial output and an Error to its peer.
pub open spec fn removal_actions(c: ReceiverConnectionProperties, actions: Seq<Action>) -> bool {
    if c.is_closed {
        actions.len() == 0
    } else {
        &&& actions.len() == 2
        &&& actions[0] == Action::Delete(c.static_properties.id)
        &&& sends(
            actions[1],
            bare_wire(
                PacketHeader { id: c.static_properties.id, seq: 0, ack: 0, flag: Flag::Error },
                c.static_properties.checksum_size,
            ),
            c.static_properties.socket_addr@,
        )
    }
}

/// What a Data packet of `payload` under `seq`, arriving at `now`, does to
/// connection `c`, giving `c2`. In the window (or any window of size 0) it
/// is held, the window moves past every block then held in order, and those
/// blocks are written out; outside the window nothing changes.
pub open spec fn data_outcome(
    c: ReceiverConnectionProperties,
    c2: ReceiverConnectionProperties,
    seq: u16,
    payload: Seq<u8>,
    now: u64,
) -> bool {
    let size = c.static_properties.window_size;
    let within = size == 0 || in_window(seq, c.window_position, size);
    let stored = size > 0 && in_window(seq, c.window_position, size);
    if !within {
        c2 == c
    } else {
        &&& c2.static_properties == c.static_properties
        &&& c2.is_closed == c.is_closed
        &&& c2.last_receive_time == now
        &&& c2.next_write_position == c2.window_position
        &&& stored ==> {
            let held = part_views(c.parts_received@).insert(seq, payload);
            let n = seq_offset(c2.window_position, c.window_position);
            &&& forall|j: int| 0 <= j < n ==> #[trigger] held.contains_key(seq_add(c.window_position, j))
            &&& !held.contains_key(c2.window_position)
            &&& c2.delivered@ == c.delivered@ + blocks_from(held, c.window_position, n)
            &&& part_views(c2.parts_received@) == held.remove_keys(
                Set::new(|k: u16| seq_offset(k, c.window_position) < n),
            )
        }
        &&& !stored ==> c2.window_position == c.window_position && c2.parts_received@
            == c.parts_received@ && c2.delivered == c.delivered
    }
}

/// The actions that evicting connection `c` asks for.
fn removal(c: &ReceiverConnectionProperties) -> (actions: Vec<Action>)
    ensures
        removal_actions(*c, actions@),
{
    let mut actions: Vec<Action> = Vec::new();
    if c.is_closed() {
        return actions;
    }
    let id = c.static_properties.id;
    actions.push(Action::Delete(id));
    let error = bare_bytes(Packet::Error(ErrorPacket::new(id)), c.static_properties.checksum_size);
    actions.push(Action::Send(error, c.static_properties.socket_addr.clone()));
    actions
}

/// Stores and writes out a Data block for connection `c`, and answers it.
fn data_step(c: &mut ReceiverConnectionProperties, data: &Vec<u8>, seq: u16, from: &String, now: u64) -> (actions: Vec<Action>)
    requires
        old(c).wf(),
        old(c).next_write_position == old(c).window_position,
    ensures
        final(c).wf(),
        final(c).next_write_position == final(c).window_position,
        data_outcome(*old(c), *final(c), seq, data@, now),
        ({
            let id = old(c).static_properties.id;
            let written = final(c).delivered@.subrange(old(c).delivered@.len() as int, final(c).delivered@.len() as int).flatten();
            let ack = bare_wire(
                PacketHeader { id, seq, ack: seq_add(final(c).window_position, 0xffff), flag: Flag::Data },
                old(c).static_properties.checksum_size,
            );
            &&& final(c).delivered@.flatten() == old(c).delivered@.flatten() + written
            &&& if written.len() > 0 {
                actions@.len() == 2 && appends(actions@[0], id, written) && sends(actions@[1], ack, from@)
            } else {
                actions@.len() == 1 && sends(actions@[0], ack, from@)
            }
        }),
{
    let ghost c0 = *c;
    let mut actions: Vec<Action> = Vec::new();
    let id = c.static_properties.id;
    let cs = c.static_properties.checksum_size;
    if c.is_within_window(seq) {
        c.store_data(data, seq, now);
        let ghost after_store = *c;
        let written = c.save_into_file();
        proof {
            let size = c0.static_properties.window_size;
            if size > 0 && in_window(seq, c0.window_position, size) {
                assert(part_views(after_store.parts_received@) =~= part_views(c0.parts_received@).insert(seq, data@));
                let n = seq_offset(c.window_position, c0.window_position);
                assert(after_store.next_write_position == c0.window_position);
                assert(after_store.flushable() == n);
                assert(part_views(c.parts_received@) =~= part_views(after_store.parts_received@).remove_keys(
                    Set::new(|k: u16| seq_offset(k, c0.window_position) < n),
                ));
            } else {
                assert(after_store.flushable() == 0);
                assert(blocks_from(part_views(after_store.parts_received@), after_store.next_write_position, 0) =~= Seq::<Seq<u8>>::empty());
                assert(c.delivered@ =~= c0.delivered@);
                assert(c.parts_received@ =~= c0.parts_received@);
            }
            assert(c.delivered@.subrange(c0.delivered@.len() as int, c.delivered@.len() as int) =~= blocks_from(
                part_views(after_store.parts_received@),
                after_store.next_write_position,
                after_store.flushable(),
            ));
        }
        if written.len() > 0 {
            actions.push(Action::Append(id, written));
        }
    } else {
        proof {
            assert(c.delivered@.subrange(c0.delivered@.len() as int, c.delivered@.len() as int) =~= Seq::<Seq<u8>>::empty());
            assert(c.delivered@.flatten() =~= c0.delivered@.flatten() + Seq::<u8>::empty());
        }
    }
    let ack = c.get_acknowledge();
    let reply = bare_bytes(Packet::Data(DataPacket::new(Vec::new(), id, seq, ack)), cs);
    actions.push(Action::Send(reply, from.clone()));
    actions
}

/// Whether nothing arrived on `c` for longer than `timeout` before `now`.
pub open spec fn timed_out(c: ReceiverConnectionProperties, timeout: u32, now: u64) -> bool {
    (c.last_receive_time as int) + (timeout as int) < (now as int)
}

/// The connections of `conns` that did not time out, in order.
pub open spec fn kept(conns: Seq<ReceiverConnectionProperties>, timeout: u32, now: u64) -> Seq<ReceiverConnectionProperties>
    decreases conns.len(),
{
    if conns.len() == 0 {
        Seq::empty()
    } else {
        let prev = kept(conns.drop_last(), timeout, now);
        if timed_out(conns.last(), timeout, now) {
            prev
        } else {
            prev.push(conns.last())
        }
    }
}

/// Whether `actions` are the removal actions of the connections of `conns`
/// that timed out, one after another in order.
pub open spec fn eviction_actions(
    conns: Seq<ReceiverConnectionProperties>,
    timeout: u32,
    now: u64,
    actions: Seq<Action>,
) -> bool
    decreases conns.len(),
{
    if conns.len() == 0 {
        actions.len() == 0
    } else {
        let c = conns.last();
        if timed_out(c, timeout, now) {
            let m: int = if c.is_closed { 0 } else { 2 };
            &&& actions.len() >= m
            &&& eviction_actions(conns.drop_last(), timeout, now, actions.subrange(0, actions.len() - m))
            &&& removal_actions(c, actions.subrange(actions.len() - m, actions.len() as int))
        } else {
            eviction_actions(conns.drop_last(), timeout, now, actions)
        }
    }
}

/// Relies on `rand::random::<u32>`: a value drawn from the thread's random
/// generator. Nothing is promised of it.
#[verifier::external_body]
fn random_u32() -> (r: u32) {
    rand::random::<u32>()
}

/// The receiver: its settings and its open connections.
pub struct Receiver {
    pub config: Config,
    pub connections: Vec<ReceiverConnectionProperties>,
}

impl Receiver {
    /// Every connection is consistent, written out up to its window, has a
    /// nonzero id of its own and sizes valid for an Init answer.
    pub open spec fn wf(&self) -> bool {
        &&& forall|i: int| 0 <= i < self.connections@.len() ==> {
            let c = #[trigger] self.connections@[i];
            &&& c.wf()
            &&& c.next_write_position == c.window_position
            &&& c.static_properties.id != 0
            &&& init_sizes_valid(c.static_properties.packet_size, c.static_properties.checksum_size)
        }
        &&& forall|i: int, j: int|
            0 <= i < self.connections@.len() && 0 <= j < self.connections@.len() && i != j
                ==> #[trigger] self.connections@[i].static_properties.id
                != #[trigger] self.connections@[j].static_properties.id
    }

    /// Whether a connection has id `id`.
    pub open spec fn has_id(&self, id: u32) -> bool {
        exists|i: int| 0 <= i < self.connections@.len() && #[trigger] self.connections@[i].static_properties.id == id
    }

    /// What an Init datagram `b` from `from` leads to. It is validated
    /// with the checksum width it proposes. A valid Init opens a connection
    /// under `fresh_id` with the smaller window and packet and the wider
    /// checksum, and is answered with those; a valid Init for an open
    /// connection is answered with its parameters again; one cut short is
    /// answered with the receiver's own limits and id 0; a damaged one, or
    /// one with a bad flag, changes nothing and gets no answer.
    pub open spec fn init_outcome(
        &self,
        next: &Self,
        b: Seq<u8>,
        from: Seq<char>,
        now: u64,
        fresh_id: u32,
        actions: Seq<Action>,
    ) -> bool {
        let cfg = self.config;
        let unchanged = next.connections@ == self.connections@;
        match parse_init_fields(b) {
            Err(_) => unchanged && actions.len() == 0,
            Ok(f) => {
                match decode_error(b, f.checksum_size as nat) {
                    None => if flag_of_byte(b[8]) == Some(Flag::Init) && f.header.id != 0 && self.has_id(f.header.id) {
                        &&& unchanged
                        &&& actions.len() == 1
                        &&& forall|i: int|
                            0 <= i < self.connections@.len() && #[trigger] self.connections@[i].static_properties.id
                                == f.header.id ==> {
                                let sp = self.connections@[i].static_properties;
                                sends(
                                    actions[0],
                                    wire(
                                        &Packet::Init(init_answer(sp.id, sp.window_size, sp.packet_size, sp.checksum_size)),
                                        sp.checksum_size as nat,
                                    ),
                                    from,
                                )
                            }
                    } else {
                        let ws = min16(f.window_size, cfg.max_window_size);
                        let ps = min16(f.packet_size, cfg.max_packet_size);
                        let cs = max16(f.checksum_size, cfg.min_checksum);
                        if flag_of_byte(b[8]) == Some(Flag::Init) && init_sizes_valid(ps, cs) {
                            &&& next.connections@.len() == self.connections@.len() + 1
                            &&& next.connections@.subrange(0, self.connections@.len() as int) == self.connections@
                            &&& fresh_connection(next.connections@.last(), fresh_id, cs, ws, ps, from, now)
                            &&& actions.len() == 1
                            &&& sends(actions[0], wire(&Packet::Init(init_answer(fresh_id, ws, ps, cs)), cs as nat), from)
                        } else {
                            unchanged && actions.len() == 0
                        }
                    }
                    Some(ParsingError::InvalidSize(_, _)) => {
                        let ps = min16(cfg.max_packet_size, b.len() as u16);
                        if init_sizes_valid(ps, cfg.min_checksum) {
                            &&& unchanged
                            &&& actions.len() == 1
                            &&& sends(
                                actions[0],
                                wire(
                                    &Packet::Init(init_answer(0, cfg.max_window_size, ps, cfg.min_checksum)),
                                    cfg.min_checksum as nat,
                                ),
                                from,
                            )
                        } else {
                            unchanged && actions.len() == 0
                        }
                    },
                    Some(_) => unchanged && actions.len() == 0,
                }
            },
        }
    }

    /// An empty receiver.
    pub fn new(config: Config) -> (r: Self)
        ensures
            r.wf(),
            r.config == config,
            r.connections@.len() == 0,
    {
        Receiver { config, connections: Vec::new() }
    }

    /// Whether `id` can name a new connection: nonzero and unused.
    pub fn id_is_free(&self, id: u32) -> (r: bool)
        ensures
            r == (id != 0 && !self.has_id(id)),
    {
        if id == 0 {
            return false;
        }
        match self.find(id) {
            Some(_) => false,
            None => true,
        }
    }

    /// Draws a random id for a new connection, up to `attempts` times,
    /// until it draws one that is nonzero and unused.
    pub fn draw_connection_id(&self, attempts: u32) -> (r: Option<u32>)
        ensures
            r matches Some(id) ==> id != 0 && !self.has_id(id),
    {
        let mut i: u32 = 0;
        while i < attempts
            decreases attempts - i,
        {
            let id = random_u32();
            if self.id_is_free(id) {
                return Some(id);
            }
            i = i + 1;
        }
        None
    }

    /// The position of the connection with id `id`.
    fn find(&self, id: u32) -> (r: Option<usize>)
        ensures
            match r {
                Some(i) => i < self.connections@.len() && self.connections@[i as int].static_properties.id == id,
                None => !self.has_id(id),
            },
    {
        let mut i: usize = 0;
        while i < self.connections.len()
            invariant
                i <= self.connections@.len(),
                forall|j: int| 0 <= j < i ==> #[trigger] self.connections@[j].static_properties.id != id,
            decreases self.connections@.len() - i,
        {
            if self.connections[i].static_properties.id == id {
                return Some(i);
            }
            i = i + 1;
        }
        None
    }

    /// What a non-Init datagram `b` from `from` does to the connection at
    /// position `i`, which its header names. A Data packet is stored and
    /// written out as `data_outcome` says, and answered with an
    /// acknowledgement of the last block held in order; an End with nothing
    /// held and the window at its seq closes the connection and is echoed;
    /// any other End, and an Error, evict the connection.
    pub open spec fn packet_outcome(
        &self,
        next: &Self,
        i: int,
        b: Seq<u8>,
        from: Seq<char>,
        now: u64,
        actions: Seq<Action>,
    ) -> bool {
        let c = self.connections@[i];
        let id = c.static_properties.id;
        let cs = c.static_properties.checksum_size;
        let unchanged = next.connections@ == self.connections@;
        if decode_error(b, cs as nat) is Some {
            unchanged && actions.len() == 0
        } else if flag_of_byte(b[8]) == Some(Flag::Data) {
            let seq = be16_at(b, 4);
            let c2 = next.connections@[i];
            let written = c2.delivered@.subrange(c.delivered@.len() as int, c2.delivered@.len() as int).flatten();
            let ack = bare_wire(
                PacketHeader { id, seq, ack: seq_add(c2.window_position, 0xffff), flag: Flag::Data },
                cs,
            );
            &&& next.connections@.len() == self.connections@.len()
            &&& next.connections@ == self.connections@.update(i, c2)
            &&& data_outcome(c, c2, seq, b.subrange(9, b.len() - cs), now)
            &&& c2.delivered@.flatten() == c.delivered@.flatten() + written
            &&& if written.len() > 0 {
                actions.len() == 2 && appends(actions[0], id, written) && sends(actions[1], ack, from)
            } else {
                actions.len() == 1 && sends(actions[0], ack, from)
            }
        } else if flag_of_byte(b[8]) == Some(Flag::End) {
            if c.parts_received@.dom() == Set::<u16>::empty() && c.window_position == be16_at(b, 4) {
                &&& next.connections@ == self.connections@.update(
                    i,
                    ReceiverConnectionProperties { is_closed: true, ..c },
                )
                &&& actions.len() == 2
                &&& actions[0] == Action::Close(id)
                &&& sends(
                    actions[1],
                    bare_wire(
                        PacketHeader { id, seq: c.window_position, ack: c.window_position, flag: Flag::End },
                        cs,
                    ),
                    from,
                )
            } else {
                next.connections@ == self.connections@.remove(i) && removal_actions(c, actions)
            }
        } else if flag_of_byte(b[8]) == Some(Flag::Error) {
            next.connections@ == self.connections@.remove(i) && removal_actions(c, actions)
        } else {
            unchanged && actions.len() == 0
        }
    }

    /// Handles one datagram `packet` that arrived from `from` at `now`.
    /// `fresh_id` is the id a connection opened by it gets: nonzero and
    /// unused (see `id_is_free`).
    pub fn handle_datagram(&mut self, packet: &[u8], from: &String, now: u64, fresh_id: u32) -> (actions: Vec<Action>)
        requires
            old(self).wf(),
            fresh_id != 0,
            !old(self).has_id(fresh_id),
        ensures
            final(self).wf(),
            final(self).config == old(self).config,
            match parse_header(packet@) {
                Err(_) => final(self).connections@ == old(self).connections@ && actions@.len() == 0,
                Ok(h) => if h.flag == Flag::Init {
                    old(self).init_outcome(final(self), packet@, from@, now, fresh_id, actions@)
                } else if old(self).has_id(h.id) {
                    forall|i: int|
                        0 <= i < old(self).connections@.len() && #[trigger] old(self).connections@[i].static_properties.id
                            == h.id ==> old(self).packet_outcome(final(self), i, packet@, from@, now, actions@)
                } else {
                    final(self).connections@ == old(self).connections@ && actions@.len() == 0
                },
            },
    {
        let header = match PacketHeader::from_bin(packet) {
            Ok(h) => h,
            Err(_) => {
                return Vec::new();
            },
        };
        if header.flag == Flag::Init {
            return self.accept_init(packet, from, now, fresh_id);
        }
        match self.find(header.id) {
            Some(i) => self.handle_connection_packet(i, packet, from, now),
            None => Vec::new(),
        }
    }

    /// Handles a non-Init datagram for the connection at position `idx`.
    fn handle_connection_packet(&mut self, idx: usize, packet: &[u8], from: &String, now: u64) -> (actions: Vec<Action>)
        requires
            old(self).wf(),
            idx < old(self).connections@.len(),
            parse_header(packet@) is Ok,
            parse_header(packet@)->Ok_0.flag != Flag::Init,
            parse_header(packet@)->Ok_0.id == old(self).connections@[idx as int].static_properties.id,
        ensures
            final(self).wf(),
            final(self).config == old(self).config,
            old(self).packet_outcome(final(self), idx as int, packet@, from@, now, actions@),
    {
        let ghost old_conns = self.connections@;
        let cs = self.connections[idx].static_properties.checksum_size;
        let mut actions: Vec<Action> = Vec::new();
        let decoded = match Packet::from_bin(packet, cs as usize) {
            Ok(p) => p,
            Err(_) => {
                return actions;
            },
        };
        let ghost body = packet@.subrange(0, packet@.len() - cs);
        match decoded {
            Packet::Data(d) => {
                let mut c = self.connections.remove(idx);
                proof {
                    assert(d.data@ =~= packet@.subrange(9, packet@.len() - cs));
                }
                actions = data_step(&mut c, &d.data, d.header.seq, from, now);
                self.connections.insert(idx, c);
                proof {
                    assert(self.connections@ =~= old_conns.update(idx as int, c));
                }
            },
            Packet::Error(_) => {
                let c = self.connections.remove(idx);
                actions = removal(&c);
            },
            Packet::End(e) => {
                let mut c = self.connections.remove(idx);
                let id = c.static_properties.id;
                if !c.parts_received.is_empty() || c.window_position != e.header.seq {
                    proof {
                        if !c.parts_received@.is_empty() {
                            assert(c.parts_received@.dom() != Set::<u16>::empty()) by {
                                let k = choose|k: u16| c.parts_received@.dom().contains(k);
                                assert(c.parts_received@.dom().contains(k));
                            }
                        }
                    }
                    actions = removal(&c);
                } else {
                    proof {
                        assert(c.parts_received@.dom() =~= Set::<u16>::empty());
                    }
                    c.close();
                    actions.push(Action::Close(id));
                    let reply = bare_bytes(Packet::End(EndPacket::new(id, c.window_position)), cs);
                    actions.push(Action::Send(reply, from.clone()));
                    self.connections.insert(idx, c);
                    proof {
                        assert(self.connections@ =~= old_conns.update(idx as int, c));
                    }
                }
            },
            Packet::Init(_) => {},
        }
        actions
    }

    /// Evicts every connection silent for longer than the configured
    /// timeout at `now`, keeping the others in order.
    pub fn expire(&mut self, now: u64) -> (actions: Vec<Action>)
        requires
            old(self).wf(),
        ensures
            final(self).wf(),
            final(self).config == old(self).config,
            final(self).connections@ == kept(old(self).connections@, old(self).config.timeout, now),
            eviction_actions(old(self).connections@, old(self).config.timeout, now, actions@),
    {
        let ghost all = self.connections@;
        let timeout = self.config.timeout;
        let n = self.connections.len();
        let mut keep: Vec<ReceiverConnectionProperties> = Vec::new();
        let mut actions: Vec<Action> = Vec::new();
        let mut i: usize = 0;
        proof {
            assert(all.subrange(0, 0) =~= Seq::<ReceiverConnectionProperties>::empty());
        }
        while i < n
            invariant
                old(self).wf(),
                all == old(self).connections@,
                n == all.len(),
                i <= n,
                timeout == old(self).config.timeout,
                self.config == old(self).config,
                self.connections@ == all.subrange(i as int, n as int),
                keep@ == kept(all.subrange(0, i as int), timeout, now),
                eviction_actions(all.subrange(0, i as int), timeout, now, actions@),
                forall|a: int| 0 <= a < keep@.len() ==> exists|j: int| 0 <= j < i && #[trigger] keep@[a] == all[j],
                forall|a: int, b: int| 0 <= a < keep@.len() && 0 <= b < keep@.len() && a != b
                    ==> #[trigger] keep@[a].static_properties.id != #[trigger] keep@[b].static_properties.id,
            decreases n - i,
        {
            let c = self.connections.remove(0);
            proof {
                assert(c == all[i as int]);
                assert(self.connections@ =~= all.subrange(i as int + 1, n as int));
                assert(all.subrange(0, i as int + 1).drop_last() =~= all.subrange(0, i as int));
                assert(all.subrange(0, i as int + 1).last() == c);
            }
            if c.timeouted(timeout, now) {
                let ghost before = actions@;
                let mut removed = removal(&c);
                let ghost r = removed@;
                actions.append(&mut removed);
                proof {
                    let m: int = if c.is_closed { 0 } else { 2 };
                    assert(actions@.subrange(0, actions@.len() - m) =~= before);
                    assert(actions@.subrange(actions@.len() - m, actions@.len() as int) =~= r);
                }
            } else {
                let ghost before = keep@;
                keep.push(c);
                proof {
                    assert forall|a: int| 0 <= a < keep@.len() implies exists|j: int| 0 <= j < i + 1 && #[trigger] keep@[a] == all[j] by {
                        if a < before.len() {
                            let j = choose|j: int| 0 <= j < i && #[trigger] before[a] == all[j];
                            assert(keep@[a] == all[j]);
                        } else {
                            assert(keep@[a] == all[i as int]);
                        }
                    }
                    assert forall|a: int| 0 <= a < before.len() implies #[trigger] keep@[a].static_properties.id
                        != c.static_properties.id by {
                        let j = choose|j: int| 0 <= j < i && #[trigger] before[a] == all[j];
                        assert(all[j].static_properties.id != all[i as int].static_properties.id);
                    }
                }
            }
            i = i + 1;
        }
        proof {
            assert(all.subrange(0, n as int) =~= all);
            assert forall|a: int| 0 <= a < keep@.len() implies {
                let c = #[trigger] keep@[a];
                &&& c.wf()
                &&& c.next_write_position == c.window_position
                &&& c.static_properties.id != 0
                &&& init_sizes_valid(c.static_properties.packet_size, c.static_properties.checksum_size)
            } by {
                let j = choose|j: int| 0 <= j < n && #[trigger] keep@[a] == all[j];
                assert(all[j] == old(self).connections@[j]);
            }
        }
        self.connections = keep;
        actions
    }

    /// Answers an Init datagram; see `init_outcome`.
    fn accept_init(&mut self, packet: &[u8], from: &String, now: u64, fresh_id: u32) -> (actions: Vec<Action>)
        requires
            old(self).wf(),
            fresh_id != 0,
            !old(self).has_id(fresh_id),
        ensures
            final(self).wf(),
            final(self).config == old(self).config,
            old(self).init_outcome(final(self), packet@, from@, now, fresh_id, actions@),
    {
        let mut actions: Vec<Action> = Vec::new();
        let fields = match InitPacket::parse_init_unchecked(packet) {
            Ok(f) => f,
            Err(_) => {
                return actions;
            },
        };
        match Packet::from_bin(packet, fields.checksum_size as usize) {
            Ok(Packet::Init(_)) => {
                if fields.header.id != 0 {
                    match self.find(fields.header.id) {
                        Some(i) => {
                            let sp = &self.connections[i].static_properties;
                            let bytes = init_answer_bytes(sp.id, sp.window_size, sp.packet_size, sp.checksum_size);
                            actions.push(Action::Send(bytes, from.clone()));
                            return actions;
                        },
                        None => {},
                    }
                }
                let cfg = &self.config;
                let ws = if fields.window_size <= cfg.max_window_size { fields.window_size } else { cfg.max_window_size };
                let ps = if fields.packet_size <= cfg.max_packet_size { fields.packet_size } else { cfg.max_packet_size };
                let cs = if fields.checksum_size >= cfg.min_checksum { fields.checksum_size } else { cfg.min_checksum };
                if ps as usize <= 15 + cs as usize {
                    return actions;
                }
                let props = ConnectionProperties::new(fresh_id, cs, ws, ps, from.clone());
                let conn = ReceiverConnectionProperties::new(props, now);
                let ghost before = self.connections@;
                self.connections.push(conn);
                proof {
                    assert(self.connections@.subrange(0, before.len() as int) =~= before);
                }
                actions.push(Action::Send(init_answer_bytes(fresh_id, ws, ps, cs), from.clone()));
            },
            Err(ParsingError::InvalidSize(_, _)) => {
                let cfg = &self.config;
                let arrived = packet.len() as u16;
                let ps = if cfg.max_packet_size <= arrived { cfg.max_packet_size } else { arrived };
                if ps as usize <= 15 + cfg.min_checksum as usize {
                    return actions;
                }
                actions.push(Action::Send(init_answer_bytes(0, cfg.max_window_size, ps, cfg.min_checksum), from.clone()));
            },
            _ => {},
        }
        actions
    }
}

} // verus!
