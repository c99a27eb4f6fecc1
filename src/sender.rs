//! The sender's side of a connection: the parts of the file in flight, the
//! acknowledgements that free them, and the decisions of each phase.

use crate::connection_properties::{
    in_window, is_within_window, lemma_offset_add, lemma_offset_from_moved, lemma_offset_value,
    lemma_seq_add_offset, seq_add, seq_offset,
    ConnectionProperties,
};
use crate::checksum::xor_fold;
use crate::byte_order::{be16_at, be32_at};
use crate::packet::{
    decode_error, flag_of_byte, header_bin, init_sizes_valid, parse_init_fields, wire, DataPacket,
    EndPacket, ErrorPacket, Flag, InitPacket, Packet, PacketHeader, ParsingError,
};
use std::collections::BTreeMap;
use vstd::prelude::*;

verus! {

broadcast use vstd::laws_cmp::group_laws_cmp;

/// The sender's settings.
pub struct Config {
    pub verbose: bool,
    /// Address to send from, `ip:port`.
    pub bind_addr: String,
    /// The file to send.
    pub file: String,
    /// Packet size to propose.
    pub packet_size: u16,
    /// Address to send to, `ip:port`.
    pub send_addr: String,
    /// Window to propose.
    pub window_size: u16,
    /// Milliseconds to wait for a reply, and between retransmissions.
    pub timeout: u32,
    /// Timeouts in a row after which a phase fails.
    pub repetition: u16,
    /// Checksum width to propose.
    pub checksum_size: u16,
}

impl Config {
    /// The defaults: packets of 1500 bytes, a window of 15, checksums of
    /// 64 bytes, 100 ms of timeout and 20 retries.
    pub fn new() -> (r: Self)
        ensures
            !r.verbose,
            r.bind_addr@ == "127.0.0.1:3000"@,
            r.file@ == "input.txt"@,
            r.packet_size == 1500,
            r.send_addr@ == "127.0.0.1:3001"@,
            r.window_size == 15,
            r.timeout == 100,
            r.repetition == 20,
            r.checksum_size == 64,
    {
        Config {
            verbose: false,
            bind_addr: "127.0.0.1:3000".to_owned(),
            file: "input.txt".to_owned(),
            packet_size: 1500,
            send_addr: "127.0.0.1:3001".to_owned(),
            window_size: 15,
            timeout: 100,
            repetition: 20,
            checksum_size: 64,
        }
    }

    pub fn is_verbose(&self) -> (r: bool)
        ensures
            r == self.verbose,
    {
        self.verbose
    }
}

/// A block of the file that waits for its acknowledgement.
pub struct Part {
    /// The block's bytes.
    pub content: Vec<u8>,
    /// When it was last sent, in milliseconds of a monotonic clock.
    pub last_transition: u64,
    /// Its sequence number.
    pub seq: u16,
    /// Whether it was sent at least once.
    pub send: bool,
}

/// What the sender keeps per connection.
pub struct SenderConnectionProperties {
    /// What sender and receiver agreed on.
    pub static_properties: ConnectionProperties,
    /// The lowest sequence number not yet acknowledged.
    pub window_position: u16,
    /// The loaded parts, by sequence number: those from `window_position`
    /// up to `next_load`.
    pub loaded_parts: BTreeMap<u16, Part>,
    /// The sequence number the next part read from the file gets.
    pub next_load: u16,
    /// Whether the whole file has been read.
    pub file_read: bool,
}

/// Whether sequence number `k` lies in the first `n` places from `base`.
pub open spec fn among_first(k: u16, base: u16, n: int) -> bool {
    seq_offset(k, base) < n
}

/// After the window moves past `ack`, the parts that stay are exactly those
/// between the new position and the next one to load.
proof fn lemma_window_moved(k: u16, wp: u16, ack: u16, nl: u16, size: u16)
    requires
        seq_offset(ack, wp) < size,
        seq_offset(nl, wp) <= size,
    ensures
        ({
            let n = seq_offset(ack, wp);
            let wp2 = seq_add(ack, 1);
            let nl2 = if seq_offset(nl, wp) <= n { wp2 } else { nl };
            &&& seq_offset(nl2, wp2) <= size
            &&& (among_first(k, wp, seq_offset(nl, wp)) && !(seq_offset(k, wp) <= n))
                <==> among_first(k, wp2, seq_offset(nl2, wp2))
        }),
{
    let n = seq_offset(ack, wp);
    lemma_offset_add(ack, wp);
    assert(seq_add(ack, 1) == seq_add(wp, n + 1));
    lemma_offset_from_moved(k, wp, n + 1);
    lemma_offset_from_moved(nl, wp, n + 1);
    lemma_offset_value(seq_add(ack, 1), seq_add(ack, 1));
}

/// Whether a part is due to be sent at `now`: never sent, or sent at least
/// `timeout` milliseconds ago.
pub open spec fn part_due(p: Part, now: u64, timeout: u32) -> bool {
    !p.send || now as int - p.last_transition as int >= timeout as int
}

/// The Data datagram that carries a part: ack is the window position.
pub open spec fn part_datagram(props: ConnectionProperties, window_position: u16, p: Part) -> Seq<u8> {
    let body = header_bin(
        PacketHeader { id: props.id, seq: p.seq, ack: window_position, flag: Flag::Data },
    ) + p.content@;
    body + xor_fold(body, props.checksum_size as nat)
}

/// One step further from `base`.
proof fn lemma_offset_next(val: u16, base: u16)
    requires
        seq_offset(val, base) < 0xffff,
    ensures
        seq_offset(seq_add(val, 1), base) == seq_offset(val, base) + 1,
{
    lemma_offset_value(val, base);
    lemma_offset_value(seq_add(val, 1), base);
}

/// The first `n` places from `base` and the place `n` make the first `n + 1`.
proof fn lemma_among_next(k: u16, base: u16, n: int)
    requires
        0 <= n < 0xffff,
    ensures
        among_first(k, base, n + 1) <==> (among_first(k, base, n) || k == seq_add(base, n)),
{
    lemma_offset_add(k, base);
    lemma_seq_add_offset(base, n);
}

/// What the sender makes of a reply to its Init.
#[derive(Debug, Clone, Copy, PartialEq, Eq, Structural)]
pub enum NegotiationStep {
    /// Shorter than a header: counts as a failed attempt.
    ShortReply,
    /// Not an Init answer, or damaged: dropped.
    Ignored,
    /// The proposal changed; propose again.
    Retry,
    /// The receiver accepted, under this connection id.
    Established(u32),
    /// No proposal can follow.
    Failed,
}

/// What the sender makes of a packet while it sends the file.
#[derive(Debug, Clone, Copy, PartialEq, Eq, Structural)]
pub enum DataStep {
    /// Damaged, for another connection, or a late Init: dropped.
    Ignored,
    /// An acknowledgement; whether the window moved.
    Acknowledged(bool),
    /// An End before the file was sent: answer with an Error and fail.
    UnexpectedEnd,
    /// The receiver gave up: fail.
    PeerError,
}

/// What the sender makes of a packet after it sent its End.
#[derive(Debug, Clone, Copy, PartialEq, Eq, Structural)]
pub enum EndStep {
    /// Damaged, for another connection, or a late Init: dropped.
    Ignored,
    /// The receiver confirms the End: the transfer is done.
    Confirmed,
    /// An End for another position: answer with an Error and fail.
    InvalidEnd,
    /// A Data for this connection after the End: answer with an Error
    /// and fail.
    UnexpectedData,
    /// The receiver gave up: fail.
    PeerError,
}

/// How an event weighs on a phase's retry budget.
#[derive(Debug, Clone, Copy, PartialEq, Eq, Structural)]
pub enum RetryEvent {
    /// An attempt that got no usable answer.
    Failed,
    /// Forward progress: the budget starts afresh.
    Progress,
    /// Neither.
    Neutral,
}

/// The attempts a phase has used after `event`: one more after a failed
/// attempt, none after progress. `None` once `repetition` attempts are
/// used up: the phase fails.
pub fn next_attempts(attempts: u16, event: RetryEvent, repetition: u16) -> (r: Option<u16>)
    ensures
        ({
            let n: int = match event {
                RetryEvent::Failed => attempts as int + 1,
                RetryEvent::Progress => 0,
                RetryEvent::Neutral => attempts as int,
            };
            r == if n >= repetition as int {
                None
            } else {
                Some(n as u16)
            }
        }),
{
    let n: u32 = match event {
        RetryEvent::Failed => attempts as u32 + 1,
        RetryEvent::Progress => 0,
        RetryEvent::Neutral => attempts as u32,
    };
    if n >= repetition as u32 {
        None
    } else {
        Some(n as u16)
    }
}

impl NegotiationStep {
    /// Every Init sent counts as an attempt until one is accepted.
    pub fn retry_event(&self) -> (r: RetryEvent)
        ensures
            r == match *self {
                NegotiationStep::Established(_) => RetryEvent::Progress,
                NegotiationStep::Failed => RetryEvent::Neutral,
                _ => RetryEvent::Failed,
            },
    {
        match self {
            NegotiationStep::Established(_) => RetryEvent::Progress,
            NegotiationStep::Failed => RetryEvent::Neutral,
            _ => RetryEvent::Failed,
        }
    }
}

impl DataStep {
    /// A window that moved is progress; nothing else counts.
    pub fn retry_event(&self) -> (r: RetryEvent)
        ensures
            r == if *self == DataStep::Acknowledged(true) {
                RetryEvent::Progress
            } else {
                RetryEvent::Neutral
            },
    {
        match self {
            DataStep::Acknowledged(true) => RetryEvent::Progress,
            _ => RetryEvent::Neutral,
        }
    }
}

/// The smaller of two sizes.
pub open spec fn min16(a: u16, b: u16) -> u16 {
    if a <= b { a } else { b }
}

/// The larger of two sizes.
pub open spec fn max16(a: u16, b: u16) -> u16 {
    if a >= b { a } else { b }
}

/// The proposal after an answer: the smaller window and packet, the wider
/// checksum.
pub open spec fn merged_proposal(p: InitPacket, answer: InitPacket) -> InitPacket {
    InitPacket {
        header: p.header,
        window_size: min16(p.window_size, answer.window_size),
        packet_size: min16(p.packet_size, answer.packet_size),
        checksum_size: max16(p.checksum_size, answer.checksum_size),
    }
}

/// The proposal and the step that the reply `b` leads to from proposal `p`.
/// A reply is read for its Init fields first, to learn the checksum width
/// that validates it. A valid Init answer merges into the proposal; its id
/// 0 asks for another proposal. A reply that was cut short asks to propose
/// the size that arrived.
pub open spec fn negotiation(p: InitPacket, b: Seq<u8>) -> (InitPacket, NegotiationStep) {
    if b.len() < 9 {
        (p, NegotiationStep::ShortReply)
    } else {
        match parse_init_fields(b) {
            Err(_) => (p, NegotiationStep::Ignored),
            Ok(f) => match decode_error(b, f.checksum_size as nat) {
                None => if flag_of_byte(b[8]) == Some(Flag::Init) {
                    let m = merged_proposal(p, f);
                    if !init_sizes_valid(m.packet_size, m.checksum_size) {
                        (p, NegotiationStep::Failed)
                    } else if f.header.id == 0 {
                        (m, NegotiationStep::Retry)
                    } else {
                        (m, NegotiationStep::Established(f.header.id))
                    }
                } else {
                    (p, NegotiationStep::Ignored)
                },
                Some(ParsingError::InvalidSize(_, actual)) => {
                    let m = InitPacket { packet_size: actual as u16, ..p };
                    if init_sizes_valid(m.packet_size, m.checksum_size) {
                        (m, NegotiationStep::Retry)
                    } else {
                        (p, NegotiationStep::Failed)
                    }
                },
                Some(_) => (p, NegotiationStep::Ignored),
            },
        }
    }
}

/// The Init datagram that proposes `proposal`, checksummed with its own width.
pub fn init_request(proposal: &InitPacket) -> (r: Vec<u8>)
    requires
        init_sizes_valid(proposal.packet_size, proposal.checksum_size),
    ensures
        r@ == wire(&Packet::Init(*proposal), proposal.checksum_size as nat),
        r@.len() == proposal.packet_size,
{
    proof {
        crate::checksum::lemma_xor_fold_len(crate::packet::init_bin(*proposal), proposal.checksum_size as nat);
    }
    Packet::Init(*proposal).to_bin(proposal.checksum_size as usize)
}

/// Reads the reply to an Init and updates the proposal.
pub fn negotiate(proposal: &mut InitPacket, reply: &[u8]) -> (r: NegotiationStep)
    requires
        init_sizes_valid(old(proposal).packet_size, old(proposal).checksum_size),
    ensures
        (*final(proposal), r) == negotiation(*old(proposal), reply@),
        init_sizes_valid(final(proposal).packet_size, final(proposal).checksum_size),
{
    if reply.len() < 9 {
        return NegotiationStep::ShortReply;
    }
    let fields = match InitPacket::parse_init_unchecked(reply) {
        Ok(f) => f,
        Err(_) => {
            return NegotiationStep::Ignored;
        },
    };
    match Packet::from_bin(reply, fields.checksum_size as usize) {
        Ok(Packet::Init(_)) => {
            let window_size = if proposal.window_size <= fields.window_size { proposal.window_size } else { fields.window_size };
            let packet_size = if proposal.packet_size <= fields.packet_size { proposal.packet_size } else { fields.packet_size };
            let checksum_size = if proposal.checksum_size >= fields.checksum_size { proposal.checksum_size } else { fields.checksum_size };
            if packet_size as usize <= 15 + checksum_size as usize {
                return NegotiationStep::Failed;
            }
            proposal.window_size = window_size;
            proposal.packet_size = packet_size;
            proposal.checksum_size = checksum_size;
            if fields.header.id == 0 {
                NegotiationStep::Retry
            } else {
                NegotiationStep::Established(fields.header.id)
            }
        },
        Ok(_) => NegotiationStep::Ignored,
        Err(ParsingError::InvalidSize(_, actual)) => {
            let packet_size = actual as u16;
            if packet_size as usize <= 15 + proposal.checksum_size as usize {
                return NegotiationStep::Failed;
            }
            proposal.packet_size = packet_size;
            NegotiationStep::Retry
        },
        Err(_) => NegotiationStep::Ignored,
    }
}

impl SenderConnectionProperties {
    /// Parts loaded so far and not yet acknowledged.
    pub open spec fn loaded_count(&self) -> int {
        seq_offset(self.next_load, self.window_position)
    }

    /// Bytes of file content that fit in one Data packet.
    pub open spec fn spec_load_size(&self) -> int {
        self.static_properties.packet_size - self.static_properties.checksum_size - 9
    }

    /// The loaded parts are exactly those from the window position up to
    /// the next one to load, within the window, each under its own
    /// sequence number and no larger than a packet's payload.
    pub open spec fn wf(&self) -> bool {
        &&& self.spec_load_size() > 0
        &&& self.loaded_count() <= self.static_properties.window_size
        &&& forall|k: u16| #[trigger]
            self.loaded_parts@.contains_key(k) <==> among_first(k, self.window_position, self.loaded_count())
        &&& forall|k: u16| #[trigger]
            self.loaded_parts@.contains_key(k) ==> self.loaded_parts@[k].seq == k
                && self.loaded_parts@[k].content@.len() <= self.spec_load_size()
    }


    /// What acknowledging `ack` makes of this connection. When `ack` lies in
    /// the window, the window moves to just past `ack` and no part from the
    /// old position through `ack` is left; otherwise nothing changes.
    pub open spec fn ack_result(&self, next: Self, ack: u16, moved: bool) -> bool {
        &&& next.wf()
        &&& next.static_properties == self.static_properties
        &&& next.file_read == self.file_read
        &&& moved == (self.static_properties.window_size > 0 && in_window(
            ack,
            self.window_position,
            self.static_properties.window_size,
        ))
        &&& moved ==> next.window_position == seq_add(ack, 1) && next.loaded_parts@
            == self.loaded_parts@.remove_keys(
            Set::new(|k: u16| seq_offset(k, self.window_position) <= seq_offset(ack, self.window_position)),
        )
        &&& !moved ==> next.window_position == self.window_position && next.loaded_parts@
            == self.loaded_parts@
    }

    /// A connection with nothing loaded, its window at 0.
    pub fn new(props: ConnectionProperties) -> (r: Self)
        requires
            props.packet_size as int > props.checksum_size as int + 9,
        ensures
            r.wf(),
            r.static_properties == props,
            r.window_position == 0,
            r.loaded_parts@ == Map::<u16, Part>::empty(),
            !r.file_read,
    {
        SenderConnectionProperties {
            static_properties: props,
            window_position: 0,
            loaded_parts: BTreeMap::new(),
            next_load: 0,
            file_read: false,
        }
    }

    /// Whether the whole file was read, sent and acknowledged.
    pub fn is_complete(&self) -> (r: bool)
        requires
            self.wf(),
        ensures
            r == (self.file_read && self.loaded_parts@.dom() == Set::<u16>::empty()),
    {
        let empty = self.next_load == self.window_position;
        proof {
            if !empty {
                let k = self.window_position;
                assert(among_first(k, self.window_position, self.loaded_count()));
                assert(self.loaded_parts@.contains_key(k));
            } else {
                assert(self.loaded_parts@.dom() =~= Set::<u16>::empty());
            }
        }
        self.file_read && empty
    }

    /// Registers the acknowledgement `ack`: every part from the window
    /// position through `ack` is received. When `ack` lies in the window
    /// those parts are dropped, the window moves past `ack`, and the result
    /// is `true`; otherwise nothing changes and the result is `false`.
    pub fn acknowledge(&mut self, ack: u16) -> (moved: bool)
        requires
            old(self).wf(),
        ensures
            old(self).ack_result(*final(self), ack, moved),
    {
        let size = self.static_properties.window_size;
        if size == 0 || !is_within_window(ack, self.window_position, size) {
            return false;
        }
        let ghost old_parts = self.loaded_parts@;
        let ghost wp = self.window_position;
        let ghost nl = self.next_load;
        let count: u32 = ((ack as u32 + 0x1_0000 - self.window_position as u32) % 0x1_0000) + 1;
        assert(count == seq_offset(ack, wp) + 1);
        let mut i: u32 = 0;
        while i < count
            invariant
                i <= count,
                count == seq_offset(ack, wp) + 1,
                count <= 0x1_0000,
                self.window_position == wp,
                self.next_load == nl,
                self.static_properties == old(self).static_properties,
                self.file_read == old(self).file_read,
                self.loaded_parts@ == old_parts.remove_keys(Set::new(|k: u16| seq_offset(k, wp) < i)),
            decreases count - i,
        {
            let key = ((self.window_position as u32 + i) % 0x1_0000) as u16;
            proof {
                lemma_seq_add_offset(wp, i as int);
            }
            self.loaded_parts.remove(&key);
            proof {
                assert(self.loaded_parts@ =~= old_parts.remove_keys(Set::new(|k: u16| seq_offset(k, wp) < i + 1)));
            }
            i = i + 1;
        }
        let ghost n = seq_offset(ack, wp);
        assert(self.loaded_parts@.dom() =~= old_parts.dom().difference(Set::new(|k: u16| seq_offset(k, wp) <= n)));
        let new_position = ((ack as u32 + 1) % 0x1_0000) as u16;
        let loaded = ((self.next_load as u32 + 0x1_0000 - self.window_position as u32) % 0x1_0000);
        proof {
            lemma_offset_value(nl, wp);
        }
        assert(loaded == seq_offset(nl, wp));
        assert(new_position == seq_add(ack, 1));
        if loaded <= count - 1 {
            self.next_load = new_position;
        }
        self.window_position = new_position;
        proof {
            assert(self.loaded_parts@ =~= old_parts.remove_keys(Set::new(|k: u16| seq_offset(k, wp) <= n)));
            assert forall|k: u16| #[trigger]
                self.loaded_parts@.contains_key(k) <==> among_first(k, self.window_position, self.loaded_count()) by {
                lemma_window_moved(k, wp, ack, nl, size);
                assert(old_parts.contains_key(k) <==> among_first(k, wp, seq_offset(nl, wp)));
                assert(self.loaded_parts@.contains_key(k) <==> (old_parts.contains_key(k) && !(
                seq_offset(k, wp) <= n)));
            }
            lemma_window_moved(wp, wp, ack, nl, size);
            assert(self.loaded_count() <= size);
            assert forall|k: u16| #[trigger] self.loaded_parts@.contains_key(k) implies self.loaded_parts@[k].seq == k
                && self.loaded_parts@[k].content@.len() <= self.spec_load_size() by {
                assert(old_parts.contains_key(k));
            }
        }
        true
    }

    /// The datagrams of the parts due at `now`, in the order of their
    /// sequence numbers from the window position, over the first `i` places.
    pub open spec fn due_datagrams(&self, now: u64, timeout: u32, i: nat) -> Seq<Seq<u8>>
        decreases i,
    {
        if i == 0 {
            Seq::empty()
        } else {
            let prev = self.due_datagrams(now, timeout, (i - 1) as nat);
            let p = self.loaded_parts@[seq_add(self.window_position, i - 1)];
            if part_due(p, now, timeout) {
                prev.push(part_datagram(self.static_properties, self.window_position, p))
            } else {
                prev
            }
        }
    }

    /// Bytes of file content that each part holds at most.
    pub fn load_size(&self) -> (r: usize)
        requires
            self.wf(),
        ensures
            r == self.spec_load_size(),
    {
        (self.static_properties.packet_size - self.static_properties.checksum_size - 9) as usize
    }

    /// Parts that fit in the window now; none once the file is read.
    pub fn parts_to_load(&self) -> (r: u16)
        requires
            self.wf(),
        ensures
            r == if self.file_read {
                0
            } else {
                self.static_properties.window_size - self.loaded_count()
            },
    {
        if self.file_read {
            return 0;
        }
        proof {
            lemma_offset_value(self.next_load, self.window_position);
        }
        let loaded = ((self.next_load as u32 + 0x1_0000 - self.window_position as u32) % 0x1_0000) as u16;
        self.static_properties.window_size - loaded
    }

    /// Stores blocks read from the file as the next parts, in order. An
    /// empty block marks the end of the file: it and what follows it are not
    /// stored, and the file counts as read. Returns the number of parts
    /// stored.
    pub fn load_window(&mut self, blocks: &Vec<Vec<u8>>) -> (loaded: usize)
        requires
            old(self).wf(),
            !old(self).file_read ==> blocks@.len() <= old(self).static_properties.window_size - old(self).loaded_count(),
            old(self).file_read ==> blocks@.len() == 0,
            forall|j: int| 0 <= j < blocks@.len() ==> #[trigger] blocks@[j]@.len() <= old(self).spec_load_size(),
        ensures
            final(self).wf(),
            final(self).static_properties == old(self).static_properties,
            final(self).window_position == old(self).window_position,
            loaded <= blocks@.len(),
            forall|j: int| 0 <= j < loaded ==> #[trigger] blocks@[j]@.len() > 0,
            loaded < blocks@.len() ==> blocks@[loaded as int]@.len() == 0 && final(self).file_read,
            loaded == blocks@.len() ==> final(self).file_read == old(self).file_read,
            final(self).loaded_count() == old(self).loaded_count() + loaded,
            forall|k: u16| old(self).loaded_parts@.contains_key(k) ==> final(self).loaded_parts@.contains_key(k)
                && #[trigger] final(self).loaded_parts@[k] == old(self).loaded_parts@[k],
            forall|j: int| 0 <= j < loaded ==> {
                let p = #[trigger] final(self).loaded_parts@[seq_add(old(self).next_load, j)];
                &&& p.content@ == blocks@[j]@
                &&& !p.send
            },
    {
        let ghost old_parts = self.loaded_parts@;
        let ghost nl0 = self.next_load;
        let ghost c0 = self.loaded_count();
        let n = blocks.len();
        let mut i: usize = 0;
        while i < n
            invariant
                self.wf(),
                old(self).wf(),
                i <= n,
                n == blocks@.len(),
                c0 == old(self).loaded_count(),
                nl0 == old(self).next_load,
                old_parts == old(self).loaded_parts@,
                self.static_properties == old(self).static_properties,
                self.window_position == old(self).window_position,
                self.file_read == old(self).file_read,
                !old(self).file_read ==> n <= old(self).static_properties.window_size - c0,
                old(self).file_read ==> n == 0,
                forall|j: int| 0 <= j < n ==> #[trigger] blocks@[j]@.len() <= old(self).spec_load_size(),
                self.loaded_count() == c0 + i,
                self.next_load == seq_add(nl0, i as int),
                forall|j: int| 0 <= j < i ==> #[trigger] blocks@[j]@.len() > 0,
                forall|k: u16| old_parts.contains_key(k) ==> self.loaded_parts@.contains_key(k)
                    && #[trigger] self.loaded_parts@[k] == old_parts[k],
                forall|j: int| 0 <= j < i ==> {
                    let p = #[trigger] self.loaded_parts@[seq_add(nl0, j)];
                    &&& p.content@ == blocks@[j]@
                    &&& !p.send
                },
            decreases n - i,
        {
            if blocks[i].len() == 0 {
                self.file_read = true;
                return i;
            }
            let ghost before = self.loaded_parts@;
            let key = self.next_load;
            let content = vstd::slice::slice_to_vec(blocks[i].as_slice());
            proof {
                lemma_offset_add(key, self.window_position);
                assert(!before.contains_key(key));
                lemma_offset_next(key, self.window_position);
            }
            self.loaded_parts.insert(key, Part { content, last_transition: 0, seq: key, send: false });
            self.next_load = ((key as u32 + 1) % 0x1_0000) as u16;
            proof {
                assert forall|k: u16| #[trigger]
                    self.loaded_parts@.contains_key(k) <==> among_first(k, self.window_position, self.loaded_count()) by {
                    lemma_among_next(k, self.window_position, c0 + i);
                    lemma_offset_add(key, self.window_position);
                }
                assert(seq_add(nl0, i as int + 1) == seq_add(key, 1));
                assert forall|k: u16| old_parts.contains_key(k) implies self.loaded_parts@.contains_key(k)
                    && #[trigger] self.loaded_parts@[k] == old_parts[k] by {
                    assert(among_first(k, self.window_position, c0));
                    assert(k != key);
                }
                assert forall|j: int| 0 <= j < i + 1 implies {
                    let p = #[trigger] self.loaded_parts@[seq_add(nl0, j)];
                    &&& p.content@ == blocks@[j]@
                    &&& !p.send
                } by {
                    if j < i {
                        lemma_seq_add_offset(nl0, j);
                        lemma_seq_add_offset(nl0, i as int);
                        assert(seq_add(nl0, j) != key);
                    }
                }
            }
            i = i + 1;
        }
        i
    }

    /// The Data datagrams of the parts due at `now`, in sequence order from
    /// the window position; each of them is marked sent at `now`.
    pub fn send_data(&mut self, now: u64, timeout: u32) -> (r: Vec<Vec<u8>>)
        requires
            old(self).wf(),
        ensures
            final(self).wf(),
            final(self).static_properties == old(self).static_properties,
            final(self).window_position == old(self).window_position,
            final(self).next_load == old(self).next_load,
            final(self).file_read == old(self).file_read,
            r@.map_values(|v: Vec<u8>| v@) == old(self).due_datagrams(now, timeout, old(self).loaded_count() as nat),
            final(self).loaded_parts@.dom() == old(self).loaded_parts@.dom(),
            forall|k: u16| #[trigger] old(self).loaded_parts@.contains_key(k) ==> {
                let p = old(self).loaded_parts@[k];
                let q = final(self).loaded_parts@[k];
                &&& q.content == p.content
                &&& q.seq == p.seq
                &&& if part_due(p, now, timeout) {
                    q.last_transition == now && q.send
                } else {
                    q.last_transition == p.last_transition && q.send == p.send
                }
            },
    {
        let ghost old_parts = self.loaded_parts@;
        let wp = self.window_position;
        proof {
            lemma_offset_value(self.next_load, wp);
        }
        let count = ((self.next_load as u32 + 0x1_0000 - wp as u32) % 0x1_0000) as u16;
        let mut out: Vec<Vec<u8>> = Vec::new();
        let mut i: u16 = 0;
        while i < count
            invariant
                old(self).wf(),
                i <= count,
                count == old(self).loaded_count(),
                wp == old(self).window_position,
                old_parts == old(self).loaded_parts@,
                self.static_properties == old(self).static_properties,
                self.window_position == wp,
                self.next_load == old(self).next_load,
                self.file_read == old(self).file_read,
                self.loaded_parts@.dom() == old_parts.dom(),
                out@.map_values(|v: Vec<u8>| v@) == old(self).due_datagrams(now, timeout, i as nat),
                forall|k: u16| #[trigger] old_parts.contains_key(k) ==> {
                    let p = old_parts[k];
                    let q = self.loaded_parts@[k];
                    &&& q.content == p.content
                    &&& q.seq == p.seq
                    &&& q.content@.len() == p.content@.len()
                    &&& if among_first(k, wp, i as int) && part_due(p, now, timeout) {
                        q.last_transition == now && q.send
                    } else {
                        q.last_transition == p.last_transition && q.send == p.send
                    }
                },
            decreases count - i,
        {
            let key = ((wp as u32 + i as u32) % 0x1_0000) as u16;
            proof {
                lemma_seq_add_offset(wp, i as int);
                assert(old_parts.contains_key(key));
            }
            let removed = self.loaded_parts.remove(&key);
            let mut part = match removed {
                Some(p) => p,
                None => {
                    assert(false);
                    return out;
                },
            };
            let due = !part.send || (now as u128) >= (part.last_transition as u128) + (timeout as u128);
            let ghost before = out@.map_values(|v: Vec<u8>| v@);
            if due {
                let content = vstd::slice::slice_to_vec(part.content.as_slice());
                let packet = Packet::Data(
                    DataPacket::new(content, self.static_properties.id, part.seq, wp),
                );
                let datagram = packet.to_bin(self.static_properties.checksum_size as usize);
                out.push(datagram);
                part.last_transition = now;
                part.send = true;
                proof {
                    assert(out@.map_values(|v: Vec<u8>| v@) =~= before.push(
                        part_datagram(self.static_properties, wp, old_parts[key]),
                    ));
                }
            } else {
                assert(out@.map_values(|v: Vec<u8>| v@) =~= before);
            }
            self.loaded_parts.insert(key, part);
            proof {
                assert(self.loaded_parts@.dom() =~= old_parts.dom());
                assert forall|k: u16| #[trigger] old_parts.contains_key(k) implies {
                    let p = old_parts[k];
                    let q = self.loaded_parts@[k];
                    &&& q.content == p.content
                    &&& q.seq == p.seq
                    &&& q.content@.len() == p.content@.len()
                    &&& if among_first(k, wp, i as int + 1) && part_due(p, now, timeout) {
                        q.last_transition == now && q.send
                    } else {
                        q.last_transition == p.last_transition && q.send == p.send
                    }
                } by {
                    lemma_among_next(k, wp, i as int);
                }
            }
            i = i + 1;
        }
        proof {
            assert(self.loaded_parts@.dom() =~= old_parts.dom());
        }
        out
    }

    /// The End datagram that closes this connection at the window position.
    pub fn end_request(&self) -> (r: Vec<u8>)
        ensures
            r@ == wire(
                &Packet::End(
                    EndPacket {
                        header: PacketHeader {
                            id: self.static_properties.id,
                            seq: self.window_position,
                            ack: self.window_position,
                            flag: Flag::End,
                        },
                    },
                ),
                self.static_properties.checksum_size as nat,
            ),
    {
        let packet = Packet::End(EndPacket::new(self.static_properties.id, self.window_position));
        packet.to_bin(self.static_properties.checksum_size as usize)
    }

    /// The Error datagram that aborts this connection.
    pub fn error_request(&self) -> (r: Vec<u8>)
        ensures
            r@ == wire(
                &Packet::Error(
                    ErrorPacket {
                        header: PacketHeader { id: self.static_properties.id, seq: 0, ack: 0, flag: Flag::Error },
                    },
                ),
                self.static_properties.checksum_size as nat,
            ),
    {
        let packet = Packet::Error(ErrorPacket::new(self.static_properties.id));
        packet.to_bin(self.static_properties.checksum_size as usize)
    }

    /// Handles a datagram received while the file is sent: an
    /// acknowledgement moves the window.
    pub fn handle_reply(&mut self, reply: &[u8]) -> (r: DataStep)
        requires
            old(self).wf(),
        ensures
            ({
                let b = reply@;
                let k = old(self).static_properties.checksum_size as nat;
                if decode_error(b, k) is Some || be32_at(b, 0) != old(self).static_properties.id {
                    r == DataStep::Ignored && *final(self) == *old(self)
                } else if flag_of_byte(b[8]) == Some(Flag::Data) {
                    &&& r matches DataStep::Acknowledged(moved)
                    &&& old(self).ack_result(*final(self), be16_at(b, 6), moved)
                } else {
                    &&& *final(self) == *old(self)
                    &&& r == if flag_of_byte(b[8]) == Some(Flag::End) {
                        DataStep::UnexpectedEnd
                    } else if flag_of_byte(b[8]) == Some(Flag::Error) {
                        DataStep::PeerError
                    } else {
                        DataStep::Ignored
                    }
                }
            }),
    {
        let packet = match Packet::from_bin(reply, self.static_properties.checksum_size as usize) {
            Ok(p) => p,
            Err(_) => {
                return DataStep::Ignored;
            },
        };
        if packet.header().id != self.static_properties.id {
            return DataStep::Ignored;
        }
        match packet {
            Packet::Init(_) => DataStep::Ignored,
            Packet::End(_) => DataStep::UnexpectedEnd,
            Packet::Error(_) => DataStep::PeerError,
            Packet::Data(d) => DataStep::Acknowledged(self.acknowledge(d.header.ack)),
        }
    }

    /// Handles a datagram received after the End was sent.
    pub fn handle_end_reply(&self, reply: &[u8]) -> (r: EndStep)
        requires
            self.wf(),
        ensures
            ({
                let b = reply@;
                let k = self.static_properties.checksum_size as nat;
                let flag = flag_of_byte(b[8]);
                if decode_error(b, k) is Some || be32_at(b, 0) != self.static_properties.id {
                    r == EndStep::Ignored
                } else if flag == Some(Flag::End) {
                    r == if be16_at(b, 4) == self.window_position && be16_at(b, 6) == self.window_position {
                        EndStep::Confirmed
                    } else {
                        EndStep::InvalidEnd
                    }
                } else if flag == Some(Flag::Error) {
                    r == EndStep::PeerError
                } else if flag == Some(Flag::Data) {
                    r == EndStep::UnexpectedData
                } else {
                    r == EndStep::Ignored
                }
            }),
    {
        let packet = match Packet::from_bin(reply, self.static_properties.checksum_size as usize) {
            Ok(p) => p,
            Err(_) => {
                return EndStep::Ignored;
            },
        };
        if packet.header().id != self.static_properties.id {
            return EndStep::Ignored;
        }
        match packet {
            Packet::End(e) => {
                if e.header.ack != self.window_position || e.header.seq != self.window_position {
                    EndStep::InvalidEnd
                } else {
                    EndStep::Confirmed
                }
            },
            Packet::Error(_) => EndStep::PeerError,
            Packet::Data(_) => EndStep::UnexpectedData,
            Packet::Init(_) => EndStep::Ignored,
        }
    }
}

} // verus!
