//! Packets and their wire format: a 9-byte header, a body, and an XOR-fold
//! checksum of the preceding bytes.

use crate::byte_order::{
    be16_at, be16_bytes, be32_at, be32_bytes, lemma_be16_bytes_of_value, lemma_be16_round_trip,
    lemma_be32_bytes_of_value, lemma_be32_round_trip, read_u16_at, read_u32_at, write_u16_at,
    write_u32_at,
};
use crate::checksum::{lemma_xor_fold_len, lemma_xor_fold_update, xor_fold, Checksum};
use vstd::prelude::*;

verus! {

/// Bytes in a packet header.
pub const HEADER_SIZE: usize = 9;

/// Position of the flag byte in a header.
pub const FLAG_POSITION: usize = 8;

/// Bytes of an Init packet before its padding: the header and three sizes.
pub const INIT_FIELDS_SIZE: usize = 15;

/// Why a datagram is not a packet.
#[derive(Debug, Clone, Copy, PartialEq, Eq, Structural)]
pub enum ParsingError {
    /// Too short: the size needed, the size there is.
    InvalidSize(usize, usize),
    ChecksumNotMatch,
    /// The flag byte is none of the recognised values.
    InvalidFlag(u8),
}

/// The kind of a packet, as its header's flag byte gives it.
#[derive(Debug, Clone, Copy, PartialEq, Eq, Structural)]
pub enum Flag {
    Unset,
    Init,
    Data,
    Error,
    End,
}

/// The wire byte of a flag.
pub open spec fn flag_byte(f: Flag) -> u8 {
    match f {
        Flag::Unset => 0x0,
        Flag::Init => 0x1,
        Flag::Data => 0x2,
        Flag::Error => 0x4,
        Flag::End => 0x8,
    }
}

/// The flag that a wire byte stands for, if any.
pub open spec fn flag_of_byte(b: u8) -> Option<Flag> {
    if b == 0x0 {
        Some(Flag::Unset)
    } else if b == 0x1 {
        Some(Flag::Init)
    } else if b == 0x2 {
        Some(Flag::Data)
    } else if b == 0x4 {
        Some(Flag::Error)
    } else if b == 0x8 {
        Some(Flag::End)
    } else {
        None
    }
}

impl Flag {
    /// The wire byte of this flag.
    pub fn value(&self) -> (r: u8)
        ensures
            r == flag_byte(*self),
            flag_of_byte(r) == Some(*self),
    {
        match self {
            Flag::Unset => 0x0,
            Flag::Init => 0x1,
            Flag::Data => 0x2,
            Flag::Error => 0x4,
            Flag::End => 0x8,
        }
    }
}

/// A value with a binary form.
pub trait ToBin: Sized {
    /// The bytes this value is written as.
    spec fn spec_bin(&self) -> Seq<u8>;

    /// Whether this value can be written: its fields agree and its size fits.
    spec fn spec_writable(&self) -> bool;

    /// The number of bytes this value is written as.
    fn bin_size(&self) -> (r: usize)
        requires
            self.spec_writable(),
        ensures
            r == self.spec_bin().len(),
    ;

    /// Writes this value at the start of `buff`, leaving the rest as it was;
    /// returns the number of bytes written.
    fn to_bin_buff(&self, buff: &mut Vec<u8>) -> (r: usize)
        requires
            self.spec_writable(),
            self.spec_bin().len() <= old(buff)@.len(),
        ensures
            r == self.spec_bin().len(),
            final(buff)@ == self.spec_bin() + old(buff)@.subrange(r as int, old(buff)@.len() as int),
    ;

    /// This value's binary form.
    fn to_bin(&self) -> (r: Vec<u8>)
        requires
            self.spec_writable(),
        ensures
            r@ == self.spec_bin(),
    {
        let size = self.bin_size();
        let mut vect: Vec<u8> = Vec::new();
        let mut i: usize = 0;
        while i < size
            invariant
                i <= size,
                vect@.len() == i,
            decreases size - i,
        {
            vect.push(0);
            i = i + 1;
        }
        self.to_bin_buff(&mut vect);
        assert(vect@ =~= self.spec_bin());
        vect
    }

    /// Reads a value from the start of `memory`.
    fn from_bin(memory: &[u8]) -> Result<Self, ParsingError>;
}

/// What a flag reads as from a buffer.
pub open spec fn parse_flag(b: Seq<u8>) -> Result<Flag, ParsingError> {
    if b.len() < 1 {
        Err(ParsingError::InvalidSize(1, b.len() as usize))
    } else {
        match flag_of_byte(b[0]) {
            Some(f) => Ok(f),
            None => Err(ParsingError::InvalidFlag(b[0])),
        }
    }
}

impl ToBin for Flag {
    open spec fn spec_bin(&self) -> Seq<u8> {
        seq![flag_byte(*self)]
    }

    open spec fn spec_writable(&self) -> bool {
        true
    }

    fn bin_size(&self) -> (r: usize) {
        1
    }

    fn to_bin_buff(&self, buff: &mut Vec<u8>) -> (r: usize) {
        buff.set(0, self.value());
        assert(buff@ =~= self.spec_bin() + old(buff)@.subrange(1, old(buff)@.len() as int));
        1
    }

    fn from_bin(val: &[u8]) -> (r: Result<Self, ParsingError>)
        ensures
            r == parse_flag(val@),
    {
        if val.len() < 1 {
            return Err(ParsingError::InvalidSize(1, val.len()));
        }
        let b = val[0];
        if b == 0x0 {
            Ok(Flag::Unset)
        } else if b == 0x1 {
            Ok(Flag::Init)
        } else if b == 0x2 {
            Ok(Flag::Data)
        } else if b == 0x4 {
            Ok(Flag::Error)
        } else if b == 0x8 {
            Ok(Flag::End)
        } else {
            Err(ParsingError::InvalidFlag(b))
        }
    }
}

/// The fixed header that starts every packet.
#[derive(Debug, Clone, Copy, PartialEq, Eq, Structural)]
pub struct PacketHeader {
    pub id: u32,
    pub seq: u16,
    pub ack: u16,
    pub flag: Flag,
}

/// The nine bytes of a header: id, seq and ack big endian, then the flag.
pub open spec fn header_bin(h: PacketHeader) -> Seq<u8> {
    be32_bytes(h.id) + be16_bytes(h.seq) + be16_bytes(h.ack) + seq![flag_byte(h.flag)]
}

/// What a header reads as from the start of a buffer.
pub open spec fn parse_header(b: Seq<u8>) -> Result<PacketHeader, ParsingError> {
    if b.len() < 9 {
        Err(ParsingError::InvalidSize(9, b.len() as usize))
    } else {
        match flag_of_byte(b[8]) {
            Some(f) => Ok(PacketHeader { id: be32_at(b, 0), seq: be16_at(b, 4), ack: be16_at(b, 6), flag: f }),
            None => Err(ParsingError::InvalidFlag(b[8])),
        }
    }
}

/// A header reads back as written.
pub proof fn lemma_header_round_trip(h: PacketHeader, rest: Seq<u8>)
    ensures
        header_bin(h).len() == 9,
        parse_header(header_bin(h) + rest) == Ok::<PacketHeader, ParsingError>(h),
{
    let b = header_bin(h) + rest;
    lemma_be32_round_trip(h.id);
    lemma_be16_round_trip(h.seq);
    lemma_be16_round_trip(h.ack);
    assert(b.subrange(0, 4) =~= be32_bytes(h.id));
    assert(b.subrange(4, 6) =~= be16_bytes(h.seq));
    assert(b.subrange(6, 8) =~= be16_bytes(h.ack));
    assert(be32_at(b, 0) == be32_at(be32_bytes(h.id), 0));
    assert(be16_at(b, 4) == be16_at(be16_bytes(h.seq), 0));
    assert(be16_at(b, 6) == be16_at(be16_bytes(h.ack), 0));
}

/// A buffer that reads as a header starts with that header's bytes.
pub proof fn lemma_header_bytes(b: Seq<u8>)
    requires
        parse_header(b) is Ok,
    ensures
        header_bin(parse_header(b)->Ok_0) == b.subrange(0, 9),
{
    lemma_be32_bytes_of_value(b, 0);
    lemma_be16_bytes_of_value(b, 4);
    lemma_be16_bytes_of_value(b, 6);
    assert(header_bin(parse_header(b)->Ok_0) =~= b.subrange(0, 9));
}

impl ToBin for PacketHeader {
    open spec fn spec_bin(&self) -> Seq<u8> {
        header_bin(*self)
    }

    open spec fn spec_writable(&self) -> bool {
        true
    }

    fn bin_size(&self) -> (r: usize) {
        HEADER_SIZE
    }

    fn to_bin_buff(&self, buff: &mut Vec<u8>) -> (r: usize) {
        write_u32_at(buff, 0, self.id);
        write_u16_at(buff, 4, self.seq);
        write_u16_at(buff, 6, self.ack);
        buff.set(FLAG_POSITION, self.flag.value());
        assert(buff@ =~= header_bin(*self) + old(buff)@.subrange(9, old(buff)@.len() as int));
        HEADER_SIZE
    }

    fn from_bin(memory: &[u8]) -> (r: Result<Self, ParsingError>)
        ensures
            r == parse_header(memory@),
    {
        if memory.len() < HEADER_SIZE {
            return Err(ParsingError::InvalidSize(HEADER_SIZE, memory.len()));
        }
        let id = read_u32_at(memory, 0);
        let seq = read_u16_at(memory, 4);
        let ack = read_u16_at(memory, 6);
        let flag = match Flag::from_bin(&memory[8..9]) {
            Ok(f) => f,
            Err(e) => {
                return Err(e);
            },
        };
        Ok(PacketHeader { id, seq, ack, flag })
    }
}

impl PacketHeader {
    /// Bytes in a header.
    pub fn bin_size() -> (r: usize)
        ensures
            r == 9,
    {
        HEADER_SIZE
    }

    /// Position of the flag byte in a header.
    pub fn flag_position() -> (r: usize)
        ensures
            r == 8,
    {
        FLAG_POSITION
    }
}

/// Whether an Init's sizes leave room for its fields and at least one
/// padding byte before the checksum.
pub open spec fn init_sizes_valid(packet_size: u16, checksum_size: u16) -> bool {
    packet_size as int > INIT_FIELDS_SIZE as int + checksum_size as int
}

/// A proposal or an answer of transport parameters.
#[derive(Debug, Clone, Copy, PartialEq, Eq, Structural)]
pub struct InitPacket {
    pub header: PacketHeader,
    pub window_size: u16,
    pub packet_size: u16,
    pub checksum_size: u16,
}

/// An Init on the wire: header, the three sizes, then zeros up to
/// `packet_size - checksum_size` bytes.
pub open spec fn init_bin(p: InitPacket) -> Seq<u8> {
    header_bin(p.header) + be16_bytes(p.window_size) + be16_bytes(p.packet_size) + be16_bytes(
        p.checksum_size,
    ) + Seq::new((p.packet_size - p.checksum_size - 15) as nat, |i: int| 0u8)
}

/// The Init fields read from the start of `b`, with no check of the sizes.
pub open spec fn parse_init_fields(b: Seq<u8>) -> Result<InitPacket, ParsingError> {
    match parse_header(b) {
        Err(e) => Err(e),
        Ok(h) => if b.len() < 15 {
            Err(ParsingError::InvalidSize(15, b.len() as usize))
        } else {
            Ok(
                InitPacket {
                    header: h,
                    window_size: be16_at(b, 9),
                    packet_size: be16_at(b, 11),
                    checksum_size: be16_at(b, 13),
                },
            )
        },
    }
}

/// What an Init reads as from a packet body (the bytes before the checksum).
pub open spec fn parse_init(b: Seq<u8>) -> Result<InitPacket, ParsingError> {
    match parse_init_fields(b) {
        Err(e) => Err(e),
        Ok(p) => if !init_sizes_valid(p.packet_size, p.checksum_size) {
            Err(ParsingError::InvalidSize((p.checksum_size + 16) as usize, p.packet_size as usize))
        } else if b.len() < p.packet_size - p.checksum_size {
            Err(ParsingError::InvalidSize((p.packet_size - p.checksum_size) as usize, b.len() as usize))
        } else {
            Ok(p)
        },
    }
}

impl ToBin for InitPacket {
    open spec fn spec_bin(&self) -> Seq<u8> {
        init_bin(*self)
    }

    open spec fn spec_writable(&self) -> bool {
        init_sizes_valid(self.packet_size, self.checksum_size)
    }

    fn bin_size(&self) -> (r: usize) {
        (self.packet_size - self.checksum_size) as usize
    }

    fn to_bin_buff(&self, buff: &mut Vec<u8>) -> (r: usize) {
        let ghost start = buff@;
        self.header.to_bin_buff(buff);
        write_u16_at(buff, 9, self.window_size);
        write_u16_at(buff, 11, self.packet_size);
        write_u16_at(buff, 13, self.checksum_size);
        let end = (self.packet_size - self.checksum_size) as usize;
        let mut i: usize = INIT_FIELDS_SIZE;
        while i < end
            invariant
                15 <= i <= end,
                end == init_bin(*self).len(),
                end <= start.len(),
                buff@.len() == start.len(),
                forall|j: int| 0 <= j < i ==> #[trigger] buff@[j] == init_bin(*self)[j],
                forall|j: int| end <= j < start.len() ==> #[trigger] buff@[j] == start[j],
            decreases end - i,
        {
            buff.set(i, 0);
            i = i + 1;
        }
        assert(buff@ =~= init_bin(*self) + start.subrange(end as int, start.len() as int));
        end
    }

    fn from_bin(memory: &[u8]) -> (r: Result<Self, ParsingError>)
        ensures
            r == parse_init(memory@),
    {
        let p = match InitPacket::parse_init_unchecked(memory) {
            Ok(p) => p,
            Err(e) => {
                return Err(e);
            },
        };
        if p.packet_size as usize <= INIT_FIELDS_SIZE + p.checksum_size as usize {
            return Err(ParsingError::InvalidSize(p.checksum_size as usize + 16, p.packet_size as usize));
        }
        let expected_memory = (p.packet_size - p.checksum_size) as usize;
        if memory.len() < expected_memory {
            return Err(ParsingError::InvalidSize(expected_memory, memory.len()));
        }
        Ok(p)
    }
}

impl InitPacket {
    /// A proposal with a zero connection id.
    pub fn new(window_size: u16, packet_size: u16, checksum_size: u16) -> (r: Self)
        ensures
            r.header == (PacketHeader { id: 0, seq: 0, ack: 0, flag: Flag::Init }),
            r.window_size == window_size,
            r.packet_size == packet_size,
            r.checksum_size == checksum_size,
    {
        InitPacket {
            header: PacketHeader { id: 0, seq: 0, ack: 0, flag: Flag::Init },
            window_size,
            packet_size,
            checksum_size,
        }
    }

    /// The Init fields of `memory`, read without checking its length
    /// against them or any checksum: what a peer proposes, before the
    /// checksum width to validate it with is known.
    pub fn parse_init_unchecked(memory: &[u8]) -> (r: Result<Self, ParsingError>)
        ensures
            r == parse_init_fields(memory@),
    {
        let header = match PacketHeader::from_bin(memory) {
            Ok(h) => h,
            Err(e) => {
                return Err(e);
            },
        };
        if memory.len() < INIT_FIELDS_SIZE {
            return Err(ParsingError::InvalidSize(INIT_FIELDS_SIZE, memory.len()));
        }
        let window_size = read_u16_at(memory, 9);
        let packet_size = read_u16_at(memory, 11);
        let checksum_size = read_u16_at(memory, 13);
        Ok(InitPacket { header, window_size, packet_size, checksum_size })
    }
}

/// A block of file content, or an acknowledgement when empty.
#[derive(Debug)]
pub struct DataPacket {
    pub header: PacketHeader,
    pub data: Vec<u8>,
}

impl ToBin for DataPacket {
    open spec fn spec_bin(&self) -> Seq<u8> {
        header_bin(self.header) + self.data@
    }

    open spec fn spec_writable(&self) -> bool {
        self.data@.len() + HEADER_SIZE <= usize::MAX
    }

    fn bin_size(&self) -> (r: usize) {
        HEADER_SIZE + self.data.len()
    }

    fn to_bin_buff(&self, buff: &mut Vec<u8>) -> (r: usize) {
        let ghost start = buff@;
        self.header.to_bin_buff(buff);
        let n = self.data.len();
        let mut i: usize = 0;
        while i < n
            invariant
                n == self.data@.len(),
                i <= n,
                HEADER_SIZE + n <= start.len(),
                HEADER_SIZE + n <= usize::MAX,
                buff@.len() == start.len(),
                forall|j: int| 0 <= j < 9 ==> #[trigger] buff@[j] == header_bin(self.header)[j],
                forall|j: int| 0 <= j < i ==> #[trigger] buff@[9 + j] == self.data@[j],
                forall|j: int| 9 + n <= j < start.len() ==> #[trigger] buff@[j] == start[j],
            decreases n - i,
        {
            buff.set(HEADER_SIZE + i, self.data[i]);
            i = i + 1;
        }
        let end = HEADER_SIZE + n;
        assert forall|j: int| 0 <= j < end implies #[trigger] buff@[j] == self.spec_bin()[j] by {
            if j >= 9 {
                assert(buff@[9 + (j - 9)] == self.data@[j - 9]);
            }
        }
        assert(buff@ =~= self.spec_bin() + start.subrange(end as int, start.len() as int));
        end
    }

    fn from_bin(memory: &[u8]) -> (r: Result<Self, ParsingError>)
        ensures
            match r {
                Ok(p) => parse_header(memory@) == Ok::<PacketHeader, ParsingError>(p.header)
                    && p.data@ == memory@.subrange(9, memory@.len() as int),
                Err(e) => parse_header(memory@) == Err::<PacketHeader, ParsingError>(e),
            },
    {
        let header = match PacketHeader::from_bin(memory) {
            Ok(h) => h,
            Err(e) => {
                return Err(e);
            },
        };
        let data = vstd::slice::slice_to_vec(&memory[HEADER_SIZE..memory.len()]);
        Ok(DataPacket { header, data })
    }
}

impl DataPacket {
    /// A Data packet of connection `connection_id`.
    pub fn new(data: Vec<u8>, connection_id: u32, seq: u16, ack: u16) -> (r: Self)
        ensures
            r.header == (PacketHeader { id: connection_id, seq, ack, flag: Flag::Data }),
            r.data@ == data@,
    {
        DataPacket { header: PacketHeader { id: connection_id, seq, ack, flag: Flag::Data }, data }
    }
}

/// Aborts a connection.
#[derive(Debug, Clone, Copy, PartialEq, Eq, Structural)]
pub struct ErrorPacket {
    pub header: PacketHeader,
}

impl ToBin for ErrorPacket {
    open spec fn spec_bin(&self) -> Seq<u8> {
        header_bin(self.header)
    }

    open spec fn spec_writable(&self) -> bool {
        true
    }

    fn bin_size(&self) -> (r: usize) {
        HEADER_SIZE
    }

    fn to_bin_buff(&self, buff: &mut Vec<u8>) -> (r: usize) {
        self.header.to_bin_buff(buff)
    }

    fn from_bin(memory: &[u8]) -> (r: Result<Self, ParsingError>)
        ensures
            match r {
                Ok(p) => parse_header(memory@) == Ok::<PacketHeader, ParsingError>(p.header),
                Err(e) => parse_header(memory@) == Err::<PacketHeader, ParsingError>(e),
            },
    {
        match PacketHeader::from_bin(memory) {
            Ok(header) => Ok(ErrorPacket { header }),
            Err(e) => Err(e),
        }
    }
}

impl ErrorPacket {
    /// An Error packet for connection `connection_id`.
    pub fn new(connection_id: u32) -> (r: Self)
        ensures
            r.header == (PacketHeader { id: connection_id, seq: 0, ack: 0, flag: Flag::Error }),
    {
        ErrorPacket { header: PacketHeader { id: connection_id, seq: 0, ack: 0, flag: Flag::Error } }
    }
}

/// Closes a connection once every block has been written.
#[derive(Debug, Clone, Copy, PartialEq, Eq, Structural)]
pub struct EndPacket {
    pub header: PacketHeader,
}

impl ToBin for EndPacket {
    open spec fn spec_bin(&self) -> Seq<u8> {
        header_bin(self.header)
    }

    open spec fn spec_writable(&self) -> bool {
        true
    }

    fn bin_size(&self) -> (r: usize) {
        HEADER_SIZE
    }

    fn to_bin_buff(&self, buff: &mut Vec<u8>) -> (r: usize) {
        self.header.to_bin_buff(buff)
    }

    fn from_bin(memory: &[u8]) -> (r: Result<Self, ParsingError>)
        ensures
            match r {
                Ok(p) => parse_header(memory@) == Ok::<PacketHeader, ParsingError>(p.header),
                Err(e) => parse_header(memory@) == Err::<PacketHeader, ParsingError>(e),
            },
    {
        match PacketHeader::from_bin(memory) {
            Ok(header) => Ok(EndPacket { header }),
            Err(e) => Err(e),
        }
    }
}

impl EndPacket {
    /// An End packet for connection `connection_id` whose seq and ack are
    /// both `seq_num`.
    pub fn new(connection_id: u32, seq_num: u16) -> (r: Self)
        ensures
            r.header == (PacketHeader { id: connection_id, seq: seq_num, ack: seq_num, flag: Flag::End }),
    {
        EndPacket { header: PacketHeader { id: connection_id, seq: seq_num, ack: seq_num, flag: Flag::End } }
    }
}

/// A packet of any of the four kinds.
#[derive(Debug)]
pub enum Packet {
    Init(InitPacket),
    Data(DataPacket),
    Error(ErrorPacket),
    End(EndPacket),
}

/// The header of a packet.
pub open spec fn header_of(p: &Packet) -> PacketHeader {
    match p {
        Packet::Init(x) => x.header,
        Packet::Data(x) => x.header,
        Packet::Error(x) => x.header,
        Packet::End(x) => x.header,
    }
}

/// The bytes of a packet before its checksum.
pub open spec fn packet_body(p: &Packet) -> Seq<u8> {
    match p {
        Packet::Init(x) => init_bin(*x),
        Packet::Data(x) => header_bin(x.header) + x.data@,
        Packet::Error(x) => header_bin(x.header),
        Packet::End(x) => header_bin(x.header),
    }
}

/// Whether a packet can be written: an Init's sizes are valid, a Data's
/// length fits.
pub open spec fn packet_writable(p: &Packet) -> bool {
    match p {
        Packet::Init(x) => init_sizes_valid(x.packet_size, x.checksum_size),
        Packet::Data(x) => x.data@.len() + HEADER_SIZE <= usize::MAX,
        _ => true,
    }
}

/// Whether the header's flag names the packet's own kind.
pub open spec fn flag_agrees(p: &Packet) -> bool {
    match p {
        Packet::Init(x) => x.header.flag == Flag::Init,
        Packet::Data(x) => x.header.flag == Flag::Data,
        Packet::Error(x) => x.header.flag == Flag::Error,
        Packet::End(x) => x.header.flag == Flag::End,
    }
}

/// Two packets of the same kind with the same fields and payload.
pub open spec fn same_packet(p: &Packet, q: &Packet) -> bool {
    match (p, q) {
        (Packet::Init(a), Packet::Init(b)) => a == b,
        (Packet::Data(a), Packet::Data(b)) => a.header == b.header && a.data@ == b.data@,
        (Packet::Error(a), Packet::Error(b)) => a == b,
        (Packet::End(a), Packet::End(b)) => a == b,
        _ => false,
    }
}

/// A packet on the wire with a checksum of width `k`.
pub open spec fn wire(p: &Packet, k: nat) -> Seq<u8> {
    packet_body(p) + xor_fold(packet_body(p), k)
}

/// Why a packet body (the bytes before the checksum) is no packet, if it is not.
pub open spec fn body_error(b: Seq<u8>) -> Option<ParsingError> {
    if b.len() < 9 {
        Some(ParsingError::InvalidSize(9, b.len() as usize))
    } else {
        match flag_of_byte(b[8]) {
            None => Some(ParsingError::InvalidFlag(b[8])),
            Some(Flag::Unset) => Some(ParsingError::InvalidFlag(b[8])),
            Some(Flag::Init) => match parse_init(b) {
                Err(e) => Some(e),
                Ok(_) => None,
            },
            Some(_) => None,
        }
    }
}

/// Whether `p` is what the packet body `b` holds.
pub open spec fn body_holds(b: Seq<u8>, p: &Packet) -> bool {
    match p {
        Packet::Init(x) => parse_init(b) == Ok::<InitPacket, ParsingError>(*x) && x.header.flag
            == Flag::Init,
        Packet::Data(x) => parse_header(b) == Ok::<PacketHeader, ParsingError>(x.header)
            && x.header.flag == Flag::Data && x.data@ == b.subrange(9, b.len() as int),
        Packet::Error(x) => parse_header(b) == Ok::<PacketHeader, ParsingError>(x.header)
            && x.header.flag == Flag::Error,
        Packet::End(x) => parse_header(b) == Ok::<PacketHeader, ParsingError>(x.header)
            && x.header.flag == Flag::End,
    }
}

/// Why the datagram `b` is no packet under checksum width `k`, if it is
/// not: too short for a header and the checksum; a bad flag or size in
/// the body; then a checksum that is not the fold of the body.
pub open spec fn decode_error(b: Seq<u8>, k: nat) -> Option<ParsingError> {
    if b.len() < k + 9 {
        Some(ParsingError::InvalidSize((k + 9) as usize, b.len() as usize))
    } else {
        let body = b.subrange(0, b.len() - k);
        match body_error(body) {
            Some(ParsingError::InvalidSize(e, _)) => Some(
                ParsingError::InvalidSize((e + k) as usize, b.len() as usize),
            ),
            Some(e) => Some(e),
            None => if b.subrange(b.len() - k, b.len() as int) == xor_fold(body, k) {
                None
            } else {
                Some(ParsingError::ChecksumNotMatch)
            },
        }
    }
}

/// Whether the datagram `b` decodes, under checksum width `k`, to `p`.
pub open spec fn decodes_to(b: Seq<u8>, k: nat, p: &Packet) -> bool {
    &&& decode_error(b, k) is None
    &&& body_holds(b.subrange(0, b.len() - k), p)
}

/// Whether a datagram carries nothing that its packet does not write back:
/// an Init padded with zeros to exactly its size, an Error or End without
/// a body.
pub open spec fn canonical(b: Seq<u8>, k: nat) -> bool {
    let body = b.subrange(0, b.len() - k);
    match flag_of_byte(body[8]) {
        Some(Flag::Init) => body.len() == be16_at(body, 11) - be16_at(body, 13) && forall|i: int|
            15 <= i < body.len() ==> #[trigger] body[i] == 0u8,
        Some(Flag::Error) => body.len() == 9,
        Some(Flag::End) => body.len() == 9,
        _ => true,
    }
}

impl Packet {
    /// Bytes of this packet before its checksum.
    fn body_size(&self) -> (r: usize)
        requires
            packet_writable(self),
        ensures
            r == packet_body(self).len(),
    {
        match self {
            Packet::Init(x) => x.bin_size(),
            Packet::Data(x) => x.bin_size(),
            Packet::Error(x) => x.bin_size(),
            Packet::End(x) => x.bin_size(),
        }
    }

    /// Writes this packet's body at the start of `buff`.
    fn write_body(&self, buff: &mut Vec<u8>) -> (r: usize)
        requires
            packet_writable(self),
            packet_body(self).len() <= old(buff)@.len(),
        ensures
            r == packet_body(self).len(),
            final(buff)@ == packet_body(self) + old(buff)@.subrange(r as int, old(buff)@.len() as int),
    {
        match self {
            Packet::Init(x) => x.to_bin_buff(buff),
            Packet::Data(x) => x.to_bin_buff(buff),
            Packet::Error(x) => x.to_bin_buff(buff),
            Packet::End(x) => x.to_bin_buff(buff),
        }
    }

    /// Reads a packet from a body: the bytes before the checksum.
    fn parse_body(memory: &[u8]) -> (r: Result<Self, ParsingError>)
        ensures
            match r {
                Ok(p) => body_error(memory@) is None && body_holds(memory@, &p),
                Err(e) => body_error(memory@) == Some(e),
            },
    {
        if memory.len() < HEADER_SIZE {
            return Err(ParsingError::InvalidSize(HEADER_SIZE, memory.len()));
        }
        let flag = match Flag::from_bin(&memory[FLAG_POSITION..HEADER_SIZE]) {
            Ok(f) => f,
            Err(e) => {
                return Err(e);
            },
        };
        match flag {
            Flag::Init => match InitPacket::from_bin(memory) {
                Ok(x) => Ok(Packet::Init(x)),
                Err(e) => Err(e),
            },
            Flag::Error => match ErrorPacket::from_bin(memory) {
                Ok(x) => Ok(Packet::Error(x)),
                Err(e) => Err(e),
            },
            Flag::End => match EndPacket::from_bin(memory) {
                Ok(x) => Ok(Packet::End(x)),
                Err(e) => Err(e),
            },
            Flag::Data => match DataPacket::from_bin(memory) {
                Ok(x) => Ok(Packet::Data(x)),
                Err(e) => Err(e),
            },
            Flag::Unset => Err(ParsingError::InvalidFlag(memory[FLAG_POSITION])),
        }
    }
}

impl Packet {
    /// This packet's header.
    pub fn header(&self) -> (r: PacketHeader)
        ensures
            r == header_of(self),
    {
        match self {
            Packet::Init(x) => x.header,
            Packet::Data(x) => x.header,
            Packet::Error(x) => x.header,
            Packet::End(x) => x.header,
        }
    }

    /// Bytes of this packet before its checksum.
    pub fn bin_size(&self) -> (r: usize)
        requires
            packet_writable(self),
        ensures
            r == packet_body(self).len(),
    {
        self.body_size()
    }

    /// This packet on the wire, with a checksum of width `checksum`.
    pub fn to_bin(&self, checksum: usize) -> (r: Vec<u8>)
        requires
            packet_writable(self),
            packet_body(self).len() + checksum <= usize::MAX,
        ensures
            r@ == wire(self, checksum as nat),
    {
        let size = self.body_size() + checksum;
        let mut memory: Vec<u8> = Vec::new();
        let mut i: usize = 0;
        while i < size
            invariant
                i <= size,
                memory@.len() == i,
            decreases size - i,
        {
            memory.push(0);
            i = i + 1;
        }
        self.to_bin_buff(&mut memory, checksum);
        assert(memory@ =~= wire(self, checksum as nat));
        memory
    }

    /// Writes this packet, with a checksum of width `checksum_size`, at the
    /// start of `memory`, leaving the rest as it was; returns the number of
    /// bytes written.
    pub fn to_bin_buff(&self, memory: &mut Vec<u8>, checksum_size: usize) -> (r: usize)
        requires
            packet_writable(self),
            packet_body(self).len() + checksum_size <= old(memory)@.len(),
        ensures
            r == packet_body(self).len() + checksum_size,
            final(memory)@ == wire(self, checksum_size as nat) + old(memory)@.subrange(
                r as int,
                old(memory)@.len() as int,
            ),
    {
        let ghost start = memory@;
        let data_end = self.body_size();
        self.write_body(memory);
        let computed = Checksum::from_packet_content(
            &memory.as_slice()[0..data_end],
            checksum_size,
        );
        proof {
            assert(memory@.subrange(0, data_end as int) =~= packet_body(self));
        }
        let total = memory.len();
        let mut i: usize = 0;
        while i < checksum_size
            invariant
                i <= checksum_size,
                computed.checksum@.len() == checksum_size,
                computed.checksum@ == xor_fold(packet_body(self), checksum_size as nat),
                data_end == packet_body(self).len(),
                data_end + checksum_size <= start.len(),
                total == start.len(),
                memory@.len() == start.len(),
                forall|j: int| 0 <= j < data_end ==> #[trigger] memory@[j] == packet_body(self)[j],
                forall|j: int| 0 <= j < i ==> #[trigger] memory@[data_end + j] == computed.checksum@[j],
                forall|j: int| data_end + checksum_size <= j < start.len() ==> #[trigger] memory@[j] == start[j],
            decreases checksum_size - i,
        {
            memory.set(data_end + i, computed.checksum[i]);
            i = i + 1;
        }
        let end = data_end + checksum_size;
        let ghost w = wire(self, checksum_size as nat);
        assert forall|j: int| 0 <= j < end implies #[trigger] memory@[j] == w[j] by {
            if j >= data_end {
                assert(memory@[data_end + (j - data_end)] == computed.checksum@[j - data_end]);
            }
        }
        assert(memory@ =~= w + start.subrange(end as int, start.len() as int));
        end
    }

    /// Decodes the datagram `memory` whose last `checksum` bytes are the
    /// checksum.
    pub fn from_bin(memory: &[u8], checksum: usize) -> (r: Result<Self, ParsingError>)
        requires
            checksum <= u16::MAX,
        ensures
            match r {
                Ok(p) => decodes_to(memory@, checksum as nat, &p),
                Err(e) => decode_error(memory@, checksum as nat) == Some(e),
            },
            r is Ok ==> memory@.subrange(memory@.len() - checksum, memory@.len() as int)
                == xor_fold(memory@.subrange(0, memory@.len() - checksum), checksum as nat),
    {
        let n = memory.len();
        if checksum + HEADER_SIZE > n {
            return Err(ParsingError::InvalidSize(checksum + HEADER_SIZE, n));
        }
        let checksum_start = n - checksum;
        let body = &memory[0..checksum_start];
        let package = match Packet::parse_body(body) {
            Ok(packet) => packet,
            Err(ParsingError::InvalidSize(expected, _)) => {
                assert(expected <= 65551);
                return Err(ParsingError::InvalidSize(expected + checksum, n));
            },
            Err(e) => {
                return Err(e);
            },
        };
        let stored_checksum = Checksum::from_bytes(&memory[checksum_start..n]);
        let computed_checksum = Checksum::from_packet_content(body, checksum);
        if !stored_checksum.is_same(&computed_checksum) {
            return Err(ParsingError::ChecksumNotMatch);
        }
        Ok(package)
    }
}

/// An Init reads back as written.
proof fn lemma_init_round_trip(x: InitPacket)
    requires
        init_sizes_valid(x.packet_size, x.checksum_size),
        x.header.flag == Flag::Init,
    ensures
        init_bin(x).len() == x.packet_size - x.checksum_size,
        body_error(init_bin(x)) is None,
        parse_init(init_bin(x)) == Ok::<InitPacket, ParsingError>(x),
{
    let b = init_bin(x);
    let rest = b.subrange(9, b.len() as int);
    assert(b =~= header_bin(x.header) + rest);
    lemma_header_round_trip(x.header, rest);
    lemma_be16_round_trip(x.window_size);
    lemma_be16_round_trip(x.packet_size);
    lemma_be16_round_trip(x.checksum_size);
    assert(b.subrange(9, 11) =~= be16_bytes(x.window_size));
    assert(b.subrange(11, 13) =~= be16_bytes(x.packet_size));
    assert(b.subrange(13, 15) =~= be16_bytes(x.checksum_size));
    assert(be16_at(b, 9) == be16_at(be16_bytes(x.window_size), 0));
    assert(be16_at(b, 11) == be16_at(be16_bytes(x.packet_size), 0));
    assert(be16_at(b, 13) == be16_at(be16_bytes(x.checksum_size), 0));
}

/// Encoding a packet and decoding the bytes gives the packet back: the
/// bytes decode, and whatever they decode to is the same packet.
#[verifier::rlimit(40)]
pub proof fn lemma_round_trip(p: &Packet, k: nat, q: &Packet)
    requires
        packet_writable(p),
        flag_agrees(p),
    ensures
        decode_error(wire(p, k), k) is None,
        decodes_to(wire(p, k), k, q) ==> same_packet(p, q),
{
    let body = packet_body(p);
    let w = wire(p, k);
    lemma_xor_fold_len(body, k);
    assert(w.subrange(0, w.len() - k) =~= body);
    assert(w.subrange(w.len() - k, w.len() as int) =~= xor_fold(body, k));
    match p {
        Packet::Init(x) => {
            lemma_init_round_trip(*x);
            let rest = body.subrange(9, body.len() as int);
            assert(body =~= header_bin(x.header) + rest);
            lemma_header_round_trip(x.header, rest);
        },
        Packet::Data(x) => {
            lemma_header_round_trip(x.header, x.data@);
            assert(body.subrange(9, body.len() as int) =~= x.data@);
        },
        Packet::Error(x) => {
            lemma_header_round_trip(x.header, Seq::empty());
            assert(header_bin(x.header) + Seq::empty() =~= header_bin(x.header));
        },
        Packet::End(x) => {
            lemma_header_round_trip(x.header, Seq::empty());
            assert(header_bin(x.header) + Seq::empty() =~= header_bin(x.header));
        },
    }
}

/// A datagram that decodes, and carries nothing beyond what its packet
/// writes, is that packet encoded again with the same checksum width.
pub proof fn lemma_encode_of_decoded(b: Seq<u8>, k: nat, p: &Packet)
    requires
        decodes_to(b, k, p),
        canonical(b, k),
    ensures
        wire(p, k) == b,
{
    let body = b.subrange(0, b.len() - k);
    lemma_header_bytes(body);
    assert(body.subrange(0, 9) + body.subrange(9, body.len() as int) =~= body);
    match p {
        Packet::Init(x) => {
            lemma_be16_bytes_of_value(body, 9);
            lemma_be16_bytes_of_value(body, 11);
            lemma_be16_bytes_of_value(body, 13);
            let ib = init_bin(*x);
            assert(ib.len() == body.len());
            assert forall|i: int| 0 <= i < body.len() implies #[trigger] ib[i] == body[i] by {
                if i < 9 {
                    assert(body.subrange(0, 9)[i] == body[i]);
                } else if i < 11 {
                    assert(body.subrange(9, 11)[i - 9] == body[i]);
                } else if i < 13 {
                    assert(body.subrange(11, 13)[i - 11] == body[i]);
                } else if i < 15 {
                    assert(body.subrange(13, 15)[i - 13] == body[i]);
                }
            }
            assert(ib =~= body);
        },
        Packet::Data(x) => {
            assert(packet_body(p) =~= body);
        },
        Packet::Error(x) => {
            assert(packet_body(p) =~= body);
        },
        Packet::End(x) => {
            assert(packet_body(p) =~= body);
        },
    }
    assert(packet_body(p) == body);
    assert(wire(p, k) =~= b);
}

impl From<InitPacket> for Packet {
    fn from(packet: InitPacket) -> (r: Self) {
        Packet::Init(packet)
    }
}

impl vstd::std_specs::convert::FromSpecImpl<InitPacket> for Packet {
    open spec fn obeys_from_spec() -> bool {
        true
    }

    open spec fn from_spec(v: InitPacket) -> Self {
        Packet::Init(v)
    }
}

impl From<DataPacket> for Packet {
    fn from(packet: DataPacket) -> (r: Self) {
        Packet::Data(packet)
    }
}

impl vstd::std_specs::convert::FromSpecImpl<DataPacket> for Packet {
    open spec fn obeys_from_spec() -> bool {
        true
    }

    open spec fn from_spec(v: DataPacket) -> Self {
        Packet::Data(v)
    }
}

impl From<ErrorPacket> for Packet {
    fn from(packet: ErrorPacket) -> (r: Self) {
        Packet::Error(packet)
    }
}

impl vstd::std_specs::convert::FromSpecImpl<ErrorPacket> for Packet {
    open spec fn obeys_from_spec() -> bool {
        true
    }

    open spec fn from_spec(v: ErrorPacket) -> Self {
        Packet::Error(v)
    }
}

impl From<EndPacket> for Packet {
    fn from(packet: EndPacket) -> (r: Self) {
        Packet::End(packet)
    }
}

impl vstd::std_specs::convert::FromSpecImpl<EndPacket> for Packet {
    open spec fn obeys_from_spec() -> bool {
        true
    }

    open spec fn from_spec(v: EndPacket) -> Self {
        Packet::End(v)
    }
}

impl From<(u16, u16, u16)> for InitPacket {
    fn from(sizes: (u16, u16, u16)) -> (r: Self) {
        InitPacket::new(sizes.0, sizes.1, sizes.2)
    }
}

impl vstd::std_specs::convert::FromSpecImpl<(u16, u16, u16)> for InitPacket {
    open spec fn obeys_from_spec() -> bool {
        true
    }

    open spec fn from_spec(v: (u16, u16, u16)) -> Self {
        InitPacket {
            header: PacketHeader { id: 0, seq: 0, ack: 0, flag: Flag::Init },
            window_size: v.0,
            packet_size: v.1,
            checksum_size: v.2,
        }
    }
}

impl From<(Vec<u8>, u32, u16, u16)> for DataPacket {
    fn from(fields: (Vec<u8>, u32, u16, u16)) -> (r: Self)
        ensures
            r.header == (PacketHeader { id: fields.1, seq: fields.2, ack: fields.3, flag: Flag::Data }),
            r.data@ == fields.0@,
    {
        DataPacket::new(fields.0, fields.1, fields.2, fields.3)
    }
}

impl vstd::std_specs::convert::FromSpecImpl<(Vec<u8>, u32, u16, u16)> for DataPacket {
    open spec fn obeys_from_spec() -> bool {
        false
    }

    open spec fn from_spec(v: (Vec<u8>, u32, u16, u16)) -> Self {
        DataPacket { header: PacketHeader { id: v.1, seq: v.2, ack: v.3, flag: Flag::Data }, data: v.0 }
    }
}

impl From<u32> for ErrorPacket {
    fn from(connection_id: u32) -> (r: Self) {
        ErrorPacket::new(connection_id)
    }
}

impl vstd::std_specs::convert::FromSpecImpl<u32> for ErrorPacket {
    open spec fn obeys_from_spec() -> bool {
        true
    }

    open spec fn from_spec(v: u32) -> Self {
        ErrorPacket { header: PacketHeader { id: v, seq: 0, ack: 0, flag: Flag::Error } }
    }
}

impl From<(u32, u16)> for EndPacket {
    fn from(fields: (u32, u16)) -> (r: Self) {
        EndPacket::new(fields.0, fields.1)
    }
}

impl vstd::std_specs::convert::FromSpecImpl<(u32, u16)> for EndPacket {
    open spec fn obeys_from_spec() -> bool {
        true
    }

    open spec fn from_spec(v: (u32, u16)) -> Self {
        EndPacket { header: PacketHeader { id: v.0, seq: v.1, ack: v.1, flag: Flag::End } }
    }
}

/// A datagram that decodes under a checksum of at least one byte no longer
/// decodes once any single byte of it changes: a change in the body moves
/// the fold away from the stored checksum, a change in the checksum moves
/// the checksum away from the fold.
pub proof fn lemma_single_byte_change_rejected(b: Seq<u8>, b2: Seq<u8>, k: nat, j: int)
    requires
        k >= 1,
        decode_error(b, k) is None,
        b2.len() == b.len(),
        0 <= j < b.len(),
        b2[j] != b[j],
        forall|i: int| 0 <= i < b.len() && i != j ==> b2[i] == b[i],
    ensures
        decode_error(b2, k) is Some,
{
    let n = b.len() as int;
    let body = b.subrange(0, n - k);
    let body2 = b2.subrange(0, n - k);
    let sum = b.subrange(n - k, n);
    let sum2 = b2.subrange(n - k, n);
    lemma_xor_fold_len(body, k);
    if j < n - k {
        assert(body2 =~= body.update(j, b2[j]));
        assert(sum2 =~= sum);
        if body_error(body2) is None {
            lemma_xor_fold_update(body, k, j, b2[j]);
            let i = j % (k as int);
            let x = xor_fold(body, k)[i];
            let y = body[j];
            let z = b2[j];
            assert(y != z ==> (x ^ y) ^ z != x) by (bit_vector);
            assert(xor_fold(body2, k)[i] != sum[i]);
        }
    } else {
        assert(body2 =~= body);
        assert(sum2[j - (n - k)] != sum[j - (n - k)]);
    }
}

/// An Init datagram of exactly its packet size, checksummed with its own
/// width, encodes back to the same bytes up to its padding: the same
/// length, the same header and sizes, zeros where its padding was; and to
/// exactly the same bytes when its padding was zeros.
pub proof fn lemma_init_encode_of_decoded(b: Seq<u8>, k: nat, p: InitPacket)
    requires
        decodes_to(b, k, &Packet::Init(p)),
        k == p.checksum_size,
        b.len() == p.packet_size,
    ensures
        ({
            let r = wire(&Packet::Init(p), k);
            &&& r.len() == b.len()
            &&& r.subrange(0, 15) == b.subrange(0, 15)
            &&& forall|i: int| 15 <= i < b.len() - k ==> #[trigger] r[i] == 0u8
            &&& (forall|i: int| 15 <= i < b.len() - k ==> #[trigger] b[i] == 0u8) ==> r == b
        }),
{
    let n = b.len() as int;
    let body = b.subrange(0, n - k);
    let ib = init_bin(p);
    let r = wire(&Packet::Init(p), k);
    lemma_xor_fold_len(ib, k);
    lemma_header_bytes(body);
    lemma_be16_bytes_of_value(body, 9);
    lemma_be16_bytes_of_value(body, 11);
    lemma_be16_bytes_of_value(body, 13);
    assert(ib.len() == body.len());
    assert forall|i: int| 0 <= i < 15 implies #[trigger] ib[i] == body[i] by {
        if i < 9 {
            assert(body.subrange(0, 9)[i] == body[i]);
        } else if i < 11 {
            assert(body.subrange(9, 11)[i - 9] == body[i]);
        } else if i < 13 {
            assert(body.subrange(11, 13)[i - 11] == body[i]);
        } else {
            assert(body.subrange(13, 15)[i - 13] == body[i]);
        }
    }
    assert(r.subrange(0, 15) =~= b.subrange(0, 15)) by {
        assert forall|i: int| 0 <= i < 15 implies r.subrange(0, 15)[i] == b.subrange(0, 15)[i] by {
            assert(r[i] == ib[i]);
            assert(body[i] == b[i]);
        }
    }
    assert forall|i: int| 15 <= i < b.len() - k implies #[trigger] r[i] == 0u8 by {
        assert(r[i] == ib[i]);
    }
    if forall|i: int| 15 <= i < b.len() - k ==> #[trigger] b[i] == 0u8 {
        assert forall|i: int| 15 <= i < body.len() implies #[trigger] body[i] == 0u8 by {
            assert(body[i] == b[i]);
        }
        assert(canonical(b, k));
        lemma_encode_of_decoded(b, k, &Packet::Init(p));
    }
}

} // verus!
