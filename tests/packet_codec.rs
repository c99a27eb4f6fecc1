use udp_transfer::checksum::Checksum;
use udp_transfer::packet::{
    DataPacket, EndPacket, ErrorPacket, Flag, InitPacket, Packet, PacketHeader, ParsingError, ToBin,
};

#[test]
fn packet_should_parse_successfully() {
    let data: Vec<u8> = vec![
        0, 0, 1, 0, //id
        0, 5, //seq
        0, 8, //ack
        2, //flag
        1, 2, 3, //data
        4, 5, 6, 7, //data
        2 ^ 4, 5 ^ 1 ^ 5, 1 ^ 2 ^ 6, 8 ^ 3 ^ 7,
    ];
    match Packet::from_bin(&data.as_slice(), 4) {
        Ok(Packet::Data(packet)) => {
            assert_eq!(packet.header.id, 1 << 8);
            assert_eq!(packet.header.seq, 5);
            assert_eq!(packet.header.ack, 8);
            assert_eq!(packet.header.flag, Flag::Data);
            assert_eq!(packet.data, vec![1, 2, 3, 4, 5, 6, 7]);
        }
        rest => panic!("{:?}", rest),
    }
}

#[test]
fn packet_not_aligned_to_block() {
    // decoding
    let data: Vec<u8> = vec![
        0, 0, 1, 0, //id
        0, 5, //seq
        0, 8, //ack
        2, //flag
        1, 2, 3, //data
        4, 5, 6, 7, //data
        11, 13, 17, //data
        2 ^ 4 ^ 11, 5 ^ 1 ^ 5 ^ 13, 1 ^ 2 ^ 6 ^ 17, 8 ^ 3 ^ 7,
    ];
    if let Ok(Packet::Data(packet)) = Packet::from_bin(&data.as_slice(), 4) {
        assert_eq!(packet.header.id, 1 << 8);
        assert_eq!(packet.header.seq, 5);
        assert_eq!(packet.header.ack, 8);
        assert_eq!(packet.header.flag, Flag::Data);
        assert_eq!(packet.data, vec![1, 2, 3, 4, 5, 6, 7, 11, 13, 17]);
    } else {
        panic!();
    }

    // encoding
    let packet = Packet::from(DataPacket {
        header: PacketHeader { id: 1 << 8, seq: 5, ack: 8, flag: Flag::Error },
        data: vec![1, 2, 3, 4, 5, 6, 7, 11, 13, 17],
    });
    let mut actual = vec![0; 23];
    packet.to_bin_buff(&mut actual, 4);
    let expected: Vec<u8> = vec![
        0, 0, 1, 0, //id
        0, 5, //seq
        0, 8, //ack
        4, //flag
        1, 2, 3, //data
        4, 5, 6, 7, //data
        11, 13, 17, //data
        4 ^ 4 ^ 11, 5 ^ 1 ^ 5 ^ 13, 1 ^ 2 ^ 6 ^ 17, 8 ^ 3 ^ 7,
    ];
    assert_eq!(actual, expected);
}

#[test]
fn packet_checksum_not_match() {
    let data: Vec<u8> = vec![
        0, 0, 1, 0, //id
        0, 5, //seq
        0, 8, //ack
        2, //flag
        1, 2, 3, //data
        4, 5, 6, 7, //data
        2 ^ 4, 5 ^ 1 ^ 5, /*1 ^*/ 2 ^ 6, 8 ^ 3 ^ 7,
    ];
    if let Err(ParsingError::ChecksumNotMatch) = Packet::from_bin(&data.as_slice(), 4) {
    } else {
        panic!("Test failed");
    }
}

#[test]
fn packet_data_not_match() {
    let data: Vec<u8> = vec![
        0, 0, 1, 0, //id
        0, 5, //seq
        0, 8, //ack
        2, //flag
        /*1*/ 0, 2, 3, //data
        4, 5, 6, 7, //data
        2 ^ 4, 5 ^ 1 ^ 5, 1 ^ 2 ^ 6, 8 ^ 3 ^ 7,
    ];
    if let Err(ParsingError::ChecksumNotMatch) = Packet::from_bin(&data.as_slice(), 4) {
    } else {
        panic!("Test failed");
    }
}

#[test]
fn packet_data_too_short() {
    let data: Vec<u8> = vec![
        0, 0, 1, 0, //id
        0, 5, //seq
        0, 8, //ack
        2, //flag
        // no data
        2 ^ 4, 5 ^ 1 ^ 5, 1 ^ 2 ^ 6, /*, 8 ^ 3 ^ 7*/
    ];
    if let Err(ParsingError::InvalidSize(_, _)) = Packet::from_bin(&data.as_slice(), 4) {
    } else {
        panic!("Test failed");
    }
}

#[test]
fn packet_without_checksum() {
    let data: Vec<u8> = vec![
        0, 0, 1, 0, //id
        0, 5, //seq
        0, 8, //ack
        2, //flag
        1, 2, 3, //data
        4, 5, 6, //data
    ];
    if let Ok(Packet::Data(packet)) = Packet::from_bin(&data.as_slice(), 0) {
        assert_eq!(packet.header.id, 1 << 8);
        assert_eq!(packet.header.seq, 5);
        assert_eq!(packet.header.ack, 8);
        assert_eq!(packet.header.flag, Flag::Data);
        assert_eq!(packet.data, vec![1, 2, 3, 4, 5, 6]);
    } else {
        panic!();
    }
}

#[test]
fn packet_valid_transfer() {
    let packet = Packet::from(DataPacket {
        header: PacketHeader { id: 1 << 8, seq: 5, ack: 8, flag: Flag::Error },
        data: vec![1, 2, 3, 4, 5, 6, 7],
    });
    let mut actual = vec![0; 20];
    packet.to_bin_buff(&mut actual, 4);
    let expected: Vec<u8> = vec![
        0, 0, 1, 0, //id
        0, 5, //seq
        0, 8, //ack
        4, //flag
        1, 2, 3, //data
        4, 5, 6, 7, //data
        4 ^ 4, 5 ^ 1 ^ 5, 1 ^ 2 ^ 6, 8 ^ 3 ^ 7,
    ];
    assert_eq!(actual, expected);
}

#[test]
fn packet_no_checksum() {
    let packet = Packet::from(DataPacket {
        header: PacketHeader { id: 1 << 8, seq: 5, ack: 8, flag: Flag::Error },
        data: vec![1, 2, 3, 4, 5, 6, 7, 11, 13, 17],
    });
    let mut actual = vec![0; 19];
    let wrote = packet.to_bin_buff(&mut actual, 0);
    let expected: Vec<u8> = vec![
        0, 0, 1, 0, //id
        0, 5, //seq
        0, 8, //ack
        4, //flag
        1, 2, 3, //data
        4, 5, 6, 7, //data
        11, 13, 17, //data
    ];
    assert_eq!(wrote, expected.len());
    assert_eq!(actual, expected);
}

#[test]
fn packet_invalid_flag() {
    let data: Vec<u8> = vec![
        0, 0, 1, 0, //id
        0, 5, //seq
        0, 8, //ack
        7, //flag
        1, 2, 3, //data
        4, 5, 6, 7, //data
        7 ^ 4, 5 ^ 1 ^ 5, 1 ^ 2 ^ 6, 8 ^ 3 ^ 7,
    ];
    if let Err(ParsingError::InvalidFlag(7)) = Packet::from_bin(&data.as_slice(), 4) {
    } else {
        panic!();
    }
}

#[test]
fn should_get_from_buffer() {
    let data = vec![0x1, 0x2, 0x3];
    let checksum = Checksum::from(data.as_slice());
    assert_eq!(checksum.size, 3);
    assert_eq!(checksum.checksum, data);
}

#[test]
fn should_create_from_buffer() {
    let data = vec![0x1, 0x2, 0x8];
    let checksum = Checksum::from_packet_content(&data, 1);
    assert_eq!(checksum.size, 1);
    assert_eq!(checksum.checksum.len(), 1);
    assert_eq!(checksum.checksum[0], 0xB);
}

#[test]
fn should_create_zero_length() {
    let data = vec![0x1, 0x2, 0x8];
    let checksum = Checksum::from_packet_content(&data, 0);
    assert_eq!(checksum.size, 0);
    assert_eq!(checksum.checksum.len(), 0);
}

#[test]
fn should_create_not_aligned() {
    let data = vec![0x1, 0x2, 0x8];
    let expected = vec![0x1 ^ 0x8, 0x2];
    let checksum = Checksum::from_packet_content(&data, 2);
    assert_eq!(checksum.size, 2);
    assert_eq!(checksum.checksum.len(), 2);
    assert_eq!(checksum.checksum, expected);
}

#[test]
fn valid_flag() {
    let data: Vec<u8> = vec![0x4];
    if let Ok(Flag::Error) = Flag::from_bin(&data) {
    } else {
        panic!();
    }
}

#[test]
fn enums_invalid_flag() {
    let data: Vec<u8> = vec![7];
    if let Err(ParsingError::InvalidFlag(7)) = Flag::from_bin(&data) {
    } else {
        panic!();
    }
}

#[test]
fn to_binary() {
    let packet = Packet::from(InitPacket::new(0x8, 0x32, 0x4));
    let bin = packet.to_bin(0x4);
    let expect = vec![
        0, 0, 0, 0, //id
        0, 0, 0, 0, //seq ack
        Flag::to_bin(&Flag::Init)[0],
        0, 0x8, 0, 0x32, 0, 0x4,
        0, 0, 0, 0, 0, //data byte20
        0, 0, 0, 0, 0, 0, 0, 0, 0, 0, //data byte 30
        0, 0, 0, 0, 0, 0, 0, 0, 0, 0, //data byte 40
        0, 0, 0, 0, 0, 0, //data byte 46
        Flag::to_bin(&Flag::Init)[0] ^ 0x32, 0, 0x8 ^ 0x4, 0, //checksum
    ];
    assert_eq!(bin, expect);
}

#[test]
fn from_binary() {
    let data = vec![
        0, 0x64, 0, 0, //id
        0, 0, 0, 0, //seq ack
        Flag::to_bin(&Flag::Init)[0],
        0, 0x8, 0, 0x32, 0, 0x4,
        0, 0, 0, 0, 0, //data byte20
        0, 0, 0, 0, 0, 0, 0, 0, 0, 0, //data byte 30
        0, 0, 0, 0, 0, 0, 0, 0, 0, 0, //data byte 40
        0, 0, 0, 0, 0, 0, //data byte 46
        Flag::to_bin(&Flag::Init)[0] ^ 0x32, 0x64, 0x8 ^ 0x4, 0, //checksum
    ];
    match Packet::from_bin(&data, 4) {
        Ok(Packet::Init(x)) => {
            assert_eq!(x.header.id, 0x64 << 16);
            assert_eq!(x.header.seq, 0);
            assert_eq!(x.header.ack, 0);
            assert_eq!(x.header.flag, Flag::Init);
            assert_eq!(x.window_size, 0x8);
            assert_eq!(x.packet_size, 0x32);
            assert_eq!(x.checksum_size, 0x4);
        }
        _ => panic!(),
    };
}

#[test]
fn wrong_checksum() {
    let data = vec![
        0, 0x64, 0, 0, //id
        0, 0, 0, 0, //seq ack
        Flag::to_bin(&Flag::Init)[0],
        0, 0x8, 0, 0x32, 0, 0x4,
        0, 0, 0, 0, 0, //data byte20
        0, 0, 0, 0, 0, 0, 0, 0, 0, 0, //data byte 30
        0, 0, 0, 0, 0, 0, 0, 0, 0, 0, //data byte 40
        0, 0, 0, 0, 0, 0, //data byte 46
        Flag::to_bin(&Flag::Init)[0] ^ 0x32, 0 /*0x64*/, 0x8 ^ 0x4, 0, //checksum
    ];
    if let Err(ParsingError::ChecksumNotMatch) = Packet::from_bin(&data, 4) {
    } else {
        panic!()
    };
}

#[test]
fn wrong_length() {
    let data = vec![
        0, 0x64, 0, 0, //id
        0, 0, 0, 0, //seq ack
        Flag::to_bin(&Flag::Init)[0],
        0, 0x8, 0, 0x32, 0, 0x4,
        0, 0, 0, 0, 0, //data byte20
        0, 0, 0, 0, 0, 0, 0, 0, 0, 0, //data byte 30
        0, 0, 0, 0, 0, 0, 0, 0, 0, 0, //data byte 40
    ];

    match Packet::from_bin(&data, 4) {
        Err(e) => println!("Err: {:?}", e),
        _ => (),
    };

    if let Err(ParsingError::InvalidSize(_, _)) = Packet::from_bin(&data, 4) {
    } else {
        panic!()
    };
}

// Round trip for each kind of packet and several checksum widths.
#[test]
fn round_trip_every_kind_and_width() {
    for k in [0usize, 1, 4, 16, 64] {
        let packets = vec![
            Packet::from(InitPacket::new(15, 1500, k as u16)),
            Packet::from(DataPacket::new(vec![9, 8, 7, 6, 5], 77, 65535, 3)),
            Packet::from(ErrorPacket::new(12345)),
            Packet::from(EndPacket::new(42, 1000)),
        ];
        for p in packets {
            let bytes = p.to_bin(k);
            let q = Packet::from_bin(&bytes, k).unwrap();
            assert_eq!(q.header(), p.header());
            match (&p, &q) {
                (Packet::Data(a), Packet::Data(b)) => assert_eq!(a.data, b.data),
                (Packet::Init(a), Packet::Init(b)) => assert_eq!(a, b),
                (Packet::Error(_), Packet::Error(_)) | (Packet::End(_), Packet::End(_)) => {}
                _ => panic!("kind changed"),
            }
            // encoding again gives the same bytes
            assert_eq!(q.to_bin(k), bytes);
        }
    }
}

// The last k bytes of an accepted datagram are the fold of the rest.
#[test]
fn accepted_datagram_ends_with_fold() {
    let p = Packet::from(DataPacket::new(vec![1, 2, 3, 4, 5, 6, 7, 8, 9, 10, 11], 5, 6, 7));
    let bytes = p.to_bin(3);
    assert!(Packet::from_bin(&bytes, 3).is_ok());
    let n = bytes.len();
    let fold = Checksum::from_packet_content(&bytes[..n - 3], 3);
    assert_eq!(&bytes[n - 3..], fold.checksum.as_slice());
}

#[test]
fn header_is_big_endian() {
    let h = PacketHeader { id: 0x01020304, seq: 0x0506, ack: 0x0708, flag: Flag::End };
    assert_eq!(h.to_bin(), vec![1, 2, 3, 4, 5, 6, 7, 8, 8]);
    let back = PacketHeader::from_bin(&[1, 2, 3, 4, 5, 6, 7, 8, 8]).unwrap();
    assert_eq!(back, h);
    assert_eq!(PacketHeader::bin_size(), 9);
    assert_eq!(PacketHeader::flag_position(), 8);
}

#[test]
fn datagram_shorter_than_header_and_checksum() {
    assert_eq!(Packet::from_bin(&[0, 0, 0], 4).unwrap_err(), ParsingError::InvalidSize(13, 3));
}

#[test]
fn zero_flag_is_invalid() {
    let p = Packet::from(DataPacket {
        header: PacketHeader { id: 1, seq: 0, ack: 0, flag: Flag::Unset },
        data: vec![],
    });
    let bytes = p.to_bin(2);
    assert_eq!(Packet::from_bin(&bytes, 2).unwrap_err(), ParsingError::InvalidFlag(0));
}

#[test]
fn init_with_too_small_packet_size_is_rejected() {
    // packet_size 19 with checksum 4: no room past the fields
    let mut bytes = vec![0, 0, 0, 0, 0, 0, 0, 0, 1, 0, 8, 0, 19, 0, 4, 0, 0, 0, 0];
    let fold = Checksum::from_packet_content(&bytes, 0);
    bytes.extend_from_slice(&fold.checksum);
    assert_eq!(Packet::from_bin(&bytes, 0).unwrap_err(), ParsingError::InvalidSize(20, 19));
}

#[test]
fn init_cut_short_reports_expected_size() {
    let p = Packet::from(InitPacket::new(15, 100, 4));
    let bytes = p.to_bin(4);
    assert_eq!(bytes.len(), 100);
    let cut = &bytes[..60];
    assert_eq!(Packet::from_bin(cut, 4).unwrap_err(), ParsingError::InvalidSize(100, 60));
}

#[test]
fn parse_init_unchecked_reads_fields_only() {
    let p = Packet::from(InitPacket::new(7, 800, 16));
    let bytes = p.to_bin(16);
    let fields = InitPacket::parse_init_unchecked(&bytes[..20]).unwrap();
    assert_eq!((fields.window_size, fields.packet_size, fields.checksum_size), (7, 800, 16));
    assert_eq!(
        InitPacket::parse_init_unchecked(&bytes[..12]).unwrap_err(),
        ParsingError::InvalidSize(15, 12)
    );
}

#[test]
fn flag_values() {
    assert_eq!(Flag::Unset.value(), 0);
    assert_eq!(Flag::Init.value(), 1);
    assert_eq!(Flag::Data.value(), 2);
    assert_eq!(Flag::Error.value(), 4);
    assert_eq!(Flag::End.value(), 8);
}

#[test]
fn checksum_is_same_and_to_bin() {
    let a = Checksum::from_packet_content(&[1, 2, 3, 4, 5], 2);
    let b = Checksum::from(&[1 ^ 3 ^ 5, 2 ^ 4][..]);
    assert!(a.is_same(&b));
    let c = Checksum::from(&[1, 2][..]);
    assert!(!a.is_same(&c));
    assert_eq!(a.to_bin(), vec![7, 6]);
}

#[test]
fn should_parse_successfully() {
    let data: Vec<u8> = vec![
        0, 0, 1, 0, //id
        0, 5, //seq
        0, 8, //ack
        2, //flag
        1, 2, 3, //data
        4, 5, 6, 7, //data
        2 ^ 4, 5 ^ 1 ^ 5, 1 ^ 2 ^ 6, 8 ^ 3 ^ 7,
    ];
    match Packet::from_bin(&data.as_slice(), 4) {
        Ok(Packet::Data(packet)) => {
            assert_eq!(packet.header.id, 1 << 8);
            assert_eq!(packet.header.seq, 5);
            assert_eq!(packet.header.ack, 8);
            assert_eq!(packet.header.flag, Flag::Data);
            assert_eq!(packet.data, vec![1, 2, 3, 4, 5, 6, 7]);
        }
        rest => panic!("{:?}", rest),
    }
}

#[test]
fn checksum_not_match() {
    let data: Vec<u8> = vec![
        0, 0, 1, 0, //id
        0, 5, //seq
        0, 8, //ack
        2, //flag
        1, 2, 3, //data
        4, 5, 6, 7, //data
        2 ^ 4, 5 ^ 1 ^ 5, /*1 ^*/ 2 ^ 6, 8 ^ 3 ^ 7,
    ];
    if let Err(ParsingError::ChecksumNotMatch) = Packet::from_bin(&data.as_slice(), 4) {
    } else {
        panic!("Test failed");
    }
}

#[test]
fn data_not_match() {
    let data: Vec<u8> = vec![
        0, 0, 1, 0, //id
        0, 5, //seq
        0, 8, //ack
        2, //flag
        /*1*/ 0, 2, 3, //data
        4, 5, 6, 7, //data
        2 ^ 4, 5 ^ 1 ^ 5, 1 ^ 2 ^ 6, 8 ^ 3 ^ 7,
    ];
    if let Err(ParsingError::ChecksumNotMatch) = Packet::from_bin(&data.as_slice(), 4) {
    } else {
        panic!("Test failed");
    }
}

#[test]
fn data_too_short() {
    let data: Vec<u8> = vec![
        0, 0, 1, 0, //id
        0, 5, //seq
        0, 8, //ack
        2, //flag
        // no data
        2 ^ 4, 5 ^ 1 ^ 5, 1 ^ 2 ^ 6, /*, 8 ^ 3 ^ 7*/
    ];
    if let Err(ParsingError::InvalidSize(_, _)) = Packet::from_bin(&data.as_slice(), 4) {
    } else {
        panic!("Test failed");
    }
}

#[test]
fn without_checksum() {
    let data: Vec<u8> = vec![
        0, 0, 1, 0, //id
        0, 5, //seq
        0, 8, //ack
        2, //flag
        1, 2, 3, //data
        4, 5, 6, //data
    ];
    if let Ok(Packet::Data(packet)) = Packet::from_bin(&data.as_slice(), 0) {
        assert_eq!(packet.header.id, 1 << 8);
        assert_eq!(packet.header.seq, 5);
        assert_eq!(packet.header.ack, 8);
        assert_eq!(packet.header.flag, Flag::Data);
        assert_eq!(packet.data, vec![1, 2, 3, 4, 5, 6]);
    } else {
        panic!();
    }
}

#[test]
fn valid_transfer() {
    let packet = Packet::from(DataPacket {
        header: PacketHeader { id: 1 << 8, seq: 5, ack: 8, flag: Flag::Error },
        data: vec![1, 2, 3, 4, 5, 6, 7],
    });
    let mut actual = vec![0; 20];
    packet.to_bin_buff(&mut actual, 4);
    let expected: Vec<u8> = vec![
        0, 0, 1, 0, //id
        0, 5, //seq
        0, 8, //ack
        4, //flag
        1, 2, 3, //data
        4, 5, 6, 7, //data
        4 ^ 4, 5 ^ 1 ^ 5, 1 ^ 2 ^ 6, 8 ^ 3 ^ 7,
    ];
    assert_eq!(actual, expected);
}

#[test]
fn no_checksum() {
    let packet = Packet::from(DataPacket {
        header: PacketHeader { id: 1 << 8, seq: 5, ack: 8, flag: Flag::Error },
        data: vec![1, 2, 3, 4, 5, 6, 7, 11, 13, 17],
    });
    let mut actual = vec![0; 19];
    let wrote = packet.to_bin_buff(&mut actual, 0);
    let expected: Vec<u8> = vec![
        0, 0, 1, 0, //id
        0, 5, //seq
        0, 8, //ack
        4, //flag
        1, 2, 3, //data
        4, 5, 6, 7, //data
        11, 13, 17, //data
    ];
    assert_eq!(wrote, expected.len());
    assert_eq!(actual, expected);
}

#[test]
fn not_aligned_to_block() {
    let data: Vec<u8> = vec![
        0, 0, 1, 0, //id
        0, 5, //seq
        0, 8, //ack
        2, //flag
        1, 2, 3, //data
        4, 5, 6, 7, //data
        11, 13, 17, //data
        2 ^ 4 ^ 11, 5 ^ 1 ^ 5 ^ 13, 1 ^ 2 ^ 6 ^ 17, 8 ^ 3 ^ 7,
    ];
    if let Ok(Packet::Data(packet)) = Packet::from_bin(&data.as_slice(), 4) {
        assert_eq!(packet.header.id, 1 << 8);
        assert_eq!(packet.header.seq, 5);
        assert_eq!(packet.header.ack, 8);
        assert_eq!(packet.header.flag, Flag::Data);
        assert_eq!(packet.data, vec![1, 2, 3, 4, 5, 6, 7, 11, 13, 17]);
    } else {
        panic!();
    }
}

#[test]
fn tuple_conversions() {
    let init = InitPacket::from((15u16, 1500u16, 64u16));
    assert_eq!((init.window_size, init.packet_size, init.checksum_size), (15, 1500, 64));
    assert_eq!(init.header.flag, Flag::Init);
    let data = DataPacket::from((vec![1u8, 2], 7u32, 3u16, 2u16));
    assert_eq!((data.header.id, data.header.seq, data.header.ack, data.header.flag), (7, 3, 2, Flag::Data));
    assert_eq!(ErrorPacket::from(9u32).header, PacketHeader { id: 9, seq: 0, ack: 0, flag: Flag::Error });
    assert_eq!(EndPacket::from((9u32, 4u16)).header, PacketHeader { id: 9, seq: 4, ack: 4, flag: Flag::End });
}

#[test]
fn every_single_byte_change_is_rejected() {
    let p = Packet::from(DataPacket::new(vec![3, 1, 4, 1, 5, 9, 2, 6], 0x01020304, 17, 16));
    for k in [1usize, 3, 8] {
        let bytes = p.to_bin(k);
        assert!(Packet::from_bin(&bytes, k).is_ok());
        for j in 0..bytes.len() {
            let mut changed = bytes.clone();
            changed[j] ^= 0x21;
            assert!(Packet::from_bin(&changed, k).is_err(), "byte {} width {}", j, k);
        }
    }
}

#[test]
fn init_with_nonzero_padding_encodes_back_with_zeros() {
    let p = Packet::from(InitPacket::new(15, 40, 4));
    let mut bytes = p.to_bin(4);
    assert_eq!(bytes.len(), 40);
    // put something in the padding and fix the checksum up
    bytes[20] = 0x77;
    let fold = Checksum::from_packet_content(&bytes[..36], 4);
    bytes[36..].copy_from_slice(&fold.checksum);
    let decoded = Packet::from_bin(&bytes, 4).unwrap();
    let again = decoded.to_bin(4);
    assert_eq!(again.len(), bytes.len());
    assert_eq!(&again[..15], &bytes[..15]);
    assert!(again[15..36].iter().all(|&b| b == 0));
    assert_eq!(again, p.to_bin(4));
}
