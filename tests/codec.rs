use trakt::frame::{Frame, FrameFragment, Reliability};
use trakt::message::{
    MessageAlreadyConnected, MessageError, MessageIncompatibleProtocolVersion,
    MessageOpenConnectionReply1, MessageOpenConnectionReply2, MessageOpenConnectionRequest1,
    MessageOpenConnectionRequest2, MessageUnconnectedPing, MessageUnconnectedPong,
    ProtocolVersion, RaknetMessage,
};
use trakt::wire::{BufError, ReadBuf, SockAddr, WriteBuf};

const MAGIC: [u8; 16] = [
    0x00, 0xFF, 0xFF, 0x00, 0xFE, 0xFE, 0xFE, 0xFE, 0xFD, 0xFD, 0xFD, 0xFD, 0x12, 0x34, 0x56, 0x78,
];

#[test]
fn u24_is_little_endian_and_round_trips() {
    for n in [0u32, 1, 0x123456, 0xFFFFFF] {
        let mut w = WriteBuf::new();
        w.write_u24(n).unwrap();
        let bytes = w.into_bytes();
        assert_eq!(bytes.len(), 3);
        assert_eq!(bytes[0], (n & 0xFF) as u8);
        let mut r = ReadBuf::new(bytes);
        assert_eq!(r.read_u24().unwrap(), n);
        assert_eq!(r.remaining(), 0);
    }
}

#[test]
fn integers_are_big_endian() {
    let mut w = WriteBuf::new();
    w.write_u16(0x1234).unwrap();
    w.write_u32(0xDEADBEEF).unwrap();
    w.write_i64(-2).unwrap();
    w.write_i16(-3).unwrap();
    w.write_bool(true).unwrap();
    let bytes = w.into_bytes();
    assert_eq!(&bytes[..6], &[0x12, 0x34, 0xDE, 0xAD, 0xBE, 0xEF]);
    assert_eq!(&bytes[6..14], &[0xFF, 0xFF, 0xFF, 0xFF, 0xFF, 0xFF, 0xFF, 0xFE]);
    let mut r = ReadBuf::new(bytes);
    assert_eq!(r.read_u16().unwrap(), 0x1234);
    assert_eq!(r.read_u32().unwrap(), 0xDEADBEEF);
    assert_eq!(r.read_i64().unwrap(), -2);
    assert_eq!(r.read_i16().unwrap(), -3);
    assert_eq!(r.read_bool().unwrap(), true);
    assert_eq!(r.read_u8(), Err(BufError::NotEnoughData));
}

#[test]
fn address_v4_is_inverted_and_round_trips() {
    let a = SockAddr::V4 { ip: 0x7F000001, port: 19132 };
    let mut w = WriteBuf::new();
    w.write_address(a).unwrap();
    let bytes = w.into_bytes();
    assert_eq!(bytes, vec![4, 0x80, 0xFF, 0xFF, 0xFE, 0x4A, 0xBC]);
    let mut r = ReadBuf::new(bytes);
    assert_eq!(r.read_address().unwrap(), a);
}

#[test]
fn address_v6_round_trips() {
    let a = SockAddr::V6 { hi: 0x2001_0db8_0000_0000, lo: 0x0000_0000_0000_0001, port: 443 };
    let mut w = WriteBuf::new();
    w.write_address(a).unwrap();
    let bytes = w.into_bytes();
    assert_eq!(bytes.len(), 29);
    assert_eq!(bytes[0], 6);
    assert_eq!(&bytes[3..5], &[0x01, 0xBB]);
    let mut r = ReadBuf::new(bytes);
    assert_eq!(r.read_address().unwrap(), a);
}

#[test]
fn address_with_unknown_family_fails() {
    let mut r = ReadBuf::new(vec![5, 0, 0, 0, 0, 0, 0]);
    assert_eq!(r.read_address(), Err(BufError::InvalidAddress));
}

#[test]
fn magic_mismatch_fails() {
    let mut r = ReadBuf::new(vec![0u8; 16]);
    assert_eq!(r.read_magic(), Err(BufError::InvalidMagic));
    let mut r = ReadBuf::new(MAGIC.to_vec());
    assert_eq!(r.read_magic(), Ok(()));
}

#[test]
fn invalid_utf8_string_fails() {
    let mut r = ReadBuf::new(vec![0, 2, 0xC3, 0x28]);
    assert!(matches!(r.read_str(), Err(BufError::InvalidString)));
    let mut w = WriteBuf::new();
    w.write_str("héllo").unwrap();
    let mut r = ReadBuf::new(w.into_bytes());
    assert_eq!(r.read_str().unwrap(), "héllo");
}

#[test]
fn message_bytes_round_trip() {
    for b in 0u8..=255 {
        if let Some(m) = RaknetMessage::from_u8(b) {
            assert_eq!(m.to_u8(), b);
        }
    }
    assert_eq!(RaknetMessage::from_u8(0x0A), None);
    assert_eq!(ProtocolVersion::from_u8(11), ProtocolVersion::V11);
    assert_eq!(ProtocolVersion::from_u8(9).to_u8(), 9);
}

#[test]
fn unconnected_ping_round_trip() {
    let ping = MessageUnconnectedPing { client_uuid: -7, forward_timestamp: 123456789 };
    let bytes = ping.to_bytes().unwrap();
    assert_eq!(bytes.len(), 33);
    assert_eq!(bytes[0], 0x01);
    assert_eq!(&bytes[9..25], &MAGIC);
    let mut r = ReadBuf::new(bytes[1..].to_vec());
    assert_eq!(MessageUnconnectedPing::deserialize(&mut r).unwrap(), ping);
}

#[test]
fn unconnected_pong_round_trip() {
    let pong = MessageUnconnectedPong { timestamp: 5, server_uuid: 99, motd: "MCPE;x;".to_string() };
    let bytes = pong.to_bytes().unwrap();
    assert_eq!(bytes[0], 0x1c);
    let mut r = ReadBuf::new(bytes[1..].to_vec());
    let back = MessageUnconnectedPong::deserialize(&mut r).unwrap();
    assert_eq!(back.timestamp, 5);
    assert_eq!(back.server_uuid, 99);
    assert_eq!(back.motd, "MCPE;x;");
}

#[test]
fn open_connection_messages_round_trip() {
    let a = SockAddr::V4 { ip: 0xC0A80001, port: 1234 };
    let m = MessageOpenConnectionReply1 { server_uuid: 1, use_encryption: false, preferred_mtu_size: 1400 };
    let mut w = WriteBuf::new();
    m.serialize(&mut w).unwrap();
    let mut r = ReadBuf::new(w.into_bytes()[1..].to_vec());
    assert_eq!(MessageOpenConnectionReply1::deserialize(&mut r).unwrap(), m);

    let m = MessageOpenConnectionRequest2 { client_uuid: 2, server_address: a, preferred_mtu_size: 1400 };
    let mut w = WriteBuf::new();
    m.serialize(&mut w).unwrap();
    let mut r = ReadBuf::new(w.into_bytes()[1..].to_vec());
    assert_eq!(MessageOpenConnectionRequest2::deserialize(&mut r).unwrap(), m);

    let m = MessageOpenConnectionReply2 { server_uuid: 3, client_address: a, use_encryption: true, mtu_size: 1200 };
    let mut w = WriteBuf::new();
    m.serialize(&mut w).unwrap();
    let bytes = w.into_bytes();
    assert_eq!(bytes[0], 0x08);
    let mut r = ReadBuf::new(bytes[1..].to_vec());
    assert_eq!(MessageOpenConnectionReply2::deserialize(&mut r).unwrap(), m);

    let m = MessageAlreadyConnected { server_uuid: 4 };
    let mut w = WriteBuf::new();
    m.serialize(&mut w).unwrap();
    let mut r = ReadBuf::new(w.into_bytes()[1..].to_vec());
    assert_eq!(MessageAlreadyConnected::deserialize(&mut r).unwrap(), m);

    let m = MessageIncompatibleProtocolVersion { server_uuid: 5, preferred_protocol: ProtocolVersion::V10 };
    let mut w = WriteBuf::new();
    m.serialize(&mut w).unwrap();
    let mut r = ReadBuf::new(w.into_bytes()[1..].to_vec());
    assert_eq!(MessageIncompatibleProtocolVersion::deserialize(&mut r).unwrap(), m);
}

#[test]
fn open_connection_request1_padding_gives_mtu() {
    for mtu in [46u16, 92, 1400, 1492] {
        let m = MessageOpenConnectionRequest1 { raknet_protocol: ProtocolVersion::V11, mtu_size: mtu };
        let bytes = m.to_bytes().unwrap();
        assert_eq!(bytes.len() + 28, mtu as usize);
        let mut r = ReadBuf::new(bytes[1..].to_vec());
        assert_eq!(MessageOpenConnectionRequest1::deserialize(&mut r).unwrap(), m);
    }
    let mut big = MAGIC.to_vec();
    big.push(11);
    big.extend(vec![0u8; 70000]);
    let mut r = ReadBuf::new(big);
    assert_eq!(MessageOpenConnectionRequest1::deserialize(&mut r), Err(MessageError::MTUInvalidPadding));
}

fn frame(reliability: Reliability, fragment: Option<FrameFragment>, body: Vec<u8>) -> Frame {
    Frame { reliability, frame_idx: 7, seq: 8, order_idx: 9, fragment, body }
}

#[test]
fn frames_round_trip_for_every_shape() {
    let shapes = [
        Reliability::Unreliable,
        Reliability::UnreliableSequenced,
        Reliability::Reliable,
        Reliability::ReliableOrdered,
        Reliability::ReliableSequenced,
    ];
    for rel in shapes {
        for frag in [None, Some(FrameFragment { count: 3, index: 1, id: 42 })] {
            let f = frame(rel, frag, vec![0x15, 1, 2]);
            let mut w = WriteBuf::new();
            f.serialize(&mut w).unwrap();
            let mut r = ReadBuf::new(w.into_bytes());
            let back = Frame::deserialize(&mut r).unwrap();
            assert_eq!(back.reliability, rel);
            assert_eq!(back.fragment, frag);
            assert_eq!(back.body, vec![0x15, 1, 2]);
            assert_eq!(back.frame_idx, if rel.is_reliable() { 7 } else { 0 });
            assert_eq!(back.seq, if rel.is_sequenced() { 8 } else { 0 });
            assert_eq!(back.order_idx, if rel.is_ordered() { 9 } else { 0 });
            assert_eq!(r.remaining(), 0);
        }
    }
}

#[test]
fn frame_errors() {
    let mut r = ReadBuf::new(vec![0xE0, 0, 8, 1]);
    assert_eq!(Frame::deserialize(&mut r).unwrap_err(), MessageError::UnknownRealibility(7));
    let mut r = ReadBuf::new(vec![0x00, 0, 0]);
    assert_eq!(Frame::deserialize(&mut r).unwrap_err(), MessageError::ZeroSize);
    let mut r = ReadBuf::new(vec![0x00, 0, 16, 1]);
    assert_eq!(Frame::deserialize(&mut r).unwrap_err(), MessageError::BufError(BufError::NotEnoughData));
    assert_eq!(Reliability::from_u8(4), Some(Reliability::ReliableSequenced));
    assert_eq!(Reliability::ReliableOrdered.to_u8(), 3);
}
