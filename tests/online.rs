use trakt::message::MessageError;
use trakt::online::{
    get_bogus_system_address, MessageConnectedPing, MessageConnectedPong, MessageConnectionRequest,
    MessageConnectionRequestAccepted, MessageNewIncomingConnection,
};
use trakt::wire::{BufError, ReadBuf, SockAddr, WriteBuf};

fn body(bytes: Vec<u8>) -> ReadBuf {
    ReadBuf::new(bytes[1..].to_vec())
}

#[test]
fn connected_ping_and_pong_round_trip() {
    let m = MessageConnectedPing { timestamp: -9 };
    let mut w = WriteBuf::new();
    m.serialize(&mut w).unwrap();
    assert_eq!(MessageConnectedPing::deserialize(&mut body(w.into_bytes())).unwrap(), m);
    let m = MessageConnectedPong { ping_timestamp: 1, pong_timestamp: 2 };
    let mut w = WriteBuf::new();
    m.serialize(&mut w).unwrap();
    let bytes = w.into_bytes();
    assert_eq!(bytes[0], 0x03);
    assert_eq!(MessageConnectedPong::deserialize(&mut body(bytes)).unwrap(), m);
}

#[test]
fn connection_request_round_trip() {
    let m = MessageConnectionRequest { client_uuid: 5, forward_timestamp: 6, use_encryption: true };
    let mut w = WriteBuf::new();
    m.serialize(&mut w).unwrap();
    assert_eq!(MessageConnectionRequest::deserialize(&mut body(w.into_bytes())).unwrap(), m);
    let mut short = ReadBuf::new(vec![0; 5]);
    assert_eq!(MessageConnectionRequest::deserialize(&mut short), Err(MessageError::BufError(BufError::NotEnoughData)));
}

#[test]
fn handshake_messages_round_trip() {
    let a = SockAddr::V4 { ip: 0x7F000001, port: 1 };
    let m = MessageConnectionRequestAccepted { client_address: a, request_timestamp: 10, accept_timestamp: 20 };
    let mut w = WriteBuf::new();
    m.serialize(&mut w).unwrap();
    let bytes = w.into_bytes();
    assert_eq!(bytes.len(), 1 + 7 + 2 + 70 + 16);
    assert_eq!(MessageConnectionRequestAccepted::deserialize(&mut body(bytes)).unwrap(), m);
    let m = MessageNewIncomingConnection { server_address: a, request_timestamp: 3, accept_timestamp: 4 };
    let mut w = WriteBuf::new();
    m.serialize(&mut w).unwrap();
    assert_eq!(MessageNewIncomingConnection::deserialize(&mut body(w.into_bytes())).unwrap(), m);
    assert_eq!(get_bogus_system_address(), SockAddr::V4 { ip: 0xFFFFFFFF, port: 19132 });
}

#[test]
fn handshake_message_with_bad_tail_fails() {
    let a = SockAddr::V4 { ip: 1, port: 1 };
    let m = MessageNewIncomingConnection { server_address: a, request_timestamp: 3, accept_timestamp: 4 };
    let mut w = WriteBuf::new();
    m.serialize(&mut w).unwrap();
    let mut bytes = w.into_bytes();
    bytes.truncate(bytes.len() - 3);
    assert_eq!(
        MessageNewIncomingConnection::deserialize(&mut body(bytes)),
        Err(MessageError::BufError(BufError::InvalidAddress))
    );
}
