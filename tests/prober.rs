use trakt::haproxy::proxy_header;
use trakt::message::{MessageUnconnectedPing, MessageUnconnectedPong};
use trakt::prober::{parse_ping_reply, ping_packet, PingError};
use trakt::wire::SockAddr;

#[test]
fn ping_packet_without_preamble() {
    let p = ping_packet(42, None);
    assert_eq!(p, MessageUnconnectedPing { client_uuid: 42, forward_timestamp: 42 }.to_bytes().unwrap());
}

#[test]
fn ping_packet_with_preamble() {
    let local = SockAddr::V4 { ip: 0x0A000001, port: 40000 };
    let p = ping_packet(42, Some(local));
    let mut expected = proxy_header(local, local);
    expected.extend(MessageUnconnectedPing { client_uuid: 42, forward_timestamp: 42 }.to_bytes().unwrap());
    assert_eq!(p, expected);
    assert_eq!(&p[..12], b"\r\n\r\n\0\r\nQUIT\n");
}

#[test]
fn reply_is_read() {
    let pong = MessageUnconnectedPong { timestamp: 1, server_uuid: 2, motd: "MCPE;Hi;1;v;0;0;0;;Survival;1;1;1;".to_string() };
    let m = parse_ping_reply(&pong.to_bytes().unwrap()).unwrap();
    assert_eq!(m.lines[0], "Hi");
    assert_eq!(parse_ping_reply(&vec![0x01, 0, 0]).unwrap_err(), PingError::NotPong);
    let empty = MessageUnconnectedPong { timestamp: 1, server_uuid: 2, motd: String::new() };
    assert_eq!(parse_ping_reply(&empty.to_bytes().unwrap()).unwrap_err(), PingError::EmptyPayload);
    assert!(matches!(parse_ping_reply(&vec![0x1c, 0]).unwrap_err(), PingError::Message(_)));
}
