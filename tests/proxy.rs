use trakt::backend::{MotdSource, ServerEntry};
use trakt::balancer::{DefaultLoadBalancer, LoadBalanceMethod};
use trakt::frame::{Frame, FrameFragment, Reliability};
use trakt::haproxy::proxy_header;
use trakt::message::{MessageUnconnectedPing, MessageUnconnectedPong};
use trakt::motd::Motd;
use trakt::proxy::{PlaceError, RaknetProxyServer, RecvOutcome};
use trakt::session::{ConnectionStage, DisconnectCause, StateError};
use trakt::snapshot::{effective_rate, RaknetProxySnapshot, RuntimeConfig, Timestamp};
use trakt::spy::{spy_datagram, SpyDatagramResult};
use trakt::wire::{ReadBuf, SockAddr, WriteBuf};

fn v4(a: u8, b: u8, c: u8, d: u8, port: u16) -> SockAddr {
    SockAddr::V4 { ip: u32::from_be_bytes([a, b, c, d]), port }
}

const LISTEN_PORT: u16 = 19132;
const UUID: i64 = 0x1234_5678;

fn proxy(method: LoadBalanceMethod, servers: &[SockAddr], pp: bool) -> RaknetProxyServer {
    let mut p = RaknetProxyServer::new(DefaultLoadBalancer::init(method), UUID, LISTEN_PORT);
    let entries: Vec<ServerEntry> = servers.iter().map(|a| ServerEntry { addr: Some(*a), proxy_protocol: None }).collect();
    p.backend.load_config(&entries, pp, None, false);
    p
}

fn listen() -> SockAddr {
    v4(0, 0, 0, 0, LISTEN_PORT)
}

fn bind() -> SockAddr {
    v4(0, 0, 0, 0, 40000)
}

fn ping_bytes(ts: i64) -> Vec<u8> {
    MessageUnconnectedPing { client_uuid: 1, forward_timestamp: ts }.to_bytes().unwrap()
}

fn pong_of(bytes: &[u8]) -> MessageUnconnectedPong {
    assert_eq!(bytes[0], 0x1c);
    let mut r = ReadBuf::new(bytes[1..].to_vec());
    MessageUnconnectedPong::deserialize(&mut r).unwrap()
}

fn datagram(frames: &[Frame]) -> Vec<u8> {
    let mut w = WriteBuf::new();
    w.write_u8(0x84).unwrap();
    w.write_u24(1).unwrap();
    for f in frames {
        f.serialize(&mut w).unwrap();
    }
    w.into_bytes()
}

fn frame(fragment: Option<FrameFragment>, body: Vec<u8>) -> Frame {
    Frame { reliability: Reliability::ReliableOrdered, frame_idx: 0, seq: 0, order_idx: 0, fragment, body }
}

fn ocr1() -> Vec<u8> {
    let mut v = vec![0x05];
    v.extend([0x00, 0xFF, 0xFF, 0x00, 0xFE, 0xFE, 0xFE, 0xFE, 0xFD, 0xFD, 0xFD, 0xFD, 0x12, 0x34, 0x56, 0x78]);
    v.push(11);
    v.extend(vec![0u8; 46]);
    v
}

#[test]
fn ping_without_motd_gets_empty_pong() {
    let mut p = proxy(LoadBalanceMethod::RoundRobin, &[v4(127, 0, 0, 1, 65000)], false);
    let player = v4(10, 0, 0, 9, 5000);
    match p.handle_recv(player, &ping_bytes(777), bind(), listen(), &None) {
        RecvOutcome::Pong(bytes) => {
            let pong = pong_of(&bytes);
            assert_eq!(pong.motd, "");
            assert_eq!(pong.server_uuid, UUID);
            assert_eq!(pong.timestamp, 777);
        }
        _ => panic!("expected a pong"),
    }
    assert!(p.clients.is_empty());
}

#[test]
fn ping_after_motd_refresh_advertises_proxy() {
    let mut p = proxy(LoadBalanceMethod::RoundRobin, &[v4(127, 0, 0, 1, 19133)], false);
    let motd = Motd::decode_payload("MCPE;Hello;630;1.20;1;10;12345;Sub;Survival;1;19132;19132;");
    match p.handle_recv(v4(10, 0, 0, 9, 5000), &ping_bytes(1), bind(), listen(), &motd) {
        RecvOutcome::Pong(bytes) => {
            let pong = pong_of(&bytes);
            let m = Motd::decode_payload(&pong.motd).unwrap();
            assert_eq!(m.lines[0], "Hello");
            assert_eq!(m.port_v4, LISTEN_PORT);
            assert_eq!(m.port_v6, LISTEN_PORT);
            assert_eq!(m.server_uuid, UUID);
            assert_ne!(m.server_uuid, 12345);
            assert_eq!(pong.server_uuid, UUID);
        }
        _ => panic!("expected a pong"),
    }
}

#[test]
fn empty_title_is_coerced() {
    let mut p = proxy(LoadBalanceMethod::RoundRobin, &[v4(127, 0, 0, 1, 19133)], false);
    let motd = Motd::decode_payload("MCPE;;630;1.20;1;10;1;Sub;Survival;1;1;1;");
    match p.handle_recv(v4(10, 0, 0, 9, 5000), &ping_bytes(1), bind(), listen(), &motd) {
        RecvOutcome::Pong(bytes) => {
            let m = Motd::decode_payload(&pong_of(&bytes).motd).unwrap();
            assert_eq!(m.lines[0], "...");
        }
        _ => panic!("expected a pong"),
    }
}

#[test]
fn malformed_ping_fails() {
    let mut p = proxy(LoadBalanceMethod::RoundRobin, &[v4(127, 0, 0, 1, 19133)], false);
    assert!(matches!(p.handle_recv(v4(10, 0, 0, 9, 5000), &vec![0x01, 0, 0], bind(), listen(), &None), RecvOutcome::PingFailed(_)));
}

#[test]
fn round_robin_placement_of_three_players() {
    let s1 = v4(10, 0, 0, 1, 19132);
    let s2 = v4(10, 0, 0, 2, 19132);
    let mut p = proxy(LoadBalanceMethod::RoundRobin, &[s1, s2], false);
    let mut placed = Vec::new();
    for k in 0..3u8 {
        match p.handle_recv(v4(192, 168, 0, k + 1, 5000), &ocr1(), bind(), listen(), &None) {
            RecvOutcome::Opened(pl) => {
                assert!(pl.preamble.is_none());
                placed.push(pl.server_addr);
            }
            _ => panic!("expected a session"),
        }
    }
    assert_eq!(placed, vec![s1, s2, s1]);
    assert_eq!(p.backend.records[0].load_score, 2);
    assert_eq!(p.backend.records[1].load_score, 1);
    assert!(p.clients.iter().all(|c| c.stage == ConnectionStage::Handshake));
}

#[test]
fn proxy_protocol_preamble_on_open() {
    let s1 = v4(10, 0, 0, 1, 19132);
    let mut p = proxy(LoadBalanceMethod::RoundRobin, &[s1], true);
    let player = v4(1, 2, 3, 4, 5000);
    match p.handle_recv(player, &ocr1(), bind(), listen(), &None) {
        RecvOutcome::Opened(pl) => {
            let h = pl.preamble.unwrap();
            assert_eq!(h, proxy_header(player, listen()));
        }
        _ => panic!("expected a session"),
    }
}

#[test]
fn proxy_header_layout() {
    let h = proxy_header(v4(1, 2, 3, 4, 5000), v4(5, 6, 7, 8, 19132));
    let mut expected = b"\r\n\r\n\0\r\nQUIT\n".to_vec();
    expected.extend([0x21, 0x12, 0, 12, 1, 2, 3, 4, 5, 6, 7, 8, 0x13, 0x88, 0x4A, 0xBC]);
    assert_eq!(h, expected);
    let mixed = proxy_header(v4(1, 2, 3, 4, 1), SockAddr::V6 { hi: 0, lo: 1, port: 1 });
    assert_eq!(&mixed[12..], &[0x21, 0x02, 0, 0]);
}

#[test]
fn no_server_available() {
    let mut p = proxy(LoadBalanceMethod::RoundRobin, &[], false);
    assert!(matches!(p.handle_recv(v4(1, 1, 1, 1, 1), &ocr1(), bind(), listen(), &None), RecvOutcome::NotPlaced(PlaceError::NoServer)));
}

#[test]
fn unknown_type_is_ignored() {
    let mut p = proxy(LoadBalanceMethod::RoundRobin, &[v4(10, 0, 0, 1, 1)], false);
    assert!(matches!(p.handle_recv(v4(1, 1, 1, 1, 1), &vec![0x0A, 1, 2], bind(), listen(), &None), RecvOutcome::Ignored));
    assert!(matches!(p.handle_recv(v4(1, 1, 1, 1, 1), &vec![], bind(), listen(), &None), RecvOutcome::Ignored));
}

fn connected_proxy() -> (RaknetProxyServer, SockAddr, SockAddr) {
    let s = v4(10, 0, 0, 1, 19132);
    let player = v4(192, 168, 1, 10, 6000);
    let mut p = proxy(LoadBalanceMethod::RoundRobin, &[s], false);
    assert!(matches!(p.handle_recv(player, &ocr1(), bind(), listen(), &None), RecvOutcome::Opened(_)));
    let act = p.handle_incoming_server(player, &vec![0x08, 0, 0]);
    assert!(act.connected_now && act.forward);
    assert_eq!(p.connected_players(p.backend.records[0].uid), vec![player]);
    (p, s, player)
}

#[test]
fn disconnect_from_client_closes_session() {
    let (mut p, _s, player) = connected_proxy();
    let data = datagram(&[frame(None, vec![0x15, 0])]);
    match p.handle_recv(player, &data, bind(), listen(), &None) {
        RecvOutcome::FromPlayer(a) => assert!(a.forward && a.disconnect),
        _ => panic!("expected the session to handle it"),
    }
    assert_eq!(p.clients[0].close_cause, Some(DisconnectCause::Normal));
    let closed = p.close_session(player).unwrap();
    assert!(closed.was_connected);
    assert_eq!(closed.cause.unwrap().to_str(), "normal");
    assert!(p.clients.is_empty());
    assert_eq!(p.backend.records[0].load_score, 0);
    assert!(p.connected_players(p.backend.records[0].uid).is_empty());
    assert!(p.close_session(player).is_none());
}

#[test]
fn first_close_cause_wins() {
    let (mut p, _s, player) = connected_proxy();
    assert!(p.request_close(player, DisconnectCause::Server));
    assert!(!p.request_close(player, DisconnectCause::Unknown));
    assert_eq!(p.clients[0].close_cause, Some(DisconnectCause::Server));
}

#[test]
fn rehandshake_asks_old_session_to_close() {
    let s = v4(10, 0, 0, 1, 19132);
    let player = v4(192, 168, 1, 10, 6000);
    let mut p = proxy(LoadBalanceMethod::RoundRobin, &[s], false);
    assert!(matches!(p.handle_recv(player, &ocr1(), bind(), listen(), &None), RecvOutcome::Opened(_)));
    assert!(matches!(p.handle_recv(player, &vec![0x07, 1], bind(), listen(), &None), RecvOutcome::ToServer(a) if a == s));
    assert!(matches!(p.handle_recv(player, &ocr1(), bind(), listen(), &None), RecvOutcome::MustReplace));
    assert_eq!(p.clients.len(), 1);
    assert_eq!(p.clients[0].close_cause, Some(DisconnectCause::Unknown));
    p.close_session(player).unwrap();
    assert!(matches!(p.handle_recv(player, &ocr1(), bind(), listen(), &None), RecvOutcome::Opened(_)));
    assert_eq!(p.backend.records[0].load_score, 1);
}

#[test]
fn duplicate_session_is_refused() {
    let (mut p, _s, player) = connected_proxy();
    let uid = p.backend.records[0].uid;
    assert_eq!(p.open_session(player, uid, ConnectionStage::Handshake, bind()), Err(StateError::DuplicateSession));
    assert_eq!(p.open_session(v4(9, 9, 9, 9, 9), 999, ConnectionStage::Handshake, bind()), Err(StateError::UnknownServer));
}

#[test]
fn spy_finds_disconnect_notification() {
    let data = datagram(&[frame(None, vec![0x15])]);
    assert_eq!(spy_datagram(&data), Ok(SpyDatagramResult::Disconnect));
}

#[test]
fn spy_ignores_fragments_and_game_packets() {
    let data = datagram(&[
        frame(Some(FrameFragment { count: 2, index: 0, id: 1 }), vec![0x15]),
        frame(None, vec![0xFE, 0x15]),
    ]);
    assert_eq!(spy_datagram(&data), Ok(SpyDatagramResult::Ignore));
}

#[test]
fn spy_malformed_datagram_fails_but_is_forwarded() {
    let mut data = datagram(&[frame(None, vec![0x15])]);
    data.truncate(6);
    assert!(spy_datagram(&data).is_err());
    let (mut p, _s, player) = connected_proxy();
    let a = p.handle_incoming_player(player, &data);
    assert!(a.forward && !a.disconnect);
    assert_eq!(p.clients[0].close_cause, None);
}

#[test]
fn server_disconnect_notification() {
    let (mut p, _s, player) = connected_proxy();
    let a = p.handle_incoming_server(player, &datagram(&[frame(None, vec![0x15])]));
    assert!(a.disconnect && a.forward && !a.connected_now);
    assert_eq!(p.clients[0].close_cause, Some(DisconnectCause::Server));
}

fn config() -> RuntimeConfig {
    RuntimeConfig { proxy_bind: "0.0.0.0:0".to_string(), health_check_rate: 10, motd_refresh_rate: 5 }
}

#[test]
fn snapshot_round_trip() {
    let (p, s, player) = connected_proxy();
    let now = Timestamp { secs: 1000, nanos: 0 };
    let snap = p.take_snapshot(config(), listen(), now);
    assert_eq!(snap.clients.len(), 1);
    assert_eq!(snap.clients[0].addr, player);
    assert_eq!(snap.clients[0].server_addr, s);
    let mut restarted = proxy(LoadBalanceMethod::RoundRobin, &[s], false);
    assert_eq!(restarted.recover_from_snapshot(&snap), 1);
    assert_eq!(restarted.clients.len(), 1);
    assert_eq!(restarted.clients[0].addr, player);
    assert_eq!(restarted.clients[0].stage, ConnectionStage::Connected);
    assert_eq!(restarted.clients[0].proxy_server_bind, bind());
    assert_eq!(restarted.backend.records[0].load_score, 1);
    assert_eq!(restarted.backend.records.len(), 1);
    assert_eq!(restarted.connected_players(restarted.backend.records[0].uid), vec![player]);
}

#[test]
fn snapshot_recovers_stale_server() {
    let (p, s, player) = connected_proxy();
    let snap = p.take_snapshot(config(), listen(), Timestamp { secs: 1, nanos: 0 });
    let other = v4(10, 0, 0, 2, 19132);
    let mut restarted = proxy(LoadBalanceMethod::RoundRobin, &[other], false);
    restarted.recover_from_snapshot(&snap);
    assert_eq!(restarted.backend.records.len(), 2);
    assert_eq!(restarted.backend.records[1].addr, s);
    assert!(!restarted.backend.records[1].active);
    assert_eq!(restarted.backend.records[1].load_score, 1);
    assert_eq!(restarted.backend.active_servers().len(), 1);
    restarted.close_session(player).unwrap();
    restarted.forget_unused_stale();
    assert_eq!(restarted.backend.records.len(), 1);
}

#[test]
fn snapshot_skips_handshake_sessions() {
    let s = v4(10, 0, 0, 1, 19132);
    let mut p = proxy(LoadBalanceMethod::RoundRobin, &[s], false);
    p.handle_recv(v4(1, 1, 1, 1, 1), &ocr1(), bind(), listen(), &None);
    let snap = p.take_snapshot(config(), listen(), Timestamp { secs: 1, nanos: 0 });
    assert!(snap.clients.is_empty());
}

#[test]
fn snapshot_expiry() {
    let snap = RaknetProxySnapshot {
        taken_at: Timestamp { secs: 100, nanos: 500 },
        config: config(),
        player_proxy_bind: listen(),
        clients: Vec::new(),
    };
    assert!(!snap.has_expired(Timestamp { secs: 109, nanos: 999_999_999 }));
    assert!(snap.has_expired(Timestamp { secs: 110, nanos: 500 }));
    assert!(snap.has_expired(Timestamp { secs: 99, nanos: 0 }));
    assert_eq!(effective_rate(0), 1);
    assert_eq!(effective_rate(7), 7);
}

#[test]
fn reload_keeps_sessions_and_marks_removed_servers_stale() {
    let (mut p, s, player) = connected_proxy();
    let other = v4(10, 0, 0, 2, 19132);
    let entries = vec![
        ServerEntry { addr: Some(other), proxy_protocol: Some(true) },
        ServerEntry { addr: None, proxy_protocol: None },
        ServerEntry { addr: Some(other), proxy_protocol: Some(false) },
    ];
    let src = MotdSource { addr: v4(1, 2, 3, 4, 19132), proxy_protocol: false };
    let r = p.reload_backend(&entries, false, Some(src), LoadBalanceMethod::LeastConnected, true);
    assert_eq!(r.server_count, 1);
    assert_eq!(r.new_count, 1);
    assert_eq!(r.removed_count, 1);
    assert!(r.reload);
    assert_eq!(p.backend.records.len(), 2);
    assert_eq!(p.backend.records[0].addr, s);
    assert!(!p.backend.records[0].active);
    assert_eq!(p.backend.records[0].load_score, 1);
    assert!(p.backend.records[1].active && p.backend.records[1].proxy_protocol);
    assert_eq!(p.clients[0].addr, player);
    assert_eq!(p.balancer.get_method(), LoadBalanceMethod::LeastConnected);
    assert_eq!(p.backend.motd_sources_or_default(), vec![src]);
    assert_eq!(p.backend.get_server(s), None);
    assert_eq!(p.backend.known_lookup(s), Some(0));
}

#[test]
fn health_probe_updates_server() {
    let (mut p, _s, _player) = connected_proxy();
    let uid = p.backend.records[0].uid;
    p.record_probe(uid, true);
    assert!(p.backend.records[0].health.alive);
    let sources = p.backend.motd_sources_or_default();
    assert_eq!(sources.len(), 1);
    assert_eq!(sources[0].addr, p.backend.records[0].addr);
}

#[test]
fn close_latch_lets_one_waiter_through() {
    let mut g = trakt::session::CloseLatch::new();
    assert!(!g.pass());
    assert!(g.release());
    assert!(g.pass());
    assert!(!g.pass());
    assert!(!g.release());
    assert!(!g.pass());
}

#[test]
fn least_connected_placement_follows_loads() {
    let s1 = v4(10, 0, 0, 1, 19132);
    let s2 = v4(10, 0, 0, 2, 19132);
    let mut p = proxy(LoadBalanceMethod::LeastConnected, &[s1, s2], false);
    let mut placed = Vec::new();
    for k in 0..3u8 {
        match p.handle_recv(v4(192, 168, 0, k + 1, 5000), &ocr1(), bind(), listen(), &None) {
            RecvOutcome::Opened(pl) => placed.push(pl.server_addr),
            _ => panic!("expected a session"),
        }
    }
    assert_eq!(placed, vec![s1, s2, s1]);
}
