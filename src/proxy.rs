//! The proxy's state: the backend, the balancer and the session table.
use vstd::prelude::*;

use crate::backend::{
    records_kept, active, configured, has_active_addr, has_uid, lemma_active_in, with_load, with_probe,
    BackendLoadResult,
    BackendState, MotdSource, ServerEntry,
};
use crate::balancer::{
    lemma_next_eligible, next_result, DefaultLoadBalancer, LoadBalanceAlgorithm, LoadBalanceMethod,
};
use crate::haproxy::{header_addresses_of, header_bytes, proxy_header};
use crate::session::{
    has_client, lemma_connected_of, lemma_sessions_bound, lemma_sessions_positive, lemma_sessions_remove, lemma_sessions_update, sessions_on,
    unique_addrs, connected_of, ClosedSession, ConnectionStage, DisconnectCause, RaknetClient,
    StateError,
};
use crate::message::{
    i64_bytes, message_of, MessageError, MessageUnconnectedPing, MessageUnconnectedPong,
    RaknetMessage,
};
use crate::motd::{advertised, payload_of, pong_payload, Motd, MotdV};
use crate::server::{BackendServer, ServerHealth};
use crate::snapshot::{RaknetClientSnapshot, RaknetProxySnapshot, RuntimeConfig, Timestamp};
use crate::wire::{magic, str_bytes, ReadBuf};
use vstd::string::StrSliceExecFns;
use vstd::utf8::encode_utf8;
use crate::spy::{spy_datagram, spy_spec, SpyDatagramResult};
use crate::wire::SockAddr;

verus! {

/// Index of a session of `a` in `cs` (the only one, in a well formed table).
pub open spec fn index_of(cs: Seq<RaknetClient>, a: SockAddr) -> int {
    choose|i: int| 0 <= i < cs.len() && #[trigger] cs[i].addr == a
}

/// The table after asking the session of `addr` to close with `cause`: only the first cause
/// asked for is kept.
pub open spec fn close_requested(cs: Seq<RaknetClient>, addr: SockAddr, cause: DisconnectCause) -> Seq<
    RaknetClient,
> {
    if exists|j: int| 0 <= j < cs.len() && #[trigger] cs[j].addr == addr && cs[j].close_cause is None {
        let j = index_of(cs, addr);
        cs.update(j, RaknetClient { close_cause: Some(cause), ..cs[j] })
    } else {
        cs
    }
}

/// The table after the session of `addr`, if in handshake, became connected.
pub open spec fn connected_marked(cs: Seq<RaknetClient>, addr: SockAddr) -> Seq<RaknetClient> {
    if exists|j: int|
        0 <= j < cs.len() && #[trigger] cs[j].addr == addr && cs[j].stage
            == ConnectionStage::Handshake {
        let j = index_of(cs, addr);
        cs.update(j, RaknetClient { stage: ConnectionStage::Connected, ..cs[j] })
    } else {
        cs
    }
}

/// The session of `a` in `cs`, if any.
pub open spec fn client_of(cs: Seq<RaknetClient>, a: SockAddr) -> Option<RaknetClient> {
    if has_client(cs, a) {
        Some(cs[choose|i: int| 0 <= i < cs.len() && #[trigger] cs[i].addr == a])
    } else {
        None
    }
}

/// Where a new session was placed.
#[derive(Clone, Debug)]
pub struct Placement {
    pub server_uid: u64,
    pub server_addr: SockAddr,
    /// The PROXY header to send to the server before anything else, when it asks for one.
    pub preamble: Option<Vec<u8>>,
}

/// Failure to place a new session.
#[derive(Clone, Copy, Debug, PartialEq, Eq, Structural)]
pub enum PlaceError {
    /// The balancer has no server to offer.
    NoServer,
    /// The session could not enter the table.
    State(StateError),
}

/// What placing a session for `addr` does, from `old` to `new`. The balancer picks a server;
/// a session in handshake on it enters the table unless `addr` already has one or the table is
/// full; the server's load grows by one; the PROXY header comes along when the server asks
/// for one.
pub open spec fn placed(
    old: RaknetProxyServer,
    new: RaknetProxyServer,
    addr: SockAddr,
    proxy_bind: SockAddr,
    listen: SockAddr,
    r: Result<Placement, PlaceError>,
) -> bool {
    let srv = active(old.backend.records@);
    &&& new.server_uuid == old.server_uuid
    &&& new.in_bound_port == old.in_bound_port
    &&& match r {
        Ok(p) => exists|i: int|
            #![trigger srv[i]]
            0 <= i < srv.len() && next_result(
                old.balancer.algo,
                srv,
                Some(i as usize),
                new.balancer.algo,
            ) && p.server_uid == srv[i].uid && p.server_addr == srv[i].addr && !has_client(
                old.clients@,
                addr,
            ) && old.clients@.len() < usize::MAX - 1 && new.clients@ == old.clients@.push(
                RaknetClient {
                    addr,
                    server_uid: p.server_uid,
                    stage: ConnectionStage::Handshake,
                    proxy_server_bind: proxy_bind,
                    close_cause: None,
                },
            ) && new.backend.next_uid == old.backend.next_uid && new.backend.motd_sources
                == old.backend.motd_sources && new.backend.records@.len()
                == old.backend.records@.len() && (forall|k: int|
                0 <= k < old.backend.records@.len() ==> #[trigger] new.backend.records@[k]
                    == with_load(old.backend.records@[k], p.server_uid, 1)) && if srv[i].proxy_protocol {
                p.preamble matches Some(h) && h@ == header_bytes(header_addresses_of(addr, listen))
            } else {
                p.preamble is None
            },
        Err(PlaceError::NoServer) => next_result(
            old.balancer.algo,
            srv,
            None,
            new.balancer.algo,
        ) && new.clients@ == old.clients@ && new.backend == old.backend,
        Err(PlaceError::State(e)) => (exists|i: int|
            #![trigger srv[i]]
            0 <= i < srv.len() && next_result(
                old.balancer.algo,
                srv,
                Some(i as usize),
                new.balancer.algo,
            )) && new.clients@ == old.clients@ && new.backend == old.backend && if has_client(
            old.clients@,
            addr,
        ) {
            e == StateError::DuplicateSession
        } else {
            e == StateError::TableFull && old.clients@.len() >= usize::MAX - 1
        },
    }
}

/// What the proxy does with a datagram that reached its socket.
#[derive(Clone, Debug)]
pub enum RecvOutcome {
    /// Nothing.
    Ignored,
    /// Reply with this pong to the sender.
    Pong(Vec<u8>),
    /// The ping could not be read or answered.
    PingFailed(MessageError),
    /// For the connected session of the sender; forward to its server if `forward`.
    FromPlayer(PlayerAction),
    /// A session opened: send the preamble if any, then forward the datagram to the server.
    Opened(Placement),
    /// No session could be opened.
    NotPlaced(PlaceError),
    /// The sender's old session was asked to close; once it is gone, hand the datagram in again.
    MustReplace,
    /// Forward the datagram to the server of the sender's session.
    ToServer(SockAddr),
}

/// What a datagram from a player of a connected session leads to.
#[derive(Clone, Copy, Debug, PartialEq, Eq, Structural)]
pub struct PlayerAction {
    /// Whether the datagram goes on to the server.
    pub forward: bool,
    /// Whether it held a disconnect notification, so that the session closes.
    pub disconnect: bool,
}

/// What a datagram from a server leads to.
#[derive(Clone, Copy, Debug, PartialEq, Eq, Structural)]
pub struct ServerAction {
    /// Whether the datagram goes on to the player.
    pub forward: bool,
    /// Whether the session became connected with it.
    pub connected_now: bool,
    /// Whether it held a disconnect notification, so that the session closes.
    pub disconnect: bool,
}

/// Whether a datagram from a player holds a disconnect notification: it is a frame set (high
/// bit of the first byte set) and its frames hold one.
pub open spec fn player_disconnects(d: Seq<u8>) -> bool {
    d.len() > 0 && d[0] >= 0x80 && spy_spec(d) == Ok::<SpyDatagramResult, MessageError>(
        SpyDatagramResult::Disconnect,
    )
}

/// The text of the pong payload: the cached MOTD as advertised, or nothing.
pub open spec fn pong_text(motd: Option<Motd>, server_uuid: i64, port: u16) -> Seq<char> {
    match motd {
        Some(m) => payload_of(advertised(m@, server_uuid, port)),
        None => Seq::empty(),
    }
}

/// The reply to an unconnected ping whose body (after the identifier byte) is `body`.
pub open spec fn pong_reply(body: Seq<u8>, text: Seq<char>, server_uuid: i64) -> Result<
    Seq<u8>,
    MessageError,
> {
    match MessageUnconnectedPing::parse(body) {
        Err(e) => Err(e),
        Ok((ping, _)) => if encode_utf8(text).len() <= 0xFFFF {
            Ok(
                seq![0x1cu8] + i64_bytes(ping.forward_timestamp) + i64_bytes(server_uuid) + magic()
                    + str_bytes(text),
            )
        } else {
            Err(MessageError::StringTooLong)
        },
    }
}

/// The record of the known server `uid` in `recs`.
pub open spec fn record_of(recs: Seq<BackendServer>, uid: u64) -> BackendServer {
    recs[choose|k: int| 0 <= k < recs.len() && #[trigger] recs[k].uid == uid]
}

/// Snapshot records of the connected sessions of `cs`, in table order.
pub open spec fn snapshot_records(cs: Seq<RaknetClient>, recs: Seq<BackendServer>) -> Seq<
    RaknetClientSnapshot,
>
    decreases cs.len(),
{
    if cs.len() == 0 {
        Seq::empty()
    } else {
        let rest = snapshot_records(cs.drop_last(), recs);
        let c = cs.last();
        if c.stage == ConnectionStage::Connected {
            let s = record_of(recs, c.server_uid);
            rest.push(
                RaknetClientSnapshot {
                    addr: c.addr,
                    server_addr: s.addr,
                    server_proxy_protocol: s.proxy_protocol,
                    proxy_server_bind: c.proxy_server_bind,
                },
            )
        } else {
            rest
        }
    }
}

/// How a datagram that reaches the proxy's socket is dispatched.
#[derive(Clone, Copy, Debug, PartialEq, Eq, Structural)]
pub enum RecvKind {
    /// Empty, or of an unknown type with no connected session: dropped.
    Ignore,
    /// An unconnected ping, answered from the MOTD cache.
    Ping,
    /// For the connected session of the sender.
    Player,
    /// An offline message from a sender without a session: a session opens.
    Open,
    /// A first open connection request from a sender that has a session: the old session must
    /// close first.
    Replace,
    /// Another offline message of a session in handshake: forwarded to its server.
    Forward,
}

pub open spec fn recv_kind(d: Seq<u8>, client: Option<RaknetClient>) -> RecvKind {
    if d.len() == 0 {
        RecvKind::Ignore
    } else {
        let t = message_of(d[0]);
        if t == Some(RaknetMessage::UnconnectedPing) || t == Some(
            RaknetMessage::UnconnectedPingOpenConnections,
        ) {
            RecvKind::Ping
        } else if client matches Some(c) && c.stage == ConnectionStage::Connected {
            RecvKind::Player
        } else if t is Some {
            match client {
                None => RecvKind::Open,
                Some(_) => if t == Some(RaknetMessage::OpenConnectionRequest1) {
                    RecvKind::Replace
                } else {
                    RecvKind::Forward
                },
            }
        } else {
            RecvKind::Ignore
        }
    }
}

/// State of a RakNet proxy server.
pub struct RaknetProxyServer {
    /// The backend that players are routed to.
    pub backend: BackendState,
    /// Load balancer of the backend.
    pub balancer: DefaultLoadBalancer,
    /// Sessions, one per player address.
    pub clients: Vec<RaknetClient>,
    /// Random identifier that pong replies advertise.
    pub server_uuid: i64,
    /// Port of the socket that players reach the proxy on.
    pub in_bound_port: u16,
}

/// The session table agrees with the backend: one session per address, none closed, each on
/// a known server, and each server's load counts the sessions on it.
pub open spec fn table_ok(b: BackendState, cs: Seq<RaknetClient>) -> bool {
    &&& b.wf()
    &&& unique_addrs(cs)
    &&& forall|i: int|
        0 <= i < cs.len() ==> (#[trigger] cs[i]).stage != ConnectionStage::Closed && has_uid(
            b.records@,
            cs[i].server_uid,
        )
    &&& forall|k: int|
        0 <= k < b.records@.len() ==> (#[trigger] b.records@[k]).load_score == sessions_on(
            cs,
            b.records@[k].uid,
        )
}

impl RaknetProxyServer {
    pub open spec fn wf(&self) -> bool {
        table_ok(self.backend, self.clients@)
    }

    /// A proxy with no server and no session.
    pub fn new(balancer: DefaultLoadBalancer, server_uuid: i64, in_bound_port: u16) -> (r: Self)
        ensures
            r.wf(),
            r.clients@.len() == 0,
            r.backend.records@.len() == 0,
            r.balancer == balancer,
            r.server_uuid == server_uuid,
            r.in_bound_port == in_bound_port,
    {
        RaknetProxyServer {
            backend: BackendState::new(),
            balancer,
            clients: Vec::new(),
            server_uuid,
            in_bound_port,
        }
    }

    /// Index of the session of `addr`, if any.
    pub fn find_client(&self, addr: SockAddr) -> (r: Option<usize>)
        ensures
            match r {
                Some(i) => i < self.clients@.len() && self.clients@[i as int].addr == addr,
                None => !has_client(self.clients@, addr),
            },
    {
        let mut i: usize = 0;
        while i < self.clients.len()
            invariant
                i <= self.clients@.len(),
                forall|j: int| 0 <= j < i ==> self.clients@[j].addr != addr,
            decreases self.clients@.len() - i,
        {
            if self.clients[i].addr == addr {
                return Some(i);
            }
            i = i + 1;
        }
        None
    }

    /// Opens a session for `addr` on the known server `server_uid`, and counts it in the
    /// server's load.
    pub fn open_session(
        &mut self,
        addr: SockAddr,
        server_uid: u64,
        stage: ConnectionStage,
        proxy_server_bind: SockAddr,
    ) -> (r: Result<(), StateError>)
        requires
            old(self).wf(),
            stage != ConnectionStage::Closed,
        ensures
            final(self).wf(),
            final(self).balancer == old(self).balancer,
            final(self).server_uuid == old(self).server_uuid,
            final(self).in_bound_port == old(self).in_bound_port,
            has_client(old(self).clients@, addr) <==> r == Err::<(), StateError>(
                StateError::DuplicateSession,
            ),
            (!has_client(old(self).clients@, addr) && !has_uid(old(self).backend.records@, server_uid))
                <==> r == Err::<(), StateError>(StateError::UnknownServer),
            r is Ok <==> (!has_client(old(self).clients@, addr) && has_uid(
                old(self).backend.records@,
                server_uid,
            ) && old(self).clients@.len() < usize::MAX - 1),
            r is Err ==> final(self).clients@ == old(self).clients@ && final(self).backend
                == old(self).backend,
            final(self).backend.next_uid == old(self).backend.next_uid,
            final(self).backend.motd_sources == old(self).backend.motd_sources,
            r is Ok ==> {
                &&& final(self).clients@ == old(self).clients@.push(
                    RaknetClient {
                        addr,
                        server_uid,
                        stage,
                        proxy_server_bind,
                        close_cause: None,
                    },
                )
                &&& final(self).backend.records@.len() == old(self).backend.records@.len()
                &&& forall|k: int|
                    0 <= k < old(self).backend.records@.len() ==> #[trigger] final(
                        self).backend.records@[k] == with_load(
                        old(self).backend.records@[k],
                        server_uid,
                        1,
                    )
            },
    {
        if self.find_client(addr).is_some() {
            return Err(StateError::DuplicateSession);
        }
        if self.backend.find(server_uid).is_none() {
            return Err(StateError::UnknownServer);
        }
        if self.clients.len() >= usize::MAX - 1 {
            return Err(StateError::TableFull);
        }
        let client = RaknetClient {
            addr,
            server_uid,
            stage,
            proxy_server_bind,
            close_cause: None,
        };
        let ghost old_cs = self.clients@;
        let ghost old_recs = self.backend.records@;
        self.clients.push(client);
        self.backend.modify_load(server_uid, 1);
        proof {
            let cs = self.clients@;
            assert(cs.drop_last() =~= old_cs);
            assert forall|k: int| 0 <= k < self.backend.records@.len() implies (
            #[trigger] self.backend.records@[k]).load_score == sessions_on(
                cs,
                self.backend.records@[k].uid,
            ) by {
                lemma_sessions_bound(old_cs, old_recs[k].uid);
            }
            assert forall|i: int, j: int| 0 <= i < j < cs.len() implies #[trigger] cs[i].addr
                != #[trigger] cs[j].addr by {
                if j == cs.len() - 1 {
                    assert(cs[i] == old_cs[i]);
                } else {
                    assert(cs[i] == old_cs[i] && cs[j] == old_cs[j]);
                }
            }
            assert forall|i: int| 0 <= i < cs.len() implies (#[trigger] cs[i]).stage
                != ConnectionStage::Closed && has_uid(self.backend.records@, cs[i].server_uid) by {
                let u = cs[i].server_uid;
                let k = choose|k: int| 0 <= k < old_recs.len() && #[trigger] old_recs[k].uid == u;
                assert(self.backend.records@[k].uid == u);
            }
        }
        Ok(())
    }

    /// Removes the session of `addr`, and takes it out of its server's load.
    pub fn close_session(&mut self, addr: SockAddr) -> (r: Option<ClosedSession>)
        requires
            old(self).wf(),
        ensures
            final(self).wf(),
            final(self).balancer == old(self).balancer,
            final(self).server_uuid == old(self).server_uuid,
            final(self).in_bound_port == old(self).in_bound_port,
            !has_client(final(self).clients@, addr),
            r is Some <==> has_client(old(self).clients@, addr),
            r is None ==> final(self).clients@ == old(self).clients@ && final(self).backend
                == old(self).backend,
            r matches Some(c) ==> exists|j: int|
                0 <= j < old(self).clients@.len() && #[trigger] old(self).clients@[j].addr == addr
                    && final(self).clients@ == old(self).clients@.remove(j) && c == (ClosedSession {
                    server_uid: old(self).clients@[j].server_uid,
                    was_connected: old(self).clients@[j].stage == ConnectionStage::Connected,
                    cause: old(self).clients@[j].close_cause,
                }) && final(self).backend.records@.len() == old(self).backend.records@.len()
                    && forall|k: int|
                    0 <= k < old(self).backend.records@.len() ==> #[trigger] final(
                        self).backend.records@[k] == with_load(
                        old(self).backend.records@[k],
                        c.server_uid,
                        -1isize,
                    ),
    {
        let j = match self.find_client(addr) {
            Some(j) => j,
            None => {
                return None;
            },
        };
        let ghost old_cs = self.clients@;
        let ghost old_recs = self.backend.records@;
        let client = self.clients.remove(j);
        self.backend.modify_load(client.server_uid, -1);
        proof {
            let cs = self.clients@;
            assert forall|k: int| 0 <= k < self.backend.records@.len() implies (
            #[trigger] self.backend.records@[k]).load_score == sessions_on(
                cs,
                self.backend.records@[k].uid,
            ) by {
                lemma_sessions_remove(old_cs, j as int, old_recs[k].uid);
            }
            assert forall|i: int, l: int| 0 <= i < l < cs.len() implies #[trigger] cs[i].addr
                != #[trigger] cs[l].addr by {
                let i2 = if i < j { i } else { i + 1 };
                let l2 = if l < j { l } else { l + 1 };
                assert(cs[i] == old_cs[i2] && cs[l] == old_cs[l2]);
            }
            assert forall|i: int| 0 <= i < cs.len() implies (#[trigger] cs[i]).stage
                != ConnectionStage::Closed && has_uid(self.backend.records@, cs[i].server_uid) by {
                let i2 = if i < j { i } else { i + 1 };
                assert(cs[i] == old_cs[i2]);
                let u = cs[i].server_uid;
                let k = choose|k: int| 0 <= k < old_recs.len() && #[trigger] old_recs[k].uid == u;
                assert(self.backend.records@[k].uid == u);
            }
            assert(!has_client(cs, addr)) by {
                if has_client(cs, addr) {
                    let i = choose|i: int| 0 <= i < cs.len() && #[trigger] cs[i].addr == addr;
                    let i2 = if i < j { i } else { i + 1 };
                    assert(cs[i] == old_cs[i2]);
                }
            }
        }
        Some(
            ClosedSession {
                server_uid: client.server_uid,
                was_connected: client.stage == ConnectionStage::Connected,
                cause: client.close_cause,
            },
        )
    }

    /// Moves the session of `addr` from the handshake to the connected stage. Returns whether
    /// it did.
    pub fn mark_connected(&mut self, addr: SockAddr) -> (r: bool)
        requires
            old(self).wf(),
        ensures
            final(self).wf(),
            final(self).backend == old(self).backend,
            final(self).balancer == old(self).balancer,
            final(self).server_uuid == old(self).server_uuid,
            final(self).in_bound_port == old(self).in_bound_port,
            r <==> exists|j: int|
                0 <= j < old(self).clients@.len() && #[trigger] old(self).clients@[j].addr == addr
                    && old(self).clients@[j].stage == ConnectionStage::Handshake,
            final(self).clients@ == connected_marked(old(self).clients@, addr),
    {
        let j = match self.find_client(addr) {
            Some(j) => j,
            None => {
                return false;
            },
        };
        let c = self.clients[j];
        if c.stage != ConnectionStage::Handshake {
            proof {
                assert forall|i: int| 0 <= i < self.clients@.len() && #[trigger] self.clients@[i].addr == addr
                    implies self.clients@[i].stage != ConnectionStage::Handshake by {
                    if i != j {
                        assert(self.clients@[i].addr != self.clients@[j as int].addr);
                    }
                }
            }
            return false;
        }
        let ghost old_cs = self.clients@;
        proof {
            let k = index_of(old_cs, addr);
            if k != j {
                assert(old_cs[k].addr != old_cs[j as int].addr);
            }
        }
        self.clients.set(j, RaknetClient { stage: ConnectionStage::Connected, ..c });
        proof {
            let cs = self.clients@;
            assert forall|k: int| 0 <= k < self.backend.records@.len() implies (
            #[trigger] self.backend.records@[k]).load_score == sessions_on(
                cs,
                self.backend.records@[k].uid,
            ) by {
                lemma_sessions_update(old_cs, j as int, cs[j as int], self.backend.records@[k].uid);
            }
            assert forall|i: int, l: int| 0 <= i < l < cs.len() implies #[trigger] cs[i].addr
                != #[trigger] cs[l].addr by {
                assert(cs[i].addr == old_cs[i].addr && cs[l].addr == old_cs[l].addr);
            }
            assert forall|i: int| 0 <= i < cs.len() implies (#[trigger] cs[i]).stage
                != ConnectionStage::Closed && has_uid(self.backend.records@, cs[i].server_uid) by {
                assert(cs[i].server_uid == old_cs[i].server_uid);
                assert(old_cs[i].stage != ConnectionStage::Closed);
            }
        }
        true
    }

    /// Asks the session of `addr` to close with `cause`; only the first cause asked for is
    /// kept. Returns whether this cause was kept.
    pub fn request_close(&mut self, addr: SockAddr, cause: DisconnectCause) -> (r: bool)
        requires
            old(self).wf(),
        ensures
            final(self).wf(),
            final(self).backend == old(self).backend,
            final(self).balancer == old(self).balancer,
            final(self).server_uuid == old(self).server_uuid,
            final(self).in_bound_port == old(self).in_bound_port,
            r <==> exists|j: int|
                0 <= j < old(self).clients@.len() && #[trigger] old(self).clients@[j].addr == addr
                    && old(self).clients@[j].close_cause is None,
            final(self).clients@ == close_requested(old(self).clients@, addr, cause),
    {
        let j = match self.find_client(addr) {
            Some(j) => j,
            None => {
                return false;
            },
        };
        let c = self.clients[j];
        if c.close_cause.is_some() {
            proof {
                assert forall|i: int| 0 <= i < self.clients@.len() && #[trigger] self.clients@[i].addr == addr
                    implies !(self.clients@[i].close_cause is None) by {
                    if i != j {
                        assert(self.clients@[i].addr != self.clients@[j as int].addr);
                    }
                }
            }
            return false;
        }
        let ghost old_cs = self.clients@;
        proof {
            let k = index_of(old_cs, addr);
            if k != j {
                assert(old_cs[k].addr != old_cs[j as int].addr);
            }
        }
        self.clients.set(j, RaknetClient { close_cause: Some(cause), ..c });
        proof {
            let cs = self.clients@;
            assert forall|k: int| 0 <= k < self.backend.records@.len() implies (
            #[trigger] self.backend.records@[k]).load_score == sessions_on(
                cs,
                self.backend.records@[k].uid,
            ) by {
                lemma_sessions_update(old_cs, j as int, cs[j as int], self.backend.records@[k].uid);
            }
            assert forall|i: int, l: int| 0 <= i < l < cs.len() implies #[trigger] cs[i].addr
                != #[trigger] cs[l].addr by {
                assert(cs[i].addr == old_cs[i].addr && cs[l].addr == old_cs[l].addr);
            }
            assert forall|i: int| 0 <= i < cs.len() implies (#[trigger] cs[i]).stage
                != ConnectionStage::Closed && has_uid(self.backend.records@, cs[i].server_uid) by {
                assert(cs[i].server_uid == old_cs[i].server_uid);
                assert(old_cs[i].stage != ConnectionStage::Closed);
            }
        }
        true
    }

    /// Addresses of the players connected to the server `uid`.
    pub fn connected_players(&self, uid: u64) -> (r: Vec<SockAddr>)
        ensures
            r@ == connected_of(self.clients@, uid),
    {
        let mut r: Vec<SockAddr> = Vec::new();
        let mut i: usize = 0;
        while i < self.clients.len()
            invariant
                i <= self.clients@.len(),
                r@ == connected_of(self.clients@.take(i as int), uid),
            decreases self.clients@.len() - i,
        {
            assert(self.clients@.take(i + 1).drop_last() =~= self.clients@.take(i as int));
            let c = self.clients[i];
            if c.server_uid == uid && c.stage == ConnectionStage::Connected {
                r.push(c.addr);
            }
            i = i + 1;
        }
        assert(self.clients@.take(i as int) =~= self.clients@);
        r
    }
}

/// Asking a session to close adds no session and removes none: the table keeps its addresses
/// until the old session is torn down, so a replacing session cannot appear before.
pub proof fn lemma_close_request_keeps_table(cs: Seq<RaknetClient>, a: SockAddr, cause: DisconnectCause)
    ensures
        close_requested(cs, a, cause).len() == cs.len(),
        forall|i: int|
            0 <= i < cs.len() ==> #[trigger] close_requested(cs, a, cause)[i].addr == cs[i].addr
                && close_requested(cs, a, cause)[i].stage == cs[i].stage
                && close_requested(cs, a, cause)[i].server_uid == cs[i].server_uid,
{
}

/// Whether `c` is a connected session recovered from a record of `snap`: same player and
/// local address, on a known server with the recorded address.
pub open spec fn recovered_from(
    c: RaknetClient,
    snap: Seq<RaknetClientSnapshot>,
    recs: Seq<BackendServer>,
) -> bool {
    &&& c.stage == ConnectionStage::Connected
    &&& exists|i: int, k: int|
        #![trigger snap[i], recs[k]]
        0 <= i < snap.len() && 0 <= k < recs.len() && snap[i].addr == c.addr
            && snap[i].proxy_server_bind == c.proxy_server_bind && recs[k].uid == c.server_uid
            && recs[k].addr == snap[i].server_addr && (recs[k].active || !has_active_addr(
            recs,
            snap[i].server_addr,
        ))
}

/// The records after a recovery: those of `old` keep everything but their load; those added
/// are stale, carry the PROXY protocol setting of a snapshot record for their address, and no
/// earlier record has their address (one stale record per address, shared by its sessions).
pub open spec fn recovered_records(
    old: Seq<BackendServer>,
    new: Seq<BackendServer>,
    snap: Seq<RaknetClientSnapshot>,
) -> bool {
    &&& old.len() <= new.len()
    &&& forall|k: int|
        0 <= k < old.len() ==> #[trigger] new[k].uid == old[k].uid && new[k].addr == old[k].addr
            && new[k].active == old[k].active && new[k].proxy_protocol == old[k].proxy_protocol
            && new[k].health == old[k].health
    &&& forall|k: int|
        old.len() <= k < new.len() ==> !(#[trigger] new[k]).active && new[k].health
            == ServerHealth::new_spec() && (exists|i: int|
            0 <= i < snap.len() && #[trigger] snap[i].server_addr == new[k].addr
                && snap[i].server_proxy_protocol == new[k].proxy_protocol) && forall|k2: int|
            0 <= k2 < k ==> new[k2].addr != new[k].addr
}

proof fn lemma_recovered_stable(
    cs: Seq<RaknetClient>,
    n0: int,
    snap: Seq<RaknetClientSnapshot>,
    recs: Seq<BackendServer>,
    recs2: Seq<BackendServer>,
)
    requires
        recs.len() <= recs2.len(),
        forall|k: int|
            0 <= k < recs.len() ==> #[trigger] recs2[k].uid == recs[k].uid && recs2[k].addr
                == recs[k].addr,
        forall|k: int| 0 <= k < recs.len() ==> #[trigger] recs2[k].active == recs[k].active,
        forall|k: int| recs.len() <= k < recs2.len() ==> !(#[trigger] recs2[k]).active,
        forall|j: int| n0 <= j < cs.len() ==> recovered_from(#[trigger] cs[j], snap, recs),
    ensures
        forall|j: int| n0 <= j < cs.len() ==> recovered_from(#[trigger] cs[j], snap, recs2),
{
    assert forall|j: int| n0 <= j < cs.len() implies recovered_from(#[trigger] cs[j], snap, recs2) by {
        let (i, k) = choose|i: int, k: int|
            #![trigger snap[i], recs[k]]
            0 <= i < snap.len() && 0 <= k < recs.len() && snap[i].addr == cs[j].addr
                && snap[i].proxy_server_bind == cs[j].proxy_server_bind && recs[k].uid
                == cs[j].server_uid && recs[k].addr == snap[i].server_addr && (recs[k].active
                || !has_active_addr(recs, snap[i].server_addr));
        assert(recs2[k].uid == recs[k].uid && recs2[k].active == recs[k].active);
        assert forall|k2: int| 0 <= k2 < recs.len() implies #[trigger] recs2[k2].addr == recs[k2].addr
            && recs2[k2].active == recs[k2].active by {
            assert(recs2[k2].uid == recs[k2].uid);
        }
        lemma_active_addr_stable(recs, recs2, snap[i].server_addr);
    }
}

proof fn lemma_active_addr_stable(recs: Seq<BackendServer>, recs2: Seq<BackendServer>, a: SockAddr)
    requires
        recs.len() <= recs2.len(),
        forall|k: int|
            0 <= k < recs.len() ==> #[trigger] recs2[k].addr == recs[k].addr && recs2[k].active
                == recs[k].active,
        forall|k: int| recs.len() <= k < recs2.len() ==> !(#[trigger] recs2[k]).active,
    ensures
        has_active_addr(recs2, a) == has_active_addr(recs, a),
{
    if has_active_addr(recs2, a) {
        let k = choose|k: int| 0 <= k < recs2.len() && #[trigger] recs2[k].addr == a && recs2[k].active;
        assert(recs[k].addr == a);
    }
    if has_active_addr(recs, a) {
        let k = choose|k: int| 0 <= k < recs.len() && #[trigger] recs[k].addr == a && recs[k].active;
        assert(recs2[k].addr == a);
    }
}

proof fn lemma_kept_fresh(old: Seq<BackendServer>, new: Seq<BackendServer>, k: int)
    requires
        records_kept(old, new),
        old.len() <= k < new.len(),
    ensures
        new[k].load_score == 0,
        !has_uid(old, new[k].uid),
{
    let x = new[k];
    assert(x.load_score == 0);
}

/// A pong advertises the cached MOTD with the proxy's identifier and listening port in place
/// of the server's, and keeps a non-empty first line as it is.
pub proof fn lemma_advertised_motd(m: MotdV, server_uuid: i64, port: u16)
    ensures
        advertised(m, server_uuid, port).server_uuid == server_uuid,
        advertised(m, server_uuid, port).port_v4 == port,
        advertised(m, server_uuid, port).port_v6 == port,
        m.line0.len() > 0 ==> advertised(m, server_uuid, port).line0 == m.line0,
        m.line0.len() == 0 ==> advertised(m, server_uuid, port).line0 == seq!['.', '.', '.'],
        advertised(m, server_uuid, port).edition == m.edition,
        advertised(m, server_uuid, port).line1 == m.line1,
        advertised(m, server_uuid, port).version_name == m.version_name,
        advertised(m, server_uuid, port).protocol_version == m.protocol_version,
        advertised(m, server_uuid, port).player_count == m.player_count,
        advertised(m, server_uuid, port).max_player_count == m.max_player_count,
        advertised(m, server_uuid, port).gamemode == m.gamemode,
        advertised(m, server_uuid, port).nintendo_limited == m.nintendo_limited,
{
}

/// No session points at a server that is not known.
pub proof fn lemma_no_sessions(cs: Seq<RaknetClient>, recs: Seq<BackendServer>, uid: u64)
    requires
        forall|i: int| 0 <= i < cs.len() ==> has_uid(recs, #[trigger] cs[i].server_uid),
        !has_uid(recs, uid),
    ensures
        sessions_on(cs, uid) == 0,
    decreases cs.len(),
{
    if cs.len() > 0 {
        let d = cs.drop_last();
        assert forall|i: int| 0 <= i < d.len() implies has_uid(recs, #[trigger] d[i].server_uid) by {
            assert(d[i] == cs[i]);
        }
        lemma_no_sessions(d, recs, uid);
        assert(has_uid(recs, cs[cs.len() - 1].server_uid));
    }
}

/// The table holds at most one session per player address.
pub proof fn lemma_one_session_per_address(p: RaknetProxyServer, a: SockAddr, i: int, j: int)
    requires
        p.wf(),
        0 <= i < p.clients@.len(),
        0 <= j < p.clients@.len(),
        p.clients@[i].addr == a,
        p.clients@[j].addr == a,
    ensures
        i == j,
{
    if i < j {
        assert(p.clients@[i].addr != p.clients@[j].addr);
    } else if j < i {
        assert(p.clients@[j].addr != p.clients@[i].addr);
    }
}

/// For every open session, its server's load is at least 1, and the server's connected
/// players hold the session's address exactly when the session is connected.
pub proof fn lemma_open_session_accounted(p: RaknetProxyServer, i: int)
    requires
        p.wf(),
        0 <= i < p.clients@.len(),
    ensures
        exists|k: int|
            0 <= k < p.backend.records@.len() && #[trigger] p.backend.records@[k].uid
                == p.clients@[i].server_uid && p.backend.records@[k].load_score >= 1,
        connected_of(p.clients@, p.clients@[i].server_uid).contains(p.clients@[i].addr) <==> p.clients@[i].stage
            == ConnectionStage::Connected,
{
    let c = p.clients@[i];
    let k = choose|k: int| 0 <= k < p.backend.records@.len() && #[trigger] p.backend.records@[k].uid == c.server_uid;
    lemma_sessions_positive(p.clients@, i);
    assert(p.backend.records@[k].load_score >= 1);
    lemma_connected_of(p.clients@, c.server_uid, c.addr);
    if connected_of(p.clients@, c.server_uid).contains(c.addr) {
        let j = choose|j: int|
            0 <= j < p.clients@.len() && #[trigger] p.clients@[j].addr == c.addr && p.clients@[j].server_uid
                == c.server_uid && p.clients@[j].stage == ConnectionStage::Connected;
        lemma_one_session_per_address(p, c.addr, i, j);
    }
}

/// A session leaves the table once: after its removal no session is left for its address, so
/// a second close finds nothing and releases no one.
pub proof fn lemma_close_once(cs: Seq<RaknetClient>, j: int)
    requires
        unique_addrs(cs),
        0 <= j < cs.len(),
    ensures
        !has_client(cs.remove(j), cs[j].addr),
        unique_addrs(cs.remove(j)),
{
    let r = cs.remove(j);
    if has_client(r, cs[j].addr) {
        let i = choose|i: int| 0 <= i < r.len() && #[trigger] r[i].addr == cs[j].addr;
        let i2 = if i < j { i } else { i + 1 };
        assert(r[i] == cs[i2]);
    }
    assert forall|a: int, b: int| 0 <= a < b < r.len() implies #[trigger] r[a].addr != #[trigger] r[b].addr by {
        let a2 = if a < j { a } else { a + 1 };
        let b2 = if b < j { b } else { b + 1 };
        assert(r[a] == cs[a2] && r[b] == cs[b2]);
    }
}

impl RaknetProxyServer {
    /// Handles a datagram from the player of a connected session. Every non-empty datagram is
    /// forwarded; a frame set is also spied on, and a disconnect notification in it asks the
    /// session to close normally.
    pub fn handle_incoming_player(&mut self, addr: SockAddr, data: &Vec<u8>) -> (r: PlayerAction)
        requires
            old(self).wf(),
        ensures
            final(self).wf(),
            final(self).backend == old(self).backend,
            final(self).balancer == old(self).balancer,
            final(self).server_uuid == old(self).server_uuid,
            final(self).in_bound_port == old(self).in_bound_port,
            r.forward == (data@.len() > 0),
            r.disconnect == player_disconnects(data@),
            if r.disconnect {
                final(self).clients@ == close_requested(old(self).clients@, addr, DisconnectCause::Normal)
            } else {
                final(self).clients@ == old(self).clients@
            },
    {
        if data.len() == 0 {
            return PlayerAction { forward: false, disconnect: false };
        }
        if data[0] < 0x80 {
            // not a frame set: invalid, but forwarded to keep the session consistent
            return PlayerAction { forward: true, disconnect: false };
        }
        let disconnect = match spy_datagram(data) {
            Ok(SpyDatagramResult::Disconnect) => true,
            _ => false,
        };
        if disconnect {
            let _ = self.request_close(addr, DisconnectCause::Normal);
        }
        PlayerAction { forward: true, disconnect }
    }

    /// Handles a datagram from the server of the session of `addr`. An open connection reply 2
    /// makes a session in handshake connected; every non-empty datagram is forwarded; a
    /// disconnect notification asks the session to close.
    pub fn handle_incoming_server(&mut self, addr: SockAddr, data: &Vec<u8>) -> (r: ServerAction)
        requires
            old(self).wf(),
        ensures
            final(self).wf(),
            final(self).backend == old(self).backend,
            final(self).balancer == old(self).balancer,
            final(self).server_uuid == old(self).server_uuid,
            final(self).in_bound_port == old(self).in_bound_port,
            r.forward == (data@.len() > 0),
            r.disconnect == (data@.len() > 0 && spy_spec(data@) == Ok::<
                SpyDatagramResult,
                MessageError,
            >(SpyDatagramResult::Disconnect)),
            r.connected_now == (data@.len() > 0 && data@[0] == 0x08 && exists|j: int|
                0 <= j < old(self).clients@.len() && #[trigger] old(self).clients@[j].addr == addr
                    && old(self).clients@[j].stage == ConnectionStage::Handshake),
            ({
                let mid = if data@.len() > 0 && data@[0] == 0x08 {
                    connected_marked(old(self).clients@, addr)
                } else {
                    old(self).clients@
                };
                final(self).clients@ == if r.disconnect {
                    close_requested(mid, addr, DisconnectCause::Server)
                } else {
                    mid
                }
            }),
    {
        if data.len() == 0 {
            return ServerAction { forward: false, connected_now: false, disconnect: false };
        }
        let connected_now = if data[0] == 0x08 {
            self.mark_connected(addr)
        } else {
            false
        };
        let disconnect = match spy_datagram(data) {
            Ok(SpyDatagramResult::Disconnect) => true,
            _ => false,
        };
        if disconnect {
            let _ = self.request_close(addr, DisconnectCause::Server);
        }
        ServerAction { forward: true, connected_now, disconnect }
    }

    /// Places a new session for `addr` on the server that the balancer picks, and gives the
    /// PROXY header that the server needs, if it asks for one.
    pub fn place_player(&mut self, addr: SockAddr, proxy_bind: SockAddr, listen: SockAddr) -> (r:
        Result<Placement, PlaceError>)
        requires
            old(self).wf(),
        ensures
            final(self).wf(),
            placed(*old(self), *final(self), addr, proxy_bind, listen, r),
    {
        let servers = self.backend.active_servers();
        let count = servers.len();
        let pick = self.balancer.next(&servers);
        let i = match pick {
            Some(i) => i,
            None => {
                return Err(PlaceError::NoServer);
            },
        };
        proof {
            lemma_next_eligible(old(self).balancer.algo, servers@, i, self.balancer.algo);
        }
        let server = servers[i];
        proof {
            lemma_active_in(self.backend.records@, i as int);
            let k = choose|k: int| 0 <= k < self.backend.records@.len() && #[trigger] self.backend.records@[k] == server;
            assert(has_uid(self.backend.records@, server.uid));
        }
        let preamble = if server.proxy_protocol {
            Some(proxy_header(addr, listen))
        } else {
            None
        };
        let ghost srv = active(old(self).backend.records@);
        assert(srv[i as int] == server && (i as int) < srv.len());
        match self.open_session(addr, server.uid, ConnectionStage::Handshake, proxy_bind) {
            Ok(()) => {},
            Err(e) => {
                return Err(PlaceError::State(e));
            },
        }
        let r = Placement { server_uid: server.uid, server_addr: server.addr, preamble };
        assert(placed(*old(self), *self, addr, proxy_bind, listen, Ok(r)));
        Ok(r)
    }
}

impl RaknetProxyServer {
    /// The reply to an unconnected ping: the ping's timestamp echoed, the proxy's identifier,
    /// and the cached MOTD as the proxy advertises it.
    pub fn handle_unconnected_ping(&self, body: &Vec<u8>, motd: &Option<Motd>) -> (r: Result<
        Vec<u8>,
        MessageError,
    >)
        ensures
            match pong_reply(body@, pong_text(*motd, self.server_uuid, self.in_bound_port), self.server_uuid) {
                Ok(b) => r matches Ok(v) && v@ == b,
                Err(e) => r matches Err(f) && f == e,
            },
    {
        let mut buf = ReadBuf::new(body.clone());
        let ping = MessageUnconnectedPing::deserialize(&mut buf)?;
        let payload = pong_payload(motd, self.server_uuid, self.in_bound_port);
        if payload.as_str().as_bytes_vec().len() > 0xFFFF {
            return Err(MessageError::StringTooLong);
        }
        let pong = MessageUnconnectedPong {
            timestamp: ping.forward_timestamp,
            server_uuid: self.server_uuid,
            motd: payload,
        };
        pong.to_bytes()
    }

    /// Address of the known server `uid`.
    pub fn server_addr(&self, uid: u64) -> (r: Option<SockAddr>)
        ensures
            match r {
                Some(a) => exists|k: int|
                    0 <= k < self.backend.records@.len() && #[trigger] self.backend.records@[k].uid
                        == uid && self.backend.records@[k].addr == a,
                None => !has_uid(self.backend.records@, uid),
            },
    {
        match self.backend.find(uid) {
            Some(k) => Some(self.backend.records[k].addr),
            None => None,
        }
    }

    /// Dispatches a datagram from `addr` that reached the proxy's socket.
    pub fn handle_recv(
        &mut self,
        addr: SockAddr,
        data: &Vec<u8>,
        proxy_bind: SockAddr,
        listen: SockAddr,
        motd: &Option<Motd>,
    ) -> (r: RecvOutcome)
        requires
            old(self).wf(),
        ensures
            final(self).wf(),
            final(self).server_uuid == old(self).server_uuid,
            final(self).in_bound_port == old(self).in_bound_port,
            recv_kind(data@, client_of(old(self).clients@, addr)) != RecvKind::Open ==> final(
                self).balancer == old(self).balancer && final(self).backend == old(self).backend,
            match recv_kind(data@, client_of(old(self).clients@, addr)) {
                RecvKind::Ignore => r is Ignored && final(self).clients@ == old(self).clients@,
                RecvKind::Ping => final(self).clients@ == old(self).clients@ && match pong_reply(
                    data@.drop_first(),
                    pong_text(*motd, old(self).server_uuid, old(self).in_bound_port),
                    old(self).server_uuid,
                ) {
                    Ok(b) => r matches RecvOutcome::Pong(v) && v@ == b,
                    Err(e) => r matches RecvOutcome::PingFailed(f) && f == e,
                },
                RecvKind::Player => r matches RecvOutcome::FromPlayer(a) && a.forward && a.disconnect
                    == player_disconnects(data@) && final(self).clients@ == if a.disconnect {
                    close_requested(old(self).clients@, addr, DisconnectCause::Normal)
                } else {
                    old(self).clients@
                },
                RecvKind::Open => match r {
                    RecvOutcome::Opened(p) => placed(
                        *old(self),
                        *final(self),
                        addr,
                        proxy_bind,
                        listen,
                        Ok(p),
                    ),
                    RecvOutcome::NotPlaced(e) => placed(
                        *old(self),
                        *final(self),
                        addr,
                        proxy_bind,
                        listen,
                        Err(e),
                    ),
                    _ => false,
                },
                RecvKind::Replace => r is MustReplace && final(self).clients@ == close_requested(
                    old(self).clients@,
                    addr,
                    DisconnectCause::Unknown,
                ),
                RecvKind::Forward => final(self).clients@ == old(self).clients@ && exists|k: int|
                    0 <= k < old(self).backend.records@.len() && #[trigger] old(
                        self).backend.records@[k].uid == client_of(old(self).clients@, addr)->0.server_uid
                        && r == RecvOutcome::ToServer(old(self).backend.records@[k].addr),
            },
    {
        if data.len() == 0 {
            return RecvOutcome::Ignored;
        }
        let t = RaknetMessage::from_u8(data[0]);
        let found = self.find_client(addr);
        proof {
            if let Some(j) = found {
                let k = index_of(self.clients@, addr);
                if k != j {
                    assert(self.clients@[k].addr != self.clients@[j as int].addr);
                }
                assert(client_of(self.clients@, addr) == Some(self.clients@[j as int]));
            }
        }
        if t == Some(RaknetMessage::UnconnectedPing) || t == Some(
            RaknetMessage::UnconnectedPingOpenConnections,
        ) {
            let mut body: Vec<u8> = Vec::new();
            let mut i: usize = 1;
            while i < data.len()
                invariant
                    1 <= i <= data@.len(),
                    body@ == data@.subrange(1, i as int),
                decreases data@.len() - i,
            {
                body.push(data[i]);
                i = i + 1;
                assert(body@ =~= data@.subrange(1, i as int));
            }
            assert(body@ =~= data@.drop_first());
            return match self.handle_unconnected_ping(&body, motd) {
                Ok(b) => RecvOutcome::Pong(b),
                Err(e) => RecvOutcome::PingFailed(e),
            };
        }
        match found {
            Some(j) => {
                let client = self.clients[j];
                if client.stage == ConnectionStage::Connected {
                    let a = self.handle_incoming_player(addr, data);
                    return RecvOutcome::FromPlayer(a);
                }
                match t {
                    None => RecvOutcome::Ignored,
                    Some(RaknetMessage::OpenConnectionRequest1) => {
                        let _ = self.request_close(addr, DisconnectCause::Unknown);
                        RecvOutcome::MustReplace
                    },
                    Some(_) => {
                        match self.server_addr(client.server_uid) {
                            Some(a) => RecvOutcome::ToServer(a),
                            None => {
                                proof {
                                    assert(has_uid(self.backend.records@, self.clients@[j as int].server_uid));
                                }
                                RecvOutcome::Ignored
                            },
                        }
                    },
                }
            },
            None => {
                if t.is_none() {
                    return RecvOutcome::Ignored;
                }
                match self.place_player(addr, proxy_bind, listen) {
                    Ok(p) => RecvOutcome::Opened(p),
                    Err(e) => RecvOutcome::NotPlaced(e),
                }
            },
        }
    }
}

impl RaknetProxyServer {
    /// Registers a stale server, that sessions may point at but the balancer does not offer.
    pub fn register_stale(&mut self, addr: SockAddr, proxy_protocol: bool) -> (r: Option<u64>)
        requires
            old(self).wf(),
        ensures
            final(self).wf(),
            final(self).clients == old(self).clients,
            final(self).server_uuid == old(self).server_uuid,
            final(self).in_bound_port == old(self).in_bound_port,
            final(self).balancer == old(self).balancer,
            final(self).backend.next_uid <= old(self).backend.next_uid + 1,
            r is None ==> old(self).backend.next_uid == u64::MAX,
            r matches Some(u) ==> final(self).backend.records@ == old(self).backend.records@.push(
                BackendServer {
                    uid: u,
                    addr,
                    proxy_protocol,
                    health: ServerHealth::new_spec(),
                    load_score: 0,
                    active: false,
                },
            ),
    {
        let ghost b0 = self.backend.records@;
        let reg = self.backend.register_server(addr, proxy_protocol, true);
        proof {
            assert forall|k: int| 0 <= k < self.backend.records@.len() implies (
            #[trigger] self.backend.records@[k]).load_score == sessions_on(
                self.clients@,
                self.backend.records@[k].uid,
            ) by {
                if k == b0.len() {
                    lemma_no_sessions(self.clients@, b0, self.backend.records@[k].uid);
                }
            }
            assert forall|j: int| 0 <= j < self.clients@.len() implies (#[trigger] self.clients@[j]).stage
                != ConnectionStage::Closed && has_uid(self.backend.records@, self.clients@[j].server_uid) by {
                let k = choose|k: int| 0 <= k < b0.len() && #[trigger] b0[k].uid == self.clients@[j].server_uid;
                assert(self.backend.records@[k] == b0[k]);
            }
        }
        reg
    }

    /// Takes a snapshot of the connected sessions; sessions in handshake cannot be recovered
    /// and are left out.
    pub fn take_snapshot(&self, config: RuntimeConfig, player_proxy_bind: SockAddr, now: Timestamp) -> (r:
        RaknetProxySnapshot)
        requires
            self.wf(),
        ensures
            r.taken_at == now,
            r.player_proxy_bind == player_proxy_bind,
            r.config.proxy_bind@ == config.proxy_bind@,
            r.config.health_check_rate == config.health_check_rate,
            r.config.motd_refresh_rate == config.motd_refresh_rate,
            r.clients@ == snapshot_records(self.clients@, self.backend.records@),
    {
        let mut out: Vec<RaknetClientSnapshot> = Vec::new();
        let mut i: usize = 0;
        while i < self.clients.len()
            invariant
                self.wf(),
                i <= self.clients@.len(),
                out@ == snapshot_records(self.clients@.take(i as int), self.backend.records@),
            decreases self.clients@.len() - i,
        {
            assert(self.clients@.take(i + 1).drop_last() =~= self.clients@.take(i as int));
            let c = self.clients[i];
            if c.stage == ConnectionStage::Connected {
                match self.backend.find(c.server_uid) {
                    Some(k) => {
                        let s = self.backend.records[k];
                        proof {
                            let recs = self.backend.records@;
                            let k2 = choose|k2: int| 0 <= k2 < recs.len() && #[trigger] recs[k2].uid == c.server_uid;
                            if k2 != k {
                                assert(recs[k2].uid != recs[k as int].uid);
                            }
                        }
                        out.push(
                            RaknetClientSnapshot {
                                addr: c.addr,
                                server_addr: s.addr,
                                server_proxy_protocol: s.proxy_protocol,
                                proxy_server_bind: c.proxy_server_bind,
                            },
                        );
                    },
                    None => {
                        proof {
                            assert(has_uid(self.backend.records@, self.clients@[i as int].server_uid));
                        }
                    },
                }
            }
            i = i + 1;
        }
        assert(self.clients@.take(i as int) =~= self.clients@);
        RaknetProxySnapshot {
            taken_at: now,
            config: RuntimeConfig {
                proxy_bind: config.proxy_bind.clone(),
                health_check_rate: config.health_check_rate,
                motd_refresh_rate: config.motd_refresh_rate,
            },
            player_proxy_bind,
            clients: out,
        }
    }

    /// Recovers the sessions of a snapshot, as connected sessions bound to their recorded local
    /// addresses. A server no longer active is recovered as a stale one, with the recorded PROXY
    /// protocol setting. A record whose player already has a session is skipped. Returns the
    /// number of sessions recovered.
    pub fn recover_from_snapshot(&mut self, snapshot: &RaknetProxySnapshot) -> (r: usize)
        requires
            old(self).wf(),
            old(self).backend.next_uid + snapshot.clients@.len() < u64::MAX,
            old(self).clients@.len() + snapshot.clients@.len() < usize::MAX - 1,
        ensures
            final(self).wf(),
            final(self).server_uuid == old(self).server_uuid,
            final(self).in_bound_port == old(self).in_bound_port,
            final(self).balancer == old(self).balancer,
            r == final(self).clients@.len() - old(self).clients@.len(),
            forall|i: int|
                0 <= i < snapshot.clients@.len() ==> has_client(
                    final(self).clients@,
                    #[trigger] snapshot.clients@[i].addr,
                ),
            forall|j: int| 0 <= j < old(self).clients@.len() ==> #[trigger] final(self).clients@[j] == old(self).clients@[j],
            forall|j: int|
                old(self).clients@.len() <= j < final(self).clients@.len() ==> recovered_from(
                    #[trigger] final(self).clients@[j],
                    snapshot.clients@,
                    final(self).backend.records@,
                ),
            recovered_records(old(self).backend.records@, final(self).backend.records@, snapshot.clients@),
            (forall|i: int|
                0 <= i < snapshot.clients@.len() ==> has_active_addr(
                    old(self).backend.records@,
                    #[trigger] snapshot.clients@[i].server_addr,
                )) ==> final(self).backend.records@.len() == old(self).backend.records@.len(),
    {
        let n0 = self.clients.len();
        let ghost recs0 = self.backend.records@;
        let mut i: usize = 0;
        while i < snapshot.clients.len()
            invariant
                self.wf(),
                n0 == old(self).clients@.len(),
                recs0 == old(self).backend.records@,
                i <= snapshot.clients@.len(),
                n0 <= self.clients@.len() <= n0 + i,
                self.backend.next_uid <= old(self).backend.next_uid + i,
                old(self).backend.next_uid + snapshot.clients@.len() < u64::MAX,
                old(self).clients@.len() + snapshot.clients@.len() < usize::MAX - 1,
                self.server_uuid == old(self).server_uuid,
                self.in_bound_port == old(self).in_bound_port,
                self.balancer == old(self).balancer,
                forall|k: int| 0 <= k < i ==> has_client(self.clients@, #[trigger] snapshot.clients@[k].addr),
                forall|j: int| 0 <= j < n0 ==> #[trigger] self.clients@[j] == old(self).clients@[j],
                forall|j: int|
                    n0 <= j < self.clients@.len() ==> recovered_from(
                        #[trigger] self.clients@[j],
                        snapshot.clients@,
                        self.backend.records@,
                    ),
                recovered_records(recs0, self.backend.records@, snapshot.clients@),
                (forall|k: int|
                    0 <= k < snapshot.clients@.len() ==> has_active_addr(
                        recs0,
                        #[trigger] snapshot.clients@[k].server_addr,
                    )) ==> self.backend.records@.len() == recs0.len(),
            decreases snapshot.clients@.len() - i,
        {
            let rec = snapshot.clients[i];
            let ghost cs1 = self.clients@;
            let ghost recs1 = self.backend.records@;
            proof {
                lemma_active_addr_of_recovered(recs0, recs1, snapshot.clients@, rec.server_addr);
            }
            self.recover_record(rec);
            proof {
                let recs2 = self.backend.records@;
                assert forall|j: int| 0 <= j < cs1.len() implies #[trigger] self.clients@[j] == cs1[j] by {
                    if self.clients@.len() > cs1.len() {
                        assert(self.clients@.drop_last()[j] == self.clients@[j]);
                    }
                }
                assert forall|k: int| 0 <= k < recs1.len() implies #[trigger] recs2[k].active == recs1[k].active by {
                    assert(recs2[k].uid == recs1[k].uid);
                }
                assert forall|k: int| recs1.len() <= k < recs2.len() implies !(#[trigger] recs2[k]).active by {}
                assert forall|k: int| 0 <= k < recs1.len() implies #[trigger] recs2[k].uid == recs1[k].uid
                    && recs2[k].addr == recs1[k].addr by {}
                lemma_recovered_stable(cs1, n0 as int, snapshot.clients@, recs1, recs2);
                lemma_recovered_records_step(recs0, recs1, recs2, snapshot.clients@, rec, i as int);
                assert forall|j: int| n0 <= j < self.clients@.len() implies recovered_from(
                    #[trigger] self.clients@[j],
                    snapshot.clients@,
                    recs2,
                ) by {
                    if j < cs1.len() {
                        assert(self.clients@[j] == cs1[j]);
                    } else {
                        lemma_recovered_from_record(self.clients@[j], snapshot.clients@, recs2, i as int);
                    }
                }
                assert forall|k: int| 0 <= k < i + 1 implies has_client(self.clients@, #[trigger] snapshot.clients@[k].addr) by {
                    if k < i {
                        let j = choose|j: int| 0 <= j < cs1.len() && #[trigger] cs1[j].addr == snapshot.clients@[k].addr;
                        assert(self.clients@[j] == cs1[j]);
                    }
                }
                if forall|k: int|
                    0 <= k < snapshot.clients@.len() ==> has_active_addr(
                        recs0,
                        #[trigger] snapshot.clients@[k].server_addr,
                    ) {
                    assert(has_active_addr(recs0, snapshot.clients@[i as int].server_addr));
                }
            }
            i = i + 1;
        }
        self.clients.len() - n0
    }
}

/// The step of a recovery: the records of `recs1` keep everything but their load; at most one
/// stale record is added, for the server of `rec`, when no record had its address, and none
/// when an active one had.
pub open spec fn record_step(
    recs1: Seq<BackendServer>,
    recs2: Seq<BackendServer>,
    rec: RaknetClientSnapshot,
) -> bool {
    &&& recs1.len() <= recs2.len() <= recs1.len() + 1
    &&& forall|k: int|
        0 <= k < recs1.len() ==> #[trigger] recs2[k].uid == recs1[k].uid && recs2[k].addr
            == recs1[k].addr && recs2[k].active == recs1[k].active && recs2[k].proxy_protocol
            == recs1[k].proxy_protocol && recs2[k].health == recs1[k].health
    &&& recs2.len() == recs1.len() + 1 ==> {
        let n = recs2[recs1.len() as int];
        &&& !n.active
        &&& n.health == ServerHealth::new_spec()
        &&& n.addr == rec.server_addr
        &&& n.proxy_protocol == rec.server_proxy_protocol
        &&& forall|k: int| 0 <= k < recs1.len() ==> #[trigger] recs1[k].addr != n.addr
    }
    &&& has_active_addr(recs1, rec.server_addr) ==> recs2.len() == recs1.len()
}

proof fn lemma_recovered_records_step(
    recs0: Seq<BackendServer>,
    recs1: Seq<BackendServer>,
    recs2: Seq<BackendServer>,
    snap: Seq<RaknetClientSnapshot>,
    rec: RaknetClientSnapshot,
    i: int,
)
    requires
        recovered_records(recs0, recs1, snap),
        record_step(recs1, recs2, rec),
        0 <= i < snap.len(),
        snap[i] == rec,
        has_active_addr(recs0, rec.server_addr) ==> has_active_addr(recs1, rec.server_addr),
    ensures
        recovered_records(recs0, recs2, snap),
        has_active_addr(recs0, rec.server_addr) ==> recs2.len() == recs1.len(),
{
    assert forall|k: int| 0 <= k < recs0.len() implies #[trigger] recs2[k].uid == recs0[k].uid
        && recs2[k].addr == recs0[k].addr && recs2[k].active == recs0[k].active
        && recs2[k].proxy_protocol == recs0[k].proxy_protocol && recs2[k].health
        == recs0[k].health by {
        assert(recs2[k].uid == recs1[k].uid);
    }
    assert forall|k: int| recs0.len() <= k < recs2.len() implies !(#[trigger] recs2[k]).active
        && recs2[k].health == ServerHealth::new_spec() && (exists|i2: int|
        0 <= i2 < snap.len() && #[trigger] snap[i2].server_addr == recs2[k].addr
            && snap[i2].server_proxy_protocol == recs2[k].proxy_protocol) && forall|k2: int|
        0 <= k2 < k ==> recs2[k2].addr != recs2[k].addr by {
        if k < recs1.len() {
            assert(recs2[k].uid == recs1[k].uid);
            assert(recs1[k].uid == recs1[k].uid);
            assert(recs2[k].addr == recs1[k].addr && recs2[k].active == recs1[k].active);
            assert(!recs1[k].active);
            let i2 = choose|i2: int|
                0 <= i2 < snap.len() && #[trigger] snap[i2].server_addr == recs1[k].addr
                    && snap[i2].server_proxy_protocol == recs1[k].proxy_protocol;
            assert forall|k2: int| 0 <= k2 < k implies recs2[k2].addr != recs2[k].addr by {
                assert(recs2[k2].uid == recs1[k2].uid);
                assert(recs2[k2].addr == recs1[k2].addr);
                assert(recs1[k2].addr != recs1[k].addr);
            }
        } else {
            assert(snap[i].server_addr == recs2[k].addr);
            assert forall|k2: int| 0 <= k2 < k implies recs2[k2].addr != recs2[k].addr by {
                assert(recs2[k2].uid == recs1[k2].uid);
                assert(recs2[k2].addr == recs1[k2].addr);
                assert(recs1[k2].addr != recs2[k].addr);
            }
        }
    }
}

proof fn lemma_active_addr_of_recovered(
    recs0: Seq<BackendServer>,
    recs1: Seq<BackendServer>,
    snap: Seq<RaknetClientSnapshot>,
    a: SockAddr,
)
    requires
        recovered_records(recs0, recs1, snap),
    ensures
        has_active_addr(recs0, a) == has_active_addr(recs1, a),
{
    assert forall|k: int| recs0.len() <= k < recs1.len() implies !(#[trigger] recs1[k]).active by {}
    assert forall|k: int| 0 <= k < recs0.len() implies #[trigger] recs1[k].addr == recs0[k].addr
        && recs1[k].active == recs0[k].active by {
        assert(recs1[k].uid == recs0[k].uid);
    }
    lemma_active_addr_stable(recs0, recs1, a);
}

proof fn lemma_recovered_from_record(
    c: RaknetClient,
    snap: Seq<RaknetClientSnapshot>,
    recs: Seq<BackendServer>,
    i: int,
)
    requires
        0 <= i < snap.len(),
        c.stage == ConnectionStage::Connected,
        c.addr == snap[i].addr,
        c.proxy_server_bind == snap[i].proxy_server_bind,
        exists|k: int|
            0 <= k < recs.len() && #[trigger] recs[k].uid == c.server_uid && recs[k].addr
                == snap[i].server_addr && (recs[k].active || !has_active_addr(
                recs,
                snap[i].server_addr,
            )),
    ensures
        recovered_from(c, snap, recs),
{
    let k = choose|k: int|
        0 <= k < recs.len() && #[trigger] recs[k].uid == c.server_uid && recs[k].addr
            == snap[i].server_addr && (recs[k].active || !has_active_addr(recs, snap[i].server_addr));
    assert(snap[i] == snap[i] && recs[k] == recs[k]);
}

impl RaknetProxyServer {
    /// Recovers one snapshot record, unless its player already has a session: on the active
    /// server with the recorded address, else on a stale one with that address, else on a new
    /// stale one.
    fn recover_record(&mut self, rec: RaknetClientSnapshot)
        requires
            old(self).wf(),
            old(self).backend.next_uid < u64::MAX,
            old(self).clients@.len() < usize::MAX - 1,
        ensures
            final(self).wf(),
            final(self).server_uuid == old(self).server_uuid,
            final(self).in_bound_port == old(self).in_bound_port,
            final(self).balancer == old(self).balancer,
            final(self).backend.next_uid <= old(self).backend.next_uid + 1,
            has_client(final(self).clients@, rec.addr),
            record_step(old(self).backend.records@, final(self).backend.records@, rec),
            final(self).clients@ == old(self).clients@ || (final(self).clients@.len()
                == old(self).clients@.len() + 1 && final(self).clients@.drop_last()
                == old(self).clients@ && {
                let c = final(self).clients@.last();
                &&& c.stage == ConnectionStage::Connected
                &&& c.addr == rec.addr
                &&& c.proxy_server_bind == rec.proxy_server_bind
                &&& exists|k: int|
                    0 <= k < final(self).backend.records@.len()
                        && #[trigger] final(self).backend.records@[k].uid == c.server_uid
                        && final(self).backend.records@[k].addr == rec.server_addr && (final(
                        self).backend.records@[k].active || !has_active_addr(
                        final(self).backend.records@,
                        rec.server_addr,
                    ))
            }),
    {
        let ghost recs1 = self.backend.records@;
        if let Some(j) = self.find_client(rec.addr) {
            assert(has_client(self.clients@, self.clients@[j as int].addr));
            return;
        }
        let mut kk: usize = 0;
        let uid = match self.backend.get_server(rec.server_addr) {
            Some(k) => {
                kk = k;
                self.backend.records[k].uid
            },
            None => match self.backend.known_lookup(rec.server_addr) {
                Some(k) => {
                    kk = k;
                    self.backend.records[k].uid
                },
                None => {
                    let reg = self.register_stale(rec.server_addr, rec.server_proxy_protocol);
                    match reg {
                        Some(u) => {
                            kk = self.backend.records.len() - 1;
                            proof {
                                assert forall|k: int| 0 <= k < recs1.len() implies #[trigger] recs1[k].addr != rec.server_addr by {
                                    if recs1[k].addr == rec.server_addr {
                                        if recs1[k].active {
                                            assert(has_active_addr(recs1, rec.server_addr));
                                        }
                                    }
                                }
                                lemma_active_addr_stable(recs1, self.backend.records@, rec.server_addr);
                            }
                            u
                        },
                        None => {
                            return;
                        },
                    }
                },
            },
        };
        assert(has_uid(self.backend.records@, self.backend.records@[kk as int].uid));
        let ghost recs_mid = self.backend.records@;
        let res = self.open_session(rec.addr, uid, ConnectionStage::Connected, rec.proxy_server_bind);
        proof {
            assert(res is Ok);
            let recs2 = self.backend.records@;
            assert(recs2[kk as int].uid == uid && recs2[kk as int].addr == rec.server_addr);
            assert forall|k: int| 0 <= k < recs_mid.len() implies #[trigger] recs2[k].addr == recs_mid[k].addr
                && recs2[k].active == recs_mid[k].active by {
                assert(recs2[k] == with_load(recs_mid[k], uid, 1));
            }
            lemma_active_addr_stable(recs_mid, recs2, rec.server_addr);
            assert(self.clients@.drop_last() =~= old(self).clients@);
            assert(has_client(self.clients@, self.clients@[self.clients@.len() - 1].addr));
        }
    }
}

impl RaknetProxyServer {
    /// Reloads the backend configuration and the balancing method. Sessions are not disturbed:
    /// a server that leaves the policy stays known while sessions point at it. The balancer is
    /// rebuilt only when the method changes.
    pub fn reload_backend(
        &mut self,
        entries: &Vec<ServerEntry>,
        default_pp: bool,
        motd_source: Option<MotdSource>,
        method: LoadBalanceMethod,
        reload: bool,
    ) -> (r: BackendLoadResult)
        requires
            old(self).wf(),
            old(self).backend.next_uid + entries@.len() < u64::MAX,
        ensures
            final(self).wf(),
            final(self).clients == old(self).clients,
            final(self).server_uuid == old(self).server_uuid,
            final(self).in_bound_port == old(self).in_bound_port,
            final(self).balancer.algo == if old(self).balancer.algo.spec_method() == method {
                old(self).balancer.algo
            } else {
                LoadBalanceAlgorithm::init_spec(method)
            },
            forall|a: SockAddr| configured(entries@, a) ==> has_active_addr(final(self).backend.records@, a),
            forall|i: int|
                0 <= i < final(self).backend.records@.len() && (#[trigger] final(self).backend.records@[i]).active
                    ==> configured(entries@, final(self).backend.records@[i].addr),
            r.server_count == active(final(self).backend.records@).len(),
    {
        let ghost recs0 = self.backend.records@;
        let r = self.backend.load_config(entries, default_pp, motd_source, reload);
        self.balancer.set_method(method);
        proof {
            let recs = self.backend.records@;
            assert forall|k: int| 0 <= k < recs.len() implies (#[trigger] recs[k]).load_score
                == sessions_on(self.clients@, recs[k].uid) by {
                if k >= recs0.len() {
                    lemma_kept_fresh(recs0, recs, k);
                    lemma_no_sessions(self.clients@, recs0, recs[k].uid);
                } else {
                    assert(recs[k].uid == recs0[k].uid);
                }
            }
            assert forall|j: int| 0 <= j < self.clients@.len() implies (#[trigger] self.clients@[j]).stage
                != ConnectionStage::Closed && has_uid(recs, self.clients@[j].server_uid) by {
                let k = choose|k: int| 0 <= k < recs0.len() && #[trigger] recs0[k].uid == self.clients@[j].server_uid;
                assert(recs[k].uid == recs0[k].uid);
            }
        }
        r
    }

    /// Records the outcome of a health probe of the known server `uid`.
    pub fn record_probe(&mut self, uid: u64, success: bool)
        requires
            old(self).wf(),
        ensures
            final(self).wf(),
            final(self).clients == old(self).clients,
            final(self).balancer == old(self).balancer,
            final(self).server_uuid == old(self).server_uuid,
            final(self).in_bound_port == old(self).in_bound_port,
            final(self).backend.records@.len() == old(self).backend.records@.len(),
            forall|i: int|
                0 <= i < old(self).backend.records@.len() ==> #[trigger] final(self).backend.records@[i]
                    == with_probe(old(self).backend.records@[i], uid, success),
    {
        let ghost recs0 = self.backend.records@;
        self.backend.record_probe(uid, success);
        proof {
            let recs = self.backend.records@;
            assert forall|k: int| 0 <= k < recs.len() implies (#[trigger] recs[k]).load_score
                == sessions_on(self.clients@, recs[k].uid) by {
                assert(recs[k].uid == recs0[k].uid);
            }
            assert forall|j: int| 0 <= j < self.clients@.len() implies (#[trigger] self.clients@[j]).stage
                != ConnectionStage::Closed && has_uid(recs, self.clients@[j].server_uid) by {
                let k = choose|k: int| 0 <= k < recs0.len() && #[trigger] recs0[k].uid == self.clients@[j].server_uid;
                assert(recs[k].uid == recs0[k].uid);
            }
            assert forall|a: int, b: int| 0 <= a < b < recs.len() implies #[trigger] recs[a].uid != #[trigger] recs[b].uid by {
                assert(recs[a].uid == recs0[a].uid && recs[b].uid == recs0[b].uid);
            }
            assert forall|a: int, b: int| 0 <= a < b < recs.len() && recs[a].active && recs[b].active implies #[trigger] recs[a].addr != #[trigger] recs[b].addr by {
                assert(recs[a].addr == recs0[a].addr && recs[b].addr == recs0[b].addr);
            }
            assert forall|k: int| 0 <= k < recs.len() implies #[trigger] recs[k].uid < self.backend.next_uid by {
                assert(recs[k].uid == recs0[k].uid);
            }
        }
    }

    /// Forgets the stale servers that no session points at any more.
    pub fn forget_unused_stale(&mut self)
        requires
            old(self).wf(),
        ensures
            final(self).wf(),
            final(self).clients == old(self).clients,
            final(self).balancer == old(self).balancer,
            final(self).server_uuid == old(self).server_uuid,
            final(self).in_bound_port == old(self).in_bound_port,
            forall|k: int|
                0 <= k < final(self).backend.records@.len() ==> old(self).backend.records@.contains(
                    #[trigger] final(self).backend.records@[k],
                ) && (final(self).backend.records@[k].active || final(self).backend.records@[k].load_score > 0),
            forall|k: int|
                0 <= k < old(self).backend.records@.len() && ((#[trigger] old(self).backend.records@[k]).active
                    || old(self).backend.records@[k].load_score > 0) ==> final(self).backend.records@.contains(
                    old(self).backend.records@[k],
                ),
            final(self).backend.records@ == old(self).backend.records@.filter(
                |x: BackendServer| x.active || x.load_score > 0,
            ),
            final(self).backend.next_uid == old(self).backend.next_uid,
            final(self).backend.motd_sources == old(self).backend.motd_sources,
    {
        let ghost recs0 = self.backend.records@;
        let mut kept: Vec<BackendServer> = Vec::new();
        let ghost mut idx: Seq<int> = Seq::empty();
        let mut i: usize = 0;
        while i < self.backend.records.len()
            invariant
                i <= recs0.len(),
                self.backend.records@ == recs0,
                kept@ == recs0.take(i as int).filter(|x: BackendServer| x.active || x.load_score > 0),
                idx.len() == kept@.len(),
                forall|k: int| 0 <= k < idx.len() ==> 0 <= #[trigger] idx[k] < i && recs0[idx[k]] == kept@[k],
                forall|a: int, b: int| 0 <= a < b < idx.len() ==> #[trigger] idx[a] < #[trigger] idx[b],
                forall|k: int| 0 <= k < kept@.len() ==> (#[trigger] kept@[k]).active || kept@[k].load_score > 0,
                forall|m: int| 0 <= m < i && ((#[trigger] recs0[m]).active || recs0[m].load_score > 0) ==> kept@.contains(recs0[m]),
            decreases recs0.len() - i,
        {
            let s = self.backend.records[i];
            proof {
                reveal(Seq::filter);
                assert(recs0.take(i + 1).drop_last() =~= recs0.take(i as int));
            }
            if s.active || s.load_score > 0 {
                let ghost k0 = kept@;
                kept.push(s);
                proof {
                    idx = idx.push(i as int);
                    assert forall|m: int| 0 <= m < i + 1 && ((#[trigger] recs0[m]).active || recs0[m].load_score > 0) implies kept@.contains(recs0[m]) by {
                        if m < i {
                            let q = choose|q: int| 0 <= q < k0.len() && k0[q] == recs0[m];
                            assert(kept@[q] == recs0[m]);
                        } else {
                            assert(kept@[k0.len() as int] == recs0[m]);
                        }
                    }
                }
            }
            i = i + 1;
        }
        assert(recs0.take(i as int) =~= recs0);
        self.backend.records = kept;
        proof {
            let recs = self.backend.records@;
            assert forall|a: int, b: int| 0 <= a < b < recs.len() implies #[trigger] recs[a].uid != #[trigger] recs[b].uid by {
                assert(idx[a] < idx[b]);
                assert(recs0[idx[a]].uid != recs0[idx[b]].uid);
            }
            assert forall|a: int, b: int| 0 <= a < b < recs.len() && recs[a].active && recs[b].active implies #[trigger] recs[a].addr != #[trigger] recs[b].addr by {
                assert(idx[a] < idx[b]);
                assert(recs0[idx[a]] == recs[a] && recs0[idx[b]] == recs[b]);
            }
            assert forall|k: int| 0 <= k < recs.len() implies #[trigger] recs[k].uid < self.backend.next_uid by {
                assert(recs0[idx[k]] == recs[k]);
            }
            assert forall|k: int| 0 <= k < recs.len() implies (#[trigger] recs[k]).load_score
                == sessions_on(self.clients@, recs[k].uid) by {
                assert(recs0[idx[k]] == recs[k]);
            }
            assert forall|j: int| 0 <= j < self.clients@.len() implies (#[trigger] self.clients@[j]).stage
                != ConnectionStage::Closed && has_uid(recs, self.clients@[j].server_uid) by {
                let u = self.clients@[j].server_uid;
                let m = choose|m: int| 0 <= m < recs0.len() && #[trigger] recs0[m].uid == u;
                lemma_sessions_positive(self.clients@, j);
                assert(recs0[m].load_score > 0);
                assert(recs.contains(recs0[m]));
                let q = choose|q: int| 0 <= q < recs.len() && recs[q] == recs0[m];
                assert(recs[q].uid == u);
            }
            assert forall|k: int| 0 <= k < recs.len() implies recs0.contains(#[trigger] recs[k]) && (recs[k].active || recs[k].load_score > 0) by {
                assert(recs0[idx[k]] == recs[k]);
            }
        }
    }
}

} // verus!
