//! Sessions: the emulated connections of players, and the table that holds them.
use vstd::prelude::*;

use crate::wire::SockAddr;

verus! {

/// Data flow direction.
#[derive(Clone, Copy, Debug, PartialEq, Eq, Structural)]
pub enum Direction {
    PlayerToServer,
    ServerToPlayer,
}

/// Why a player disconnected from a server.
#[derive(Clone, Copy, Debug, PartialEq, Eq, Structural)]
pub enum DisconnectCause {
    /// Closed normally, by either side.
    Normal,
    /// The server sent a disconnect notification.
    Server,
    /// The player to proxy connection timed out.
    TimeoutClient,
    /// The proxy to server connection timed out.
    TimeoutServer,
    /// An unexpected error occurred.
    Error,
    /// Unknown cause.
    Unknown,
}

impl DisconnectCause {
    pub open spec fn spec_name(self) -> &'static str {
        match self {
            DisconnectCause::Normal => "normal",
            DisconnectCause::Server => "server",
            DisconnectCause::TimeoutClient => "client timeout",
            DisconnectCause::TimeoutServer => "server timeout",
            DisconnectCause::Error => "unexpected error",
            DisconnectCause::Unknown => "unknown",
        }
    }

    /// Name of the cause, as it stands in logs.
    pub fn to_str(self) -> (r: &'static str)
        ensures
            r == self.spec_name(),
    {
        match self {
            Self::Normal => "normal",
            Self::Server => "server",
            Self::TimeoutClient => "client timeout",
            Self::TimeoutServer => "server timeout",
            Self::Error => "unexpected error",
            Self::Unknown => "unknown",
        }
    }
}

/// The stage of a session.
#[derive(Clone, Copy, Debug, PartialEq, Eq, Structural)]
pub enum ConnectionStage {
    /// In the RakNet handshake (open connection requests and replies).
    Handshake,
    /// Past the RakNet handshake.
    Connected,
    /// The session is closed.
    Closed,
}

/// A session of a player.
#[derive(Clone, Copy, Debug, PartialEq, Eq, Structural)]
pub struct RaknetClient {
    /// Address of the player.
    pub addr: SockAddr,
    /// Identifier of the server the session points at; it never changes.
    pub server_uid: u64,
    /// Stage of the session.
    pub stage: ConnectionStage,
    /// Local address of the session's socket towards the server.
    pub proxy_server_bind: SockAddr,
    /// The first cause of closing that was asked for, if any.
    pub close_cause: Option<DisconnectCause>,
}

/// Failure to change the session table.
#[derive(Clone, Copy, Debug, PartialEq, Eq, Structural)]
pub enum StateError {
    /// A session for the address is already in the table.
    DuplicateSession,
    /// The table cannot hold one more session.
    TableFull,
    /// The server is unknown.
    UnknownServer,
}

/// What is left of a session that was removed from the table.
#[derive(Clone, Copy, Debug, PartialEq, Eq, Structural)]
pub struct ClosedSession {
    pub server_uid: u64,
    pub was_connected: bool,
    pub cause: Option<DisconnectCause>,
}

/// Number of sessions in `cs` that point at the server `uid`.
pub open spec fn sessions_on(cs: Seq<RaknetClient>, uid: u64) -> nat
    decreases cs.len(),
{
    if cs.len() == 0 {
        0
    } else {
        sessions_on(cs.drop_last(), uid) + if cs.last().server_uid == uid {
            1nat
        } else {
            0nat
        }
    }
}

/// Whether `cs` holds a session for the address `a`.
pub open spec fn has_client(cs: Seq<RaknetClient>, a: SockAddr) -> bool {
    exists|i: int| 0 <= i < cs.len() && #[trigger] cs[i].addr == a
}

/// At most one session per address.
pub open spec fn unique_addrs(cs: Seq<RaknetClient>) -> bool {
    forall|i: int, j: int| 0 <= i < j < cs.len() ==> #[trigger] cs[i].addr != #[trigger] cs[j].addr
}

/// Addresses of the connected sessions on the server `uid`, in table order.
pub open spec fn connected_of(cs: Seq<RaknetClient>, uid: u64) -> Seq<SockAddr>
    decreases cs.len(),
{
    if cs.len() == 0 {
        Seq::empty()
    } else {
        let rest = connected_of(cs.drop_last(), uid);
        if cs.last().server_uid == uid && cs.last().stage == ConnectionStage::Connected {
            rest.push(cs.last().addr)
        } else {
            rest
        }
    }
}

pub proof fn lemma_sessions_bound(cs: Seq<RaknetClient>, uid: u64)
    ensures
        sessions_on(cs, uid) <= cs.len(),
    decreases cs.len(),
{
    if cs.len() > 0 {
        lemma_sessions_bound(cs.drop_last(), uid);
    }
}

pub proof fn lemma_sessions_positive(cs: Seq<RaknetClient>, i: int)
    requires
        0 <= i < cs.len(),
    ensures
        sessions_on(cs, cs[i].server_uid) >= 1,
    decreases cs.len(),
{
    if i < cs.len() - 1 {
        assert(cs.drop_last()[i] == cs[i]);
        lemma_sessions_positive(cs.drop_last(), i);
    }
}

pub proof fn lemma_sessions_remove(cs: Seq<RaknetClient>, j: int, uid: u64)
    requires
        0 <= j < cs.len(),
    ensures
        sessions_on(cs.remove(j), uid) + (if cs[j].server_uid == uid {
            1nat
        } else {
            0nat
        }) == sessions_on(cs, uid),
    decreases cs.len(),
{
    if j == cs.len() - 1 {
        assert(cs.remove(j) =~= cs.drop_last());
    } else {
        assert(cs.remove(j).drop_last() =~= cs.drop_last().remove(j));
        assert(cs.remove(j).last() == cs.last());
        lemma_sessions_remove(cs.drop_last(), j, uid);
    }
}

pub proof fn lemma_sessions_update(cs: Seq<RaknetClient>, j: int, c: RaknetClient, uid: u64)
    requires
        0 <= j < cs.len(),
        c.server_uid == cs[j].server_uid,
    ensures
        sessions_on(cs.update(j, c), uid) == sessions_on(cs, uid),
    decreases cs.len(),
{
    if j == cs.len() - 1 {
        assert(cs.update(j, c).drop_last() =~= cs.drop_last());
    } else {
        assert(cs.update(j, c).drop_last() =~= cs.drop_last().update(j, c));
        lemma_sessions_update(cs.drop_last(), j, c, uid);
    }
}

pub proof fn lemma_connected_of(cs: Seq<RaknetClient>, uid: u64, a: SockAddr)
    requires
        unique_addrs(cs),
    ensures
        connected_of(cs, uid).contains(a) <==> exists|i: int|
            0 <= i < cs.len() && #[trigger] cs[i].addr == a && cs[i].server_uid == uid
                && cs[i].stage == ConnectionStage::Connected,
    decreases cs.len(),
{
    if cs.len() > 0 {
        let d = cs.drop_last();
        assert(unique_addrs(d)) by {
            assert forall|i: int, j: int| 0 <= i < j < d.len() implies #[trigger] d[i].addr
                != #[trigger] d[j].addr by {
                assert(d[i] == cs[i] && d[j] == cs[j]);
            }
        }
        lemma_connected_of(d, uid, a);
        let rest = connected_of(d, uid);
        if exists|i: int|
            0 <= i < cs.len() && #[trigger] cs[i].addr == a && cs[i].server_uid == uid
                && cs[i].stage == ConnectionStage::Connected {
            let i = choose|i: int|
                0 <= i < cs.len() && #[trigger] cs[i].addr == a && cs[i].server_uid == uid
                    && cs[i].stage == ConnectionStage::Connected;
            if i < cs.len() - 1 {
                assert(d[i] == cs[i]);
                assert(rest.contains(a));
                if cs.last().server_uid == uid && cs.last().stage == ConnectionStage::Connected {
                    let k = choose|k: int| 0 <= k < rest.len() && rest[k] == a;
                    assert(rest.push(cs.last().addr)[k] == a);
                }
            } else {
                assert(connected_of(cs, uid).last() == a);
            }
        } else {
            if connected_of(cs, uid).contains(a) {
                if cs.last().server_uid == uid && cs.last().stage == ConnectionStage::Connected {
                    let k = choose|k: int| 0 <= k < connected_of(cs, uid).len() && connected_of(cs, uid)[k] == a;
                    if k < rest.len() {
                        assert(rest[k] == a);
                        assert(rest.contains(a));
                        let i = choose|i: int|
                            0 <= i < d.len() && #[trigger] d[i].addr == a && d[i].server_uid == uid
                                && d[i].stage == ConnectionStage::Connected;
                        assert(cs[i] == d[i]);
                    } else {
                        assert(cs[cs.len() - 1].addr == a);
                    }
                } else {
                    let i = choose|i: int|
                        0 <= i < d.len() && #[trigger] d[i].addr == a && d[i].server_uid == uid
                            && d[i].stage == ConnectionStage::Connected;
                    assert(cs[i] == d[i]);
                }
            }
        }
    }
}

/// The latch that a closing session opens for whoever waits to replace it: released once, when
/// the session has left the table, it lets exactly one waiter through.
#[derive(Clone, Copy, Debug, PartialEq, Eq, Structural)]
pub struct CloseLatch {
    pub released: bool,
    pub taken: bool,
}

pub open spec fn latch_released(g: CloseLatch) -> CloseLatch {
    CloseLatch { released: true, ..g }
}

/// Whether a waiter passes the latch, and the latch after it tried.
pub open spec fn latch_pass(g: CloseLatch) -> (bool, CloseLatch) {
    if g.released && !g.taken {
        (true, CloseLatch { taken: true, ..g })
    } else {
        (false, g)
    }
}

impl CloseLatch {
    pub fn new() -> (r: Self)
        ensures
            r == (CloseLatch { released: false, taken: false }),
    {
        CloseLatch { released: false, taken: false }
    }

    /// Opens the latch; returns whether it was closed until now.
    pub fn release(&mut self) -> (r: bool)
        ensures
            *final(self) == latch_released(*old(self)),
            r == !old(self).released,
    {
        let first = !self.released;
        self.released = true;
        first
    }

    /// Lets a waiter through if the latch is open and nobody went through yet.
    pub fn pass(&mut self) -> (r: bool)
        ensures
            (r, *final(self)) == latch_pass(*old(self)),
    {
        if self.released && !self.taken {
            self.taken = true;
            true
        } else {
            false
        }
    }
}

/// A released latch lets exactly one waiter through: the first that tries passes, every later
/// one is held, and releasing it again changes nothing for them.
pub proof fn lemma_latch_one_waiter(g: CloseLatch)
    requires
        !g.taken,
    ensures
        latch_pass(latch_released(g)).0,
        !latch_pass(latch_pass(latch_released(g)).1).0,
        !latch_pass(latch_released(latch_pass(latch_released(g)).1)).0,
        !latch_pass(g).0 || g.released,
{
}

} // verus!
