//! Snapshots of the proxy's sessions, to recover them after a quick restart.
use vstd::prelude::*;

use crate::wire::SockAddr;

verus! {

/// Configuration that may change at runtime.
#[derive(Clone, Debug)]
pub struct RuntimeConfig {
    /// Address to bind proxy to server sockets to.
    pub proxy_bind: String,
    /// Rate, in seconds, of health checks.
    pub health_check_rate: u64,
    /// Rate, in seconds, of MOTD refreshes.
    pub motd_refresh_rate: u64,
}

/// Seconds between two runs of a periodic task: the configured rate, but at least one.
pub fn effective_rate(rate: u64) -> (r: u64)
    ensures
        r == if rate == 0 {
            1
        } else {
            rate
        },
{
    if rate == 0 {
        1
    } else {
        rate
    }
}

/// A point in time, as seconds and nanoseconds since the Unix epoch.
#[derive(Clone, Copy, Debug, PartialEq, Eq, Structural)]
pub struct Timestamp {
    pub secs: u64,
    pub nanos: u32,
}

impl Timestamp {
    pub open spec fn total_nanos(&self) -> int {
        self.secs * 1_000_000_000 + self.nanos
    }
}

/// Age after which a snapshot is not used, in seconds.
pub const SNAPSHOT_MAX_AGE_SECS: u64 = 10;

/// A session that can be recovered.
#[derive(Clone, Copy, Debug, PartialEq, Eq, Structural)]
pub struct RaknetClientSnapshot {
    /// Address of the player.
    pub addr: SockAddr,
    /// Address of the server.
    pub server_addr: SockAddr,
    /// Whether the server expects a PROXY protocol header.
    pub server_proxy_protocol: bool,
    /// Local address of the session's socket towards the server.
    pub proxy_server_bind: SockAddr,
}

/// What a proxy needs to recover its connected sessions.
#[derive(Clone, Debug)]
pub struct RaknetProxySnapshot {
    /// When the snapshot was taken.
    pub taken_at: Timestamp,
    /// Configuration in use then.
    pub config: RuntimeConfig,
    /// Address of the socket that players reached the proxy on.
    pub player_proxy_bind: SockAddr,
    /// Connected sessions.
    pub clients: Vec<RaknetClientSnapshot>,
}

impl RaknetProxySnapshot {
    /// Whether the snapshot is too old to use at `now`: ten seconds or more have passed, or
    /// `now` comes before it was taken, so no elapsed time can be told.
    pub fn has_expired(&self, now: Timestamp) -> (r: bool)
        requires
            self.taken_at.nanos < 1_000_000_000,
            now.nanos < 1_000_000_000,
        ensures
            r == (now.total_nanos() < self.taken_at.total_nanos() || now.total_nanos()
                - self.taken_at.total_nanos() >= SNAPSHOT_MAX_AGE_SECS * 1_000_000_000),
    {
        let t = self.taken_at;
        if now.secs < t.secs || (now.secs == t.secs && now.nanos < t.nanos) {
            return true;
        }
        assert(now.total_nanos() >= t.total_nanos()) by (nonlinear_arith)
            requires
                !(now.secs < t.secs || (now.secs == t.secs && now.nanos < t.nanos)),
                t.nanos < 1_000_000_000,
                now.nanos < 1_000_000_000,
        ;
        let secs = now.secs - t.secs;
        if secs > SNAPSHOT_MAX_AGE_SECS {
            assert(now.total_nanos() - t.total_nanos() >= SNAPSHOT_MAX_AGE_SECS * 1_000_000_000) by (nonlinear_arith)
                requires
                    now.secs - t.secs > SNAPSHOT_MAX_AGE_SECS,
                    t.nanos < 1_000_000_000,
                    SNAPSHOT_MAX_AGE_SECS == 10,
            ;
            return true;
        }
        let elapsed: u64 = secs * 1_000_000_000 + now.nanos as u64 - t.nanos as u64;
        assert(elapsed == now.total_nanos() - t.total_nanos()) by (nonlinear_arith)
            requires
                secs == now.secs - t.secs,
                elapsed == secs * 1_000_000_000 + now.nanos - t.nanos,
        ;
        elapsed >= SNAPSHOT_MAX_AGE_SECS * 1_000_000_000
    }
}

} // verus!
