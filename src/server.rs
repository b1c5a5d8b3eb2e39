//! Backend server records and their health.
use vstd::prelude::*;

use crate::wire::SockAddr;

verus! {

/// Number of failed probes in a row after which a server is no longer alive.
pub const MAX_FAILED_ATTEMPTS: usize = 3;

/// Health information about a backend server.
#[derive(Clone, Copy, Debug, PartialEq, Eq, Structural)]
pub struct ServerHealth {
    /// Whether the server is reachable and well.
    pub alive: bool,
    /// Whether the server was ever alive.
    pub ever_alive: bool,
    /// Number of failed probes in a row.
    pub failed_attempts: usize,
}

/// Health after a probe: a success makes the server alive at once; a failure keeps it alive
/// only while it was alive before and fewer than three probes in a row failed.
pub open spec fn health_after(h: ServerHealth, success: bool) -> ServerHealth {
    if success {
        ServerHealth { alive: true, ever_alive: true, failed_attempts: 0 }
    } else {
        let failed = if h.failed_attempts < usize::MAX {
            (h.failed_attempts + 1) as usize
        } else {
            h.failed_attempts
        };
        ServerHealth {
            alive: h.ever_alive && failed < MAX_FAILED_ATTEMPTS,
            ever_alive: h.ever_alive,
            failed_attempts: failed,
        }
    }
}

impl ServerHealth {
    pub fn new() -> (r: Self)
        ensures
            r == (ServerHealth { alive: false, ever_alive: false, failed_attempts: 0 }),
    {
        ServerHealth { alive: false, ever_alive: false, failed_attempts: 0 }
    }

    /// Records the outcome of a probe.
    pub fn record_probe(&mut self, success: bool)
        ensures
            *final(self) == health_after(*old(self), success),
    {
        if success {
            self.failed_attempts = 0;
            self.alive = true;
            self.ever_alive = true;
        } else {
            if self.failed_attempts < usize::MAX {
                self.failed_attempts = self.failed_attempts + 1;
            }
            self.alive = self.ever_alive && self.failed_attempts < MAX_FAILED_ATTEMPTS;
        }
    }
}

/// A server that players can be routed to.
#[derive(Clone, Copy, Debug, PartialEq, Eq, Structural)]
pub struct BackendServer {
    /// Identifier, unique within a backend (not kept across restarts).
    pub uid: u64,
    /// Remote address of the server.
    pub addr: SockAddr,
    /// Whether the server expects a PROXY protocol header.
    pub proxy_protocol: bool,
    /// Server health.
    pub health: ServerHealth,
    /// Number of sessions that point at the server.
    pub load_score: usize,
    /// Whether the server is in the balancing policy; a server that is not is stale.
    pub active: bool,
}

/// Load after adding `delta`, saturating at both ends.
pub open spec fn load_after(load: usize, delta: isize) -> usize {
    let v = load + delta;
    if v < 0 {
        0
    } else if v > usize::MAX {
        usize::MAX
    } else {
        v as usize
    }
}

impl BackendServer {
    pub fn new(uid: u64, addr: SockAddr, proxy_protocol: bool, active: bool) -> (r: Self)
        ensures
            r.active == active,
            r.uid == uid,
            r.addr == addr,
            r.proxy_protocol == proxy_protocol,
            r.health == ServerHealth::new_spec(),
            r.load_score == 0,
    {
        BackendServer {
            uid,
            addr,
            proxy_protocol,
            health: ServerHealth::new(),
            load_score: 0,
            active,
        }
    }

    /// Whether the remote server expects a PROXY protocol header.
    pub fn use_proxy_protocol(&self) -> (r: bool)
        ensures
            r == self.proxy_protocol,
    {
        self.proxy_protocol
    }

    /// Whether the server's health is alive.
    pub fn is_alive(&self) -> (r: bool)
        ensures
            r == self.health.alive,
    {
        self.health.alive
    }

    /// Adds `delta` to the load score, saturating at both ends.
    pub fn modify_load(&mut self, delta: isize)
        ensures
            final(self).load_score == load_after(old(self).load_score, delta),
            final(self).uid == old(self).uid,
            final(self).addr == old(self).addr,
            final(self).proxy_protocol == old(self).proxy_protocol,
            final(self).health == old(self).health,
            final(self).active == old(self).active,
    {
        if delta >= 0 {
            let d = delta as usize;
            self.load_score = self.load_score.saturating_add(d);
        } else {
            let d = ((-(delta + 1)) as usize) + 1;
            self.load_score = self.load_score.saturating_sub(d);
        }
    }
}

impl ServerHealth {
    pub open spec fn new_spec() -> ServerHealth {
        ServerHealth { alive: false, ever_alive: false, failed_attempts: 0 }
    }
}

} // verus!
