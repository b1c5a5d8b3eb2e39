//! A backend: the servers that players are routed to, active and stale.
use vstd::prelude::*;

use crate::server::{load_after, BackendServer, ServerHealth};
use crate::wire::SockAddr;

verus! {

/// A server to fetch MOTD information from; players are not routed to it.
#[derive(Clone, Copy, Debug, PartialEq, Eq, Structural)]
pub struct MotdSource {
    pub addr: SockAddr,
    pub proxy_protocol: bool,
}

/// A configured server, its address already parsed (`None` when it could not be).
#[derive(Clone, Copy, Debug, PartialEq, Eq, Structural)]
pub struct ServerEntry {
    pub addr: Option<SockAddr>,
    /// Overrides the backend's PROXY protocol setting when present.
    pub proxy_protocol: Option<bool>,
}

/// Result of a backend (re)load.
#[derive(Clone, Copy, Debug, PartialEq, Eq, Structural)]
pub struct BackendLoadResult {
    /// Whether this was a reload.
    pub reload: bool,
    /// Number of active servers.
    pub server_count: usize,
    /// Number of newly active servers.
    pub new_count: usize,
    /// Number of servers no longer active.
    pub removed_count: usize,
}

/// Mutable state of a backend.
///
/// `records` holds every known server, in the order they were created. The active ones are
/// in the balancing policy, in that order; the others are stale: they left the policy through
/// a reload, or were recovered from a snapshot, and sessions may still point at them.
#[derive(Clone, Debug)]
pub struct BackendState {
    pub motd_sources: Vec<MotdSource>,
    pub records: Vec<BackendServer>,
    /// Identifier for the next server record.
    pub next_uid: u64,
}

/// Every known server.
pub open spec fn known(b: BackendState) -> Seq<BackendServer> {
    b.records@
}

/// The active servers, in order.
pub open spec fn active(s: Seq<BackendServer>) -> Seq<BackendServer> {
    s.filter(|x: BackendServer| x.active)
}

/// Every active server is a record.
pub proof fn lemma_active_in(s: Seq<BackendServer>, i: int)
    requires
        0 <= i < active(s).len(),
    ensures
        s.contains(active(s)[i]),
        active(s)[i].active,
    decreases s.len(),
{
    reveal(Seq::filter);
    let d = s.drop_last();
    if s.last().active && i == active(s).len() - 1 {
        assert(s[s.len() - 1] == s.last());
    } else {
        lemma_active_in(d, i);
        let k = choose|k: int| 0 <= k < d.len() && d[k] == active(d)[i];
        assert(s[k] == d[k]);
    }
}

/// Whether some server in `s` has the identifier `uid`.
pub open spec fn has_uid(s: Seq<BackendServer>, uid: u64) -> bool {
    exists|i: int| 0 <= i < s.len() && #[trigger] s[i].uid == uid
}

/// Whether some active server in `s` has the address `a`.
pub open spec fn has_active_addr(s: Seq<BackendServer>, a: SockAddr) -> bool {
    exists|i: int| 0 <= i < s.len() && #[trigger] s[i].addr == a && s[i].active
}

/// Identifiers are unique and below `next`; active addresses are unique.
pub open spec fn records_ok(s: Seq<BackendServer>, next: u64) -> bool {
    &&& forall|i: int, j: int|
        0 <= i < j < s.len() ==> #[trigger] s[i].uid != #[trigger] s[j].uid
    &&& forall|i: int| 0 <= i < s.len() ==> #[trigger] s[i].uid < next
    &&& forall|i: int, j: int|
        0 <= i < j < s.len() && s[i].active && s[j].active ==> #[trigger] s[i].addr
            != #[trigger] s[j].addr
}

/// Whether an entry configures the address `a`.
pub open spec fn configured(entries: Seq<ServerEntry>, a: SockAddr) -> bool {
    exists|i: int| 0 <= i < entries.len() && #[trigger] entries[i].addr == Some(a)
}

/// PROXY protocol setting of the first entry for `a`.
pub open spec fn configured_pp(entries: Seq<ServerEntry>, a: SockAddr, default: bool) -> bool
    decreases entries.len(),
{
    if entries.len() == 0 {
        default
    } else if entries[0].addr == Some(a) {
        match entries[0].proxy_protocol {
            Some(p) => p,
            None => default,
        }
    } else {
        configured_pp(entries.drop_first(), a, default)
    }
}

/// Server `s` with load changed by `delta` when its identifier is `uid`.
pub open spec fn with_load(s: BackendServer, uid: u64, delta: isize) -> BackendServer {
    if s.uid == uid {
        BackendServer { load_score: load_after(s.load_score, delta), ..s }
    } else {
        s
    }
}

/// Server `s` with a probe outcome recorded when its identifier is `uid`.
pub open spec fn with_probe(s: BackendServer, uid: u64, success: bool) -> BackendServer {
    if s.uid == uid {
        BackendServer { health: crate::server::health_after(s.health, success), ..s }
    } else {
        s
    }
}

proof fn lemma_first_pp(entries: Seq<ServerEntry>, k: int, a: SockAddr, default: bool)
    requires
        0 <= k < entries.len(),
        entries[k].addr == Some(a),
        forall|i: int| 0 <= i < k ==> entries[i].addr != Some(a),
    ensures
        configured_pp(entries, a, default) == match entries[k].proxy_protocol {
            Some(p) => p,
            None => default,
        },
    decreases k,
{
    if k > 0 {
        let rest = entries.drop_first();
        assert(rest[k - 1] == entries[k]);
        assert forall|i: int| 0 <= i < k - 1 implies rest[i].addr != Some(a) by {
            assert(rest[i] == entries[i + 1]);
        }
        lemma_first_pp(rest, k - 1, a, default);
    }
}

fn contains_addr(v: &Vec<SockAddr>, a: SockAddr) -> (r: bool)
    ensures
        r == v@.contains(a),
{
    let mut i: usize = 0;
    while i < v.len()
        invariant
            i <= v@.len(),
            forall|j: int| 0 <= j < i ==> v@[j] != a,
        decreases v@.len() - i,
    {
        if v[i] == a {
            return true;
        }
        i = i + 1;
    }
    false
}

impl BackendState {
    pub open spec fn wf(&self) -> bool {
        records_ok(self.records@, self.next_uid)
    }

    /// An empty backend.
    pub fn new() -> (r: Self)
        ensures
            r.wf(),
            r.records@.len() == 0,
            r.motd_sources@.len() == 0,
    {
        BackendState { motd_sources: Vec::new(), records: Vec::new(), next_uid: 0 }
    }

    /// Index of the active server with address `addr`, if any.
    pub fn get_server(&self, addr: SockAddr) -> (r: Option<usize>)
        ensures
            match r {
                Some(i) => i < self.records@.len() && self.records@[i as int].addr == addr
                    && self.records@[i as int].active,
                None => !has_active_addr(self.records@, addr),
            },
    {
        let mut i: usize = 0;
        while i < self.records.len()
            invariant
                i <= self.records@.len(),
                forall|j: int| 0 <= j < i ==> !(self.records@[j].addr == addr && self.records@[j].active),
            decreases self.records@.len() - i,
        {
            if self.records[i].active && self.records[i].addr == addr {
                return Some(i);
            }
            i = i + 1;
        }
        None
    }

    /// Index of a stale server with address `addr`, if any.
    pub fn known_lookup(&self, addr: SockAddr) -> (r: Option<usize>)
        ensures
            match r {
                Some(i) => i < self.records@.len() && self.records@[i as int].addr == addr
                    && !self.records@[i as int].active,
                None => forall|j: int|
                    0 <= j < self.records@.len() ==> !(#[trigger] self.records@[j].addr == addr
                        && !self.records@[j].active),
            },
    {
        let mut i: usize = 0;
        while i < self.records.len()
            invariant
                i <= self.records@.len(),
                forall|j: int| 0 <= j < i ==> !(#[trigger] self.records@[j].addr == addr && !self.records@[j].active),
            decreases self.records@.len() - i,
        {
            if !self.records[i].active && self.records[i].addr == addr {
                return Some(i);
            }
            i = i + 1;
        }
        None
    }

    /// Index of the known server with identifier `uid`, if any.
    pub fn find(&self, uid: u64) -> (r: Option<usize>)
        ensures
            match r {
                Some(i) => i < self.records@.len() && self.records@[i as int].uid == uid,
                None => !has_uid(self.records@, uid),
            },
    {
        let mut i: usize = 0;
        while i < self.records.len()
            invariant
                i <= self.records@.len(),
                forall|j: int| 0 <= j < i ==> self.records@[j].uid != uid,
            decreases self.records@.len() - i,
        {
            if self.records[i].uid == uid {
                return Some(i);
            }
            i = i + 1;
        }
        None
    }

    /// The active servers, in order.
    pub fn active_servers(&self) -> (r: Vec<BackendServer>)
        ensures
            r@ == active(self.records@),
    {
        let mut r: Vec<BackendServer> = Vec::new();
        let mut i: usize = 0;
        while i < self.records.len()
            invariant
                i <= self.records@.len(),
                r@ == active(self.records@.take(i as int)),
            decreases self.records@.len() - i,
        {
            proof {
                reveal(Seq::filter);
                assert(self.records@.take(i + 1).drop_last() =~= self.records@.take(i as int));
            }
            if self.records[i].active {
                r.push(self.records[i]);
            }
            i = i + 1;
        }
        assert(self.records@.take(i as int) =~= self.records@);
        r
    }

    /// Registers a new server record with a fresh identifier, active or already stale.
    pub fn register_server(&mut self, addr: SockAddr, proxy_protocol: bool, stale: bool) -> (r:
        Option<u64>)
        requires
            old(self).wf(),
            stale || !has_active_addr(old(self).records@, addr),
        ensures
            final(self).wf(),
            final(self).motd_sources == old(self).motd_sources,
            match r {
                Some(uid) => {
                    &&& !has_uid(old(self).records@, uid)
                    &&& uid == old(self).next_uid
                    &&& final(self).next_uid == uid + 1
                    &&& final(self).records@ == old(self).records@.push(
                        BackendServer {
                            uid,
                            addr,
                            proxy_protocol,
                            health: ServerHealth::new_spec(),
                            load_score: 0,
                            active: !stale,
                        },
                    )
                },
                None => *final(self) == *old(self) && old(self).next_uid == u64::MAX,
            },
    {
        if self.next_uid == u64::MAX {
            return None;
        }
        let uid = self.next_uid;
        let server = BackendServer::new(uid, addr, proxy_protocol, !stale);
        self.records.push(server);
        self.next_uid = uid + 1;
        Some(uid)
    }

    /// Adds `delta` to the load of the known server `uid`, saturating.
    pub fn modify_load(&mut self, uid: u64, delta: isize)
        ensures
            final(self).motd_sources == old(self).motd_sources,
            final(self).next_uid == old(self).next_uid,
            final(self).records@.len() == old(self).records@.len(),
            forall|i: int|
                0 <= i < old(self).records@.len() ==> #[trigger] final(self).records@[i]
                    == with_load(old(self).records@[i], uid, delta),
    {
        let mut i: usize = 0;
        while i < self.records.len()
            invariant
                i <= self.records@.len(),
                self.records@.len() == old(self).records@.len(),
                self.motd_sources == old(self).motd_sources,
                self.next_uid == old(self).next_uid,
                forall|j: int|
                    0 <= j < i ==> #[trigger] self.records@[j] == with_load(
                        old(self).records@[j],
                        uid,
                        delta,
                    ),
                forall|j: int| i <= j < self.records@.len() ==> self.records@[j] == old(self).records@[j],
            decreases self.records@.len() - i,
        {
            if self.records[i].uid == uid {
                let mut s = self.records[i];
                s.modify_load(delta);
                self.records.set(i, s);
            }
            i = i + 1;
        }
    }

    /// Records the outcome of a health probe of the known server `uid`.
    pub fn record_probe(&mut self, uid: u64, success: bool)
        ensures
            final(self).motd_sources == old(self).motd_sources,
            final(self).next_uid == old(self).next_uid,
            final(self).records@.len() == old(self).records@.len(),
            forall|i: int|
                0 <= i < old(self).records@.len() ==> #[trigger] final(self).records@[i]
                    == with_probe(old(self).records@[i], uid, success),
    {
        let mut i: usize = 0;
        while i < self.records.len()
            invariant
                i <= self.records@.len(),
                self.records@.len() == old(self).records@.len(),
                self.motd_sources == old(self).motd_sources,
                self.next_uid == old(self).next_uid,
                forall|j: int|
                    0 <= j < i ==> #[trigger] self.records@[j] == with_probe(
                        old(self).records@[j],
                        uid,
                        success,
                    ),
                forall|j: int| i <= j < self.records@.len() ==> self.records@[j] == old(self).records@[j],
            decreases self.records@.len() - i,
        {
            if self.records[i].uid == uid {
                let mut s = self.records[i];
                s.health.record_probe(success);
                self.records.set(i, s);
            }
            i = i + 1;
        }
    }

    /// The configured MOTD sources, or else every active server with its PROXY protocol
    /// setting.
    pub fn motd_sources_or_default(&self) -> (r: Vec<MotdSource>)
        ensures
            self.motd_sources@.len() > 0 ==> r@ == self.motd_sources@,
            self.motd_sources@.len() == 0 ==> r@ == active(self.records@).map_values(
                |s: BackendServer| MotdSource { addr: s.addr, proxy_protocol: s.proxy_protocol },
            ),
    {
        if self.motd_sources.len() > 0 {
            return self.motd_sources.clone();
        }
        let servers = self.active_servers();
        let mut r: Vec<MotdSource> = Vec::new();
        let mut i: usize = 0;
        while i < servers.len()
            invariant
                i <= servers@.len(),
                r@ == servers@.take(i as int).map_values(
                    |s: BackendServer| MotdSource { addr: s.addr, proxy_protocol: s.proxy_protocol },
                ),
            decreases servers@.len() - i,
        {
            r.push(MotdSource { addr: servers[i].addr, proxy_protocol: servers[i].proxy_protocol });
            i = i + 1;
            assert(r@ =~= servers@.take(i as int).map_values(
                |s: BackendServer| MotdSource { addr: s.addr, proxy_protocol: s.proxy_protocol },
            ));
        }
        assert(servers@.take(i as int) =~= servers@);
        r
    }
}

/// The configured addresses that can be read, each once, in order of first occurrence.
pub open spec fn dedup_addrs(entries: Seq<ServerEntry>) -> Seq<SockAddr>
    decreases entries.len(),
{
    if entries.len() == 0 {
        Seq::empty()
    } else {
        let d = dedup_addrs(entries.drop_last());
        match entries.last().addr {
            Some(a) => if d.contains(a) {
                d
            } else {
                d.push(a)
            },
            None => d,
        }
    }
}

proof fn lemma_filter_congruent(
    s: Seq<SockAddr>,
    p: spec_fn(SockAddr) -> bool,
    q: spec_fn(SockAddr) -> bool,
    entries: Seq<ServerEntry>,
)
    requires
        forall|i: int| 0 <= i < s.len() ==> configured(entries, #[trigger] s[i]),
        forall|a: SockAddr| configured(entries, a) ==> p(a) == q(a),
    ensures
        s.filter(p) == s.filter(q),
    decreases s.len(),
{
    reveal(Seq::filter);
    if s.len() > 0 {
        let d = s.drop_last();
        assert forall|i: int| 0 <= i < d.len() implies configured(entries, #[trigger] d[i]) by {
            assert(d[i] == s[i]);
        }
        lemma_filter_congruent(d, p, q, entries);
        assert(configured(entries, s[s.len() - 1]));
    }
}

/// Number of active servers of `recs` that `entries` no longer configure.
pub open spec fn removed_servers(recs: Seq<BackendServer>, entries: Seq<ServerEntry>) -> nat
    decreases recs.len(),
{
    if recs.len() == 0 {
        0
    } else {
        removed_servers(recs.drop_last(), entries) + if recs.last().active && !configured(
            entries,
            recs.last().addr,
        ) {
            1nat
        } else {
            0nat
        }
    }
}

/// The records of `old` keep their place, identifier, address and load in `new`; the records
/// after them are fresh ones with no load.
pub open spec fn records_kept(old: Seq<BackendServer>, new: Seq<BackendServer>) -> bool {
    &&& old.len() <= new.len()
    &&& forall|i: int|
        0 <= i < old.len() ==> #[trigger] new[i].uid == old[i].uid && new[i].addr == old[i].addr
            && new[i].load_score == old[i].load_score
    &&& forall|i: int|
        #![trigger new[i]]
        old.len() <= i < new.len() ==> new[i].load_score == 0 && !has_uid(old, new[i].uid)
}

/// Distinct configured addresses, first occurrence first, with their PROXY protocol setting.
fn distinct_entries(entries: &Vec<ServerEntry>, default_pp: bool) -> (r: Vec<(SockAddr, bool)>)
    ensures
        r@.len() <= entries@.len(),
        r@.map_values(|p: (SockAddr, bool)| p.0) == dedup_addrs(entries@),
        forall|i: int, j: int| 0 <= i < j < r@.len() ==> r@[i].0 != r@[j].0,
        forall|i: int|
            0 <= i < r@.len() ==> configured(entries@, #[trigger] r@[i].0) && r@[i].1
                == configured_pp(entries@, r@[i].0, default_pp),
        forall|a: SockAddr| configured(entries@, a) ==> exists|i: int| 0 <= i < r@.len() && #[trigger] r@[i].0 == a,
{
    let mut r: Vec<(SockAddr, bool)> = Vec::new();
    let mut seen: Vec<SockAddr> = Vec::new();
    let mut k: usize = 0;
    while k < entries.len()
        invariant
            k <= entries@.len(),
            r@.len() <= k,
            seen@.len() == r@.len(),
            seen@ == dedup_addrs(entries@.take(k as int)),
            forall|i: int| 0 <= i < r@.len() ==> #[trigger] seen@[i] == r@[i].0,
            forall|i: int, j: int| 0 <= i < j < r@.len() ==> r@[i].0 != r@[j].0,
            forall|i: int|
                0 <= i < r@.len() ==> configured(entries@, #[trigger] r@[i].0) && r@[i].1
                    == configured_pp(entries@, r@[i].0, default_pp),
            forall|i: int|
                0 <= i < k ==> ((#[trigger] entries@[i]).addr matches Some(a) ==> seen@.contains(a)),
            forall|a: SockAddr| #[trigger] seen@.contains(a) ==> exists|i: int| 0 <= i < k && entries@[i].addr == Some(a),
        decreases entries@.len() - k,
    {
        let entry = entries[k];
        proof {
            assert(entries@.take(k + 1).drop_last() =~= entries@.take(k as int));
            assert(entries@.take(k + 1).last() == entry);
        }
        let ghost seen_start = seen@;
        let ghost r_start = r@;
        match entry.addr {
            Some(a) => {
                if !contains_addr(&seen, a) {
                    let pp = match entry.proxy_protocol {
                        Some(p) => p,
                        None => default_pp,
                    };
                    proof {
                        lemma_first_pp(entries@, k as int, a, default_pp);
                    }
                    let ghost seen0 = seen@;
                    seen.push(a);
                    r.push((a, pp));
                    proof {
                        assert forall|i: int| 0 <= i < seen0.len() implies #[trigger] seen0[i] != a by {
                            if seen0[i] == a {
                                assert(seen0.contains(a));
                            }
                        }
                        assert forall|b: SockAddr| seen0.contains(b) implies #[trigger] seen@.contains(b) by {
                            let j = choose|j: int| 0 <= j < seen0.len() && seen0[j] == b;
                            assert(seen@[j] == b);
                        }
                        assert forall|i: int, j: int| 0 <= i < j < r@.len() implies r@[i].0 != r@[j].0 by {
                            if j == r@.len() - 1 {
                                assert(r@[i].0 == seen0[i]);
                            } else {
                                assert(r@[i] == r_start[i] && r@[j] == r_start[j]);
                            }
                        }
                        assert forall|b: SockAddr| #[trigger] seen@.contains(b) implies exists|i: int| 0 <= i < k + 1 && entries@[i].addr == Some(b) by {
                            if b != a {
                                let j = choose|j: int| 0 <= j < seen@.len() && seen@[j] == b;
                                assert(seen0[j] == b);
                                assert(seen0.contains(b));
                            }
                        }
                    }
                }
            },
            None => {},
        }
        proof {
            assert(seen@.len() >= seen_start.len());
            assert forall|b: SockAddr| seen_start.contains(b) implies #[trigger] seen@.contains(b) by {
                let j = choose|j: int| 0 <= j < seen_start.len() && seen_start[j] == b;
                assert(seen@[j] == seen_start[j]);
            }
            assert forall|i: int| 0 <= i < k + 1 implies ((#[trigger] entries@[i]).addr matches Some(b)
                ==> seen@.contains(b)) by {
                if i < k {
                    if let Some(b) = entries@[i].addr {
                        assert(seen_start.contains(b));
                    }
                } else {
                    if let Some(b) = entries@[i].addr {
                        if !seen_start.contains(b) {
                            assert(seen@[seen@.len() - 1] == b);
                        }
                    }
                }
            }
        }
        k = k + 1;
    }
    proof {
        assert forall|a: SockAddr| configured(entries@, a) implies exists|i: int| 0 <= i < r@.len() && #[trigger] r@[i].0 == a by {
            let i = choose|i: int| 0 <= i < entries@.len() && #[trigger] entries@[i].addr == Some(a);
            assert(seen@.contains(a));
            let j = choose|j: int| 0 <= j < seen@.len() && seen@[j] == a;
            assert(r@[j].0 == a);
        }
        assert(entries@.take(k as int) =~= entries@);
        assert(r@.map_values(|p: (SockAddr, bool)| p.0) =~= seen@);
    }
    r
}

fn wanted_pp(wanted: &Vec<(SockAddr, bool)>, a: SockAddr) -> (r: Option<bool>)
    ensures
        match r {
            Some(pp) => exists|i: int| 0 <= i < wanted@.len() && #[trigger] wanted@[i] == (a, pp),
            None => forall|i: int| 0 <= i < wanted@.len() ==> #[trigger] wanted@[i].0 != a,
        },
{
    let mut i: usize = 0;
    while i < wanted.len()
        invariant
            i <= wanted@.len(),
            forall|j: int| 0 <= j < i ==> #[trigger] wanted@[j].0 != a,
        decreases wanted@.len() - i,
    {
        if wanted[i].0 == a {
            return Some(wanted[i].1);
        }
        i = i + 1;
    }
    None
}

impl BackendState {
    /// Applies a configuration: the configured servers become the active ones.
    ///
    /// Entries whose address could not be parsed, and repeated addresses, are skipped. A server
    /// already active keeps its record, with its PROXY protocol setting updated; a new address
    /// gets a fresh record. Active servers that are no longer configured become stale: they stay
    /// known for the sessions that point at them.
    pub fn load_config(
        &mut self,
        entries: &Vec<ServerEntry>,
        default_pp: bool,
        motd_source: Option<MotdSource>,
        reload: bool,
    ) -> (r: BackendLoadResult)
        requires
            old(self).wf(),
            old(self).next_uid + entries@.len() < u64::MAX,
        ensures
            final(self).wf(),
            forall|i: int|
                0 <= i < final(self).records@.len() && (#[trigger] final(self).records@[i]).active
                    ==> configured(entries@, final(self).records@[i].addr)
                    && final(self).records@[i].proxy_protocol == configured_pp(
                    entries@,
                    final(self).records@[i].addr,
                    default_pp,
                ),
            forall|a: SockAddr| configured(entries@, a) ==> has_active_addr(final(self).records@, a),
            forall|i: int|
                0 <= i < old(self).records@.len() ==> (#[trigger] final(self).records@[i]).health
                    == old(self).records@[i].health && (final(self).records@[i].active <==> (old(
                    self).records@[i].active && configured(entries@, old(self).records@[i].addr))),
            records_kept(old(self).records@, final(self).records@),
            final(self).motd_sources@ == match motd_source {
                Some(m) => seq![m],
                None => Seq::<MotdSource>::empty(),
            },
            r.server_count == active(final(self).records@).len(),
            r.new_count == final(self).records@.len() - old(self).records@.len(),
            r.removed_count == removed_servers(old(self).records@, entries@),
            final(self).records@.subrange(
                old(self).records@.len() as int,
                final(self).records@.len() as int,
            ).map_values(|x: BackendServer| x.addr) == dedup_addrs(entries@).filter(
                |a: SockAddr| !has_active_addr(old(self).records@, a),
            ),
            r.reload == (reload || r.removed_count > 0),
            forall|i: int|
                old(self).records@.len() <= i < final(self).records@.len() ==> (#[trigger] final(
                    self).records@[i]).active && final(self).records@[i].health
                    == ServerHealth::new_spec(),
    {
        let wanted = distinct_entries(entries, default_pp);
        let initial_len = self.records.len();
        let mut removed: usize = 0;
        let mut i: usize = 0;
        while i < self.records.len()
            invariant
                i <= self.records@.len(),
                self.records@.len() == old(self).records@.len(),
                self.next_uid == old(self).next_uid,
                self.motd_sources == old(self).motd_sources,
                removed <= i,
                removed == removed_servers(old(self).records@.take(i as int), entries@),
                wanted@.len() <= entries@.len(),
                forall|v: int|
                    0 <= v < wanted@.len() ==> configured(entries@, #[trigger] wanted@[v].0)
                        && wanted@[v].1 == configured_pp(entries@, wanted@[v].0, default_pp),
                forall|a: SockAddr|
                    configured(entries@, a) ==> exists|v: int|
                        0 <= v < wanted@.len() && #[trigger] wanted@[v].0 == a,

                records_kept(old(self).records@, self.records@),
                records_ok(self.records@, self.next_uid),
                forall|j: int|
                    0 <= j < self.records@.len() ==> (#[trigger] self.records@[j]).health == old(
                        self,
                    ).records@[j].health,
                forall|j: int|
                    0 <= j < i ==> ((#[trigger] self.records@[j]).active <==> (old(self).records@[j].active
                        && configured(entries@, old(self).records@[j].addr))),
                forall|j: int|
                    i <= j < self.records@.len() ==> (#[trigger] self.records@[j]).active == old(
                        self,
                    ).records@[j].active,
                forall|j: int|
                    0 <= j < i && (#[trigger] self.records@[j]).active ==> configured(
                        entries@,
                        self.records@[j].addr,
                    ) && self.records@[j].proxy_protocol == configured_pp(
                        entries@,
                        self.records@[j].addr,
                        default_pp,
                    ),
            decreases self.records@.len() - i,
        {
            let mut server = self.records[i];
            let ghost before = self.records@;
            proof {
                let t = old(self).records@.take(i + 1);
                assert(t.drop_last() =~= old(self).records@.take(i as int));
                assert(t.last() == old(self).records@[i as int]);
                assert(server.addr == old(self).records@[i as int].addr) by {
                    assert(self.records@[i as int].uid == old(self).records@[i as int].uid);
                }
                assert(server.active == old(self).records@[i as int].active);
            }
            if server.active {
                match wanted_pp(&wanted, server.addr) {
                    Some(pp) => {
                        proof {
                            let k = choose|k: int| 0 <= k < wanted@.len() && #[trigger] wanted@[k] == (server.addr, pp);
                            assert(configured(entries@, wanted@[k].0));
                        }
                        server.proxy_protocol = pp;
                    },
                    None => {
                        proof {
                            if configured(entries@, server.addr) {
                                let k = choose|k: int| 0 <= k < wanted@.len() && #[trigger] wanted@[k].0 == server.addr;
                            }
                        }
                        server.active = false;
                        removed = removed + 1;
                    },
                }
                self.records.set(i, server);
                proof {
                    assert forall|j: int, l: int|
                        0 <= j < l < self.records@.len() && self.records@[j].active && self.records@[l].active
                        implies #[trigger] self.records@[j].addr != #[trigger] self.records@[l].addr by {
                        assert(before[j].active && before[l].active);
                    }
                }
            }
            i = i + 1;
        }
        let ghost mid = self.records@;
        assert(old(self).records@.take(i as int) =~= old(self).records@);
        let ghost wa = wanted@.map_values(|p: (SockAddr, bool)| p.0);
        proof {
            assert forall|a: SockAddr| configured(entries@, a) implies has_active_addr(mid, a)
                == has_active_addr(old(self).records@, a) by {
                if has_active_addr(mid, a) {
                    let j = choose|j: int| 0 <= j < mid.len() && #[trigger] mid[j].addr == a && mid[j].active;
                    assert(mid[j].uid == old(self).records@[j].uid);
                }
                if has_active_addr(old(self).records@, a) {
                    let j = choose|j: int| 0 <= j < old(self).records@.len() && #[trigger] old(self).records@[j].addr == a && old(self).records@[j].active;
                    assert(mid[j].uid == old(self).records@[j].uid);
                    assert(mid[j].active);
                }
            }
        }
        let mut w: usize = 0;
        while w < wanted.len()
            invariant
                w <= wanted@.len(),
                self.wf(),
                wanted@.len() <= entries@.len(),
                forall|v: int|
                    0 <= v < wanted@.len() ==> configured(entries@, #[trigger] wanted@[v].0)
                        && wanted@[v].1 == configured_pp(entries@, wanted@[v].0, default_pp),
                forall|a: SockAddr|
                    configured(entries@, a) ==> exists|v: int|
                        0 <= v < wanted@.len() && #[trigger] wanted@[v].0 == a,

                self.motd_sources == old(self).motd_sources,
                self.next_uid + (wanted@.len() - w) < u64::MAX,
                records_kept(old(self).records@, self.records@),
                mid.len() <= self.records@.len(),
                mid.len() == old(self).records@.len(),
                wa == wanted@.map_values(|p: (SockAddr, bool)| p.0),
                wa == dedup_addrs(entries@),
                forall|x: int, y: int| 0 <= x < y < wanted@.len() ==> wanted@[x].0 != wanted@[y].0,
                forall|a: SockAddr| configured(entries@, a) ==> has_active_addr(mid, a)
                    == has_active_addr(old(self).records@, a),
                self.records@.subrange(mid.len() as int, self.records@.len() as int).map_values(
                    |x: BackendServer| x.addr,
                ) == wa.take(w as int).filter(|a: SockAddr| !has_active_addr(mid, a)),
                forall|k: int|
                    mid.len() <= k < self.records@.len() ==> exists|v: int|
                        0 <= v < w && #[trigger] wa[v] == (#[trigger] self.records@[k]).addr,
                forall|j: int|
                    0 <= j < mid.len() ==> #[trigger] self.records@[j] == mid[j],
                forall|j: int|
                    mid.len() <= j < self.records@.len() ==> (#[trigger] self.records@[j]).active
                        && self.records@[j].health == ServerHealth::new_spec(),
                forall|j: int|
                    0 <= j < self.records@.len() && (#[trigger] self.records@[j]).active ==> configured(
                        entries@,
                        self.records@[j].addr,
                    ) && self.records@[j].proxy_protocol == configured_pp(
                        entries@,
                        self.records@[j].addr,
                        default_pp,
                    ),
                forall|v: int| 0 <= v < w ==> has_active_addr(self.records@, #[trigger] wanted@[v].0),
            decreases wanted@.len() - w,
        {
            let (a, pp) = wanted[w];
            let ghost before = self.records@;
            proof {
                assert(wa[w as int] == a);
                assert(wa.take(w + 1).drop_last() =~= wa.take(w as int));
                assert(wa.take(w + 1).last() == a);
                reveal(Seq::filter);
                assert(has_active_addr(before, a) == has_active_addr(mid, a)) by {
                    if has_active_addr(before, a) {
                        let j = choose|j: int| 0 <= j < before.len() && #[trigger] before[j].addr == a && before[j].active;
                        if j >= mid.len() {
                            let v = choose|v: int| 0 <= v < w && #[trigger] wa[v] == before[j].addr;
                            assert(wanted@[v].0 != wanted@[w as int].0);
                        } else {
                            assert(before[j] == mid[j]);
                        }
                    }
                    if has_active_addr(mid, a) {
                        let j = choose|j: int| 0 <= j < mid.len() && #[trigger] mid[j].addr == a && mid[j].active;
                        assert(before[j] == mid[j]);
                    }
                }
            }
            let found = self.get_server(a);
            if let Some(fi) = found {
                assert(self.records@[fi as int].addr == a && self.records@[fi as int].active);
            }
            if found.is_none() {
                let _ = self.register_server(a, pp, false);
                proof {
                    assert(self.records@[before.len() as int].addr == a);
                    let n = before.len();
                    assert(!has_uid(old(self).records@, self.records@[n as int].uid)) by {
                        if has_uid(old(self).records@, self.records@[n as int].uid) {
                            let k = choose|k: int| 0 <= k < old(self).records@.len() && #[trigger] old(self).records@[k].uid == self.records@[n as int].uid;
                            assert(before[k].uid == old(self).records@[k].uid);
                        }
                    }
                }
            }
            proof {
                let cur = self.records@;
                if cur.len() > before.len() {
                    assert(cur.subrange(mid.len() as int, cur.len() as int).map_values(
                        |x: BackendServer| x.addr,
                    ) =~= before.subrange(mid.len() as int, before.len() as int).map_values(
                        |x: BackendServer| x.addr,
                    ).push(a));
                } else {
                    assert(cur =~= before);
                }
                assert forall|k: int|
                    mid.len() <= k < cur.len() implies exists|v: int|
                        0 <= v < w + 1 && #[trigger] wa[v] == (#[trigger] cur[k]).addr by {
                    if k < before.len() {
                        assert(cur[k] == before[k]);
                        let v = choose|v: int| 0 <= v < w && #[trigger] wa[v] == before[k].addr;
                    } else {
                        assert(wa[w as int] == cur[k].addr);
                    }
                }
                assert forall|v: int| 0 <= v < w + 1 implies has_active_addr(self.records@, #[trigger] wanted@[v].0) by {
                    if v < w {
                        let k = choose|k: int| 0 <= k < before.len() && #[trigger] before[k].addr == wanted@[v].0 && before[k].active;
                        assert(self.records@[k] == before[k]);
                    }
                }
            }
            w = w + 1;
        }
        proof {
            assert(wa.take(w as int) =~= wa);
            lemma_filter_congruent(
                wa,
                |a: SockAddr| !has_active_addr(mid, a),
                |a: SockAddr| !has_active_addr(old(self).records@, a),
                entries@,
            );
        }
        self.motd_sources = match motd_source {
            Some(m) => vec![m],
            None => Vec::new(),
        };
        let server_count = self.active_servers().len();
        let new_count = self.records.len() - initial_len;
        BackendLoadResult { reload: reload || removed > 0, server_count, new_count, removed_count: removed }
    }
}

} // verus!
