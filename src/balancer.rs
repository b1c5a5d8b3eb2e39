//! Picking the server for a new session.
use vstd::prelude::*;

use crate::server::BackendServer;

verus! {

/// Load balancing method.
#[derive(Clone, Copy, Debug, PartialEq, Eq, Structural)]
pub enum LoadBalanceMethod {
    /// Pick each server in turn.
    RoundRobin,
    /// Pick the least connected server.
    LeastConnected,
}

/// A load balancing method together with its state.
#[derive(Clone, Copy, Debug, PartialEq, Eq, Structural)]
pub enum LoadBalanceAlgorithm {
    RoundRobin { index: usize },
    LeastConnected,
}

impl LoadBalanceAlgorithm {
    pub open spec fn spec_method(&self) -> LoadBalanceMethod {
        match *self {
            LoadBalanceAlgorithm::RoundRobin { .. } => LoadBalanceMethod::RoundRobin,
            LoadBalanceAlgorithm::LeastConnected => LoadBalanceMethod::LeastConnected,
        }
    }

    /// A fresh algorithm for a method: round-robin starts at the first server.
    pub fn init(method: LoadBalanceMethod) -> (r: Self)
        ensures
            r == (match method {
                LoadBalanceMethod::RoundRobin => LoadBalanceAlgorithm::RoundRobin { index: 0 },
                LoadBalanceMethod::LeastConnected => LoadBalanceAlgorithm::LeastConnected,
            }),
    {
        match method {
            LoadBalanceMethod::RoundRobin => Self::RoundRobin { index: 0 },
            LoadBalanceMethod::LeastConnected => Self::LeastConnected,
        }
    }

    pub fn method(&self) -> (r: LoadBalanceMethod)
        ensures
            r == self.spec_method(),
    {
        match *self {
            Self::RoundRobin { .. } => LoadBalanceMethod::RoundRobin,
            Self::LeastConnected => LoadBalanceMethod::LeastConnected,
        }
    }
}

/// Number of alive servers.
pub open spec fn alive_count(servers: Seq<BackendServer>) -> nat
    decreases servers.len(),
{
    if servers.len() == 0 {
        0
    } else {
        alive_count(servers.drop_last()) + if servers.last().health.alive {
            1nat
        } else {
            0nat
        }
    }
}

/// Whether the server at `i` may be picked: when some server is alive, only alive ones may.
pub open spec fn eligible(servers: Seq<BackendServer>, i: int) -> bool {
    0 <= i < servers.len() && (alive_count(servers) == 0 || servers[i].health.alive)
}

/// The round-robin cursor after a pick at `c`.
pub open spec fn rr_step(c: nat, len: nat) -> nat {
    if c + 1 >= len {
        0
    } else {
        c + 1
    }
}

/// Round-robin scan: up to `left` attempts from cursor `c`; the picked index, if any, and the
/// cursor after the scan.
pub open spec fn rr_scan(servers: Seq<BackendServer>, c: nat, left: nat) -> (Option<nat>, nat)
    decreases left,
{
    if left == 0 {
        (None, c)
    } else {
        let next = rr_step(c, servers.len());
        if eligible(servers, c as int) {
            (Some(c), next)
        } else {
            rr_scan(servers, next, (left - 1) as nat)
        }
    }
}

/// Whether `i` is the least loaded eligible server, the first one on ties.
pub open spec fn least_loaded(servers: Seq<BackendServer>, i: int) -> bool {
    &&& eligible(servers, i)
    &&& forall|j: int| #[trigger]
        eligible(servers, j) ==> servers[i].load_score <= servers[j].load_score
    &&& forall|j: int|
        0 <= j < i && #[trigger] eligible(servers, j) ==> servers[i].load_score
            < servers[j].load_score
}

/// What a pick does: the server picked, by index, and the algorithm state after it.
pub open spec fn next_result(
    algo: LoadBalanceAlgorithm,
    servers: Seq<BackendServer>,
    r: Option<usize>,
    after: LoadBalanceAlgorithm,
) -> bool {
    match algo {
        LoadBalanceAlgorithm::RoundRobin { index } => {
            let (pick, cursor) = rr_scan(servers, index as nat, servers.len());
            &&& r == (match pick {
                Some(p) => Some(p as usize),
                None => None::<usize>,
            })
            &&& after == LoadBalanceAlgorithm::RoundRobin {
                index: cursor as usize,
            }
        },
        LoadBalanceAlgorithm::LeastConnected => {
            &&& after == algo
            &&& match r {
                Some(i) => least_loaded(servers, i as int),
                None => servers.len() == 0,
            }
        },
    }
}

/// A round-robin scan only picks an eligible server.
pub proof fn lemma_rr_scan_eligible(servers: Seq<BackendServer>, c: nat, left: nat)
    ensures
        rr_scan(servers, c, left).0 matches Some(p) ==> eligible(servers, p as int),
    decreases left,
{
    if left > 0 {
        lemma_rr_scan_eligible(servers, rr_step(c, servers.len()), (left - 1) as nat);
    }
}

/// With every server alive, round-robin picks the server at the cursor and moves the cursor
/// to the next one, back to the first after the last.
pub proof fn lemma_round_robin_in_turn(servers: Seq<BackendServer>, c: nat)
    requires
        c < servers.len(),
        forall|i: int| 0 <= i < servers.len() ==> (#[trigger] servers[i]).health.alive,
    ensures
        rr_scan(servers, c, servers.len()) == (Some(c), if c + 1 == servers.len() {
            0
        } else {
            c + 1
        }),
{
    assert(servers[c as int].health.alive);
    assert(alive_count(servers) > 0) by {
        lemma_alive_count_positive(servers, c as int);
    }
}

proof fn lemma_alive_exists(servers: Seq<BackendServer>)
    requires
        alive_count(servers) > 0,
    ensures
        exists|i: int| 0 <= i < servers.len() && #[trigger] servers[i].health.alive,
    decreases servers.len(),
{
    let d = servers.drop_last();
    if servers.last().health.alive {
        assert(servers[servers.len() - 1].health.alive);
    } else {
        lemma_alive_exists(d);
        let i = choose|i: int| 0 <= i < d.len() && #[trigger] d[i].health.alive;
        assert(servers[i] == d[i]);
    }
}

/// A non-empty list always has a server that may be picked.
pub proof fn lemma_some_eligible(servers: Seq<BackendServer>)
    requires
        servers.len() > 0,
    ensures
        exists|j: int| #[trigger] eligible(servers, j),
{
    if alive_count(servers) > 0 {
        lemma_alive_exists(servers);
        let i = choose|i: int| 0 <= i < servers.len() && #[trigger] servers[i].health.alive;
        assert(eligible(servers, i));
    } else {
        assert(eligible(servers, 0));
    }
}

proof fn lemma_alive_count_positive(servers: Seq<BackendServer>, i: int)
    requires
        0 <= i < servers.len(),
        servers[i].health.alive,
    ensures
        alive_count(servers) > 0,
    decreases servers.len(),
{
    if i < servers.len() - 1 {
        assert(servers.drop_last()[i] == servers[i]);
        lemma_alive_count_positive(servers.drop_last(), i);
    }
}

/// A pick is an eligible server.
pub proof fn lemma_next_eligible(
    algo: LoadBalanceAlgorithm,
    servers: Seq<BackendServer>,
    i: usize,
    after: LoadBalanceAlgorithm,
)
    requires
        next_result(algo, servers, Some(i), after),
        servers.len() <= usize::MAX,
    ensures
        eligible(servers, i as int),
{
    if let LoadBalanceAlgorithm::RoundRobin { index } = algo {
        lemma_rr_scan_eligible(servers, index as nat, servers.len());
    }
}

/// Default load balancer: the algorithm and its state.
#[derive(Clone, Copy, Debug, PartialEq, Eq, Structural)]
pub struct DefaultLoadBalancer {
    pub algo: LoadBalanceAlgorithm,
}

fn count_alive(servers: &Vec<BackendServer>) -> (r: usize)
    ensures
        r == alive_count(servers@),
{
    let mut n: usize = 0;
    let mut i: usize = 0;
    while i < servers.len()
        invariant
            i <= servers@.len(),
            n == alive_count(servers@.take(i as int)),
            n <= i,
        decreases servers@.len() - i,
    {
        assert(servers@.take(i + 1).drop_last() =~= servers@.take(i as int));
        if servers[i].health.alive {
            n = n + 1;
        }
        i = i + 1;
    }
    assert(servers@.take(i as int) =~= servers@);
    n
}

impl DefaultLoadBalancer {
    pub fn init(method: LoadBalanceMethod) -> (r: Self)
        ensures
            r.algo == LoadBalanceAlgorithm::init_spec(method),
    {
        DefaultLoadBalancer { algo: LoadBalanceAlgorithm::init(method) }
    }

    /// The method in use.
    pub fn get_method(&self) -> (r: LoadBalanceMethod)
        ensures
            r == self.algo.spec_method(),
    {
        self.algo.method()
    }

    /// Sets the method; the state is reset only when the method changes.
    pub fn set_method(&mut self, method: LoadBalanceMethod)
        ensures
            final(self).algo == if old(self).algo.spec_method() == method {
                old(self).algo
            } else {
                LoadBalanceAlgorithm::init_spec(method)
            },
    {
        if self.algo.method() != method {
            self.algo = LoadBalanceAlgorithm::init(method);
        }
    }

    /// Picks the next server among `servers`, by its index.
    ///
    /// When at least one server is alive, servers that are not alive are skipped; when none
    /// is, alive status is ignored.
    pub fn next(&mut self, servers: &Vec<BackendServer>) -> (r: Option<usize>)
        ensures
            next_result(old(self).algo, servers@, r, final(self).algo),
    {
        let len = servers.len();
        if len == 0 {
            proof {
                reveal_with_fuel(rr_scan, 1);
            }
            return None;
        }
        let respect_alive = count_alive(servers) > 0;
        match self.algo {
            LoadBalanceAlgorithm::RoundRobin { index } => {
                let mut cursor = index;
                let mut left = len;
                while left > 0
                    invariant
                        len == servers@.len(),
                        left <= len,
                        old(self).algo == (LoadBalanceAlgorithm::RoundRobin { index }),
                        respect_alive == (alive_count(servers@) > 0),
                        rr_scan(servers@, index as nat, len as nat) == rr_scan(
                            servers@,
                            cursor as nat,
                            left as nat,
                        ),
                    decreases left,
                {
                    let pos = cursor;
                    cursor = if pos >= len - 1 {
                        0
                    } else {
                        pos + 1
                    };
                    assert(cursor as nat == rr_step(pos as nat, len as nat));
                    if pos < len && (!respect_alive || servers[pos].health.alive) {
                        assert(eligible(servers@, pos as int));
                        assert(rr_scan(servers@, pos as nat, left as nat) == (
                        Some(pos as nat), cursor as nat));
                        self.algo = LoadBalanceAlgorithm::RoundRobin { index: cursor };
                        return Some(pos);
                    }
                    left = left - 1;
                }
                self.algo = LoadBalanceAlgorithm::RoundRobin { index: cursor };
                None
            },
            LoadBalanceAlgorithm::LeastConnected => {
                let mut min_load = usize::MAX;
                let mut target: Option<usize> = None;
                let mut i: usize = 0;
                while i < len
                    invariant
                        len == servers@.len(),
                        i <= len,
                        respect_alive == (alive_count(servers@) > 0),
                        match target {
                            Some(t) => {
                                &&& t < i
                                &&& eligible(servers@, t as int)
                                &&& min_load == servers@[t as int].load_score
                                &&& forall|j: int|
                                    0 <= j < i && #[trigger] eligible(servers@, j)
                                        ==> min_load <= servers@[j].load_score
                                &&& forall|j: int|
                                    0 <= j < t && #[trigger] eligible(servers@, j)
                                        ==> min_load < servers@[j].load_score
                            },
                            None => forall|j: int| 0 <= j < i ==> !#[trigger] eligible(servers@, j),
                        },
                    decreases len - i,
                {
                    let load = servers[i].load_score;
                    if (target.is_none() || load < min_load) && (!respect_alive
                        || servers[i].health.alive) {
                        min_load = load;
                        target = Some(i);
                    }
                    i = i + 1;
                }
                proof {
                    if target is None {
                        lemma_some_eligible(servers@);
                    }
                }
                target
            },
        }
    }
}

impl LoadBalanceAlgorithm {
    pub open spec fn init_spec(method: LoadBalanceMethod) -> LoadBalanceAlgorithm {
        match method {
            LoadBalanceMethod::RoundRobin => LoadBalanceAlgorithm::RoundRobin { index: 0 },
            LoadBalanceMethod::LeastConnected => LoadBalanceAlgorithm::LeastConnected,
        }
    }
}

} // verus!
