use trakt::balancer::{DefaultLoadBalancer, LoadBalanceAlgorithm, LoadBalanceMethod};
use trakt::server::{BackendServer, ServerHealth};
use trakt::wire::SockAddr;

fn server(uid: u64, alive: bool, load: usize) -> BackendServer {
    let mut s = BackendServer::new(uid, SockAddr::V4 { ip: 0x0A000001 + uid as u32, port: 19132 }, false, true);
    s.health.alive = alive;
    s.health.ever_alive = alive;
    s.load_score = load;
    s
}

fn picks(lb: &mut DefaultLoadBalancer, servers: &Vec<BackendServer>, n: usize) -> Vec<Option<usize>> {
    (0..n).map(|_| lb.next(servers)).collect()
}

#[test]
fn round_robin_all_alive_cycles_in_order() {
    let servers = vec![server(0, true, 0), server(1, true, 0), server(2, true, 0)];
    let mut lb = DefaultLoadBalancer::init(LoadBalanceMethod::RoundRobin);
    let got = picks(&mut lb, &servers, 6);
    assert_eq!(got, vec![Some(0), Some(1), Some(2), Some(0), Some(1), Some(2)]);
}

#[test]
fn round_robin_skips_server_not_alive() {
    let servers = vec![server(0, true, 0), server(1, false, 0), server(2, true, 0)];
    let mut lb = DefaultLoadBalancer::init(LoadBalanceMethod::RoundRobin);
    let got = picks(&mut lb, &servers, 4);
    assert_eq!(got, vec![Some(0), Some(2), Some(0), Some(2)]);
}

#[test]
fn round_robin_ignores_alive_status_when_none_alive() {
    let servers = vec![server(0, false, 0), server(1, false, 0), server(2, false, 0)];
    let mut lb = DefaultLoadBalancer::init(LoadBalanceMethod::RoundRobin);
    let got = picks(&mut lb, &servers, 4);
    assert_eq!(got, vec![Some(0), Some(1), Some(2), Some(0)]);
}

#[test]
fn round_robin_empty_gives_none() {
    let servers: Vec<BackendServer> = Vec::new();
    let mut lb = DefaultLoadBalancer::init(LoadBalanceMethod::RoundRobin);
    assert_eq!(lb.next(&servers), None);
}

#[test]
fn least_connected_picks_least_loaded() {
    let mut servers = vec![server(0, true, 2), server(1, true, 0), server(2, true, 1)];
    let mut lb = DefaultLoadBalancer::init(LoadBalanceMethod::LeastConnected);
    assert_eq!(lb.next(&servers), Some(1));
    servers[1].modify_load(3);
    assert_eq!(lb.next(&servers), Some(2));
}

#[test]
fn least_connected_first_on_ties_and_skips_dead() {
    let servers = vec![server(0, false, 0), server(1, true, 1), server(2, true, 1)];
    let mut lb = DefaultLoadBalancer::init(LoadBalanceMethod::LeastConnected);
    assert_eq!(lb.next(&servers), Some(1));
}

#[test]
fn set_method_keeps_or_resets_cursor() {
    let servers = vec![server(0, true, 0), server(1, true, 0)];
    let mut lb = DefaultLoadBalancer::init(LoadBalanceMethod::RoundRobin);
    assert_eq!(lb.next(&servers), Some(0));
    lb.set_method(LoadBalanceMethod::RoundRobin);
    assert_eq!(lb.algo, LoadBalanceAlgorithm::RoundRobin { index: 1 });
    lb.set_method(LoadBalanceMethod::LeastConnected);
    assert_eq!(lb.get_method(), LoadBalanceMethod::LeastConnected);
    lb.set_method(LoadBalanceMethod::RoundRobin);
    assert_eq!(lb.algo, LoadBalanceAlgorithm::RoundRobin { index: 0 });
    assert_eq!(LoadBalanceAlgorithm::init(LoadBalanceMethod::LeastConnected).method(), LoadBalanceMethod::LeastConnected);
}

#[test]
fn health_hysteresis_sequence() {
    let mut h = ServerHealth::new();
    let outcomes = [true, false, false, false, true];
    let mut alive = Vec::new();
    let mut failed = Vec::new();
    for o in outcomes {
        h.record_probe(o);
        alive.push(h.alive);
        failed.push(h.failed_attempts);
    }
    assert_eq!(alive, vec![true, true, true, false, true]);
    assert_eq!(failed, vec![0, 1, 2, 3, 0]);
}

#[test]
fn health_never_alive_stays_dead() {
    let mut h = ServerHealth::new();
    h.record_probe(false);
    assert!(!h.alive);
    assert_eq!(h.failed_attempts, 1);
}

#[test]
fn modify_load_saturates() {
    let mut s = server(0, true, 1);
    s.modify_load(-5);
    assert_eq!(s.load_score, 0);
    s.modify_load(isize::MIN);
    assert_eq!(s.load_score, 0);
    s.load_score = usize::MAX - 1;
    s.modify_load(5);
    assert_eq!(s.load_score, usize::MAX);
    assert!(s.is_alive());
    assert!(!s.use_proxy_protocol());
}

#[test]
fn least_connected_picks_even_at_maximal_load() {
    let servers = vec![server(0, true, usize::MAX), server(1, false, 0)];
    let mut lb = DefaultLoadBalancer::init(LoadBalanceMethod::LeastConnected);
    assert_eq!(lb.next(&servers), Some(0));
    let empty: Vec<BackendServer> = Vec::new();
    assert_eq!(lb.next(&empty), None);
}
