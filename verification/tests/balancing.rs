use vsp::discovery::StaticDiscovery;
use vsp::load_balancer::{RandomBalancer, RoundRobinBalancer, WeightedBalancer};
use vsp::service::ServiceInfo;

fn s(v: &str) -> String {
    v.to_string()
}

fn healthy(name: &str, host: &str, port: u16, weight_millis: u64) -> ServiceInfo {
    let mut i = ServiceInfo::new(s(name), s(host), port, Some(weight_millis));
    i.mark_healthy();
    i
}

#[test]
fn round_robin_visits_each_candidate_once_in_order() {
    let candidates = vec![
        healthy("svc", "h0", 9000, 1000),
        healthy("svc", "h1", 9001, 1000),
        healthy("svc", "h2", 9002, 1000),
    ];
    let mut balancer = RoundRobinBalancer::new();
    for expected_port in [9000u16, 9001, 9002] {
        let pick = balancer.select(&candidates).expect("non-empty list");
        assert_eq!(pick.port(), expected_port);
    }
    let again = balancer.select(&candidates).expect("non-empty list");
    assert_eq!(again.port(), 9000, "one full round later the first repeats");
}

#[test]
fn round_robin_empty_list_selects_nothing_and_keeps_the_counter() {
    let mut balancer = RoundRobinBalancer::new();
    assert!(balancer.select(&vec![]).is_none());
    assert!(balancer.select(&vec![]).is_none());
    let candidates = vec![
        healthy("svc", "h0", 9000, 1000),
        healthy("svc", "h1", 9001, 1000),
    ];
    let pick = balancer.select(&candidates).expect("non-empty list");
    assert_eq!(pick.port(), 9000, "empty selections do not advance the rotation");
}

#[test]
fn weighted_respects_proportions_in_static_registry() {
    let mut registry = StaticDiscovery::new();
    registry.register(healthy("echo", "127.0.0.1", 9001, 1000));
    registry.register(healthy("echo", "127.0.0.1", 9002, 3000));
    let candidates = registry.query(&s("echo"));
    assert_eq!(candidates.len(), 2);

    let balancer = WeightedBalancer::new();
    let trials = 4000usize;
    let mut second: usize = 0;
    for _ in 0..trials {
        let pick = balancer.select(&candidates).expect("non-empty list");
        if pick.port() == 9002 {
            second += 1;
        }
    }
    let share = second as f64 / trials as f64;
    assert!(
        (share - 0.75).abs() <= 0.05,
        "expected roughly 75% for the triple-weight instance, got {share}"
    );
}

#[test]
fn weighted_zero_total_falls_back_to_uniform() {
    let candidates = vec![
        healthy("svc", "a", 1, 0),
        healthy("svc", "b", 2, 0),
    ];
    let balancer = WeightedBalancer::new();
    for _ in 0..50 {
        let pick = balancer.select(&candidates).expect("fallback still selects");
        assert!(pick.port() == 1 || pick.port() == 2);
    }
    assert!(balancer.select(&vec![]).is_none());
}

#[test]
fn weighted_single_candidate_always_wins() {
    let candidates = vec![healthy("svc", "only", 7, 500)];
    let balancer = WeightedBalancer::new();
    for _ in 0..20 {
        assert_eq!(balancer.select(&candidates).unwrap().port(), 7);
    }
}

#[test]
fn random_balancer_stays_in_range() {
    let candidates = vec![
        healthy("svc", "a", 1, 1000),
        healthy("svc", "b", 2, 1000),
        healthy("svc", "c", 3, 1000),
    ];
    let balancer = RandomBalancer::new();
    for _ in 0..100 {
        let p = balancer.select(&candidates).unwrap().port();
        assert!(p >= 1 && p <= 3);
    }
    assert!(balancer.select(&vec![]).is_none());
}
