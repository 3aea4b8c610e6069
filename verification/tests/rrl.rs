use panoptidns::config::RrlParams;
use panoptidns::net::{parse_ip, IpAddr};
use panoptidns::rrl::{ClientKey, Decision, Kind, Rrl};

fn ip(s: &str) -> IpAddr {
    match parse_ip(s) {
        Some(addr) => addr,
        None => panic!("test address"),
    }
}

#[test]
fn v4_aggregates_to_prefix() {
    let a = ClientKey::new(ip("192.0.2.7"), 24, 64);
    let b = ClientKey::new(ip("192.0.2.200"), 24, 64);
    let c = ClientKey::new(ip("192.0.3.7"), 24, 64);
    assert_eq!(a, b, "same /24 shares a bucket");
    assert_ne!(a, c, "different /24 does not");
    assert_eq!(a, ClientKey::V4(0xc000_0200));
}

#[test]
fn v6_aggregates_to_prefix() {
    let a = ClientKey::new(ip("2001:db8:1:2::1"), 24, 64);
    let b = ClientKey::new(ip("2001:db8:1:2::ffff"), 24, 64);
    let c = ClientKey::new(ip("2001:db8:1:3::1"), 24, 64);
    assert_eq!(a, b, "same /64 shares a bucket");
    assert_ne!(a, c);
    assert_eq!(a, ClientKey::V6(0x2001_0db8_0001_0002));

    assert_eq!(
        ClientKey::new(ip("2001:db8:1:2::1"), 24, 32),
        ClientKey::new(ip("2001:db8:9:9::1"), 24, 32)
    );
}

#[test]
fn prefix_zero_collapses_everything() {
    assert_eq!(
        ClientKey::new(ip("192.0.2.1"), 0, 0),
        ClientKey::new(ip("198.51.100.1"), 0, 0)
    );
    assert_eq!(ClientKey::new(ip("2001:db8::1"), 0, 0), ClientKey::V6(0));
}

#[test]
fn prefixes_beyond_the_address_keep_it_whole() {
    assert_eq!(
        ClientKey::new(ip("192.0.2.7"), 255, 255),
        ClientKey::V4(0xc000_0207)
    );
    assert_eq!(
        ClientKey::new(ip("2001:db8:1:2::1"), 255, 255),
        ClientKey::V6(0x2001_0db8_0001_0002)
    );
}

#[test]
fn disabled_always_allows() {
    let mut rrl = Rrl::new(RrlParams {
        enabled: false,
        ..RrlParams::default()
    });
    assert!(!rrl.enabled());
    for _ in 0..1000 {
        assert_eq!(
            rrl.decide(ip("192.0.2.1"), Kind::Answer, false),
            Decision::Allow
        );
    }
    assert_eq!(rrl.tracked_clients(), 0);
}

#[test]
fn tcp_is_never_limited() {
    let mut rrl = Rrl::new(RrlParams {
        responses_per_second: 1,
        burst: 1,
        ..RrlParams::default()
    });
    assert!(rrl.enabled());
    for _ in 0..100 {
        assert_eq!(
            rrl.decide(ip("192.0.2.1"), Kind::Answer, true),
            Decision::Allow
        );
    }
}

#[test]
fn burst_is_allowed_then_suppressed() {
    let mut rrl = Rrl::new(RrlParams {
        responses_per_second: 1,
        burst: 5,
        slip: 0,
        ..RrlParams::default()
    });
    let addr = ip("192.0.2.1");
    let mut allowed = 0;
    for _ in 0..20 {
        if rrl.decide(addr, Kind::Answer, false) == Decision::Allow {
            allowed += 1;
        }
    }
    assert!(
        (1..=6).contains(&allowed),
        "allowed {allowed}, expected ~burst"
    );
}

#[test]
fn answer_and_negative_budgets_are_independent() {
    let mut rrl = Rrl::new(RrlParams {
        responses_per_second: 1,
        burst: 2,
        slip: 0,
        ..RrlParams::default()
    });
    let addr = ip("192.0.2.1");
    while rrl.decide(addr, Kind::Negative, false) == Decision::Allow {}
    assert_eq!(rrl.decide(addr, Kind::Answer, false), Decision::Allow);
}

#[test]
fn slip_yields_periodic_truncation() {
    let mut rrl = Rrl::new(RrlParams {
        responses_per_second: 1,
        burst: 1,
        slip: 2,
        ..RrlParams::default()
    });
    let addr = ip("192.0.2.1");
    let mut decisions = Vec::new();
    for _ in 0..12 {
        decisions.push(rrl.decide(addr, Kind::Answer, false));
    }
    let truncated = decisions
        .iter()
        .filter(|d| **d == Decision::Truncate)
        .count();
    let dropped = decisions.iter().filter(|d| **d == Decision::Drop).count();
    assert!(truncated > 0, "slip must produce some truncated replies");
    assert!(dropped > 0, "slip must still drop most of them");
}

#[test]
fn separate_clients_have_separate_budgets() {
    let mut rrl = Rrl::new(RrlParams {
        responses_per_second: 1,
        burst: 1,
        slip: 0,
        ..RrlParams::default()
    });
    assert_eq!(
        rrl.decide(ip("192.0.2.1"), Kind::Answer, false),
        Decision::Allow
    );
    assert_eq!(
        rrl.decide(ip("198.51.100.1"), Kind::Answer, false),
        Decision::Allow
    );
}

#[test]
fn sweep_is_safe_on_an_empty_limiter() {
    let mut rrl = Rrl::new(RrlParams::default());
    rrl.sweep();
    assert_eq!(rrl.tracked_clients(), 0);
}

#[test]
fn clients_are_counted_per_budget() {
    let mut rrl = Rrl::new(RrlParams {
        responses_per_second: 1,
        burst: 50,
        ..RrlParams::default()
    });
    let _ = rrl.decide(ip("192.0.2.1"), Kind::Answer, false);
    let _ = rrl.decide(ip("192.0.2.9"), Kind::Answer, false);
    let _ = rrl.decide(ip("192.0.2.1"), Kind::Negative, false);
    let _ = rrl.decide(ip("198.51.100.1"), Kind::Negative, false);
    assert_eq!(rrl.tracked_clients(), 3);
}

#[test]
fn sweep_keeps_clients_that_are_still_paying_back() {
    let mut rrl = Rrl::new(RrlParams {
        responses_per_second: 1,
        burst: 50,
        ..RrlParams::default()
    });
    for _ in 0..20 {
        let _ = rrl.decide(ip("192.0.2.1"), Kind::Answer, false);
    }
    rrl.sweep();
    assert_eq!(rrl.tracked_clients(), 1);
}

#[test]
fn settle_truncates_every_slipth() {
    let mut rrl = Rrl::new(RrlParams {
        slip: 3,
        ..RrlParams::default()
    });
    let mut seen = Vec::new();
    for _ in 0..7 {
        seen.push(rrl.settle(false));
    }
    assert_eq!(
        seen,
        vec![
            Decision::Truncate,
            Decision::Drop,
            Decision::Drop,
            Decision::Truncate,
            Decision::Drop,
            Decision::Drop,
            Decision::Truncate
        ]
    );
    assert_eq!(rrl.settle(true), Decision::Allow);
    assert_eq!(rrl.settle(false), Decision::Drop);
}

#[test]
fn zero_quota_falls_back_to_one_per_second() {
    let mut rrl = Rrl::new(RrlParams {
        responses_per_second: 0,
        burst: 0,
        slip: 0,
        ..RrlParams::default()
    });
    let addr = ip("192.0.2.1");
    assert_eq!(rrl.decide(addr, Kind::Answer, false), Decision::Allow);
    assert_eq!(rrl.decide(addr, Kind::Answer, false), Decision::Drop);
}

#[test]
fn a_whole_burst_is_allowed_in_either_budget() {
    let mut rrl = Rrl::new(RrlParams {
        responses_per_second: 1,
        burst: 5,
        slip: 0,
        ..RrlParams::default()
    });
    let addr = ip("192.0.2.1");
    for kind in [Kind::Answer, Kind::Negative] {
        let decisions: Vec<Decision> = (0..20).map(|_| rrl.decide(addr, kind, false)).collect();
        assert!(decisions[..5].iter().all(|d| *d == Decision::Allow));
        assert!(decisions[5..].iter().any(|d| *d == Decision::Drop));
    }
}

#[test]
fn prefixes_beyond_what_counts_are_capped() {
    assert_eq!(
        ClientKey::new(ip("192.0.2.1"), 200, 64),
        ClientKey::new(ip("192.0.2.1"), 32, 64)
    );
    assert_eq!(
        ClientKey::new(ip("2001:db8::1"), 24, 128),
        ClientKey::new(ip("2001:db8::2"), 24, 64)
    );
}
