use panoptidns::name::Name;
use panoptidns::net::IpAddr;
use panoptidns::record::{DNSClass, RData, Record};
use panoptidns::upstream::{
    filter_upstream, upstream_qname, Breaker, LookupAction, LookupEvent, Upstream,
    BREAKER_COOLDOWN, BREAKER_THRESHOLD, MAX_RELAYED_RECORDS, MAX_RELAY_TTL, MIN_RELAY_TTL,
};

fn name(s: &str) -> Name {
    let parsed = hickory_proto::rr::domain::Name::from_ascii(s).unwrap();
    Name {
        labels: parsed.iter().map(|l| l.to_vec()).collect(),
        fqdn: parsed.is_fqdn(),
    }
}

fn to_ascii(name: &Name) -> String {
    let labels: Vec<&[u8]> = name.labels.iter().map(|l| l.as_slice()).collect();
    let mut n = hickory_proto::rr::domain::Name::from_labels(labels).unwrap();
    n.set_fqdn(name.fqdn);
    n.to_ascii()
}

fn ptr(owner: &str, target: &str, ttl: u32) -> Record {
    Record::from_rdata(name(owner), ttl, RData::PTR(name(target)))
}

const QNAME: &str = "1.0.0.0.0.0.0.0.0.0.0.0.0.0.0.0.0.c.c.c.e.0.0.1.8.8.d.4.1.0.0.2.ip6.arpa.";

fn up(qname: &str) -> Name {
    upstream_qname(&name(qname)).unwrap()
}

#[test]
fn appends_upstream_label() {
    assert_eq!(to_ascii(&up(QNAME)), format!("{QNAME}upstream."));
}

#[test]
fn relative_names_stay_relative() {
    let q = name("a.b");
    assert!(!q.fqdn);
    let uq = upstream_qname(&q).unwrap();
    assert!(!uq.fqdn);
    assert_eq!(uq.labels[2], b"upstream".to_vec());
}

#[test]
fn names_without_room_for_the_label_are_declined() {
    let mut labels: Vec<Vec<u8>> = Vec::new();
    for _ in 0..123 {
        labels.push(vec![b'a']);
    }
    let q = Name::from_labels(labels).unwrap();
    assert!(upstream_qname(&q).is_none());
}

#[test]
fn keeps_a_well_formed_override() {
    let q = name(QNAME);
    let uq = up(QNAME);
    let answers = vec![ptr(&to_ascii(&uq), "real-host.example.net.", 600)];
    let kept = filter_upstream(&q, &uq, &answers);
    assert_eq!(kept.len(), 1);
    assert_eq!(kept[0].name, q);
    assert_eq!(kept[0].ttl, 600);
    assert!(matches!(&kept[0].data, RData::PTR(p) if *p == name("real-host.example.net.")));
}

#[test]
fn rejects_everything_not_explicitly_allowed() {
    let q = name(QNAME);
    let uq = up(QNAME);
    let uq_str = to_ascii(&uq);

    let mut chaos = ptr(&uq_str, "chaos.example.net.", 600);
    chaos.dns_class = DNSClass::Other(3);
    let answers = vec![
        ptr("victim.example.com.", "attacker.example.net.", 600),
        ptr(QNAME, "sneaky.example.net.", 600),
        Record::from_rdata(uq.clone(), 600, RData::A(0xc000_0201)),
        Record::from_rdata(uq.clone(), 600, RData::AAAA(1)),
        Record::from_rdata(uq.clone(), 600, RData::CNAME(name("elsewhere.example.net."))),
        ptr(&format!("extra.{uq_str}"), "nope.example.net.", 600),
        chaos,
    ];

    assert!(
        filter_upstream(&q, &uq, &answers).is_empty(),
        "nothing in this set may be relayed"
    );
}

#[test]
fn owner_match_is_case_insensitive_but_exact() {
    let q = name(QNAME);
    let uq = up(QNAME);
    let upper = to_ascii(&uq).to_uppercase();
    let answers = vec![ptr(&upper, "host.example.net.", 600)];
    assert_eq!(
        filter_upstream(&q, &uq, &answers).len(),
        1,
        "DNS names are case-insensitive"
    );
}

#[test]
fn clamps_ttl() {
    let q = name(QNAME);
    let uq = up(QNAME);
    let uq_str = to_ascii(&uq);
    let answers = vec![ptr(&uq_str, "a.example.net.", 0)];
    assert_eq!(filter_upstream(&q, &uq, &answers)[0].ttl, MIN_RELAY_TTL);

    let answers = vec![ptr(&uq_str, "a.example.net.", u32::MAX)];
    assert_eq!(filter_upstream(&q, &uq, &answers)[0].ttl, MAX_RELAY_TTL);
}

#[test]
fn caps_record_count() {
    let q = name(QNAME);
    let uq = up(QNAME);
    let uq_str = to_ascii(&uq);
    let answers: Vec<Record> = (0..100)
        .map(|i| ptr(&uq_str, &format!("h{i}.example.net."), 600))
        .collect();
    let kept = filter_upstream(&q, &uq, &answers);
    assert_eq!(kept.len(), MAX_RELAYED_RECORDS);
    assert!(matches!(&kept[7].data, RData::PTR(p) if *p == name("h7.example.net.")));
}

#[test]
fn empty_answers_yield_nothing() {
    let q = name(QNAME);
    let uq = up(QNAME);
    assert!(filter_upstream(&q, &uq, &Vec::new()).is_empty());
}

#[test]
fn breaker_opens_after_threshold_failures_and_is_idempotent() {
    let now = 1_000_000;
    let mut breaker = Breaker::default();
    assert!(!breaker.is_open(now));
    for _ in 0..(BREAKER_THRESHOLD - 1) {
        assert!(!breaker.record_failure(now));
    }
    assert!(
        breaker.record_failure(now),
        "threshold failure trips it"
    );
    assert!(breaker.is_open(now));
    assert!(!breaker.record_failure(now));
    breaker.record_success();
    assert!(!breaker.is_open(now), "success closes it");
}

#[test]
fn breaker_closes_when_the_cooldown_is_over() {
    let mut breaker = Breaker::default();
    for _ in 0..BREAKER_THRESHOLD {
        let _ = breaker.record_failure(5);
    }
    assert!(breaker.is_open(5 + BREAKER_COOLDOWN - 1));
    assert!(!breaker.is_open(5 + BREAKER_COOLDOWN));
    assert_eq!(breaker, Breaker::default());
}

#[test]
fn lookup_walks_from_start_to_records() {
    let q = name(QNAME);
    let mut upstream = Upstream::new(IpAddr::V6(2), 300);
    assert_eq!(upstream.addr(), IpAddr::V6(2));
    assert_eq!(
        upstream.lookup_ptr(&q, 0, LookupEvent::Start),
        LookupAction::Acquire
    );
    assert_eq!(
        upstream.lookup_ptr(&q, 0, LookupEvent::Permit(true)),
        LookupAction::Ask(up(QNAME))
    );
    let found = vec![
        ptr(&to_ascii(&up(QNAME)), "real.example.net.", 600),
        ptr("other.example.net.", "no.example.net.", 600),
    ];
    match upstream.lookup_ptr(&q, 0, LookupEvent::Found(found)) {
        LookupAction::Done(records) => {
            assert_eq!(records, vec![ptr(QNAME, "real.example.net.", 600)]);
        }
        other => panic!("expected records, got {other:?}"),
    }
}

#[test]
fn lookup_yields_nothing_on_trouble() {
    let q = name(QNAME);
    let mut upstream = Upstream::new(IpAddr::V4(1), 300);
    for event in [
        LookupEvent::Permit(false),
        LookupEvent::NotFound,
        LookupEvent::TimedOut,
    ] {
        assert_eq!(
            upstream.lookup_ptr(&q, 0, event),
            LookupAction::Done(Vec::new())
        );
    }
    for _ in 0..BREAKER_THRESHOLD {
        let _ = upstream.lookup_ptr(&q, 0, LookupEvent::TimedOut);
    }
    assert_eq!(
        upstream.lookup_ptr(&q, 1, LookupEvent::Start),
        LookupAction::Done(Vec::new())
    );
    assert_eq!(
        upstream.lookup_ptr(&q, BREAKER_COOLDOWN, LookupEvent::Start),
        LookupAction::Acquire
    );
}
