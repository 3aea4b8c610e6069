use panoptidns::config::{Config, RrlParams};
use panoptidns::name::Name;
use panoptidns::net::IpAddr;
use panoptidns::record::{DNSClass, RData, Record, RecordType};
use panoptidns::rrl::{Decision, Rrl};
use panoptidns::server::handler::{
    decide, dispose, finish, handle, reload, EdnsRequest, Handling, Reply, Request, Response,
    ResponseCode, Step,
};
use panoptidns::server::Zones;

const CONFIG: &str = "\
primary ns1.example.net.
hostmaster hostmaster.example.net.
ns ns1.example.net.
ns ns2.example.net.
rrl off

network 2001:4d88:100e:ccc0::/64
\tresolves to ipv6-%DIGITS%-blah.nutzer.raumzeitlabor.de
";

const PTR_QUERY: &str = "7.c.e.2.3.4.e.f.f.f.b.d.9.1.2.0.0.c.c.c.e.0.0.1.8.8.d.4.1.0.0.2.ip6.arpa.";
const FWD_NAME: &str = "ipv6-0219dbfffe432ec7-blah.nutzer.raumzeitlabor.de.";

struct Harness {
    zones: Zones,
    rrl: Rrl,
}

fn start(text: &str) -> Harness {
    let config = match Config::parse(text) {
        Ok(c) => c,
        Err(e) => panic!("test config invalid:\n{}", e.to_string()),
    };
    let rrl = Rrl::new(config.params.rrl);
    Harness {
        zones: Zones::new(config),
        rrl,
    }
}

fn name(s: &str) -> Name {
    let parsed = hickory_proto::rr::domain::Name::from_ascii(s).unwrap();
    Name {
        labels: parsed.iter().map(|l| l.to_vec()).collect(),
        fqdn: parsed.is_fqdn(),
    }
}

fn to_ascii(name: &Name) -> String {
    let labels: Vec<&[u8]> = name.labels.iter().map(|l| l.as_slice()).collect();
    let mut n = hickory_proto::rr::domain::Name::from_labels(labels).unwrap();
    n.set_fqdn(name.fqdn);
    n.to_ascii()
}

fn request(qname: Name, qtype: RecordType) -> Request {
    Request {
        is_query: true,
        edns: None,
        qname,
        qtype,
        qclass: DNSClass::IN,
        src: IpAddr::V4(0x7f00_0001),
        is_tcp: false,
    }
}

fn respond(h: &mut Harness, request: &Request) -> Response {
    match handle(&h.zones, &mut h.rrl, request) {
        Handling::Respond(response) => response,
        other => panic!("expected a response, got {other:?}"),
    }
}

fn ask(h: &mut Harness, qname: &str, qtype: RecordType) -> Response {
    respond(h, &request(name(qname), qtype))
}

#[test]
fn ptr_query_answers_over_udp() {
    let mut h = start(CONFIG);
    let response = ask(&mut h, PTR_QUERY, RecordType::PTR);
    assert_eq!(response.code, ResponseCode::NoError);
    assert!(response.authoritative, "we hold the delegation");
    assert!(!response.recursion_available, "we never offer recursion");
    assert!(!response.authentic_data);
    assert_eq!(response.answers.len(), 1);
    match &response.answers[0].data {
        RData::PTR(ptr) => assert_eq!(to_ascii(ptr), FWD_NAME),
        other => panic!("expected PTR, got {other:?}"),
    }
}

#[test]
fn aaaa_query_answers_over_udp() {
    let mut h = start(CONFIG);
    let response = ask(&mut h, FWD_NAME, RecordType::AAAA);
    assert_eq!(response.code, ResponseCode::NoError);
    assert_eq!(response.answers.len(), 1);
    match &response.answers[0].data {
        RData::AAAA(a) => assert_eq!(*a, 0x2001_4d88_100e_ccc0_0219_dbff_fe43_2ec7),
        other => panic!("expected AAAA, got {other:?}"),
    }
}

#[test]
fn tcp_and_udp_agree() {
    let mut h = start(CONFIG);
    let over_udp = ask(&mut h, PTR_QUERY, RecordType::PTR);
    let mut tcp = request(name(PTR_QUERY), RecordType::PTR);
    tcp.is_tcp = true;
    let over_tcp = respond(&mut h, &tcp);
    assert_eq!(over_udp.answers, over_tcp.answers);
    assert_eq!(over_udp.code, over_tcp.code);
}

#[test]
fn a_query_on_a_synthesized_name_is_empty_noerror() {
    let mut h = start(CONFIG);
    let response = ask(&mut h, FWD_NAME, RecordType::A);
    assert_eq!(response.code, ResponseCode::NoError);
    assert_eq!(response.answers.len(), 0);
    assert!(response.authoritative);
    assert_eq!(response.authority.len(), 1);
    assert_eq!(response.authority[0].record_type(), RecordType::SOA);
    assert_eq!(response.authority[0].ttl, 60);
}

#[test]
fn out_of_zone_is_refused_by_default() {
    let mut h = start(CONFIG);
    let response = ask(&mut h, "www.example.com.", RecordType::A);
    assert_eq!(response.code, ResponseCode::Refused);
    assert!(!response.authoritative);
}

#[test]
fn out_of_zone_can_be_nxdomain_for_compatibility() {
    let mut h = start(&format!("out-of-zone nxdomain\n{CONFIG}"));
    let response = ask(&mut h, "www.example.com.", RecordType::A);
    assert_eq!(response.code, ResponseCode::NXDomain);
}

#[test]
fn in_zone_nxdomain_carries_a_soa() {
    let mut h = start(CONFIG);
    let response = ask(
        &mut h,
        "does-not-exist.nutzer.raumzeitlabor.de.",
        RecordType::AAAA,
    );
    assert_eq!(response.code, ResponseCode::NXDomain);
    assert!(response.authoritative);
    let soas = response
        .authority
        .iter()
        .filter(|r| r.record_type() == RecordType::SOA)
        .count();
    assert_eq!(soas, 1, "authority section must hold exactly one SOA");
    assert_eq!(response.authority[0].name, name("nutzer.raumzeitlabor.de."));
}

#[test]
fn apex_soa_and_ns_are_served() {
    let mut h = start(CONFIG);

    let soa = ask(&mut h, "nutzer.raumzeitlabor.de.", RecordType::SOA);
    assert_eq!(soa.code, ResponseCode::NoError);
    assert_eq!(soa.answers.len(), 1);
    assert_eq!(soa.answers[0].record_type(), RecordType::SOA);
    match &soa.answers[0].data {
        RData::SOA(data) => {
            assert_eq!(data.serial, 1);
            assert_eq!(data.refresh, 604_800);
            assert_eq!(data.mname, name("ns1.example.net."));
        }
        other => panic!("expected SOA, got {other:?}"),
    }

    let ns = ask(&mut h, "nutzer.raumzeitlabor.de.", RecordType::NS);
    assert_eq!(ns.answers.len(), 2, "both configured nameservers");
    assert_eq!(ns.answers[0].ttl, 3600);

    let rev = ask(
        &mut h,
        "0.c.c.c.e.0.0.1.8.8.d.4.1.0.0.2.ip6.arpa.",
        RecordType::SOA,
    );
    assert_eq!(rev.answers.len(), 1);

    let all = ask(&mut h, "nutzer.raumzeitlabor.de.", RecordType::ANY);
    assert_eq!(all.answers.len(), 3);
}

#[test]
fn zone_transfer_is_refused() {
    let mut h = start(CONFIG);
    for qtype in [RecordType::AXFR, RecordType::IXFR] {
        let response = ask(&mut h, "nutzer.raumzeitlabor.de.", qtype);
        assert_eq!(response.code, ResponseCode::Refused);
    }
}

#[test]
fn other_classes_are_refused() {
    let mut h = start(CONFIG);
    let mut chaos = request(name(PTR_QUERY), RecordType::PTR);
    chaos.qclass = DNSClass::Other(3);
    assert_eq!(respond(&mut h, &chaos).code, ResponseCode::Refused);
}

#[test]
fn unknown_edns_version_gets_badvers() {
    let mut h = start(CONFIG);
    let mut q = request(name(PTR_QUERY), RecordType::PTR);
    q.edns = Some(EdnsRequest {
        version: 1,
        max_payload: 4096,
    });
    let response = respond(&mut h, &q);
    assert_eq!(response.code, ResponseCode::BADVERS);
    assert_eq!(response.edns_payload, Some(1232));
}

#[test]
fn edns_opt_is_echoed_and_payload_clamped() {
    let mut h = start(CONFIG);
    let mut q = request(name(PTR_QUERY), RecordType::PTR);
    for (asked, told) in [(65535, 1232), (1232, 1232), (1000, 1000), (0, 512)] {
        q.edns = Some(EdnsRequest {
            version: 0,
            max_payload: asked,
        });
        assert_eq!(respond(&mut h, &q).edns_payload, Some(told));
    }
    q.is_tcp = true;
    assert_eq!(respond(&mut h, &q).edns_payload, Some(1232));
    q.edns = None;
    assert_eq!(respond(&mut h, &q).edns_payload, None);
}

#[test]
fn hostile_query_bytes_do_not_kill_the_server() {
    let mut h = start(CONFIG);
    let zone_labels = name("0.c.c.c.e.0.0.1.8.8.d.4.1.0.0.2.ip6.arpa.").labels;
    let hostile: Vec<Vec<u8>> = vec![
        b";".to_vec(),
        b"a;b".to_vec(),
        b"\"".to_vec(),
        b"a\"b".to_vec(),
        b"(".to_vec(),
        b")".to_vec(),
        b"\\".to_vec(),
        b"\n".to_vec(),
        b"\t".to_vec(),
        b" ".to_vec(),
        vec![0x00],
        vec![0xFF],
        vec![0x80, 0x81, 0x82],
        vec![b'a'; 63],
    ];
    for evil in hostile {
        let mut labels = vec![evil.clone()];
        labels.extend(zone_labels.iter().cloned());
        let q = Name::from_labels(labels).unwrap();
        let denied = respond(&mut h, &request(q, RecordType::PTR));
        assert_eq!(denied.code, ResponseCode::NXDomain);
        assert!(denied.answers.is_empty());

        let followup = ask(&mut h, PTR_QUERY, RecordType::PTR);
        assert_eq!(followup.code, ResponseCode::NoError);
        assert_eq!(followup.answers.len(), 1);
    }
}

#[test]
fn overlong_reverse_names_are_declined_not_truncated() {
    let mut h = start(CONFIG);
    let mut labels: Vec<Vec<u8>> = (0..90).map(|_| b"a".to_vec()).collect();
    labels.extend(name("0.c.c.c.e.0.0.1.8.8.d.4.1.0.0.2.ip6.arpa.").labels);
    let q = Name::from_labels(labels).unwrap();
    let response = respond(&mut h, &request(q, RecordType::PTR));
    assert!(
        response.answers.is_empty(),
        "a malformed reverse name must never produce an answer"
    );
    let followup = ask(&mut h, PTR_QUERY, RecordType::PTR);
    assert_eq!(followup.code, ResponseCode::NoError);
}

#[test]
fn case_insensitive_but_strictly_hex() {
    let mut h = start(CONFIG);

    let upper = ask(
        &mut h,
        "IPV6-0219DBFFFE432EC7-BLAH.NUTZER.RAUMZEITLABOR.DE.",
        RecordType::AAAA,
    );
    assert_eq!(upper.answers.len(), 1, "DNS names are case-insensitive");

    let not_hex = ask(
        &mut h,
        "ipv6-zzzzzzzzzzzzzzzz-blah.nutzer.raumzeitlabor.de.",
        RecordType::AAAA,
    );
    assert!(not_hex.answers.is_empty());

    let appended = ask(
        &mut h,
        "ipv6-0219dbfffe432ec7-blah.nutzer.raumzeitlabor.de.evil.com.",
        RecordType::AAAA,
    );
    assert!(
        appended.answers.is_empty(),
        "matching must be a full match, not a suffix match"
    );
}

#[test]
fn notify_and_update_are_not_implemented_rather_than_fatal() {
    let mut h = start(CONFIG);
    let mut q = request(name("nutzer.raumzeitlabor.de."), RecordType::SOA);
    q.is_query = false;
    assert_eq!(respond(&mut h, &q).code, ResponseCode::NotImp);
    let followup = ask(&mut h, PTR_QUERY, RecordType::PTR);
    assert_eq!(followup.code, ResponseCode::NoError);
}

#[test]
fn original_v17_config_still_serves() {
    let mut h = start(
        "network 2001:4d88:100e:ccc0::/64\n\
         \tresolves to ipv6-%DIGITS%.nutzer.raumzeitlabor.de\n",
    );
    let response = ask(&mut h, PTR_QUERY, RecordType::PTR);
    assert_eq!(response.code, ResponseCode::NoError);
    match &response.answers[0].data {
        RData::PTR(ptr) => assert_eq!(
            to_ascii(ptr),
            "ipv6-0219dbfffe432ec7.nutzer.raumzeitlabor.de."
        ),
        other => panic!("expected PTR, got {other:?}"),
    }
}

const WITH_UPSTREAM: &str = "\
rrl off
network 2001:db8::/64
resolves to a-%DIGITS%.example.net
with upstream 192.0.2.1
network 2001:db8:1::/64
resolves to b-%DIGITS%.example.net
with upstream 192.0.2.2
network 2001:db8:2::/64
resolves to c-%DIGITS%.example.net
with upstream 192.0.2.1
";

const UPSTREAM_PTR: &str =
    "1.0.0.0.0.0.0.0.0.0.0.0.0.0.0.0.0.0.0.0.1.0.0.0.8.b.d.0.1.0.0.2.ip6.arpa.";

#[test]
fn upstreams_are_collected_once() {
    let h = start(WITH_UPSTREAM);
    assert_eq!(
        h.zones.upstreams,
        vec![IpAddr::V4(0xc000_0201), IpAddr::V4(0xc000_0202)]
    );
}

#[test]
fn upstream_overrides_the_synthesized_name() {
    let mut h = start(WITH_UPSTREAM);
    let q = request(name(UPSTREAM_PTR), RecordType::PTR);
    let synthesized = match handle(&h.zones, &mut h.rrl, &q) {
        Handling::Consult {
            upstream,
            synthesized,
        } => {
            assert_eq!(upstream, 1);
            synthesized
        }
        other => panic!("expected a consultation, got {other:?}"),
    };
    assert_eq!(synthesized.len(), 1);

    let relayed = vec![Record::from_rdata(
        name(UPSTREAM_PTR),
        60,
        RData::PTR(name("real.example.net.")),
    )];
    match finish(&h.zones, &mut h.rrl, &q, synthesized, relayed) {
        Handling::Respond(response) => {
            assert!(response.authoritative);
            assert!(
                matches!(&response.answers[0].data, RData::PTR(p) if *p == name("real.example.net."))
            );
        }
        other => panic!("expected a response, got {other:?}"),
    }
}

#[test]
fn upstream_without_an_override_leaves_the_synthesized_name() {
    let mut h = start(WITH_UPSTREAM);
    let q = request(name(UPSTREAM_PTR), RecordType::PTR);
    let Step::Consult { synthesized, .. } =
        decide(&h.zones, &q.qname, RecordType::PTR, DNSClass::IN)
    else {
        panic!("expected a consultation");
    };
    match finish(&h.zones, &mut h.rrl, &q, synthesized, Vec::new()) {
        Handling::Respond(response) => {
            assert!(matches!(
                &response.answers[0].data,
                RData::PTR(p) if *p == name("b-0000000000000001.example.net.")
            ));
        }
        other => panic!("expected a response, got {other:?}"),
    }
    let direct = decide(&h.zones, &q.qname, RecordType::ANY, DNSClass::IN);
    assert!(matches!(direct, Step::Answer(_)), "only PTR queries consult");
}

#[test]
fn limited_clients_get_silence_or_truncation() {
    let mut h = start(&CONFIG.replace("rrl off", "ttl 3600"));
    h.rrl = Rrl::new(RrlParams {
        responses_per_second: 1,
        burst: 1,
        slip: 2,
        ..RrlParams::default()
    });
    let q = request(name(PTR_QUERY), RecordType::PTR);
    assert_eq!(respond(&mut h, &q).answers.len(), 1);
    let truncated = respond(&mut h, &q);
    assert!(truncated.truncated);
    assert!(truncated.answers.is_empty());
    assert_eq!(handle(&h.zones, &mut h.rrl, &q), Handling::Silence);
    let mut tcp = request(name(PTR_QUERY), RecordType::PTR);
    tcp.is_tcp = true;
    assert_eq!(respond(&mut h, &tcp).answers.len(), 1);
}

#[test]
fn disposal_follows_the_decision() {
    let q = request(name(PTR_QUERY), RecordType::PTR);
    match dispose(Reply::refused(), Decision::Allow, &q, 1232) {
        Handling::Respond(r) => assert_eq!(r.code, ResponseCode::Refused),
        other => panic!("expected a response, got {other:?}"),
    }
    assert_eq!(
        dispose(Reply::refused(), Decision::Drop, &q, 1232),
        Handling::Silence
    );
    match dispose(Reply::refused(), Decision::Truncate, &q, 1232) {
        Handling::Respond(r) => {
            assert!(r.truncated);
            assert_eq!(r.code, ResponseCode::NoError);
        }
        other => panic!("expected a response, got {other:?}"),
    }
}

#[test]
fn an_empty_answer_at_an_apex_carries_the_soa() {
    let mut h = start(
        "primary ns1.example.net.\nhostmaster hostmaster.example.net.\nrrl off\n\
         network 2001:db8::/64\n\tresolves to h-%DIGITS%.example.org\n",
    );
    for apex in ["example.org.", "0.0.0.0.0.0.0.0.8.b.d.0.1.0.0.2.ip6.arpa."] {
        let ns = ask(&mut h, apex, RecordType::NS);
        assert_eq!(ns.code, ResponseCode::NoError);
        assert!(ns.authoritative);
        assert!(ns.answers.is_empty());
        assert_eq!(ns.authority.len(), 1);
        assert_eq!(ns.authority[0].record_type(), RecordType::SOA);
        assert_eq!(ns.authority[0].name, name(apex));
        assert_eq!(ns.authority[0].ttl, 60);

        let denied = ask(&mut h, apex, RecordType::A);
        assert_eq!(denied.authority.len(), 1);
        assert_eq!(denied.authority[0].name, name(apex));
    }

    let mut bare = start("rrl off\nnetwork 2001:db8::/64\n\tresolves to h-%DIGITS%.example.org\n");
    let soa = ask(&mut bare, "example.org.", RecordType::SOA);
    assert_eq!(soa.code, ResponseCode::NoError);
    assert!(soa.answers.is_empty() && soa.authority.is_empty());
}

#[test]
fn a_bad_file_leaves_the_running_configuration_in_force() {
    let running = start(CONFIG).zones;
    let (kept, errors) = reload(running.clone(), "netwrok 2001:db8::/64\n");
    assert_eq!(kept, running);
    assert_eq!(errors.map(|e| e.len()), Some(1));

    let body = "network 2001:db8::/48\n\tresolves to h-%DIGITS%.example.org\n\
                \twith upstream 192.0.2.1\n";
    let (next, errors) = reload(running, body);
    assert!(errors.is_none());
    assert_eq!(next, start(body).zones);
    assert_eq!(next.config.zones[0].mask, 48);
    assert_eq!(next.upstreams, vec![IpAddr::V4(0xc000_0201)]);
}
