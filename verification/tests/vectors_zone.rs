
use panoptidns::config::Config;
use panoptidns::name::Name;
use panoptidns::net::{parse_ip, IpAddr};
use panoptidns::record::{RData, RecordType};
use panoptidns::zone::{lookup, resolve, Outcome};

fn cfg(input: &str) -> Config {
    match Config::parse(input) {
        Ok(c) => c,
        Err(e) => panic!("bad test config:\n{}", e.to_string()),
    }
}

fn name(s: &str) -> Name {
    let parsed = hickory_proto::rr::domain::Name::from_ascii(s).unwrap();
    Name {
        labels: parsed.iter().map(|l| l.to_vec()).collect(),
        fqdn: parsed.is_fqdn(),
    }
}
fn to_ascii(name: &Name) -> String {
    let labels: Vec<&[u8]> = name.labels.iter().map(|l| l.as_slice()).collect();
    let mut n = hickory_proto::rr::domain::Name::from_labels(labels).unwrap();
    n.set_fqdn(name.fqdn);
    n.to_ascii()
}

fn v6(s: &str) -> u128 {
    match parse_ip(s) {
        Some(IpAddr::V6(a)) => a,
        other => panic!("not an IPv6 address: {s}: {other:?}"),
    }
}

fn rzl() -> Config {
    cfg("network 2001:4d88:100e:ccc0::/64\n\
         \tresolves to ipv6-%DIGITS%-blah.nutzer.raumzeitlabor.de\n")
}
fn answers(config: &Config, qname: &str, qtype: RecordType) -> Option<Vec<String>> {
    match resolve(config, &name(qname), qtype) {
        Outcome::Answer { records, .. } => Some(
            records
                .iter()
                .map(|r| match &r.data {
                    RData::PTR(ptr) => to_ascii(ptr),
                    RData::AAAA(a) => hickory_proto::rr::rdata::AAAA((*a).into()).to_string(),
                    other => format!("{other:?}"),
                })
                .collect(),
        ),
        Outcome::NoName { .. } | Outcome::NoZone => None,
    }
}

const RZL_PTR_QUERY: &str =
    "7.c.e.2.3.4.e.f.f.f.b.d.9.1.2.0.0.c.c.c.e.0.0.1.8.8.d.4.1.0.0.2.ip6.arpa.";

#[test]
fn empty_config_matches_nothing() {
    let empty = Config::default();
    assert!(lookup::match_ptr(&empty, &name(RZL_PTR_QUERY)).is_none());
    assert!(lookup::match_forward(&empty, &name("ipv6-a-blah.nutzer.raumzeitlabor.de.")).is_none());
    assert!(matches!(
        resolve(&empty, &name(RZL_PTR_QUERY), RecordType::PTR),
        Outcome::NoZone
    ));
}

#[test]
fn ptr_matches_configured_network_only() {
    let config = rzl();
    assert!(lookup::match_ptr(&config, &name(RZL_PTR_QUERY)).is_some());
    assert!(lookup::match_ptr(
        &config,
        &name("7.c.e.2.3.4.e.f.f.f.b.d.9.1.2.0.1.c.c.c.e.0.0.1.8.8.d.4.1.0.0.2.ip6.arpa.")
    )
    .is_none());
}

#[test]
fn forward_requires_the_exact_digit_count() {
    let config = rzl();
    assert!(
        lookup::match_forward(&config, &name("ipv6-a-blah.nutzer.raumzeitlabor.de.")).is_none()
    );
    assert!(lookup::match_forward(
        &config,
        &name("ipv6-0219dbfffe432ec7-blah.nutzer.raumzeitlabor.de.")
    )
    .is_some());
    assert!(lookup::match_forward(
        &config,
        &name("ipv6-0219dbfffe432ec7-blah.servers.raumzeitlabor.de.")
    )
    .is_none());
}

#[test]
fn empty_config_ptr_query_has_no_zone() {
    assert!(answers(&Config::default(), RZL_PTR_QUERY, RecordType::PTR).is_none());
}

#[test]
fn ptr_answer_matches_perl_vector() {
    assert_eq!(
        answers(&rzl(), RZL_PTR_QUERY, RecordType::PTR).as_deref(),
        Some(&["ipv6-0219dbfffe432ec7-blah.nutzer.raumzeitlabor.de.".to_string()][..])
    );
}

#[test]
fn ptr_answer_carries_ttl_3600_from_the_original() {
    let config = rzl();
    let Outcome::Answer { records, .. } = resolve(&config, &name(RZL_PTR_QUERY), RecordType::PTR)
    else {
        panic!("expected an answer");
    };
    assert_eq!(records.len(), 1);
    assert_eq!(records[0].record_type(), RecordType::PTR);
    assert_eq!(records[0].ttl, 3600);
}

#[test]
fn aaaa_answer_matches_perl_vector() {
    assert_eq!(
        answers(
            &rzl(),
            "ipv6-0219dbfffe432ec7-blah.nutzer.raumzeitlabor.de.",
            RecordType::AAAA
        )
        .as_deref(),
        Some(&["2001:4d88:100e:ccc0:219:dbff:fe43:2ec7".to_string()][..])
    );
}

#[test]
fn a_query_on_a_matching_name_is_empty_noerror() {
    let got = answers(
        &rzl(),
        "ipv6-0219dbfffe432ec7-blah.nutzer.raumzeitlabor.de.",
        RecordType::A,
    );
    assert_eq!(got.as_deref(), Some(&[][..]), "must be NOERROR with 0 RRs");
}

#[test]
fn non_64_prefix_aaaa_vector() {
    let config = cfg("network 2001:4d88:100e:ccc0:1111:2222:3333:0000/112\n\
                      \tresolves to ipv6-%DIGITS%-blah.nutzer.raumzeitlabor.de\n");
    assert_eq!(config.zones[0].host_nibbles, 4);
    assert_eq!(
        answers(
            &config,
            "ipv6-aaff-blah.nutzer.raumzeitlabor.de.",
            RecordType::AAAA
        )
        .as_deref(),
        Some(&["2001:4d88:100e:ccc0:1111:2222:3333:aaff".to_string()][..])
    );
}
fn monsternett() -> Config {
    cfg("network 2001:840:5000:2::/64\n\
         \tresolves to oslo-%DIGITS%.ipv6.monsternett.net\n\
         network 2a00:15a0::/64\n\
         \tresolves to mail-%DIGITS%.ipv6.monsternett.net\n\
         network 2a00:15a0:2::/64\n\
         \tresolves to web-%DIGITS%.ipv6.monsternett.net\n")
}

const MONSTERNETT_PTR_QUERY: &str =
    "1.0.0.0.2.9.1.0.0.0.0.0.0.0.0.0.0.0.0.0.2.0.0.0.0.a.5.1.0.0.a.2.ip6.arpa.";

#[test]
fn same_domain_empty_config_has_no_zone() {
    assert!(answers(&Config::default(), MONSTERNETT_PTR_QUERY, RecordType::PTR).is_none());
}

#[test]
fn same_domain_ptr_selects_the_right_zone() {
    assert_eq!(
        answers(&monsternett(), MONSTERNETT_PTR_QUERY, RecordType::PTR).as_deref(),
        Some(&["web-0000000001920001.ipv6.monsternett.net.".to_string()][..]),
        "must pick the web- zone, and keep all leading zeros"
    );
}

#[test]
fn same_domain_aaaa_round_trips() {
    assert_eq!(
        answers(
            &monsternett(),
            "web-0000000001920001.ipv6.monsternett.net.",
            RecordType::AAAA
        )
        .as_deref(),
        Some(&["2a00:15a0:2::192:1".to_string()][..])
    );
}

#[test]
fn same_domain_each_prefix_resolves_to_its_own_zone() {
    let config = monsternett();
    for (qname, expected) in [
        (
            "oslo-0000000000000001.ipv6.monsternett.net.",
            "2001:840:5000:2::1",
        ),
        (
            "mail-0000000000000002.ipv6.monsternett.net.",
            "2a00:15a0::2",
        ),
        (
            "web-0000000000000003.ipv6.monsternett.net.",
            "2a00:15a0:2::3",
        ),
    ] {
        assert_eq!(
            answers(&config, qname, RecordType::AAAA).as_deref(),
            Some(&[expected.to_string()][..]),
            "{qname}"
        );
    }
}

#[test]
fn appended_labels_never_match() {
    let config = rzl();
    for qname in [
        "ipv6-0219dbfffe432ec7-blah.nutzer.raumzeitlabor.de.evil.com.",
        "prefix.ipv6-0219dbfffe432ec7-blah.nutzer.raumzeitlabor.de.",
    ] {
        assert!(
            lookup::match_forward(&config, &name(qname)).is_none(),
            "{qname} must not match"
        );
    }
}

#[test]
fn non_hex_digits_never_match() {
    let config = rzl();
    assert!(lookup::match_forward(
        &config,
        &name("ipv6-zzzzzzzzzzzzzzzz-blah.nutzer.raumzeitlabor.de.")
    )
    .is_none());
}

#[test]
fn uppercase_hex_resolves_identically() {
    let config = rzl();
    assert_eq!(
        answers(
            &config,
            "IPV6-0219DBFFFE432EC7-BLAH.NUTZER.RAUMZEITLABOR.DE.",
            RecordType::AAAA
        )
        .as_deref(),
        Some(&["2001:4d88:100e:ccc0:219:dbff:fe43:2ec7".to_string()][..])
    );
}

#[test]
fn partial_reverse_name_is_in_zone_but_nameless() {
    let config = rzl();
    assert!(matches!(
        resolve(
            &config,
            &name("0.c.c.c.e.0.0.1.8.8.d.4.1.0.0.2.ip6.arpa."),
            RecordType::PTR
        ),
        Outcome::NoName { .. }
    ));
    assert!(matches!(
        resolve(
            &config,
            &name("something-else.nutzer.raumzeitlabor.de."),
            RecordType::AAAA
        ),
        Outcome::NoName { .. }
    ));
    assert!(matches!(
        resolve(&config, &name("www.example.com."), RecordType::A),
        Outcome::NoZone
    ));
}

#[test]
fn overlapping_networks_use_longest_prefix() {
    let config = cfg("network 2001:db8::/32\n\
                      \tresolves to wide-%DIGITS%.example.net\n\
                      network 2001:db8:1:2::/64\n\
                      \tresolves to narrow-%DIGITS%.example.net\n");
    let addr = v6("2001:db8:1:2::1");
    let zone = lookup::zone_for_addr(&config, addr).expect("a zone must match");
    assert_eq!(zone.mask, 64);
    assert_eq!(zone.resolves_to, "narrow-%DIGITS%.example.net");
    let addr = v6("2001:db8:9:9::1");
    assert_eq!(
        lookup::zone_for_addr(&config, addr).map(|z| z.mask),
        Some(32)
    );
}

#[test]
fn ptr_to_aaaa_round_trip_is_identity() {
    let config = monsternett();
    for zone in &config.zones {
        for host in [0u128, 1, 0x0192_0001, 0xdead_beef_cafe_babe] {
            let addr = zone.prefix | (host & !panoptidns::nibble::mask_bits(zone.mask));
            let fwd = panoptidns::zone::synth::forward_name(zone, addr).expect("renders");
            let back = lookup::match_forward(&config, &fwd);
            assert_eq!(
                back.map(|(z, a)| (z.prefix, a)),
                Some((zone.prefix, addr)),
                "round trip failed for {}",
                to_ascii(&fwd)
            );
        }
    }
}

#[test]
fn dashed_digits_round_trip() {
    let config = cfg("network 2001:db8::/64\nresolves to h-%DIGITS-DASHED%-x.example.net\n");
    let zone = &config.zones[0];
    let addr = v6("2001:db8::219:dbff:fe43:2ec7");
    let fwd = panoptidns::zone::synth::forward_name(zone, addr).unwrap();
    assert_eq!(to_ascii(&fwd), "h-0219-dbff-fe43-2ec7-x.example.net.");
    assert_eq!(lookup::match_zone_forward(zone, &fwd), Some(addr));
    for bad in [
        "h-0219dbfffe432ec7-x.example.net.",
        "h-021-9dbff-fe43-2ec7-x.example.net.",
        "h-0219-dbff-fe43-2ecg-x.example.net.",
    ] {
        assert_eq!(lookup::match_zone_forward(zone, &name(bad)), None, "{bad}");
    }
    assert_eq!(
        lookup::match_zone_forward(zone, &name("H-0219-DBFF-FE43-2EC7-X.EXAMPLE.NET.")),
        Some(addr)
    );
}

#[test]
fn any_queries_get_what_there_is() {
    let config = rzl();
    assert_eq!(
        answers(&config, RZL_PTR_QUERY, RecordType::ANY).as_deref(),
        Some(&["ipv6-0219dbfffe432ec7-blah.nutzer.raumzeitlabor.de.".to_string()][..])
    );
    assert_eq!(
        answers(
            &config,
            "ipv6-0219dbfffe432ec7-blah.nutzer.raumzeitlabor.de.",
            RecordType::ANY
        )
        .as_deref(),
        Some(&["2001:4d88:100e:ccc0:219:dbff:fe43:2ec7".to_string()][..])
    );
    assert!(answers(&config, RZL_PTR_QUERY, RecordType::A).is_none());
}

#[test]
fn the_query_name_is_echoed_as_owner() {
    let config = rzl();
    let q = name("7.C.e.2.3.4.e.f.f.f.b.d.9.1.2.0.0.c.c.c.e.0.0.1.8.8.d.4.1.0.0.2.IP6.arpa.");
    match resolve(&config, &q, RecordType::PTR) {
        Outcome::Answer { records, .. } => {
            assert_eq!(records[0].name.labels, q.labels);
        }
        other => panic!("expected an answer, got {other:?}"),
    }
}

#[test]
fn an_earlier_template_can_shadow_a_later_one() {
    let config = cfg("network 2001:db8:1::/60\nresolves to a%DIGITS%.x\n\
                      network 2001:db8::/56\nresolves to %DIGITS%.x\n");
    let wide = &config.zones[1];
    let addr = wide.prefix | 0xa0_0000_0000_0000_0001;
    let fwd = panoptidns::zone::synth::forward_name(wide, addr).unwrap();
    assert_eq!(lookup::match_zone_forward(wide, &fwd), Some(addr));
    let (zone, other) = lookup::match_forward(&config, &fwd).unwrap();
    assert_eq!(zone.mask, 60);
    assert_ne!(other, addr);
}
