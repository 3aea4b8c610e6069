
use panoptidns::config::parse::parse;
use panoptidns::config::{Config, ConfigErrorKind, FwdLabel, OutOfZonePolicy};
use panoptidns::name::Name;
use panoptidns::net::IpAddr;

fn parse_ok(input: &str) -> Config {
    match Config::parse(input) {
        Ok(cfg) => cfg,
        Err(errs) => panic!("expected a valid config, got:\n{}", errs.to_string()),
    }
}

fn to_ascii(name: &Name) -> String {
    let labels: Vec<&[u8]> = name.labels.iter().map(|l| l.as_slice()).collect();
    let mut n = hickory_proto::rr::domain::Name::from_labels(labels).unwrap();
    n.set_fqdn(name.fqdn);
    n.to_ascii()
}

fn shown(addr: IpAddr) -> String {
    match addr {
        IpAddr::V4(a) => hickory_proto::rr::rdata::A(a.into()).to_string(),
        IpAddr::V6(a) => hickory_proto::rr::rdata::AAAA(a.into()).to_string(),
    }
}

fn parse_err(input: &str) -> Vec<ConfigErrorKind> {
    match Config::parse(input) {
        Ok(cfg) => panic!("expected errors, got a valid config: {cfg:?}"),
        Err(errs) => errs.errors.into_iter().map(|e| e.kind).collect(),
    }
}

#[test]
fn empty_config_has_no_zones() {
    assert!(!parse_ok("").has_zones());
}

#[test]
fn comment_only_config_has_no_zones() {
    assert!(!parse_ok("# meh").has_zones());
}

#[test]
fn single_zone_fixture() {
    let cfg = parse_ok(
        "# RaumZeitLabor\n\
         network 2001:4d88:100e:ccc0::/64\n\
         \tresolves to ipv6-%DIGITS%.nutzer.raumzeitlabor.de\n\
         \twith upstream 2001:4d88:100e:1::2\n",
    );
    assert_eq!(cfg.zones.len(), 1);
    let zone = &cfg.zones[0];
    assert_eq!(zone.mask, 64);
    assert_eq!(zone.host_nibbles, 16);
    assert_eq!(zone.resolves_to, "ipv6-%DIGITS%.nutzer.raumzeitlabor.de");
    assert_eq!(
        zone.upstream.map(shown).as_deref(),
        Some("2001:4d88:100e:1::2")
    );
    assert_eq!(
        to_ascii(&zone.ptr_zone).trim_end_matches('.'),
        "0.c.c.c.e.0.0.1.8.8.d.4.1.0.0.2.ip6.arpa"
    );
}

#[test]
fn mixed_case_keywords_and_selective_lowercasing() {
    let cfg = parse_ok(
        "# RaumZeitLabor\n\
         network 2001:4d88:100e:ccc0::/64\n\
         \tresolves to ipv6-%DIGITS%.nutzer.raumzeitlabor.de\n\
         \twith upstream 2001:4d88:100e:1::2\n\
         \n\
         # Chaostreff (spaces instead of tabs, uppercase keywords)\n\
         NETWORK 2001:4D88:100E:CD1::/64\n\
                 ReSoLvEs tO IPV6-%DIGITS%.treff.noname-ev.de\n\
                 WiTh UpStReAm 2001:4d88:100e:1::2\n",
    );
    assert_eq!(cfg.zones.len(), 2);
    let z1 = &cfg.zones[0];
    let z2 = &cfg.zones[1];

    assert_eq!(z1.resolves_to, "ipv6-%DIGITS%.nutzer.raumzeitlabor.de");
    assert_eq!(
        to_ascii(&z2.ptr_zone).trim_end_matches('.'),
        "1.d.c.0.e.0.0.1.8.8.d.4.1.0.0.2.ip6.arpa"
    );
    assert_eq!(z2.resolves_to, "IPV6-%DIGITS%.treff.noname-ev.de");
    let FwdLabel::Digits { pre, pre_lower, .. } = &z2.fwd.labels[z2.fwd.digits_at] else {
        panic!("expected a digits label");
    };
    assert_eq!(pre, b"IPV6-", "emitted form keeps case");
    assert_eq!(pre_lower, b"ipv6-", "matching form is lowercased");
}

#[test]
fn listen_addresses_keep_order_and_accept_both_families() {
    let cfg = parse_ok("listen 2001:4d88:100e:1::3\nlisten 79.140.39.197\n");
    assert!(!cfg.has_zones());
    let got: Vec<String> = cfg
        .listen
        .iter()
        .map(|l| format!("{}:{}", shown(l.addr), l.port))
        .collect();
    assert_eq!(got, ["2001:4d88:100e:1::3:53", "79.140.39.197:53"]);
}

#[test]
fn listen_accepts_explicit_port() {
    let cfg = parse_ok("listen [::]:5353\nlisten 0.0.0.0:5354\n");
    assert_eq!(cfg.listen[0].port, 5353);
    assert_eq!(cfg.listen[1].port, 5354);
}

#[test]
fn indentation_and_inner_whitespace_are_irrelevant() {
    let cfg = parse_ok(
        "\t   network 2001:db8::/32\n\
         \t\t\tresolves    to    host-%DIGITS%.example.net\n",
    );
    assert_eq!(cfg.zones.len(), 1);
    assert_eq!(cfg.zones[0].resolves_to, "host-%DIGITS%.example.net");
}

#[test]
fn crlf_line_endings_are_accepted() {
    let cfg = parse_ok("network 2001:db8::/32\r\n\tresolves to h-%DIGITS%.example.net\r\n");
    assert_eq!(cfg.zones.len(), 1);
}

#[test]
fn original_shipped_config_parses() {
    let cfg = parse_ok(
        "# Configuration file for AllKnowingDNS v1.3\n\
         \n\
         # RaumZeitLabor\n\
         network 2001:4d88:100e:ccc0::/64\n\
         \tresolves to ipv6-%DIGITS%.nutzer.raumzeitlabor.de\n\
         \twith upstream 2001:4d88:100e:1::2\n",
    );
    assert_eq!(cfg.zones.len(), 1);
}

#[test]
fn network_without_prefix_length_is_fatal() {
    assert_eq!(
        parse_err("network 2001:db8::\n\tresolves to h-%DIGITS%.example.net\n"),
        [ConfigErrorKind::NetworkMissingPrefixLen]
    );
}

#[test]
fn no_zone_can_claim_all_of_ip6_arpa() {
    for input in [
        "network 2001:db8::\n\tresolves to h-%DIGITS%.example.net\n",
        "network ::/0\n\tresolves to h-%DIGITS%.example.net\n",
        "network garbage\n\tresolves to h-%DIGITS%.example.net\n",
        "network /64\n\tresolves to h-%DIGITS%.example.net\n",
    ] {
        match Config::parse(input) {
            Err(_) => {}
            Ok(cfg) => {
                for zone in &cfg.zones {
                    assert_ne!(zone.mask, 0, "a /0 zone matches every reverse query");
                    assert!(
                        zone.ptr_zone.num_labels() > 2,
                        "zone {} collapsed to a bare ip6.arpa",
                        to_ascii(&zone.ptr_zone)
                    );
                }
            }
        }
    }
}

#[test]
fn prefix_must_be_nibble_aligned() {
    assert_eq!(
        parse_err("network 2001:db8::/63\n\tresolves to h-%DIGITS%.example.net\n"),
        [ConfigErrorKind::NetworkPrefixNotNibbleAligned { mask: 63 }]
    );
    assert_eq!(
        parse_ok("network 2001:db8:8000::/36\n\tresolves to h-%DIGITS%.example.net\n").zones[0]
            .mask,
        36
    );
}

#[test]
fn prefix_length_range_is_checked() {
    assert_eq!(
        parse_err("network 2001:db8::/129\n\tresolves to h-%DIGITS%.example.net\n"),
        [ConfigErrorKind::NetworkPrefixLenOutOfRange { mask: 129 }]
    );
    assert_eq!(
        parse_err("network 2001:db8::/64x\n\tresolves to h-%DIGITS%.example.net\n"),
        [ConfigErrorKind::NetworkPrefixLenNotANumber]
    );
    assert_eq!(
        parse_err("network 2001:db8::1/128\n\tresolves to h-%DIGITS%.example.net\n"),
        [ConfigErrorKind::NetworkIsSingleAddress]
    );
}

#[test]
fn host_bits_below_the_prefix_are_fatal_with_a_suggestion() {
    let errs = parse_err("network 2a00:15a0::192:1/64\n\tresolves to h-%DIGITS%.example.net\n");
    assert_eq!(
        errs,
        [ConfigErrorKind::NetworkHostBitsSet {
            suggestion: "2a00:15a0::/64".into()
        }]
    );
}

#[test]
fn trailing_colon_address_from_perl_suite_is_rejected() {
    assert_eq!(
        parse_err("network 2a00:15a0::192:/64\n\tresolves to h-%DIGITS%.example.net\n"),
        [ConfigErrorKind::NetworkInvalidAddress]
    );
}

#[test]
fn placeholder_must_appear_exactly_once() {
    assert_eq!(
        parse_err("network 2001:db8::/64\n\tresolves to static.example.net\n"),
        [ConfigErrorKind::PlaceholderMissing]
    );
    assert_eq!(
        parse_err("network 2001:db8::/64\n\tresolves to a-%DIGITS%-%DIGITS%.example.net\n"),
        [ConfigErrorKind::PlaceholderRepeated { count: 2 }]
    );
}

#[test]
fn placeholder_is_case_insensitive() {
    let cfg = parse_ok("network 2001:db8::/64\n\tresolves to h-%digits%.example.net\n");
    assert!(matches!(
        cfg.zones[0].fwd.labels[cfg.zones[0].fwd.digits_at],
        FwdLabel::Digits { .. }
    ));
}

#[test]
fn dashed_placeholder_parses_and_flags_the_label() {
    let cfg = parse_ok("network 2001:db8::/64\n\tresolves to h-%DIGITS-DASHED%.example.net\n");
    let FwdLabel::Digits { dashed, .. } = &cfg.zones[0].fwd.labels[cfg.zones[0].fwd.digits_at]
    else {
        panic!("expected a Digits label");
    };
    assert!(*dashed);
}

#[test]
fn dashed_placeholder_is_case_insensitive() {
    let cfg = parse_ok("network 2001:db8::/64\n\tresolves to h-%digits-dashed%.example.net\n");
    let FwdLabel::Digits { dashed, .. } = &cfg.zones[0].fwd.labels[cfg.zones[0].fwd.digits_at]
    else {
        panic!("expected a Digits label");
    };
    assert!(*dashed);
}

#[test]
fn dashed_and_plain_placeholder_together_is_repeated() {
    assert_eq!(
        parse_err("network 2001:db8::/64\n\tresolves to a-%DIGITS%-%DIGITS-DASHED%.example.net\n"),
        [ConfigErrorKind::PlaceholderRepeated { count: 2 }]
    );
}

#[test]
fn dashed_placeholder_requires_nibble_count_multiple_of_4() {
    assert_eq!(
        parse_err("network 2001:db8::/60\n\tresolves to h-%DIGITS-DASHED%.example.net\n"),
        [ConfigErrorKind::DashedDigitsNotNibbleMultipleOfFour { host_nibbles: 17 }]
    );
    assert!(
        parse_ok("network 2001:db8::/64\n\tresolves to h-%DIGITS-DASHED%.example.net\n")
            .has_zones()
    );
}

#[test]
fn zone_without_resolves_to_is_fatal() {
    assert_eq!(
        parse_err("network 2001:db8::/64\n"),
        [ConfigErrorKind::MissingResolvesTo]
    );
}

#[test]
fn directive_before_any_network_is_fatal() {
    assert_eq!(
        parse_err("resolves to h-%DIGITS%.example.net\n"),
        [ConfigErrorKind::DirectiveBeforeNetwork {
            keyword: "resolves to"
        }]
    );
}

#[test]
fn unknown_directive_is_fatal() {
    assert_eq!(
        parse_err("netwrok 2001:db8::/64\n"),
        [ConfigErrorKind::UnknownDirective {
            keyword: "netwrok".into()
        }]
    );
}

#[test]
fn keyword_without_value_is_reported_as_such() {
    assert_eq!(
        parse_err("network\n"),
        [ConfigErrorKind::MissingValue { keyword: "network" }]
    );
}

#[test]
fn duplicates_are_reported() {
    assert_eq!(
        parse_err(
            "network 2001:db8::/64\n\tresolves to a-%DIGITS%.example.net\n\tresolves to b-%DIGITS%.example.net\n"
        ),
        [ConfigErrorKind::DuplicateDirective {
            keyword: "resolves to",
            first_line: 2
        }]
    );
    assert_eq!(
        parse_err(
            "network 2001:db8::/64\n\tresolves to a-%DIGITS%.example.net\n\
             network 2001:db8::/64\n\tresolves to b-%DIGITS%.example.net\n"
        ),
        [ConfigErrorKind::DuplicateNetwork { first_line: 1 }]
    );
    assert_eq!(
        parse_err(
            "network 2001:db8::/64\n\tresolves to a-%DIGITS%.example.net\n\
             network 2001:db9::/64\n\tresolves to a-%DIGITS%.example.net\n"
        ),
        [ConfigErrorKind::DuplicateForwardPattern { first_line: 2 }]
    );
}

#[test]
fn invalid_upstream_is_fatal() {
    assert_eq!(
        parse_err(
            "network 2001:db8::/64\n\tresolves to h-%DIGITS%.example.net\n\twith upstream nope\n"
        ),
        [ConfigErrorKind::InvalidUpstreamAddress]
    );
}

#[test]
fn oversized_label_template_is_rejected_at_startup() {
    let long = "x".repeat(40);
    let errs = parse_err(&format!(
        "network 2000::/4\n\tresolves to {long}%DIGITS%.example.net\n"
    ));
    assert!(
        matches!(
            errs.as_slice(),
            [ConfigErrorKind::ForwardNameTooLong { .. }]
        ),
        "got {errs:?}"
    );
}

#[test]
fn every_error_is_reported_at_once() {
    let errs = parse_err(
        "listen not-an-address\n\
         network 2001:db8::/63\n\
         \tresolves to h-%DIGITS%.example.net\n\
         netwrok typo\n",
    );
    assert_eq!(errs.len(), 3, "got {errs:?}");
}

#[test]
fn zones_are_sorted_longest_prefix_first() {
    let cfg = parse_ok(
        "network 2001:db8::/32\n\tresolves to a-%DIGITS%.example.net\n\
         network 2001:db8:1:2::/64\n\tresolves to b-%DIGITS%.example.net\n\
         network 2001:db8:1::/48\n\tresolves to c-%DIGITS%.example.net\n",
    );
    let masks: Vec<u8> = cfg.zones.iter().map(|z| z.mask).collect();
    assert_eq!(masks, [64, 48, 32]);
}

#[test]
fn diagnostics_are_rustc_shaped_and_point_at_the_value() {
    let Err(errs) = Config::parse(
        "network 2001:db8::/64\n\tresolves to h-%DIGITS%.example.net\n\nnetwork 2001:db8::/63\n\tresolves to i-%DIGITS%.example.net\n",
    ) else {
        panic!("expected an error");
    };
    let rendered = errs
        .with_path("/etc/panoptidns/panoptidns.conf")
        .to_string();
    assert!(rendered.contains("not nibble-aligned"), "{rendered}");
    assert!(
        rendered.contains("--> /etc/panoptidns/panoptidns.conf:4"),
        "{rendered}"
    );
    assert!(rendered.contains("^"), "{rendered}");
    assert!(rendered.contains("expected /0, /4, /8"), "{rendered}");
}

fn kinds(input: &str) -> Vec<ConfigErrorKind> {
    parse_err(input)
}

#[test]
fn global_settings_are_read() {
    let cfg = parse_ok(
        "primary ns1.example.net.\n\
         hostmaster hostmaster.example.net\n\
         ns ns1.example.net.\n\
         ns ns2.example.net.\n\
         ttl 120\n\
         out-of-zone nxdomain\n\
         max-udp-payload 4096\n\
         upstream-timeout +250\n\
         RRL  Responses-Per-Second 7\n\
         rrl burst 9\n\
         rrl slip 0\n\
         network 2001:db8::/32\n\
         resolves to h-%DIGITS%.example.net.\n",
    );
    let soa = cfg.soa.as_ref().unwrap();
    assert_eq!(to_ascii(&soa.primary), "ns1.example.net.");
    assert_eq!(to_ascii(&soa.hostmaster), "hostmaster.example.net.");
    assert_eq!(
        (soa.serial, soa.refresh, soa.retry, soa.expire, soa.minimum),
        (1, 604_800, 86_400, 2_419_200, 60)
    );
    assert_eq!(cfg.nameservers.len(), 2);
    assert_eq!(cfg.zones[0].ttl, 120);
    assert_eq!(cfg.params.out_of_zone, OutOfZonePolicy::NxDomain);
    assert_eq!(cfg.params.max_udp_payload, 4096);
    assert_eq!(cfg.params.upstream_timeout, 250);
    assert_eq!(cfg.params.rrl.responses_per_second, 7);
    assert_eq!(cfg.params.rrl.burst, 9);
    assert_eq!(cfg.params.rrl.slip, 0);
    assert!(cfg.params.rrl.enabled);
    assert!(cfg.warnings().is_empty());
    let apexes: Vec<String> = cfg.apexes().iter().map(to_ascii).collect();
    assert_eq!(apexes, ["8.b.d.0.1.0.0.2.ip6.arpa.", "example.net."]);
}

#[test]
fn defaults_and_warnings() {
    let cfg = parse_ok("rrl off\n");
    assert!(!cfg.params.rrl.enabled);
    assert_eq!(cfg.params.max_udp_payload, 1232);
    assert_eq!(cfg.params.upstream_timeout, 300);
    assert_eq!(
        cfg.warnings(),
        [
            "no `primary`/`hostmaster` configured: serving without apex SOA/NS records, so \
             resolvers cannot cache negative answers (set both to fix)",
            "response rate limiting is disabled",
            "no `network` configured: every query will be declined",
        ]
    );
}

#[test]
fn numbers_are_checked() {
    for (line, what, allowed) in [
        ("ttl 2147483648", "ttl", "a TTL in seconds (0-2147483647)"),
        ("ttl -1", "ttl", "a TTL in seconds (0-2147483647)"),
        ("max-udp-payload 511", "max-udp-payload", "512-65535 bytes"),
        ("max-udp-payload 65536", "max-udp-payload", "512-65535 bytes"),
        ("upstream-timeout 0", "upstream-timeout", "1-10000 milliseconds"),
        (
            "upstream-timeout 10001",
            "upstream-timeout",
            "1-10000 milliseconds",
        ),
        (
            "rrl responses-per-second 0",
            "rrl responses-per-second",
            "at least 1",
        ),
        ("rrl burst 0", "rrl burst", "at least 1"),
        ("rrl slip x", "rrl slip", "0 (always drop) or more"),
        ("rrl slip 4294967296", "rrl slip", "0 (always drop) or more"),
    ] {
        assert_eq!(
            kinds(line),
            [ConfigErrorKind::InvalidNumber { what, allowed }],
            "{line}"
        );
    }
    assert_eq!(
        kinds("out-of-zone maybe"),
        [ConfigErrorKind::InvalidChoice {
            what: "out-of-zone",
            allowed: "`refused` or `nxdomain`"
        }]
    );
    assert_eq!(
        kinds("ns a..b"),
        [ConfigErrorKind::InvalidDnsName { what: "ns" }]
    );
    assert_eq!(
        kinds("listen nowhere"),
        [ConfigErrorKind::InvalidListenAddress]
    );
}

#[test]
fn one_half_of_the_soa_is_not_enough() {
    assert_eq!(
        kinds("primary ns1.example.net."),
        [ConfigErrorKind::MissingCompanionDirective {
            missing: "hostmaster",
            present: "primary".into()
        }]
    );
    assert_eq!(
        kinds("hostmaster h.example.net."),
        [ConfigErrorKind::MissingCompanionDirective {
            missing: "primary",
            present: "hostmaster".into()
        }]
    );
}

#[test]
fn globals_belong_before_the_first_network() {
    let net = "network 2001:db8::/32\nresolves to h-%DIGITS%.example.net\n";
    assert_eq!(
        kinds(&format!("{net}ttl 5\n")),
        [ConfigErrorKind::GlobalAfterNetwork { keyword: "ttl" }]
    );
    assert_eq!(
        kinds(&format!("{net}rrl off\n")),
        [ConfigErrorKind::GlobalAfterNetwork { keyword: "rrl off" }]
    );
    assert_eq!(parse_ok(&format!("{net}listen ::1\n")).listen.len(), 1);
}

#[test]
fn single_valued_settings_may_not_repeat() {
    assert_eq!(
        kinds("ttl 5\n\nttl 6\n"),
        [ConfigErrorKind::DuplicateDirective {
            keyword: "ttl",
            first_line: 1
        }]
    );
    assert!(!parse_ok("rrl off\nrrl off\n").params.rrl.enabled);
}

#[test]
fn keywords_need_their_words_and_values() {
    assert_eq!(
        kinds("resolvesto x"),
        [ConfigErrorKind::UnknownDirective {
            keyword: "resolvesto".into()
        }]
    );
    assert_eq!(
        kinds("resolves"),
        [ConfigErrorKind::MissingValue {
            keyword: "resolves to"
        }]
    );
    assert_eq!(
        kinds("rrl maybe"),
        [ConfigErrorKind::MissingValue {
            keyword: "rrl responses-per-second"
        }]
    );
    assert_eq!(
        kinds("\u{e4}\u{f6} x"),
        [ConfigErrorKind::UnknownDirective {
            keyword: "\u{e4}\u{f6}".into()
        }]
    );
}

#[test]
fn network_syntax_errors() {
    let with = |net: &str| kinds(&format!("network {net}\nresolves to h-%DIGITS%.example.net\n"));
    assert_eq!(
        with("::/0"),
        [ConfigErrorKind::NetworkPrefixTooShort { mask: 0 }]
    );
    assert_eq!(with("/64"), [ConfigErrorKind::NetworkInvalidAddress]);
    assert_eq!(
        with("2001:db8::/+"),
        [ConfigErrorKind::NetworkPrefixLenNotANumber]
    );
    assert_eq!(with("1.2.3.4/24"), [ConfigErrorKind::NetworkInvalidAddress]);
}

#[test]
fn template_errors() {
    let with = |t: &str| kinds(&format!("network 2001:db8::/64\nresolves to {t}\n"));
    assert_eq!(
        with("a..%DIGITS%.net"),
        [ConfigErrorKind::ResolvesToInvalidName {
            reason: "empty label".into()
        }]
    );
    assert_eq!(
        with("%DIGITS%.net.."),
        [ConfigErrorKind::ResolvesToInvalidName {
            reason: "empty label".into()
        }]
    );
    assert_eq!(
        with("%DIGITS%%DIGITS%%digits-dashed%.net"),
        [ConfigErrorKind::PlaceholderRepeated { count: 3 }]
    );
}

#[test]
fn a_report_in_full() {
    let errs = Config::parse(
        "listen ::1\n\tnetwork 2001:db8::/63\n\tresolves to i-%DIGITS%.example.net\nnetwork\n",
    )
    .unwrap_err();
    assert_eq!(errs.len(), 2);
    assert!(!errs.is_empty());
    assert_eq!(
        errs.to_string(),
        "error: `network` requires a value\n \
         --> <config>:4\n  |\n4 | network\n  | ^^^^^^^\n\n\
         error: prefix length /63 is not nibble-aligned (must be a multiple of 4)\n \
         --> <config>:2\n  |\n2 | \tnetwork 2001:db8::/63\n  | \t                  ^^^ \
         expected /0, /4, /8, … /128\n\n\
         aborting due to 2 configuration errors"
    );
    assert_eq!(
        errs.errors[0].to_string(),
        "`network` requires a value"
    );
}

#[test]
fn every_message_and_hint() {
    let k = |kind: ConfigErrorKind| (kind.message(), kind.hint());
    assert_eq!(
        k(ConfigErrorKind::NotUtf8),
        ("line is not valid UTF-8".into(), None)
    );
    assert_eq!(
        k(ConfigErrorKind::DuplicateDirective {
            keyword: "ttl",
            first_line: 12
        })
        .0,
        "duplicate `ttl` for this network (first set on line 12)"
    );
    assert_eq!(
        k(ConfigErrorKind::NetworkHostBitsSet {
            suggestion: "::/64".into()
        }),
        (
            "network has bits set below its prefix length".into(),
            Some("did you mean `::/64`?".into())
        )
    );
    assert_eq!(
        k(ConfigErrorKind::PlaceholderRepeated { count: 20 }).0,
        "`resolves to` contains %DIGITS%/%DIGITS-DASHED% 20 times, expected exactly once"
    );
    assert_eq!(
        k(ConfigErrorKind::MissingCompanionDirective {
            missing: "primary",
            present: "hostmaster".into()
        })
        .0,
        "`hostmaster` is set but `primary` is missing; a SOA record needs both"
    );
    assert_eq!(
        k(ConfigErrorKind::InvalidChoice {
            what: "out-of-zone",
            allowed: "`refused` or `nxdomain`"
        }),
        (
            "invalid value for `out-of-zone`".into(),
            Some("expected `refused` or `nxdomain`".into())
        )
    );
    assert_eq!(
        k(ConfigErrorKind::DashedDigitsNotNibbleMultipleOfFour { host_nibbles: 17 }),
        (
            "%DIGITS-DASHED% needs a host part that is a multiple of 4 hex digits wide, but \
             this network's is 17"
                .into(),
            Some("prefix length must leave a multiple of 4 hex digits, e.g. /48, /96".into())
        )
    );
    assert_eq!(
        k(ConfigErrorKind::NetworkPrefixTooShort { mask: 0 }).0,
        "prefix length /0 would make this server authoritative for all of ip6.arpa"
    );
    assert_eq!(
        k(ConfigErrorKind::NetworkPrefixLenOutOfRange { mask: 129 }).0,
        "prefix length /129 is out of range (0-128)"
    );
}

#[test]
fn lone_carriage_returns_and_last_lines() {
    let cfg = parse_ok("listen ::1\r\n\r\nlisten ::2\r");
    assert_eq!(cfg.listen.len(), 2);
    assert_eq!(cfg.listen[1].addr, IpAddr::V6(2));
}

#[test]
fn templates_keep_one_trailing_dot_apart() {
    let a = parse_ok("network 2001:db8::/64\nresolves to H-%DIGITS%.Example.net.\n");
    let zone = &a.zones[0];
    assert_eq!(zone.fwd.label_count(), 3);
    assert_eq!(zone.fwd.digits_at, 0);
    assert_eq!(to_ascii(&zone.fwd_parent), "Example.net.");
    assert_eq!(
        to_ascii(&zone.fwd.render("0011").unwrap()),
        "H-0011.Example.net."
    );
    assert_eq!(zone.fwd.parent().unwrap(), zone.fwd_parent);
}

#[test]
fn no_line_is_ignored() {
    let input = "# comment\n\nttl 60\nlisten 127.0.0.1\nnetwrok x\nnetwork 2001:db8::/64\n\tresolves to h-%DIGITS%.example.net\n  # done\n";
    let (raw, errors) = parse(input);
    assert_eq!(raw.globals.len(), 1);
    assert_eq!(raw.listen.len(), 1);
    assert_eq!(raw.zones.len(), 1);
    assert!(raw.zones[0].resolves_to.is_some());
    assert!(raw.zones[0].upstream.is_none());
    assert_eq!(errors.len(), 1);
}

#[test]
fn the_slash_is_underlined_with_a_bad_prefix_length() {
    let errs = Config::parse("    network 2001:db8::/63\n\tresolves to i-%DIGITS%.example.net\n")
        .unwrap_err();
    assert_eq!(errs.errors[0].span, Some(22..25));
    assert_eq!(
        errs.with_path("panoptidns.conf").to_string(),
        "error: prefix length /63 is not nibble-aligned (must be a multiple of 4)\n \
         --> panoptidns.conf:1\n  |\n1 |     network 2001:db8::/63\n  |                       ^^^ \
         expected /0, /4, /8, … /128\n\n\
         aborting due to 1 configuration error"
    );
    for (length, span) in [("129", 22..26), ("0", 22..24), ("x", 22..24), ("", 22..23)] {
        let input = format!(
            "    network 2001:db8::/{length}\n\tresolves to i-%DIGITS%.example.net\n"
        );
        assert_eq!(Config::parse(&input).unwrap_err().errors[0].span, Some(span));
    }
}
