use hickory_proto::rr::domain::IntoName;
use panoptidns::name::Name;
use panoptidns::net::{parse_ip, IpAddr};
use panoptidns::nibble::{
    dash_group, digits_to_host, host_digits, mask_bits, netmask_to_ptr_name, network_of,
    ptr_name_to_addr, undash_group,
};

fn name(s: &str) -> Name {
    let parsed = hickory_proto::rr::domain::Name::from_ascii(s).unwrap();
    Name {
        labels: parsed.iter().map(|l| l.to_vec()).collect(),
        fqdn: parsed.is_fqdn(),
    }
}

fn addr(s: &str) -> u128 {
    match parse_ip(s) {
        Some(IpAddr::V6(a)) => a,
        other => panic!("not an IPv6 address: {s}: {other:?}"),
    }
}

fn shown(name: &Name) -> String {
    name.labels
        .iter()
        .map(|l| String::from_utf8(l.clone()).unwrap())
        .collect::<Vec<String>>()
        .join(".")
}

fn ptr_zone_display(prefix: u128, mask: u8) -> String {
    shown(&netmask_to_ptr_name(prefix, mask).unwrap())
}

#[test]
fn netmask_to_ptrzone_vectors_from_perl_suite() {
    let net = addr("2001:4d88:100e:ccc0::");
    assert_eq!(
        ptr_zone_display(net, 64),
        "0.c.c.c.e.0.0.1.8.8.d.4.1.0.0.2.ip6.arpa"
    );
    assert_eq!(
        ptr_zone_display(net, 48),
        "e.0.0.1.8.8.d.4.1.0.0.2.ip6.arpa"
    );
    assert_eq!(
        ptr_zone_display(net, 80),
        "0.0.0.0.0.c.c.c.e.0.0.1.8.8.d.4.1.0.0.2.ip6.arpa"
    );
}

#[test]
fn netmask_rejects_non_nibble_aligned_prefix() {
    let net = addr("2001:db8::");
    for mask in [1u8, 2, 3, 63, 65, 127] {
        assert!(
            netmask_to_ptr_name(net, mask).is_none(),
            "/{mask} must be rejected"
        );
    }
    for mask in [4u8, 20, 60, 68, 124] {
        assert!(
            netmask_to_ptr_name(net, mask).is_some(),
            "/{mask} must be accepted"
        );
    }
}

#[test]
fn netmask_edge_masks() {
    assert_eq!(ptr_zone_display(addr("::"), 0), "ip6.arpa");
    assert_eq!(
        ptr_zone_display(addr("2001:4d88:100e:ccc0:219:dbff:fe43:2ec7"), 128),
        "7.c.e.2.3.4.e.f.f.f.b.d.9.1.2.0.0.c.c.c.e.0.0.1.8.8.d.4.1.0.0.2.ip6.arpa"
    );
    assert!(netmask_to_ptr_name(addr("::"), 129).is_none());
}

#[test]
fn parses_full_ptr_query() {
    let q = name("7.c.e.2.3.4.e.f.f.f.b.d.9.1.2.0.0.c.c.c.e.0.0.1.8.8.d.4.1.0.0.2.ip6.arpa.");
    assert_eq!(
        ptr_name_to_addr(&q),
        Some(addr("2001:4d88:100e:ccc0:219:dbff:fe43:2ec7"))
    );
}

#[test]
fn ptr_query_is_case_insensitive() {
    let lower = name("7.c.e.2.3.4.e.f.f.f.b.d.9.1.2.0.0.c.c.c.e.0.0.1.8.8.d.4.1.0.0.2.ip6.arpa.");
    let upper = name("7.C.E.2.3.4.E.F.F.F.B.D.9.1.2.0.0.C.C.C.E.0.0.1.8.8.D.4.1.0.0.2.IP6.ARPA.");
    assert_eq!(ptr_name_to_addr(&lower), ptr_name_to_addr(&upper));
    assert!(ptr_name_to_addr(&upper).is_some());
}

#[test]
fn rejects_partial_and_overlong_ptr_queries() {
    assert_eq!(
        ptr_name_to_addr(&name("0.c.c.c.e.0.0.1.8.8.d.4.1.0.0.2.ip6.arpa.")),
        None
    );
    assert_eq!(
        ptr_name_to_addr(&name(
            "1.7.c.e.2.3.4.e.f.f.f.b.d.9.1.2.0.0.c.c.c.e.0.0.1.8.8.d.4.1.0.0.2.ip6.arpa."
        )),
        None
    );
    assert_eq!(ptr_name_to_addr(&name("ip6.arpa.")), None);
}

#[test]
fn rejects_wrong_suffix() {
    let mut labels: Vec<Vec<u8>> = (0..32).map(|_| b"0".to_vec()).collect();
    labels.push(b"ip6".to_vec());
    labels.push(b"example".to_vec());
    let n = Name::from_labels(labels).unwrap();
    assert!(n.fqdn);
    assert_eq!(ptr_name_to_addr(&n), None);
}

#[test]
fn rejects_non_hex_and_multibyte_nibble_labels() {
    let with_g = name("g.c.e.2.3.4.e.f.f.f.b.d.9.1.2.0.0.c.c.c.e.0.0.1.8.8.d.4.1.0.0.2.ip6.arpa.");
    assert_eq!(ptr_name_to_addr(&with_g), None);

    let two_byte = name("7c.e.2.3.4.e.f.f.f.b.d.9.1.2.0.0.c.c.c.e.0.0.1.8.8.d.4.1.0.0.2.ip6.arpa.");
    assert_eq!(ptr_name_to_addr(&two_byte), None);
}

#[test]
fn rejects_master_file_metacharacters_without_panicking() {
    for evil in [
        b";".as_slice(),
        b"\"".as_slice(),
        b"a;b".as_slice(),
        b"(".as_slice(),
        b"\\".as_slice(),
        b"\n".as_slice(),
        b"\0".as_slice(),
        &[0xFF],
        &[b'a'; 63],
    ] {
        let mut labels: Vec<Vec<u8>> = vec![evil.to_vec()];
        labels.extend((0..31).map(|_| b"0".to_vec()));
        labels.push(b"ip6".to_vec());
        labels.push(b"arpa".to_vec());
        if let Ok(n) = Name::from_labels(labels) {
            assert_eq!(
                ptr_name_to_addr(&n),
                None,
                "label {evil:?} must not parse as a nibble"
            );
        }
    }
}

#[test]
fn agrees_with_hickory_arpa_parser() {
    for sample in [
        "2001:4d88:100e:ccc0:219:dbff:fe43:2ec7",
        "::",
        "::1",
        "2a00:15a0:2:0:0:0:192:1",
        "ffff:ffff:ffff:ffff:ffff:ffff:ffff:ffff",
    ] {
        let expected = addr(sample);
        let arpa = ptr_zone_display(expected, 128);
        let theirs = format!("{arpa}.").into_name().unwrap();

        assert_eq!(
            ptr_name_to_addr(&name(&format!("{arpa}."))),
            Some(expected),
            "ours: {sample}"
        );

        match theirs.parse_arpa_name().unwrap() {
            ipnet::IpNet::V6(net) => {
                assert_eq!(net.prefix_len(), 128);
                assert_eq!(u128::from(net.addr()), expected, "hickory: {sample}");
            }
            other => panic!("expected V6, got {other:?}"),
        }
    }
}

#[test]
fn host_digits_vectors_from_perl_suite() {
    assert_eq!(
        host_digits(addr("2001:4d88:100e:ccc0:219:dbff:fe43:2ec7"), 16).unwrap(),
        "0219dbfffe432ec7"
    );
    assert_eq!(
        host_digits(addr("2a00:15a0:2:0:0:0:192:1"), 16).unwrap(),
        "0000000001920001"
    );
    assert_eq!(
        host_digits(addr("2001:4d88:100e:ccc0:1111:2222:3333:aaff"), 4).unwrap(),
        "aaff"
    );
}

#[test]
fn host_digits_ignores_network_part() {
    let a = addr("2001:4d88:100e:ccc0:219:dbff:fe43:2ec7");
    let b = addr("fe80::219:dbff:fe43:2ec7");
    assert_eq!(host_digits(a, 16).unwrap(), host_digits(b, 16).unwrap());
}

#[test]
fn host_digits_edges() {
    assert_eq!(host_digits(u128::MAX, 0).unwrap(), "");
    assert_eq!(host_digits(u128::MAX, 32).unwrap(), "f".repeat(32));
    assert_eq!(host_digits(0, 32).unwrap(), "0".repeat(32));
    assert!(host_digits(0, 33).is_none());
}

#[test]
fn digits_to_host_rejects_wrong_length_and_non_hex() {
    assert_eq!(digits_to_host(b"aaff", 4), Some(0xaaff));
    assert_eq!(digits_to_host(b"AAFF", 4), Some(0xaaff));
    assert_eq!(digits_to_host(b"aaf", 4), None, "too short");
    assert_eq!(digits_to_host(b"aaffa", 4), None, "too long");
    assert_eq!(digits_to_host(b"zzzz", 4), None, "not hex");
    assert_eq!(digits_to_host(b"", 0), Some(0));
}

#[test]
fn mask_bits_boundaries() {
    assert_eq!(mask_bits(0), 0);
    assert_eq!(mask_bits(128), u128::MAX);
    assert_eq!(mask_bits(64), 0xFFFF_FFFF_FFFF_FFFF_0000_0000_0000_0000);
    assert_eq!(mask_bits(255), u128::MAX, "must saturate, not overflow");
}

fn samples() -> Vec<u128> {
    vec![
        0,
        1,
        u128::MAX,
        1 << 127,
        0x2001_4d88_100e_ccc0_0219_dbff_fe43_2ec7,
        0x0123_4567_89ab_cdef_fedc_ba98_7654_3210,
        0xdead_beef_cafe_babe,
    ]
}

#[test]
fn ptr_name_roundtrip_is_identity() {
    for raw in samples() {
        let n = netmask_to_ptr_name(raw, 128).unwrap();
        assert_eq!(ptr_name_to_addr(&n), Some(raw));
    }
}

#[test]
fn host_digit_roundtrip_is_identity() {
    for raw in samples() {
        for nibbles in 1u8..=32 {
            let digits = host_digits(raw, nibbles).unwrap();
            assert_eq!(digits.len(), usize::from(nibbles));
            let host = digits_to_host(digits.as_bytes(), nibbles).unwrap();
            assert_eq!(host, raw & !mask_bits(128 - nibbles * 4));
        }
    }
}

#[test]
fn ptr_zone_has_one_label_per_network_nibble() {
    for raw in samples() {
        for q in 0u8..=32 {
            let n = netmask_to_ptr_name(raw, q * 4).unwrap();
            assert_eq!(n.num_labels(), usize::from(q) + 2);
        }
    }
}

#[test]
fn accepted_names_rebuild_to_an_equal_name() {
    let mixed = name("7.C.e.2.3.4.E.f.F.f.b.D.9.1.2.0.0.c.C.c.e.0.0.1.8.8.d.4.1.0.0.2.iP6.aRPa.");
    let parsed = ptr_name_to_addr(&mixed).unwrap();
    let rebuilt = netmask_to_ptr_name(parsed, 128).unwrap();
    assert_eq!(rebuilt, mixed);
    assert_ne!(rebuilt.labels, mixed.labels);
}

#[test]
fn synthesized_address_stays_in_prefix() {
    for prefix_raw in samples() {
        for host_raw in samples() {
            for q in 1u8..=32 {
                let mask = q * 4;
                let prefix = prefix_raw & mask_bits(mask);
                let host_nibbles = (128 - mask) / 4;
                let host = host_raw & !mask_bits(mask);
                let addr = prefix | host;
                let digits = host_digits(addr, host_nibbles).unwrap();
                let decoded = digits_to_host(digits.as_bytes(), host_nibbles).unwrap();
                assert_eq!(prefix | decoded, addr);
                assert_eq!(addr & mask_bits(mask), prefix);
                assert_eq!(network_of(addr, mask), prefix);
            }
        }
    }
}

#[test]
fn digits_beyond_an_address_are_shifted_out() {
    let digits = format!("f{}", "0".repeat(32));
    assert_eq!(digits_to_host(digits.as_bytes(), 33), Some(0));
    let digits = format!("1{}2", "0".repeat(31));
    assert_eq!(digits_to_host(digits.as_bytes(), 33), Some(2));
}

#[test]
fn dash_group_groups_in_fours() {
    assert_eq!(dash_group(""), "");
    assert_eq!(dash_group("abc"), "abc");
    assert_eq!(dash_group("0219"), "0219");
    assert_eq!(dash_group("0219dbfffe432ec7"), "0219-dbff-fe43-2ec7");
    assert_eq!(dash_group("12345"), "1234-5");
}

#[test]
fn dash_group_round_trips() {
    for n in 0u8..=32 {
        let digits = host_digits(0x2001_4d88_100e_ccc0_0219_dbff_fe43_2ec7, n).unwrap();
        let grouped = dash_group(&digits);
        assert_eq!(
            undash_group(grouped.as_bytes(), n),
            Some(digits.as_bytes().to_vec())
        );
    }
    assert_eq!(undash_group(b"0219dbff", 8), None);
    assert_eq!(undash_group(b"0219_dbff", 8), None);
    assert_eq!(undash_group(b"021-9dbff", 8), None);
}

#[test]
fn labels_must_be_within_the_dns_limits() {
    assert!(Name::from_labels(vec![vec![b'a'; 63]]).is_ok());
    assert!(Name::from_labels(vec![vec![b'a'; 64]]).is_err());
    assert!(Name::from_labels(vec![Vec::new()]).is_err());
    let quarter = vec![b'a'; 63];
    let fits = vec![quarter.clone(), quarter.clone(), quarter.clone(), vec![b'a'; 61]];
    assert!(Name::from_labels(fits).is_ok());
    let reason = Name::from_labels(vec![
        quarter.clone(),
        quarter.clone(),
        quarter.clone(),
        vec![b'a'; 62],
    ])
    .unwrap_err();
    assert!(!reason.is_empty());
}

#[test]
fn names_are_read_from_text_as_absolute() {
    let n = Name::from_str_relaxed("ns1.Example.net").unwrap();
    assert!(n.fqdn);
    assert_eq!(n, name("ns1.example.net."));
    assert!(Name::from_str_relaxed("a..b").is_none());
    assert!(name("example.net.").zone_of(&name("www.EXAMPLE.net.")));
    assert!(!name("www.example.net.").zone_of(&name("example.net.")));
    assert!(Name::root().zone_of(&name("example.net.")));
}
