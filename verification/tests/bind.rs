use panoptidns::config::{Config, ListenAddr};
use panoptidns::net::IpAddr;
use panoptidns::server::bind::{
    bind_error, default_listen, effective_listen, parse_listen, BindFailure,
};

#[test]
fn privileged_port_error_is_actionable() {
    let err = bind_error(
        "0.0.0.0:53",
        53,
        BindFailure::PermissionDenied,
        "permission denied",
    );
    assert!(err.contains("CAP_NET_BIND_SERVICE"), "{err}");
    assert!(err.starts_with("cannot bind 0.0.0.0:53: permission denied (binding"));
}

#[test]
fn missing_address_error_mentions_the_listen_override() {
    let err = bind_error(
        "192.0.2.99:53",
        53,
        BindFailure::AddrNotAvailable,
        "address not available",
    );
    assert!(err.contains("--listen"), "{err}");
}

#[test]
fn other_bind_errors_have_no_hint() {
    assert_eq!(
        bind_error("[::]:5353", 5353, BindFailure::PermissionDenied, "denied"),
        "cannot bind [::]:5353: denied"
    );
    assert_eq!(
        bind_error("[::]:53", 53, BindFailure::Other, "in use"),
        "cannot bind [::]:53: in use"
    );
}

#[test]
fn default_is_both_wildcards() {
    assert_eq!(
        default_listen(5353),
        vec![
            ListenAddr {
                addr: IpAddr::V4(0),
                port: 5353
            },
            ListenAddr {
                addr: IpAddr::V6(0),
                port: 5353
            },
        ]
    );
}

#[test]
fn listen_values_are_addresses_with_or_without_port() {
    let v4 = |a: u32, port: u16| {
        Ok(ListenAddr {
            addr: IpAddr::V4(a),
            port,
        })
    };
    let v6 = |a: u128, port: u16| {
        Ok(ListenAddr {
            addr: IpAddr::V6(a),
            port,
        })
    };
    assert_eq!(parse_listen("127.0.0.1"), v4(0x7f00_0001, 53));
    assert_eq!(parse_listen("127.0.0.1:5353"), v4(0x7f00_0001, 5353));
    assert_eq!(parse_listen("127.0.0.1:0053"), v4(0x7f00_0001, 53));
    assert_eq!(parse_listen("::1"), v6(1, 53));
    assert_eq!(parse_listen("[::1]:65535"), v6(1, 65535));
    assert_eq!(parse_listen("[::1%4]:53"), v6(1, 53));
    for bad in [
        "",
        "nope",
        "[::1]",
        "[::1]:65536",
        "[::1]:",
        "[::1]:+53",
        "[::1]53",
        "[::1%]:53",
        "[::1%x]:53",
        "[127.0.0.1]:53",
        "127.0.0.1:",
        "127.0.0.1:x",
        "::1:53:::",
        "1.2.3.4.5",
    ] {
        assert_eq!(
            parse_listen(bad),
            Err(format!("--listen {bad}: not an IP address or address:port"))
        );
    }
}

#[test]
fn command_line_wins_over_config_over_default() {
    let config = Config::parse("listen 192.0.2.1\n").unwrap();
    let cli = vec![" 127.0.0.1:5353 ".to_string(), "\u{a0}::1".to_string()];
    let got = effective_listen(&cli, &config).unwrap();
    assert_eq!(got.len(), 2);
    assert_eq!(got[0].port, 5353);
    assert_eq!(got[1].addr, IpAddr::V6(1));

    let none: Vec<String> = Vec::new();
    assert_eq!(effective_listen(&none, &config), Ok(config.listen.clone()));
    assert_eq!(
        effective_listen(&none, &Config::default()),
        Ok(default_listen(53))
    );
    let bad = vec!["::1".to_string(), " x ".to_string(), "y".to_string()];
    assert_eq!(
        effective_listen(&bad, &config),
        Err("--listen x: not an IP address or address:port".to_string())
    );
}
