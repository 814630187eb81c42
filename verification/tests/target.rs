//! Which targets a webhook may go to.
use pylon::webhook::target::{
    is_private_target, DeliveryPin, IpAddr, Ipv4, Ipv6, Preflight, Refusal, SsrfGuard, UrlHost,
    UrlParts,
};
use pylon::webhook::transport::SystemResolver;

fn ip(s: &str) -> IpAddr {
    let host = if s.contains(':') {
        format!("[{s}]")
    } else {
        s.to_string()
    };
    match url::Host::parse(&host).expect("valid ip literal for the test") {
        url::Host::Ipv4(v4) => {
            let o = v4.octets();
            IpAddr::V4(Ipv4 {
                a: o[0],
                b: o[1],
                c: o[2],
                d: o[3],
            })
        }
        url::Host::Ipv6(v6) => {
            let s = v6.segments();
            IpAddr::V6(Ipv6 {
                s0: s[0],
                s1: s[1],
                s2: s[2],
                s3: s[3],
                s4: s[4],
                s5: s[5],
                s6: s[6],
                s7: s[7],
            })
        }
        url::Host::Domain(d) => panic!("{d} is no address"),
    }
}

fn private(s: &str) -> bool {
    is_private_target(ip(s))
}

/// The whole pre-flight, with canned answers for every host name.
fn preflight(url: &str, ips: &[IpAddr], allow_private: bool) -> Result<Option<DeliveryPin>, Refusal> {
    let guard = SsrfGuard { allow_private };
    match guard.check(url) {
        Preflight::Allowed => Ok(None),
        Preflight::Refused(r) => Err(r),
        Preflight::Resolve { host, port } => guard.pin(host, port, &ips.to_vec()).map(Some),
    }
}

#[test]
fn classifier_blocks_v4_loopback_range() {
    assert!(private("127.0.0.1"));
    assert!(private("127.0.0.0"));
    assert!(private("127.255.255.254"), "the whole 127/8 is loopback");
}

#[test]
fn classifier_blocks_v4_unspecified() {
    assert!(private("0.0.0.0"));
}

#[test]
fn classifier_blocks_v4_link_local_169_254() {
    assert!(private("169.254.0.1"));
    assert!(private("169.254.169.254"), "the cloud metadata address");
    assert!(private("169.254.255.255"));
    assert!(!private("169.253.255.255"), "just below the /16");
    assert!(!private("169.255.0.1"), "just above the /16");
}

#[test]
fn classifier_blocks_rfc1918() {
    // 10.0.0.0/8
    assert!(private("10.0.0.5"));
    assert!(private("10.255.255.255"));
    assert!(private("10.1.2.3"));
    // 172.16.0.0/12
    assert!(private("172.16.0.1"));
    assert!(private("172.31.255.255"));
    assert!(!private("172.15.255.255"), "just below the /12");
    assert!(!private("172.32.0.1"), "just above the /12");
    // 192.168.0.0/16
    assert!(private("192.168.0.1"));
    assert!(private("192.168.255.255"));
    assert!(!private("192.169.0.1"), "just above the /16");
}

#[test]
fn classifier_allows_public_v4() {
    assert!(!private("8.8.8.8"));
    assert!(!private("1.1.1.1"));
    assert!(!private("203.0.113.10"), "TEST-NET is not RFC1918-private");
    assert!(!private("172.32.0.1"));
}

#[test]
fn classifier_blocks_v6_loopback_and_unspecified() {
    assert!(private("::1"));
    assert!(private("::"), "unspecified v6");
}

#[test]
fn classifier_blocks_v6_unique_local_fc00_slash_7() {
    assert!(private("fc00::1"));
    assert!(private("fd00::1"));
    assert!(private("fd12:3456:789a::1"));
    assert!(!private("fbff::1"), "just below fc00::/7");
    assert!(!private("fe00::1"), "just above fc00::/7");
}

#[test]
fn classifier_blocks_v6_link_local_fe80_slash_10() {
    assert!(private("fe80::1"));
    assert!(private("fe80::ffff:ffff:ffff:ffff"));
    assert!(private("febf::1"), "top of fe80::/10");
    assert!(!private("fec0::1"), "just above fe80::/10 (old site-local)");
}

#[test]
fn classifier_blocks_v4_mapped_v6_by_embedded_v4() {
    assert!(private("::ffff:10.0.0.5"), "mapped RFC1918");
    assert!(private("::ffff:127.0.0.1"), "mapped loopback");
    assert!(
        private("::ffff:169.254.169.254"),
        "mapped link-local/metadata"
    );
    assert!(private("::ffff:0.0.0.0"), "mapped unspecified");
    assert!(!private("::ffff:8.8.8.8"), "mapped public is allowed");
}

#[test]
fn classifier_blocks_v4_compatible_v6_by_embedded_v4() {
    assert!(private("::127.0.0.1"));
    assert!(private("::10.0.0.5"));
    assert!(!private("::8.8.8.8"));
}

#[test]
fn classifier_allows_public_v6() {
    assert!(!private("2001:4860:4860::8888"));
    assert!(!private("2606:4700:4700::1111"));
}

#[test]
fn classifier_blocks_cgnat_shared_100_64_slash_10() {
    assert!(!private("100.63.255.255"), "just below the /10");
    assert!(private("100.64.0.0"), "bottom of the /10");
    assert!(private("100.64.0.1"));
    assert!(private("100.100.100.100"));
    assert!(private("100.127.255.255"), "top of the /10");
    assert!(!private("100.128.0.1"), "just above the /10");
}

#[test]
fn classifier_blocks_multicast_and_broadcast() {
    // v4 multicast 224.0.0.0/4
    assert!(!private("223.255.255.255"), "just below 224/4");
    assert!(private("224.0.0.1"));
    assert!(private("239.255.255.255"), "top of 224/4");
    // 240.0.0.0/4 is not private.
    assert!(!private("240.0.0.1"));
    // v4 broadcast
    assert!(private("255.255.255.255"));
    // v6 multicast ff00::/8
    assert!(private("ff02::1"));
    assert!(private("ffff::1"), "top of ff00::/8");
    assert!(!private("fe00::1"), "below ff00::/8");
}

#[test]
fn preflight_refuses_when_any_resolved_ip_is_private() {
    let err = preflight("https://e.test/wh", &[ip("8.8.8.8"), ip("10.0.0.5")], false).unwrap_err();
    assert_eq!(
        err,
        Refusal::PrivateResolution {
            host: "e.test".into(),
            ip: ip("10.0.0.5"),
        },
        "the refusal must name the offending address"
    );
}

#[test]
fn preflight_pins_public_resolution() {
    let pin = preflight(
        "https://e.test/wh",
        &[ip("93.184.216.34"), ip("1.1.1.1")],
        false,
    )
    .unwrap()
    .unwrap();
    assert_eq!(pin.host, "e.test");
    assert_eq!(
        pin.addrs,
        vec![(ip("93.184.216.34"), 443), (ip("1.1.1.1"), 443)]
    );
}

#[test]
fn preflight_uses_the_urls_explicit_port_in_the_pin() {
    let pin = preflight("http://e.test:9090/wh", &[ip("93.184.216.34")], false)
        .unwrap()
        .unwrap();
    assert_eq!(pin.addrs, vec![(ip("93.184.216.34"), 9090)]);
}

#[test]
fn preflight_pins_even_when_private_targets_are_allowed() {
    assert!(preflight("https://e.test/wh", &[ip("10.0.0.5")], true)
        .unwrap()
        .is_some());
}

#[test]
fn preflight_refuses_when_resolution_is_empty() {
    let err = preflight("https://nx.test/wh", &[], false).unwrap_err();
    assert_eq!(err, Refusal::Unresolved("nx.test".into()));
}

#[test]
fn preflight_literal_ip_skips_resolution_but_classifies() {
    let ips = [ip("8.8.8.8")];
    let err = preflight("http://10.0.0.5/wh", &ips, false).unwrap_err();
    assert_eq!(err, Refusal::PrivateTarget(ip("10.0.0.5")));
    let out = preflight("http://93.184.216.34/wh", &ips, false).unwrap();
    assert!(out.is_none(), "literal IP needs no DNS pin");
    let err = preflight("http://[::1]/wh", &ips, false).unwrap_err();
    assert_eq!(err, Refusal::PrivateTarget(ip("::1")));
    assert!(preflight("http://[2001:4860:4860::8888]/wh", &ips, false)
        .unwrap()
        .is_none());
    let err = preflight("http://[::ffff:10.0.0.5]/wh", &ips, false).unwrap_err();
    assert_eq!(err, Refusal::PrivateTarget(ip("::ffff:10.0.0.5")), "mapped form");
}

#[test]
fn preflight_literal_private_allowed_when_flag_set() {
    assert!(preflight("http://127.0.0.1:8080/wh", &[], true)
        .unwrap()
        .is_none());
}

#[test]
fn preflight_refuses_non_http_schemes() {
    for (url, scheme) in [
        ("file:///etc/passwd", "file"),
        ("ftp://e.test/wh", "ftp"),
        ("gopher://e.test/wh", "gopher"),
        ("unix:///var/run/sock", "unix"),
    ] {
        let err = preflight(url, &[ip("8.8.8.8")], true).unwrap_err();
        assert_eq!(
            err,
            Refusal::UnsupportedScheme(scheme.into()),
            "{url} must be refused as a scheme violation"
        );
    }
}

#[test]
fn a_text_that_is_no_url_is_refused_with_the_parsers_words() {
    match preflight("not a url", &[], true) {
        Err(Refusal::InvalidUrl(words)) => assert!(!words.is_empty()),
        other => panic!("expected a refusal, got {other:?}"),
    }
}

#[test]
fn a_url_without_host_or_port_is_refused() {
    let guard = SsrfGuard { allow_private: true };
    let parts = |host: Option<UrlHost>, port: Option<u16>| UrlParts {
        scheme: "HTTPS".into(),
        host,
        port,
    };
    assert_eq!(
        guard.check_parts(Ok(parts(None, Some(443)))),
        Preflight::Refused(Refusal::NoHost)
    );
    assert_eq!(
        guard.check_parts(Ok(parts(Some(UrlHost::Domain("h".into())), None))),
        Preflight::Refused(Refusal::UnknownPort)
    );
    assert_eq!(
        guard.check_parts(Ok(parts(Some(UrlHost::V4([8, 8, 8, 8])), Some(443)))),
        Preflight::Allowed
    );
}

#[test]
fn a_host_in_decimal_notation_is_an_address() {
    // The parser reads the number as 127.0.0.1.
    let err = preflight("http://2130706433/wh", &[], false).unwrap_err();
    assert_eq!(err, Refusal::PrivateTarget(ip("127.0.0.1")));
}

#[test]
fn the_system_resolver_tries_two_ports_and_keeps_each_address_once() {
    let r = SystemResolver;
    assert_eq!(r.port(0), Some(80));
    assert_eq!(r.port(1), Some(443));
    assert_eq!(r.port(2), None);
    let a = ip("1.1.1.1");
    let b = ip("8.8.8.8");
    assert_eq!(r.addresses(&vec![a, b, a, b]), vec![a, b]);
    assert!(r.addresses(&vec![]).is_empty());
}
