use oxideprobe::ports::{parse_ports, port_spec_contains};
use oxideprobe::probe::{MatchRule, NmapProbe, VersionInfo};
use oxideprobe::signature::{match_probe_response, render_service_match};

#[test]
fn parses_and_sorts_port_lists() {
    assert_eq!(
        parse_ports("443,80,8000-8002,80").unwrap(),
        vec![80, 443, 8000, 8001, 8002]
    );
    assert!(parse_ports("100-99").is_err());
    assert!(parse_ports("0").is_err());
}

#[test]
fn matches_ports_exactly_instead_of_by_substring() {
    assert!(port_spec_contains("80,443,8000-8010", 80));
    assert!(port_spec_contains("80,443,8000-8010", 8005));
    assert!(!port_spec_contains("8080", 80));
}

#[test]
fn renders_regex_captures() {
    let probe = NmapProbe {
        matches: vec![MatchRule {
            service: "ssh".to_string(),
            pattern: r"^SSH-([0-9.]+)-([^\r\n]+)".to_string(),
            versioninfo: VersionInfo {
                vendorproductname: "OpenSSH".to_string(),
                version: "$2".to_string(),
                ..VersionInfo::default()
            },
            ..MatchRule::default()
        }],
        ..NmapProbe::default()
    };

    let result = match_probe_response(&probe, b"SSH-2.0-OpenSSH_9.6\r\n").unwrap();
    assert_eq!(result.service, "ssh");
    assert!(result.summary.contains("version=OpenSSH_9.6"));
    assert!(!result.soft);
}

#[test]
fn unsupported_regex_is_skipped_without_panicking() {
    let probe = NmapProbe {
        matches: vec![MatchRule {
            service: "invalid".to_string(),
            pattern: "(?=unsupported-lookahead)".to_string(),
            ..MatchRule::default()
        }],
        ..NmapProbe::default()
    };
    assert!(match_probe_response(&probe, b"anything").is_none());
}

#[test]
fn port_errors_name_their_cause() {
    assert_eq!(parse_ports(" x ").unwrap_err(), "invalid port: x");
    assert_eq!(parse_ports(" 5 - y").unwrap_err(), "invalid port:  y");
    assert_eq!(parse_ports("0").unwrap_err(), "port 0 is not supported");
    assert_eq!(parse_ports("100-99").unwrap_err(), "invalid descending port range: 100-99");
    assert_eq!(parse_ports("1-").unwrap_err(), "invalid port: ");
    assert_eq!(parse_ports(" , ,").unwrap_err(), "at least one port is required");
    assert_eq!(parse_ports("65536").unwrap_err(), "invalid port: 65536");
    assert_eq!(parse_ports("1-2-3").unwrap_err(), "invalid port: 2-3");
}

#[test]
fn port_lists_accept_spaces_signs_and_full_range() {
    assert_eq!(parse_ports(" 22 , +23, 65535 ,, 1 - 2 ").unwrap(), vec![1, 2, 22, 23, 65535]);
    assert_eq!(parse_ports("1-65535").unwrap().len(), 65535);
}

#[test]
fn parsed_ports_agree_with_contains() {
    let spec = " 7, 20-22 ,,9";
    let ports = parse_ports(spec).unwrap();
    for p in 0..=30u16 {
        assert_eq!(ports.contains(&p), port_spec_contains(spec, p), "port {p}");
    }
}

#[test]
fn contains_ignores_unparsable_items() {
    assert!(port_spec_contains("x, 5 - 9", 6));
    assert!(!port_spec_contains("9-5", 7));
    assert!(port_spec_contains("0", 0));
    assert!(!port_spec_contains("", 0));
}

fn rule(service: &str, pattern: &str, flag: &str) -> MatchRule {
    MatchRule {
        service: service.to_string(),
        pattern: pattern.to_string(),
        pattern_flag: flag.to_string(),
        ..MatchRule::default()
    }
}

#[test]
fn hard_matches_win_over_soft_ones() {
    let probe = NmapProbe {
        matches: vec![rule("bad", "(", ""), rule("http", "^HTTP", "")],
        softmatches: vec![rule("web", "HTTP", "")],
        ..NmapProbe::default()
    };
    let m = match_probe_response(&probe, b"HTTP/1.0 200").unwrap();
    assert_eq!(m.service, "http");
    assert_eq!(m.summary, "service=http");
    assert!(!m.soft);

    let m = match_probe_response(&probe, b"xx HTTP").unwrap();
    assert_eq!(m.service, "web");
    assert!(m.soft);
    assert!(m.summary.starts_with("service=web"));
}

#[test]
fn dropping_a_rejected_signature_changes_nothing() {
    let with_bad = NmapProbe {
        matches: vec![rule("bad", "a{2,1}", ""), rule("ftp", "^220", "")],
        ..NmapProbe::default()
    };
    let without_bad = NmapProbe {
        matches: vec![rule("ftp", "^220", "")],
        ..NmapProbe::default()
    };
    let a = match_probe_response(&with_bad, b"220 ready");
    let b = match_probe_response(&without_bad, b"220 ready");
    assert_eq!(a, b);
    assert_eq!(a.unwrap().service, "ftp");
}

#[test]
fn flags_select_case_and_dot_behaviour() {
    let probe = NmapProbe { matches: vec![rule("smtp", "^esmtp.ok", "si")], ..NmapProbe::default() };
    assert!(match_probe_response(&probe, b"ESMTP\nOK").is_some());
    let strict = NmapProbe { matches: vec![rule("smtp", "^esmtp.ok", "")], ..NmapProbe::default() };
    assert!(match_probe_response(&strict, b"ESMTP\nOK").is_none());
}

#[test]
fn summary_lists_fields_in_order() {
    let r = MatchRule {
        service: "ssh".to_string(),
        pattern: "^SSH-([\\d.]+)-(\\S+)(x)?".to_string(),
        versioninfo: VersionInfo {
            vendorproductname: "OpenSSH".to_string(),
            version: "$2".to_string(),
            info: "protocol $1".to_string(),
            hostname: "$3".to_string(),
            operatingsystem: "Linux".to_string(),
            devicetype: String::new(),
            cpename: vec!["cpe:/a:openbsd:openssh:$2".to_string(), "cpe:/o:linux".to_string()],
        },
        ..MatchRule::default()
    };
    let probe = NmapProbe { softmatches: vec![r], ..NmapProbe::default() };
    let m = match_probe_response(&probe, b"SSH-2.0-OpenSSH_9.6").unwrap();
    assert_eq!(
        m.summary,
        "service=ssh product=OpenSSH version=OpenSSH_9.6 info=protocol 2.0 hostname=$3 os=Linux cpe=cpe:/a:openbsd:openssh:OpenSSH_9.6,cpe:/o:linux"
    );
    assert!(m.soft);
}

#[test]
fn invalid_utf8_captures_are_replaced() {
    let probe = NmapProbe {
        matches: vec![MatchRule {
            service: "raw".to_string(),
            pattern: "(?-u)^(.)".to_string(),
            versioninfo: VersionInfo { info: "[$1]".to_string(), ..VersionInfo::default() },
            ..MatchRule::default()
        }],
        ..NmapProbe::default()
    };
    let m = match_probe_response(&probe, &[0xff, b'a']).unwrap();
    assert_eq!(m.summary, "service=raw info=[\u{fffd}]");
}

#[test]
fn render_substitutes_groups_in_turn() {
    let r = MatchRule {
        service: "s".to_string(),
        versioninfo: VersionInfo { version: "$1.$10.$2".to_string(), ..VersionInfo::default() },
        ..MatchRule::default()
    };
    let mut caps: Vec<Option<String>> = vec![Some("all".to_string()), Some("A".to_string()), None];
    for i in 3..=10 {
        caps.push(Some(format!("g{i}")));
    }
    let m = render_service_match(&r, &caps, false);
    // `$1` is replaced first, so `$10` has already become `A0`.
    assert_eq!(m.summary, "service=s version=A.A0.$2");
    assert_eq!(m.service, "s");
}

#[test]
fn port_lists_do_not_depend_on_item_order_or_repeats() {
    let a = parse_ports("8000-8002,80,443").unwrap();
    let b = parse_ports("443, 80 ,8000-8002,80,443").unwrap();
    assert_eq!(a, b);
    assert_eq!(a, vec![80, 443, 8000, 8001, 8002]);
}

#[test]
fn a_written_port_list_parses_back() {
    let v = parse_ports("10-12,7,65535").unwrap();
    let text = v.iter().map(|p| p.to_string()).collect::<Vec<_>>().join(",");
    assert_eq!(text, "7,10,11,12,65535");
    assert_eq!(parse_ports(&text).unwrap(), v);
}
