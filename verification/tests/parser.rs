use oxideprobe::database::{parse_database, parse_probe_line, parse_probe_string};

#[test]
fn parses_a_small_probe_database() {
    let input = r#"
# fixture
Probe TCP NULL q||
ports 21,22
rarity 1
match ssh m|^SSH-([0-9.]+)-([^\r\n]+)| p/OpenSSH/ v/$2/ cpe:/a:openbsd:openssh:$2/
softmatch ftp m|^220.*FTP|i
fallback GenericLines
"#;
    let outcome = parse_database(input);
    assert!(outcome.warnings.is_empty(), "{:?}", outcome.warnings);
    assert_eq!(outcome.probes.len(), 1);
    let probe = &outcome.probes[0];
    assert_eq!(probe.probename, "NULL");
    assert_eq!(probe.ports, "21,22");
    assert_eq!(probe.matches[0].versioninfo.version, "$2");
    assert_eq!(probe.softmatches[0].pattern_flag, "i");
    assert_eq!(probe.fallback, "GenericLines");
}

#[test]
fn decodes_probe_escapes_and_delimiters() {
    let probe = parse_probe_line(r"Probe TCP Test q|GET / HTTP/1.0\r\n\x00\||").unwrap();
    assert_eq!(probe.probestring, b"GET / HTTP/1.0\r\n\0|");
}

#[test]
fn records_malformed_lines_as_warnings() {
    let outcome = parse_database("Probe TCP Broken q|unterminated");
    assert!(outcome.probes.is_empty());
    assert_eq!(outcome.warnings.len(), 1);
}

#[test]
fn full_match_line_fields_are_kept() {
    let outcome = parse_database(
        "Probe TCP GetRequest q|GET / HTTP/1.0\\r\\n\\r\\n|\r\n\
         rarity 1\r\n\
         ports 80, 8080 \r\n\
         sslports 443\r\n\
         match http m=^HTTP/1\\.[01] (\\d+)=s p/Some\\/Server/ i/status $1/ h/host/ o/Linux/ d/router/ cpe:/a:x:y/ cpe:/o:linux:linux_kernel/\r\n",
    );
    assert!(outcome.warnings.is_empty(), "{:?}", outcome.warnings);
    let probe = &outcome.probes[0];
    assert_eq!(probe.protocol, "TCP");
    assert_eq!(probe.probestring, b"GET / HTTP/1.0\r\n\r\n");
    assert_eq!(probe.rarity, "1");
    assert_eq!(probe.ports, "80, 8080");
    assert_eq!(probe.sslports, "443");
    let rule = &probe.matches[0];
    assert_eq!(rule.service, "http");
    assert_eq!(rule.pattern, "^HTTP/1\\.[01] (\\d+)");
    assert_eq!(rule.pattern_flag, "s");
    assert_eq!(rule.versioninfo.vendorproductname, "Some/Server");
    assert_eq!(rule.versioninfo.info, "status $1");
    assert_eq!(rule.versioninfo.hostname, "host");
    assert_eq!(rule.versioninfo.operatingsystem, "Linux");
    assert_eq!(rule.versioninfo.devicetype, "router");
    assert_eq!(
        rule.versioninfo.cpename,
        vec!["cpe:/a:x:y".to_string(), "cpe:/o:linux:linux_kernel".to_string()]
    );
}

#[test]
fn version_markers_count_only_after_whitespace() {
    let outcome = parse_database("Probe TCP X q||\nmatch svc m|x| i/ap/1/ p/real/\n");
    let info = &outcome.probes[0].matches[0].versioninfo;
    assert_eq!(info.info, "ap");
    assert_eq!(info.vendorproductname, "real");
}

#[test]
fn directives_before_a_probe_are_warned_about() {
    let outcome = parse_database("ports 80\nProbe TCP A q||\n");
    assert_eq!(outcome.warnings, vec!["line 1: directive appeared before the first probe".to_string()]);
    assert_eq!(outcome.probes.len(), 1);
}

#[test]
fn malformed_probe_closes_the_previous_probe() {
    let outcome = parse_database("Probe TCP A q||\nProbe ICMP B q||\nmatch x m|y|\nProbe UDP C q|\\x41|\n");
    assert_eq!(outcome.probes.len(), 2);
    assert_eq!(outcome.probes[0].probename, "A");
    assert_eq!(outcome.probes[1].probename, "C");
    assert_eq!(outcome.probes[1].probestring, b"A");
    assert_eq!(
        outcome.warnings,
        vec![
            "line 2: probe protocol must be TCP or UDP".to_string(),
            "line 3: directive appeared before the first probe".to_string(),
        ]
    );
}

#[test]
fn malformed_match_lines_are_warned_about() {
    let outcome = parse_database(
        "Probe TCP A q||\nmatch nothing\nmatch x m\nmatch x m|open\nsoftmatch y m/ok/ p/Y/\n",
    );
    assert_eq!(
        outcome.warnings,
        vec![
            "line 2: missing m-delimited match expression".to_string(),
            "line 3: missing match delimiter".to_string(),
            "line 4: unterminated match pattern".to_string(),
        ]
    );
    assert_eq!(outcome.probes[0].softmatches.len(), 1);
    assert_eq!(outcome.probes[0].softmatches[0].service, "y");
    assert!(outcome.probes[0].matches.is_empty());
}

#[test]
fn probe_line_errors() {
    assert_eq!(parse_probe_line("Probe").unwrap_err(), "missing Probe prefix");
    assert_eq!(parse_probe_line("Probe SCTP x q||").unwrap_err(), "probe protocol must be TCP or UDP");
    assert_eq!(parse_probe_line("Probe TCP").unwrap_err(), "missing probe name");
    assert_eq!(parse_probe_line("Probe TCP  q||").unwrap_err(), "missing probe name");
    assert_eq!(parse_probe_line("Probe TCP x").unwrap_err(), "missing q-delimited probe payload");
    assert_eq!(parse_probe_line("Probe TCP x r||").unwrap_err(), "missing q-delimited probe payload");
    assert_eq!(parse_probe_line("Probe TCP x q").unwrap_err(), "missing probe payload delimiter");
    assert_eq!(parse_probe_line("Probe TCP x q|abc").unwrap_err(), "unterminated probe payload");
    assert_eq!(parse_probe_line("Probe TCP x q|ab\\|").unwrap_err(), "unterminated probe payload");
    assert_eq!(parse_probe_line("Probe TCP x q|\\x4|").unwrap_err(), "incomplete hex escape");
    assert_eq!(parse_probe_line("Probe TCP x q|\\xZZ|").unwrap_err(), "invalid hex escape");
}

#[test]
fn payload_escapes_decode_to_bytes() {
    let probe = parse_probe_line("Probe UDP x q|\\0\\a\\b\\f\\n\\r\\t\\v\\\\\\q\\xff\\x+7é| no-payload").unwrap();
    assert_eq!(probe.protocol, "UDP");
    assert_eq!(
        probe.probestring,
        vec![0, 7, 8, 12, 10, 13, 9, 11, b'\\', b'q', 0xff, 7, 0xc3, 0xa9]
    );
    assert!(probe.ports.is_empty());
    assert!(probe.matches.is_empty());
}

#[test]
fn crlf_and_blank_lines() {
    let outcome = parse_database("\r\n   \r\n# c\r\nProbe TCP A q||\r\nrarity  5  \r\n");
    assert!(outcome.warnings.is_empty());
    assert_eq!(outcome.probes[0].rarity, "5");
}

#[test]
fn warning_numbers_count_every_line() {
    let outcome = parse_database("\n\n\n\n\n\n\n\n\n\nbogus\n");
    assert_eq!(outcome.warnings, vec!["line 11: directive appeared before the first probe".to_string()]);
}

#[test]
fn plain_payload_is_its_utf8() {
    let probe = parse_probe_line("Probe TCP x q|héllo wörld|").unwrap();
    assert_eq!(probe.probestring, "héllo wörld".as_bytes());
    let probe = parse_probe_line("Probe TCP x q/a|b/").unwrap();
    assert_eq!(probe.probestring, b"a|b");
}

#[test]
fn hex_escaped_bytes_decode_to_themselves() {
    let bytes: Vec<u8> = (0..=255u8).collect();
    let value: String = bytes.iter().map(|b| format!("\\x{:02x}", b)).collect();
    let probe = parse_probe_line(&format!("Probe TCP all q|{value}|")).unwrap();
    assert_eq!(probe.probestring, bytes);
}

#[test]
fn probe_string_decodes_hex_escapes_back_to_bytes() {
    let bytes: Vec<u8> = vec![0, 1, 0x7f, 0x80, 0xab, 0xff, b'|', b'\\'];
    let value: String = bytes.iter().map(|b| format!("\\x{:02x}", b)).collect();
    assert_eq!(parse_probe_string(&value).unwrap(), bytes);
    assert_eq!(parse_probe_string("\\").unwrap_err(), "incomplete escape sequence");
    assert_eq!(parse_probe_string("\\x1").unwrap_err(), "incomplete hex escape");
    assert_eq!(parse_probe_string("\\xg1").unwrap_err(), "invalid hex escape");
}

#[test]
fn probes_are_the_probe_lines_that_parse() {
    let input = "Probe TCP A q|a|\nmatch x m|y|\nProbe SCTP B q||\n# Probe TCP C q||\nProbe UDP D q|\\x01|  \nports 5\nProbe TCP E q|bad\n";
    let outcome = parse_database(input);
    let expected: Vec<(String, String, Vec<u8>)> = input
        .lines()
        .map(str::trim_end)
        .filter(|l| l.starts_with("Probe "))
        .filter_map(|l| parse_probe_line(l).ok())
        .map(|p| (p.protocol, p.probename, p.probestring))
        .collect();
    let got: Vec<(String, String, Vec<u8>)> = outcome
        .probes
        .iter()
        .map(|p| (p.protocol.clone(), p.probename.clone(), p.probestring.clone()))
        .collect();
    assert_eq!(got, expected);
    assert_eq!(got.len(), 2);
    assert_eq!(outcome.probes[1].ports, "5");
}
