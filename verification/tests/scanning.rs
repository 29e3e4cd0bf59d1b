use oxideprobe::probe::{MatchRule, NmapProbe};
use oxideprobe::scan::{
    identify_finish, identify_start, identify_step, plan_identification, select_probes, sort_ports,
    IdentifyPlan, IdentifyStep,
};

fn probe(name: &str, protocol: &str, ports: &str, rarity: &str) -> NmapProbe {
    NmapProbe {
        protocol: protocol.to_string(),
        probename: name.to_string(),
        ports: ports.to_string(),
        rarity: rarity.to_string(),
        ..NmapProbe::default()
    }
}

fn names(selected: &[&NmapProbe]) -> Vec<String> {
    selected.iter().map(|p| p.probename.clone()).collect()
}

#[test]
fn probes_are_chosen_by_preference_rarity_and_name() {
    let probes = vec![
        probe("NULL", "TCP", "", ""),
        probe("Rare", "TCP", "80", "9"),
        probe("GetRequest", "TCP", "1-100", "1"),
        probe("Common", "TCP", "70-90", "3"),
        probe("Udp", "UDP", "80", "1"),
        probe("Tied", "TCP", "80", "3"),
        probe("Unranked", "TCP", "80", "x"),
    ];
    let all = select_probes(&probes, 80, 10);
    assert_eq!(names(&all), vec!["GetRequest", "Common", "Tied", "Rare", "Unranked", "NULL"]);
    let two = select_probes(&probes, 80, 2);
    assert_eq!(names(&two), vec!["GetRequest", "Common"]);
    let other = select_probes(&probes, 22, 5);
    assert_eq!(names(&other), vec!["GetRequest", "NULL"]);
    let none = select_probes(&probes, 200, 5);
    assert_eq!(names(&none), vec!["NULL"]);
    assert!(select_probes(&probes, 80, 0).is_empty());
}

#[test]
fn ssl_ports_count_and_names_are_not_repeated() {
    let mut tls = probe("SSLSessionReq", "TCP", "", "1");
    tls.sslports = "443".to_string();
    let probes = vec![tls, probe("NULL", "TCP", "443", "5"), probe("NULL", "TCP", "", "")];
    let chosen = select_probes(&probes, 443, 5);
    assert_eq!(names(&chosen), vec!["SSLSessionReq", "NULL"]);
    assert_eq!(chosen[1].ports, "443");
}

#[test]
fn ports_are_sorted_with_repeats_kept() {
    assert_eq!(sort_ports(vec![443, 22, 80, 22]), vec![22, 22, 80, 443]);
    assert!(sort_ports(Vec::new()).is_empty());
}

fn http_probe() -> NmapProbe {
    NmapProbe {
        protocol: "TCP".to_string(),
        probename: "GetRequest".to_string(),
        matches: vec![MatchRule {
            service: "http".to_string(),
            pattern: "^HTTP/1\\.[01]".to_string(),
            ..MatchRule::default()
        }],
        softmatches: vec![MatchRule {
            service: "maybe-http".to_string(),
            pattern: "HTTP".to_string(),
            ..MatchRule::default()
        }],
        ..NmapProbe::default()
    }
}

#[test]
fn a_matching_response_identifies_the_service() {
    let p = http_probe();
    match identify_step(identify_start(), &p, Some(b"HTTP/1.1 200 OK\r\n".to_vec())) {
        IdentifyStep::Identified(report) => {
            assert_eq!(report.service.as_deref(), Some("http"));
            assert_eq!(report.probe.as_deref(), Some("GetRequest"));
            assert_eq!(report.details.as_deref(), Some("service=http"));
        }
        IdentifyStep::Continue(_) => panic!("expected a match"),
    }
    match identify_step(identify_start(), &p, Some(b"xHTTP".to_vec())) {
        IdentifyStep::Identified(report) => {
            assert_eq!(report.details.as_deref(), Some("softmatch service=maybe-http"));
        }
        IdentifyStep::Continue(_) => panic!("expected a soft match"),
    }
}

#[test]
fn unmatched_and_missing_responses_are_reported() {
    let p = http_probe();
    let state = match identify_step(identify_start(), &p, None) {
        IdentifyStep::Continue(s) => s,
        IdentifyStep::Identified(_) => panic!("no response cannot match"),
    };
    assert_eq!(state.last_probe.as_deref(), Some("GetRequest"));
    assert!(!state.received_response);
    let state = match identify_step(state, &p, Some(Vec::new())) {
        IdentifyStep::Continue(s) => s,
        IdentifyStep::Identified(_) => panic!("empty response cannot match"),
    };
    let report = identify_finish(state);
    assert_eq!(report.service, None);
    assert_eq!(report.details.as_deref(), Some("no banner received before timeout"));

    let state = match identify_step(identify_start(), &p, Some(b"SSH-2.0".to_vec())) {
        IdentifyStep::Continue(s) => s,
        IdentifyStep::Identified(_) => panic!("ssh is not http"),
    };
    assert!(state.received_response);
    let report = identify_finish(state);
    assert_eq!(report.probe.as_deref(), Some("GetRequest"));
    assert_eq!(
        report.details.as_deref(),
        Some("response received, but no supported signature matched")
    );
}

#[test]
fn a_port_without_probes_is_reported_open() {
    let probes = vec![probe("Web", "TCP", "80", "1")];
    match plan_identification(&probes, 22, 2) {
        IdentifyPlan::Open(report) => {
            assert!(report.service.is_none() && report.probe.is_none() && report.details.is_none());
        }
        IdentifyPlan::Probe(..) => panic!("no probe serves port 22"),
    }
    match plan_identification(&probes, 80, 2) {
        IdentifyPlan::Probe(chosen, state) => {
            assert_eq!(names(&chosen), vec!["Web"]);
            assert!(state.last_probe.is_none() && !state.received_response);
        }
        IdentifyPlan::Open(_) => panic!("Web serves port 80"),
    }
}
