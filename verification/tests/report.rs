use loophunter::checker::{Detected, LoopResult, ScanPlan};
use loophunter::client_scan::{confirm_params, ClientScan, ScanStep};
use loophunter::ip::Ip;
use loophunter::loops::loops_to_keep;
use loophunter::records::{asn_labels, asn_of, Client, ClientPrefix, SavedLoop};
use loophunter::report::{client_report, ClientScanReport};
use loophunter::sender::ScanParams;

fn client() -> Client {
    Client {
        id: 1,
        name: "Company".to_string(),
        email: "support@company.com".to_string(),
        corporate_name: "Company Name Ltd".to_string(),
    }
}

fn prefix(prefix: &str, asn: Option<&str>) -> ClientPrefix {
    ClientPrefix {
        prefix: prefix.to_string(),
        client_name: "Company".to_string(),
        asn: asn.map(|a| a.to_string()),
    }
}

fn kept(prefix: &str, target: &str, router: &str) -> SavedLoop {
    SavedLoop {
        prefix: prefix.to_string(),
        target_ip: target.to_string(),
        router_ip: router.to_string(),
    }
}

fn found(prefix: &str, target: Ip, router: Option<Ip>) -> LoopResult {
    LoopResult {
        prefix: prefix.to_string(),
        target_ip: target,
        router_ip: router,
        error: None,
    }
}

fn v4(text: &str) -> Ip {
    Ip::V4(text.parse::<ipnetwork::Ipv4Network>().unwrap().ip().into())
}

fn v6(text: &str) -> Ip {
    Ip::V6(text.parse::<ipnetwork::Ipv6Network>().unwrap().ip().into())
}

fn rows(loops: &[SavedLoop]) -> Vec<(&str, &str, &str)> {
    loops
        .iter()
        .map(|l| (l.prefix.as_str(), l.target_ip.as_str(), l.router_ip.as_str()))
        .collect()
}

const RULER: &str = "===================================================================================================================================";

#[test]
fn systems_of_a_client() {
    let prefixes = vec![
        prefix("b", Some("65001")),
        prefix("a", Some("AS2")),
        prefix("c", None),
        prefix("d", Some("AS_UNKNOWN")),
        prefix("a", Some("")),
    ];
    assert_eq!(asn_labels(&prefixes), vec!["AS", "AS2", "AS65001", "AS_UNKNOWN"]);
    assert_eq!(asn_of(&prefixes, "b"), "AS65001");
    assert_eq!(asn_of(&prefixes, "a"), "AS");
    assert_eq!(asn_of(&prefixes, "c"), "AS_UNKNOWN");
    assert_eq!(asn_of(&prefixes, "x"), "AS_UNKNOWN");
}

#[test]
fn report_of_new_and_resolved_loops() {
    let prefixes = vec![
        prefix("198.18.0.0/24", Some("65001")),
        prefix("2001:db8:beef::/48", Some("65001")),
    ];
    let previous = vec![kept("198.18.0.0/24", "198.18.0.15", "10.0.0.5")];
    let results = vec![
        found("198.18.0.0/24", v4("198.18.0.1"), Some(v4("10.0.0.1"))),
        found("198.18.0.0/24", v4("198.18.0.2"), None),
        found("2001:db8:beef::/48", v6("2001:db8:beef::1"), Some(v6("2001:db8::1"))),
        found("2001:db8:beef::/48", v6("2001:db8:beef:80::"), Some(v6("2001:db8::1"))),
    ];
    let report = client_report(client(), &prefixes, &previous, &results, "before\n");
    let asn_report = format!(
        "CURRENT STATIC LOOPS: 2\n\
         ====================\n\n\
         10.0.0.1 - 198.18.0.1\n\
         2001:db8::1 - 2001:db8:beef::/56 (target: 2001:db8:beef:80::, 2001:db8:beef::1)\n\n\
         PREVIOUS DIFFERENCES\n\
         ====================\n\n\
         {:<85} NEW SIDE\n{}\n\n\
         {:<85} <\n\
         {:<85} > 10.0.0.1 - 198.18.0.1\n\
         {:<85} > 2001:db8::1 - 2001:db8:beef::/56 (target: 2001:db8:beef:80::, 2001:db8:beef::1)\n",
        "OLD SIDE", RULER, "10.0.0.5 - 198.18.0.15", "", ""
    );
    assert_eq!(
        report.console_output,
        format!("before\n\nASN: AS65001\n{}\n{}\n\n", "=".repeat(22), asn_report)
    );
    assert_eq!(report.email_attachments.len(), 1);
    assert_eq!(report.email_attachments[0].filename, "report_AS65001.txt");
    assert_eq!(report.email_attachments[0].content, asn_report);
    assert_eq!(report.email_subject, "STATIC LOOP - Company Name Ltd");
    assert_eq!(
        report.email_body,
        "Dear User,\n\nStatic Routing Loop Scan Report:\nCorporate Name: Company Name Ltd\n\n\
         Totals per ASN:\nAS65001 - IPv4: 1 / IPv6: 1\n\nBest regards,\nLoopHunter Monitoring System"
    );
    assert_eq!(report.total_loops, 2);
    assert!(report.has_changes);
    assert!(report.should_notify());
    assert_eq!(report.client.name, "Company");
    assert_eq!(
        rows(&report.saved_loops),
        vec![
            ("198.18.0.0/24", "198.18.0.1", "10.0.0.1"),
            ("2001:db8:beef::/48", "2001:db8:beef::1", "2001:db8::1"),
            ("2001:db8:beef::/48", "2001:db8:beef:80::", "2001:db8::1"),
        ]
    );
}

#[test]
fn first_report_shows_no_differences() {
    let prefixes = vec![prefix("198.18.0.0/24", Some("1")), prefix("198.18.1.0/24", Some("2"))];
    let results = vec![found("198.18.1.0/24", v4("198.18.1.9"), Some(v4("10.0.0.1")))];
    let report = client_report(client(), &prefixes, &vec![], &results, "");
    assert_eq!(
        report.console_output,
        format!(
            "\nASN: AS1\n{0}\nCURRENT STATIC LOOPS: 0\n====================\n\n\n\n\n\
             ASN: AS2\n{0}\nCURRENT STATIC LOOPS: 1\n====================\n\n\
             10.0.0.1 - 198.18.1.9\n\n\n\n",
            "=".repeat(18)
        )
    );
    assert_eq!(report.email_attachments.len(), 1);
    assert_eq!(report.email_attachments[0].filename, "report_AS2.txt");
    assert!(report.email_body.contains("AS1 - IPv4: 0 / IPv6: 0\nAS2 - IPv4: 1 / IPv6: 0\n\nBest"));
    assert!(report.has_changes);
}

#[test]
fn same_loops_again_are_no_change() {
    let prefixes = vec![prefix("198.18.0.0/24", Some("1")), prefix("2001:db8::/32", None)];
    let results = vec![
        found("198.18.0.0/24", v4("198.18.0.9"), Some(v4("10.0.0.1"))),
        found("2001:db8::/32", v6("2001:db8:5::1"), Some(v6("2001:db8::1"))),
        found("2001:db8::/32", v6("2001:db8:6::1"), Some(v6("2001:db8::1"))),
    ];
    let mut previous = loops_to_keep(&results);
    previous.reverse();
    previous.push(kept("198.18.0.0/24", "198.18.0.9", "10.0.0.1"));
    let report = client_report(client(), &prefixes, &previous, &results, "");
    assert!(!report.has_changes);
    assert_eq!(report.total_loops, 3);
    assert!(report.should_notify());
    assert!(!report.console_output.contains('<'));
    assert!(!report.console_output.contains('>'));
}

#[test]
fn changes_are_loops_of_one_scan_only() {
    let prefixes = vec![prefix("198.18.0.0/24", Some("1")), prefix("2001:db8::/32", None)];
    let results = vec![
        found("198.18.0.0/24", v4("198.18.0.9"), Some(v4("10.0.0.1"))),
        found("2001:db8::/32", v6("2001:db8:5::1"), Some(v6("2001:db8::1"))),
        found("2001:db8::/32", v6("2001:db8:5::2"), Some(v6("2001:db8::1"))),
    ];
    let before = loops_to_keep(&results);
    let changes = |previous: &Vec<SavedLoop>| {
        client_report(client(), &prefixes, previous, &results, "").has_changes
    };
    assert!(!changes(&before));
    // Another router, another address, one address more, one address less.
    let mut previous = loops_to_keep(&results);
    previous[0].router_ip = "10.0.0.2".to_string();
    assert!(changes(&previous));
    let mut previous = loops_to_keep(&results);
    previous[2].target_ip = "2001:db8:5::3".to_string();
    assert!(changes(&previous));
    let mut previous = loops_to_keep(&results);
    previous.push(kept("2001:db8::/32", "2001:db8:5::3", "2001:db8::1"));
    assert!(changes(&previous));
    let mut previous = loops_to_keep(&results);
    previous.pop();
    assert!(changes(&previous));
    // A loop of a network that is not the client's is no change.
    let mut previous = loops_to_keep(&results);
    previous.push(kept("203.0.113.0/24", "203.0.113.9", "10.0.0.1"));
    let own = vec![prefix("198.18.0.0/24", Some("1"))];
    let first = vec![found("198.18.0.0/24", v4("198.18.0.9"), Some(v4("10.0.0.1")))];
    assert!(!client_report(client(), &own, &previous, &first, "").has_changes);
}

#[test]
fn loops_are_counted_by_group() {
    let prefixes = vec![prefix("198.18.0.0/24", Some("1")), prefix("2001:db8::/32", Some("1"))];
    let results = vec![
        found("198.18.0.0/24", v4("198.18.0.9"), Some(v4("10.0.0.1"))),
        found("198.18.0.0/24", v4("198.18.0.8"), Some(v4("10.0.0.1"))),
        found("2001:db8::/32", v6("2001:db8:5::1"), Some(v6("2001:db8::1"))),
        found("2001:db8::/32", v6("2001:db8:5::2"), Some(v6("2001:db8::1"))),
        found("2001:db8::/32", v6("2001:db8:5::2"), Some(v6("2001:db8::2"))),
    ];
    let report = client_report(client(), &prefixes, &vec![], &results, "");
    assert_eq!(report.total_loops, 4);
    assert!(report.email_body.contains("AS1 - IPv4: 2 / IPv6: 2\n"));
}

#[test]
fn kept_addresses_are_plain() {
    let results = vec![
        found("p", v6("2001:DB8::A"), Some(v6("::ffff:192.0.2.1"))),
        found("p", v4("198.18.0.9"), Some(v4("10.0.0.1"))),
    ];
    assert_eq!(
        rows(&loops_to_keep(&results)),
        vec![("p", "2001:db8::a", "::ffff:192.0.2.1"), ("p", "198.18.0.9", "10.0.0.1")]
    );
}

#[test]
fn resolved_loop_is_a_change() {
    let prefixes = vec![prefix("198.18.0.0/24", Some("1"))];
    let previous = vec![kept("198.18.0.0/24", "198.18.0.9", "10.0.0.1")];
    let report = client_report(client(), &prefixes, &previous, &vec![], "");
    assert!(report.has_changes);
    assert_eq!(report.total_loops, 0);
    assert!(report.should_notify());
    assert!(report.email_attachments.is_empty());
    assert!(report.saved_loops.is_empty());
}

#[test]
fn unreadable_kept_address_stands_for_itself() {
    let prefixes = vec![prefix("p", Some("1"))];
    let previous = vec![kept("p", "somewhere", "r")];
    let report = client_report(client(), &prefixes, &previous, &vec![], "");
    assert!(report.console_output.contains(&format!("{:<85} <\n", "r - somewhere")));
}

#[test]
fn nothing_found_nothing_kept_nothing_to_tell() {
    let prefixes = vec![prefix("198.18.0.0/24", Some("1"))];
    let results = vec![found("198.18.0.0/24", v4("198.18.0.9"), None)];
    let report = client_report(client(), &prefixes, &vec![], &results, "");
    assert!(!report.has_changes);
    assert!(!report.should_notify());
}

fn opening() -> String {
    let rule = "=".repeat(43);
    format!("{0}\nChecking client: Company (Company Name Ltd)\n{0}\n", rule)
}

fn nothing(report: &ClientScanReport) -> bool {
    report.saved_loops.is_empty()
        && report.email_attachments.is_empty()
        && report.email_subject.is_empty()
        && report.email_body.is_empty()
        && report.total_loops == 0
        && !report.has_changes
}

#[test]
fn client_without_networks() {
    match ClientScan::begin(client(), vec![], vec![kept("p", "198.18.0.9", "r")]) {
        ScanStep::Done(report) => {
            assert_eq!(
                report.console_output,
                format!("{}No prefixes registered for this client.\n", opening())
            );
            assert!(nothing(&report));
        }
        _ => panic!("there is nothing to scan"),
    }
}

fn begin(previous: Vec<SavedLoop>) -> ClientScan {
    let prefixes = vec![prefix("198.18.0.0/24", Some("1")), prefix("2001:db8::/32", Some("1"))];
    match ClientScan::begin(client(), prefixes, previous) {
        ScanStep::Scan(scan, list) => {
            assert_eq!(list, vec!["198.18.0.0/24", "2001:db8::/32"]);
            assert_eq!(scan.console, opening());
            scan
        }
        _ => panic!("there is something to scan"),
    }
}

#[test]
fn scan_that_cannot_run() {
    match begin(vec![]).after_scan(Err("no socket".to_string())) {
        ScanStep::Done(report) => {
            assert_eq!(
                report.console_output,
                format!("{}Error running scan: no socket\n", opening())
            );
            assert!(nothing(&report));
        }
        _ => panic!("the scan is over"),
    }
}

#[test]
fn scan_without_missing_loops_is_over_at_once() {
    let previous = vec![
        kept("198.18.0.0/24", "198.18.0.9", "10.0.0.1"),
        kept("198.18.0.0/24", "somewhere", "10.0.0.1"),
    ];
    let results = vec![
        LoopResult {
            prefix: "oops".to_string(),
            target_ip: v4("0.0.0.0"),
            router_ip: None,
            error: Some("Invalid prefix".to_string()),
        },
        found("198.18.0.0/24", v4("198.18.0.9"), Some(v4("10.0.0.1"))),
    ];
    match begin(previous).after_scan(Ok(results)) {
        ScanStep::Done(report) => {
            assert!(report.console_output.starts_with(&format!(
                "{}Warning: Failed to check prefix oops (target: 0.0.0.0): Invalid prefix\n\nASN: AS1\n",
                opening()
            )));
            assert_eq!(report.total_loops, 1);
        }
        _ => panic!("the scan is over"),
    }
}

fn confirming() -> ClientScan {
    let previous = vec![
        kept("198.18.0.0/24", "198.18.0.9", "10.0.0.1"),
        kept("198.18.0.0/24", "198.18.0.8", "10.0.0.1"),
        kept("2001:db8::/32", "2001:db8::1", "2001:db8:1::1"),
        kept("other", "2001:db8::1", "2001:db8:1::1"),
    ];
    let results = vec![
        found("198.18.0.0/24", v4("198.18.0.8"), Some(v4("10.0.0.1"))),
        found("198.18.0.0/24", v4("198.18.0.9"), None),
    ];
    match begin(previous).after_scan(Ok(results)) {
        ScanStep::Confirm(scan, list) => {
            assert_eq!(list, vec!["198.18.0.9/32", "2001:db8::1/128", "2001:db8::1/128"]);
            scan
        }
        _ => panic!("loops are missing"),
    }
}

#[test]
fn missing_loops_are_probed_again() {
    let again = vec![
        found("198.18.0.9/32", v4("198.18.0.9"), None),
        found("2001:db8::1/128", v6("2001:db8::1"), Some(v6("2001:db8:1::1"))),
        found("2001:db8::2/128", v6("2001:db8::2"), Some(v6("2001:db8:1::1"))),
    ];
    let report = confirming().after_confirm(Ok(again));
    assert_eq!(
        rows(&report.saved_loops),
        vec![
            ("198.18.0.0/24", "198.18.0.8", "10.0.0.1"),
            ("2001:db8::/32", "2001:db8::1", "2001:db8:1::1"),
            ("2001:db8::2/128", "2001:db8::2", "2001:db8:1::1"),
        ]
    );
    assert_eq!(report.total_loops, 2);
    assert!(report.console_output.contains("10.0.0.1 - 198.18.0.9 "));
    assert!(!report.console_output.contains("(target: 2001:db8::1) "));
}

#[test]
fn second_scan_that_cannot_run_finds_nothing() {
    let report = confirming().after_confirm(Err("no socket".to_string()));
    assert_eq!(rows(&report.saved_loops), vec![("198.18.0.0/24", "198.18.0.8", "10.0.0.1")]);
    assert!(!report.console_output.contains("no socket"));
    assert!(report.has_changes);
}

#[test]
fn refused_target_is_warned_of() {
    let prefixes = vec!["198.18.0.0/31".to_string()];
    let plan = ScanPlan::new(&prefixes, 1);
    let mut detected = Detected::new();
    detected.record_send(v4("198.18.0.0"), Ok(()));
    detected.record_send(v4("198.18.0.1"), Err("Network is unreachable".to_string()));
    match begin(vec![]).after_scan(Ok(plan.results(&detected))) {
        ScanStep::Done(report) => assert!(report.console_output.starts_with(&format!(
            "{}Warning: Failed to check prefix 198.18.0.0/31 (target: 198.18.0.1): \
             Failed to send probe: Network is unreachable\n\nASN: AS1\n",
            opening()
        ))),
        _ => panic!("the scan is over"),
    }
}

#[test]
fn second_scan_is_slow() {
    assert_eq!(
        confirm_params(),
        ScanParams { ipv4_delay_ms: 10, ipv6_delay_us: 1000, rounds: 3, round_delay_ms: 2000 }
    );
}
