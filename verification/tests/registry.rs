use loophunter::ip::{Ipv4Net, Ipv6Net, Network};
use loophunter::records::{Client, ClientPrefix};
use loophunter::registry::{check_entry, check_prefix, client_table, prefix_table};

#[test]
fn networks_that_may_be_entered() {
    assert_eq!(check_prefix("198.18.0.0/24", "65001"), Ok(()));
    assert_eq!(check_prefix("198.18.0.0/16", "1"), Ok(()));
    assert_eq!(check_prefix("2001:db8::/32", "1"), Ok(()));
    assert_eq!(check_prefix("2001:db8::1", "1"), Ok(()));
    assert_eq!(check_prefix("198.18.0.1", ""), Ok(()));
}

#[test]
fn networks_that_may_not() {
    let problem = |prefix: &str, asn: &str| check_prefix(prefix, asn).unwrap_err();
    assert_eq!(problem("oops", "1"), "Error parsing prefix 'oops': invalid address: oops");
    assert_eq!(
        problem("198.18.0.0/33", "1"),
        "Error parsing prefix '198.18.0.0/33': invalid address: 198.18.0.0/33"
    );
    assert_eq!(
        problem("198.18.0.0/15", "1"),
        "Error: IPv4 prefix size must be /16 or smaller. Got /15"
    );
    assert_eq!(
        problem("2001:db8::/31", "AS1"),
        "Error: IPv6 prefix size must be /32 or smaller. Got /31"
    );
    assert_eq!(
        problem("198.18.0.0/24", "AS1"),
        "Error: ASN must contain only digits (no prefix). Got 'AS1'"
    );
    assert_eq!(
        problem("198.18.0.0/24", "\u{0661}"),
        "Error: ASN must contain only digits (no prefix). Got '\u{0661}'"
    );
}

#[test]
fn entries_by_their_network() {
    let four = |prefix| check_entry(Network::V4(Ipv4Net { addr: 0, prefix }), "1").is_ok();
    let six = |prefix| check_entry(Network::V6(Ipv6Net { addr: 0, prefix }), "1").is_ok();
    assert!(!four(0) && !four(15) && four(16) && four(32));
    assert!(!six(0) && !six(31) && six(32) && six(128));
}

#[test]
fn clients_are_listed() {
    let clients = vec![
        Client {
            id: 7,
            name: "Company".to_string(),
            email: "support@company.com".to_string(),
            corporate_name: "Company Name Ltd".to_string(),
        },
        Client { id: i64::MIN, name: String::new(), email: String::new(), corporate_name: String::new() },
    ];
    let expected = format!(
        "{:<5} | {:<20} | {:<30} | Corporate Name\n{}\n{:<5} | {:<20} | {:<30} | {}\n{:<5} | {:<20} | {:<30} | \n",
        "ID", "Name", "Email", "-".repeat(85), 7, "Company", "support@company.com", "Company Name Ltd",
        i64::MIN, "", ""
    );
    assert_eq!(client_table(&clients), expected);
}

#[test]
fn networks_are_listed() {
    let entry = |prefix: &str, asn: Option<&str>| ClientPrefix {
        prefix: prefix.to_string(),
        client_name: "Company".to_string(),
        asn: asn.map(|a| a.to_string()),
    };
    let prefixes = vec![
        entry("198.18.0.0/24", Some("65001")),
        entry("2001:db8::/32", Some("AS65002")),
        entry("198.18.1.0/24", None),
        entry("198.18.2.0/24", Some("AS_UNKNOWN")),
    ];
    let row = |prefix: &str, asn: &str| format!("{:<30} | {:<20} | {}\n", prefix, "Company", asn);
    let expected = format!(
        "{:<30} | {:<20} | ASN\n{}\n{}{}{}{}",
        "Prefix",
        "Client",
        "-".repeat(65),
        row("198.18.0.0/24", "AS65001"),
        row("2001:db8::/32", "AS65002"),
        row("198.18.1.0/24", "UNKNOWN"),
        row("198.18.2.0/24", "UNKNOWN")
    );
    assert_eq!(prefix_table(&prefixes), expected);
}
