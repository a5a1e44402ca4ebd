use loophunter::notifier::{
    build_message, check_addresses, check_config_permissions, check_recipients, scan_params,
    validate_email_list, AppConfig, EmailAttachment, ScanConfig, Security, SmtpConfig,
};
use loophunter::sender::ScanParams;

#[test]
fn test_build_message_multiple_emails() {
    let from = "alerts@example.com";
    let to = "user1@example.com, user2@example.com; user3@example.com";
    let subject = "Test Subject";
    let body = "Test Body";
    let attachments = vec![];

    let msg = build_message(from, to, subject, body, &attachments).unwrap();

    // Check envelope from address
    assert_eq!(msg.envelope().from().map(|addr| addr.to_string()), Some("alerts@example.com".to_string()));

    // Check envelope to addresses
    let to_envelopes: Vec<String> = msg.envelope().to().iter().map(|addr| addr.to_string()).collect();
    assert_eq!(to_envelopes.len(), 3);
    assert!(to_envelopes.contains(&"user1@example.com".to_string()));
    assert!(to_envelopes.contains(&"user2@example.com".to_string()));
    assert!(to_envelopes.contains(&"user3@example.com".to_string()));
}

#[test]
fn test_build_message_no_recipients() {
    let from = "alerts@example.com";
    let to = "   , ;;   ";
    let subject = "Test Subject";
    let body = "Test Body";
    let attachments = vec![];

    let res = build_message(from, to, subject, body, &attachments);
    assert!(res.is_err());
    assert_eq!(res.unwrap_err(), "No valid recipients provided");
}

#[test]
fn message_carries_subject_and_text() {
    let msg = build_message("alerts@example.com", "a@example.com", "On loops", "Plain text", &[]).unwrap();
    let text = String::from_utf8(msg.formatted()).unwrap();
    assert!(text.contains("From: alerts@example.com\r\n"));
    assert!(text.contains("To: a@example.com\r\n"));
    assert!(text.contains("Subject: On loops\r\n"));
    assert!(text.contains("Content-Type: text/plain; charset=utf-8\r\n"));
    assert!(text.ends_with("\r\n\r\nPlain text"));
}

#[test]
fn message_carries_attachments() {
    let files = vec![
        EmailAttachment { filename: "report_AS1.txt".to_string(), content: "first file".to_string() },
        EmailAttachment { filename: "report_AS2.txt".to_string(), content: "second file".to_string() },
    ];
    let msg = build_message("alerts@example.com", "a@example.com", "On loops", "Plain text", &files).unwrap();
    let text = String::from_utf8(msg.formatted()).unwrap();
    assert!(text.contains("Content-Type: multipart/mixed;"));
    let places: Vec<usize> = ["Plain text", "report_AS1.txt", "first file", "report_AS2.txt", "second file"]
        .iter()
        .map(|word| text.find(word).unwrap())
        .collect();
    assert!(places.windows(2).all(|w| w[0] < w[1]));
    assert_eq!(msg.envelope().to().len(), 1);
}

#[test]
fn wrong_addresses_are_named() {
    let failure = |from: &str, to: &str| build_message(from, to, "s", "b", &[]).unwrap_err();
    assert_eq!(failure("nobody", "a@example.com"), "Invalid from address: Invalid input");
    assert_eq!(
        failure("alerts@example.com", "a@example.com; who? ;what?"),
        "Invalid to address 'who?': Invalid input"
    );
    assert_eq!(failure("nobody", ""), "Invalid from address: Invalid input");
    assert_eq!(failure("alerts@example.com", ""), "No valid recipients provided");
}

#[test]
fn lists_of_addresses() {
    assert_eq!(validate_email_list("a@example.com"), Ok(()));
    assert_eq!(validate_email_list(" a@example.com ;; Bee <b@example.com>,"), Ok(()));
    assert_eq!(
        validate_email_list("a@example.com, nobody, @"),
        Err("Invalid email address: 'nobody'".to_string())
    );
    assert_eq!(
        validate_email_list(" ,; "),
        Err("At least one valid email address is required".to_string())
    );
}

#[test]
fn valid_lists_can_be_addressed() {
    for list in ["a@example.com", "a@example.com;b@example.com", "nobody", "a@example.com, nobody", "", " ; "] {
        assert_eq!(
            validate_email_list(list).is_ok(),
            build_message("alerts@example.com", list, "s", "b", &[]).is_ok()
        );
    }
}

#[test]
fn verdicts_on_addresses() {
    let list = vec!["x".to_string(), "y".to_string()];
    let fine: Vec<Option<String>> = vec![None, None];
    let wrong = vec![None, Some("odd".to_string())];
    assert_eq!(check_addresses(&list, &fine), Ok(()));
    assert_eq!(check_addresses(&list, &wrong), Err("Invalid email address: 'y'".to_string()));
    assert_eq!(
        check_addresses(&vec![], &vec![]),
        Err("At least one valid email address is required".to_string())
    );
    assert_eq!(check_recipients(&list, &fine), Ok(()));
    assert_eq!(check_recipients(&list, &wrong), Err("Invalid to address 'y': odd".to_string()));
    assert_eq!(
        check_recipients(&vec![], &vec![]),
        Err("No valid recipients provided".to_string())
    );
}

#[test]
fn configuration_is_for_its_owner_only() {
    assert_eq!(check_config_permissions("config.toml", 0o100600), Ok(()));
    assert_eq!(check_config_permissions("config.toml", 0o100700), Ok(()));
    assert_eq!(
        check_config_permissions("config.toml", 0o100644),
        Err("Security: 'config.toml' has world/group-readable permissions (0644). \
             Fix with: chmod 600 config.toml".to_string())
    );
    for mode in [0o601, 0o602, 0o604, 0o610, 0o620, 0o640] {
        let e = check_config_permissions("c", mode).unwrap_err();
        assert!(e.contains(&format!("({:04o})", mode)));
    }
}

#[test]
fn pace_of_a_scan() {
    let usual = ScanParams { ipv4_delay_ms: 1, ipv6_delay_us: 200, rounds: 3, round_delay_ms: 1000 };
    assert_eq!(scan_params(None), usual);
    let nothing = ScanConfig { ipv4_delay_ms: None, ipv6_delay_us: None, rounds: None, round_delay_ms: None };
    assert_eq!(scan_params(Some(nothing)), usual);
    let all = ScanConfig {
        ipv4_delay_ms: Some(4),
        ipv6_delay_us: Some(5),
        rounds: Some(6),
        round_delay_ms: Some(7),
    };
    assert_eq!(
        scan_params(Some(all)),
        ScanParams { ipv4_delay_ms: 4, ipv6_delay_us: 5, rounds: 6, round_delay_ms: 7 }
    );
}

fn smtp(port: u16, encryption: Option<&str>) -> SmtpConfig {
    SmtpConfig {
        host: "smtp.example.com".to_string(),
        port,
        username: Some("alerts".to_string()),
        password: Some("word".to_string()),
        from_address: "alerts@example.com".to_string(),
        encryption: encryption.map(|e| e.to_string()),
    }
}

#[test]
fn security_of_the_connection() {
    assert_eq!(smtp(587, Some("tls")).security(), Security::StartTls);
    assert_eq!(smtp(587, None).security(), Security::StartTls);
    assert_eq!(smtp(25, Some("SSL")).security(), Security::StartTls);
    assert_eq!(smtp(25, Some("none")).security(), Security::Plain);
    assert_eq!(smtp(587, Some("ssl")).security(), Security::ImplicitTls);
    assert_eq!(smtp(465, None).security(), Security::ImplicitTls);
    assert_eq!(smtp(465, Some("none")).security(), Security::ImplicitTls);
}

#[test]
fn login_needs_user_and_password() {
    let config = AppConfig { smtp: smtp(587, None), scan: None };
    assert_eq!(config.smtp.login(), Some(("alerts".to_string(), "word".to_string())));
    let mut without = config.clone().smtp;
    without.password = None;
    assert_eq!(without.login(), None);
    let mut without = config.smtp;
    without.username = None;
    assert_eq!(without.login(), None);
}

fn envelope(from: &str, to: &str) -> (String, Vec<String>) {
    let msg = build_message(from, to, "s", "b", &[]).unwrap();
    (
        msg.envelope().from().unwrap().to_string(),
        msg.envelope().to().iter().map(|addr| addr.to_string()).collect(),
    )
}

#[test]
fn unquoted_addresses_stand_in_the_envelope() {
    let odd = "a!#$%&'*+-/=?^_`{|}~.z@example.com";
    let (from, to) = envelope(
        "user+tag@example.com",
        &format!("user+tag@example.com; {}, j\u{f6}rg@b\u{fc}cher.example, x@1.1.1.1", odd),
    );
    assert_eq!(from, "user+tag@example.com");
    assert_eq!(
        to,
        vec!["user+tag@example.com", odd, "j\u{f6}rg@b\u{fc}cher.example", "x@1.1.1.1"]
    );
}

#[test]
fn names_do_not_get_into_the_envelope() {
    let (from, to) = envelope(
        "\"Loop. \\\"9\\\" <x>\" <alerts@example.com>",
        "Bee  Cee <b@example.com>; \"c. @ <>\" <c@example.com>, <d@example.com>, \
         \u{e9}\u{3000}9. z <e@example.com>; \"f\"@example.com; \" \" <g@example.com>",
    );
    assert_eq!(from, "alerts@example.com");
    let expected = ["b", "c", "d", "e", "f", "g"].map(|user| format!("{}@example.com", user));
    assert_eq!(to, expected);
}

#[test]
fn quote_in_an_address_is_lost_when_it_is_read_back() {
    let odd = "\"\\\"a b\\\"\"@example.com";
    assert_eq!(validate_email_list(odd), Ok(()));
    assert_eq!(
        build_message("alerts@example.com", odd, "s", "b", &[]).unwrap_err(),
        "Failed to build email: missing destination address, invalid envelope"
    );
    assert_eq!(
        build_message(odd, "a@example.com", "s", "b", &[]).unwrap_err(),
        "Failed to build email: missing source address, invalid envelope"
    );
    let file = EmailAttachment { filename: "f".to_string(), content: "c".to_string() };
    assert_eq!(
        build_message("alerts@example.com", odd, "s", "b", &[file]).unwrap_err(),
        "Failed to build email: missing destination address, invalid envelope"
    );
}

#[test]
fn lists_are_valid_where_a_message_can_be_built() {
    for list in [
        "user+tag@example.com",
        "Bee <b@example.com>; c@example.com",
        "\"q\"@example.com",
        "\"q r\"@example.com",
        ".a@example.com",
        "a..b@example.com",
        "a@",
        "<a@example.com",
        "a@example.com b@example.com",
        "\u{a0}a@example.com\u{3000}",
        "a\u{3000}b@example.com",
    ] {
        assert_eq!(
            validate_email_list(list).is_ok(),
            build_message("alerts@example.com", list, "s", "b", &[]).is_ok(),
            "{}",
            list
        );
    }
}
