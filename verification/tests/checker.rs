use loophunter::checker::{Detected, LoopResult, ScanPlan};
use loophunter::icmp::build_echo_v4;
use loophunter::ip::Ip;
use loophunter::sender::{Action, ScanParams, SendState};

fn list(prefixes: &[&str]) -> Vec<String> {
    prefixes.iter().map(|p| p.to_string()).collect()
}

fn v4(a: u8, b: u8, c: u8, d: u8) -> Ip {
    Ip::V4(u32::from_be_bytes([a, b, c, d]))
}

#[test]
fn ipv4_network_is_probed_in_full() {
    let plan = ScanPlan::new(&list(&["198.18.0.6/30"]), 9);
    assert_eq!(plan.session_id, 9);
    assert_eq!(
        plan.targets,
        vec![v4(198, 18, 0, 4), v4(198, 18, 0, 5), v4(198, 18, 0, 6), v4(198, 18, 0, 7)]
    );
    assert!(plan.errors.is_empty());
    assert!(plan.table.contains(v4(198, 18, 0, 4)));
    assert!(!plan.table.contains(v4(198, 18, 0, 8)));
}

#[test]
fn sixteen_has_all_its_addresses() {
    let plan = ScanPlan::new(&list(&["198.18.0.0/16"]), 0);
    assert_eq!(plan.targets.len(), 65536);
    assert_eq!(plan.targets[65535], v4(198, 18, 255, 255));
}

#[test]
fn targets_of_all_prefixes_in_ascending_order() {
    let plan = ScanPlan::new(&list(&["2001:db8::1/128", "10.0.0.9/32", "10.0.0.1/32"]), 0);
    assert_eq!(
        plan.targets,
        vec![v4(10, 0, 0, 1), v4(10, 0, 0, 9), Ip::V6((0x2001_0db8u128 << 96) + 1)]
    );
}

#[test]
fn results_name_every_prefix_and_router() {
    let prefixes = list(&["10.0.0.0/31", "oops", "10.0.0.1/32"]);
    let plan = ScanPlan::new(&prefixes, 0);
    let mut detected = Detected::new();
    assert_eq!(detected.get(v4(10, 0, 0, 1)), None);
    detected.record(v4(10, 0, 0, 1), v4(192, 0, 2, 1));
    detected.record(v4(10, 0, 0, 1), v4(192, 0, 2, 2));
    assert_eq!(detected.get(v4(10, 0, 0, 1)), Some(v4(192, 0, 2, 2)));
    let results = plan.results(&detected);
    let rows: Vec<(&str, Ip, Option<Ip>, Option<&str>)> = results
        .iter()
        .map(|r| (r.prefix.as_str(), r.target_ip, r.router_ip, r.error.as_deref()))
        .collect();
    assert_eq!(
        rows,
        vec![
            ("oops", v4(0, 0, 0, 0), None, Some("Invalid prefix: invalid address: oops")),
            ("10.0.0.0/31", v4(10, 0, 0, 0), None, None),
            ("10.0.0.0/31", v4(10, 0, 0, 1), Some(v4(192, 0, 2, 2)), None),
            ("10.0.0.1/32", v4(10, 0, 0, 1), Some(v4(192, 0, 2, 2)), None),
        ]
    );
}

#[test]
fn results_can_be_copied() {
    let result = LoopResult {
        prefix: "10.0.0.0/31".to_string(),
        target_ip: v4(10, 0, 0, 1),
        router_ip: None,
        error: Some("down".to_string()),
    };
    let copy = result.clone();
    assert_eq!(copy.prefix, result.prefix);
    assert_eq!(copy.target_ip, result.target_ip);
    assert_eq!(copy.router_ip, result.router_ip);
    assert_eq!(copy.error, result.error);
}

#[test]
fn random_plan_scans_the_same() {
    let prefixes = list(&["10.0.0.0/30"]);
    let ids: Vec<u16> = (0..64).map(|_| ScanPlan::random(&prefixes).session_id).collect();
    assert!(ids.iter().any(|id| *id != ids[0]));
    assert_eq!(ScanPlan::random(&prefixes).targets, ScanPlan::new(&prefixes, 1).targets);
}

#[test]
fn host_prefix_has_its_address_probed() {
    let plan = ScanPlan::new(&list(&["203.0.113.7/32", "2001:db8::7/128"]), 0);
    assert_eq!(plan.targets, vec![v4(203, 0, 113, 7), Ip::V6((0x2001_0db8u128 << 96) + 7)]);
}

#[test]
fn answers_count_for_targets_only() {
    let plan = ScanPlan::new(&list(&["198.18.0.1/32"]), 0x0a0b);
    let answer = |target: [u8; 4], id: u16| {
        let mut d = vec![0u8; 48];
        d[0] = 0x45;
        d[12..16].copy_from_slice(&[10, 0, 0, 1]);
        d[20] = 11;
        d[28] = 0x45;
        d[37] = 1;
        d[44..48].copy_from_slice(&target);
        d.extend_from_slice(&build_echo_v4(id));
        d
    };
    assert_eq!(
        plan.loop_in_v4(&answer([198, 18, 0, 1], 0x0a0b)),
        Some((v4(198, 18, 0, 1), v4(10, 0, 0, 1)))
    );
    assert_eq!(plan.loop_in_v4(&answer([198, 18, 0, 2], 0x0a0b)), None);
    assert_eq!(plan.loop_in_v4(&answer([198, 18, 0, 1], 0x0a0c)), None);
}

#[test]
fn ipv6_answers_count_for_targets_only() {
    let target = (0x2001_0db8u128 << 96) + 1;
    let plan = ScanPlan::new(&list(&["2001:db8::1/128"]), 0x0a0b);
    let mut d = vec![0u8; 56];
    d[0] = 3;
    d[14] = 58;
    d[32..48].copy_from_slice(&target.to_be_bytes());
    d[48] = 128;
    d[52] = 0x0a;
    d[53] = 0x0b;
    assert_eq!(plan.loop_in_v6(&d, Some(Ip::V6(5))), Some((Ip::V6(target), Ip::V6(5))));
    assert_eq!(plan.loop_in_v6(&d, Some(Ip::V4(5))), None);
    assert_eq!(plan.loop_in_v6(&d, None), None);
    d[47] = 2;
    assert_eq!(plan.loop_in_v6(&d, Some(Ip::V6(5))), None);
}

#[test]
fn refused_target_carries_an_error() {
    let (a, b, c) = (v4(10, 0, 0, 0), v4(10, 0, 0, 1), v4(10, 0, 0, 2));
    let plan = ScanPlan::new(&list(&["10.0.0.0/30", "10.0.0.2/32"]), 0);
    let mut detected = Detected::new();
    // Refused once, then taken.
    assert!(!detected.record_send(a, Err("busy".to_string())));
    assert!(detected.record_send(a, Ok(())));
    assert!(!detected.record_send(a, Err("busy".to_string())));
    // Taken at once.
    assert!(detected.record_send(b, Ok(())));
    // Never taken; a router that was heard of all the same is kept.
    assert!(!detected.record_send(c, Err("busy".to_string())));
    assert!(!detected.record_send(c, Err("unreachable".to_string())));
    detected.record(b, v4(192, 0, 2, 1));
    detected.record(c, v4(192, 0, 2, 1));
    assert_eq!(detected.error(a), None);
    assert_eq!(detected.error(c), Some("Failed to send probe: unreachable".to_string()));
    // Not tried at all.
    assert_eq!(detected.error(v4(10, 0, 0, 3)), None);
    let results = plan.results(&detected);
    let rows: Vec<(&str, Ip, Option<Ip>, Option<&str>)> = results
        .iter()
        .map(|r| (r.prefix.as_str(), r.target_ip, r.router_ip, r.error.as_deref()))
        .collect();
    let error = Some("Failed to send probe: unreachable");
    assert_eq!(
        rows,
        vec![
            ("10.0.0.0/30", a, None, None),
            ("10.0.0.0/30", b, Some(v4(192, 0, 2, 1)), None),
            ("10.0.0.0/30", c, Some(v4(192, 0, 2, 1)), error),
            ("10.0.0.2/32", c, Some(v4(192, 0, 2, 1)), error),
            ("10.0.0.0/30", v4(10, 0, 0, 3), None, None),
        ]
    );
}

#[test]
fn refused_target_that_nothing_was_heard_of_has_no_router() {
    let a = v4(10, 0, 0, 1);
    let plan = ScanPlan::new(&list(&["10.0.0.1/32"]), 0);
    let mut detected = Detected::new();
    assert!(!detected.record_send(a, Err("refused".to_string())));
    let results = plan.results(&detected);
    assert_eq!(results.len(), 1);
    assert_eq!(results[0].router_ip, None);
    assert_eq!(results[0].error, Some("Failed to send probe: refused".to_string()));
}

#[test]
fn last_answer_for_an_address_counts() {
    let (a, b) = (v4(10, 0, 0, 1), Ip::V6(1));
    let mut detected = Detected::new();
    assert_eq!(detected.get(a), None);
    detected.record(a, v4(192, 0, 2, 1));
    detected.record(b, Ip::V6(9));
    detected.record(a, v4(192, 0, 2, 2));
    assert!(detected.record_send(a, Ok(())));
    assert_eq!(detected.get(a), Some(v4(192, 0, 2, 2)));
    assert_eq!(detected.get(b), Some(Ip::V6(9)));
    assert_eq!(detected.get(v4(10, 0, 0, 2)), None);
}

#[test]
fn error_stands_where_every_attempt_in_every_round_was_refused() {
    let six = Ip::V6(1);
    let (a, b) = (v4(10, 0, 0, 0), v4(10, 0, 0, 1));
    let targets = vec![a, b, six];
    let pace = ScanParams { ipv4_delay_ms: 0, ipv6_delay_us: 0, rounds: 2, round_delay_ms: 0 };
    let mut state = SendState::start(&targets, &pace);
    let mut detected = Detected::new();
    let mut attempts = Vec::new();
    let mut taken = false;
    loop {
        match state.step(&targets, &pace, taken) {
            Action::Send(target) => {
                attempts.push(target);
                // Takes every probe for `a`, and for `b` the last of all.
                let tried = attempts.iter().filter(|t| **t == target).count();
                let outcome = if target == a || (target == b && tried == 20) {
                    Ok(())
                } else {
                    Err("refused".to_string())
                };
                taken = detected.record_send(target, outcome);
            }
            Action::Finished => break,
            _ => {}
        }
    }
    let tries = |ip: Ip| attempts.iter().filter(|t| **t == ip).count();
    assert_eq!((tries(a), tries(b), tries(six)), (2, 20, 20));
    assert_eq!(detected.error(a), None);
    assert_eq!(detected.error(b), None);
    assert_eq!(detected.error(six), Some("Failed to send probe: refused".to_string()));
}
