use loophunter::ip::Ip;
use loophunter::sender::{Action, Pause, ScanParams, SendState};

fn params(rounds: u32) -> ScanParams {
    ScanParams { ipv4_delay_ms: 5, ipv6_delay_us: 70, rounds, round_delay_ms: 900 }
}

/// Runs the sending to its end; the network takes a probe after `refusals`.
fn run(targets: &Vec<Ip>, params: &ScanParams, refusals: u32) -> Vec<Action> {
    let mut state = SendState::start(targets, params);
    let mut actions = Vec::new();
    let mut taken = false;
    let mut refused = 0;
    loop {
        let action = state.step(targets, params, taken);
        if let Action::Send(_) = action {
            taken = refused >= refusals;
            refused = if taken { 0 } else { refused + 1 };
        }
        if let Action::Progress { .. } = action {
            refused = 0;
        }
        if action == Action::Finished {
            return actions;
        }
        if action != Action::Proceed {
            actions.push(action);
        }
    }
}

#[test]
fn every_target_in_every_round() {
    let targets = vec![Ip::V4(1), Ip::V6(2)];
    let four = Action::Wait(Pause::Millis(5));
    let six = Action::Wait(Pause::Micros(70));
    assert_eq!(
        run(&targets, &params(2), 0),
        vec![
            Action::Send(Ip::V4(1)),
            Action::Progress { done: 1, total: 4 },
            four,
            Action::Send(Ip::V6(2)),
            Action::Progress { done: 2, total: 4 },
            six,
            Action::Wait(Pause::Millis(900)),
            Action::Send(Ip::V4(1)),
            Action::Progress { done: 3, total: 4 },
            four,
            Action::Send(Ip::V6(2)),
            Action::Progress { done: 4, total: 4 },
            six,
        ]
    );
}

#[test]
fn refused_probe_is_tried_again() {
    let targets = vec![Ip::V4(1)];
    let retry = Action::Wait(Pause::Millis(1));
    assert_eq!(
        run(&targets, &params(1), 2),
        vec![
            Action::Send(Ip::V4(1)),
            retry,
            Action::Send(Ip::V4(1)),
            retry,
            Action::Send(Ip::V4(1)),
            Action::Progress { done: 1, total: 1 },
            Action::Wait(Pause::Millis(5)),
        ]
    );
}

#[test]
fn probe_is_given_up_after_ten_attempts() {
    let targets = vec![Ip::V4(1), Ip::V4(2)];
    let actions = run(&targets, &params(1), u32::MAX);
    let sends = actions.iter().filter(|a| matches!(a, Action::Send(_))).count();
    let retries = actions.iter().filter(|a| **a == Action::Wait(Pause::Millis(1))).count();
    assert_eq!((sends, retries), (20, 20));
    assert_eq!(actions[20], Action::Progress { done: 1, total: 2 });
    assert_eq!(actions[42], Action::Progress { done: 2, total: 2 });
}

#[test]
fn nothing_to_send() {
    assert_eq!(run(&vec![], &params(1), 0), vec![]);
    assert_eq!(run(&vec![], &params(3), 0), vec![Action::Wait(Pause::Millis(900)); 2]);
    assert_eq!(run(&vec![Ip::V4(1)], &params(0), 0), vec![]);
}

#[test]
fn rounds_follow_each_other_at_once_without_a_delay() {
    let pace = ScanParams { round_delay_ms: 0, ..params(2) };
    let actions = run(&vec![Ip::V4(1)], &pace, 0);
    assert_eq!(actions.iter().filter(|a| matches!(a, Action::Wait(_))).count(), 2);
    assert!(!actions.contains(&Action::Wait(Pause::Millis(0))));
}
