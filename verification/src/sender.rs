//! The order and the pace in which probes go out.
use vstd::prelude::*;

use crate::ip::Ip;

verus! {

/// How often a probe is handed to the network before it is given up.
pub const MAX_ATTEMPTS: u32 = 10;

/// The wait in milliseconds after a probe that the network did not take.
pub const RETRY_DELAY_MS: u64 = 1;

/// How a scan is paced.
#[derive(Clone, Copy, PartialEq, Eq, Structural, Debug)]
pub struct ScanParams {
    /// Wait after each IPv4 probe, in milliseconds.
    pub ipv4_delay_ms: u64,
    /// Wait after each IPv6 probe, in microseconds.
    pub ipv6_delay_us: u64,
    /// How many times every target is probed.
    pub rounds: u32,
    /// Wait between two rounds, in milliseconds.
    pub round_delay_ms: u64,
}

/// A wait.
#[derive(Clone, Copy, PartialEq, Eq, Structural, Debug)]
pub enum Pause {
    Millis(u64),
    Micros(u64),
}

/// What is to be done next.
#[derive(Clone, Copy, PartialEq, Eq, Structural, Debug)]
pub enum Action {
    /// Wait.
    Wait(Pause),
    /// Hand a probe for this target to the network, and tell the next step
    /// whether it was taken.
    Send(Ip),
    /// Show how many of all probes are out.
    Progress { done: usize, total: usize },
    /// Nothing: go on.
    Proceed,
    /// Nothing: all probes are out.
    Finished,
}

/// Where the sending stands.
#[derive(Clone, Copy, PartialEq, Eq, Structural, Debug)]
pub enum Stage {
    /// A round begins.
    Round,
    /// A target is due.
    Target,
    /// A probe was handed to the network.
    Handed,
    /// The network did not take it.
    Refused,
    /// The target is done with.
    Gap,
    /// All rounds are over.
    Done,
}

/// How far the sending has come.
#[derive(Clone, Copy, PartialEq, Eq, Structural, Debug)]
pub struct SendState {
    /// Rounds that are over.
    pub round: u32,
    /// Targets of this round that are done with.
    pub index: usize,
    /// How often the current probe was handed to the network.
    pub attempt: u32,
    /// Targets done with, over all rounds.
    pub sent: usize,
    pub stage: Stage,
}

/// The wait after a probe for `target`.
pub open spec fn gap_after(target: Ip, params: ScanParams) -> Pause {
    match target {
        Ip::V4(_) => Pause::Millis(params.ipv4_delay_ms),
        Ip::V6(_) => Pause::Micros(params.ipv6_delay_us),
    }
}

/// The number of probes of a whole scan, retries not counted.
pub open spec fn total_sends(targets: Seq<Ip>, params: ScanParams) -> int {
    targets.len() * params.rounds
}

impl SendState {
    /// The state is one that a scan of `targets` can be in.
    pub open spec fn wf(self, targets: Seq<Ip>, params: ScanParams) -> bool {
        &&& total_sends(targets, params) <= usize::MAX
        &&& self.round <= params.rounds
        &&& self.index <= targets.len()
        &&& self.sent == self.round * targets.len() + self.index + if self.stage is Gap {
            1int
        } else {
            0int
        }
        &&& match self.stage {
            Stage::Round => self.index == 0,
            Stage::Target => self.round < params.rounds,
            Stage::Handed | Stage::Refused => {
                &&& self.round < params.rounds
                &&& self.index < targets.len()
                &&& 1 <= self.attempt <= MAX_ATTEMPTS
            },
            Stage::Gap => self.round < params.rounds && self.index < targets.len(),
            Stage::Done => self.round == params.rounds && self.index == 0,
        }
    }

    /// The current target is done with.
    pub open spec fn target_done(self, targets: Seq<Ip>, params: ScanParams) -> (SendState, Action) {
        (
            SendState { sent: (self.sent + 1) as usize, stage: Stage::Gap, ..self },
            Action::Progress {
                done: (self.sent + 1) as usize,
                total: total_sends(targets, params) as usize,
            },
        )
    }

    /// What comes next, and what is to be done for it. Each round goes through
    /// the targets in order; a probe that the network does not take is tried
    /// again, up to `MAX_ATTEMPTS` times, and then passed over. Whoever sends
    /// notes each outcome, so that a target with no probe taken is told of.
    pub open spec fn next(
        self,
        targets: Seq<Ip>,
        params: ScanParams,
        taken: bool,
    ) -> (SendState, Action) {
        match self.stage {
            Stage::Round => if self.round >= params.rounds {
                (SendState { stage: Stage::Done, ..self }, Action::Finished)
            } else if self.round > 0 && params.round_delay_ms > 0 {
                (
                    SendState { stage: Stage::Target, ..self },
                    Action::Wait(Pause::Millis(params.round_delay_ms)),
                )
            } else {
                (SendState { stage: Stage::Target, ..self }, Action::Proceed)
            },
            Stage::Target => if self.index >= targets.len() {
                (
                    SendState {
                        round: (self.round + 1) as u32,
                        index: 0,
                        stage: Stage::Round,
                        ..self
                    },
                    Action::Proceed,
                )
            } else {
                (
                    SendState { attempt: 1, stage: Stage::Handed, ..self },
                    Action::Send(targets[self.index as int]),
                )
            },
            Stage::Handed => if taken {
                self.target_done(targets, params)
            } else {
                (
                    SendState { stage: Stage::Refused, ..self },
                    Action::Wait(Pause::Millis(RETRY_DELAY_MS)),
                )
            },
            Stage::Refused => if self.attempt < MAX_ATTEMPTS {
                (
                    SendState {
                        attempt: (self.attempt + 1) as u32,
                        stage: Stage::Handed,
                        ..self
                    },
                    Action::Send(targets[self.index as int]),
                )
            } else {
                self.target_done(targets, params)
            },
            Stage::Gap => (
                SendState { index: (self.index + 1) as usize, stage: Stage::Target, ..self },
                Action::Wait(gap_after(targets[self.index as int], params)),
            ),
            Stage::Done => (self, Action::Finished),
        }
    }

    /// The state before the first probe.
    pub open spec fn initial() -> SendState {
        SendState { round: 0, index: 0, attempt: 0, sent: 0, stage: Stage::Round }
    }

    /// The state before the first probe of `targets`.
    pub fn start(targets: &Vec<Ip>, params: &ScanParams) -> (r: SendState)
        requires
            total_sends(targets@, *params) <= usize::MAX,
        ensures
            r == SendState::initial(),
            r.wf(targets@, *params),
    {
        assert(0 * targets@.len() == 0);
        SendState { round: 0, index: 0, attempt: 0, sent: 0, stage: Stage::Round }
    }

    /// Goes one step on. `taken` tells whether the network took the probe that
    /// the step before asked to send; after any other step it does not matter.
    pub fn step(&mut self, targets: &Vec<Ip>, params: &ScanParams, taken: bool) -> (r: Action)
        requires
            old(self).wf(targets@, *params),
        ensures
            (*final(self), r) == old(self).next(targets@, *params, taken),
            final(self).wf(targets@, *params),
    {
        proof {
            lemma_next_keeps_wf(*self, targets@, *params, taken);
        }
        match self.stage {
            Stage::Round => {
                if self.round >= params.rounds {
                    self.stage = Stage::Done;
                    Action::Finished
                } else {
                    self.stage = Stage::Target;
                    if self.round > 0 && params.round_delay_ms > 0 {
                        Action::Wait(Pause::Millis(params.round_delay_ms))
                    } else {
                        Action::Proceed
                    }
                }
            },
            Stage::Target => {
                if self.index >= targets.len() {
                    self.round = self.round + 1;
                    self.index = 0;
                    self.stage = Stage::Round;
                    Action::Proceed
                } else {
                    self.attempt = 1;
                    self.stage = Stage::Handed;
                    Action::Send(targets[self.index])
                }
            },
            Stage::Handed => {
                if taken {
                    self.finish_target(targets, params)
                } else {
                    self.stage = Stage::Refused;
                    Action::Wait(Pause::Millis(RETRY_DELAY_MS))
                }
            },
            Stage::Refused => {
                if self.attempt < MAX_ATTEMPTS {
                    self.attempt = self.attempt + 1;
                    self.stage = Stage::Handed;
                    Action::Send(targets[self.index])
                } else {
                    self.finish_target(targets, params)
                }
            },
            Stage::Gap => {
                let pause = match targets[self.index] {
                    Ip::V4(_) => Pause::Millis(params.ipv4_delay_ms),
                    Ip::V6(_) => Pause::Micros(params.ipv6_delay_us),
                };
                self.index = self.index + 1;
                self.stage = Stage::Target;
                Action::Wait(pause)
            },
            Stage::Done => Action::Finished,
        }
    }

    fn finish_target(&mut self, targets: &Vec<Ip>, params: &ScanParams) -> (r: Action)
        requires
            old(self).wf(targets@, *params),
            old(self).stage is Handed || old(self).stage is Refused,
        ensures
            (*final(self), r) == old(self).target_done(targets@, *params),
    {
        proof {
            lemma_sent_bound(*self, targets@, *params);
        }
        let total: usize = targets.len() * params.rounds as usize;
        self.sent = self.sent + 1;
        self.stage = Stage::Gap;
        Action::Progress { done: self.sent, total }
    }
}

/// In the middle of a target, not all probes are out.
proof fn lemma_sent_bound(s: SendState, targets: Seq<Ip>, params: ScanParams)
    requires
        s.wf(targets, params),
        s.round < params.rounds,
        s.index < targets.len(),
    ensures
        s.round * targets.len() + s.index + 1 <= total_sends(targets, params),
{
    let n = targets.len() as int;
    assert(s.round * n + n <= n * params.rounds) by (nonlinear_arith)
        requires
            s.round + 1 <= params.rounds,
            n >= 0,
    ;
}

proof fn lemma_next_keeps_wf(s: SendState, targets: Seq<Ip>, params: ScanParams, taken: bool)
    requires
        s.wf(targets, params),
    ensures
        s.next(targets, params, taken).0.wf(targets, params),
{
    if s.round < params.rounds && s.index < targets.len() {
        lemma_sent_bound(s, targets, params);
    }
    let n = targets.len() as int;
    assert((s.round + 1) * n == s.round * n + n) by (nonlinear_arith);
}

/// The state after as many steps as there are `outcomes`, each step being told
/// the outcome of the one before.
pub open spec fn state_after(
    targets: Seq<Ip>,
    params: ScanParams,
    outcomes: Seq<bool>,
) -> SendState
    decreases outcomes.len(),
{
    if outcomes.len() == 0 {
        SendState::initial()
    } else {
        state_after(targets, params, outcomes.drop_last()).next(
            targets,
            params,
            outcomes.last(),
        ).0
    }
}

/// The targets that probes were sent for in those steps, in order, each probe
/// with its retries counted once.
pub open spec fn probed_after(targets: Seq<Ip>, params: ScanParams, outcomes: Seq<bool>) -> Seq<Ip>
    decreases outcomes.len(),
{
    if outcomes.len() == 0 {
        Seq::empty()
    } else {
        let s = state_after(targets, params, outcomes.drop_last());
        let before = probed_after(targets, params, outcomes.drop_last());
        match s.next(targets, params, outcomes.last()).1 {
            Action::Send(ip) => if s.stage is Target {
                before.push(ip)
            } else {
                before
            },
            _ => before,
        }
    }
}

/// A probe handed to the network.
pub struct Attempt {
    /// Rounds that were over.
    pub round: int,
    /// Where the target stands.
    pub index: int,
    pub target: Ip,
    pub taken: bool,
}

/// The attempts whose outcomes those steps were told, in order.
pub open spec fn attempts_after(
    targets: Seq<Ip>,
    params: ScanParams,
    outcomes: Seq<bool>,
) -> Seq<Attempt>
    decreases outcomes.len(),
{
    if outcomes.len() == 0 {
        Seq::empty()
    } else {
        let s = state_after(targets, params, outcomes.drop_last());
        let before = attempts_after(targets, params, outcomes.drop_last());
        if s.stage is Handed {
            before.push(
                Attempt {
                    round: s.round as int,
                    index: s.index as int,
                    target: targets[s.index as int],
                    taken: outcomes.last(),
                },
            )
        } else {
            before
        }
    }
}

/// The attempt was made in this round, for the target that stands there.
pub open spec fn is_attempt(a: Attempt, round: int, index: int) -> bool {
    a.round == round && a.index == index
}

/// The number of attempts for a target in a round.
pub open spec fn tries(attempts: Seq<Attempt>, round: int, index: int) -> nat
    decreases attempts.len(),
{
    if attempts.len() == 0 {
        0
    } else {
        tries(attempts.drop_last(), round, index) + if is_attempt(attempts.last(), round, index) {
            1nat
        } else {
            0nat
        }
    }
}

/// One of the attempts for a target in a round was taken.
pub open spec fn was_taken(attempts: Seq<Attempt>, round: int, index: int) -> bool {
    exists|k: int|
        0 <= k < attempts.len() && is_attempt(#[trigger] attempts[k], round, index)
            && attempts[k].taken
}

/// The target that stands at `index` is done with in this round.
spec fn passed(s: SendState, round: int, index: int) -> bool {
    ||| round < s.round
    ||| round == s.round && index < s.index
    ||| round == s.round && index == s.index && s.stage is Gap
}

/// How often a target was tried in a round, whatever the state.
proof fn lemma_tries(
    targets: Seq<Ip>,
    params: ScanParams,
    outcomes: Seq<bool>,
    round: int,
    index: int,
)
    requires
        total_sends(targets, params) <= usize::MAX,
        0 <= round < params.rounds,
        0 <= index < targets.len(),
    ensures
        ({
            let s = state_after(targets, params, outcomes);
            let attempts = attempts_after(targets, params, outcomes);
            let n = tries(attempts, round, index);
            if passed(s, round, index) {
                1 <= n <= MAX_ATTEMPTS && (was_taken(attempts, round, index) || n == MAX_ATTEMPTS)
            } else {
                &&& !was_taken(attempts, round, index)
                &&& n == if round == s.round && index == s.index && s.stage is Handed {
                    s.attempt - 1
                } else if round == s.round && index == s.index && s.stage is Refused {
                    s.attempt as int
                } else {
                    0
                }
            }
        }),
    decreases outcomes.len(),
{
    if outcomes.len() > 0 {
        let less = outcomes.drop_last();
        let (s, t) = (state_after(targets, params, outcomes), state_after(targets, params, less));
        let (now, then) = (
            attempts_after(targets, params, outcomes),
            attempts_after(targets, params, less),
        );
        lemma_tries(targets, params, less, round, index);
        law_probes_follow_the_schedule(targets, params, less);
        law_probes_follow_the_schedule(targets, params, outcomes);
        if t.stage is Handed {
            assert(now.drop_last() =~= then);
            let last = now.last();
            assert(now[now.len() - 1] == last);
            assert(was_taken(now, round, index) <==> was_taken(then, round, index) || (is_attempt(
                last,
                round,
                index,
            ) && last.taken)) by {
                if was_taken(then, round, index) {
                    let k = choose|k: int|
                        0 <= k < then.len() && is_attempt(#[trigger] then[k], round, index)
                            && then[k].taken;
                    assert(now[k] == then[k]);
                }
                if was_taken(now, round, index) {
                    let k = choose|k: int|
                        0 <= k < now.len() && is_attempt(#[trigger] now[k], round, index)
                            && now[k].taken;
                    if k < then.len() {
                        assert(now[k] == then[k]);
                    }
                }
            }
        }
    }
}

/// Once the sending is done, every target has been tried in every round: at
/// least once, at most `MAX_ATTEMPTS` times, and that often where the network
/// never took it.
pub proof fn law_every_target_is_attempted_in_every_round(
    targets: Seq<Ip>,
    params: ScanParams,
    outcomes: Seq<bool>,
    round: int,
    index: int,
)
    requires
        total_sends(targets, params) <= usize::MAX,
        state_after(targets, params, outcomes).stage is Done,
        0 <= round < params.rounds,
        0 <= index < targets.len(),
    ensures
        ({
            let attempts = attempts_after(targets, params, outcomes);
            let n = tries(attempts, round, index);
            &&& 1 <= n <= MAX_ATTEMPTS
            &&& was_taken(attempts, round, index) || n == MAX_ATTEMPTS
            &&& exists|k: int|
                0 <= k < attempts.len() && is_attempt(#[trigger] attempts[k], round, index)
        }),
{
    law_probes_follow_the_schedule(targets, params, outcomes);
    lemma_tries(targets, params, outcomes, round, index);
    lemma_tried_somewhere(attempts_after(targets, params, outcomes), round, index);
}

proof fn lemma_tried_somewhere(attempts: Seq<Attempt>, round: int, index: int)
    requires
        tries(attempts, round, index) > 0,
    ensures
        exists|k: int| 0 <= k < attempts.len() && is_attempt(#[trigger] attempts[k], round, index),
    decreases attempts.len(),
{
    let before = attempts.drop_last();
    if is_attempt(attempts.last(), round, index) {
        assert(attempts[attempts.len() - 1] == attempts.last());
    } else {
        lemma_tried_somewhere(before, round, index);
        let k = choose|k: int| 0 <= k < before.len() && is_attempt(#[trigger] before[k], round, index);
        assert(attempts[k] == before[k]);
    }
}

/// Every attempt is one for a target, in one of the rounds.
pub proof fn law_attempts_are_for_targets(
    targets: Seq<Ip>,
    params: ScanParams,
    outcomes: Seq<bool>,
    k: int,
)
    requires
        total_sends(targets, params) <= usize::MAX,
        0 <= k < attempts_after(targets, params, outcomes).len(),
    ensures
        ({
            let a = attempts_after(targets, params, outcomes)[k];
            0 <= a.round < params.rounds && 0 <= a.index < targets.len() && a.target
                == targets[a.index]
        }),
    decreases outcomes.len(),
{
    let less = outcomes.drop_last();
    law_probes_follow_the_schedule(targets, params, less);
    if k < attempts_after(targets, params, less).len() {
        law_attempts_are_for_targets(targets, params, less, k);
    }
}

/// `rounds` times the targets, one round after the other.
pub open spec fn full_schedule(targets: Seq<Ip>, params: ScanParams) -> Seq<Ip> {
    Seq::new(
        total_sends(targets, params) as nat,
        |j: int| targets[j % (targets.len() as int)],
    )
}

/// Probes that were begun, in this state.
pub open spec fn begun(s: SendState) -> int {
    if s.stage is Handed || s.stage is Refused {
        s.sent + 1
    } else {
        s.sent as int
    }
}

/// Whatever the network does, the probes that have been sent are a beginning of
/// the full schedule: every target in order, round after round, none left out.
pub proof fn law_probes_follow_the_schedule(
    targets: Seq<Ip>,
    params: ScanParams,
    outcomes: Seq<bool>,
)
    requires
        total_sends(targets, params) <= usize::MAX,
    ensures
        state_after(targets, params, outcomes).wf(targets, params),
        begun(state_after(targets, params, outcomes)) <= total_sends(targets, params),
        probed_after(targets, params, outcomes) == full_schedule(targets, params).take(
            begun(state_after(targets, params, outcomes)),
        ),
    decreases outcomes.len(),
{
    let n = targets.len() as int;
    let all = full_schedule(targets, params);
    let s = state_after(targets, params, outcomes);
    assert(0 * n == 0);
    assert(n * params.rounds >= 0) by (nonlinear_arith)
        requires
            n >= 0,
    ;
    if outcomes.len() == 0 {
        assert(probed_after(targets, params, outcomes) =~= all.take(0));
    } else {
        let t = state_after(targets, params, outcomes.drop_last());
        law_probes_follow_the_schedule(targets, params, outcomes.drop_last());
        lemma_next_keeps_wf(t, targets, params, outcomes.last());
        if t.round < params.rounds && t.index < n {
            lemma_sent_bound(t, targets, params);
            if t.stage is Target {
                assert((t.round * n + t.index) % n == t.index) by {
                    vstd::arithmetic::div_mod::lemma_mod_multiples_vanish(
                        t.round as int,
                        t.index as int,
                        n,
                    );
                    vstd::arithmetic::div_mod::lemma_small_mod(t.index as nat, n as nat);
                    assert(n * t.round == t.round * n) by (nonlinear_arith);
                }
                assert(all[t.sent as int] == targets[t.index as int]);
                assert(all.take(t.sent + 1) =~= all.take(t.sent as int).push(all[t.sent as int]));
            }
        }
    }
}

/// Once the sending is done, every target has been probed in every round.
pub proof fn law_done_means_all_probed(targets: Seq<Ip>, params: ScanParams, outcomes: Seq<bool>)
    requires
        total_sends(targets, params) <= usize::MAX,
        state_after(targets, params, outcomes).stage is Done,
    ensures
        probed_after(targets, params, outcomes) == full_schedule(targets, params),
        state_after(targets, params, outcomes).sent == total_sends(targets, params),
{
    law_probes_follow_the_schedule(targets, params, outcomes);
    let n = targets.len() as int;
    assert(params.rounds * n == n * params.rounds) by (nonlinear_arith);
    assert(full_schedule(targets, params).take(total_sends(targets, params)) =~= full_schedule(
        targets,
        params,
    ));
}

/// How far a stage is from the end of its target.
spec fn stage_rank(s: SendState) -> int {
    match s.stage {
        Stage::Round => 30,
        Stage::Target => 29,
        Stage::Handed => 28 - 2 * s.attempt,
        Stage::Refused => 27 - 2 * s.attempt,
        Stage::Gap => 1,
        Stage::Done => 0,
    }
}

/// Whatever the network does, the sending comes to its end: `steps` tells after
/// how many steps.
pub proof fn law_sending_ends(
    targets: Seq<Ip>,
    params: ScanParams,
    outcome: spec_fn(int) -> bool,
) -> (steps: nat)
    requires
        total_sends(targets, params) <= usize::MAX,
    ensures
        state_after(targets, params, Seq::new(steps, outcome)).stage is Done,
{
    lemma_ends_from(targets, params, outcome, 0)
}

proof fn lemma_ends_from(
    targets: Seq<Ip>,
    params: ScanParams,
    outcome: spec_fn(int) -> bool,
    k: nat,
) -> (steps: nat)
    requires
        total_sends(targets, params) <= usize::MAX,
    ensures
        state_after(targets, params, Seq::new(steps, outcome)).stage is Done,
    decreases
            params.rounds - state_after(targets, params, Seq::new(k, outcome)).round,
            targets.len() - state_after(targets, params, Seq::new(k, outcome)).index,
            stage_rank(state_after(targets, params, Seq::new(k, outcome))),
{
    let s = state_after(targets, params, Seq::new(k, outcome));
    law_probes_follow_the_schedule(targets, params, Seq::new(k, outcome));
    if s.stage is Done {
        k
    } else {
        assert(Seq::new(k + 1, outcome).drop_last() =~= Seq::new(k, outcome));
        lemma_ends_from(targets, params, outcome, k + 1)
    }
}

/// A probe that the network takes: the target that is due is sent to, then the
/// progress is shown, with the targets of all rounds in view, and then there is
/// the wait that is configured for the family of the target. After that the next
/// target of the round is due.
pub proof fn law_taken_probe_is_followed_by_its_wait(
    s: SendState,
    targets: Seq<Ip>,
    params: ScanParams,
    any: bool,
)
    requires
        s.wf(targets, params),
        s.stage is Target,
        s.index < targets.len(),
    ensures
        ({
            let (handed, first) = s.next(targets, params, any);
            let (out, second) = handed.next(targets, params, true);
            let (after, third) = out.next(targets, params, any);
            &&& first == Action::Send(targets[s.index as int])
            &&& second == (Action::Progress {
                done: (s.sent + 1) as usize,
                total: (targets.len() * params.rounds) as usize,
            })
            &&& third == match targets[s.index as int] {
                Ip::V4(_) => Action::Wait(Pause::Millis(params.ipv4_delay_ms)),
                Ip::V6(_) => Action::Wait(Pause::Micros(params.ipv6_delay_us)),
            }
            &&& after.stage is Target
            &&& after.round == s.round
            &&& after.index == s.index + 1
            &&& after.sent == s.sent + 1
        }),
{
    lemma_sent_bound(s, targets, params);
}

/// A probe that the network does not take: after one millisecond the same target
/// is sent to again, unless that was the tenth time; then the target is done
/// with, and its wait follows as after a probe that was taken.
pub proof fn law_refused_probe_is_sent_again(
    s: SendState,
    targets: Seq<Ip>,
    params: ScanParams,
    any: bool,
)
    requires
        s.wf(targets, params),
        s.stage is Handed,
    ensures
        ({
            let (refused, first) = s.next(targets, params, false);
            let (again, second) = refused.next(targets, params, any);
            &&& first == Action::Wait(Pause::Millis(1))
            &&& again.round == s.round
            &&& again.index == s.index
            &&& s.attempt < 10 ==> {
                &&& second == Action::Send(targets[s.index as int])
                &&& again.stage is Handed
                &&& again.attempt == s.attempt + 1
                &&& again.sent == s.sent
            }
            &&& s.attempt >= 10 ==> {
                &&& again == s.next(targets, params, true).0
                &&& second == s.next(targets, params, true).1
            }
        }),
{
}

/// Where a round ends: the next one begins at the first target, after the wait
/// that is configured between rounds, if there is one; behind the last round the
/// sending is over, and stays so. There is no wait before the first round.
pub proof fn law_rounds_follow_each_other(
    s: SendState,
    targets: Seq<Ip>,
    params: ScanParams,
    any: bool,
)
    requires
        s.wf(targets, params),
        s.stage is Target,
        s.index == targets.len(),
    ensures
        ({
            let (ended, first) = s.next(targets, params, any);
            let (after, second) = ended.next(targets, params, any);
            &&& first == Action::Proceed
            &&& after.round == s.round + 1
            &&& after.index == 0
            &&& after.sent == s.sent
            &&& s.round + 1 < params.rounds ==> {
                &&& after.stage is Target
                &&& params.round_delay_ms > 0 ==> second == Action::Wait(
                    Pause::Millis(params.round_delay_ms),
                )
                &&& params.round_delay_ms == 0 ==> second == Action::Proceed
            }
            &&& s.round + 1 == params.rounds ==> {
                &&& after.stage is Done
                &&& second == Action::Finished
                &&& after.next(targets, params, any) == (after, Action::Finished)
            }
        }),
        ({
            let (begun, action) = SendState::initial().next(targets, params, any);
            &&& begun.stage is Target
            &&& begun.round == 0
            &&& begun.index == 0
            &&& action == Action::Proceed
        }),
{
}

/// Once the sending is done, every target has been tried in every round: once at
/// least, ten times at most, and ten times where the network never took it.
pub proof fn law_ten_attempts_at_most(
    targets: Seq<Ip>,
    params: ScanParams,
    outcomes: Seq<bool>,
    round: int,
    index: int,
)
    requires
        total_sends(targets, params) <= usize::MAX,
        state_after(targets, params, outcomes).stage is Done,
        0 <= round < params.rounds,
        0 <= index < targets.len(),
    ensures
        ({
            let attempts = attempts_after(targets, params, outcomes);
            let n = tries(attempts, round, index);
            &&& 1 <= n <= 10
            &&& n == 10 || exists|k: int|
                0 <= k < attempts.len() && (#[trigger] attempts[k]).round == round
                    && attempts[k].index == index && attempts[k].target == targets[index]
                    && attempts[k].taken
        }),
{
    let attempts = attempts_after(targets, params, outcomes);
    law_every_target_is_attempted_in_every_round(targets, params, outcomes, round, index);
    if was_taken(attempts, round, index) {
        let k = choose|k: int|
            0 <= k < attempts.len() && is_attempt(#[trigger] attempts[k], round, index)
                && attempts[k].taken;
        law_attempts_are_for_targets(targets, params, outcomes, k);
        assert(attempts[k].round == round);
    }
}

/// The full schedule has every target in every round, at its place in the round.
pub proof fn law_schedule_repeats_the_targets(
    targets: Seq<Ip>,
    params: ScanParams,
    round: int,
    index: int,
)
    requires
        0 <= round < params.rounds,
        0 <= index < targets.len(),
    ensures
        full_schedule(targets, params).len() == targets.len() * params.rounds,
        full_schedule(targets, params)[round * targets.len() + index] == targets[index],
{
    let n = targets.len() as int;
    assert(n * params.rounds >= 0) by (nonlinear_arith)
        requires
            n >= 0,
    ;
    assert(0 <= round * n + index < n * params.rounds) by (nonlinear_arith)
        requires
            0 <= round,
            round + 1 <= params.rounds,
            0 <= index < n,
    ;
    vstd::arithmetic::div_mod::lemma_mod_multiples_vanish(round, index, n);
    vstd::arithmetic::div_mod::lemma_small_mod(index as nat, n as nat);
    assert(n * round == round * n) by (nonlinear_arith);
}

/// Without a round nothing is sent.
pub proof fn law_no_round_no_probe(targets: Seq<Ip>, params: ScanParams, any: bool)
    requires
        params.rounds == 0,
    ensures
        SendState::initial().next(targets, params, any).1 == Action::Finished,
        SendState::initial().next(targets, params, any).0.stage is Done,
{
}

} // verus!
