//! A scan: what it probes, what it hears, and what it finds.
use std::collections::BTreeMap;
use vstd::prelude::*;

use crate::icmp::{
    answers_probe_v4, answers_probe_v6, be_u128, be_u32, echo_v4, echo_v6, header_len,
    law_loop_reports_v4, law_loop_reports_v6, law_own_probe_is_recognised_v4,
    law_own_probe_is_recognised_v6, loop_report_v4, loop_report_v6, number_in, parse_time_exceeded_v4, parse_time_exceeded_v6, PROBE_LEN, PROTOCOL_ICMP_V4, PROTOCOL_ICMP_V6,
    TIME_EXCEEDED_V4, TIME_EXCEEDED_V6,
};
use crate::ip::{
    addresses_of, host_network, host_prefix, ip_lt, parse_network, parsed_network, Ip, Ipv4Net,
    Network,
};
use crate::sender::{
    attempts_after, is_attempt, law_attempts_are_for_targets,
    law_every_target_is_attempted_in_every_round, state_after, total_sends, Attempt, ScanParams,
};
use crate::targets::{
    delegated, get_ipv6_delegated_targets, law_delegated_targets, lemma_address_space,
    lemma_block_in_space, probes,
};
use crate::text::{joined, texts};

verus! {

/// What a scan found at one address.
#[derive(Debug)]
pub struct LoopResult {
    /// The registered prefix that the address was probed for.
    pub prefix: String,
    /// The probed address.
    pub target_ip: Ip,
    /// The router that reported a loop, if one did.
    pub router_ip: Option<Ip>,
    /// What kept the address from being probed, if anything did.
    pub error: Option<String>,
}

/// A `LoopResult` as a value.
pub struct Finding {
    pub prefix: Seq<char>,
    pub target: Ip,
    pub router: Option<Ip>,
    pub error: Option<Seq<char>>,
}

impl View for LoopResult {
    type V = Finding;

    open spec fn view(&self) -> Finding {
        Finding {
            prefix: self.prefix@,
            target: self.target_ip,
            router: self.router_ip,
            error: match self.error {
                Some(e) => Some(e@),
                None => None,
            },
        }
    }
}

/// The values of the results.
pub open spec fn findings(v: Seq<LoopResult>) -> Seq<Finding> {
    v.map_values(|r: LoopResult| r@)
}

impl Clone for LoopResult {
    fn clone(&self) -> (r: LoopResult)
        ensures
            r@ == self@,
    {
        LoopResult {
            prefix: self.prefix.clone(),
            target_ip: self.target_ip,
            router_ip: self.router_ip,
            error: match &self.error {
                Some(e) => Some(e.clone()),
                None => None,
            },
        }
    }
}

/// The addresses to probe, each with the prefixes that it is probed for.
pub struct TargetTable {
    v4: BTreeMap<u32, Vec<String>>,
    v6: BTreeMap<u128, Vec<String>>,
}

impl TargetTable {
    /// The prefixes that `ip` is probed for, in the order in which they were
    /// added; none for an address that is not probed.
    pub closed spec fn prefixes_at(self, ip: Ip) -> Seq<Seq<char>> {
        match ip {
            Ip::V4(a) => if self.v4@.contains_key(a) {
                texts(self.v4@[a]@)
            } else {
                Seq::empty()
            },
            Ip::V6(a) => if self.v6@.contains_key(a) {
                texts(self.v6@[a]@)
            } else {
                Seq::empty()
            },
        }
    }

    /// No address is held without a prefix.
    pub closed spec fn wf(self) -> bool {
        &&& forall|a: u32| #[trigger] self.v4@.contains_key(a) ==> self.v4@[a]@.len() > 0
        &&& forall|a: u128| #[trigger] self.v6@.contains_key(a) ==> self.v6@[a]@.len() > 0
    }

    pub fn new() -> (r: TargetTable)
        ensures
            r.wf(),
            forall|ip: Ip| #[trigger] r.prefixes_at(ip) == Seq::<Seq<char>>::empty(),
    {
        TargetTable { v4: BTreeMap::new(), v6: BTreeMap::new() }
    }

    /// Whether `ip` is probed.
    pub fn contains(&self, ip: Ip) -> (r: bool)
        requires
            self.wf(),
        ensures
            r <==> self.prefixes_at(ip).len() > 0,
    {
        match ip {
            Ip::V4(a) => self.v4.contains_key(&a),
            Ip::V6(a) => self.v6.contains_key(&a),
        }
    }

    /// Has `ip` probed for `prefix` too.
    fn add(&mut self, ip: Ip, prefix: &str)
        requires
            old(self).wf(),
        ensures
            final(self).wf(),
            forall|x: Ip| #[trigger]
                final(self).prefixes_at(x) == if x == ip {
                    old(self).prefixes_at(x).push(prefix@)
                } else {
                    old(self).prefixes_at(x)
                },
    {
        match ip {
            Ip::V4(a) => {
                let mut list = match self.v4.remove(&a) {
                    Some(list) => list,
                    None => Vec::new(),
                };
                let ghost before = list@;
                list.push(prefix.to_owned());
                assert(texts(list@) =~= texts(before).push(prefix@));
                self.v4.insert(a, list);
            },
            Ip::V6(a) => {
                let mut list = match self.v6.remove(&a) {
                    Some(list) => list,
                    None => Vec::new(),
                };
                let ghost before = list@;
                list.push(prefix.to_owned());
                assert(texts(list@) =~= texts(before).push(prefix@));
                self.v6.insert(a, list);
            },
        }
        assert(self.prefixes_at(ip) =~= old(self).prefixes_at(ip).push(prefix@));
    }

    /// Has each of `ips` probed for `prefix` too.
    fn add_each(&mut self, ips: &Vec<Ip>, prefix: &str)
        requires
            old(self).wf(),
            ips@.no_duplicates(),
        ensures
            final(self).wf(),
            forall|x: Ip| #[trigger]
                final(self).prefixes_at(x) == if ips@.contains(x) {
                    old(self).prefixes_at(x).push(prefix@)
                } else {
                    old(self).prefixes_at(x)
                },
    {
        let ghost before = *self;
        let mut i: usize = 0;
        while i < ips.len()
            invariant
                i <= ips@.len(),
                ips@.no_duplicates(),
                self.wf(),
                forall|x: Ip| #[trigger]
                    self.prefixes_at(x) == if ips@.take(i as int).contains(x) {
                        before.prefixes_at(x).push(prefix@)
                    } else {
                        before.prefixes_at(x)
                    },
            decreases ips@.len() - i,
        {
            let ip = ips[i];
            proof {
                let (done, next) = (ips@.take(i as int), ips@.take(i + 1));
                assert(next =~= done.push(ip));
                assert(!done.contains(ip)) by {
                    if done.contains(ip) {
                        let k = choose|k: int| 0 <= k < done.len() && done[k] == ip;
                        assert(ips@[k] == ips@[i as int]);
                    }
                }
                assert forall|x: Ip| next.contains(x) <==> done.contains(x) || x == ip by {
                    if done.contains(x) {
                        let k = choose|k: int| 0 <= k < done.len() && done[k] == x;
                        assert(next[k] == x);
                    }
                    assert(next[i as int] == ip);
                }
            }
            self.add(ip, prefix);
            i = i + 1;
        }
        assert(ips@.take(i as int) =~= ips@);
    }

    /// Has every address of an IPv4 network probed for `prefix` too.
    fn add_v4(&mut self, net: Ipv4Net, prefix: &str)
        requires
            old(self).wf(),
            1 <= net.prefix <= 32,
        ensures
            final(self).wf(),
            forall|x: Ip| #[trigger]
                final(self).prefixes_at(x) == if probes(Network::V4(net), x) {
                    old(self).prefixes_at(x).push(prefix@)
                } else {
                    old(self).prefixes_at(x)
                },
    {
        let addresses = addresses_of(net);
        proof {
            lemma_address_space();
            lemma_block_in_space(net.addr as int, (32 - net.prefix) as nat, 32);
        }
        let mut ips: Vec<Ip> = Vec::new();
        let mut i: usize = 0;
        while i < addresses.len()
            invariant
                i <= addresses@.len(),
                ips@.len() == i,
                forall|j: int| 0 <= j < i ==> ips@[j] == Ip::V4(#[trigger] addresses@[j]),
            decreases addresses@.len() - i,
        {
            ips.push(Ip::V4(addresses[i]));
            i = i + 1;
        }
        proof {
            assert forall|j: int| 0 <= j < ips@.len() implies #[trigger] ips@[j] == Ip::V4(
                (net.first() + j) as u32,
            ) by {
                assert(ips@[j] == Ip::V4(addresses@[j]));
            }
            assert forall|x: Ip| ips@.contains(x) <==> probes(Network::V4(net), x) by {
                if ips@.contains(x) {
                    let j = choose|j: int| 0 <= j < ips@.len() && ips@[j] == x;
                    assert(x == Ip::V4((net.first() + j) as u32));
                }
                if probes(Network::V4(net), x) {
                    assert(ips@[x->V4_0 - net.first()] == x);
                }
            }
        }
        self.add_each(&ips, prefix);
    }

    /// Has what stands for the network `net` probed for `prefix` too.
    pub fn add_network(&mut self, net: Network, prefix: &str)
        requires
            old(self).wf(),
            net.wf(),
        ensures
            final(self).wf(),
            forall|x: Ip| #[trigger]
                final(self).prefixes_at(x) == if probes(net, x) {
                    old(self).prefixes_at(x).push(prefix@)
                } else {
                    old(self).prefixes_at(x)
                },
    {
        match net {
            Network::V4(v4) => {
                if v4.prefix == 0 {
                    // The whole address space, one half after the other.
                    let low = Ipv4Net { addr: 0, prefix: 1 };
                    let high = Ipv4Net { addr: 0x8000_0000, prefix: 1 };
                    proof {
                        lemma_address_space();
                        lemma_block_in_space(v4.addr as int, 32, 32);
                        vstd::arithmetic::power2::lemma2_to64();
                        assert(low.first() == 0 && high.first() == 0x8000_0000);
                        assert(low.size() == 0x8000_0000 && high.size() == 0x8000_0000);
                        assert(v4.size() == 0x1_0000_0000);
                        assert(v4.first() == 0);
                    }
                    self.add_v4(low, prefix);
                    self.add_v4(high, prefix);
                } else {
                    self.add_v4(v4, prefix);
                }
            },
            Network::V6(v6) => {
                let ips = get_ipv6_delegated_targets(&v6);
                proof {
                    law_delegated_targets(v6);
                    lemma_address_space();
                    let d = delegated(v6);
                    assert forall|j: int| 0 <= j < d.len() implies #[trigger] ips@[j] == Ip::V6(
                        d[j] as u128,
                    ) by {}
                    assert forall|j: int, k: int| 0 <= j < ips@.len() && 0 <= k < ips@.len() && j
                        != k implies ips@[j] != ips@[k] by {
                        assert(ips@[j] == Ip::V6(d[j] as u128) && ips@[k] == Ip::V6(d[k] as u128));
                    }
                    assert forall|x: Ip| ips@.contains(x) <==> probes(net, x) by {
                        if ips@.contains(x) {
                            let j = choose|j: int| 0 <= j < ips@.len() && ips@[j] == x;
                            assert(x == Ip::V6(d[j] as u128));
                            assert(d.contains(x->V6_0 as int));
                        }
                        if probes(net, x) {
                            let j = choose|j: int| 0 <= j < d.len() && d[j] == x->V6_0 as int;
                            assert(ips@[j] == x);
                        }
                    }
                }
                self.add_each(&ips, prefix);
            },
        }
    }

    /// The prefixes that `ip` is probed for.
    fn get(&self, ip: Ip) -> (r: Option<&Vec<String>>)
        ensures
            r matches Some(list) ==> texts(list@) == self.prefixes_at(ip),
            r is None ==> self.prefixes_at(ip).len() == 0,
    {
        match ip {
            Ip::V4(a) => self.v4.get(&a),
            Ip::V6(a) => self.v6.get(&a),
        }
    }

    /// The probed addresses, in ascending order.
    pub fn targets(&self) -> (r: Vec<Ip>)
        requires
            self.wf(),
        ensures
            ascending_ips(r@),
            forall|ip: Ip| #[trigger] r@.contains(ip) <==> self.prefixes_at(ip).len() > 0,
    {
        let mut r: Vec<Ip> = Vec::new();
        let entries = self.v4.iter();
        let ghost four = vstd::std_specs::iter::IteratorSpec::remaining(&entries);
        proof {
            let keys = four.map_values(|kv: (&u32, &Vec<String>)| *kv.0);
            assert(vstd::std_specs::btree::increasing_seq(keys));
            assert forall|i: int, j: int| 0 <= i < j < four.len() implies *(#[trigger] four[i]).0
                < *(#[trigger] four[j]).0 by {
                assert(vstd::std_specs::cmp::OrdSpec::cmp_spec(&keys[i], &keys[j]) is Less);
            }
        }
        for (a, _list) in it: entries
            invariant
                it.seq() == four,
                r@.len() == it.index(),
                forall|j: int| 0 <= j < r@.len() ==> #[trigger] r@[j] == Ip::V4(*four[j].0),
        {
            r.push(Ip::V4(*a));
        }
        let entries = self.v6.iter();
        let ghost six = vstd::std_specs::iter::IteratorSpec::remaining(&entries);
        proof {
            let keys = six.map_values(|kv: (&u128, &Vec<String>)| *kv.0);
            assert(vstd::std_specs::btree::increasing_seq(keys));
            assert forall|i: int, j: int| 0 <= i < j < six.len() implies *(#[trigger] six[i]).0
                < *(#[trigger] six[j]).0 by {
                assert(vstd::std_specs::cmp::OrdSpec::cmp_spec(&keys[i], &keys[j]) is Less);
            }
        }
        let ghost n = r@.len();
        for (a, _list) in it: entries
            invariant
                it.seq() == six,
                n == four.len(),
                r@.len() == n + it.index(),
                forall|j: int| 0 <= j < n ==> #[trigger] r@[j] == Ip::V4(*four[j].0),
                forall|j: int| n <= j < r@.len() ==> #[trigger] r@[j] == Ip::V6(*six[j - n].0),
        {
            r.push(Ip::V6(*a));
        }
        proof {
            assert forall|ip: Ip| #[trigger] r@.contains(ip) <==> self.prefixes_at(ip).len() > 0 by {
                if r@.contains(ip) {
                    let j = choose|j: int| 0 <= j < r@.len() && r@[j] == ip;
                    if j < n {
                        assert(self.v4@.contains_key(*four[j].0));
                    } else {
                        assert(self.v6@.contains_key(*six[j - n].0));
                    }
                }
                if self.prefixes_at(ip).len() > 0 {
                    match ip {
                        Ip::V4(a) => {
                            assert(four.contains((&a, &self.v4@[a])));
                            let j = choose|j: int|
                                0 <= j < four.len() && four[j] == (&a, &self.v4@[a]);
                            assert(r@[j] == ip);
                        },
                        Ip::V6(a) => {
                            assert(six.contains((&a, &self.v6@[a])));
                            let j = choose|j: int|
                                0 <= j < six.len() && six[j] == (&a, &self.v6@[a]);
                            assert(r@[n + j] == ip);
                        },
                    }
                }
            }
        }
        r
    }
}

/// Each address stands before all that follow it.
pub open spec fn ascending_ips(s: Seq<Ip>) -> bool {
    forall|i: int, j: int| 0 <= i < j < s.len() ==> ip_lt(#[trigger] s[i], #[trigger] s[j])
}

/// The prefixes, in order, that have `ip` probed.
pub open spec fn covering(prefixes: Seq<Seq<char>>, ip: Ip) -> Seq<Seq<char>>
    decreases prefixes.len(),
{
    if prefixes.len() == 0 {
        Seq::empty()
    } else {
        let before = covering(prefixes.drop_last(), ip);
        match parsed_network(prefixes.last()) {
            Some(net) => if probes(net, ip) {
                before.push(prefixes.last())
            } else {
                before
            },
            None => before,
        }
    }
}

/// A prefix has `ip` probed where it is a network that probes `ip`.
proof fn lemma_covering(prefixes: Seq<Seq<char>>, ip: Ip, prefix: Seq<char>)
    ensures
        covering(prefixes, ip).contains(prefix) <==> prefixes.contains(prefix) && (parsed_network(
            prefix,
        ) matches Some(net) && probes(net, ip)),
        covering(prefixes, ip).contains(prefix) ==> covering(prefixes, ip).len() > 0,
    decreases prefixes.len(),
{
    if prefixes.len() > 0 {
        let (before, last) = (prefixes.drop_last(), prefixes.last());
        lemma_covering(before, ip, prefix);
        assert(prefixes.contains(prefix) <==> before.contains(prefix) || prefix == last) by {
            if before.contains(prefix) {
                let i = choose|i: int| 0 <= i < before.len() && before[i] == prefix;
                assert(prefixes[i] == prefix);
            }
            if prefixes.contains(prefix) && prefix != last {
                let i = choose|i: int| 0 <= i < prefixes.len() && prefixes[i] == prefix;
                assert(before[i] == prefix);
            }
            assert(prefixes[prefixes.len() - 1] == last);
        }
        let (c, d) = (covering(prefixes, ip), covering(before, ip));
        if c != d {
            assert(c.contains(prefix) <==> d.contains(prefix) || prefix == last) by {
                if d.contains(prefix) {
                    let i = choose|i: int| 0 <= i < d.len() && d[i] == prefix;
                    assert(c[i] == prefix);
                }
                if c.contains(prefix) && prefix != last {
                    let i = choose|i: int| 0 <= i < c.len() && c[i] == prefix;
                    assert(d[i] == prefix);
                }
                assert(c[c.len() - 1] == last);
            }
        }
    }
}

/// Every prefix is that of a single address.
pub open spec fn hosts_only(prefixes: Seq<Seq<char>>) -> bool {
    forall|j: int|
        0 <= j < prefixes.len() ==> exists|host: Ip| #[trigger] prefixes[j] == #[trigger] host_prefix(
            host,
        )
}

/// The network that holds one address only has that address probed, and no
/// other.
proof fn lemma_host_is_probed(host: Ip, ip: Ip)
    ensures
        probes(host_network(host), ip) <==> host == ip,
{
    vstd::arithmetic::power2::lemma2_to64();
    match host_network(host) {
        Network::V4(net) => {
            assert(net.first() == net.addr);
        },
        Network::V6(net) => {
            assert(net.first() == net.addr);
            assert(delegated(net)[0] == net.addr);
        },
    }
}

/// What is found at a target is found for the prefixes of that target.
proof fn lemma_found(
    targets: Seq<Ip>,
    prefixes_at: spec_fn(Ip) -> Seq<Seq<char>>,
    router_of: spec_fn(Ip) -> Option<Ip>,
    error_of: spec_fn(Ip) -> Option<Seq<char>>,
    f: Finding,
)
    ensures
        found(targets, prefixes_at, router_of, error_of).contains(f) <==> {
            &&& targets.contains(f.target)
            &&& prefixes_at(f.target).contains(f.prefix)
            &&& f == finding_at(f.prefix, f.target, router_of(f.target), error_of(f.target))
        },
    decreases targets.len(),
{
    if targets.len() > 0 {
        let (before, ip) = (targets.drop_last(), targets.last());
        lemma_found(before, prefixes_at, router_of, error_of, f);
        let rest = found(before, prefixes_at, router_of, error_of);
        let rows = prefixes_at(ip).map_values(
            |p: Seq<char>| finding_at(p, ip, router_of(ip), error_of(ip)),
        );
        let all = found(targets, prefixes_at, router_of, error_of);
        assert(targets.contains(f.target) <==> before.contains(f.target) || f.target == ip) by {
            if before.contains(f.target) {
                let i = choose|i: int| 0 <= i < before.len() && before[i] == f.target;
                assert(targets[i] == f.target);
            }
            if targets.contains(f.target) && f.target != ip {
                let i = choose|i: int| 0 <= i < targets.len() && targets[i] == f.target;
                assert(before[i] == f.target);
            }
            assert(targets[targets.len() - 1] == ip);
        }
        assert(rows.contains(f) <==> f.target == ip && prefixes_at(ip).contains(f.prefix) && f
            == finding_at(f.prefix, ip, router_of(ip), error_of(ip))) by {
            if rows.contains(f) {
                let i = choose|i: int| 0 <= i < rows.len() && rows[i] == f;
                assert(prefixes_at(ip)[i] == f.prefix);
            }
            if f.target == ip && prefixes_at(ip).contains(f.prefix) && f == finding_at(
                f.prefix,
                ip,
                router_of(ip),
                error_of(ip),
            ) {
                let here = prefixes_at(ip);
                let i = choose|i: int| 0 <= i < here.len() && here[i] == f.prefix;
                assert(rows[i] == f);
            }
        }
        assert(all.contains(f) <==> rest.contains(f) || rows.contains(f)) by {
            if rest.contains(f) {
                let i = choose|i: int| 0 <= i < rest.len() && rest[i] == f;
                assert(all[i] == f);
            }
            if rows.contains(f) {
                let i = choose|i: int| 0 <= i < rows.len() && rows[i] == f;
                assert(all[rest.len() + i] == f);
            }
            if all.contains(f) {
                let i = choose|i: int| 0 <= i < all.len() && all[i] == f;
                if i < rest.len() {
                    assert(rest[i] == f);
                } else {
                    assert(rows[i - rest.len()] == f);
                }
            }
        }
    }
}

/// What a scan finds: for every prefix that is a network, and every address
/// that the network has probed, the router that reported a loop there, if one
/// did, and what kept every probe from going out, if anything did; and nothing
/// else.
pub proof fn law_scan_finds_what_it_probes(
    plan: ScanPlan,
    prefixes: Seq<Seq<char>>,
    detected: Detected,
    f: Finding,
)
    requires
        plan.scans(prefixes),
    ensures
        found(
            plan.targets@,
            |ip: Ip| plan.table.prefixes_at(ip),
            |ip: Ip| detected.router_of(ip),
            |ip: Ip| detected.error_of(ip),
        ).contains(f) <==> {
            &&& prefixes.contains(f.prefix)
            &&& parsed_network(f.prefix) matches Some(net) && probes(net, f.target)
            &&& f.router == detected.router_of(f.target)
            &&& f.error == detected.error_of(f.target)
        },
{
    lemma_found(
        plan.targets@,
        |ip: Ip| plan.table.prefixes_at(ip),
        |ip: Ip| detected.router_of(ip),
        |ip: Ip| detected.error_of(ip),
        f,
    );
    lemma_covering(prefixes, f.target, f.prefix);
    assert(plan.table.prefixes_at(f.target) == covering(prefixes, f.target));
    assert(plan.targets@.contains(f.target) <==> plan.table.prefixes_at(f.target).len() > 0);
}

/// An answer to a probe is heard: a Time Exceeded message that quotes a probe of
/// this scan for one of its targets, from a router other than the target, tells
/// of a loop at that target, reported by that router.
pub proof fn law_answers_are_heard_v4(
    plan: ScanPlan,
    outer: Seq<u8>,
    exceeded: Seq<u8>,
    quoted: Seq<u8>,
    sent: int,
)
    requires
        outer.len() >= 20,
        outer[0] / 16 == 4,
        header_len(outer, 0) == outer.len(),
        exceeded.len() == 8,
        exceeded[0] == TIME_EXCEEDED_V4,
        quoted.len() >= 20,
        header_len(quoted, 0) == quoted.len(),
        quoted[9] == PROTOCOL_ICMP_V4,
        6 <= sent <= PROBE_LEN,
        be_u32(outer, 12) != be_u32(quoted, 16),
        plan.targets@.contains(Ip::V4(be_u32(quoted, 16))),
    ensures
        plan.heard_v4(outer + exceeded + quoted + echo_v4(plan.session_id).take(sent)) == Some(
            (Ip::V4(be_u32(quoted, 16)), Ip::V4(be_u32(outer, 12))),
        ),
{
    law_own_probe_is_recognised_v4(outer, exceeded, quoted, sent, plan.session_id);
}

/// The same for ICMPv6, where the router is the sender of the message.
pub proof fn law_answers_are_heard_v6(
    plan: ScanPlan,
    exceeded: Seq<u8>,
    quoted: Seq<u8>,
    sent: int,
    router: u128,
)
    requires
        exceeded.len() == 8,
        exceeded[0] == TIME_EXCEEDED_V6,
        quoted.len() == 40,
        quoted[6] == PROTOCOL_ICMP_V6,
        8 <= sent <= PROBE_LEN,
        router != be_u128(quoted, 24),
        plan.targets@.contains(Ip::V6(be_u128(quoted, 24))),
    ensures
        plan.heard_v6(
            exceeded + quoted + echo_v6(plan.session_id).take(sent),
            Some(Ip::V6(router)),
        ) == Some((Ip::V6(be_u128(quoted, 24)), Ip::V6(router))),
{
    law_own_probe_is_recognised_v6(exceeded, quoted, sent, router, plan.session_id);
}

/// Nothing else is heard of: what is heard is a loop at a target, reported by
/// another router than the target itself.
pub proof fn law_loops_are_heard_at_targets(plan: ScanPlan, data: Seq<u8>, from: Option<Ip>)
    ensures
        plan.heard_v4(data) matches Some((target, router)) ==> plan.targets@.contains(target)
            && target != router && answers_probe_v4(data, plan.session_id),
        plan.heard_v6(data, from) matches Some((target, router)) ==> plan.targets@.contains(target)
            && target != router && from == Some(router) && answers_probe_v6(data, plan.session_id),
{
}

/// A message of any type but Time Exceeded is not heard, whatever else it holds:
/// type 11 behind the header of an IPv4 packet, and type 3 for ICMPv6.
pub proof fn law_only_time_exceeded_is_heard(plan: ScanPlan, data: Seq<u8>, from: Option<Ip>)
    ensures
        plan.heard_v4(data) is Some ==> data[4 * (data[0] % 16)] == 11,
        plan.heard_v6(data, from) is Some ==> data[0] == 3,
{
}

/// What is heard, byte by byte: a loop at one of the targets, reported by
/// another address than the target. The target is the destination of the packet
/// that is quoted, and the router is who sent the message. The quoted packet is
/// an echo request that carries the identifier of this scan.
pub proof fn law_heard_bytes_v4(plan: ScanPlan, data: Seq<u8>, target: Ip, router: Ip)
    ensures
        plan.heard_v4(data) == Some((target, router)) <==> {
            let outer = 4 * (data[0] % 16);
            let echo = outer + 8 + 4 * (data[outer + 8] % 16);
            &&& data[0] / 16 == 4
            &&& outer >= 20
            &&& data.len() >= outer + 28
            &&& data[outer] == 11
            &&& data[outer + 17] == 1
            &&& echo >= outer + 28
            &&& data.len() >= echo + 6
            &&& data[echo] == 8
            &&& data[echo + 4] * 256 + data[echo + 5] == plan.session_id
            &&& target is V4
            &&& router is V4
            &&& target->V4_0 == number_in(data.subrange(outer + 24, outer + 28))
            &&& router->V4_0 == number_in(data.subrange(12, 16))
            &&& target != router
            &&& plan.targets@.contains(target)
        },
{
    if target is V4 && router is V4 {
        law_loop_reports_v4(data, plan.session_id, target->V4_0, router->V4_0);
    }
}

/// The same for ICMPv6.
pub proof fn law_heard_bytes_v6(
    plan: ScanPlan,
    data: Seq<u8>,
    from: Option<Ip>,
    target: Ip,
    router: Ip,
)
    ensures
        plan.heard_v6(data, from) == Some((target, router)) <==> {
            &&& data.len() >= 56
            &&& data[0] == 3
            &&& data[14] == 58
            &&& data[48] == 128
            &&& data[52] * 256 + data[53] == plan.session_id
            &&& target is V6
            &&& router is V6
            &&& target->V6_0 == number_in(data.subrange(32, 48))
            &&& from == Some(router)
            &&& target != router
            &&& plan.targets@.contains(target)
        },
{
    if target is V6 && router is V6 {
        law_loop_reports_v6(data, ipv6_of(from), plan.session_id, target->V6_0, router->V6_0);
    }
}

/// What a scan reports of a prefix that is no network.
pub open spec fn unreadable_prefix(prefix: Seq<char>) -> Finding {
    Finding {
        prefix,
        target: Ip::V4(0),
        router: None,
        error: Some("Invalid prefix: "@ + ("invalid address: "@ + prefix)),
    }
}

/// What a scan reports of the prefixes that are no networks, in order.
pub open spec fn unreadable(prefixes: Seq<Seq<char>>) -> Seq<Finding>
    decreases prefixes.len(),
{
    if prefixes.len() == 0 {
        Seq::empty()
    } else {
        let before = unreadable(prefixes.drop_last());
        match parsed_network(prefixes.last()) {
            Some(_) => before,
            None => before.push(unreadable_prefix(prefixes.last())),
        }
    }
}

/// What was found at one address for one prefix: the router that reported a
/// loop, and what kept the address from being probed.
pub open spec fn finding_at(
    prefix: Seq<char>,
    target: Ip,
    router: Option<Ip>,
    error: Option<Seq<char>>,
) -> Finding {
    Finding { prefix, target, router, error }
}

/// What was found at each of `targets`, once for each prefix that it is probed
/// for.
pub open spec fn found(
    targets: Seq<Ip>,
    prefixes_at: spec_fn(Ip) -> Seq<Seq<char>>,
    router_of: spec_fn(Ip) -> Option<Ip>,
    error_of: spec_fn(Ip) -> Option<Seq<char>>,
) -> Seq<Finding>
    decreases targets.len(),
{
    if targets.len() == 0 {
        Seq::empty()
    } else {
        let ip = targets.last();
        found(targets.drop_last(), prefixes_at, router_of, error_of) + prefixes_at(ip).map_values(
            |p: Seq<char>| finding_at(p, ip, router_of(ip), error_of(ip)),
        )
    }
}

/// What became of the probes for one address.
pub enum Sending {
    /// None was handed to the network.
    Untried,
    /// The network took none of them; this is what it said last.
    Refused(Seq<char>),
    /// The network took one of them.
    Taken,
}

/// What a probe adds: the network took it, or it gave a reason why not.
pub open spec fn after_send(before: Sending, refusal: Option<Seq<char>>) -> Sending {
    match (before, refusal) {
        (Sending::Taken, _) => Sending::Taken,
        (_, None) => Sending::Taken,
        (_, Some(reason)) => Sending::Refused(reason),
    }
}

/// What kept an address from being probed, if anything did.
pub open spec fn send_error(sending: Sending) -> Option<Seq<char>> {
    match sending {
        Sending::Refused(reason) => Some("Failed to send probe: "@ + reason),
        _ => None,
    }
}

/// What became of the probes for `ip`, given all probes in order: for whom each
/// was, and the reason where the network did not take it.
pub open spec fn sending_after(log: Seq<(Ip, Option<Seq<char>>)>, ip: Ip) -> Sending
    decreases log.len(),
{
    if log.len() == 0 {
        Sending::Untried
    } else {
        let before = sending_after(log.drop_last(), ip);
        if log.last().0 == ip {
            after_send(before, log.last().1)
        } else {
            before
        }
    }
}

/// The reason, where a probe was not taken.
pub open spec fn refusal(outcome: Result<(), String>) -> Option<Seq<char>> {
    match outcome {
        Ok(_) => None,
        Err(reason) => Some(reason@),
    }
}

/// One of the probes was for `ip`.
pub open spec fn was_tried(log: Seq<(Ip, Option<Seq<char>>)>, ip: Ip) -> bool {
    exists|i: int| 0 <= i < log.len() && (#[trigger] log[i]).0 == ip
}

/// The network took none of the probes for `ip`.
pub open spec fn none_taken(log: Seq<(Ip, Option<Seq<char>>)>, ip: Ip) -> bool {
    forall|i: int| 0 <= i < log.len() && (#[trigger] log[i]).0 == ip ==> log[i].1 is Some
}

/// An address carries an error exactly where probes for it were tried and the
/// network took none of them.
pub proof fn law_error_means_none_was_taken(log: Seq<(Ip, Option<Seq<char>>)>, ip: Ip)
    ensures
        send_error(sending_after(log, ip)) is Some <==> was_tried(log, ip) && none_taken(log, ip),
        sending_after(log, ip) is Untried <==> !was_tried(log, ip),
    decreases log.len(),
{
    if log.len() > 0 {
        let (before, last) = (log.drop_last(), log.last());
        law_error_means_none_was_taken(before, ip);
        assert(log[log.len() - 1] == last);
        assert forall|i: int| 0 <= i < before.len() implies log[i] == #[trigger] before[i] by {}
        assert(was_tried(log, ip) <==> was_tried(before, ip) || last.0 == ip) by {
            if was_tried(before, ip) {
                let i = choose|i: int| 0 <= i < before.len() && (#[trigger] before[i]).0 == ip;
                assert(log[i].0 == ip);
            }
            if was_tried(log, ip) && last.0 != ip {
                let i = choose|i: int| 0 <= i < log.len() && (#[trigger] log[i]).0 == ip;
                assert(before[i].0 == ip);
            }
        }
        assert(none_taken(log, ip) <==> none_taken(before, ip) && (last.0 == ip ==> last.1 is Some))
            by {
            if none_taken(log, ip) {
                assert forall|i: int|
                    0 <= i < before.len() && (#[trigger] before[i]).0 == ip implies before[i].1
                    is Some by {
                    assert(log[i].0 == ip);
                }
            }
            if none_taken(before, ip) && (last.0 == ip ==> last.1 is Some) {
                assert forall|i: int| 0 <= i < log.len() && (#[trigger] log[i]).0 == ip implies log[
                    i].1 is Some by {
                    if i < before.len() {
                        assert(before[i].0 == ip);
                    }
                }
            }
        }
    }
}

/// The probes in `log` are the attempts that the sending made.
pub open spec fn logs(log: Seq<(Ip, Option<Seq<char>>)>, attempts: Seq<Attempt>) -> bool {
    &&& log.len() == attempts.len()
    &&& forall|k: int|
        0 <= k < log.len() ==> (#[trigger] log[k]).0 == attempts[k].target && (log[k].1 is None
            <==> attempts[k].taken)
}

/// Whatever the network does: once the sending is done, an address carries an
/// error exactly where it is a target, there was a round, and the network took
/// none of the attempts for it.
pub proof fn law_refused_targets_carry_an_error(
    targets: Seq<Ip>,
    params: ScanParams,
    outcomes: Seq<bool>,
    log: Seq<(Ip, Option<Seq<char>>)>,
    ip: Ip,
)
    requires
        total_sends(targets, params) <= usize::MAX,
        state_after(targets, params, outcomes).stage is Done,
        logs(log, attempts_after(targets, params, outcomes)),
    ensures
        send_error(sending_after(log, ip)) is Some <==> targets.contains(ip) && params.rounds > 0
            && forall|k: int|
            0 <= k < log.len() && (#[trigger] attempts_after(targets, params, outcomes)[k]).target
                == ip ==> !attempts_after(targets, params, outcomes)[k].taken,
{
    let attempts = attempts_after(targets, params, outcomes);
    law_error_means_none_was_taken(log, ip);
    if targets.contains(ip) && params.rounds > 0 {
        let i = choose|i: int| 0 <= i < targets.len() && targets[i] == ip;
        law_every_target_is_attempted_in_every_round(targets, params, outcomes, 0, i);
        let k = choose|k: int|
            0 <= k < attempts.len() && is_attempt(#[trigger] attempts[k], 0, i);
        law_attempts_are_for_targets(targets, params, outcomes, k);
        assert(log[k].0 == ip);
    }
    if was_tried(log, ip) {
        let k = choose|k: int| 0 <= k < log.len() && (#[trigger] log[k]).0 == ip;
        law_attempts_are_for_targets(targets, params, outcomes, k);
        assert(attempts[k].target == ip);
    }
    if none_taken(log, ip) {
        assert forall|k: int| 0 <= k < log.len() && (
        #[trigger] attempts[k]).target == ip implies !attempts[k].taken by {
            assert(log[k].0 == ip);
        }
    }
    if forall|k: int|
        0 <= k < log.len() && (#[trigger] attempts[k]).target == ip ==> !attempts[k].taken {
        assert forall|k: int| 0 <= k < log.len() && (#[trigger] log[k]).0 == ip implies log[k].1
            is Some by {
            assert(attempts[k].target == ip);
        }
    }
}

/// What a scan reports of a target once the sending is done: an error exactly
/// where the network took none of the attempts for it, in no round; and the
/// router that was heard of last, so none where nothing answered.
pub proof fn law_refused_targets_are_reported(
    plan: ScanPlan,
    prefixes: Seq<Seq<char>>,
    params: ScanParams,
    outcomes: Seq<bool>,
    log: Seq<(Ip, Option<Seq<char>>)>,
    answers: Seq<(Ip, Ip)>,
    detected: Detected,
    f: Finding,
)
    requires
        plan.scans(prefixes),
        total_sends(plan.targets@, params) <= usize::MAX,
        state_after(plan.targets@, params, outcomes).stage is Done,
        logs(log, attempts_after(plan.targets@, params, outcomes)),
        detected.follows(log),
        detected.hears(answers),
        found(
            plan.targets@,
            |ip: Ip| plan.table.prefixes_at(ip),
            |ip: Ip| detected.router_of(ip),
            |ip: Ip| detected.error_of(ip),
        ).contains(f),
    ensures
        f.error is Some <==> params.rounds > 0 && forall|k: int|
            0 <= k < log.len() && (#[trigger] attempts_after(
                plan.targets@,
                params,
                outcomes,
            )[k]).target == f.target ==> !attempts_after(plan.targets@, params, outcomes)[k].taken,
        f.router == last_answer(answers, f.target),
        f.router is None <==> forall|k: int|
            0 <= k < answers.len() ==> (#[trigger] answers[k]).0 != f.target,
{
    lemma_found(
        plan.targets@,
        |ip: Ip| plan.table.prefixes_at(ip),
        |ip: Ip| detected.router_of(ip),
        |ip: Ip| detected.error_of(ip),
        f,
    );
    law_refused_targets_carry_an_error(plan.targets@, params, outcomes, log, f.target);
    assert(detected.sending_of(f.target) == sending_after(log, f.target));
    assert(detected.router_of(f.target) == last_answer(answers, f.target));
    law_last_answer_counts(answers, f.target);
}

/// The router that answered last for `ip`, given all answers in order: for whom
/// each was, and which router it came from.
pub open spec fn last_answer(answers: Seq<(Ip, Ip)>, ip: Ip) -> Option<Ip>
    decreases answers.len(),
{
    if answers.len() == 0 {
        None
    } else if answers.last().0 == ip {
        Some(answers.last().1)
    } else {
        last_answer(answers.drop_last(), ip)
    }
}

/// The last answer for an address is the one behind which no other is for it;
/// there is none exactly where no answer is for it.
pub proof fn law_last_answer_counts(answers: Seq<(Ip, Ip)>, ip: Ip)
    ensures
        last_answer(answers, ip) is None <==> forall|k: int|
            0 <= k < answers.len() ==> (#[trigger] answers[k]).0 != ip,
        last_answer(answers, ip) matches Some(router) ==> exists|k: int|
            0 <= k < answers.len() && #[trigger] answers[k] == (ip, router) && forall|j: int|
                k < j < answers.len() ==> (#[trigger] answers[j]).0 != ip,
    decreases answers.len(),
{
    if answers.len() > 0 {
        let (before, last) = (answers.drop_last(), answers.last());
        assert(answers[answers.len() - 1] == last);
        assert forall|k: int| 0 <= k < before.len() implies answers[k] == #[trigger] before[k] by {}
        if last.0 != ip {
            law_last_answer_counts(before, ip);
            if let Some(router) = last_answer(before, ip) {
                let k = choose|k: int|
                    0 <= k < before.len() && #[trigger] before[k] == (ip, router) && forall|j: int|
                        k < j < before.len() ==> (#[trigger] before[j]).0 != ip;
                assert(answers[k] == (ip, router));
                assert forall|j: int| k < j < answers.len() implies (#[trigger] answers[j]).0
                    != ip by {
                    if j < before.len() {
                        assert(before[j].0 != ip);
                    }
                }
            } else {
                assert forall|k: int| 0 <= k < answers.len() implies (#[trigger] answers[k]).0
                    != ip by {
                    if k < before.len() {
                        assert(before[k].0 != ip);
                    }
                }
            }
        }
    }
}

/// What is known of the targets so far: for each address, the router that
/// reported a loop last, and what became of the probes for it.
pub struct Detected {
    v4: BTreeMap<u32, Ip>,
    v6: BTreeMap<u128, Ip>,
    /// Nothing where a probe was taken, otherwise the last refusal.
    sent_v4: BTreeMap<u32, Option<String>>,
    sent_v6: BTreeMap<u128, Option<String>>,
}

/// What an entry on the probes for an address says.
spec fn noted(refused: Option<String>) -> Sending {
    match refused {
        None => Sending::Taken,
        Some(reason) => Sending::Refused(reason@),
    }
}

impl Detected {
    /// The router that reported a loop at `ip`, if one did.
    pub closed spec fn router_of(self, ip: Ip) -> Option<Ip> {
        match ip {
            Ip::V4(a) => if self.v4@.contains_key(a) {
                Some(self.v4@[a])
            } else {
                None
            },
            Ip::V6(a) => if self.v6@.contains_key(a) {
                Some(self.v6@[a])
            } else {
                None
            },
        }
    }

    /// What became of the probes for `ip`.
    pub closed spec fn sending_of(self, ip: Ip) -> Sending {
        match ip {
            Ip::V4(a) => if self.sent_v4@.contains_key(a) {
                noted(self.sent_v4@[a])
            } else {
                Sending::Untried
            },
            Ip::V6(a) => if self.sent_v6@.contains_key(a) {
                noted(self.sent_v6@[a])
            } else {
                Sending::Untried
            },
        }
    }

    /// What kept `ip` from being probed, if anything did.
    pub open spec fn error_of(self, ip: Ip) -> Option<Seq<char>> {
        send_error(self.sending_of(ip))
    }

    /// What is known of the probes is what `log` tells.
    pub open spec fn follows(self, log: Seq<(Ip, Option<Seq<char>>)>) -> bool {
        forall|ip: Ip| #[trigger] self.sending_of(ip) == sending_after(log, ip)
    }

    /// What is known of the answers is what `answers` tells: for every address,
    /// the router that answered last.
    pub open spec fn hears(self, answers: Seq<(Ip, Ip)>) -> bool {
        forall|ip: Ip| #[trigger] self.router_of(ip) == last_answer(answers, ip)
    }

    pub fn new() -> (r: Detected)
        ensures
            forall|ip: Ip| #[trigger] r.router_of(ip) is None,
            forall|ip: Ip| #[trigger] r.sending_of(ip) is Untried,
            r.follows(Seq::empty()),
            r.hears(Seq::empty()),
    {
        Detected {
            v4: BTreeMap::new(),
            v6: BTreeMap::new(),
            sent_v4: BTreeMap::new(),
            sent_v6: BTreeMap::new(),
        }
    }

    /// Notes that `router` reported a loop at `target`.
    pub fn record(&mut self, target: Ip, router: Ip)
        ensures
            forall|ip: Ip| #[trigger]
                final(self).router_of(ip) == if ip == target {
                    Some(router)
                } else {
                    old(self).router_of(ip)
                },
            forall|ip: Ip| #[trigger] final(self).sending_of(ip) == old(self).sending_of(ip),
            forall|answers: Seq<(Ip, Ip)>| #[trigger]
                old(self).hears(answers) ==> final(self).hears(answers.push((target, router))),
            forall|log: Seq<(Ip, Option<Seq<char>>)>| #[trigger]
                old(self).follows(log) ==> final(self).follows(log),
    {
        let ghost before = *self;
        match target {
            Ip::V4(a) => {
                self.v4.insert(a, router);
            },
            Ip::V6(a) => {
                self.v6.insert(a, router);
            },
        }
        proof {
            assert forall|answers: Seq<(Ip, Ip)>| #[trigger]
                before.hears(answers) implies self.hears(answers.push((target, router))) by {
                let next = answers.push((target, router));
                assert(next.drop_last() =~= answers);
                assert forall|ip: Ip| #[trigger] self.router_of(ip) == last_answer(next, ip) by {
                    assert(before.router_of(ip) == last_answer(answers, ip));
                }
            }
            assert forall|log: Seq<(Ip, Option<Seq<char>>)>| #[trigger]
                before.follows(log) implies self.follows(log) by {
                assert forall|ip: Ip| #[trigger] self.sending_of(ip) == sending_after(log, ip) by {
                    assert(before.sending_of(ip) == sending_after(log, ip));
                }
            }
        }
    }

    /// Notes what became of a probe for `target`, and tells whether the network
    /// took it.
    pub fn record_send(&mut self, target: Ip, outcome: Result<(), String>) -> (taken: bool)
        ensures
            taken == (outcome is Ok),
            forall|ip: Ip| #[trigger]
                final(self).sending_of(ip) == if ip == target {
                    after_send(old(self).sending_of(ip), refusal(outcome))
                } else {
                    old(self).sending_of(ip)
                },
            forall|ip: Ip| #[trigger] final(self).router_of(ip) == old(self).router_of(ip),
            forall|log: Seq<(Ip, Option<Seq<char>>)>| #[trigger]
                old(self).follows(log) ==> final(self).follows(
                    log.push((target, refusal(outcome))),
                ),
            forall|answers: Seq<(Ip, Ip)>| #[trigger]
                old(self).hears(answers) ==> final(self).hears(answers),
    {
        let ghost before = *self;
        let ghost reason = refusal(outcome);
        let taken = outcome.is_ok();
        if taken || !self.was_taken(target) {
            let refused = match outcome {
                Ok(_) => None,
                Err(reason) => Some(reason),
            };
            match target {
                Ip::V4(a) => {
                    self.sent_v4.insert(a, refused);
                },
                Ip::V6(a) => {
                    self.sent_v6.insert(a, refused);
                },
            }
        }
        proof {
            assert forall|log: Seq<(Ip, Option<Seq<char>>)>| #[trigger]
                before.follows(log) implies self.follows(log.push((target, reason))) by {
                let next = log.push((target, reason));
                assert(next.drop_last() =~= log);
                assert forall|ip: Ip| #[trigger] self.sending_of(ip) == sending_after(
                    next,
                    ip,
                ) by {
                    assert(before.sending_of(ip) == sending_after(log, ip));
                }
            }
            assert forall|answers: Seq<(Ip, Ip)>| #[trigger] before.hears(answers) implies self.hears(
                answers,
            ) by {
                assert forall|ip: Ip| #[trigger] self.router_of(ip) == last_answer(answers, ip) by {
                    assert(before.router_of(ip) == last_answer(answers, ip));
                }
            }
        }
        taken
    }

    /// Whether the network took a probe for `ip`.
    fn was_taken(&self, ip: Ip) -> (r: bool)
        ensures
            r == (self.sending_of(ip) is Taken),
    {
        let sent = match ip {
            Ip::V4(a) => self.sent_v4.get(&a),
            Ip::V6(a) => self.sent_v6.get(&a),
        };
        match sent {
            Some(None) => true,
            _ => false,
        }
    }

    /// The router that reported a loop at `ip`, if one did.
    pub fn get(&self, ip: Ip) -> (r: Option<Ip>)
        ensures
            r == self.router_of(ip),
    {
        let heard = match ip {
            Ip::V4(a) => self.v4.get(&a),
            Ip::V6(a) => self.v6.get(&a),
        };
        match heard {
            Some(router) => Some(*router),
            None => None,
        }
    }

    /// What kept `ip` from being probed, if anything did.
    pub fn error(&self, ip: Ip) -> (r: Option<String>)
        ensures
            match self.error_of(ip) {
                Some(text) => r matches Some(e) && e@ == text,
                None => r is None,
            },
    {
        let sent = match ip {
            Ip::V4(a) => self.sent_v4.get(&a),
            Ip::V6(a) => self.sent_v6.get(&a),
        };
        match sent {
            Some(Some(reason)) => Some(joined("Failed to send probe: ", reason.as_str())),
            _ => None,
        }
    }
}

/// Calls `rand::Rng::gen` on the thread's generator. The number is random;
/// nothing is promised of it.
#[verifier::external_body]
fn random_session_id() -> (r: u16) {
    rand::Rng::gen(&mut rand::thread_rng())
}

/// A scan that is ready to run.
pub struct ScanPlan {
    /// Identifies the probes of this scan.
    pub session_id: u16,
    /// The addresses to probe, in ascending order.
    pub targets: Vec<Ip>,
    /// What each of them is probed for.
    pub table: TargetTable,
    /// What cannot be probed.
    pub errors: Vec<LoopResult>,
}

impl ScanPlan {
    /// The targets are those of the table, in ascending order.
    pub open spec fn wf(self) -> bool {
        &&& self.table.wf()
        &&& ascending_ips(self.targets@)
        &&& forall|ip: Ip| #[trigger]
            self.targets@.contains(ip) <==> self.table.prefixes_at(ip).len() > 0
    }

    /// The plan is one of a scan of `prefixes`.
    pub open spec fn scans(self, prefixes: Seq<Seq<char>>) -> bool {
        &&& self.wf()
        &&& forall|ip: Ip| #[trigger] self.table.prefixes_at(ip) == covering(prefixes, ip)
        &&& findings(self.errors@) == unreadable(prefixes)
    }

    /// The loop that an IPv4 packet tells this scan of: the probed address and
    /// the router, where the address is one of the targets.
    pub open spec fn heard_v4(self, data: Seq<u8>) -> Option<(Ip, Ip)> {
        match loop_report_v4(data, self.session_id) {
            Some((target, router)) => if self.targets@.contains(Ip::V4(target)) {
                Some((Ip::V4(target), Ip::V4(router)))
            } else {
                None
            },
            None => None,
        }
    }

    /// The loop that an ICMPv6 message from the address `from` tells this scan
    /// of: the probed address and the router, where the address is one of the
    /// targets.
    pub open spec fn heard_v6(self, data: Seq<u8>, from: Option<Ip>) -> Option<(Ip, Ip)> {
        match loop_report_v6(data, ipv6_of(from), self.session_id) {
            Some((target, router)) => if self.targets@.contains(Ip::V6(target)) {
                Some((Ip::V6(target), Ip::V6(router)))
            } else {
                None
            },
            None => None,
        }
    }

    /// Plans a scan of `prefixes`, with probes that carry `session_id`.
    pub fn new(prefixes: &[String], session_id: u16) -> (r: ScanPlan)
        ensures
            r.scans(texts(prefixes@)),
            r.session_id == session_id,
            // An address that is given as a network of its own is probed; where only
            // such networks are given, nothing else is.
            forall|ip: Ip| #[trigger]
                texts(prefixes@).contains(host_prefix(ip)) ==> r.targets@.contains(ip),
            hosts_only(texts(prefixes@)) ==> forall|ip: Ip| #[trigger]
                r.targets@.contains(ip) ==> texts(prefixes@).contains(host_prefix(ip)),
    {
        let mut table = TargetTable::new();
        let mut errors: Vec<LoopResult> = Vec::new();
        let mut i: usize = 0;
        let ghost all = texts(prefixes@);
        assert(findings(errors@) =~= unreadable(all.take(0)));
        while i < prefixes.len()
            invariant
                i <= prefixes@.len(),
                all == texts(prefixes@),
                table.wf(),
                forall|ip: Ip| #[trigger]
                    table.prefixes_at(ip) == covering(all.take(i as int), ip),
                findings(errors@) == unreadable(all.take(i as int)),
                forall|j: int, ip: Ip|
                    0 <= j < i && #[trigger] all[j] == #[trigger] host_prefix(ip) ==> parsed_network(
                        all[j],
                    ) == Some(host_network(ip)),
            decreases prefixes@.len() - i,
        {
            let prefix = prefixes[i].as_str();
            let ghost before = errors@;
            assert(all.take(i + 1).drop_last() =~= all.take(i as int));
            assert(all.take(i + 1).last() == prefix@);
            match parse_network(prefix) {
                Ok(net) => {
                    table.add_network(net, prefix);
                },
                Err(e) => {
                    errors.push(
                        LoopResult {
                            prefix: prefix.to_owned(),
                            target_ip: Ip::V4(0),
                            router_ip: None,
                            error: Some(joined("Invalid prefix: ", e.as_str())),
                        },
                    );
                    assert(findings(errors@) =~= findings(before).push(unreadable_prefix(prefix@)));
                },
            }
            i = i + 1;
        }
        assert(all.take(i as int) =~= all);
        let targets = table.targets();
        proof {
            assert forall|ip: Ip| #[trigger] all.contains(host_prefix(ip)) implies targets@.contains(
                ip,
            ) by {
                let j = choose|j: int| 0 <= j < all.len() && all[j] == host_prefix(ip);
                lemma_host_is_probed(ip, ip);
                lemma_covering(all, ip, all[j]);
            }
            if hosts_only(all) {
                assert forall|ip: Ip| #[trigger] targets@.contains(ip) implies all.contains(
                    host_prefix(ip),
                ) by {
                    assert(table.prefixes_at(ip) == covering(all, ip));
                    let p = covering(all, ip)[0];
                    lemma_covering(all, ip, p);
                    let j = choose|j: int| 0 <= j < all.len() && all[j] == p;
                    let host = choose|host: Ip| all[j] == #[trigger] host_prefix(host);
                    lemma_host_is_probed(host, ip);
                }
            }
        }
        ScanPlan { session_id, targets, table, errors }
    }

    /// Plans a scan of `prefixes`, with probes that carry a random identifier.
    pub fn random(prefixes: &[String]) -> (r: ScanPlan)
        ensures
            r.scans(texts(prefixes@)),
            forall|ip: Ip| #[trigger]
                texts(prefixes@).contains(host_prefix(ip)) ==> r.targets@.contains(ip),
            hosts_only(texts(prefixes@)) ==> forall|ip: Ip| #[trigger]
                r.targets@.contains(ip) ==> texts(prefixes@).contains(host_prefix(ip)),
    {
        ScanPlan::new(prefixes, random_session_id())
    }

    /// What an IPv4 packet from the network tells this scan: the probed address
    /// and the router, where it reports a loop at one of the targets.
    pub fn loop_in_v4(&self, data: &[u8]) -> (r: Option<(Ip, Ip)>)
        requires
            self.wf(),
        ensures
            r == self.heard_v4(data@),
    {
        match parse_time_exceeded_v4(data, self.session_id) {
            Some((target, router)) => if self.table.contains(Ip::V4(target)) {
                Some((Ip::V4(target), Ip::V4(router)))
            } else {
                None
            },
            None => None,
        }
    }

    /// What an ICMPv6 message from the address `from` tells this scan: the
    /// probed address and the router, where it reports a loop at one of the
    /// targets.
    pub fn loop_in_v6(&self, data: &[u8], from: Option<Ip>) -> (r: Option<(Ip, Ip)>)
        requires
            self.wf(),
        ensures
            r == self.heard_v6(data@, from),
    {
        let sender = match from {
            Some(Ip::V6(a)) => Some(a),
            _ => None,
        };
        match parse_time_exceeded_v6(data, sender, self.session_id) {
            Some((target, router)) => if self.table.contains(Ip::V6(target)) {
                Some((Ip::V6(target), Ip::V6(router)))
            } else {
                None
            },
            None => None,
        }
    }

    /// What the scan found, given what it knows of its targets: first the
    /// prefixes that could not be probed, then every target in ascending order,
    /// once for each prefix that it was probed for.
    pub fn results(&self, detected: &Detected) -> (r: Vec<LoopResult>)
        ensures
            findings(r@) == findings(self.errors@) + found(
                self.targets@,
                |ip: Ip| self.table.prefixes_at(ip),
                |ip: Ip| detected.router_of(ip),
                |ip: Ip| detected.error_of(ip),
            ),
    {
        let ghost prefixes_at = |ip: Ip| self.table.prefixes_at(ip);
        let ghost router_of = |ip: Ip| detected.router_of(ip);
        let ghost error_of = |ip: Ip| detected.error_of(ip);
        let mut r: Vec<LoopResult> = Vec::new();
        let mut i: usize = 0;
        assert(findings(r@) =~= findings(self.errors@).take(0));
        while i < self.errors.len()
            invariant
                i <= self.errors@.len(),
                findings(r@) == findings(self.errors@).take(i as int),
            decreases self.errors@.len() - i,
        {
            let ghost before = r@;
            r.push(self.errors[i].clone());
            assert(findings(r@) =~= findings(before).push(self.errors@[i as int]@));
            i = i + 1;
            assert(findings(r@) =~= findings(self.errors@).take(i as int));
        }
        let mut i: usize = 0;
        assert(self.targets@.take(0) =~= Seq::empty());
        assert(findings(r@) =~= findings(self.errors@) + found(
            self.targets@.take(0),
            prefixes_at,
            router_of,
            error_of,
        ));
        while i < self.targets.len()
            invariant
                i <= self.targets@.len(),
                prefixes_at == (|ip: Ip| self.table.prefixes_at(ip)),
                router_of == (|ip: Ip| detected.router_of(ip)),
                error_of == (|ip: Ip| detected.error_of(ip)),
                findings(r@) == findings(self.errors@) + found(
                    self.targets@.take(i as int),
                    prefixes_at,
                    router_of,
                    error_of,
                ),
            decreases self.targets@.len() - i,
        {
            let ip = self.targets[i];
            let error = detected.error(ip);
            let router = detected.get(ip);
            let ghost base = findings(r@);
            let ghost rows = prefixes_at(ip).map_values(
                |p: Seq<char>| finding_at(p, ip, router_of(ip), error_of(ip)),
            );
            match self.table.get(ip) {
                Some(list) => {
                    let mut j: usize = 0;
                    assert(base =~= base + rows.take(0));
                    while j < list.len()
                        invariant
                            j <= list@.len(),
                            match error_of(ip) {
                                Some(text) => error matches Some(e) && e@ == text,
                                None => error is None,
                            },
                            router == router_of(ip),
                            texts(list@) == prefixes_at(ip),
                            rows == prefixes_at(ip).map_values(
                                |p: Seq<char>| finding_at(p, ip, router_of(ip), error_of(ip)),
                            ),
                            findings(r@) == base + rows.take(j as int),
                        decreases list@.len() - j,
                    {
                        let ghost before = r@;
                        assert(texts(list@)[j as int] == list@[j as int]@);
                        r.push(
                            LoopResult {
                                prefix: list[j].clone(),
                                target_ip: ip,
                                router_ip: router,
                                error: match &error {
                                    Some(e) => Some(e.clone()),
                                    None => None,
                                },
                            },
                        );
                        assert(findings(r@) =~= findings(before).push(rows[j as int]));
                        j = j + 1;
                        assert(findings(r@) =~= base + rows.take(j as int));
                    }
                    assert(rows.take(j as int) =~= rows);
                },
                None => {
                    assert(base =~= base + rows);
                },
            }
            assert(self.targets@.take(i + 1).drop_last() =~= self.targets@.take(i as int));
            assert(findings(r@) =~= findings(self.errors@) + found(
                self.targets@.take(i + 1),
                prefixes_at,
                router_of,
                error_of,
            ));
            i = i + 1;
        }
        assert(self.targets@.take(i as int) =~= self.targets@);
        r
    }
}

/// The address, where it is an IPv6 address.
pub open spec fn ipv6_of(ip: Option<Ip>) -> Option<u128> {
    match ip {
        Some(Ip::V6(a)) => Some(a),
        _ => None,
    }
}

/// Which addresses a scan probes: those that one of its prefixes, being a
/// network, has probed; each once, IPv4 before IPv6, in numeric order.
pub proof fn law_scan_probes_its_networks(plan: ScanPlan, prefixes: Seq<Seq<char>>, ip: Ip)
    requires
        plan.scans(prefixes),
    ensures
        plan.targets@.contains(ip) <==> exists|j: int|
            0 <= j < prefixes.len() && parsed_network(#[trigger] prefixes[j]) is Some && probes(
                parsed_network(prefixes[j])->Some_0,
                ip,
            ),
        forall|i: int, j: int|
            0 <= i < j < plan.targets@.len() ==> match (
                #[trigger] plan.targets@[i],
                #[trigger] plan.targets@[j],
            ) {
                (Ip::V4(a), Ip::V4(b)) => a < b,
                (Ip::V4(_), Ip::V6(_)) => true,
                (Ip::V6(_), Ip::V4(_)) => false,
                (Ip::V6(a), Ip::V6(b)) => a < b,
            },
{
    let here = covering(prefixes, ip);
    assert(plan.table.prefixes_at(ip) == here);
    if plan.targets@.contains(ip) {
        let p = here[0];
        lemma_covering(prefixes, ip, p);
        assert(here.contains(p));
        let j = choose|j: int| 0 <= j < prefixes.len() && prefixes[j] == p;
        assert(parsed_network(prefixes[j]) is Some);
    }
    if exists|j: int|
        0 <= j < prefixes.len() && parsed_network(#[trigger] prefixes[j]) is Some && probes(
            parsed_network(prefixes[j])->Some_0,
            ip,
        ) {
        let j = choose|j: int|
            0 <= j < prefixes.len() && parsed_network(#[trigger] prefixes[j]) is Some && probes(
                parsed_network(prefixes[j])->Some_0,
                ip,
            );
        assert(prefixes.contains(prefixes[j]));
        lemma_covering(prefixes, ip, prefixes[j]);
    }
    assert forall|i: int, j: int| 0 <= i < j < plan.targets@.len() implies match (
        #[trigger] plan.targets@[i],
        #[trigger] plan.targets@[j],
    ) {
        (Ip::V4(a), Ip::V4(b)) => a < b,
        (Ip::V4(_), Ip::V6(_)) => true,
        (Ip::V6(_), Ip::V4(_)) => false,
        (Ip::V6(a), Ip::V6(b)) => a < b,
    } by {
        assert(ip_lt(plan.targets@[i], plan.targets@[j]));
    }
}

/// Prefixes are taken one after the other: each that is a network has its
/// addresses probed, under itself, and each that is none is told of, once.
pub proof fn law_prefixes_one_by_one(
    a: Seq<Seq<char>>,
    b: Seq<Seq<char>>,
    prefix: Seq<char>,
    ip: Ip,
)
    ensures
        covering(a + b, ip) == covering(a, ip) + covering(b, ip),
        unreadable(a + b) == unreadable(a) + unreadable(b),
        parsed_network(prefix) matches Some(net) ==> covering(seq![prefix], ip) == if probes(
            net,
            ip,
        ) {
            seq![prefix]
        } else {
            Seq::empty()
        } && unreadable(seq![prefix]) == Seq::<Finding>::empty(),
        parsed_network(prefix) is None ==> covering(seq![prefix], ip) == Seq::<Seq<char>>::empty()
            && unreadable(seq![prefix]) == seq![
            Finding {
                prefix,
                target: Ip::V4(0),
                router: None,
                error: Some("Invalid prefix: "@ + ("invalid address: "@ + prefix)),
            },
        ],
    decreases b.len(),
{
    let one = seq![prefix];
    let none = Seq::<Seq<char>>::empty();
    assert(one.drop_last() =~= none);
    assert(covering(none, ip) =~= Seq::empty());
    assert(unreadable(none) =~= Seq::empty());
    if parsed_network(prefix) is None {
        assert(unreadable(one) =~= seq![unreadable_prefix(prefix)]);
    } else if probes(parsed_network(prefix)->Some_0, ip) {
        assert(covering(one, ip) =~= seq![prefix]);
    }
    if b.len() == 0 {
        assert(a + b =~= a);
        assert(covering(a, ip) + covering(b, ip) =~= covering(a, ip));
        assert(unreadable(a) + unreadable(b) =~= unreadable(a));
    } else {
        law_prefixes_one_by_one(a, b.drop_last(), prefix, ip);
        assert((a + b).drop_last() =~= a + b.drop_last());
        assert((a + b).last() == b.last());
        assert(covering(a + b, ip) =~= covering(a, ip) + covering(b, ip));
        assert(unreadable(a + b) =~= unreadable(a) + unreadable(b));
    }
}

/// Targets are reported one after the other: each once for every prefix that it
/// is probed for, in order, with the router that was heard of and the error, if
/// any.
pub proof fn law_targets_one_by_one(
    a: Seq<Ip>,
    b: Seq<Ip>,
    ip: Ip,
    prefixes_at: spec_fn(Ip) -> Seq<Seq<char>>,
    router_of: spec_fn(Ip) -> Option<Ip>,
    error_of: spec_fn(Ip) -> Option<Seq<char>>,
)
    ensures
        found(a + b, prefixes_at, router_of, error_of) == found(a, prefixes_at, router_of, error_of)
            + found(b, prefixes_at, router_of, error_of),
        found(seq![ip], prefixes_at, router_of, error_of).len() == prefixes_at(ip).len(),
        forall|k: int|
            0 <= k < prefixes_at(ip).len() ==> #[trigger] found(
                seq![ip],
                prefixes_at,
                router_of,
                error_of,
            )[k] == (Finding {
                prefix: prefixes_at(ip)[k],
                target: ip,
                router: router_of(ip),
                error: error_of(ip),
            }),
    decreases b.len(),
{
    let one = seq![ip];
    assert(one.drop_last() =~= Seq::empty());
    assert(found(Seq::empty(), prefixes_at, router_of, error_of) =~= Seq::empty());
    let rows = prefixes_at(ip).map_values(
        |p: Seq<char>| finding_at(p, ip, router_of(ip), error_of(ip)),
    );
    assert(found(one, prefixes_at, router_of, error_of) =~= rows);
    if b.len() == 0 {
        assert(a + b =~= a);
        assert(found(a, prefixes_at, router_of, error_of) + found(
            b,
            prefixes_at,
            router_of,
            error_of,
        ) =~= found(a, prefixes_at, router_of, error_of));
    } else {
        law_targets_one_by_one(a, b.drop_last(), ip, prefixes_at, router_of, error_of);
        assert((a + b).drop_last() =~= a + b.drop_last());
        assert((a + b).last() == b.last());
        assert(found(a + b, prefixes_at, router_of, error_of) =~= found(
            a,
            prefixes_at,
            router_of,
            error_of,
        ) + found(b, prefixes_at, router_of, error_of));
    }
}

/// What a scan tells of an address that no probe went out for: the reason that
/// the network gave last. Of any other address it tells no reason.
pub proof fn law_last_refusal_is_told(log: Seq<(Ip, Option<Seq<char>>)>, ip: Ip, k: int)
    ensures
        0 <= k < log.len() && log[k].0 == ip && (forall|j: int|
            k < j < log.len() ==> (#[trigger] log[j]).0 != ip) && (forall|j: int|
            0 <= j < log.len() && (#[trigger] log[j]).0 == ip ==> log[j].1 is Some) ==> send_error(
            sending_after(log, ip),
        ) == Some("Failed to send probe: "@ + log[k].1->Some_0),
        (exists|j: int| 0 <= j < log.len() && (#[trigger] log[j]).0 == ip && log[j].1 is None)
            ==> send_error(sending_after(log, ip)) is None,
        (forall|j: int| 0 <= j < log.len() ==> (#[trigger] log[j]).0 != ip) ==> send_error(
            sending_after(log, ip),
        ) is None,
    decreases log.len(),
{
    law_error_means_none_was_taken(log, ip);
    if log.len() > 0 {
        let before = log.drop_last();
        law_last_refusal_is_told(before, ip, k);
        law_error_means_none_was_taken(before, ip);
        assert(log.last() == log[log.len() - 1]);
        assert forall|j: int| 0 <= j < before.len() implies #[trigger] before[j] == log[j] by {}
        if 0 <= k < log.len() && log[k].0 == ip && (forall|j: int|
            0 <= j < log.len() && (#[trigger] log[j]).0 == ip ==> log[j].1 is Some) {
            assert(none_taken(before, ip)) by {
                assert forall|j: int|
                    0 <= j < before.len() && (#[trigger] before[j]).0 == ip implies before[j].1
                    is Some by {
                    assert(log[j].0 == ip);
                }
            }
        }
    }
}

/// A result is what it holds: its prefix, its address, its router and its error.
pub proof fn law_result_is_what_it_holds(r: LoopResult, outcome: Result<(), String>)
    ensures
        r@.prefix == r.prefix@,
        r@.target == r.target_ip,
        r@.router == r.router_ip,
        r.error matches Some(e) ==> r@.error == Some(e@),
        r.error is None ==> r@.error is None,
        outcome is Ok ==> refusal(outcome) is None,
        outcome matches Err(reason) ==> refusal(outcome) == Some(reason@),
{
}

} // verus!
