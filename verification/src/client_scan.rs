//! A client's scan, step by step: what to probe, what to probe again, and what
//! it comes to.
use vstd::prelude::*;
use vstd::utf8::encode_utf8;

use crate::checker::{findings, hosts_only, Detected, Finding, LoopResult};
use crate::ip::{address_text, host_prefix, ip_text, parse_ip, parsed_ip, Ip};
use crate::loops::{
    current_rows, found_row, kept, law_found_loops_are_kept, law_kept_one_by_one, law_previous_rows,
    law_rows_are_loops, previous_rows, saved_row,
};
use crate::records::{registered, saved, Client, ClientPrefix, Registered, Saved, SavedLoop};
use crate::report::{client_report, console_only, report_of, ClientScanReport, Report};
use crate::sender::ScanParams;
use crate::text::{joined, push_repeated, repeated, same_text, texts};

verus! {

/// What a client's report begins with.
pub open spec fn opening(name: Seq<char>, corporate_name: Seq<char>) -> Seq<char> {
    let header = "Checking client: "@ + name + " ("@ + corporate_name + ")"@;
    let rule = repeated('=', encode_utf8(header).len());
    rule + "\n"@ + header + "\n"@ + rule + "\n"@
}

/// What could not be probed, each on a line of its own.
pub open spec fn warnings(fs: Seq<Finding>) -> Seq<char>
    decreases fs.len(),
{
    if fs.len() == 0 {
        Seq::empty()
    } else {
        let f = fs.last();
        let before = warnings(fs.drop_last());
        match f.error {
            Some(e) => before + "Warning: Failed to check prefix "@ + f.prefix + " (target: "@
                + ip_text(f.target) + "): "@ + e + "\n"@,
            None => before,
        }
    }
}

/// Whether a loop was found at `ip`.
pub open spec fn detected(fs: Seq<Finding>, ip: Ip) -> bool {
    exists|i: int| 0 <= i < fs.len() && (#[trigger] fs[i]).target == ip && fs[i].router is Some
}

/// The kept addresses, as networks of their own, at which no loop was found.
pub open spec fn undetected(fs: Seq<Finding>, loops: Seq<Saved>) -> Seq<Seq<char>>
    decreases loops.len(),
{
    if loops.len() == 0 {
        Seq::empty()
    } else {
        let before = undetected(fs, loops.drop_last());
        match parsed_ip(loops.last().target) {
            Some(ip) => if detected(fs, ip) {
                before
            } else {
                before.push(host_prefix(ip))
            },
            None => before,
        }
    }
}

/// The prefix under which the address `target` was first kept.
pub open spec fn kept_prefix(loops: Seq<Saved>, target: Seq<char>) -> Option<Seq<char>>
    decreases loops.len(),
{
    if loops.len() == 0 {
        None
    } else if loops[0].target == target {
        Some(loops[0].prefix)
    } else {
        kept_prefix(loops.skip(1), target)
    }
}

/// A loop under the prefix that it was kept with.
pub open spec fn as_kept(f: Finding, loops: Seq<Saved>) -> Finding {
    Finding {
        prefix: match kept_prefix(loops, ip_text(f.target)) {
            Some(prefix) => prefix,
            None => f.prefix,
        },
        target: f.target,
        router: f.router,
        error: None,
    }
}

/// The loops among the findings of a second scan, under the prefixes that they
/// were kept with.
pub open spec fn confirmed(fs: Seq<Finding>, loops: Seq<Saved>) -> Seq<Finding>
    decreases fs.len(),
{
    if fs.len() == 0 {
        Seq::empty()
    } else {
        let f = fs.last();
        let before = confirmed(fs.drop_last(), loops);
        if f.router is Some {
            before.push(as_kept(f, loops))
        } else {
            before
        }
    }
}

/// Which addresses are probed again: those of the kept loops at which no loop
/// was found, and no others.
pub proof fn law_missing_loops_are_probed_again(
    fs: Seq<Finding>,
    loops: Seq<Saved>,
    prefix: Seq<char>,
)
    ensures
        undetected(fs, loops).contains(prefix) <==> exists|l: Saved, ip: Ip|
            loops.contains(l) && #[trigger] parsed_ip(l.target) == Some(ip) && !#[trigger] detected(
                fs,
                ip,
            ) && prefix == host_prefix(ip),
    decreases loops.len(),
{
    if loops.len() > 0 {
        let (before, last) = (loops.drop_last(), loops.last());
        law_missing_loops_are_probed_again(fs, before, prefix);
        let (now, then) = (undetected(fs, loops), undetected(fs, before));
        assert(loops[loops.len() - 1] == last);
        assert forall|l: Saved| before.contains(l) implies loops.contains(l) by {
            let i = choose|i: int| 0 <= i < before.len() && before[i] == l;
            assert(loops[i] == l);
        }
        assert forall|l: Saved| loops.contains(l) && l != last implies before.contains(l) by {
            let i = choose|i: int| 0 <= i < loops.len() && loops[i] == l;
            assert(before[i] == l);
        }
        if then.contains(prefix) {
            let i = choose|i: int| 0 <= i < then.len() && then[i] == prefix;
            assert(now[i] == prefix);
            let (l, ip) = choose|l: Saved, ip: Ip|
                before.contains(l) && #[trigger] parsed_ip(l.target) == Some(ip)
                    && !#[trigger] detected(fs, ip) && prefix == host_prefix(ip);
            assert(loops.contains(l));
        } else if now.contains(prefix) {
            let i = choose|i: int| 0 <= i < now.len() && now[i] == prefix;
            if i < then.len() {
                assert(then[i] == prefix);
            }
            let ip = parsed_ip(last.target)->Some_0;
            assert(loops.contains(last) && parsed_ip(last.target) == Some(ip) && !detected(fs, ip));
        }
        if exists|l: Saved, ip: Ip|
            loops.contains(l) && #[trigger] parsed_ip(l.target) == Some(ip) && !#[trigger] detected(
                fs,
                ip,
            ) && prefix == host_prefix(ip) {
            let (l, ip) = choose|l: Saved, ip: Ip|
                loops.contains(l) && #[trigger] parsed_ip(l.target) == Some(ip)
                    && !#[trigger] detected(fs, ip) && prefix == host_prefix(ip);
            if before.contains(l) {
                let i = choose|i: int| 0 <= i < then.len() && then[i] == prefix;
                assert(now[i] == prefix);
            } else {
                assert(l == last);
                assert(now[now.len() - 1] == prefix);
            }
        }
    }
}

/// What the second scan adds: for every loop that it found, the same loop under
/// the prefix that it was kept with, and nothing else.
pub proof fn law_confirmed_loops_count(fs: Seq<Finding>, loops: Seq<Saved>, g: Finding)
    ensures
        confirmed(fs, loops).contains(g) <==> exists|i: int|
            0 <= i < fs.len() && (#[trigger] fs[i]).router is Some && g == as_kept(fs[i], loops),
    decreases fs.len(),
{
    if fs.len() > 0 {
        let (before, last) = (fs.drop_last(), fs.last());
        let (now, then) = (confirmed(fs, loops), confirmed(before, loops));
        law_confirmed_loops_count(before, loops, g);
        assert(fs[fs.len() - 1] == last);
        if then.contains(g) {
            let i = choose|i: int|
                0 <= i < before.len() && (#[trigger] before[i]).router is Some && g == as_kept(
                    before[i],
                    loops,
                );
            assert(fs[i] == before[i]);
            let k = choose|k: int| 0 <= k < then.len() && then[k] == g;
            assert(now[k] == g);
        } else if now.contains(g) {
            let k = choose|k: int| 0 <= k < now.len() && now[k] == g;
            if k < then.len() {
                assert(then[k] == g);
            }
        }
        if exists|i: int|
            0 <= i < fs.len() && (#[trigger] fs[i]).router is Some && g == as_kept(fs[i], loops) {
            let i = choose|i: int|
                0 <= i < fs.len() && (#[trigger] fs[i]).router is Some && g == as_kept(fs[i], loops);
            if i < before.len() {
                assert(before[i] == fs[i]);
            } else {
                assert(now[now.len() - 1] == g);
            }
        }
    }
}

/// Writes what a client's report begins with.
fn write_opening(client: &Client) -> (r: String)
    ensures
        r@ == opening(client.name@, client.corporate_name@),
{
    let mut header = joined("Checking client: ", client.name.as_str());
    header.append(" (");
    header.append(client.corporate_name.as_str());
    header.append(")");
    let n = header.as_str().as_bytes().len();
    let mut r = String::new();
    push_repeated(&mut r, '=', n);
    assert(r@ =~= repeated('=', n as nat));
    r.append("\n");
    r.append(header.as_str());
    r.append("\n");
    push_repeated(&mut r, '=', n);
    r.append("\n");
    r
}

/// Appends what could not be probed.
fn push_warnings(out: &mut String, results: &Vec<LoopResult>)
    ensures
        final(out)@ == old(out)@ + warnings(findings(results@)),
{
    let ghost all = findings(results@);
    let ghost start = out@;
    let mut i: usize = 0;
    assert(out@ =~= start + warnings(all.take(0)));
    while i < results.len()
        invariant
            i <= results@.len(),
            all == findings(results@),
            out@ == start + warnings(all.take(i as int)),
        decreases results@.len() - i,
    {
        let result = &results[i];
        assert(all.take(i + 1).drop_last() =~= all.take(i as int));
        assert(all.take(i + 1).last() == result@);
        if let Some(e) = &result.error {
            out.append("Warning: Failed to check prefix ");
            out.append(result.prefix.as_str());
            out.append(" (target: ");
            out.append(address_text(result.target_ip).as_str());
            out.append("): ");
            out.append(e.as_str());
            out.append("\n");
            assert(out@ =~= start + warnings(all.take(i + 1)));
        }
        i = i + 1;
    }
    assert(all.take(i as int) =~= all);
}

/// The address as a network of its own.
fn write_host_prefix(ip: Ip) -> (r: String)
    ensures
        r@ == host_prefix(ip),
{
    let mut r = address_text(ip);
    match ip {
        Ip::V4(_) => r.append("/32"),
        Ip::V6(_) => r.append("/128"),
    }
    r
}

/// The kept addresses, as networks of their own, at which the scan found no
/// loop.
pub fn prefixes_to_confirm(results: &Vec<LoopResult>, previous: &Vec<SavedLoop>) -> (r: Vec<String>)
    ensures
        texts(r@) == undetected(findings(results@), saved(previous@)),
        hosts_only(texts(r@)),
{
    let ghost all = findings(results@);
    let mut seen = Detected::new();
    let mut i: usize = 0;
    while i < results.len()
        invariant
            i <= results@.len(),
            all == findings(results@),
            forall|ip: Ip| #[trigger]
                seen.router_of(ip) is Some <==> detected(all.take(i as int), ip),
        decreases results@.len() - i,
    {
        let result = &results[i];
        let ghost (done, next) = (all.take(i as int), all.take(i + 1));
        assert(next =~= done.push(result@));
        proof {
            assert forall|ip: Ip| detected(next, ip) <==> detected(done, ip) || (result@.target == ip
                && result@.router is Some) by {
                if detected(done, ip) {
                    let k = choose|k: int|
                        0 <= k < done.len() && (#[trigger] done[k]).target == ip
                            && done[k].router is Some;
                    assert(next[k] == done[k]);
                }
                if detected(next, ip) {
                    let k = choose|k: int|
                        0 <= k < next.len() && (#[trigger] next[k]).target == ip
                            && next[k].router is Some;
                    if k < i {
                        assert(done[k] == next[k]);
                    }
                }
                assert(next[i as int] == result@);
            }
        }
        if let Some(router) = result.router_ip {
            seen.record(result.target_ip, router);
        }
        i = i + 1;
    }
    assert(all.take(i as int) =~= all);
    let ghost kept_loops = saved(previous@);
    let mut r: Vec<String> = Vec::new();
    let mut j: usize = 0;
    assert(texts(r@) =~= undetected(all, kept_loops.take(0)));
    while j < previous.len()
        invariant
            j <= previous@.len(),
            kept_loops == saved(previous@),
            forall|ip: Ip| #[trigger] seen.router_of(ip) is Some <==> detected(all, ip),
            texts(r@) == undetected(all, kept_loops.take(j as int)),
        decreases previous@.len() - j,
    {
        assert(kept_loops.take(j + 1).drop_last() =~= kept_loops.take(j as int));
        assert(kept_loops.take(j + 1).last() == previous@[j as int]@);
        if let Some(ip) = parse_ip(previous[j].target_ip.as_str()) {
            if seen.get(ip).is_none() {
                let ghost before = r@;
                r.push(write_host_prefix(ip));
                assert(texts(r@) =~= texts(before).push(host_prefix(ip)));
            }
        }
        j = j + 1;
    }
    assert(kept_loops.take(j as int) =~= kept_loops);
    proof {
        let list = texts(r@);
        assert forall|k: int| 0 <= k < list.len() implies exists|host: Ip| #[trigger]
            list[k] == #[trigger] host_prefix(host) by {
            law_missing_loops_are_probed_again(all, kept_loops, list[k]);
            assert(undetected(all, kept_loops).contains(list[k]));
        }
    }
    r
}

/// The prefix under which the address `target` was first kept; otherwise
/// `unkept`.
fn prefix_of_kept(previous: &Vec<SavedLoop>, target: &str, unkept: &str) -> (r: String)
    ensures
        r@ == match kept_prefix(saved(previous@), target@) {
            Some(prefix) => prefix,
            None => unkept@,
        },
{
    let ghost all = saved(previous@);
    let mut i: usize = 0;
    assert(all.skip(0) =~= all);
    while i < previous.len()
        invariant
            i <= previous@.len(),
            all == saved(previous@),
            kept_prefix(all, target@) == kept_prefix(all.skip(i as int), target@),
        decreases previous@.len() - i,
    {
        assert(all.skip(i as int)[0] == previous@[i as int]@);
        assert(all.skip(i as int).skip(1) =~= all.skip(i + 1));
        if same_text(previous[i].target_ip.as_str(), target) {
            return previous[i].prefix.clone();
        }
        i = i + 1;
    }
    unkept.to_owned()
}

/// Adds the loops that a second scan found to the results, under the prefixes
/// that they were kept with.
pub fn add_confirmed(
    results: &mut Vec<LoopResult>,
    again: &Vec<LoopResult>,
    previous: &Vec<SavedLoop>,
)
    ensures
        findings(final(results)@) == findings(old(results)@) + confirmed(
            findings(again@),
            saved(previous@),
        ),
{
    let ghost start = findings(results@);
    let ghost all = findings(again@);
    let ghost loops = saved(previous@);
    let mut i: usize = 0;
    assert(findings(results@) =~= start + confirmed(all.take(0), loops));
    while i < again.len()
        invariant
            i <= again@.len(),
            all == findings(again@),
            loops == saved(previous@),
            findings(results@) == start + confirmed(all.take(i as int), loops),
        decreases again@.len() - i,
    {
        let result = &again[i];
        assert(all.take(i + 1).drop_last() =~= all.take(i as int));
        assert(all.take(i + 1).last() == result@);
        if result.router_ip.is_some() {
            let target = address_text(result.target_ip);
            let ghost before = results@;
            results.push(
                LoopResult {
                    prefix: prefix_of_kept(previous, target.as_str(), result.prefix.as_str()),
                    target_ip: result.target_ip,
                    router_ip: result.router_ip,
                    error: None,
                },
            );
            assert(findings(results@) =~= findings(before).push(results@.last()@));
            assert(findings(results@) =~= start + confirmed(all.take(i + 1), loops));
        }
        i = i + 1;
    }
    assert(all.take(i as int) =~= all);
}

/// The prefixes of a client's networks, in order.
pub open spec fn prefix_texts(prefixes: Seq<Registered>) -> Seq<Seq<char>> {
    prefixes.map_values(|p: Registered| p.prefix)
}

/// A client's scan under way.
pub struct ClientScan {
    pub client: Client,
    pub prefixes: Vec<ClientPrefix>,
    /// The loops that the scan before kept.
    pub previous: Vec<SavedLoop>,
    /// What was said so far.
    pub console: String,
    /// What was found so far.
    pub results: Vec<LoopResult>,
}

/// What a client's scan needs next.
pub enum ScanStep {
    /// To probe these prefixes.
    Scan(ClientScan, Vec<String>),
    /// To probe these prefixes again, slowly.
    Confirm(ClientScan, Vec<String>),
    /// Nothing: this is what it comes to.
    Done(ClientScanReport),
}

/// The pace at which addresses are probed again: slow enough for a router that
/// limits the rate of its answers.
pub fn confirm_params() -> (r: ScanParams)
    ensures
        r == (ScanParams {
            ipv4_delay_ms: 10,
            ipv6_delay_us: 1000,
            rounds: 3,
            round_delay_ms: 2000,
        }),
{
    ScanParams { ipv4_delay_ms: 10, ipv6_delay_us: 1000, rounds: 3, round_delay_ms: 2000 }
}

/// The report of a scan that did not take place.
fn report_without_scan(client: Client, console: String) -> (r: ClientScanReport)
    ensures
        r.client == client,
        r@ == console_only(console@),
{
    let r = ClientScanReport {
        client,
        saved_loops: Vec::new(),
        console_output: console,
        email_attachments: Vec::new(),
        email_subject: String::new(),
        email_body: String::new(),
        total_loops: 0,
        has_changes: false,
    };
    assert(r@.kept =~= Seq::empty());
    assert(r@.files =~= Seq::empty());
    assert(r@.subject =~= Seq::empty() && r@.body =~= Seq::empty());
    r
}

impl ClientScan {
    /// What was found so far, together with `more`, makes this report.
    pub open spec fn report_with(self, more: Seq<Finding>) -> Report {
        report_of(
            self.client.corporate_name@,
            registered(self.prefixes@),
            saved(self.previous@),
            findings(self.results@) + more,
            self.console@,
        )
    }

    /// Begins the scan of a client. Without a network there is nothing to scan.
    pub fn begin(
        client: Client,
        prefixes: Vec<ClientPrefix>,
        previous: Vec<SavedLoop>,
    ) -> (r: ScanStep)
        ensures
            prefixes@.len() == 0 ==> (r matches ScanStep::Done(report) && report.client == client
                && report@ == console_only(
                opening(client.name@, client.corporate_name@)
                    + "No prefixes registered for this client.\n"@,
            )),
            prefixes@.len() > 0 ==> (r matches ScanStep::Scan(scan, list) && scan.client == client
                && scan.prefixes == prefixes && scan.previous == previous && scan.console@
                == opening(client.name@, client.corporate_name@) && findings(scan.results@)
                == Seq::<Finding>::empty() && texts(list@) == prefix_texts(
                registered(prefixes@),
            )),
    {
        let mut console = write_opening(&client);
        if prefixes.len() == 0 {
            console.append("No prefixes registered for this client.\n");
            return ScanStep::Done(report_without_scan(client, console));
        }
        let ghost all = prefix_texts(registered(prefixes@));
        let mut list: Vec<String> = Vec::new();
        let mut i: usize = 0;
        assert(texts(list@) =~= all.take(0));
        while i < prefixes.len()
            invariant
                i <= prefixes@.len(),
                all == prefix_texts(registered(prefixes@)),
                texts(list@) == all.take(i as int),
            decreases prefixes@.len() - i,
        {
            let ghost before = list@;
            list.push(prefixes[i].prefix.clone());
            assert(texts(list@) =~= texts(before).push(all[i as int]));
            i = i + 1;
            assert(texts(list@) =~= all.take(i as int));
        }
        assert(all.take(i as int) =~= all);
        let results: Vec<LoopResult> = Vec::new();
        assert(findings(results@) =~= Seq::<Finding>::empty());
        ScanStep::Scan(ClientScan { client, prefixes, previous, console, results }, list)
    }

    /// Goes on with what the scan found, or with what kept it from running.
    /// Where loops that were kept are not found again, their addresses are
    /// probed once more before the loops count as resolved.
    pub fn after_scan(self, outcome: Result<Vec<LoopResult>, String>) -> (r: ScanStep)
        ensures
            outcome matches Err(e) ==> (r matches ScanStep::Done(report) && report.client
                == self.client && report@ == console_only(
                self.console@ + "Error running scan: "@ + e@ + "\n"@,
            )),
            outcome matches Ok(results) ==> {
                let fs = findings(results@);
                let again = undetected(fs, saved(self.previous@));
                if again.len() == 0 {
                    r matches ScanStep::Done(report) && report.client == self.client && report@
                        == report_of(
                        self.client.corporate_name@,
                        registered(self.prefixes@),
                        saved(self.previous@),
                        fs,
                        self.console@ + warnings(fs),
                    )
                } else {
                    r matches ScanStep::Confirm(scan, list) && scan.client == self.client
                        && scan.prefixes == self.prefixes && scan.previous == self.previous
                        && scan.results == results && scan.console@ == self.console@ + warnings(fs)
                        && texts(list@) == again
                }
            },
            outcome matches Ok(results) ==> (r is Confirm <==> is_missing_some(
                findings(results@),
                saved(self.previous@),
            )),
    {
        let ClientScan { client, prefixes, previous, console, results: _ } = self;
        let mut console = console;
        match outcome {
            Err(e) => {
                console.append("Error running scan: ");
                console.append(e.as_str());
                console.append("\n");
                ScanStep::Done(report_without_scan(client, console))
            },
            Ok(results) => {
                push_warnings(&mut console, &results);
                let again = prefixes_to_confirm(&results, &previous);
                assert(texts(again@).len() == again@.len());
                proof {
                    law_something_is_probed_again(findings(results@), saved(previous@));
                }
                if again.len() == 0 {
                    ScanStep::Done(
                        client_report(client, &prefixes, &previous, &results, console.as_str()),
                    )
                } else {
                    ScanStep::Confirm(
                        ClientScan { client, prefixes, previous, console, results },
                        again,
                    )
                }
            },
        }
    }

    /// Ends with what the second scan found; one that could not run found
    /// nothing.
    pub fn after_confirm(self, outcome: Result<Vec<LoopResult>, String>) -> (r: ClientScanReport)
        ensures
            r.client == self.client,
            outcome matches Ok(again) ==> r@ == self.report_with(
                confirmed(findings(again@), saved(self.previous@)),
            ),
            outcome is Err ==> r@ == self.report_with(Seq::empty()),
    {
        let ClientScan { client, prefixes, previous, console, results } = self;
        let mut results = results;
        let ghost first = findings(results@);
        assert(first + Seq::<Finding>::empty() =~= first);
        if let Ok(again) = &outcome {
            add_confirmed(&mut results, again, &previous);
        }
        client_report(client, &prefixes, &previous, &results, console.as_str())
    }
}

/// `j` is where the address `target` was first kept.
pub open spec fn first_kept_at(loops: Seq<Saved>, target: Seq<char>, j: int) -> bool {
    &&& 0 <= j < loops.len()
    &&& loops[j].target == target
    &&& forall|k: int| 0 <= k < j ==> (#[trigger] loops[k]).target != target
}

proof fn lemma_kept_prefix(loops: Seq<Saved>, target: Seq<char>, j: int)
    ensures
        first_kept_at(loops, target, j) ==> kept_prefix(loops, target) == Some(loops[j].prefix),
        (forall|k: int| 0 <= k < loops.len() ==> (#[trigger] loops[k]).target != target)
            ==> kept_prefix(loops, target) is None,
    decreases loops.len(),
{
    if loops.len() > 0 && loops[0].target != target {
        let rest = loops.skip(1);
        lemma_kept_prefix(rest, target, j - 1);
        assert forall|k: int| 0 <= k < rest.len() implies #[trigger] rest[k] == loops[k + 1] by {}
    }
}

/// Where a loop of the second scan goes: for every finding with a router, in
/// order, the results gain one with the same address and the same router, under
/// the prefix that the address was first kept with, and under its own prefix
/// where it was not kept at all. That is so for both families.
pub proof fn law_confirmed_loops_go_back(fs: Seq<Finding>, loops: Seq<Saved>)
    ensures
        ({
            let heard = fs.filter(|f: Finding| f.router is Some);
            let added = confirmed(fs, loops);
            &&& added.len() == heard.len()
            &&& forall|k: int|
                0 <= k < added.len() ==> {
                    &&& (#[trigger] added[k]).target == heard[k].target
                    &&& added[k].router == heard[k].router
                    &&& added[k].error is None
                    &&& forall|j: int| #[trigger]
                        first_kept_at(loops, ip_text(heard[k].target), j) ==> added[k].prefix
                            == loops[j].prefix
                    &&& (forall|j: int|
                        0 <= j < loops.len() ==> (#[trigger] loops[j]).target != ip_text(
                            heard[k].target,
                        )) ==> added[k].prefix == heard[k].prefix
                }
        }),
    decreases fs.len(),
{
    reveal(Seq::filter);
    let heard = fs.filter(|f: Finding| f.router is Some);
    let added = confirmed(fs, loops);
    if fs.len() > 0 {
        let before = fs.drop_last();
        law_confirmed_loops_go_back(before, loops);
        let then = confirmed(before, loops);
        let heard_then = before.filter(|f: Finding| f.router is Some);
        let f = fs.last();
        if f.router is Some {
            assert(heard == heard_then.push(f));
            assert forall|k: int| 0 <= k < added.len() implies {
                &&& (#[trigger] added[k]).target == heard[k].target
                &&& added[k].router == heard[k].router
                &&& added[k].error is None
                &&& forall|j: int| #[trigger]
                    first_kept_at(loops, ip_text(heard[k].target), j) ==> added[k].prefix
                        == loops[j].prefix
                &&& (forall|j: int|
                    0 <= j < loops.len() ==> (#[trigger] loops[j]).target != ip_text(
                        heard[k].target,
                    )) ==> added[k].prefix == heard[k].prefix
            } by {
                if k < then.len() {
                    assert(added[k] == then[k]);
                    assert(heard[k] == heard_then[k]);
                } else {
                    assert(added[k] == as_kept(f, loops));
                    assert(heard[k] == f);
                    lemma_kept_prefix(loops, ip_text(f.target), 0);
                    assert forall|j: int| #[trigger]
                        first_kept_at(loops, ip_text(f.target), j) implies added[k].prefix
                        == loops[j].prefix by {
                        lemma_kept_prefix(loops, ip_text(f.target), j);
                    }
                }
            }
        } else {
            assert(heard == heard_then);
        }
    }
}

/// A kept loop that the second scan confirms with the router that it was kept
/// with is kept again, as it was, and shown in the row that it was shown in
/// before: it does not count as resolved.
pub proof fn law_confirmed_loop_is_kept_again(
    scan: ClientScan,
    again: Seq<Finding>,
    i: int,
    j: int,
)
    requires
        0 <= i < again.len(),
        again[i].router is Some,
        first_kept_at(saved(scan.previous@), ip_text(again[i].target), j),
        saved(scan.previous@)[j].router == ip_text(again[i].router->Some_0),
    ensures
        ({
            let loops = saved(scan.previous@);
            let prefixes = registered(scan.prefixes@);
            let all = findings(scan.results@) + confirmed(again, loops);
            &&& scan.report_with(confirmed(again, loops)).kept.contains(loops[j])
            &&& kept(all).contains(loops[j])
            &&& parsed_ip(loops[j].target) == Some(again[i].target) ==> exists|row: Seq<Seq<char>>|
                #[trigger] current_rows(prefixes, all).contains(row) && previous_rows(
                    prefixes,
                    loops,
                ).contains(row) && row[1] == loops[j].router && row[3] == loops[j].target
        }),
{
    let loops = saved(scan.previous@);
    let prefixes = registered(scan.prefixes@);
    let added = confirmed(again, loops);
    let all = findings(scan.results@) + added;
    let g = as_kept(again[i], loops);
    lemma_kept_prefix(loops, ip_text(again[i].target), j);
    law_confirmed_loops_count(again, loops, g);
    assert(added.contains(g));
    let k = choose|k: int| 0 <= k < added.len() && added[k] == g;
    let n = findings(scan.results@).len() as int;
    assert(all[n + k] == g);
    law_found_loops_are_kept(all, loops[j]);
    assert(all[n + k].router is Some);
    let row = found_row(prefixes, g, g.router->Some_0);
    law_rows_are_loops(prefixes, all, row);
    law_previous_rows(prefixes, loops, row);
    if parsed_ip(loops[j].target) == Some(again[i].target) {
        assert(row == saved_row(prefixes, loops[j]));
        assert(current_rows(prefixes, all).contains(row));
    }
}

/// What is probed again: every kept address, in order, that is an address and at
/// which no finding has a router; each as a network that holds nothing else.
pub proof fn law_missing_addresses_are_probed_again(fs: Seq<Finding>, loops: Seq<Saved>)
    ensures
        ({
            let missing = loops.filter(
                |l: Saved|
                    parsed_ip(l.target) is Some && forall|i: int|
                        0 <= i < fs.len() && (#[trigger] fs[i]).target == parsed_ip(
                            l.target,
                        )->Some_0 ==> fs[i].router is None,
            );
            &&& undetected(fs, loops).len() == missing.len()
            &&& forall|k: int|
                0 <= k < missing.len() ==> #[trigger] undetected(fs, loops)[k] == match parsed_ip(
                    missing[k].target,
                )->Some_0 {
                    Ip::V4(a) => ip_text(Ip::V4(a)) + "/32"@,
                    Ip::V6(a) => ip_text(Ip::V6(a)) + "/128"@,
                }
        }),
    decreases loops.len(),
{
    reveal(Seq::filter);
    let p = |l: Saved|
        parsed_ip(l.target) is Some && forall|i: int|
            0 <= i < fs.len() && (#[trigger] fs[i]).target == parsed_ip(l.target)->Some_0
                ==> fs[i].router is None;
    let missing = loops.filter(p);
    if loops.len() > 0 {
        let before = loops.drop_last();
        let l = loops.last();
        law_missing_addresses_are_probed_again(fs, before);
        let (now, then) = (undetected(fs, loops), undetected(fs, before));
        let missing_then = before.filter(p);
        if p(l) {
            let ip = parsed_ip(l.target)->Some_0;
            assert(!detected(fs, ip));
            assert(now == then.push(host_prefix(ip)));
            assert(missing == missing_then.push(l));
            assert forall|k: int| 0 <= k < missing.len() implies #[trigger] now[k]
                == match parsed_ip(missing[k].target)->Some_0 {
                Ip::V4(a) => ip_text(Ip::V4(a)) + "/32"@,
                Ip::V6(a) => ip_text(Ip::V6(a)) + "/128"@,
            } by {
                if k < then.len() {
                    assert(now[k] == then[k] && missing[k] == missing_then[k]);
                }
            }
        } else {
            assert(missing == missing_then);
            if parsed_ip(l.target) is Some {
                assert(detected(fs, parsed_ip(l.target)->Some_0));
            }
            assert(now == then);
        }
    }
}

/// One of the kept addresses is an address at which no finding has a router.
pub open spec fn is_missing_some(fs: Seq<Finding>, loops: Seq<Saved>) -> bool {
    exists|k: int|
        0 <= k < loops.len() && parsed_ip((#[trigger] loops[k]).target) is Some && forall|i: int|
            0 <= i < fs.len() && (#[trigger] fs[i]).target == parsed_ip(loops[k].target)->Some_0
                ==> fs[i].router is None
}

/// A second scan is due exactly where a kept loop is missing, be it one or many.
pub proof fn law_something_is_probed_again(fs: Seq<Finding>, loops: Seq<Saved>)
    ensures
        undetected(fs, loops).len() > 0 <==> is_missing_some(fs, loops),
{
    let list = undetected(fs, loops);
    if list.len() > 0 {
        law_missing_loops_are_probed_again(fs, loops, list[0]);
        assert(list.contains(list[0]));
        let (l, ip) = choose|l: Saved, ip: Ip|
            loops.contains(l) && #[trigger] parsed_ip(l.target) == Some(ip) && !#[trigger] detected(
                fs,
                ip,
            ) && list[0] == host_prefix(ip);
        let k = choose|k: int| 0 <= k < loops.len() && loops[k] == l;
        assert forall|i: int|
            0 <= i < fs.len() && (#[trigger] fs[i]).target == parsed_ip(
                loops[k].target,
            )->Some_0 implies fs[i].router is None by {
            assert(!detected(fs, ip));
        }
        assert(loops[k].target == l.target);
    }
    if is_missing_some(fs, loops) {
        let k = choose|k: int|
            0 <= k < loops.len() && parsed_ip((#[trigger] loops[k]).target) is Some && forall|
                i: int,
            |
                0 <= i < fs.len() && (#[trigger] fs[i]).target == parsed_ip(
                    loops[k].target,
                )->Some_0 ==> fs[i].router is None;
        let ip = parsed_ip(loops[k].target)->Some_0;
        assert(!detected(fs, ip));
        law_missing_loops_are_probed_again(fs, loops, host_prefix(ip));
        assert(loops.contains(loops[k]) && parsed_ip(loops[k].target) == Some(ip) && !detected(
            fs,
            ip,
        ));
        assert(list.contains(host_prefix(ip)));
    }
}

/// What could not be probed is told of, one finding after the other: its prefix,
/// its address and the reason, on a line of its own; of any other finding nothing
/// is said.
pub proof fn law_warnings_one_by_one(a: Seq<Finding>, b: Seq<Finding>, f: Finding)
    ensures
        warnings(a + b) == warnings(a) + warnings(b),
        f.error matches Some(e) ==> warnings(seq![f]) == "Warning: Failed to check prefix "@
            + f.prefix + " (target: "@ + ip_text(f.target) + "): "@ + e + "\n"@,
        f.error is None ==> warnings(seq![f]) == Seq::<char>::empty(),
        warnings(Seq::empty()) == Seq::<char>::empty(),
    decreases b.len(),
{
    let one = seq![f];
    assert(one.drop_last() =~= Seq::empty());
    assert(warnings(Seq::empty()) =~= Seq::empty());
    if let Some(e) = f.error {
        let none = Seq::<char>::empty();
        assert(none + "Warning: Failed to check prefix "@ =~= "Warning: Failed to check prefix "@);
    }
    if b.len() == 0 {
        assert(a + b =~= a);
        assert(warnings(a) + warnings(b) =~= warnings(a));
    } else {
        law_warnings_one_by_one(a, b.drop_last(), f);
        assert((a + b).drop_last() =~= a + b.drop_last());
        assert((a + b).last() == b.last());
        assert(warnings(a + b) =~= warnings(a) + warnings(b));
    }
}

/// What a client's report begins with: who is checked, between two rules as long
/// as that line is in bytes.
pub proof fn law_opening_names_the_client(name: Seq<char>, corporate_name: Seq<char>)
    ensures
        exists|rule: Seq<char>|
            opening(name, corporate_name) == #[trigger] (rule + "\nChecking client: "@) + name
                + " ("@ + corporate_name + ")\n"@ + rule + "\n"@ && rule.len() == encode_utf8(
                "Checking client: "@ + name + " ("@ + corporate_name + ")"@,
            ).len() && forall|i: int| 0 <= i < rule.len() ==> rule[i] == '=',
{
    let header = "Checking client: "@ + name + " ("@ + corporate_name + ")"@;
    let rule = repeated('=', encode_utf8(header).len());
    reveal_strlit("\n");
    reveal_strlit("Checking client: ");
    reveal_strlit("\nChecking client: ");
    reveal_strlit(")");
    reveal_strlit(")\n");
    assert("\nChecking client: "@ =~= "\n"@ + "Checking client: "@);
    assert(")\n"@ =~= ")"@ + "\n"@);
    assert(opening(name, corporate_name) =~= (rule + "\nChecking client: "@) + name + " ("@
        + corporate_name + ")\n"@ + rule + "\n"@);
}

/// What is scanned first is every network of the client, in the order of the
/// entries; and what a scan comes to takes in all that it found, and then more.
pub proof fn law_scan_takes_in_everything(
    scan: ClientScan,
    prefixes: Seq<Registered>,
    more: Seq<Finding>,
)
    ensures
        prefix_texts(prefixes).len() == prefixes.len(),
        forall|i: int|
            0 <= i < prefixes.len() ==> #[trigger] prefix_texts(prefixes)[i] == prefixes[i].prefix,
        scan.report_with(more) == report_of(
            scan.client.corporate_name@,
            registered(scan.prefixes@),
            saved(scan.previous@),
            findings(scan.results@) + more,
            scan.console@,
        ),
        scan.report_with(more).kept == kept(findings(scan.results@)) + kept(more),
{
    if more.len() > 0 {
        law_kept_one_by_one(findings(scan.results@), more, more[0]);
    } else {
        assert(findings(scan.results@) + more =~= findings(scan.results@));
        assert(kept(more) =~= Seq::empty());
        assert(kept(findings(scan.results@)) + kept(more) =~= kept(findings(scan.results@)));
    }
}

} // verus!
