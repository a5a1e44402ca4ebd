//! The loops of a scan, and those of the one before, by system, router and block.
use vstd::prelude::*;

use crate::checker::{findings, Finding, LoopResult};
use crate::groups::{hit_row, Hit};
use crate::ip::{
    address_text, ip_text, lemma_address_chars, parse_ip, parsed_ip, parsed_network, Ip,
};
use crate::lines::{are_plain, is_plain};
use crate::order::{OrderedSet, Row};
use crate::records::{
    asn_of, label_of, registered, saved, ClientPrefix, Registered, Saved, SavedLoop,
};
use crate::targets::{get_ipv6_subblock, sub_block_text};

verus! {

/// A loop as a row: its system, its router, its block and its address.
pub open spec fn found_row(prefixes: Seq<Registered>, f: Finding, router: Ip) -> Seq<Seq<char>> {
    hit_row(
        label_of(prefixes, f.prefix),
        ip_text(router),
        sub_block_text(f.target, parsed_network(f.prefix)),
        ip_text(f.target),
    )
}

/// The loops among the findings, each as a row.
pub open spec fn current_rows(prefixes: Seq<Registered>, fs: Seq<Finding>) -> Set<Seq<Seq<char>>>
    decreases fs.len(),
{
    if fs.len() == 0 {
        Set::empty()
    } else {
        let f = fs.last();
        let before = current_rows(prefixes, fs.drop_last());
        match f.router {
            Some(router) => before.insert(found_row(prefixes, f, router)),
            None => before,
        }
    }
}

/// The block of a kept address: a sub-block of its network, or the address
/// itself.
pub open spec fn saved_block(target: Seq<char>, prefix: Seq<char>) -> Seq<char> {
    match parsed_ip(target) {
        Some(Ip::V6(a)) => sub_block_text(Ip::V6(a), parsed_network(prefix)),
        _ => target,
    }
}

/// A kept loop as a row: its system, its router, its block and its address.
pub open spec fn saved_row(prefixes: Seq<Registered>, l: Saved) -> Seq<Seq<char>> {
    hit_row(label_of(prefixes, l.prefix), l.router, saved_block(l.target, l.prefix), l.target)
}

/// The kept loops, each as a row.
pub open spec fn previous_rows(prefixes: Seq<Registered>, loops: Seq<Saved>) -> Set<Seq<Seq<char>>>
    decreases loops.len(),
{
    if loops.len() == 0 {
        Set::empty()
    } else {
        previous_rows(prefixes, loops.drop_last()).insert(saved_row(prefixes, loops.last()))
    }
}

/// Kept loops with neither a blank nor a comma in their addresses, as no address
/// has one.
pub open spec fn plainly_kept(loops: Seq<Saved>) -> bool {
    forall|i: int|
        0 <= i < loops.len() ==> !(#[trigger] loops[i]).router.contains(' ')
            && !loops[i].target.contains(' ') && !loops[i].target.contains(',')
}

/// Gathers the loops among the results.
pub fn current_hits(prefixes: &Vec<ClientPrefix>, results: &Vec<LoopResult>) -> (r: OrderedSet<Hit>)
    ensures
        r.wf(),
        r.set() == current_rows(registered(prefixes@), findings(results@)),
        are_plain(r.set()),
{
    let ghost known = registered(prefixes@);
    let ghost all = findings(results@);
    let mut hits: OrderedSet<Hit> = OrderedSet::new();
    let mut i: usize = 0;
    assert(hits.set() =~= current_rows(known, all.take(0)));
    while i < results.len()
        invariant
            i <= results@.len(),
            known == registered(prefixes@),
            all == findings(results@),
            hits.wf(),
            hits.set() == current_rows(known, all.take(i as int)),
            are_plain(hits.set()),
        decreases results@.len() - i,
    {
        let result = &results[i];
        assert(all.take(i + 1).drop_last() =~= all.take(i as int));
        assert(all.take(i + 1).last() == result@);
        if let Some(router) = result.router_ip {
            let hit = Hit {
                asn: asn_of(prefixes, result.prefix.as_str()),
                router: address_text(router),
                block: get_ipv6_subblock(result.target_ip, result.prefix.as_str()),
                target: address_text(result.target_ip),
            };
            proof {
                lemma_address_chars(hit.router@);
                lemma_address_chars(hit.target@);
                assert(is_plain(hit.row()));
            }
            hits.insert(hit);
        }
        i = i + 1;
    }
    assert(all.take(i as int) =~= all);
    hits
}

/// Gathers the kept loops.
pub fn previous_hits(prefixes: &Vec<ClientPrefix>, loops: &Vec<SavedLoop>) -> (r: OrderedSet<Hit>)
    ensures
        r.wf(),
        r.set() == previous_rows(registered(prefixes@), saved(loops@)),
        plainly_kept(saved(loops@)) ==> are_plain(r.set()),
{
    let ghost known = registered(prefixes@);
    let ghost all = saved(loops@);
    let mut hits: OrderedSet<Hit> = OrderedSet::new();
    let mut i: usize = 0;
    assert(hits.set() =~= previous_rows(known, all.take(0)));
    while i < loops.len()
        invariant
            i <= loops@.len(),
            known == registered(prefixes@),
            all == saved(loops@),
            hits.wf(),
            hits.set() == previous_rows(known, all.take(i as int)),
            plainly_kept(all) ==> are_plain(hits.set()),
        decreases loops@.len() - i,
    {
        let kept = &loops[i];
        assert(all.take(i + 1).drop_last() =~= all.take(i as int));
        assert(all.take(i + 1).last() == kept@);
        let block = match parse_ip(kept.target_ip.as_str()) {
            Some(Ip::V6(a)) => get_ipv6_subblock(Ip::V6(a), kept.prefix.as_str()),
            _ => kept.target_ip.clone(),
        };
        let hit = Hit {
            asn: asn_of(prefixes, kept.prefix.as_str()),
            router: kept.router_ip.clone(),
            block,
            target: kept.target_ip.clone(),
        };
        proof {
            if plainly_kept(all) {
                assert(all[i as int] == kept@);
                assert(is_plain(hit.row()));
            }
        }
        hits.insert(hit);
        i = i + 1;
    }
    assert(all.take(i as int) =~= all);
    hits
}

/// The loops among the findings, as they are kept for the next scan.
pub open spec fn kept(fs: Seq<Finding>) -> Seq<Saved>
    decreases fs.len(),
{
    if fs.len() == 0 {
        Seq::empty()
    } else {
        let f = fs.last();
        let before = kept(fs.drop_last());
        match f.router {
            Some(router) => before.push(
                Saved { prefix: f.prefix, target: ip_text(f.target), router: ip_text(router) },
            ),
            None => before,
        }
    }
}

/// Every looping address is read back from its text.
pub open spec fn readable(fs: Seq<Finding>) -> bool {
    forall|i: int|
        0 <= i < fs.len() && (#[trigger] fs[i]).router is Some ==> parsed_ip(ip_text(fs[i].target))
            == Some(fs[i].target)
}

/// What is kept for the next scan: every loop that was found, and nothing else.
pub proof fn law_found_loops_are_kept(fs: Seq<Finding>, l: Saved)
    ensures
        kept(fs).contains(l) <==> exists|i: int|
            0 <= i < fs.len() && (#[trigger] fs[i]).router is Some && l == (Saved {
                prefix: fs[i].prefix,
                target: ip_text(fs[i].target),
                router: ip_text(fs[i].router->Some_0),
            }),
    decreases fs.len(),
{
    if fs.len() > 0 {
        let (before, last) = (fs.drop_last(), fs.last());
        let (now, then) = (kept(fs), kept(before));
        law_found_loops_are_kept(before, l);
        assert(fs[fs.len() - 1] == last);
        if then.contains(l) {
            let i = choose|i: int|
                0 <= i < before.len() && (#[trigger] before[i]).router is Some && l == (Saved {
                    prefix: before[i].prefix,
                    target: ip_text(before[i].target),
                    router: ip_text(before[i].router->Some_0),
                });
            assert(fs[i] == before[i]);
            let k = choose|k: int| 0 <= k < then.len() && then[k] == l;
            assert(now[k] == l);
        } else if now.contains(l) {
            let k = choose|k: int| 0 <= k < now.len() && now[k] == l;
            if k < then.len() {
                assert(then[k] == l);
            }
        }
        if exists|i: int|
            0 <= i < fs.len() && (#[trigger] fs[i]).router is Some && l == (Saved {
                prefix: fs[i].prefix,
                target: ip_text(fs[i].target),
                router: ip_text(fs[i].router->Some_0),
            }) {
            let i = choose|i: int|
                0 <= i < fs.len() && (#[trigger] fs[i]).router is Some && l == (Saved {
                    prefix: fs[i].prefix,
                    target: ip_text(fs[i].target),
                    router: ip_text(fs[i].router->Some_0),
                });
            if i < before.len() {
                assert(before[i] == fs[i]);
            } else {
                assert(now[now.len() - 1] == l);
            }
        }
    }
}

/// The loops among the results, as they are kept for the next scan. Their
/// addresses are read back from their texts, a colon tells the families apart,
/// and no blank or comma is in them.
pub fn loops_to_keep(results: &Vec<LoopResult>) -> (r: Vec<SavedLoop>)
    ensures
        saved(r@) == kept(findings(results@)),
        plainly_kept(saved(r@)),
        forall|i: int|
            0 <= i < results@.len() && (#[trigger] results@[i]).router_ip is Some ==> {
                let text = ip_text(results@[i].target_ip);
                &&& parsed_ip(text) == Some(results@[i].target_ip)
                &&& text.contains(':') <==> results@[i].target_ip is V6
            },
{
    let ghost all = findings(results@);
    let mut r: Vec<SavedLoop> = Vec::new();
    let mut i: usize = 0;
    assert(saved(r@) =~= kept(all.take(0)));
    while i < results.len()
        invariant
            i <= results@.len(),
            all == findings(results@),
            saved(r@) == kept(all.take(i as int)),
            plainly_kept(saved(r@)),
            forall|j: int|
                0 <= j < i && (#[trigger] results@[j]).router_ip is Some ==> {
                    let text = ip_text(results@[j].target_ip);
                    &&& parsed_ip(text) == Some(results@[j].target_ip)
                    &&& text.contains(':') <==> results@[j].target_ip is V6
                },
        decreases results@.len() - i,
    {
        let result = &results[i];
        assert(all.take(i + 1).drop_last() =~= all.take(i as int));
        assert(all.take(i + 1).last() == result@);
        if let Some(router) = result.router_ip {
            let ghost before = r@;
            r.push(
                SavedLoop {
                    prefix: result.prefix.clone(),
                    target_ip: address_text(result.target_ip),
                    router_ip: address_text(router),
                },
            );
            proof {
                let last = r@.last()@;
                assert(saved(r@) =~= saved(before).push(last));
                lemma_address_chars(last.target);
                lemma_address_chars(last.router);
                assert forall|j: int| 0 <= j < saved(r@).len() implies !(
                #[trigger] saved(r@)[j]).router.contains(' ') && !saved(r@)[j].target.contains(' ')
                    && !saved(r@)[j].target.contains(',') by {
                    if j < saved(before).len() {
                        assert(saved(r@)[j] == saved(before)[j]);
                    }
                }
            }
        }
        i = i + 1;
    }
    assert(all.take(i as int) =~= all);
    r
}

/// A scan that finds the loops that were kept has nothing new to show.
pub proof fn lemma_same_loops_same_rows(prefixes: Seq<Registered>, fs: Seq<Finding>)
    requires
        readable(fs),
    ensures
        previous_rows(prefixes, kept(fs)) == current_rows(prefixes, fs),
    decreases fs.len(),
{
    if fs.len() > 0 {
        assert forall|i: int|
            0 <= i < fs.drop_last().len() && (
            #[trigger] fs.drop_last()[i]).router is Some implies parsed_ip(
            ip_text(fs.drop_last()[i].target),
        ) == Some(fs.drop_last()[i].target) by {
            assert(fs[i].router is Some);
        }
        lemma_same_loops_same_rows(prefixes, fs.drop_last());
        if let Some(router) = fs.last().router {
            assert(kept(fs).drop_last() =~= kept(fs.drop_last()));
            assert(fs[fs.len() - 1].router is Some);
        }
    }
}

/// A row comes from one of the kept loops.
proof fn lemma_previous_rows(prefixes: Seq<Registered>, loops: Seq<Saved>, row: Seq<Seq<char>>)
    ensures
        previous_rows(prefixes, loops).contains(row) <==> exists|l: Saved| #[trigger]
            loops.contains(l) && row == saved_row(prefixes, l),
    decreases loops.len(),
{
    if loops.len() > 0 {
        let before = loops.drop_last();
        lemma_previous_rows(prefixes, before, row);
        assert forall|l: Saved| #[trigger] loops.contains(l) <==> before.contains(l) || l
            == loops.last() by {
            if before.contains(l) {
                let i = choose|i: int| 0 <= i < before.len() && before[i] == l;
                assert(loops[i] == l);
            }
            if loops.contains(l) && l != loops.last() {
                let i = choose|i: int| 0 <= i < loops.len() && loops[i] == l;
                assert(before[i] == l);
            }
            assert(loops[loops.len() - 1] == loops.last());
        }
        if previous_rows(prefixes, before).contains(row) {
            let l = choose|l: Saved| #[trigger]
                before.contains(l) && row == saved_row(prefixes, l);
            assert(loops.contains(l));
        }
        assert(loops.contains(loops.last()));
    }
}

/// The rows of a scan are its loops: every loop has its row, and nothing else
/// has.
pub proof fn law_rows_are_loops(prefixes: Seq<Registered>, fs: Seq<Finding>, row: Seq<Seq<char>>)
    ensures
        current_rows(prefixes, fs).contains(row) <==> exists|i: int|
            0 <= i < fs.len() && (#[trigger] fs[i]).router is Some && row == found_row(
                prefixes,
                fs[i],
                fs[i].router->Some_0,
            ),
    decreases fs.len(),
{
    if fs.len() > 0 {
        let (before, last) = (fs.drop_last(), fs.last());
        law_rows_are_loops(prefixes, before, row);
        assert(fs[fs.len() - 1] == last);
        if current_rows(prefixes, before).contains(row) {
            let i = choose|i: int|
                0 <= i < before.len() && (#[trigger] before[i]).router is Some && row == found_row(
                    prefixes,
                    before[i],
                    before[i].router->Some_0,
                );
            assert(fs[i] == before[i]);
        }
        if exists|i: int|
            0 <= i < fs.len() && (#[trigger] fs[i]).router is Some && row == found_row(
                prefixes,
                fs[i],
                fs[i].router->Some_0,
            ) {
            let i = choose|i: int|
                0 <= i < fs.len() && (#[trigger] fs[i]).router is Some && row == found_row(
                    prefixes,
                    fs[i],
                    fs[i].router->Some_0,
                );
            if i < before.len() {
                assert(before[i] == fs[i]);
            }
        }
    }
}

/// The order in which loops are kept, and how often, does not matter.
pub proof fn lemma_kept_as_a_set(prefixes: Seq<Registered>, a: Seq<Saved>, b: Seq<Saved>)
    requires
        a.to_set() == b.to_set(),
    ensures
        previous_rows(prefixes, a) == previous_rows(prefixes, b),
{
    assert forall|l: Saved| #[trigger] a.contains(l) <==> b.contains(l) by {
        if a.contains(l) {
            assert(a.to_set().contains(l) && b.to_set().contains(l));
        }
        if b.contains(l) {
            assert(b.to_set().contains(l) && a.to_set().contains(l));
        }
    }
    assert forall|row: Seq<Seq<char>>| previous_rows(prefixes, a).contains(row)
        <==> previous_rows(prefixes, b).contains(row) by {
        lemma_previous_rows(prefixes, a, row);
        lemma_previous_rows(prefixes, b, row);
        if previous_rows(prefixes, a).contains(row) {
            let l = choose|l: Saved| #[trigger]
                a.contains(l) && row == saved_row(prefixes, l);
            assert(b.contains(l));
        }
        if previous_rows(prefixes, b).contains(row) {
            let l = choose|l: Saved| #[trigger]
                b.contains(l) && row == saved_row(prefixes, l);
            assert(a.contains(l));
        }
    }
    assert(previous_rows(prefixes, a) =~= previous_rows(prefixes, b));
}

/// The loops that are kept, each by its system, its router and its address.
pub open spec fn loops_of(prefixes: Seq<Registered>, loops: Seq<Saved>) -> Set<
    (Seq<char>, Seq<char>, Seq<char>),
> {
    Set::new(
        |t: (Seq<char>, Seq<char>, Seq<char>)|
            exists|l: Saved| #[trigger]
                loops.contains(l) && t == loop_of(prefixes, l),
    )
}

/// A kept loop by its system, its router and its address.
pub open spec fn loop_of(prefixes: Seq<Registered>, l: Saved) -> (
    Seq<char>,
    Seq<char>,
    Seq<char>,
) {
    (label_of(prefixes, l.prefix), l.router, l.target)
}

/// No loop at an IPv6 address is in `a` under one network and in `b` under
/// another of the same system. (The block of an IPv4 address is the address
/// itself, whatever its network.)
pub open spec fn under_one_network(prefixes: Seq<Registered>, a: Seq<Saved>, b: Seq<Saved>) -> bool {
    forall|l: Saved, m: Saved|
        #[trigger] a.contains(l) && #[trigger] b.contains(m) && l.target.contains(':') && loop_of(
            prefixes,
            l,
        ) == loop_of(prefixes, m) ==> l.prefix == m.prefix
}

/// A row that only one of two scans has is a loop that only this scan has.
proof fn lemma_row_of_one_scan(
    prefixes: Seq<Registered>,
    a: Seq<Saved>,
    b: Seq<Saved>,
    row: Seq<Seq<char>>,
) -> (t: (Seq<char>, Seq<char>, Seq<char>))
    requires
        are_plain(previous_rows(prefixes, a)),
        are_plain(previous_rows(prefixes, b)),
        under_one_network(prefixes, a, b),
        previous_rows(prefixes, a).contains(row),
        !previous_rows(prefixes, b).contains(row),
    ensures
        t.0 == row[0],
        loops_of(prefixes, a).contains(t),
        !loops_of(prefixes, b).contains(t),
{
    lemma_previous_rows(prefixes, a, row);
    let l = choose|l: Saved| #[trigger] a.contains(l) && row == saved_row(prefixes, l);
    let t = loop_of(prefixes, l);
    if loops_of(prefixes, b).contains(t) {
        let m = choose|m: Saved| #[trigger] b.contains(m) && t == loop_of(prefixes, m);
        let other = saved_row(prefixes, m);
        lemma_previous_rows(prefixes, b, other);
        assert(previous_rows(prefixes, b).contains(other));
        assert(is_plain(row) && is_plain(other));
        assert(row[3] == l.target && other[3] == m.target);
        if l.target.contains(':') {
            assert(l.prefix == m.prefix);
        }
        assert(row =~= other);
    }
    t
}

/// A loop that only one of two scans has is a row that only this scan has.
proof fn lemma_loop_of_one_scan(
    prefixes: Seq<Registered>,
    a: Seq<Saved>,
    b: Seq<Saved>,
    t: (Seq<char>, Seq<char>, Seq<char>),
) -> (row: Seq<Seq<char>>)
    requires
        loops_of(prefixes, a).contains(t),
        !loops_of(prefixes, b).contains(t),
    ensures
        row == hit_row(row[0], row[1], row[2], row[3]),
        row[0] == t.0,
        previous_rows(prefixes, a).contains(row),
        !previous_rows(prefixes, b).contains(row),
{
    let l = choose|l: Saved| #[trigger] a.contains(l) && t == loop_of(prefixes, l);
    let row = saved_row(prefixes, l);
    lemma_previous_rows(prefixes, a, row);
    lemma_previous_rows(prefixes, b, row);
    if previous_rows(prefixes, b).contains(row) {
        let m = choose|m: Saved| #[trigger] b.contains(m) && row == saved_row(prefixes, m);
        assert(row[0] == label_of(prefixes, m.prefix) && row[1] == m.router && row[3] == m.target);
        assert(row[0] == label_of(prefixes, l.prefix) && row[1] == l.router && row[3] == l.target);
        assert(t == loop_of(prefixes, m));
    }
    row
}

/// One of the systems `names` has a loop, in its block, in one of the two scans
/// only.
pub open spec fn rows_differ(
    names: Set<Seq<char>>,
    a: Set<Seq<Seq<char>>>,
    b: Set<Seq<Seq<char>>>,
) -> bool {
    exists|asn: Seq<char>, router: Seq<char>, block: Seq<char>, target: Seq<char>|
        names.contains(asn) && a.contains(#[trigger] hit_row(asn, router, block, target))
            != b.contains(hit_row(asn, router, block, target))
}

/// One of the systems `names` has a loop in one of the two scans only.
pub open spec fn loops_differ(
    names: Set<Seq<char>>,
    a: Set<(Seq<char>, Seq<char>, Seq<char>)>,
    b: Set<(Seq<char>, Seq<char>, Seq<char>)>,
) -> bool {
    exists|t: (Seq<char>, Seq<char>, Seq<char>)|
        names.contains(t.0) && #[trigger] a.contains(t) != b.contains(t)
}

/// Where no IPv6 address moves from one network of its system to another, the
/// rows of two scans differ exactly where their loops do.
pub proof fn law_rows_differ_as_loops_do(
    prefixes: Seq<Registered>,
    names: Set<Seq<char>>,
    a: Seq<Saved>,
    b: Seq<Saved>,
)
    requires
        are_plain(previous_rows(prefixes, a)),
        are_plain(previous_rows(prefixes, b)),
        under_one_network(prefixes, a, b),
    ensures
        rows_differ(names, previous_rows(prefixes, a), previous_rows(prefixes, b)) <==> loops_differ(
            names,
            loops_of(prefixes, a),
            loops_of(prefixes, b),
        ),
{
    let (x, y) = (previous_rows(prefixes, a), previous_rows(prefixes, b));
    let (p, q) = (loops_of(prefixes, a), loops_of(prefixes, b));
    if rows_differ(names, x, y) {
        let (asn, router, block, target) = choose|
            asn: Seq<char>,
            router: Seq<char>,
            block: Seq<char>,
            target: Seq<char>,
        |
            names.contains(asn) && x.contains(#[trigger] hit_row(asn, router, block, target))
                != y.contains(hit_row(asn, router, block, target));
        let row = hit_row(asn, router, block, target);
        assert(row[0] == asn);
        let t = if x.contains(row) {
            lemma_row_of_one_scan(prefixes, a, b, row)
        } else {
            assert forall|l: Saved, m: Saved|
                #[trigger] b.contains(l) && #[trigger] a.contains(m) && l.target.contains(':')
                    && loop_of(prefixes, l) == loop_of(prefixes, m) implies l.prefix
                == m.prefix by {
                assert(m.target == l.target);
            }
            lemma_row_of_one_scan(prefixes, b, a, row)
        };
        assert(names.contains(t.0) && p.contains(t) != q.contains(t));
    }
    if loops_differ(names, p, q) {
        let t = choose|t: (Seq<char>, Seq<char>, Seq<char>)|
            names.contains(t.0) && #[trigger] p.contains(t) != q.contains(t);
        let row = if p.contains(t) {
            lemma_loop_of_one_scan(prefixes, a, b, t)
        } else {
            lemma_loop_of_one_scan(prefixes, b, a, t)
        };
        assert(names.contains(row[0]) && x.contains(hit_row(row[0], row[1], row[2], row[3]))
            != y.contains(hit_row(row[0], row[1], row[2], row[3])));
    }
}

/// What is kept of two runs of findings is what is kept of the first, then what
/// is kept of the second. Of a single finding it is the loop that was found, with
/// its addresses as text, and nothing where none was.
pub proof fn law_kept_one_by_one(a: Seq<Finding>, b: Seq<Finding>, f: Finding)
    ensures
        kept(a + b) == kept(a) + kept(b),
        f.router matches Some(router) ==> kept(seq![f]) == seq![
            Saved { prefix: f.prefix, target: ip_text(f.target), router: ip_text(router) },
        ],
        f.router is None ==> kept(seq![f]) == Seq::<Saved>::empty(),
        kept(Seq::empty()) == Seq::<Saved>::empty(),
    decreases b.len(),
{
    let one = seq![f];
    assert(one.drop_last() =~= Seq::empty());
    assert(kept(Seq::empty()) =~= Seq::empty());
    if let Some(router) = f.router {
        assert(kept(one) =~= seq![
            Saved { prefix: f.prefix, target: ip_text(f.target), router: ip_text(router) },
        ]);
    }
    if b.len() == 0 {
        assert(a + b =~= a);
        assert(kept(a) + kept(b) =~= kept(a));
    } else {
        law_kept_one_by_one(a, b.drop_last(), f);
        assert((a + b).drop_last() =~= a + b.drop_last());
        assert((a + b).last() == b.last());
        assert(kept(a + b) =~= kept(a) + kept(b));
    }
}

/// The rows that a report is made of: for every loop that was found, its system,
/// its router, its block and its address, in this order; and no others.
pub proof fn law_current_rows(prefixes: Seq<Registered>, fs: Seq<Finding>, row: Seq<Seq<char>>)
    ensures
        current_rows(prefixes, fs).contains(row) <==> exists|i: int|
            0 <= i < fs.len() && (#[trigger] fs[i]).router is Some && row == seq![
                label_of(prefixes, fs[i].prefix),
                ip_text(fs[i].router->Some_0),
                sub_block_text(fs[i].target, parsed_network(fs[i].prefix)),
                ip_text(fs[i].target),
            ],
{
    law_rows_are_loops(prefixes, fs, row);
    if current_rows(prefixes, fs).contains(row) {
        let i = choose|i: int|
            0 <= i < fs.len() && (#[trigger] fs[i]).router is Some && row == found_row(
                prefixes,
                fs[i],
                fs[i].router->Some_0,
            );
        assert(fs[i].router is Some);
    }
    if exists|i: int|
        0 <= i < fs.len() && (#[trigger] fs[i]).router is Some && row == seq![
            label_of(prefixes, fs[i].prefix),
            ip_text(fs[i].router->Some_0),
            sub_block_text(fs[i].target, parsed_network(fs[i].prefix)),
            ip_text(fs[i].target),
        ] {
        let i = choose|i: int|
            0 <= i < fs.len() && (#[trigger] fs[i]).router is Some && row == seq![
                label_of(prefixes, fs[i].prefix),
                ip_text(fs[i].router->Some_0),
                sub_block_text(fs[i].target, parsed_network(fs[i].prefix)),
                ip_text(fs[i].target),
            ];
        assert(row == found_row(prefixes, fs[i], fs[i].router->Some_0));
    }
}

/// The rows of the loops that were kept: for every one of them its system, its
/// router, its block and its address, in this order; and no others. The block of
/// a kept IPv6 address is the sub-block of its network, that of any other the
/// address itself.
pub proof fn law_previous_rows(prefixes: Seq<Registered>, loops: Seq<Saved>, row: Seq<Seq<char>>)
    ensures
        previous_rows(prefixes, loops).contains(row) <==> exists|i: int|
            0 <= i < loops.len() && row == seq![
                label_of(prefixes, (#[trigger] loops[i]).prefix),
                loops[i].router,
                if parsed_ip(loops[i].target) is Some && parsed_ip(loops[i].target)->Some_0 is V6 {
                    sub_block_text(
                        parsed_ip(loops[i].target)->Some_0,
                        parsed_network(loops[i].prefix),
                    )
                } else {
                    loops[i].target
                },
                loops[i].target,
            ],
{
    lemma_previous_rows(prefixes, loops, row);
    if previous_rows(prefixes, loops).contains(row) {
        let l = choose|l: Saved| #[trigger] loops.contains(l) && row == saved_row(prefixes, l);
        let i = choose|i: int| 0 <= i < loops.len() && loops[i] == l;
        assert(loops[i] == l);
    }
    assert forall|i: int|
        0 <= i < loops.len() && row == seq![
            label_of(prefixes, (#[trigger] loops[i]).prefix),
            loops[i].router,
            if parsed_ip(loops[i].target) is Some && parsed_ip(loops[i].target)->Some_0 is V6 {
                sub_block_text(
                    parsed_ip(loops[i].target)->Some_0,
                    parsed_network(loops[i].prefix),
                )
            } else {
                loops[i].target
            },
            loops[i].target,
        ] implies previous_rows(prefixes, loops).contains(row) by {
        assert(loops.contains(loops[i]));
        assert(row == saved_row(prefixes, loops[i]));
    }
}

} // verus!
