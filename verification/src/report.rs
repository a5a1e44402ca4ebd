//! The report of a client's scan.
use vstd::prelude::*;
use vstd::utf8::encode_utf8;

use crate::checker::{findings, Finding, LoopResult};
use crate::groups::{
    group_exists, group_keys, group_lines, group_targets, hit_row, ipv4_keys, ipv6_keys,
    law_groups_are_counted_once, law_groups_are_pairs_of_loops, line_of, rows_of, tally, Hit,
};
use crate::ip::{ip_text, parsed_ip, parsed_network};
use crate::lines::{are_plain, law_every_group_has_its_line, law_lines_tell_the_loops};
use crate::loops::{
    current_hits, current_rows, found_row, kept, law_rows_are_loops, law_rows_differ_as_loops_do,
    lemma_kept_as_a_set, lemma_same_loops_same_rows, loops_differ, loops_of, loops_to_keep,
    plainly_kept, previous_hits, previous_rows, rows_differ, under_one_network,
};
use crate::notifier::{files, EmailAttachment};
use crate::order::{
    ascending, lemma_ascending, lemma_ascending_lists, lemma_text_lt_irreflexive, lemma_text_set,
    text_lt, text_set, texts_ascend, OrderedSet,
};
use crate::records::{
    asn_labels, label_of, labels, lemma_label_is_listed, registered, saved, Client, ClientPrefix,
    Registered, Saved, SavedLoop,
};
use crate::targets::sub_block_text;
use crate::text::{
    decimal, joined, law_decimal_is_read_back, lemma_end_stays, padded, push_decimal, push_padded,
    push_repeated, repeated, text_without_end_space, texts, trim_end,
};

verus! {

/// What is reported of one system.
pub struct Section {
    pub name: Seq<char>,
    /// The number of groups without an IPv6 address.
    pub v4: nat,
    /// The number of groups with one.
    pub v6: nat,
    /// The lines that show the groups of this scan.
    pub current: Set<Seq<char>>,
    /// The lines that show the groups of the scan before.
    pub previous: Set<Seq<char>>,
}

/// What is reported of the system `name`, given the loops of this scan and of
/// the one before.
pub open spec fn section(
    current: Set<Seq<Seq<char>>>,
    previous: Set<Seq<Seq<char>>>,
    name: Seq<char>,
) -> Section {
    Section {
        name,
        v4: ipv4_keys(current, name).len(),
        v6: ipv6_keys(current, name).len(),
        current: group_lines(current, name),
        previous: group_lines(previous, name),
    }
}

/// The lines that are gone, on the left, and those that are new, on the right.
pub open spec fn differences(previous: Set<Seq<char>>, current: Set<Seq<char>>) -> Seq<Seq<char>> {
    ascending(previous.difference(current)).map_values(|l: Seq<char>| gone_line(l))
        + ascending(current.difference(previous)).map_values(
        |l: Seq<char>| new_line(l),
    )
}

/// The line that shows that `l` is gone.
pub open spec fn gone_line(l: Seq<char>) -> Seq<char> {
    padded(l, 85) + " <"@
}

/// The line that shows that `l` is new.
pub open spec fn new_line(l: Seq<char>) -> Seq<char> {
    padded(""@, 85) + " > "@ + l
}

/// A line marked `<` shows a loop that the scan before found and this one did
/// not; a line marked `>` shows one that this scan found and the one before did
/// not. Every such loop is shown, nothing else is, and nothing is shown only
/// where both scans found the same.
pub proof fn law_differences(previous: Set<Seq<char>>, current: Set<Seq<char>>, line: Seq<char>)
    requires
        previous.finite(),
        current.finite(),
    ensures
        differences(previous, current).contains(line) <==> {
            ||| exists|l: Seq<char>| #[trigger]
                previous.contains(l) && !current.contains(l) && line == gone_line(l)
            ||| exists|l: Seq<char>| #[trigger]
                current.contains(l) && !previous.contains(l) && line == new_line(l)
        },
        differences(previous, current).len() == 0 <==> previous == current,
{
    let (gone, new) = (previous.difference(current), current.difference(previous));
    lemma_ascending_lists(gone);
    lemma_ascending_lists(new);
    let (a, b) = (ascending(gone), ascending(new));
    let left = a.map_values(|l: Seq<char>| gone_line(l));
    let right = b.map_values(|l: Seq<char>| new_line(l));
    let d = differences(previous, current);
    assert(d == left + right);
    if d.contains(line) {
        let i = choose|i: int| 0 <= i < d.len() && d[i] == line;
        if i < left.len() {
            assert(a.to_set().contains(a[i]));
            assert(previous.contains(a[i]) && line == gone_line(a[i]));
        } else {
            assert(b.to_set().contains(b[i - left.len()]));
            assert(current.contains(b[i - left.len()]) && line == new_line(b[i - left.len()]));
        }
    }
    if exists|l: Seq<char>| #[trigger]
        previous.contains(l) && !current.contains(l) && line == gone_line(l) {
        let l = choose|l: Seq<char>| #[trigger]
            previous.contains(l) && !current.contains(l) && line == gone_line(l);
        assert(a.to_set().contains(l));
        let i = choose|i: int| 0 <= i < a.len() && a[i] == l;
        assert(d[i] == line);
    }
    if exists|l: Seq<char>| #[trigger]
        current.contains(l) && !previous.contains(l) && line == new_line(l) {
        let l = choose|l: Seq<char>| #[trigger]
            current.contains(l) && !previous.contains(l) && line == new_line(l);
        assert(b.to_set().contains(l));
        let i = choose|i: int| 0 <= i < b.len() && b[i] == l;
        assert(d[left.len() + i] == line);
    }
    if d.len() == 0 {
        assert forall|l: Seq<char>| previous.contains(l) <==> current.contains(l) by {
            if gone.contains(l) {
                assert(a.to_set().contains(l));
            }
            if new.contains(l) {
                assert(b.to_set().contains(l));
            }
        }
        assert(previous =~= current);
    }
    if previous == current {
        if a.len() > 0 {
            assert(a.to_set().contains(a[0]));
        }
        if b.len() > 0 {
            assert(b.to_set().contains(b[0]));
        }
    }
}

/// The texts, each on a line of its own.
pub open spec fn each_on_a_line(s: Seq<Seq<char>>) -> Seq<char>
    decreases s.len(),
{
    if s.len() == 0 {
        Seq::empty()
    } else {
        each_on_a_line(s.drop_last()) + s.last() + "\n"@
    }
}

/// The report on one system.
pub open spec fn asn_report(s: Section) -> Seq<char> {
    let now = "CURRENT STATIC LOOPS: "@ + decimal(s.current.len()) + "\n"@
        + "====================\n\n"@ + each_on_a_line(ascending(s.current)) + "\n"@;
    if s.previous.is_empty() {
        now
    } else {
        now + "PREVIOUS DIFFERENCES\n"@ + "====================\n\n"@
            + "OLD SIDE                                                                              NEW SIDE\n"@
            + "===================================================================================================================================\n\n"@
            + each_on_a_line(differences(s.previous, s.current))
    }
}

/// The texts of `a` that are not in `b`, in ascending order.
fn only_in(a: &OrderedSet<String>, b: &OrderedSet<String>) -> (r: Vec<String>)
    requires
        a.wf(),
        b.wf(),
    ensures
        texts(r@) == ascending(text_set(*a).difference(text_set(*b))),
        r@.len() == 0 <==> text_set(*a).subset_of(text_set(*b)),
{
    let ghost list = texts(a.items@);
    let ghost other = text_set(*b);
    proof {
        lemma_text_set(*a);
    }
    let mut r: Vec<String> = Vec::new();
    let mut i: usize = 0;
    while i < a.items.len()
        invariant
            i <= a.items@.len(),
            list == texts(a.items@),
            other == text_set(*b),
            b.wf(),
            texts_ascend(list),
            texts_ascend(texts(r@)),
            forall|k: int|
                0 <= k < r@.len() ==> list.take(i as int).contains(#[trigger] texts(r@)[k])
                    && !other.contains(texts(r@)[k]),
            forall|j: int|
                0 <= j < i && !other.contains(#[trigger] list[j]) ==> texts(r@).contains(list[j]),
        decreases a.items@.len() - i,
    {
        let ghost before = texts(r@);
        let ghost (done, next) = (list.take(i as int), list.take(i + 1));
        let ghost line = list[i as int];
        proof {
            assert(next =~= done.push(line));
            assert forall|x: Seq<char>| done.contains(x) implies next.contains(x) && (exists|k: int|
                0 <= k < i && list[k] == x) by {
                let k = choose|k: int| 0 <= k < done.len() && done[k] == x;
                assert(next[k] == x && list[k] == x);
            }
            assert(next[i as int] == line);
        }
        if !b.contains_text(&a.items[i]) {
            r.push(a.items[i].clone());
            proof {
                assert(texts(r@) =~= before.push(line));
                assert forall|p: int, q: int| 0 <= p < q < texts(r@).len() implies text_lt(
                    #[trigger] texts(r@)[p],
                    #[trigger] texts(r@)[q],
                ) by {
                    assert(texts(r@)[p] == before[p]);
                    if q < before.len() {
                        assert(texts(r@)[q] == before[q]);
                    } else {
                        assert(done.contains(before[p]));
                        let k = choose|k: int| 0 <= k < i && list[k] == before[p];
                        assert(text_lt(list[k], list[i as int]));
                    }
                }
                assert forall|k: int| 0 <= k < r@.len() implies next.contains(
                    #[trigger] texts(r@)[k],
                ) && !other.contains(texts(r@)[k]) by {
                    if k < before.len() {
                        assert(texts(r@)[k] == before[k]);
                    }
                }
                assert forall|j: int| 0 <= j < i + 1 && !other.contains(
                    #[trigger] list[j],
                ) implies texts(r@).contains(list[j]) by {
                    if j < i {
                        let k = choose|k: int| 0 <= k < before.len() && before[k] == list[j];
                        assert(texts(r@)[k] == list[j]);
                    } else {
                        assert(texts(r@)[before.len() as int] == line);
                    }
                }
            }
        }
        i = i + 1;
    }
    proof {
        assert(list.take(i as int) =~= list);
        let left = text_set(*a).difference(other);
        assert forall|x: Seq<char>| texts(r@).to_set().contains(x) <==> left.contains(x) by {
            if texts(r@).contains(x) {
                let k = choose|k: int| 0 <= k < texts(r@).len() && texts(r@)[k] == x;
                assert(list.contains(texts(r@)[k]));
            }
            if left.contains(x) {
                let j = choose|j: int| 0 <= j < list.len() && list[j] == x;
                assert(texts(r@).contains(list[j]));
            }
        }
        assert(texts(r@).to_set() =~= left);
        lemma_ascending(texts(r@));
        if r@.len() == 0 {
            assert forall|x: Seq<char>| text_set(*a).contains(x) implies other.contains(x) by {
                assert(!texts(r@).to_set().contains(x));
            }
        } else {
            assert(texts(r@).to_set().contains(texts(r@)[0]));
        }
    }
    r
}

/// Appends the texts, each on a line of its own.
fn push_lines(out: &mut String, list: &Vec<String>)
    ensures
        final(out)@ == old(out)@ + each_on_a_line(texts(list@)),
{
    let ghost all = texts(list@);
    let ghost start = out@;
    let mut i: usize = 0;
    assert(out@ =~= start + each_on_a_line(all.take(0)));
    while i < list.len()
        invariant
            i <= list@.len(),
            all == texts(list@),
            out@ == start + each_on_a_line(all.take(i as int)),
        decreases list@.len() - i,
    {
        assert(all.take(i + 1).drop_last() =~= all.take(i as int));
        assert(all.take(i + 1).last() == list@[i as int]@);
        out.append(list[i].as_str());
        out.append("\n");
        i = i + 1;
        assert(out@ =~= start + each_on_a_line(all.take(i as int)));
    }
    assert(all.take(i as int) =~= all);
}

/// What the lines of two scans have to do with each other.
fn difference_lines(previous: &OrderedSet<String>, current: &OrderedSet<String>) -> (r: Vec<String>)
    requires
        previous.wf(),
        current.wf(),
    ensures
        texts(r@) == differences(text_set(*previous), text_set(*current)),
        r@.len() == 0 <==> text_set(*previous) == text_set(*current),
{
    let gone = only_in(previous, current);
    let new = only_in(current, previous);
    let ghost left = texts(gone@).map_values(|l: Seq<char>| gone_line(l));
    let ghost right = texts(new@).map_values(|l: Seq<char>| new_line(l));
    let mut r: Vec<String> = Vec::new();
    let mut i: usize = 0;
    assert(texts(r@) =~= left.take(0));
    while i < gone.len()
        invariant
            i <= gone@.len(),
            left == texts(gone@).map_values(|l: Seq<char>| gone_line(l)),
            texts(r@) == left.take(i as int),
        decreases gone@.len() - i,
    {
        let ghost before = r@;
        let mut line = String::new();
        push_padded(&mut line, gone[i].as_str(), 85);
        line.append(" <");
        assert(line@ =~= left[i as int]);
        r.push(line);
        assert(texts(r@) =~= texts(before).push(left[i as int]));
        i = i + 1;
        assert(texts(r@) =~= left.take(i as int));
    }
    let mut j: usize = 0;
    assert(texts(r@) =~= left + right.take(0));
    while j < new.len()
        invariant
            j <= new@.len(),
            right == texts(new@).map_values(|l: Seq<char>| new_line(l)),
            texts(r@) == left + right.take(j as int),
        decreases new@.len() - j,
    {
        let ghost before = r@;
        let mut line = String::new();
        push_padded(&mut line, "", 85);
        line.append(" > ");
        line.append(new[j].as_str());
        assert(line@ =~= right[j as int]);
        r.push(line);
        assert(texts(r@) =~= texts(before).push(right[j as int]));
        j = j + 1;
        assert(texts(r@) =~= left + right.take(j as int));
    }
    assert(right.take(j as int) =~= right);
    proof {
        if r@.len() == 0 {
            assert(texts(r@).len() == left.len() + right.len());
            assert(text_set(*previous) =~= text_set(*current));
        }
        assert(r@.len() == texts(r@).len());
        assert(left.len() == gone@.len() && right.len() == new@.len());
    }
    r
}

/// Writes the report on one system.
fn write_asn_report(
    now: &OrderedSet<String>,
    previous: &OrderedSet<String>,
    diff: &Vec<String>,
    Ghost(s): Ghost<Section>,
) -> (r: String)
    requires
        now.wf(),
        previous.wf(),
        s.current == text_set(*now),
        s.previous == text_set(*previous),
        texts(diff@) == differences(s.previous, s.current),
    ensures
        r@ == asn_report(s),
{
    proof {
        lemma_text_set(*now);
        lemma_text_set(*previous);
    }
    let mut r = "CURRENT STATIC LOOPS: ".to_owned();
    push_decimal(&mut r, now.items.len() as u64);
    r.append("\n");
    r.append("====================\n\n");
    push_lines(&mut r, &now.items);
    r.append("\n");
    if previous.items.len() > 0 {
        assert(text_set(*previous).contains(texts(previous.items@)[0]));
        r.append("PREVIOUS DIFFERENCES\n");
        r.append("====================\n\n");
        r.append(
            "OLD SIDE                                                                              NEW SIDE\n",
        );
        r.append(
            "===================================================================================================================================\n\n",
        );
        push_lines(&mut r, diff);
    } else {
        assert(text_set(*previous) =~= Set::empty());
    }
    r
}

/// The systems of a client's networks, in ascending order, with what is
/// reported of each.
pub open spec fn sections(
    prefixes: Seq<Registered>,
    current: Set<Seq<Seq<char>>>,
    previous: Set<Seq<Seq<char>>>,
) -> Seq<Section> {
    ascending(labels(prefixes)).map_values(|name: Seq<char>| section(current, previous, name))
}

/// The report on one system under its heading.
pub open spec fn headed_report(s: Section) -> Seq<char> {
    "ASN: "@ + s.name + "\n"@ + repeated('=', 15 + encode_utf8(s.name).len()) + "\n"@ + asn_report(s)
        + "\n\n"@
}

/// The reports on all systems.
pub open spec fn report_body(ss: Seq<Section>) -> Seq<char>
    decreases ss.len(),
{
    if ss.len() == 0 {
        Seq::empty()
    } else {
        report_body(ss.drop_last()) + headed_report(ss.last())
    }
}

/// The numbers of one system.
pub open spec fn total_line(s: Section) -> Seq<char> {
    s.name + " - IPv4: "@ + decimal(s.v4) + " / IPv6: "@ + decimal(s.v6) + "\n"@
}

/// The numbers of all systems.
pub open spec fn totals(ss: Seq<Section>) -> Seq<char>
    decreases ss.len(),
{
    if ss.len() == 0 {
        Seq::empty()
    } else {
        totals(ss.drop_last()) + total_line(ss.last())
    }
}

/// The files that go along with the report, by name and content: one for each
/// system with loops.
pub open spec fn attached(ss: Seq<Section>) -> Seq<(Seq<char>, Seq<char>)>
    decreases ss.len(),
{
    if ss.len() == 0 {
        Seq::empty()
    } else {
        let before = attached(ss.drop_last());
        if ss.last().current.len() > 0 {
            before.push(("report_"@ + ss.last().name + ".txt"@, asn_report(ss.last())))
        } else {
            before
        }
    }
}

/// The number of lines that show loops.
pub open spec fn loop_count(ss: Seq<Section>) -> nat
    decreases ss.len(),
{
    if ss.len() == 0 {
        0
    } else {
        loop_count(ss.drop_last()) + ss.last().current.len()
    }
}

/// Whether any system's lines are not those of the scan before.
pub open spec fn changed(ss: Seq<Section>) -> bool {
    exists|i: int| 0 <= i < ss.len() && (#[trigger] ss[i]).previous != ss[i].current
}

/// The number of groups.
pub open spec fn group_count(ss: Seq<Section>) -> nat
    decreases ss.len(),
{
    if ss.len() == 0 {
        0
    } else {
        group_count(ss.drop_last()) + ss.last().v4 + ss.last().v6
    }
}

/// A change is a loop, in its block, that one of two scans has and the other has
/// not: changes are reported exactly where one of the systems has such a loop.
pub proof fn law_changes_are_changed_loops(
    prefixes: Seq<Registered>,
    current: Set<Seq<Seq<char>>>,
    previous: Set<Seq<Seq<char>>>,
)
    requires
        current.finite(),
        previous.finite(),
        are_plain(current),
        are_plain(previous),
    ensures
        changed(sections(prefixes, current, previous)) <==> rows_differ(
            labels(prefixes),
            current,
            previous,
        ),
{
    let ss = sections(prefixes, current, previous);
    let names = ascending(labels(prefixes));
    lemma_label_is_listed(prefixes, Seq::empty());
    lemma_ascending_lists(labels(prefixes));
    if changed(ss) {
        let i = choose|i: int| 0 <= i < ss.len() && (#[trigger] ss[i]).previous != ss[i].current;
        let asn = names[i];
        assert(names.to_set().contains(asn));
        law_lines_tell_the_loops(current, previous, asn);
        let (router, block, target) = choose|
            router: Seq<char>,
            block: Seq<char>,
            target: Seq<char>,
        |
            current.contains(#[trigger] hit_row(asn, router, block, target)) != previous.contains(
                hit_row(asn, router, block, target),
            );
        assert(labels(prefixes).contains(asn) && current.contains(
            hit_row(asn, router, block, target),
        ) != previous.contains(hit_row(asn, router, block, target)));
    }
    if rows_differ(labels(prefixes), current, previous) {
        let (asn, router, block, target) = choose|
            asn: Seq<char>,
            router: Seq<char>,
            block: Seq<char>,
            target: Seq<char>,
        |
            labels(prefixes).contains(asn) && current.contains(
                #[trigger] hit_row(asn, router, block, target),
            ) != previous.contains(hit_row(asn, router, block, target));
        assert(names.to_set().contains(asn));
        let i = choose|i: int| 0 <= i < names.len() && names[i] == asn;
        law_lines_tell_the_loops(current, previous, asn);
        assert(ss[i].previous != ss[i].current);
    }
}

/// The loops that a report counts are the groups that it counts by family.
pub proof fn law_loops_are_counted_by_group(
    names: Seq<Seq<char>>,
    current: Set<Seq<Seq<char>>>,
    previous: Set<Seq<Seq<char>>>,
)
    requires
        current.finite(),
        are_plain(current),
    ensures
        ({
            let ss = names.map_values(|name: Seq<char>| section(current, previous, name));
            &&& forall|i: int|
                0 <= i < ss.len() ==> (#[trigger] ss[i]).current.len() == ss[i].v4 + ss[i].v6
            &&& loop_count(ss) == group_count(ss)
        }),
    decreases names.len(),
{
    let ss = names.map_values(|name: Seq<char>| section(current, previous, name));
    assert forall|i: int| 0 <= i < ss.len() implies (#[trigger] ss[i]).current.len() == ss[i].v4
        + ss[i].v6 by {
        law_groups_are_counted_once(current, names[i]);
        law_every_group_has_its_line(current, names[i]);
    }
    if names.len() > 0 {
        law_loops_are_counted_by_group(names.drop_last(), current, previous);
        let before = names.drop_last().map_values(
            |name: Seq<char>| section(current, previous, name),
        );
        assert(ss.drop_last() =~= before);
        assert(ss.last() == ss[ss.len() - 1]);
    }
}

/// The number of rows of several systems.
spec fn rows_of_all(rows: Seq<Seq<Seq<char>>>, names: Seq<Seq<char>>) -> nat
    decreases names.len(),
{
    if names.len() == 0 {
        0
    } else {
        rows_of_all(rows, names.drop_last()) + rows_of(rows, names.last())
    }
}

/// How often `x` occurs.
spec fn occurrences(names: Seq<Seq<char>>, x: Seq<char>) -> nat
    decreases names.len(),
{
    if names.len() == 0 {
        0
    } else {
        occurrences(names.drop_last(), x) + if names.last() == x {
            1nat
        } else {
            0nat
        }
    }
}

proof fn lemma_occurs_once(names: Seq<Seq<char>>, x: Seq<char>)
    requires
        names.no_duplicates(),
    ensures
        occurrences(names, x) <= 1,
        !names.contains(x) ==> occurrences(names, x) == 0,
    decreases names.len(),
{
    if names.len() > 0 {
        let before = names.drop_last();
        lemma_occurs_once(before, x);
        if before.contains(x) {
            let i = choose|i: int| 0 <= i < before.len() && before[i] == x;
            assert(names[i] == x);
            assert(names[names.len() - 1] != x);
        }
        assert(names.contains(names[names.len() - 1]));
    }
}

proof fn lemma_rows_by_last(rows: Seq<Seq<Seq<char>>>, names: Seq<Seq<char>>)
    requires
        rows.len() > 0,
    ensures
        rows_of_all(rows, names) == rows_of_all(rows.drop_last(), names) + occurrences(
            names,
            rows.last()[0],
        ),
    decreases names.len(),
{
    if names.len() > 0 {
        lemma_rows_by_last(rows, names.drop_last());
    }
}

/// No row belongs to two systems.
proof fn lemma_rows_of_all(rows: Seq<Seq<Seq<char>>>, names: Seq<Seq<char>>)
    requires
        names.no_duplicates(),
    ensures
        rows_of_all(rows, names) <= rows.len(),
    decreases rows.len(),
{
    if rows.len() == 0 {
        lemma_no_rows(rows, names);
    } else {
        lemma_rows_by_last(rows, names);
        lemma_occurs_once(names, rows.last()[0]);
        lemma_rows_of_all(rows.drop_last(), names);
    }
}

proof fn lemma_no_rows(rows: Seq<Seq<Seq<char>>>, names: Seq<Seq<char>>)
    requires
        rows.len() == 0,
    ensures
        rows_of_all(rows, names) == 0,
    decreases names.len(),
{
    if names.len() > 0 {
        lemma_no_rows(rows, names.drop_last());
    }
}

proof fn lemma_changed_by_last(ss: Seq<Section>)
    requires
        ss.len() > 0,
    ensures
        changed(ss) <==> changed(ss.drop_last()) || ss.last().previous != ss.last().current,
{
    let before = ss.drop_last();
    if changed(before) {
        let k = choose|k: int|
            0 <= k < before.len() && (#[trigger] before[k]).previous != before[k].current;
        assert(ss[k].previous != ss[k].current);
    }
    if changed(ss) {
        let k = choose|k: int| 0 <= k < ss.len() && (#[trigger] ss[k]).previous != ss[k].current;
        if k < before.len() {
            assert(before[k].previous != before[k].current);
        }
    }
    assert(ss[ss.len() - 1] == ss.last());
}

/// What a scan has to say of one system.
struct Written {
    loops: usize,
    changed: bool,
    total: String,
    report: String,
    headed: String,
}

/// Writes the report on the system `name`.
fn write_section(name: &str, now: &OrderedSet<Hit>, before: &OrderedSet<Hit>) -> (r: Written)
    requires
        now.wf(),
        before.wf(),
    ensures
        ({
            let s = section(now.set(), before.set(), name@);
            &&& r.loops == s.current.len()
            &&& r.changed == (s.previous != s.current)
            &&& r.total@ == total_line(s)
            &&& r.report@ == asn_report(s)
            &&& r.headed@ == headed_report(s)
        }),
        r.loops <= rows_of(now.rows(), name@),
{
    let ghost s = section(now.set(), before.set(), name@);
    let current = tally(now, name);
    let previous = tally(before, name);
    proof {
        lemma_text_set(current.lines);
    }
    let diff = difference_lines(&previous.lines, &current.lines);
    let mut total = name.to_owned();
    total.append(" - IPv4: ");
    push_decimal(&mut total, current.v4 as u64);
    total.append(" / IPv6: ");
    push_decimal(&mut total, current.v6 as u64);
    total.append("\n");
    let report = write_asn_report(&current.lines, &previous.lines, &diff, Ghost(s));
    let headed = under_heading(name, report.as_str());
    Written { loops: current.lines.items.len(), changed: diff.len() > 0, total, report, headed }
}

/// Puts a report under the heading of the system `name`.
fn under_heading(name: &str, report: &str) -> (r: String)
    ensures
        r@ == "ASN: "@ + name@ + "\n"@ + repeated('=', 15 + encode_utf8(name@).len()) + "\n"@
            + report@ + "\n\n"@,
{
    let mut r = "ASN: ".to_owned();
    r.append(name);
    r.append("\n");
    let ghost start = r@;
    let n = name.as_bytes().len();
    push_repeated(&mut r, '=', 15);
    push_repeated(&mut r, '=', n);
    assert(start + repeated('=', 15) + repeated('=', n as nat) =~= start + repeated(
        '=',
        15 + n as nat,
    ));
    r.append("\n");
    r.append(report);
    r.append("\n\n");
    r
}

/// What a scan has to say of all systems.
struct Summary {
    body: String,
    totals: String,
    attachments: Vec<EmailAttachment>,
    loops: usize,
    changes: bool,
}

/// Writes the reports on the systems `names`.
fn summarize(names: &Vec<String>, now: &OrderedSet<Hit>, before: &OrderedSet<Hit>) -> (r: Summary)
    requires
        now.wf(),
        before.wf(),
        texts(names@).no_duplicates(),
    ensures
        ({
            let ss = texts(names@).map_values(
                |name: Seq<char>| section(now.set(), before.set(), name),
            );
            &&& r.body@ == report_body(ss)
            &&& r.totals@ == totals(ss)
            &&& files(r.attachments@) == attached(ss)
            &&& r.loops == loop_count(ss)
            &&& r.changes == changed(ss)
        }),
{
    let ghost list = texts(names@);
    let ghost ss = list.map_values(|name: Seq<char>| section(now.set(), before.set(), name));
    let ghost rows = now.rows();
    let mut body = String::new();
    let mut total_lines = String::new();
    let mut attachments: Vec<EmailAttachment> = Vec::new();
    let mut loops: usize = 0;
    let mut changes: bool = false;
    let mut i: usize = 0;
    assert(body@ =~= report_body(ss.take(0)));
    assert(total_lines@ =~= totals(ss.take(0)));
    assert(files(attachments@) =~= attached(ss.take(0)));
    assert(list.take(0) =~= Seq::empty());
    while i < names.len()
        invariant
            i <= names@.len(),
            now.wf(),
            before.wf(),
            list == texts(names@),
            list.no_duplicates(),
            rows == now.rows(),
            ss == list.map_values(|name: Seq<char>| section(now.set(), before.set(), name)),
            body@ == report_body(ss.take(i as int)),
            total_lines@ == totals(ss.take(i as int)),
            files(attachments@) == attached(ss.take(i as int)),
            loops == loop_count(ss.take(i as int)),
            loops <= rows_of_all(rows, list.take(i as int)),
            changes == changed(ss.take(i as int)),
        decreases names@.len() - i,
    {
        let name = names[i].as_str();
        let ghost s = section(now.set(), before.set(), name@);
        proof {
            assert(ss.take(i + 1).drop_last() =~= ss.take(i as int));
            assert(ss.take(i + 1).last() == s);
            assert(list.take(i + 1).drop_last() =~= list.take(i as int));
            assert(list.take(i + 1).last() == name@);
            assert(list.take(i + 1).no_duplicates());
            lemma_rows_of_all(rows, list.take(i + 1));
        }
        let written = write_section(name, now, before);
        proof {
            assert(rows.len() == now.items.len());
            lemma_changed_by_last(ss.take(i + 1));
        }
        loops = loops + written.loops;
        changes = changes || written.changed;
        total_lines.append(written.total.as_str());
        body.append(written.headed.as_str());
        if written.loops > 0 {
            let ghost kept = attachments@;
            let mut filename = "report_".to_owned();
            filename.append(name);
            filename.append(".txt");
            attachments.push(EmailAttachment { filename, content: written.report });
            assert(files(attachments@) =~= files(kept).push(
                ("report_"@ + s.name + ".txt"@, asn_report(s)),
            ));
        }
        i = i + 1;
    }
    assert(ss.take(i as int) =~= ss);
    Summary { body, totals: total_lines, attachments, loops, changes }
}

/// What a client's scan comes to.
#[derive(Debug)]
pub struct ClientScanReport {
    pub client: Client,
    /// The loops to keep for the next scan.
    pub saved_loops: Vec<SavedLoop>,
    pub console_output: String,
    pub email_attachments: Vec<EmailAttachment>,
    pub email_subject: String,
    pub email_body: String,
    pub total_loops: usize,
    /// Whether the loops are not those of the scan before.
    pub has_changes: bool,
}

/// What a `ClientScanReport` says.
pub struct Report {
    pub kept: Seq<Saved>,
    pub console: Seq<char>,
    pub files: Seq<(Seq<char>, Seq<char>)>,
    pub subject: Seq<char>,
    pub body: Seq<char>,
    pub loops: nat,
    pub changes: bool,
}

impl View for ClientScanReport {
    type V = Report;

    open spec fn view(&self) -> Report {
        Report {
            kept: saved(self.saved_loops@),
            console: self.console_output@,
            files: files(self.email_attachments@),
            subject: self.email_subject@,
            body: self.email_body@,
            loops: self.total_loops as nat,
            changes: self.has_changes,
        }
    }
}

impl Report {
    /// Whether the client is told.
    pub open spec fn is_told(self) -> bool {
        self.loops > 0 || self.changes
    }
}

impl ClientScanReport {
    /// Whether the client is told: where there are loops, or where something
    /// changed.
    pub fn should_notify(&self) -> (r: bool)
        ensures
            r == (self@.loops > 0 || self@.changes),
            r == self@.is_told(),
    {
        self.total_loops > 0 || self.has_changes
    }
}

/// The report of a scan that did not take place.
pub open spec fn console_only(console: Seq<char>) -> Report {
    Report {
        kept: Seq::empty(),
        console,
        files: Seq::empty(),
        subject: Seq::empty(),
        body: Seq::empty(),
        loops: 0,
        changes: false,
    }
}

/// The email that a report is sent with.
pub open spec fn email_text(corporate_name: Seq<char>, totals: Seq<char>) -> Seq<char> {
    "Dear User,\n\nStatic Routing Loop Scan Report:\nCorporate Name: "@ + corporate_name
        + "\n\nTotals per ASN:\n"@ + trim_end(totals)
        + "\n\nBest regards,\nLoopHunter Monitoring System"@
}

/// The report of a scan with these findings, after a scan that kept `previous`;
/// `console` is what was said before.
pub open spec fn report_of(
    corporate_name: Seq<char>,
    prefixes: Seq<Registered>,
    previous: Seq<Saved>,
    fs: Seq<Finding>,
    console: Seq<char>,
) -> Report {
    let ss = sections(
        prefixes,
        current_rows(prefixes, fs),
        previous_rows(prefixes, previous),
    );
    Report {
        kept: kept(fs),
        console: console + "\n"@ + report_body(ss),
        files: attached(ss),
        subject: "STATIC LOOP - "@ + corporate_name,
        body: email_text(corporate_name, totals(ss)),
        loops: loop_count(ss),
        changes: changed(ss),
    }
}

/// Every loop at a registered prefix is shown: under its system, on the line of
/// its router and block, and among the addresses of that line.
pub proof fn law_every_loop_is_shown(
    prefixes: Seq<Registered>,
    fs: Seq<Finding>,
    previous: Seq<Saved>,
    i: int,
    j: int,
)
    requires
        0 <= i < fs.len(),
        fs[i].router is Some,
        0 <= j < prefixes.len(),
        prefixes[j].prefix == fs[i].prefix,
    ensures
        ({
            let rows = current_rows(prefixes, fs);
            let name = label_of(prefixes, fs[i].prefix);
            let router = ip_text(fs[i].router->Some_0);
            let block = sub_block_text(fs[i].target, parsed_network(fs[i].prefix));
            let targets = group_targets(rows, name, router, block);
            &&& targets.contains(ip_text(fs[i].target))
            &&& exists|k: int|
                0 <= k < sections(prefixes, rows, previous_rows(prefixes, previous)).len() && (
                #[trigger] sections(prefixes, rows, previous_rows(prefixes, previous))[k]).name
                    == name && sections(
                    prefixes,
                    rows,
                    previous_rows(prefixes, previous),
                )[k].current.contains(line_of(router, block, targets))
        }),
{
    let rows = current_rows(prefixes, fs);
    let name = label_of(prefixes, fs[i].prefix);
    let router = ip_text(fs[i].router->Some_0);
    let block = sub_block_text(fs[i].target, parsed_network(fs[i].prefix));
    let row = found_row(prefixes, fs[i], fs[i].router->Some_0);
    law_rows_are_loops(prefixes, fs, row);
    assert(rows.contains(row));
    assert(row == hit_row(name, router, block, ip_text(fs[i].target)));
    assert(group_exists(rows, name, router, block));
    lemma_label_is_listed(prefixes, fs[i].prefix);
    lemma_ascending_lists(labels(prefixes));
    let names = ascending(labels(prefixes));
    assert(names.to_set().contains(name));
    let k = choose|k: int| 0 <= k < names.len() && names[k] == name;
    let ss = sections(prefixes, rows, previous_rows(prefixes, previous));
    assert(ss[k].name == name);
    assert(ss[k].current == group_lines(rows, name));
}

/// Writes the report of a scan. Every group is counted once. A scan that finds
/// the loops that were kept, and no others, reports no changes. Where the kept
/// addresses have neither blanks nor commas in them, changes are reported
/// exactly where a loop of one of the systems is in one of the two scans only.
pub fn client_report(
    client: Client,
    prefixes: &Vec<ClientPrefix>,
    previous: &Vec<SavedLoop>,
    results: &Vec<LoopResult>,
    console: &str,
) -> (r: ClientScanReport)
    ensures
        r.client == client,
        r@ == report_of(
            client.corporate_name@,
            registered(prefixes@),
            saved(previous@),
            findings(results@),
            console@,
        ),
        r.total_loops == group_count(
            sections(
                registered(prefixes@),
                current_rows(registered(prefixes@), findings(results@)),
                previous_rows(registered(prefixes@), saved(previous@)),
            ),
        ),
        saved(previous@).to_set() == kept(findings(results@)).to_set() ==> !r.has_changes,
        plainly_kept(saved(previous@)) ==> (r.has_changes <==> rows_differ(
            labels(registered(prefixes@)),
            current_rows(registered(prefixes@), findings(results@)),
            previous_rows(registered(prefixes@), saved(previous@)),
        )),
        plainly_kept(saved(previous@)) && under_one_network(
            registered(prefixes@),
            kept(findings(results@)),
            saved(previous@),
        ) ==> (r.has_changes <==> loops_differ(
            labels(registered(prefixes@)),
            loops_of(registered(prefixes@), kept(findings(results@))),
            loops_of(registered(prefixes@), saved(previous@)),
        )),
        plainly_kept(saved(previous@)) ==> (r@.is_told() <==> {
            ||| exists|row: Seq<Seq<char>>| #[trigger]
                current_rows(registered(prefixes@), findings(results@)).contains(row) && labels(
                    registered(prefixes@),
                ).contains(row[0])
            ||| rows_differ(
                labels(registered(prefixes@)),
                current_rows(registered(prefixes@), findings(results@)),
                previous_rows(registered(prefixes@), saved(previous@)),
            )
        }),
{
    let saved_loops = loops_to_keep(results);
    let names = asn_labels(prefixes);
    let now = current_hits(prefixes, results);
    let before = previous_hits(prefixes, previous);
    let summary = summarize(&names, &now, &before);
    let mut console_output = joined(console, "\n");
    console_output.append(summary.body.as_str());
    let email_subject = joined("STATIC LOOP - ", client.corporate_name.as_str());
    let mut email_body = joined(
        "Dear User,\n\nStatic Routing Loop Scan Report:\nCorporate Name: ",
        client.corporate_name.as_str(),
    );
    email_body.append("\n\nTotals per ASN:\n");
    email_body.append(text_without_end_space(summary.totals.as_str()).as_str());
    email_body.append("\n\nBest regards,\nLoopHunter Monitoring System");
    proof {
        let fs = findings(results@);
        let known = registered(prefixes@);
        let (current, kept_before) = (now.set(), before.set());
        let ss = sections(known, current, kept_before);
        vstd::seq_lib::seq_to_set_is_finite(now.rows());
        vstd::seq_lib::seq_to_set_is_finite(before.rows());
        law_loops_are_counted_by_group(ascending(labels(known)), current, kept_before);
        assert forall|i: int| 0 <= i < fs.len() && (#[trigger] fs[i]).router is Some implies parsed_ip(
            ip_text(fs[i].target),
        ) == Some(fs[i].target) by {
            assert(results@[i].router_ip is Some);
        }
        lemma_same_loops_same_rows(known, fs);
        if saved(previous@).to_set() == kept(fs).to_set() {
            lemma_kept_as_a_set(known, saved(previous@), kept(fs));
            assert(!changed(ss)) by {
                assert(current == kept_before);
            }
        }
        if plainly_kept(saved(previous@)) {
            law_changes_are_changed_loops(known, current, kept_before);
            law_client_is_told(
                client.corporate_name@,
                known,
                saved(previous@),
                fs,
                console@,
            );
            if under_one_network(known, kept(fs), saved(previous@)) {
                law_rows_differ_as_loops_do(known, labels(known), kept(fs), saved(previous@));
            }
        }
    }
    ClientScanReport {
        client,
        saved_loops,
        console_output,
        email_attachments: summary.attachments,
        email_subject,
        email_body,
        total_loops: summary.loops,
        has_changes: summary.changes,
    }
}

/// What a report says of two runs of systems is what it says of the first, then
/// what it says of the second: the reports, the numbers, the files and the
/// counts.
pub proof fn law_systems_one_by_one(a: Seq<Section>, b: Seq<Section>)
    ensures
        report_body(a + b) == report_body(a) + report_body(b),
        totals(a + b) == totals(a) + totals(b),
        attached(a + b) == attached(a) + attached(b),
        loop_count(a + b) == loop_count(a) + loop_count(b),
        group_count(a + b) == group_count(a) + group_count(b),
        changed(a + b) <==> changed(a) || changed(b),
    decreases b.len(),
{
    if b.len() == 0 {
        assert(a + b =~= a);
        assert(report_body(a) + report_body(b) =~= report_body(a));
        assert(totals(a) + totals(b) =~= totals(a));
        assert(attached(a) + attached(b) =~= attached(a));
    } else {
        let less = b.drop_last();
        law_systems_one_by_one(a, less);
        assert((a + b).drop_last() =~= a + less);
        assert((a + b).last() == b.last());
        assert(report_body(a + b) =~= report_body(a) + report_body(b));
        assert(totals(a + b) =~= totals(a) + totals(b));
        assert(attached(a + b) =~= attached(a) + attached(b));
        lemma_changed_by_last(a + b);
        lemma_changed_by_last(b);
    }
}

/// What a report says of a single system: its report under its name, its two
/// numbers on a line, as many loops as it has lines, and a file with its report
/// where it has any. It is changed where its lines are not those of the scan
/// before.
pub proof fn law_single_system(s: Section)
    ensures
        report_body(seq![s]) == headed_report(s),
        totals(seq![s]) == s.name + " - IPv4: "@ + decimal(s.v4) + " / IPv6: "@ + decimal(s.v6)
            + "\n"@,
        s.current.len() > 0 ==> attached(seq![s]) == seq![
            ("report_"@ + s.name + ".txt"@, asn_report(s)),
        ],
        s.current.len() == 0 ==> attached(seq![s]) == Seq::<(Seq<char>, Seq<char>)>::empty(),
        loop_count(seq![s]) == s.current.len(),
        group_count(seq![s]) == s.v4 + s.v6,
        changed(seq![s]) <==> s.previous != s.current,
{
    let one = seq![s];
    let none = Seq::<Section>::empty();
    assert(one.drop_last() =~= none);
    assert(report_body(none) + headed_report(s) =~= headed_report(s));
    assert(totals(none) + total_line(s) =~= total_line(s));
    assert(loop_count(none) == 0 && group_count(none) == 0);
    assert(attached(none) =~= Seq::empty());
    if s.current.len() > 0 {
        assert(attached(one) =~= seq![("report_"@ + s.name + ".txt"@, asn_report(s))]);
    }
    lemma_changed_by_last(one);
}

/// Which files go along: for every system with loops, in order, the file that is
/// named after it, with its report in it; and no others.
pub proof fn law_every_system_with_loops_has_its_file(ss: Seq<Section>)
    ensures
        ({
            let with_loops = ss.filter(|s: Section| s.current.len() > 0);
            &&& attached(ss).len() == with_loops.len()
            &&& forall|k: int|
                0 <= k < with_loops.len() ==> #[trigger] attached(ss)[k] == (
                    "report_"@ + with_loops[k].name + ".txt"@,
                    asn_report(with_loops[k]),
                )
        }),
        forall|k: int|
            0 <= k < ss.len() && (#[trigger] ss[k]).current.len() > 0 ==> attached(ss).contains(
                ("report_"@ + ss[k].name + ".txt"@, asn_report(ss[k])),
            ),
        forall|file: (Seq<char>, Seq<char>)| #[trigger]
            attached(ss).contains(file) ==> exists|k: int|
                0 <= k < ss.len() && (#[trigger] ss[k]).current.len() > 0 && file == (
                    "report_"@ + ss[k].name + ".txt"@,
                    asn_report(ss[k]),
                ),
    decreases ss.len(),
{
    reveal(Seq::filter);
    let with_loops = ss.filter(|s: Section| s.current.len() > 0);
    let now = attached(ss);
    if ss.len() > 0 {
        let before = ss.drop_last();
        let s = ss.last();
        law_every_system_with_loops_has_its_file(before);
        let then = attached(before);
        let with_then = before.filter(|s: Section| s.current.len() > 0);
        assert(ss[ss.len() - 1] == s);
        let file = ("report_"@ + s.name + ".txt"@, asn_report(s));
        if s.current.len() > 0 {
            assert(with_loops == with_then.push(s));
            assert(now == then.push(file));
            assert(now[then.len() as int] == file);
        } else {
            assert(with_loops == with_then);
            assert(now == then);
        }
        assert forall|k: int| 0 <= k < with_loops.len() implies #[trigger] now[k] == (
            "report_"@ + with_loops[k].name + ".txt"@,
            asn_report(with_loops[k]),
        ) by {
            if k < then.len() {
                assert(now[k] == then[k] && with_loops[k] == with_then[k]);
            }
        }
        assert forall|k: int|
            0 <= k < ss.len() && (#[trigger] ss[k]).current.len() > 0 implies now.contains(
            ("report_"@ + ss[k].name + ".txt"@, asn_report(ss[k])),
        ) by {
            if k < before.len() {
                assert(before[k] == ss[k]);
                let i = choose|i: int|
                    0 <= i < then.len() && then[i] == (
                        "report_"@ + ss[k].name + ".txt"@,
                        asn_report(ss[k]),
                    );
                assert(now[i] == then[i]);
            }
        }
        assert forall|f: (Seq<char>, Seq<char>)| #[trigger] now.contains(f) implies exists|k: int|
            0 <= k < ss.len() && (#[trigger] ss[k]).current.len() > 0 && f == (
                "report_"@ + ss[k].name + ".txt"@,
                asn_report(ss[k]),
            ) by {
            let i = choose|i: int| 0 <= i < now.len() && now[i] == f;
            if i < then.len() {
                assert(then.contains(then[i]));
                let k = choose|k: int|
                    0 <= k < before.len() && (#[trigger] before[k]).current.len() > 0 && f == (
                        "report_"@ + before[k].name + ".txt"@,
                        asn_report(before[k]),
                    );
                assert(ss[k] == before[k]);
            } else {
                assert(ss[ss.len() - 1].current.len() > 0);
            }
        }
    }
}

/// A name can be told from the name of its file.
proof fn lemma_file_names(a: Seq<char>, b: Seq<char>)
    requires
        "report_"@ + a + ".txt"@ == "report_"@ + b + ".txt"@,
    ensures
        a == b,
{
    let (x, y) = ("report_"@ + a + ".txt"@, "report_"@ + b + ".txt"@);
    let n = "report_"@.len() as int;
    assert(x == y);
    assert(x.len() == n + a.len() + ".txt"@.len());
    assert(y.len() == n + b.len() + ".txt"@.len());
    assert(a =~= x.subrange(n, n + a.len()));
    assert(b =~= y.subrange(n, n + b.len()));
}

/// The systems that a report is about: those of the client's entries, in
/// ascending order, each once, and what each has in this scan and had in the one
/// before. A file goes along for a system exactly where this scan found a loop
/// there.
pub proof fn law_sections_are_the_systems(
    prefixes: Seq<Registered>,
    current: Set<Seq<Seq<char>>>,
    previous: Set<Seq<Seq<char>>>,
)
    requires
        current.finite(),
        forall|row: Seq<Seq<char>>| #[trigger] current.contains(row) ==> row.len() == 4,
    ensures
        ({
            let ss = sections(prefixes, current, previous);
            &&& forall|i: int, j: int|
                0 <= i < j < ss.len() ==> text_lt((#[trigger] ss[i]).name, (#[trigger] ss[j]).name)
            &&& forall|name: Seq<char>| #[trigger]
                labels(prefixes).contains(name) <==> exists|k: int|
                    0 <= k < ss.len() && (#[trigger] ss[k]).name == name
            &&& forall|k: int|
                0 <= k < ss.len() ==> {
                    let own = current.filter(|row: Seq<Seq<char>>| row[0] == (#[trigger] ss[k]).name);
                    let pair = |row: Seq<Seq<char>>| (row[1], row[2]);
                    let six = own.filter(|row: Seq<Seq<char>>| row[3].contains(':')).map(pair);
                    &&& ss[k].v6 == six.len()
                    &&& ss[k].v4 == own.map(pair).difference(six).len()
                    &&& ss[k].current == group_lines(current, ss[k].name)
                    &&& ss[k].previous == group_lines(previous, ss[k].name)
                    &&& ss[k].current.finite()
                    &&& attached(ss).contains(
                        ("report_"@ + ss[k].name + ".txt"@, asn_report(ss[k])),
                    ) <==> exists|row: Seq<Seq<char>>| #[trigger]
                        current.contains(row) && row[0] == ss[k].name
                }
        }),
{
    let ss = sections(prefixes, current, previous);
    let names = ascending(labels(prefixes));
    lemma_label_is_listed(prefixes, Seq::empty());
    lemma_ascending_lists(labels(prefixes));
    law_every_system_with_loops_has_its_file(ss);
    assert forall|i: int, j: int| 0 <= i < j < ss.len() implies text_lt(
        (#[trigger] ss[i]).name,
        (#[trigger] ss[j]).name,
    ) by {
        assert(text_lt(names[i], names[j]));
    }
    assert forall|name: Seq<char>| #[trigger] labels(prefixes).contains(name) <==> exists|k: int|
        0 <= k < ss.len() && (#[trigger] ss[k]).name == name by {
        if labels(prefixes).contains(name) {
            assert(names.to_set().contains(name));
            let k = choose|k: int| 0 <= k < names.len() && names[k] == name;
            assert(ss[k].name == name);
        }
        if exists|k: int| 0 <= k < ss.len() && (#[trigger] ss[k]).name == name {
            let k = choose|k: int| 0 <= k < ss.len() && (#[trigger] ss[k]).name == name;
            assert(names.to_set().contains(names[k]));
        }
    }
    assert forall|k: int| 0 <= k < ss.len() implies {
        let own = current.filter(|row: Seq<Seq<char>>| row[0] == (#[trigger] ss[k]).name);
        let pair = |row: Seq<Seq<char>>| (row[1], row[2]);
        let six = own.filter(|row: Seq<Seq<char>>| row[3].contains(':')).map(pair);
        &&& ss[k].v6 == six.len()
        &&& ss[k].v4 == own.map(pair).difference(six).len()
        &&& ss[k].current == group_lines(current, ss[k].name)
        &&& ss[k].previous == group_lines(previous, ss[k].name)
        &&& ss[k].current.finite()
        &&& attached(ss).contains(("report_"@ + ss[k].name + ".txt"@, asn_report(ss[k])))
            <==> exists|row: Seq<Seq<char>>| #[trigger]
            current.contains(row) && row[0] == ss[k].name
    } by {
        let s = ss[k];
        law_groups_are_pairs_of_loops(current, s.name);
        lemma_lines_are_finite(current, s.name);
        lemma_system_has_lines(current, s.name);
        let file = ("report_"@ + s.name + ".txt"@, asn_report(s));
        if attached(ss).contains(file) {
            let i = choose|i: int|
                0 <= i < ss.len() && (#[trigger] ss[i]).current.len() > 0 && file == (
                    "report_"@ + ss[i].name + ".txt"@,
                    asn_report(ss[i]),
                );
            lemma_file_names(s.name, ss[i].name);
            assert(s.current == ss[i].current);
        }
    }
}

/// The lines of a system are finitely many.
proof fn lemma_lines_are_finite(rows: Set<Seq<Seq<char>>>, asn: Seq<char>)
    requires
        rows.finite(),
    ensures
        group_lines(rows, asn).finite(),
{
    law_groups_are_counted_once(rows, asn);
    let keys = group_keys(rows, asn);
    let f = |k: (Seq<char>, Seq<char>)| line_of(k.0, k.1, group_targets(rows, asn, k.0, k.1));
    keys.lemma_map_finite(f);
    assert forall|l: Seq<char>| group_lines(rows, asn).contains(l) implies keys.map(f).contains(
        l,
    ) by {
        let (router, block) = choose|router: Seq<char>, block: Seq<char>| #[trigger]
            group_exists(rows, asn, router, block) && l == line_of(
                router,
                block,
                group_targets(rows, asn, router, block),
            );
        assert(keys.contains((router, block)) && l == f((router, block)));
    }
    vstd::set_lib::lemma_len_subset(group_lines(rows, asn), keys.map(f));
}

/// A system has lines exactly where it has loops.
proof fn lemma_system_has_lines(rows: Set<Seq<Seq<char>>>, asn: Seq<char>)
    requires
        rows.finite(),
        forall|row: Seq<Seq<char>>| #[trigger] rows.contains(row) ==> row.len() == 4,
    ensures
        group_lines(rows, asn).len() > 0 <==> exists|row: Seq<Seq<char>>| #[trigger]
            rows.contains(row) && row[0] == asn,
{
    let lines = group_lines(rows, asn);
    lemma_lines_are_finite(rows, asn);
    if lines.len() > 0 {
        let l = lines.choose();
        assert(lines.contains(l));
        let (router, block) = choose|router: Seq<char>, block: Seq<char>| #[trigger]
            group_exists(rows, asn, router, block) && l == line_of(
                router,
                block,
                group_targets(rows, asn, router, block),
            );
        let t = choose|t: Seq<char>| rows.contains(#[trigger] hit_row(asn, router, block, t));
        assert(rows.contains(hit_row(asn, router, block, t)) && hit_row(asn, router, block, t)[0]
            == asn);
    }
    if exists|row: Seq<Seq<char>>| #[trigger] rows.contains(row) && row[0] == asn {
        let row = choose|row: Seq<Seq<char>>| #[trigger] rows.contains(row) && row[0] == asn;
        assert(row =~= hit_row(asn, row[1], row[2], row[3]));
        assert(group_exists(rows, asn, row[1], row[2]));
        let l = line_of(row[1], row[2], group_targets(rows, asn, row[1], row[2]));
        assert(lines.contains(l));
        if lines.len() == 0 {
            assert(lines =~= Set::empty());
        }
    }
}

/// Somewhere in `text` stands `line`, as a line of its own.
pub open spec fn shows(text: Seq<char>, line: Seq<char>) -> bool {
    exists|a: Seq<char>, b: Seq<char>|
        text == #[trigger] (a + line + "\n"@ + b) && (a.len() == 0 || a.last() == '\n')
}

proof fn lemma_each_is_shown(s: Seq<Seq<char>>, i: int) -> (r: (Seq<char>, Seq<char>))
    requires
        0 <= i < s.len(),
    ensures
        each_on_a_line(s) == r.0 + s[i] + "\n"@ + r.1,
        r.0.len() == 0 || r.0.last() == '\n',
    decreases s.len(),
{
    reveal_strlit("\n");
    let before = each_on_a_line(s.drop_last());
    if i == s.len() - 1 {
        let none = Seq::<char>::empty();
        assert(before + s.last() + "\n"@ =~= before + s[i] + "\n"@ + none);
        if s.len() > 1 {
            assert(before.last() == '\n');
        }
        (before, none)
    } else {
        let (a, b) = lemma_each_is_shown(s.drop_last(), i);
        let c = b + s.last() + "\n"@;
        assert(s.drop_last()[i] == s[i]);
        assert(a + s[i] + "\n"@ + b + s.last() + "\n"@ =~= a + s[i] + "\n"@ + c);
        (a, c)
    }
}

/// Texts stand on their lines one after the other, and nothing else does.
pub proof fn law_lines_one_by_one(a: Seq<Seq<char>>, b: Seq<Seq<char>>, l: Seq<char>)
    ensures
        each_on_a_line(a + b) == each_on_a_line(a) + each_on_a_line(b),
        each_on_a_line(seq![l]) == l + "\n"@,
        each_on_a_line(Seq::empty()) == Seq::<char>::empty(),
    decreases b.len(),
{
    let one = seq![l];
    let none = Seq::<Seq<char>>::empty();
    assert(one.drop_last() =~= none);
    assert(each_on_a_line(none) =~= Seq::empty());
    assert(each_on_a_line(none) + l + "\n"@ =~= l + "\n"@);
    if b.len() == 0 {
        assert(a + b =~= a);
        assert(each_on_a_line(a) + each_on_a_line(b) =~= each_on_a_line(a));
    } else {
        law_lines_one_by_one(a, b.drop_last(), l);
        assert((a + b).drop_last() =~= a + b.drop_last());
        assert((a + b).last() == b.last());
        assert(each_on_a_line(a + b) =~= each_on_a_line(a) + each_on_a_line(b));
    }
}

/// What the report on a system shows: how many lines there are, and every one of
/// them, as a line of its own.
pub proof fn law_report_shows_every_line(s: Section, l: Seq<char>)
    requires
        s.current.finite(),
        s.current.contains(l),
    ensures
        shows(asn_report(s), l),
        ("CURRENT STATIC LOOPS: "@ + decimal(s.current.len()) + "\n"@).is_prefix_of(asn_report(s)),
{
    reveal_strlit("\n");
    reveal_strlit("====================\n\n");
    lemma_ascending_lists(s.current);
    let list = ascending(s.current);
    assert(list.to_set().contains(l));
    let i = choose|i: int| 0 <= i < list.len() && list[i] == l;
    let (a, b) = lemma_each_is_shown(list, i);
    let first = "CURRENT STATIC LOOPS: "@ + decimal(s.current.len()) + "\n"@;
    let head = first + "====================\n\n"@;
    let now = head + each_on_a_line(list) + "\n"@;
    let rest = asn_report(s).skip(now.len() as int);
    assert(asn_report(s) =~= now + rest);
    let (start, end) = (head + a, b + "\n"@ + rest);
    assert(asn_report(s) =~= start + l + "\n"@ + end);
    assert(head.last() == '\n');
    assert(start.last() == '\n');
    assert(asn_report(s).subrange(0, first.len() as int) =~= first);
}

/// The report on a system stands under its name, with a rule below the name that
/// is 15 characters longer than it is in bytes.
pub proof fn law_report_stands_under_its_name(s: Section)
    ensures
        exists|rule: Seq<char>|
            headed_report(s) == #[trigger] ("ASN: "@ + s.name + "\n"@ + rule + "\n"@) + asn_report(s)
                + "\n\n"@ && rule.len() == 15 + encode_utf8(s.name).len() && forall|i: int|
                0 <= i < rule.len() ==> rule[i] == '=',
{
    let rule = repeated('=', 15 + encode_utf8(s.name).len());
    assert(headed_report(s) == ("ASN: "@ + s.name + "\n"@ + rule + "\n"@) + asn_report(s) + "\n\n"@);
}

/// The report on a system begins with the number of its lines, and without loops
/// before it holds its lines, in order, and nothing else.
pub proof fn law_report_begins_with_the_number(s: Section)
    ensures
        ("CURRENT STATIC LOOPS: "@ + decimal(s.current.len()) + "\n"@).is_prefix_of(asn_report(s)),
        s.previous.is_empty() ==> asn_report(s) == "CURRENT STATIC LOOPS: "@ + decimal(
            s.current.len(),
        ) + "\n"@ + "====================\n\n"@ + each_on_a_line(ascending(s.current)) + "\n"@,
{
    let first = "CURRENT STATIC LOOPS: "@ + decimal(s.current.len()) + "\n"@;
    assert(asn_report(s).subrange(0, first.len() as int) =~= first);
}

/// The differences follow the report on the loops of this scan, where the scan
/// before had any, and every difference is shown, as a line of its own. Without
/// loops before there is nothing more.
pub proof fn law_report_shows_every_difference(s: Section, bare: Section, k: int)
    requires
        bare == (Section { previous: Set::empty(), ..s }),
    ensures
        s.previous.is_empty() ==> asn_report(s) == asn_report(bare),
        !s.previous.is_empty() ==> asn_report(bare).is_prefix_of(asn_report(s)),
        !s.previous.is_empty() && 0 <= k < differences(s.previous, s.current).len() ==> shows(
            asn_report(s),
            differences(s.previous, s.current)[k],
        ),
{
    assert(bare.previous.is_empty());
    let now = asn_report(bare);
    if !s.previous.is_empty() {
        reveal_strlit("\n");
        reveal_strlit(
            "===================================================================================================================================\n\n",
        );
        let d = differences(s.previous, s.current);
        let head = now + "PREVIOUS DIFFERENCES\n"@ + "====================\n\n"@
            + "OLD SIDE                                                                              NEW SIDE\n"@
            + "===================================================================================================================================\n\n"@;
        assert(asn_report(s) == head + each_on_a_line(d));
        assert(asn_report(s).subrange(0, now.len() as int) =~= now);
        if 0 <= k < d.len() {
            let (a, b) = lemma_each_is_shown(d, k);
            assert(asn_report(s) =~= (head + a) + d[k] + "\n"@ + b);
            assert(head.last() == '\n');
            assert((head + a).last() == '\n');
        }
    }
}

/// How a difference is written: a line that is gone stands on the left, filled up
/// to 85 characters, with `<` behind it; a new one stands behind 85 blanks and
/// `>`. Those that are gone come first.
pub proof fn law_differences_are_marked(
    previous: Set<Seq<char>>,
    current: Set<Seq<char>>,
    l: Seq<char>,
)
    requires
        previous.finite(),
        current.finite(),
    ensures
        gone_line(l).take(l.len() as int) == l,
        gone_line(l).len() == 2 + if l.len() < 85 {
            85
        } else {
            l.len()
        },
        forall|i: int|
            l.len() <= i < gone_line(l).len() - 1 ==> #[trigger] gone_line(l)[i] == ' ',
        gone_line(l).last() == '<',
        new_line(l).len() == 88 + l.len(),
        new_line(l).skip(88) == l,
        forall|i: int| 0 <= i < 88 && i != 86 ==> #[trigger] new_line(l)[i] == ' ',
        new_line(l)[86] == '>',
        differences(previous, current).len() == previous.difference(current).len()
            + current.difference(previous).len(),
        forall|i: int|
            0 <= i < previous.difference(current).len() ==> #[trigger] differences(
                previous,
                current,
            )[i] == gone_line(ascending(previous.difference(current))[i]),
{
    reveal_strlit(" <");
    reveal_strlit(" > ");
    reveal_strlit("");
    assert(gone_line(l).take(l.len() as int) =~= l);
    assert(new_line(l).skip(88) =~= l);
    let (gone, new) = (previous.difference(current), current.difference(previous));
    lemma_ascending_lists(gone);
    lemma_ascending_lists(new);
    lemma_listed_once(gone);
    lemma_listed_once(new);
}

/// A listing is as long as its set.
proof fn lemma_listed_once(set: Set<Seq<char>>)
    requires
        set.finite(),
    ensures
        ascending(set).len() == set.len(),
{
    lemma_ascending_lists(set);
    let s = ascending(set);
    assert(s.no_duplicates()) by {
        assert forall|i: int, j: int| 0 <= i < j < s.len() implies s[i] != s[j] by {
            assert(text_lt(s[i], s[j]));
            if s[i] == s[j] {
                lemma_text_lt_irreflexive(s[i]);
            }
        }
    }
    s.unique_seq_to_set();
}

proof fn lemma_totals_show(ss: Seq<Section>, k: int) -> (r: (Seq<char>, Seq<char>))
    requires
        0 <= k < ss.len(),
    ensures
        totals(ss) == r.0 + total_line(ss[k]) + r.1,
    decreases ss.len(),
{
    let before = totals(ss.drop_last());
    if k == ss.len() - 1 {
        let none = Seq::<char>::empty();
        assert(before + total_line(ss.last()) =~= before + total_line(ss[k]) + none);
        (before, none)
    } else {
        let (a, b) = lemma_totals_show(ss.drop_last(), k);
        let c = b + total_line(ss.last());
        assert(ss.drop_last()[k] == ss[k]);
        assert(a + total_line(ss[k]) + b + total_line(ss.last()) =~= a + total_line(ss[k]) + c);
        (a, c)
    }
}

/// The last character of a number stays where what follows it is cut.
proof fn lemma_number_stays(a: Seq<char>, head: Seq<char>, d: Seq<char>, end: Seq<char>, b: Seq<char>)
    requires
        d.len() > 0,
        '0' <= d.last() <= '9',
    ensures
        trim_end(a + (head + d + end) + b) == a + head + d + trim_end(end + b),
{
    let most = a + head + d.drop_last();
    assert(d =~= d.drop_last().push(d.last()));
    assert(a + (head + d + end) + b =~= most.push(d.last()) + (end + b));
    lemma_end_stays(most, d.last(), end + b);
    assert(most.push(d.last()) =~= a + head + d);
}

proof fn lemma_taken_apart(
    x: Seq<char>,
    a: Seq<char>,
    p: Seq<char>,
    q: Seq<char>,
    r: Seq<char>,
    t: Seq<char>,
    d: Seq<char>,
    y: Seq<char>,
    z: Seq<char>,
)
    ensures
        x + (a + (p + q + r + t) + d + y) + z == (x + a) + p + q + r + t + d + (y + z),
{
    assert(x + (a + (p + q + r + t) + d + y) + z =~= (x + a) + p + q + r + t + d + (y + z));
}

/// The email names the client, and gives the two numbers of every system.
pub proof fn law_email_gives_every_number(corporate_name: Seq<char>, ss: Seq<Section>, k: int)
    requires
        0 <= k < ss.len(),
    ensures
        exists|a: Seq<char>, b: Seq<char>|
            email_text(corporate_name, totals(ss)) == #[trigger] (a + ss[k].name + " - IPv4: "@
                + decimal(ss[k].v4) + " / IPv6: "@ + decimal(ss[k].v6) + b),
        exists|b: Seq<char>|
            email_text(corporate_name, totals(ss)) == #[trigger] (
            "Dear User,\n\nStatic Routing Loop Scan Report:\nCorporate Name: "@ + corporate_name
                + b),
{
    let s = ss[k];
    let (a, b) = lemma_totals_show(ss, k);
    law_decimal_is_read_back(s.v6);
    let d = decimal(s.v6);
    assert(d.last() == d[d.len() - 1]);
    let head = s.name + " - IPv4: "@ + decimal(s.v4) + " / IPv6: "@;
    lemma_number_stays(a, head, d, "\n"@, b);
    let start = "Dear User,\n\nStatic Routing Loop Scan Report:\nCorporate Name: "@
        + corporate_name;
    let middle = "\n\nTotals per ASN:\n"@;
    let end = "\n\nBest regards,\nLoopHunter Monitoring System"@;
    let cut = trim_end("\n"@ + b);
    lemma_taken_apart(
        start + middle,
        a,
        s.name,
        " - IPv4: "@,
        decimal(s.v4),
        " / IPv6: "@,
        d,
        cut,
        end,
    );
    let text = email_text(corporate_name, totals(ss));
    assert(trim_end(totals(ss)) == a + head + d + cut);
    assert(text == (start + middle + a) + s.name + " - IPv4: "@ + decimal(s.v4) + " / IPv6: "@
        + decimal(s.v6) + (cut + end));
    lemma_put_together(start, middle, trim_end(totals(ss)), end);
    assert(text == start + (middle + trim_end(totals(ss)) + end));
}

proof fn lemma_put_together(a: Seq<char>, b: Seq<char>, c: Seq<char>, d: Seq<char>)
    ensures
        a + b + c + d == a + (b + c + d),
{
    assert(a + b + c + d =~= a + (b + c + d));
}

/// What a report is made of: it is about the client, keeps the loops of this
/// scan, goes on from what was said before, and speaks of the systems of the
/// client's entries.
pub proof fn law_report_is_made_of(
    corporate_name: Seq<char>,
    prefixes: Seq<Registered>,
    previous: Seq<Saved>,
    fs: Seq<Finding>,
    console: Seq<char>,
)
    ensures
        ({
            let r = report_of(corporate_name, prefixes, previous, fs, console);
            let ss = sections(
                prefixes,
                current_rows(prefixes, fs),
                previous_rows(prefixes, previous),
            );
            &&& r.kept == kept(fs)
            &&& r.subject == "STATIC LOOP - "@ + corporate_name
            &&& r.console == console + "\n"@ + report_body(ss)
            &&& r.files == attached(ss)
            &&& r.body == email_text(corporate_name, totals(ss))
            &&& r.loops == loop_count(ss)
            &&& r.changes == changed(ss)
        }),
{
}

/// When a client is told: where this scan found a loop in one of its systems, and
/// where a loop there is in one of the two scans only. A client of whom nothing
/// was scanned is not told.
pub proof fn law_client_is_told(
    corporate_name: Seq<char>,
    prefixes: Seq<Registered>,
    previous: Seq<Saved>,
    fs: Seq<Finding>,
    console: Seq<char>,
)
    requires
        current_rows(prefixes, fs).finite(),
        previous_rows(prefixes, previous).finite(),
        are_plain(current_rows(prefixes, fs)),
        are_plain(previous_rows(prefixes, previous)),
    ensures
        report_of(corporate_name, prefixes, previous, fs, console).is_told() <==> {
            ||| exists|row: Seq<Seq<char>>| #[trigger]
                current_rows(prefixes, fs).contains(row) && labels(prefixes).contains(row[0])
            ||| rows_differ(
                labels(prefixes),
                current_rows(prefixes, fs),
                previous_rows(prefixes, previous),
            )
        },
        !console_only(console).is_told(),
        console_only(console).console == console,
        console_only(console).kept == Seq::<Saved>::empty(),
        console_only(console).files == Seq::<(Seq<char>, Seq<char>)>::empty(),
{
    let (now, before) = (current_rows(prefixes, fs), previous_rows(prefixes, previous));
    let ss = sections(prefixes, now, before);
    law_changes_are_changed_loops(prefixes, now, before);
    law_sections_are_the_systems(prefixes, now, before);
    lemma_count_of_none(ss);
    if loop_count(ss) > 0 {
        let k = choose|k: int| 0 <= k < ss.len() && (#[trigger] ss[k]).current.len() > 0;
        lemma_system_has_lines(now, ss[k].name);
        let row = choose|row: Seq<Seq<char>>| #[trigger] now.contains(row) && row[0] == ss[k].name;
        assert(labels(prefixes).contains(ss[k].name));
        assert(now.contains(row) && labels(prefixes).contains(row[0]));
    }
    if exists|row: Seq<Seq<char>>| #[trigger] now.contains(row) && labels(prefixes).contains(row[0]) {
        let row = choose|row: Seq<Seq<char>>| #[trigger]
            now.contains(row) && labels(prefixes).contains(row[0]);
        let k = choose|k: int| 0 <= k < ss.len() && (#[trigger] ss[k]).name == row[0];
        lemma_system_has_lines(now, ss[k].name);
        assert(ss[k].current.len() > 0);
    }
}

/// There is nothing to count exactly where no system has lines.
proof fn lemma_count_of_none(ss: Seq<Section>)
    ensures
        loop_count(ss) > 0 <==> exists|k: int|
            0 <= k < ss.len() && (#[trigger] ss[k]).current.len() > 0,
    decreases ss.len(),
{
    if ss.len() > 0 {
        let before = ss.drop_last();
        lemma_count_of_none(before);
        assert(ss.last() == ss[ss.len() - 1]);
        if loop_count(before) > 0 {
            let k = choose|k: int| 0 <= k < before.len() && (#[trigger] before[k]).current.len() > 0;
            assert(ss[k] == before[k]);
        }
        if exists|k: int| 0 <= k < ss.len() && (#[trigger] ss[k]).current.len() > 0 {
            let k = choose|k: int| 0 <= k < ss.len() && (#[trigger] ss[k]).current.len() > 0;
            if k < before.len() {
                assert(before[k] == ss[k]);
            }
        }
    }
}

/// A report says what it holds.
pub proof fn law_report_is_what_it_holds(r: ClientScanReport)
    ensures
        r@.kept == saved(r.saved_loops@),
        r@.console == r.console_output@,
        r@.files == files(r.email_attachments@),
        r@.subject == r.email_subject@,
        r@.body == r.email_body@,
        r@.loops == r.total_loops,
        r@.changes == r.has_changes,
{
}

} // verus!
