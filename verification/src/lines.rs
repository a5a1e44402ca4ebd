//! What the lines of a report tell of the loops that they show.
use vstd::prelude::*;

use crate::groups::{
    group_exists, group_keys, group_lines, group_targets, hit_row, holds_ipv6, joined_by,
    law_groups_are_counted_once, line_of,
};
use crate::order::{ascending, lemma_ascending_lists};

verus! {

/// A loop whose texts cannot be mistaken for what stands between them in a line:
/// no blank in its router or its block, and no comma in its address. A block
/// that is not the address itself is one of an IPv6 address.
pub open spec fn is_plain(row: Seq<Seq<char>>) -> bool {
    &&& row.len() == 4
    &&& !row[1].contains(' ')
    &&& !row[2].contains(' ')
    &&& !row[3].contains(',')
    &&& !row[3].contains(':') ==> row[2] == row[3]
}

/// Loops that are all plain in this way.
pub open spec fn are_plain(rows: Set<Seq<Seq<char>>>) -> bool {
    forall|row: Seq<Seq<char>>| #[trigger] rows.contains(row) ==> is_plain(row)
}

/// What stands before the first blank, and what begins with it.
proof fn lemma_split_at_blank(a: Seq<char>, x: Seq<char>, b: Seq<char>, y: Seq<char>)
    requires
        a + x == b + y,
        !a.contains(' '),
        !b.contains(' '),
        x.len() > 0 ==> x[0] == ' ',
        y.len() > 0 ==> y[0] == ' ',
    ensures
        a == b,
        x == y,
{
    let whole = a + x;
    assert(whole.len() == a.len() + x.len() && whole.len() == b.len() + y.len());
    if a.len() < b.len() {
        assert(whole[a.len() as int] == x[0]);
        assert(whole[a.len() as int] == b[a.len() as int]);
        assert(b.contains(b[a.len() as int]));
    }
    if b.len() < a.len() {
        assert(whole[b.len() as int] == y[0]);
        assert(whole[b.len() as int] == a[b.len() as int]);
        assert(a.contains(a[b.len() as int]));
    }
    assert(a =~= whole.take(a.len() as int));
    assert(b =~= whole.take(a.len() as int));
    assert(x =~= whole.skip(a.len() as int));
    assert(y =~= whole.skip(a.len() as int));
}

/// What stands before the last comma, and what stands behind it and a blank.
proof fn lemma_split_at_comma(a: Seq<char>, x: Seq<char>, b: Seq<char>, y: Seq<char>)
    requires
        a + ", "@ + x == b + ", "@ + y,
        !x.contains(','),
        !y.contains(','),
    ensures
        a == b,
        x == y,
{
    reveal_strlit(", ");
    let whole = a + ", "@ + x;
    assert(whole.len() == a.len() + 2 + x.len() && whole.len() == b.len() + 2 + y.len());
    assert(whole[a.len() as int] == ',');
    assert(whole[b.len() as int] == ',');
    if a.len() < b.len() {
        if b.len() == a.len() + 1 {
            assert(whole[a.len() as int + 1] == ' ');
        } else {
            let k = b.len() - a.len() - 2;
            assert(whole[b.len() as int] == x[k]);
            assert(x.contains(x[k]));
        }
    }
    if b.len() < a.len() {
        if a.len() == b.len() + 1 {
            assert(whole[b.len() as int + 1] == ' ');
        } else {
            let k = a.len() - b.len() - 2;
            assert(whole[a.len() as int] == y[k]);
            assert(y.contains(y[k]));
        }
    }
    assert(a =~= whole.take(a.len() as int));
    assert(b =~= whole.take(a.len() as int));
    assert(x =~= whole.skip(a.len() as int + 2));
    assert(y =~= whole.skip(a.len() as int + 2));
}

/// Texts with commas between them can be told apart.
proof fn lemma_joined_texts(s: Seq<Seq<char>>, t: Seq<Seq<char>>)
    requires
        s.len() > 0,
        t.len() > 0,
        forall|i: int| 0 <= i < s.len() ==> !(#[trigger] s[i]).contains(','),
        forall|i: int| 0 <= i < t.len() ==> !(#[trigger] t[i]).contains(','),
        joined_by(s, ", "@) == joined_by(t, ", "@),
    ensures
        s == t,
    decreases s.len(),
{
    reveal_strlit(", ");
    assert(s.last() == s[s.len() - 1] && t.last() == t[t.len() - 1]);
    if s.len() == 1 && t.len() == 1 {
        assert(s =~= t);
    } else if s.len() == 1 {
        let a = joined_by(t.drop_last(), ", "@);
        assert((a + ", "@ + t.last())[a.len() as int] == ',');
        assert(s[0].contains(','));
    } else if t.len() == 1 {
        let a = joined_by(s.drop_last(), ", "@);
        assert((a + ", "@ + s.last())[a.len() as int] == ',');
        assert(t[0].contains(','));
    } else {
        lemma_split_at_comma(
            joined_by(s.drop_last(), ", "@),
            s.last(),
            joined_by(t.drop_last(), ", "@),
            t.last(),
        );
        lemma_joined_texts(s.drop_last(), t.drop_last());
        assert(s =~= s.drop_last().push(s.last()));
        assert(t =~= t.drop_last().push(t.last()));
    }
}

/// What stands behind the block in the line of a group.
spec fn tail_of(targets: Set<Seq<char>>) -> Seq<char> {
    if holds_ipv6(targets) {
        " (target: "@ + joined_by(ascending(targets), ", "@) + ")"@
    } else {
        Seq::empty()
    }
}

/// A line tells the router and the block of its group, and what it shows of the
/// addresses.
proof fn lemma_line_tells_its_group(
    router: Seq<char>,
    block: Seq<char>,
    targets: Set<Seq<char>>,
    other_router: Seq<char>,
    other_block: Seq<char>,
    other_targets: Set<Seq<char>>,
)
    requires
        line_of(router, block, targets) == line_of(other_router, other_block, other_targets),
        !router.contains(' '),
        !block.contains(' '),
        !other_router.contains(' '),
        !other_block.contains(' '),
    ensures
        router == other_router,
        block == other_block,
        holds_ipv6(targets) == holds_ipv6(other_targets),
        holds_ipv6(targets) ==> joined_by(ascending(targets), ", "@) == joined_by(
            ascending(other_targets),
            ", "@,
        ),
{
    reveal_strlit(" - ");
    reveal_strlit(" (target: ");
    reveal_strlit(")");
    let (tail, other_tail) = (tail_of(targets), tail_of(other_targets));
    let rest = " - "@ + (block + tail);
    let other_rest = " - "@ + (other_block + other_tail);
    assert(line_of(router, block, targets) =~= router + rest);
    assert(line_of(other_router, other_block, other_targets) =~= other_router + other_rest);
    lemma_split_at_blank(router, rest, other_router, other_rest);
    assert(block + tail =~= rest.skip(3));
    assert(other_block + other_tail =~= other_rest.skip(3));
    lemma_split_at_blank(block, tail, other_block, other_tail);
    if holds_ipv6(targets) {
        let (list, other_list) = (
            joined_by(ascending(targets), ", "@),
            joined_by(ascending(other_targets), ", "@),
        );
        assert(tail.len() > 0 && other_tail.len() > 0);
        assert(list =~= tail.subrange(10, tail.len() - 1));
        assert(other_list =~= other_tail.subrange(10, other_tail.len() - 1));
    }
}

/// Every group of a system has a line of its own, so that the lines that are
/// counted are the groups.
pub proof fn law_every_group_has_its_line(rows: Set<Seq<Seq<char>>>, asn: Seq<char>)
    requires
        rows.finite(),
        forall|row: Seq<Seq<char>>| #[trigger]
            rows.contains(row) ==> !row[1].contains(' ') && !row[2].contains(' '),
    ensures
        group_lines(rows, asn).finite(),
        group_lines(rows, asn).len() == group_keys(rows, asn).len(),
{
    let (keys, lines) = (group_keys(rows, asn), group_lines(rows, asn));
    let f = |k: (Seq<char>, Seq<char>)| line_of(k.0, k.1, group_targets(rows, asn, k.0, k.1));
    law_groups_are_counted_once(rows, asn);
    assert forall|k: (Seq<char>, Seq<char>)| #[trigger] keys.contains(k) implies !k.0.contains(' ')
        && !k.1.contains(' ') by {
        let t = choose|t: Seq<char>| rows.contains(#[trigger] hit_row(asn, k.0, k.1, t));
        let row = hit_row(asn, k.0, k.1, t);
        assert(rows.contains(row) && row[1] == k.0 && row[2] == k.1);
    }
    assert forall|k: (Seq<char>, Seq<char>), l: (Seq<char>, Seq<char>)|
        keys.contains(k) && keys.contains(l) && #[trigger] f(k) == #[trigger] f(l) implies k
        == l by {
        lemma_line_tells_its_group(
            k.0,
            k.1,
            group_targets(rows, asn, k.0, k.1),
            l.0,
            l.1,
            group_targets(rows, asn, l.0, l.1),
        );
    }
    assert forall|line: Seq<char>| keys.map(f).contains(line) <==> lines.contains(line) by {
        if keys.map(f).contains(line) {
            let k = choose|k: (Seq<char>, Seq<char>)| keys.contains(k) && line == f(k);
            assert(group_exists(rows, asn, k.0, k.1));
        }
        if lines.contains(line) {
            let (router, block) = choose|router: Seq<char>, block: Seq<char>| #[trigger]
                group_exists(rows, asn, router, block) && line == line_of(
                    router,
                    block,
                    group_targets(rows, asn, router, block),
                );
            assert(keys.contains((router, block)) && line == f((router, block)));
        }
    }
    assert(keys.map(f) =~= lines);
    vstd::set_lib::lemma_map_size(keys, lines, f);
}

/// The addresses of a group are finitely many, and can be listed.
proof fn lemma_targets_are_listed(
    rows: Set<Seq<Seq<char>>>,
    asn: Seq<char>,
    router: Seq<char>,
    block: Seq<char>,
)
    requires
        rows.finite(),
    ensures
        ascending(group_targets(rows, asn, router, block)).to_set() == group_targets(
            rows,
            asn,
            router,
            block,
        ),
{
    let targets = group_targets(rows, asn, router, block);
    let f = |row: Seq<Seq<char>>| row[3];
    rows.lemma_map_finite(f);
    assert forall|t: Seq<char>| targets.contains(t) implies rows.map(f).contains(t) by {
        let row = hit_row(asn, router, block, t);
        assert(rows.contains(row) && f(row) == t);
    }
    vstd::set_lib::lemma_len_subset(targets, rows.map(f));
    lemma_ascending_lists(targets);
}

/// A loop is among those whose lines hold the line of its group.
proof fn lemma_line_tells_its_loops(
    a: Set<Seq<Seq<char>>>,
    b: Set<Seq<Seq<char>>>,
    asn: Seq<char>,
    row: Seq<Seq<char>>,
)
    requires
        a.finite(),
        b.finite(),
        are_plain(a),
        are_plain(b),
        group_lines(a, asn).subset_of(group_lines(b, asn)),
        a.contains(row),
        row[0] == asn,
    ensures
        b.contains(row),
{
    let (router, block, target) = (row[1], row[2], row[3]);
    let targets = group_targets(a, asn, router, block);
    let line = line_of(router, block, targets);
    assert(is_plain(row));
    assert(row =~= hit_row(asn, router, block, target));
    assert(group_exists(a, asn, router, block));
    assert(group_lines(a, asn).contains(line));
    assert(group_lines(b, asn).contains(line));
    let (other_router, other_block) = choose|r: Seq<char>, s: Seq<char>| #[trigger]
        group_exists(b, asn, r, s) && line == line_of(r, s, group_targets(b, asn, r, s));
    let others = group_targets(b, asn, other_router, other_block);
    let t = choose|t: Seq<char>| b.contains(#[trigger] hit_row(asn, other_router, other_block, t));
    let other = hit_row(asn, other_router, other_block, t);
    assert(is_plain(other));
    assert(other[1] == other_router && other[2] == other_block && other[3] == t);
    lemma_line_tells_its_group(router, block, targets, other_router, other_block, others);
    assert(targets.contains(target));
    assert(others.contains(t));
    if holds_ipv6(targets) {
        let (s, o) = (ascending(targets), ascending(others));
        lemma_targets_are_listed(a, asn, router, block);
        lemma_targets_are_listed(b, asn, other_router, other_block);
        assert(s.to_set().contains(target));
        assert(o.to_set().contains(t));
        assert forall|i: int| 0 <= i < s.len() implies !(#[trigger] s[i]).contains(',') by {
            assert(s.to_set().contains(s[i]));
            assert(is_plain(hit_row(asn, router, block, s[i])));
            assert(hit_row(asn, router, block, s[i])[3] == s[i]);
        }
        assert forall|i: int| 0 <= i < o.len() implies !(#[trigger] o[i]).contains(',') by {
            assert(o.to_set().contains(o[i]));
            assert(is_plain(hit_row(asn, router, block, o[i])));
            assert(hit_row(asn, router, block, o[i])[3] == o[i]);
        }
        lemma_joined_texts(s, o);
        assert(others.contains(target));
    } else {
        assert(!target.contains(':'));
        assert(!t.contains(':'));
    }
}

/// The same loops are shown in the same lines.
proof fn lemma_same_loops_same_lines(
    a: Set<Seq<Seq<char>>>,
    b: Set<Seq<Seq<char>>>,
    asn: Seq<char>,
    line: Seq<char>,
)
    requires
        forall|router: Seq<char>, block: Seq<char>, target: Seq<char>|
            a.contains(#[trigger] hit_row(asn, router, block, target)) <==> b.contains(
                hit_row(asn, router, block, target),
            ),
        group_lines(a, asn).contains(line),
    ensures
        group_lines(b, asn).contains(line),
{
    let (router, block) = choose|router: Seq<char>, block: Seq<char>| #[trigger]
        group_exists(a, asn, router, block) && line == line_of(
            router,
            block,
            group_targets(a, asn, router, block),
        );
    let t = choose|t: Seq<char>| a.contains(#[trigger] hit_row(asn, router, block, t));
    assert(b.contains(hit_row(asn, router, block, t)));
    assert(group_exists(b, asn, router, block));
    assert(group_targets(a, asn, router, block) =~= group_targets(b, asn, router, block));
}

/// The lines of a system are the same exactly where its loops are.
pub proof fn law_lines_tell_the_loops(
    a: Set<Seq<Seq<char>>>,
    b: Set<Seq<Seq<char>>>,
    asn: Seq<char>,
)
    requires
        a.finite(),
        b.finite(),
        are_plain(a),
        are_plain(b),
    ensures
        group_lines(a, asn) == group_lines(b, asn) <==> forall|
            router: Seq<char>,
            block: Seq<char>,
            target: Seq<char>,
        |
            a.contains(#[trigger] hit_row(asn, router, block, target)) <==> b.contains(
                hit_row(asn, router, block, target),
            ),
{
    if group_lines(a, asn) == group_lines(b, asn) {
        assert forall|router: Seq<char>, block: Seq<char>, target: Seq<char>| a.contains(
            #[trigger] hit_row(asn, router, block, target),
        ) <==> b.contains(hit_row(asn, router, block, target)) by {
            let row = hit_row(asn, router, block, target);
            if a.contains(row) {
                lemma_line_tells_its_loops(a, b, asn, row);
            }
            if b.contains(row) {
                lemma_line_tells_its_loops(b, a, asn, row);
            }
        }
    }
    if forall|router: Seq<char>, block: Seq<char>, target: Seq<char>|
        a.contains(#[trigger] hit_row(asn, router, block, target)) <==> b.contains(
            hit_row(asn, router, block, target),
        ) {
        assert forall|line: Seq<char>| group_lines(a, asn).contains(line) <==> group_lines(
            b,
            asn,
        ).contains(line) by {
            if group_lines(a, asn).contains(line) {
                lemma_same_loops_same_lines(a, b, asn, line);
            }
            if group_lines(b, asn).contains(line) {
                lemma_same_loops_same_lines(b, a, asn, line);
            }
        }
        assert(group_lines(a, asn) =~= group_lines(b, asn));
    }
}

} // verus!
