//! Loops gathered by system, router and block of addresses.
use vstd::prelude::*;

use crate::order::{
    ascending, lemma_ascending, lemma_row_lt_at, lemma_row_lt_irreflexive, lemma_text_lt_irreflexive,
    lemma_text_lt_transitive, lemma_text_set, row_differs_at, row_lt, rows_ascend, text_lt, text_set,
    texts_ascend, OrderedSet, Row,
};
use crate::text::{compare_text, has_char, same_text, texts, Rank};

verus! {

/// One address that loops: the autonomous system it is counted for, the router
/// that reported it, the block that it belongs to, and the address itself.
pub struct Hit {
    pub asn: String,
    pub router: String,
    pub block: String,
    pub target: String,
}

/// The fields of a hit, in the order in which they are compared.
pub open spec fn hit_row(
    asn: Seq<char>,
    router: Seq<char>,
    block: Seq<char>,
    target: Seq<char>,
) -> Seq<Seq<char>> {
    seq![asn, router, block, target]
}

/// Two rows belong to one group.
pub open spec fn same_group(a: Seq<Seq<char>>, b: Seq<Seq<char>>) -> bool {
    a[0] == b[0] && a[1] == b[1] && a[2] == b[2]
}

impl Row for Hit {
    open spec fn row(&self) -> Seq<Seq<char>> {
        hit_row(self.asn@, self.router@, self.block@, self.target@)
    }

    fn compare(&self, other: &Self) -> (r: Rank) {
        let ghost (a, b) = (self.row(), other.row());
        let first = compare_text(self.asn.as_str(), other.asn.as_str());
        proof {
            assert(a.take(0) =~= b.take(0));
            lemma_row_lt_at(a, b, 0);
            lemma_row_lt_at(b, a, 0);
        }
        if first != Rank::Same {
            return first;
        }
        let second = compare_text(self.router.as_str(), other.router.as_str());
        proof {
            assert(a.take(1) =~= b.take(1));
            lemma_row_lt_at(a, b, 1);
            lemma_row_lt_at(b, a, 1);
        }
        if second != Rank::Same {
            return second;
        }
        let third = compare_text(self.block.as_str(), other.block.as_str());
        proof {
            assert(a.take(2) =~= b.take(2));
            lemma_row_lt_at(a, b, 2);
            lemma_row_lt_at(b, a, 2);
        }
        if third != Rank::Same {
            return third;
        }
        let fourth = compare_text(self.target.as_str(), other.target.as_str());
        proof {
            assert(a.take(3) =~= b.take(3));
            lemma_row_lt_at(a, b, 3);
            lemma_row_lt_at(b, a, 3);
            if fourth == Rank::Same {
                assert(a =~= b);
                lemma_row_lt_irreflexive(a);
            }
        }
        fourth
    }
}

/// Between two rows of a group, in order, stand rows of that group only.
proof fn lemma_groups_are_contiguous(
    a: Seq<Seq<char>>,
    b: Seq<Seq<char>>,
    c: Seq<Seq<char>>,
)
    requires
        a.len() == 4,
        b.len() == 4,
        c.len() == 4,
        row_lt(a, b),
        row_lt(b, c),
        same_group(a, c),
    ensures
        same_group(a, b),
{
    let i = choose|k: int| #[trigger]
        row_differs_at(a, b, k) && k < b.len() && (k < a.len() ==> text_lt(a[k], b[k]));
    let j = choose|k: int| #[trigger]
        row_differs_at(b, c, k) && k < c.len() && (k < b.len() ==> text_lt(b[k], c[k]));
    assert forall|k: int| 0 <= k < i implies #[trigger] a[k] == b[k] by {
        assert(a.take(i)[k] == a[k] && b.take(i)[k] == b[k]);
    }
    assert forall|k: int| 0 <= k < j implies #[trigger] b[k] == c[k] by {
        assert(b.take(j)[k] == b[k] && c.take(j)[k] == c[k]);
    }
    if i < 3 {
        assert(a[i] == c[i]);
        if j < i {
            assert(a[j] == b[j] && a[j] == c[j]);
        } else if j == i {
            lemma_text_lt_transitive(a[i], b[i], a[i]);
            lemma_text_lt_irreflexive(a[i]);
        } else {
            assert(b[i] == c[i]);
        }
        assert(false);
    }
}

/// Rows of one group stand as their targets do.
proof fn lemma_targets_ascend(a: Seq<Seq<char>>, b: Seq<Seq<char>>)
    requires
        a.len() == 4,
        b.len() == 4,
        row_lt(a, b),
        same_group(a, b),
    ensures
        text_lt(a[3], b[3]),
{
    assert(a.take(3) =~= b.take(3));
    if a[3] == b[3] {
        assert(a =~= b);
        lemma_row_lt_irreflexive(a);
    }
    lemma_row_lt_at(a, b, 3);
}

/// The addresses that `router` reported in `block`.
pub open spec fn group_targets(
    rows: Set<Seq<Seq<char>>>,
    asn: Seq<char>,
    router: Seq<char>,
    block: Seq<char>,
) -> Set<Seq<char>> {
    Set::new(|t: Seq<char>| rows.contains(hit_row(asn, router, block, t)))
}

/// Whether `router` reported anything in `block`.
pub open spec fn group_exists(
    rows: Set<Seq<Seq<char>>>,
    asn: Seq<char>,
    router: Seq<char>,
    block: Seq<char>,
) -> bool {
    exists|t: Seq<char>| rows.contains(#[trigger] hit_row(asn, router, block, t))
}

/// Whether one of the addresses is an IPv6 address, as its text shows.
pub open spec fn holds_ipv6(targets: Set<Seq<char>>) -> bool {
    exists|t: Seq<char>| #[trigger] targets.contains(t) && t.contains(':')
}

/// The texts, with `between` between any two of them.
pub open spec fn joined_by(s: Seq<Seq<char>>, between: Seq<char>) -> Seq<char>
    decreases s.len(),
{
    if s.len() == 0 {
        Seq::empty()
    } else if s.len() == 1 {
        s[0]
    } else {
        joined_by(s.drop_last(), between) + between + s.last()
    }
}

/// How a group is shown: the router and the block, and behind an IPv6 block the
/// addresses in it that loop.
pub open spec fn line_of(router: Seq<char>, block: Seq<char>, targets: Set<Seq<char>>) -> Seq<
    char,
> {
    if holds_ipv6(targets) {
        router + " - "@ + block + " (target: "@ + joined_by(ascending(targets), ", "@) + ")"@
    } else {
        router + " - "@ + block
    }
}

/// The groups of a system, by router and block.
pub open spec fn group_keys(rows: Set<Seq<Seq<char>>>, asn: Seq<char>) -> Set<
    (Seq<char>, Seq<char>),
> {
    Set::new(|k: (Seq<char>, Seq<char>)| group_exists(rows, asn, k.0, k.1))
}

/// Those of them that hold an IPv6 address.
pub open spec fn ipv6_keys(rows: Set<Seq<Seq<char>>>, asn: Seq<char>) -> Set<
    (Seq<char>, Seq<char>),
> {
    Set::new(
        |k: (Seq<char>, Seq<char>)|
            group_exists(rows, asn, k.0, k.1) && holds_ipv6(group_targets(rows, asn, k.0, k.1)),
    )
}

/// Those of them that do not.
pub open spec fn ipv4_keys(rows: Set<Seq<Seq<char>>>, asn: Seq<char>) -> Set<
    (Seq<char>, Seq<char>),
> {
    Set::new(
        |k: (Seq<char>, Seq<char>)|
            group_exists(rows, asn, k.0, k.1) && !holds_ipv6(group_targets(rows, asn, k.0, k.1)),
    )
}

/// The lines that show the groups of a system.
pub open spec fn group_lines(rows: Set<Seq<Seq<char>>>, asn: Seq<char>) -> Set<Seq<char>> {
    Set::new(
        |l: Seq<char>|
            exists|router: Seq<char>, block: Seq<char>| #[trigger]
                group_exists(rows, asn, router, block) && l == line_of(
                    router,
                    block,
                    group_targets(rows, asn, router, block),
                ),
    )
}

/// The addresses that one router reported in one block.
pub struct Group {
    pub router: String,
    pub block: String,
    /// In ascending order.
    pub targets: Vec<String>,
}

/// `g` is a group of the system `asn`, with all its addresses.
pub open spec fn is_group(g: Group, rows: Set<Seq<Seq<char>>>, asn: Seq<char>) -> bool {
    &&& group_exists(rows, asn, g.router@, g.block@)
    &&& texts_ascend(texts(g.targets@))
    &&& texts(g.targets@).to_set() == group_targets(rows, asn, g.router@, g.block@)
}

/// `groups` are groups of the system `asn`, each with all its addresses, and no
/// two of them are the same.
pub open spec fn are_groups(groups: Seq<Group>, rows: Set<Seq<Seq<char>>>, asn: Seq<char>) -> bool {
    &&& forall|i: int| 0 <= i < groups.len() ==> is_group(#[trigger] groups[i], rows, asn)
    &&& forall|i: int, j: int|
        0 <= i < j < groups.len() ==> (#[trigger] groups[i]).router@ != (
        #[trigger] groups[j]).router@ || groups[i].block@ != groups[j].block@
}

/// The number of rows that belong to a system.
pub open spec fn rows_of(rows: Seq<Seq<Seq<char>>>, asn: Seq<char>) -> nat
    decreases rows.len(),
{
    if rows.len() == 0 {
        0
    } else {
        rows_of(rows.drop_last(), asn) + if rows.last()[0] == asn {
            1nat
        } else {
            0nat
        }
    }
}

/// `row` belongs to the group `g` of the system `asn`.
spec fn is_row_of(row: Seq<Seq<char>>, g: Group, asn: Seq<char>) -> bool {
    row[0] == asn && row[1] == g.router@ && row[2] == g.block@
}

/// One of the first `end` rows belongs to the group `g`.
spec fn occurs(g: Group, rows: Seq<Seq<Seq<char>>>, end: int, asn: Seq<char>) -> bool {
    exists|j: int| 0 <= j < end && is_row_of(#[trigger] rows[j], g, asn)
}

/// Gathers the hits of the system `asn` into groups.
pub fn groups_of(hits: &OrderedSet<Hit>, asn: &str) -> (r: Vec<Group>)
    requires
        hits.wf(),
    ensures
        are_groups(r@, hits.set(), asn@),
        forall|router: Seq<char>, block: Seq<char>| #[trigger]
            group_exists(hits.set(), asn@, router, block) ==> exists|i: int|
                0 <= i < r@.len() && (#[trigger] r@[i]).router@ == router && r@[i].block@ == block,
        r@.len() <= rows_of(hits.rows(), asn@),
{
    let ghost rows = hits.rows();
    let ghost set = hits.set();
    let mut groups: Vec<Group> = Vec::new();
    let mut i: usize = 0;
    assert(rows.take(0) =~= Seq::empty());
    while i < hits.items.len()
        invariant
            i <= hits.items@.len() == rows.len(),
            rows == hits.rows(),
            set == hits.set(),
            hits.wf(),
            are_groups(groups@, set, asn@),
            groups@.len() <= rows_of(rows.take(i as int), asn@),
            // Every row of the system that was passed is in one of the groups.
            forall|j: int|
                0 <= j < i && (#[trigger] rows[j])[0] == asn@ ==> exists|g: int|
                    0 <= g < groups@.len() && (#[trigger] groups@[g]).router@ == rows[j][1]
                        && groups@[g].block@ == rows[j][2],
            // Every group has been passed.
            forall|g: int| 0 <= g < groups@.len() ==> occurs(#[trigger] groups@[g], rows, i as int, asn@),
            // No group goes on.
            forall|j: int, k: int|
                0 <= j < i <= k < rows.len() && rows[j][0] == asn@ ==> !same_group(
                    #[trigger] rows[j],
                    #[trigger] rows[k],
                ),
        decreases hits.items@.len() - i,
    {
        assert(rows[i as int] == hits.items@[i as int].row());
        assert(rows.take(i + 1).drop_last() =~= rows.take(i as int));
        if !same_text(hits.items[i].asn.as_str(), asn) {
            i = i + 1;
        } else {
            let start = i;
            let ghost head = rows[start as int];
            let router = hits.items[start].router.clone();
            let block = hits.items[start].block.clone();
            let mut targets: Vec<String> = Vec::new();
            assert(texts(targets@) =~= Seq::empty());
            while i < hits.items.len() && same_text(hits.items[i].asn.as_str(), asn) && same_text(
                hits.items[i].router.as_str(),
                router.as_str(),
            ) && same_text(hits.items[i].block.as_str(), block.as_str())
                invariant
                    start <= i <= hits.items@.len() == rows.len(),
                    rows == hits.rows(),
                    hits.wf(),
                    start < rows.len(),
                    head == rows[start as int],
                    head == hit_row(asn@, router@, block@, head[3]),
                    targets@.len() == i - start,
                    forall|j: int|
                        0 <= j < targets@.len() ==> texts(targets@)[j] == (#[trigger] rows[start
                            + j])[3],
                    forall|j: int| start <= j < i ==> same_group(head, #[trigger] rows[j]),
                    rows_of(rows.take(start as int), asn@) + (i - start) <= rows_of(
                        rows.take(i as int),
                        asn@,
                    ),
                decreases hits.items@.len() - i,
            {
                let ghost before = targets@;
                assert(rows[i as int] == hits.items@[i as int].row());
                assert(rows.take(i + 1).drop_last() =~= rows.take(i as int));
                targets.push(hits.items[i].target.clone());
                assert(texts(targets@) =~= texts(before).push(rows[i as int][3]));
                assert forall|j: int| 0 <= j < targets@.len() implies texts(targets@)[j] == (
                #[trigger] rows[start + j])[3] by {
                    if j < before.len() {
                        assert(texts(targets@)[j] == texts(before)[j]);
                    }
                }
                i = i + 1;
            }
            proof {
                lemma_run_is_a_group(rows, start as int, i as int, asn@, texts(targets@), set, hits.items@);
            }
            let ghost old_groups = groups@;
            let group = Group { router, block, targets };
            assert(is_group(group, set, asn@)) by {
                assert(set.contains(head));
                assert(head =~= hit_row(asn@, router@, block@, head[3]));
            }
            groups.push(group);
            proof {
                assert forall|g: int, h: int| 0 <= g < h < groups@.len() implies (
                #[trigger] groups@[g]).router@ != (#[trigger] groups@[h]).router@
                    || groups@[g].block@ != groups@[h].block@ by {
                    if h == old_groups.len() {
                        assert(occurs(old_groups[g], rows, start as int, asn@));
                        let j = choose|j: int|
                            0 <= j < start && is_row_of(#[trigger] rows[j], old_groups[g], asn@);
                        assert(!same_group(rows[j], rows[start as int]));
                    }
                }
                assert forall|j: int| 0 <= j < i && (#[trigger] rows[j])[0] == asn@ implies exists|
                    g: int,
                |
                    0 <= g < groups@.len() && (#[trigger] groups@[g]).router@ == rows[j][1]
                        && groups@[g].block@ == rows[j][2] by {
                    if j < start {
                        let g = choose|g: int|
                            0 <= g < old_groups.len() && (#[trigger] old_groups[g]).router@
                                == rows[j][1] && old_groups[g].block@ == rows[j][2];
                        assert(groups@[g] == old_groups[g]);
                    } else {
                        assert(same_group(head, rows[j]));
                        assert(groups@[old_groups.len() as int] == group);
                    }
                }
                assert forall|g: int| 0 <= g < groups@.len() implies occurs(
                    #[trigger] groups@[g],
                    rows,
                    i as int,
                    asn@,
                ) by {
                    if g < old_groups.len() {
                        assert(occurs(old_groups[g], rows, start as int, asn@));
                    } else {
                        assert(is_row_of(rows[start as int], groups@[g], asn@));
                    }
                }
            }
        }
    }
    assert(rows.take(i as int) =~= rows);
    proof {
        assert forall|router: Seq<char>, block: Seq<char>| #[trigger]
            group_exists(set, asn@, router, block) implies exists|g: int|
            0 <= g < groups@.len() && (#[trigger] groups@[g]).router@ == router
                && groups@[g].block@ == block by {
            let t = choose|t: Seq<char>| set.contains(#[trigger] hit_row(asn@, router, block, t));
            let j = choose|j: int|
                0 <= j < rows.len() && rows[j] == hit_row(asn@, router, block, t);
            assert(rows[j][0] == asn@);
        }
    }
    groups
}

/// A longest run of rows of one group holds all rows of that group, its
/// addresses in ascending order.
proof fn lemma_run_is_a_group(
    rows: Seq<Seq<Seq<char>>>,
    start: int,
    end: int,
    asn: Seq<char>,
    targets: Seq<Seq<char>>,
    set: Set<Seq<Seq<char>>>,
    items: Seq<Hit>,
)
    requires
        rows == items.map_values(|h: Hit| h.row()),
        rows_ascend(rows),
        set == rows.to_set(),
        0 <= start < end <= rows.len(),
        rows[start][0] == asn,
        targets.len() == end - start,
        forall|j: int| 0 <= j < targets.len() ==> targets[j] == (#[trigger] rows[start + j])[3],
        forall|j: int| start <= j < end ==> same_group(rows[start], #[trigger] rows[j]),
        end < rows.len() ==> !same_group(rows[start], rows[end]),
        forall|j: int, k: int|
            0 <= j < start <= k < rows.len() && rows[j][0] == asn ==> !same_group(
                #[trigger] rows[j],
                #[trigger] rows[k],
            ),
    ensures
        texts_ascend(targets),
        targets.to_set() == group_targets(set, asn, rows[start][1], rows[start][2]),
        forall|j: int, k: int|
            0 <= j < end <= k < rows.len() && rows[j][0] == asn ==> !same_group(
                #[trigger] rows[j],
                #[trigger] rows[k],
            ),
{
    let head = rows[start];
    assert forall|j: int| 0 <= j < rows.len() implies (#[trigger] rows[j]).len() == 4 by {
        assert(rows[j] == items[j].row());
    }
    assert forall|k: int| end <= k < rows.len() implies !same_group(head, #[trigger] rows[k]) by {
        if same_group(head, rows[k]) {
            if k > end {
                lemma_groups_are_contiguous(head, rows[end], rows[k]);
            }
        }
    }
    assert forall|j: int, k: int|
        0 <= j < end <= k < rows.len() && rows[j][0] == asn implies !same_group(
        #[trigger] rows[j],
        #[trigger] rows[k],
    ) by {
        if j >= start {
            assert(same_group(head, rows[j]));
        }
    }
    assert forall|i: int, j: int| 0 <= i < j < targets.len() implies text_lt(
        #[trigger] targets[i],
        #[trigger] targets[j],
    ) by {
        assert(same_group(head, rows[start + i]) && same_group(head, rows[start + j]));
        lemma_targets_ascend(rows[start + i], rows[start + j]);
    }
    let all = group_targets(set, asn, head[1], head[2]);
    assert forall|t: Seq<char>| targets.to_set().contains(t) <==> all.contains(t) by {
        if targets.contains(t) {
            let j = choose|j: int| 0 <= j < targets.len() && targets[j] == t;
            assert(same_group(head, rows[start + j]));
            assert(rows[start + j] =~= hit_row(asn, head[1], head[2], t));
            assert(rows.contains(rows[start + j]));
        }
        if all.contains(t) {
            let j = choose|j: int|
                0 <= j < rows.len() && rows[j] == hit_row(asn, head[1], head[2], t);
            if j < start {
                assert(!same_group(rows[j], rows[start]));
            } else if j < end {
                assert(targets[j - start] == rows[start + (j - start)][3]);
            } else {
                assert(!same_group(head, rows[j]));
            }
        }
    }
    assert(targets.to_set() =~= all);
}

/// Appends the texts, with `between` between any two of them.
fn push_joined(out: &mut String, list: &Vec<String>, between: &str)
    ensures
        final(out)@ == old(out)@ + joined_by(texts(list@), between@),
{
    let ghost all = texts(list@);
    let ghost start = out@;
    let mut i: usize = 0;
    assert(out@ =~= start + joined_by(all.take(0), between@));
    while i < list.len()
        invariant
            i <= list@.len(),
            all == texts(list@),
            out@ == start + joined_by(all.take(i as int), between@),
        decreases list@.len() - i,
    {
        let ghost before = joined_by(all.take(i as int), between@);
        assert(all.take(i + 1).drop_last() =~= all.take(i as int));
        assert(all.take(i + 1).last() == list@[i as int]@);
        if i > 0 {
            out.append(between);
        }
        out.append(list[i].as_str());
        assert(out@ =~= start + joined_by(all.take(i + 1), between@)) by {
            if i > 0 {
                assert(start + before + between@ + list@[i as int]@ =~= start + (before + between@
                    + list@[i as int]@));
            } else {
                assert(before =~= Seq::empty());
                assert(start + before =~= start);
                assert(all.take(1)[0] == list@[0]@);
            }
        }
        i = i + 1;
    }
    assert(all.take(i as int) =~= all);
}

impl Group {
    /// Whether one of the addresses is an IPv6 address.
    fn holds_v6(&self) -> (r: bool)
        ensures
            r == holds_ipv6(texts(self.targets@).to_set()),
    {
        let ghost set = texts(self.targets@).to_set();
        let mut i: usize = 0;
        while i < self.targets.len()
            invariant
                i <= self.targets@.len(),
                set == texts(self.targets@).to_set(),
                forall|j: int| 0 <= j < i ==> !(#[trigger] texts(self.targets@)[j]).contains(':'),
            decreases self.targets@.len() - i,
        {
            assert(texts(self.targets@)[i as int] == self.targets@[i as int]@);
            if has_char(self.targets[i].as_str(), ':') {
                assert(set.contains(texts(self.targets@)[i as int]));
                return true;
            }
            i = i + 1;
        }
        false
    }

    /// How the group is shown.
    fn line(&self, is_v6: bool) -> (r: String)
        requires
            texts_ascend(texts(self.targets@)),
            is_v6 == holds_ipv6(texts(self.targets@).to_set()),
        ensures
            r@ == line_of(self.router@, self.block@, texts(self.targets@).to_set()),
    {
        let mut r = self.router.clone();
        r.append(" - ");
        r.append(self.block.as_str());
        if is_v6 {
            r.append(" (target: ");
            push_joined(&mut r, &self.targets, ", ");
            r.append(")");
            proof {
                lemma_ascending(texts(self.targets@));
            }
        }
        r
    }
}

/// The groups of one system, ready to be shown.
pub struct Tally {
    /// The lines that show them.
    pub lines: OrderedSet<String>,
    /// The number of groups without an IPv6 address.
    pub v4: usize,
    /// The number of groups with one.
    pub v6: usize,
}

/// Counts the groups of the system `asn`, and writes the lines that show them.
pub fn tally(hits: &OrderedSet<Hit>, asn: &str) -> (r: Tally)
    requires
        hits.wf(),
    ensures
        r.lines.wf(),
        text_set(r.lines) == group_lines(hits.set(), asn@),
        r.v4 == ipv4_keys(hits.set(), asn@).len(),
        r.v6 == ipv6_keys(hits.set(), asn@).len(),
        r.lines.items@.len() <= rows_of(hits.rows(), asn@),
{
    let ghost set = hits.set();
    let groups = groups_of(hits, asn);
    let mut lines: OrderedSet<String> = OrderedSet::new();
    let mut v4: usize = 0;
    let mut v6: usize = 0;
    let ghost mut four: Set<(Seq<char>, Seq<char>)> = Set::empty();
    let ghost mut six: Set<(Seq<char>, Seq<char>)> = Set::empty();
    let mut i: usize = 0;
    proof {
        lemma_text_set(lines);
        assert(text_set(lines) =~= Set::<Seq<char>>::empty());
    }
    while i < groups.len()
        invariant
            i <= groups@.len(),
            set == hits.set(),
            are_groups(groups@, set, asn@),
            lines.wf(),
            lines.items@.len() <= i,
            v4 + v6 == i,
            four.finite() && six.finite(),
            v4 == four.len() && v6 == six.len(),
            forall|l: Seq<char>| #[trigger]
                text_set(lines).contains(l) <==> exists|j: int|
                    0 <= j < i && l == shown(#[trigger] groups@[j], set, asn@),
            forall|k: (Seq<char>, Seq<char>)| #[trigger]
                six.contains(k) <==> exists|j: int|
                    0 <= j < i && k == key_of(#[trigger] groups@[j]) && holds_ipv6(
                        group_targets(set, asn@, k.0, k.1),
                    ),
            forall|k: (Seq<char>, Seq<char>)| #[trigger]
                four.contains(k) <==> exists|j: int|
                    0 <= j < i && k == key_of(#[trigger] groups@[j]) && !holds_ipv6(
                        group_targets(set, asn@, k.0, k.1),
                    ),
        decreases groups@.len() - i,
    {
        let ghost g = groups@[i as int];
        assert(is_group(g, set, asn@));
        let ghost (six_before, four_before, before) = (six, four, text_set(lines));
        let is_v6 = groups[i].holds_v6();
        let line = groups[i].line(is_v6);
        assert(line@ == shown(g, set, asn@));
        proof {
            lemma_text_set(lines);
        }
        lines.insert_text(line);
        proof {
            lemma_text_set(lines);
            assert(!six.contains(key_of(g)) && !four.contains(key_of(g))) by {
                assert forall|j: int| 0 <= j < i implies key_of(g) != key_of(
                    #[trigger] groups@[j],
                ) by {}
            }
        }
        if is_v6 {
            v6 = v6 + 1;
            proof {
                six = six.insert(key_of(g));
            }
        } else {
            v4 = v4 + 1;
            proof {
                four = four.insert(key_of(g));
            }
        }
        proof {
            assert forall|l: Seq<char>| #[trigger]
                text_set(lines).contains(l) <==> exists|j: int|
                    0 <= j < i + 1 && l == shown(#[trigger] groups@[j], set, asn@) by {
                assert(text_set(lines).contains(l) <==> before.contains(l) || l == shown(
                    g,
                    set,
                    asn@,
                ));
                if before.contains(l) {
                    let j = choose|j: int| 0 <= j < i && l == shown(#[trigger] groups@[j], set, asn@);
                    assert(0 <= j < i + 1 && l == shown(groups@[j], set, asn@));
                }
            }
            assert forall|k: (Seq<char>, Seq<char>)| #[trigger]
                six.contains(k) <==> exists|j: int|
                    0 <= j < i + 1 && k == key_of(#[trigger] groups@[j]) && holds_ipv6(
                        group_targets(set, asn@, k.0, k.1),
                    ) by {
                if six_before.contains(k) {
                    let j = choose|j: int|
                        0 <= j < i && k == key_of(#[trigger] groups@[j]) && holds_ipv6(
                            group_targets(set, asn@, k.0, k.1),
                        );
                    assert(0 <= j < i + 1 && k == key_of(groups@[j]));
                }
            }
            assert forall|k: (Seq<char>, Seq<char>)| #[trigger]
                four.contains(k) <==> exists|j: int|
                    0 <= j < i + 1 && k == key_of(#[trigger] groups@[j]) && !holds_ipv6(
                        group_targets(set, asn@, k.0, k.1),
                    ) by {
                if four_before.contains(k) {
                    let j = choose|j: int|
                        0 <= j < i && k == key_of(#[trigger] groups@[j]) && !holds_ipv6(
                            group_targets(set, asn@, k.0, k.1),
                        );
                    assert(0 <= j < i + 1 && k == key_of(groups@[j]));
                }
            }
        }
        i = i + 1;
    }
    proof {
        assert forall|k: (Seq<char>, Seq<char>)| group_exists(set, asn@, k.0, k.1) <==> exists|
            j: int,
        |
            0 <= j < groups@.len() && k == key_of(#[trigger] groups@[j]) by {
            if group_exists(set, asn@, k.0, k.1) {
                let j = choose|j: int|
                    0 <= j < groups@.len() && (#[trigger] groups@[j]).router@ == k.0
                        && groups@[j].block@ == k.1;
                assert(k == key_of(groups@[j]));
            }
            if exists|j: int| 0 <= j < groups@.len() && k == key_of(#[trigger] groups@[j]) {
                let j = choose|j: int| 0 <= j < groups@.len() && k == key_of(#[trigger] groups@[j]);
                assert(is_group(groups@[j], set, asn@));
            }
        }
        assert(six =~= ipv6_keys(set, asn@));
        assert(four =~= ipv4_keys(set, asn@));
        assert forall|l: Seq<char>| text_set(lines).contains(l) <==> group_lines(
            set,
            asn@,
        ).contains(l) by {
            if text_set(lines).contains(l) {
                let j = choose|j: int|
                    0 <= j < groups@.len() && l == shown(#[trigger] groups@[j], set, asn@);
                assert(is_group(groups@[j], set, asn@));
            }
            if group_lines(set, asn@).contains(l) {
                let (router, block) = choose|router: Seq<char>, block: Seq<char>| #[trigger]
                    group_exists(set, asn@, router, block) && l == line_of(
                        router,
                        block,
                        group_targets(set, asn@, router, block),
                    );
                let j = choose|j: int|
                    0 <= j < groups@.len() && (#[trigger] groups@[j]).router@ == router
                        && groups@[j].block@ == block;
                assert(l == shown(groups@[j], set, asn@));
            }
        }
        assert(text_set(lines) =~= group_lines(set, asn@));
    }
    Tally { lines, v4, v6 }
}

/// Every group is counted once: as one with an IPv6 address, or as one without.
pub proof fn law_groups_are_counted_once(rows: Set<Seq<Seq<char>>>, asn: Seq<char>)
    requires
        rows.finite(),
    ensures
        group_keys(rows, asn).finite(),
        ipv4_keys(rows, asn).disjoint(ipv6_keys(rows, asn)),
        ipv4_keys(rows, asn).union(ipv6_keys(rows, asn)) == group_keys(rows, asn),
        ipv4_keys(rows, asn).len() + ipv6_keys(rows, asn).len() == group_keys(rows, asn).len(),
{
    let (four, six, all) = (ipv4_keys(rows, asn), ipv6_keys(rows, asn), group_keys(rows, asn));
    let f = |row: Seq<Seq<char>>| (row[1], row[2]);
    rows.lemma_map_finite(f);
    assert forall|k: (Seq<char>, Seq<char>)| all.contains(k) implies rows.map(f).contains(k) by {
        let t = choose|t: Seq<char>| rows.contains(#[trigger] hit_row(asn, k.0, k.1, t));
        let row = hit_row(asn, k.0, k.1, t);
        assert(rows.contains(row) && k == f(row));
    }
    vstd::set_lib::lemma_len_subset(all, rows.map(f));
    vstd::set_lib::lemma_len_subset(four, all);
    vstd::set_lib::lemma_len_subset(six, all);
    assert(four.union(six) =~= all);
    vstd::set_lib::lemma_set_disjoint_lens(four, six);
    assert(four + six =~= all);
}

/// The router and the block of a group.
spec fn key_of(g: Group) -> (Seq<char>, Seq<char>) {
    (g.router@, g.block@)
}

/// How a group is shown, with all its addresses.
spec fn shown(g: Group, rows: Set<Seq<Seq<char>>>, asn: Seq<char>) -> Seq<char> {
    line_of(g.router@, g.block@, group_targets(rows, asn, g.router@, g.block@))
}

/// The groups of a system are the pairs of a router and a block that one of its
/// loops has; those counted for IPv6 are the pairs that a loop at an IPv6 address
/// has, and those counted for IPv4 are the others.
pub proof fn law_groups_are_pairs_of_loops(rows: Set<Seq<Seq<char>>>, asn: Seq<char>)
    requires
        forall|row: Seq<Seq<char>>| #[trigger] rows.contains(row) ==> row.len() == 4,
    ensures
        ({
            let own = rows.filter(|row: Seq<Seq<char>>| row[0] == asn);
            let pair = |row: Seq<Seq<char>>| (row[1], row[2]);
            let six = own.filter(|row: Seq<Seq<char>>| row[3].contains(':')).map(pair);
            &&& group_keys(rows, asn) == own.map(pair)
            &&& ipv6_keys(rows, asn) == six
            &&& ipv4_keys(rows, asn) == own.map(pair).difference(six)
        }),
{
    let own = rows.filter(|row: Seq<Seq<char>>| row[0] == asn);
    let pair = |row: Seq<Seq<char>>| (row[1], row[2]);
    let colon = own.filter(|row: Seq<Seq<char>>| row[3].contains(':'));
    let six = colon.map(pair);
    assert forall|k: (Seq<char>, Seq<char>)| own.map(pair).contains(k) <==> group_keys(
        rows,
        asn,
    ).contains(k) by {
        if own.map(pair).contains(k) {
            let row = choose|row: Seq<Seq<char>>| own.contains(row) && k == pair(row);
            assert(row =~= hit_row(asn, k.0, k.1, row[3]));
            assert(rows.contains(hit_row(asn, k.0, k.1, row[3])));
        }
        if group_keys(rows, asn).contains(k) {
            let t = choose|t: Seq<char>| rows.contains(#[trigger] hit_row(asn, k.0, k.1, t));
            let row = hit_row(asn, k.0, k.1, t);
            assert(own.contains(row) && k == pair(row));
        }
    }
    assert(group_keys(rows, asn) =~= own.map(pair));
    assert forall|k: (Seq<char>, Seq<char>)| six.contains(k) <==> ipv6_keys(rows, asn).contains(
        k,
    ) by {
        let targets = group_targets(rows, asn, k.0, k.1);
        if six.contains(k) {
            let row = choose|row: Seq<Seq<char>>| colon.contains(row) && k == pair(row);
            assert(row =~= hit_row(asn, k.0, k.1, row[3]));
            assert(rows.contains(hit_row(asn, k.0, k.1, row[3])));
            assert(targets.contains(row[3]));
            assert(group_exists(rows, asn, k.0, k.1));
        }
        if ipv6_keys(rows, asn).contains(k) {
            let t = choose|t: Seq<char>| #[trigger] targets.contains(t) && t.contains(':');
            let row = hit_row(asn, k.0, k.1, t);
            assert(row[3] == t);
            assert(colon.contains(row) && k == pair(row));
        }
    }
    assert(ipv6_keys(rows, asn) =~= six);
    assert(ipv4_keys(rows, asn) =~= own.map(pair).difference(six));
}

/// Two lists are joined with what stands between any two texts.
pub proof fn law_joined_lists(a: Seq<Seq<char>>, b: Seq<Seq<char>>, between: Seq<char>, t: Seq<char>)
    ensures
        a.len() > 0 && b.len() > 0 ==> joined_by(a + b, between) == joined_by(a, between) + between
            + joined_by(b, between),
        joined_by(seq![t], between) == t,
        joined_by(Seq::empty(), between) == Seq::<char>::empty(),
    decreases b.len(),
{
    if a.len() > 0 && b.len() > 0 {
        let less = b.drop_last();
        assert((a + b).drop_last() =~= a + less);
        assert((a + b).last() == b.last());
        if b.len() == 1 {
            assert(a + less =~= a);
        } else {
            law_joined_lists(a, less, between, t);
        }
        assert(joined_by(a + b, between) =~= joined_by(a, between) + between + joined_by(
            b,
            between,
        ));
    }
}

/// Where a text stands in a joined list.
proof fn lemma_joined_shows(s: Seq<Seq<char>>, between: Seq<char>, i: int) -> (r: (
    Seq<char>,
    Seq<char>,
))
    requires
        0 <= i < s.len(),
    ensures
        joined_by(s, between) == r.0 + s[i] + r.1,
    decreases s.len(),
{
    let none = Seq::<char>::empty();
    if s.len() == 1 {
        assert(s[0] =~= none + s[0] + none);
        (none, none)
    } else if i == s.len() - 1 {
        let a = joined_by(s.drop_last(), between) + between;
        assert(a + s.last() =~= a + s[i] + none);
        (a, none)
    } else {
        let (a, b) = lemma_joined_shows(s.drop_last(), between, i);
        let c = b + between + s.last();
        assert(s.drop_last()[i] == s[i]);
        assert(a + s[i] + b + between + s.last() =~= a + s[i] + c);
        (a, c)
    }
}

/// Every loop of a system is on one of its lines, which begins with the router
/// and the block. Behind an IPv6 block the line names the address, among all that
/// the router reported there, in order; a line without IPv6 addresses says
/// nothing more.
pub proof fn law_every_loop_is_on_a_line(
    rows: Set<Seq<Seq<char>>>,
    asn: Seq<char>,
    router: Seq<char>,
    block: Seq<char>,
    target: Seq<char>,
)
    requires
        rows.finite(),
        rows.contains(seq![asn, router, block, target]),
    ensures
        target.contains(':') ==> exists|a: Seq<char>, b: Seq<char>|
            group_lines(rows, asn).contains(
                #[trigger] (router + " - "@ + block + " (target: "@ + a + target + b + ")"@),
            ),
        target.contains(':') ==> group_lines(rows, asn).contains(
            router + " - "@ + block + " (target: "@ + joined_by(
                ascending(
                    Set::new(|t: Seq<char>| rows.contains(seq![asn, router, block, t])),
                ),
                ", "@,
            ) + ")"@,
        ),
        (forall|t: Seq<char>|
            rows.contains(#[trigger] seq![asn, router, block, t]) ==> !t.contains(':'))
            ==> group_lines(rows, asn).contains(router + " - "@ + block),
{
    let row = hit_row(asn, router, block, target);
    let targets = group_targets(rows, asn, router, block);
    assert(rows.contains(row));
    assert(group_exists(rows, asn, router, block));
    assert(targets.contains(target));
    let line = line_of(router, block, targets);
    assert(group_lines(rows, asn).contains(line));
    if target.contains(':') {
        assert(targets =~= Set::new(
            |t: Seq<char>| rows.contains(seq![asn, router, block, t]),
        ));
        let f = |row: Seq<Seq<char>>| row[3];
        rows.lemma_map_finite(f);
        assert forall|t: Seq<char>| targets.contains(t) implies rows.map(f).contains(t) by {
            let other = hit_row(asn, router, block, t);
            assert(rows.contains(other) && f(other) == t);
        }
        vstd::set_lib::lemma_len_subset(targets, rows.map(f));
        crate::order::lemma_ascending_lists(targets);
        let list = ascending(targets);
        assert(list.to_set().contains(target));
        let i = choose|i: int| 0 <= i < list.len() && list[i] == target;
        let (a, b) = lemma_joined_shows(list, ", "@, i);
        assert(line =~= router + " - "@ + block + " (target: "@ + a + target + b + ")"@);
        assert(group_lines(rows, asn).contains(
            router + " - "@ + block + " (target: "@ + a + target + b + ")"@,
        ));
    } else if forall|t: Seq<char>|
        rows.contains(#[trigger] seq![asn, router, block, t]) ==> !t.contains(':') {
        assert forall|t: Seq<char>| #[trigger] targets.contains(t) implies !t.contains(':') by {
            assert(rows.contains(seq![asn, router, block, t]));
        }
        assert(!holds_ipv6(targets));
    }
}

/// No line is without a loop: every line of a system begins with the router and
/// the block of one of its loops.
pub proof fn law_every_line_shows_a_loop(
    rows: Set<Seq<Seq<char>>>,
    asn: Seq<char>,
    line: Seq<char>,
)
    requires
        group_lines(rows, asn).contains(line),
    ensures
        exists|router: Seq<char>, block: Seq<char>, target: Seq<char>|
            rows.contains(#[trigger] seq![asn, router, block, target]) && (router + " - "@
                + block).is_prefix_of(line),
{
    let (router, block) = choose|router: Seq<char>, block: Seq<char>| #[trigger]
        group_exists(rows, asn, router, block) && line == line_of(
            router,
            block,
            group_targets(rows, asn, router, block),
        );
    let t = choose|t: Seq<char>| rows.contains(#[trigger] hit_row(asn, router, block, t));
    let start = router + " - "@ + block;
    assert(line.subrange(0, start.len() as int) =~= start);
    assert(rows.contains(seq![asn, router, block, t]));
}

} // verus!
