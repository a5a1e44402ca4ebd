//! Rows of text in ascending order, without repetitions.
use vstd::prelude::*;

use crate::text::{compare_text, texts, Rank};

verus! {

/// Lexicographic order by code point: at the first place where they differ,
/// `a` has ended or holds the smaller character.
pub open spec fn text_lt(a: Seq<char>, b: Seq<char>) -> bool {
    exists|k: int| #[trigger]
        text_differs_at(a, b, k) && k < b.len() && (k < a.len() ==> a[k] < b[k])
}

/// `a` and `b` agree before `k`, and not at `k`.
pub open spec fn text_differs_at(a: Seq<char>, b: Seq<char>, k: int) -> bool {
    &&& 0 <= k <= a.len()
    &&& k <= b.len()
    &&& a.take(k) == b.take(k)
    &&& (k < a.len() && k < b.len() ==> a[k] != b[k])
}

/// Lexicographic order of rows of text, field by field.
pub open spec fn row_lt(a: Seq<Seq<char>>, b: Seq<Seq<char>>) -> bool {
    exists|k: int| #[trigger]
        row_differs_at(a, b, k) && k < b.len() && (k < a.len() ==> text_lt(a[k], b[k]))
}

/// `a` and `b` agree before `k`, and not at `k`.
pub open spec fn row_differs_at(a: Seq<Seq<char>>, b: Seq<Seq<char>>, k: int) -> bool {
    &&& 0 <= k <= a.len()
    &&& k <= b.len()
    &&& a.take(k) == b.take(k)
    &&& (k < a.len() && k < b.len() ==> a[k] != b[k])
}

/// Every row stands before all that follow it.
pub open spec fn rows_ascend(s: Seq<Seq<Seq<char>>>) -> bool {
    forall|i: int, j: int| 0 <= i < j < s.len() ==> row_lt(#[trigger] s[i], #[trigger] s[j])
}

/// Every text stands before all that follow it.
pub open spec fn texts_ascend(s: Seq<Seq<char>>) -> bool {
    forall|i: int, j: int| 0 <= i < j < s.len() ==> text_lt(#[trigger] s[i], #[trigger] s[j])
}

/// The texts of a set, in ascending order.
pub open spec fn ascending(set: Set<Seq<char>>) -> Seq<Seq<char>> {
    choose|s: Seq<Seq<char>>| texts_ascend(s) && s.to_set() == set
}

/// Where two texts first differ decides their order.
pub proof fn lemma_text_lt_at(a: Seq<char>, b: Seq<char>, k: int)
    requires
        0 <= k <= a.len(),
        k <= b.len(),
        a.take(k) == b.take(k),
    ensures
        text_differs_at(a, b, k) && (k < a.len() || k < b.len()) ==> a != b,
        text_differs_at(a, b, k) ==> (text_lt(a, b) <==> k < b.len() && (k < a.len() ==> a[k]
            < b[k])),
{
    if text_differs_at(a, b, k) {
        assert forall|j: int| #[trigger]
            text_differs_at(a, b, j) && j < b.len() && (j < a.len() ==> a[j] < b[j]) implies j
            == k by {
            if j < k {
                assert(a.take(k)[j] == a[j] && b.take(k)[j] == b[j]);
            } else if k < j {
                assert(a.take(j)[k] == a[k] && b.take(j)[k] == b[k]);
            }
        }
    }
}

pub proof fn lemma_text_lt_irreflexive(a: Seq<char>)
    ensures
        !text_lt(a, a),
{
}

pub proof fn lemma_text_lt_transitive(a: Seq<char>, b: Seq<char>, c: Seq<char>)
    requires
        text_lt(a, b),
        text_lt(b, c),
    ensures
        text_lt(a, c),
{
    let i = choose|k: int| #[trigger]
        text_differs_at(a, b, k) && k < b.len() && (k < a.len() ==> a[k] < b[k]);
    let j = choose|k: int| #[trigger]
        text_differs_at(b, c, k) && k < c.len() && (k < b.len() ==> b[k] < c[k]);
    let k = if i <= j { i } else { j };
    assert(a.take(k) =~= a.take(i).take(k));
    assert(b.take(k) =~= b.take(i).take(k));
    assert(b.take(k) =~= b.take(j).take(k));
    assert(c.take(k) =~= c.take(j).take(k));
    if k < i {
        assert(a.take(i)[k] == a[k] && b.take(i)[k] == b[k]);
    }
    if k < j {
        assert(b.take(j)[k] == b[k] && c.take(j)[k] == c[k]);
    }
    assert(text_differs_at(a, c, k));
}

/// Where two rows first differ decides their order.
pub proof fn lemma_row_lt_at(a: Seq<Seq<char>>, b: Seq<Seq<char>>, k: int)
    requires
        0 <= k <= a.len(),
        k <= b.len(),
        a.take(k) == b.take(k),
    ensures
        row_differs_at(a, b, k) && (k < a.len() || k < b.len()) ==> a != b,
        row_differs_at(a, b, k) ==> (row_lt(a, b) <==> k < b.len() && (k < a.len() ==> text_lt(
            a[k],
            b[k],
        ))),
{
    if row_differs_at(a, b, k) {
        assert forall|j: int| #[trigger]
            row_differs_at(a, b, j) && j < b.len() && (j < a.len() ==> text_lt(a[j], b[j])) implies j
            == k by {
            if j < k {
                assert(a.take(k)[j] == a[j] && b.take(k)[j] == b[j]);
            } else if k < j {
                assert(a.take(j)[k] == a[k] && b.take(j)[k] == b[k]);
            }
        }
    }
}

pub proof fn lemma_row_lt_irreflexive(a: Seq<Seq<char>>)
    ensures
        !row_lt(a, a),
{
}

pub proof fn lemma_row_lt_transitive(a: Seq<Seq<char>>, b: Seq<Seq<char>>, c: Seq<Seq<char>>)
    requires
        row_lt(a, b),
        row_lt(b, c),
    ensures
        row_lt(a, c),
{
    let i = choose|k: int| #[trigger]
        row_differs_at(a, b, k) && k < b.len() && (k < a.len() ==> text_lt(a[k], b[k]));
    let j = choose|k: int| #[trigger]
        row_differs_at(b, c, k) && k < c.len() && (k < b.len() ==> text_lt(b[k], c[k]));
    let k = if i <= j { i } else { j };
    assert(a.take(k) =~= a.take(i).take(k));
    assert(b.take(k) =~= b.take(i).take(k));
    assert(b.take(k) =~= b.take(j).take(k));
    assert(c.take(k) =~= c.take(j).take(k));
    if k < i {
        assert(a.take(i)[k] == a[k] && b.take(i)[k] == b[k]);
    }
    if k < j {
        assert(b.take(j)[k] == b[k] && c.take(j)[k] == c[k]);
    }
    if k < a.len() {
        if i == j {
            lemma_text_lt_transitive(a[k], b[k], c[k]);
        }
        if a[k] == c[k] {
            lemma_text_lt_irreflexive(a[k]);
        }
    }
    assert(row_differs_at(a, c, k));
}

/// Two ascending listings of one set are the same listing.
pub proof fn lemma_ascending_is_unique(s: Seq<Seq<char>>, t: Seq<Seq<char>>)
    requires
        texts_ascend(s),
        texts_ascend(t),
        s.to_set() == t.to_set(),
    ensures
        s == t,
    decreases s.len(),
{
    if s.len() == 0 || t.len() == 0 {
        if s.len() > 0 {
            assert(s.to_set().contains(s[0]));
        }
        if t.len() > 0 {
            assert(t.to_set().contains(t[0]));
        }
        assert(s =~= t);
    } else {
        let (a, b) = (s.last(), t.last());
        assert(s.to_set().contains(a) && t.to_set().contains(b));
        assert(t.contains(a) && s.contains(b));
        let i = choose|i: int| 0 <= i < s.len() && s[i] == b;
        let j = choose|j: int| 0 <= j < t.len() && t[j] == a;
        if a != b {
            lemma_text_lt_transitive(a, b, a);
            lemma_text_lt_irreflexive(a);
        }
        let (u, v) = (s.drop_last(), t.drop_last());
        assert forall|x: Seq<char>| u.to_set().contains(x) <==> v.to_set().contains(x) by {
            lemma_last_is_alone(s, x);
            lemma_last_is_alone(t, x);
        }
        assert(u.to_set() =~= v.to_set());
        lemma_ascending_is_unique(u, v);
        assert(s =~= u.push(a));
        assert(t =~= v.push(b));
    }
}

/// What an ascending listing holds before its last text is what it holds
/// besides that text.
proof fn lemma_last_is_alone(s: Seq<Seq<char>>, x: Seq<char>)
    requires
        texts_ascend(s),
        s.len() > 0,
    ensures
        s.drop_last().to_set().contains(x) <==> s.to_set().contains(x) && x != s.last(),
{
    let u = s.drop_last();
    if u.to_set().contains(x) {
        let i = choose|i: int| 0 <= i < u.len() && u[i] == x;
        assert(s[i] == x);
        if x == s.last() {
            lemma_text_lt_irreflexive(x);
        }
    }
    if s.to_set().contains(x) && x != s.last() {
        let i = choose|i: int| 0 <= i < s.len() && s[i] == x;
        assert(u[i] == x);
    }
}

/// An ascending listing of a set is the listing of that set.
pub proof fn lemma_ascending(s: Seq<Seq<char>>)
    requires
        texts_ascend(s),
    ensures
        ascending(s.to_set()) == s,
{
    lemma_ascending_is_unique(s, ascending(s.to_set()));
}

/// Of two texts that differ, one stands before the other.
proof fn lemma_text_lt_total(a: Seq<char>, b: Seq<char>, k: int)
    requires
        a != b,
        0 <= k <= a.len(),
        k <= b.len(),
        a.take(k) == b.take(k),
    ensures
        text_lt(a, b) || text_lt(b, a),
    decreases a.len() - k,
{
    if k < a.len() && k < b.len() && a[k] == b[k] {
        assert(a.take(k + 1) =~= a.take(k).push(a[k]));
        assert(b.take(k + 1) =~= b.take(k).push(b[k]));
        lemma_text_lt_total(a, b, k + 1);
    } else {
        if k == a.len() && k == b.len() {
            assert(a.take(k) =~= a && b.take(k) =~= b);
        }
        assert(text_differs_at(a, b, k) && text_differs_at(b, a, k));
    }
}

/// Every finite set of texts can be listed in ascending order.
pub proof fn lemma_ascending_lists(set: Set<Seq<char>>)
    requires
        set.finite(),
    ensures
        texts_ascend(ascending(set)),
        ascending(set).to_set() == set,
    decreases set.len(),
{
    if set.is_empty() {
        let s = Seq::<Seq<char>>::empty();
        assert(s.to_set() =~= set);
    } else {
        let x = set.choose();
        let less = set.remove(x);
        lemma_ascending_lists(less);
        let s = ascending(less);
        assert(!s.contains(x)) by {
            assert(!s.to_set().contains(x));
        }
        let k = lemma_place_of(s, x, s.len() as int);
        let t = s.insert(k, x);
        assert forall|i: int, j: int| 0 <= i < j < t.len() implies text_lt(
            #[trigger] t[i],
            #[trigger] t[j],
        ) by {
            let p = if i < k { i } else { i - 1 };
            let q = if j < k { j } else { j - 1 };
            if i != k {
                assert(t[i] == s[p]);
            }
            if j != k {
                assert(t[j] == s[q]);
            }
        }
        assert forall|y: Seq<char>| t.to_set().contains(y) <==> set.contains(y) by {
            if t.contains(y) {
                let i = choose|i: int| 0 <= i < t.len() && t[i] == y;
                if i < k {
                    assert(s[i] == y);
                    assert(s.to_set().contains(y));
                } else if i > k {
                    assert(s[i - 1] == y);
                    assert(s.to_set().contains(y));
                }
            }
            if set.contains(y) {
                if y == x {
                    assert(t[k] == y);
                } else {
                    assert(s.to_set().contains(y));
                    let i = choose|i: int| 0 <= i < s.len() && s[i] == y;
                    assert(t[if i < k { i } else { i + 1 }] == y);
                }
            }
        }
        assert(t.to_set() =~= set);
    }
}

/// Where `x` stands in an ascending listing without it.
proof fn lemma_place_of(s: Seq<Seq<char>>, x: Seq<char>, n: int) -> (k: int)
    requires
        texts_ascend(s),
        !s.contains(x),
        0 <= n <= s.len(),
        forall|i: int| n <= i < s.len() ==> text_lt(x, #[trigger] s[i]),
    ensures
        0 <= k <= s.len(),
        forall|i: int| 0 <= i < k ==> text_lt(#[trigger] s[i], x),
        forall|i: int| k <= i < s.len() ==> text_lt(x, #[trigger] s[i]),
    decreases n,
{
    if n == 0 {
        0
    } else {
        let last = s[n - 1];
        assert(s.contains(last));
        assert(last.take(0) =~= x.take(0));
        lemma_text_lt_total(last, x, 0);
        if text_lt(last, x) {
            assert forall|i: int| 0 <= i < n implies text_lt(#[trigger] s[i], x) by {
                if i < n - 1 {
                    lemma_text_lt_transitive(s[i], last, x);
                }
            }
            n
        } else {
            lemma_place_of(s, x, n - 1)
        }
    }
}

/// What a row of text stands for in an order.
pub trait Row {
    /// The fields by which it is ordered and found again.
    spec fn row(&self) -> Seq<Seq<char>>;

    /// How this row stands to another one.
    fn compare(&self, other: &Self) -> (r: Rank)
        ensures
            r == Rank::Same <==> self.row() == other.row(),
            r == Rank::Below <==> row_lt(self.row(), other.row()),
            r == Rank::Above <==> row_lt(other.row(), self.row()),
    ;
}

impl Row for String {
    open spec fn row(&self) -> Seq<Seq<char>> {
        seq![self@]
    }

    fn compare(&self, other: &Self) -> (r: Rank) {
        let r = compare_text(self.as_str(), other.as_str());
        proof {
            lemma_single_field(self@, other@);
            lemma_single_field(other@, self@);
        }
        r
    }
}

/// Rows of one field stand as their fields do.
pub proof fn lemma_single_field(a: Seq<char>, b: Seq<char>)
    ensures
        seq![a] == seq![b] <==> a == b,
        row_lt(seq![a], seq![b]) <==> text_lt(a, b),
{
    let (s, t) = (seq![a], seq![b]);
    assert(s.take(0) =~= t.take(0));
    assert(s[0] == a && t[0] == b);
    if a == b {
        lemma_row_lt_irreflexive(s);
        lemma_text_lt_irreflexive(a);
    } else {
        lemma_row_lt_at(s, t, 0);
    }
}

/// Rows in ascending order, each once.
pub struct OrderedSet<T> {
    pub items: Vec<T>,
}

impl<T: Row> OrderedSet<T> {
    /// The rows, in the order in which they stand.
    pub open spec fn rows(self) -> Seq<Seq<Seq<char>>> {
        self.items@.map_values(|t: T| t.row())
    }

    pub open spec fn wf(self) -> bool {
        rows_ascend(self.rows())
    }

    /// The rows, as a set.
    pub open spec fn set(self) -> Set<Seq<Seq<char>>> {
        self.rows().to_set()
    }

    pub fn new() -> (r: Self)
        ensures
            r.wf(),
            r.set() == Set::<Seq<Seq<char>>>::empty(),
    {
        let r = OrderedSet { items: Vec::new() };
        assert(r.set() =~= Set::<Seq<Seq<char>>>::empty());
        r
    }

    /// Where `x` stands, or would stand.
    fn position(&self, x: &T) -> (r: (usize, bool))
        requires
            self.wf(),
        ensures
            r.0 <= self.items@.len(),
            r.1 <==> self.set().contains(x.row()),
            r.1 ==> r.0 < self.items@.len() && self.rows()[r.0 as int] == x.row(),
            !r.1 ==> forall|i: int| 0 <= i < r.0 ==> row_lt(#[trigger] self.rows()[i], x.row()),
            !r.1 ==> forall|i: int|
                r.0 <= i < self.items@.len() ==> row_lt(x.row(), #[trigger] self.rows()[i]),
    {
        let mut lo: usize = 0;
        let mut hi: usize = self.items.len();
        let ghost rows = self.rows();
        while lo < hi
            invariant
                lo <= hi <= self.items@.len(),
                self.wf(),
                rows == self.rows(),
                forall|i: int| 0 <= i < lo ==> row_lt(#[trigger] rows[i], x.row()),
                forall|i: int| hi <= i < rows.len() ==> row_lt(x.row(), #[trigger] rows[i]),
            decreases hi - lo,
        {
            let mid: usize = lo + (hi - lo) / 2;
            match self.items[mid].compare(x) {
                Rank::Same => {
                    assert(rows[mid as int] == x.row());
                    assert(rows.contains(x.row()));
                    return (mid, true);
                },
                Rank::Below => {
                    proof {
                        assert forall|i: int| 0 <= i < mid + 1 implies row_lt(
                            #[trigger] rows[i],
                            x.row(),
                        ) by {
                            if i < mid {
                                lemma_row_lt_transitive(rows[i], rows[mid as int], x.row());
                            }
                        }
                    }
                    lo = mid + 1;
                },
                Rank::Above => {
                    proof {
                        assert forall|i: int| mid <= i < rows.len() implies row_lt(
                            x.row(),
                            #[trigger] rows[i],
                        ) by {
                            if mid < i {
                                lemma_row_lt_transitive(x.row(), rows[mid as int], rows[i]);
                            }
                        }
                    }
                    hi = mid;
                },
            }
        }
        proof {
            if rows.to_set().contains(x.row()) {
                let i = choose|i: int| 0 <= i < rows.len() && rows[i] == x.row();
                lemma_row_lt_irreflexive(rows[i]);
            }
        }
        (lo, false)
    }

    pub fn contains(&self, x: &T) -> (r: bool)
        requires
            self.wf(),
        ensures
            r <==> self.set().contains(x.row()),
    {
        self.position(x).1
    }

    /// Puts `x` in its place, unless its row is there already.
    pub fn insert(&mut self, x: T)
        requires
            old(self).wf(),
        ensures
            final(self).wf(),
            final(self).set() == old(self).set().insert(x.row()),
    {
        let (at, found) = self.position(&x);
        let ghost before = self.rows();
        let ghost row = x.row();
        if found {
            assert(self.set() =~= self.set().insert(row));
        } else {
            self.items.insert(at, x);
            proof {
                let after = self.rows();
                assert(after =~= before.insert(at as int, row));
                assert forall|i: int, j: int| 0 <= i < j < after.len() implies row_lt(
                    #[trigger] after[i],
                    #[trigger] after[j],
                ) by {
                    let p = if i < at { i } else { i - 1 };
                    let q = if j < at { j } else { j - 1 };
                    if i != at && j != at {
                        assert(after[i] == before[p] && after[j] == before[q]);
                    } else if i == at {
                        assert(after[j] == before[q]);
                    } else {
                        assert(after[i] == before[p]);
                    }
                }
                assert forall|r: Seq<Seq<char>>| #[trigger]
                    after.to_set().contains(r) <==> before.to_set().insert(row).contains(r) by {
                    if after.contains(r) {
                        let i = choose|i: int| 0 <= i < after.len() && after[i] == r;
                        if i < at {
                            assert(before[i] == r);
                        } else if i > at {
                            assert(before[i - 1] == r);
                        }
                    }
                    if before.contains(r) {
                        let i = choose|i: int| 0 <= i < before.len() && before[i] == r;
                        if i < at {
                            assert(after[i] == r);
                        } else {
                            assert(after[i + 1] == r);
                        }
                    }
                    assert(after[at as int] == row);
                }
                assert(after.to_set() =~= before.to_set().insert(row));
            }
        }
    }
}

/// The texts that are held.
pub open spec fn text_set(set: OrderedSet<String>) -> Set<Seq<char>> {
    texts(set.items@).to_set()
}

/// Texts are held as rows of one field; they stand in ascending order, each
/// once.
pub proof fn lemma_text_set(set: OrderedSet<String>)
    requires
        set.wf(),
    ensures
        forall|t: Seq<char>| #[trigger] text_set(set).contains(t) <==> set.set().contains(seq![t]),
        ascending(text_set(set)) == texts(set.items@),
        texts_ascend(texts(set.items@)),
        texts(set.items@).no_duplicates(),
        text_set(set).finite(),
        text_set(set).len() == set.items@.len(),
{
    let list = texts(set.items@);
    let rows = set.rows();
    assert forall|i: int| 0 <= i < list.len() implies #[trigger] rows[i] == seq![list[i]] by {}
    assert forall|i: int, j: int| 0 <= i < j < list.len() implies text_lt(
        #[trigger] list[i],
        #[trigger] list[j],
    ) by {
        assert(row_lt(rows[i], rows[j]));
        lemma_single_field(list[i], list[j]);
    }
    lemma_ascending(list);
    assert forall|t: Seq<char>| #[trigger]
        text_set(set).contains(t) <==> set.set().contains(seq![t]) by {
        if list.contains(t) {
            let i = choose|i: int| 0 <= i < list.len() && list[i] == t;
            assert(rows[i] == seq![t]);
        }
        if rows.contains(seq![t]) {
            let i = choose|i: int| 0 <= i < rows.len() && rows[i] == seq![t];
            lemma_single_field(list[i], t);
            assert(list[i] == t);
        }
    }
    assert forall|i: int, j: int| 0 <= i < list.len() && 0 <= j < list.len() && i
        != j implies list[i] != list[j] by {
        lemma_text_lt_irreflexive(list[i]);
    }
    list.unique_seq_to_set();
}

impl OrderedSet<String> {
    /// Whether `x` is held.
    pub fn contains_text(&self, x: &String) -> (r: bool)
        requires
            self.wf(),
        ensures
            r <==> text_set(*self).contains(x@),
    {
        proof {
            lemma_text_set(*self);
            assert(text_set(*self).contains(x@) <==> self.set().contains(seq![x@]));
        }
        self.contains(x)
    }

    /// Puts `x` in its place, unless it is there already.
    pub fn insert_text(&mut self, x: String)
        requires
            old(self).wf(),
        ensures
            final(self).wf(),
            text_set(*final(self)) == text_set(*old(self)).insert(x@),
    {
        let ghost before = *self;
        let ghost added = x@;
        self.insert(x);
        proof {
            lemma_text_set(before);
            lemma_text_set(*self);
            assert forall|t: Seq<char>| text_set(*self).contains(t) <==> text_set(before).insert(
                added,
            ).contains(t) by {
                lemma_single_field(t, added);
                assert(text_set(*self).contains(t) <==> self.set().contains(seq![t]));
                assert(text_set(before).contains(t) <==> before.set().contains(seq![t]));
            }
            assert(text_set(*self) =~= text_set(before).insert(added));
        }
    }
}

/// At the first place where two texts differ, the smaller character decides; a
/// text stands before those that go on where it ends.
pub proof fn law_first_difference_decides(
    start: Seq<char>,
    c: char,
    a: Seq<char>,
    d: char,
    b: Seq<char>,
)
    requires
        c < d,
    ensures
        text_lt(start.push(c) + a, start.push(d) + b),
        !text_lt(start.push(d) + b, start.push(c) + a),
        text_lt(start, start.push(c) + a),
        !text_lt(start.push(c) + a, start),
        !text_lt(start, start),
{
    let (x, y) = (start.push(c) + a, start.push(d) + b);
    let k = start.len() as int;
    assert(x.take(k) =~= start && y.take(k) =~= start && start.take(k) =~= start);
    assert(text_differs_at(x, y, k));
    assert(text_differs_at(y, x, k));
    assert(text_differs_at(start, x, k));
    assert(text_differs_at(x, start, k));
    lemma_text_lt_at(x, y, k);
    lemma_text_lt_at(y, x, k);
    lemma_text_lt_at(start, x, k);
    lemma_text_lt_at(x, start, k);
    lemma_text_lt_irreflexive(start);
}

/// The listing of a set holds what the set holds, each text once, and every text
/// before all that are larger.
pub proof fn law_listing_is_in_order(set: Set<Seq<char>>, x: Seq<char>)
    requires
        set.finite(),
    ensures
        ascending(set).contains(x) <==> set.contains(x),
        forall|i: int, j: int|
            0 <= i < j < ascending(set).len() ==> text_lt(
                #[trigger] ascending(set)[i],
                #[trigger] ascending(set)[j],
            ),
{
    lemma_ascending_lists(set);
    let s = ascending(set);
    assert(s.contains(x) <==> s.to_set().contains(x));
}

} // verus!
