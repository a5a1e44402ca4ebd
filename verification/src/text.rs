//! Plain text: ordering, padding, numbers, splitting and trimming.
use vstd::prelude::*;

use crate::order::{lemma_text_lt_at, text_lt};

verus! {

/// `String::push` appends one character at the end.
pub assume_specification[ String::push ](s: &mut String, c: char)
    ensures
        final(s)@ == old(s)@.push(c),
;

/// How one value stands to another in an order.
#[derive(Clone, Copy, PartialEq, Eq, Structural, Debug)]
pub enum Rank {
    Below,
    Same,
    Above,
}

/// `n` copies of `c`.
pub open spec fn repeated(c: char, n: nat) -> Seq<char> {
    Seq::new(n, |i: int| c)
}

/// `s` filled up with spaces on the right to `width` characters.
pub open spec fn padded(s: Seq<char>, width: nat) -> Seq<char> {
    if s.len() >= width {
        s
    } else {
        s + repeated(' ', (width - s.len()) as nat)
    }
}

pub open spec fn digit(d: nat) -> char {
    ('0' as nat + d) as char
}

/// `n` written in decimal, without leading zeros.
pub open spec fn decimal(n: nat) -> Seq<char>
    decreases n,
{
    if n < 10 {
        seq![digit(n)]
    } else {
        decimal(n / 10).push(digit(n % 10))
    }
}

/// A number is written in digits.
pub proof fn lemma_decimal_is_digits(n: nat)
    ensures
        decimal(n).len() > 0,
        forall|i: int| 0 <= i < decimal(n).len() ==> '0' <= #[trigger] decimal(n)[i] <= '9',
    decreases n,
{
    if n >= 10 {
        lemma_decimal_is_digits(n / 10);
    }
}

/// How `a` stands to `b` in the order of `text_lt`.
pub fn compare_text(a: &str, b: &str) -> (r: Rank)
    ensures
        r == Rank::Same <==> a@ == b@,
        r == Rank::Below <==> text_lt(a@, b@),
        r == Rank::Above <==> text_lt(b@, a@),
{
    let mut left = a.chars();
    let mut right = b.chars();
    let ghost mut k: int = 0;
    loop
        invariant
            0 <= k <= a@.len(),
            k <= b@.len(),
            a@.take(k) == b@.take(k),
            vstd::std_specs::iter::IteratorSpec::remaining(&left) == a@.skip(k),
            vstd::std_specs::iter::IteratorSpec::remaining(&right) == b@.skip(k),
        decreases a@.len() - k,
    {
        let l = left.next();
        let r = right.next();
        proof {
            lemma_text_lt_at(a@, b@, k);
            lemma_text_lt_at(b@, a@, k);
        }
        match (l, r) {
            (None, None) => {
                assert(a@.take(k) == a@);
                assert(b@.take(k) == b@);
                return Rank::Same;
            },
            (None, Some(_)) => return Rank::Below,
            (Some(_), None) => return Rank::Above,
            (Some(x), Some(y)) => {
                if x < y {
                    return Rank::Below;
                }
                if y < x {
                    return Rank::Above;
                }
                proof {
                    assert(a@.take(k + 1) == a@.take(k).push(x));
                    assert(b@.take(k + 1) == b@.take(k).push(y));
                    assert(a@.skip(k).drop_first() == a@.skip(k + 1));
                    assert(b@.skip(k).drop_first() == b@.skip(k + 1));
                    k = k + 1;
                }
            },
        }
    }
}

/// The characters of each text.
pub open spec fn texts(v: Seq<String>) -> Seq<Seq<char>> {
    v.map_values(|s: String| s@)
}

/// Whether two texts are the same.
pub fn same_text(a: &str, b: &str) -> (r: bool)
    ensures
        r == (a@ == b@),
{
    compare_text(a, b) == Rank::Same
}

/// The characters of `s`, one by one.
pub fn chars_of(s: &str) -> (r: Vec<char>)
    ensures
        r@ == s@,
{
    let mut r: Vec<char> = Vec::new();
    for c in it: s.chars()
        invariant
            r@ == s@.take(it.index()),
            it.seq() == s@,
    {
        assert(s@.take(it.index() + 1) =~= s@.take(it.index()).push(c));
        r.push(c);
    }
    assert(s@.take(s@.len() as int) =~= s@);
    r
}

/// The text made of the characters `from` to `to` of `chars`.
pub fn text_of(chars: &Vec<char>, from: usize, to: usize) -> (r: String)
    requires
        from <= to <= chars@.len(),
    ensures
        r@ == chars@.subrange(from as int, to as int),
{
    let mut r = String::new();
    let mut i = from;
    assert(r@ =~= chars@.subrange(from as int, i as int));
    while i < to
        invariant
            from <= i <= to <= chars@.len(),
            r@ == chars@.subrange(from as int, i as int),
        decreases to - i,
    {
        assert(chars@.subrange(from as int, i + 1) =~= chars@.subrange(from as int, i as int).push(
            chars@[i as int],
        ));
        r.push(chars[i]);
        i = i + 1;
    }
    r
}

/// Whether `c` is one of the characters of `s`.
pub fn has_char(s: &str, c: char) -> (r: bool)
    ensures
        r == s@.contains(c),
{
    let chars = chars_of(s);
    let mut i: usize = 0;
    while i < chars.len()
        invariant
            chars@ == s@,
            i <= chars@.len(),
            !s@.take(i as int).contains(c),
        decreases chars@.len() - i,
    {
        if chars[i] == c {
            assert(s@[i as int] == c);
            return true;
        }
        assert(s@.take(i + 1) =~= s@.take(i as int).push(chars@[i as int]));
        i = i + 1;
    }
    assert(s@.take(i as int) =~= s@);
    false
}

/// Whether `s` begins with `start`.
pub fn starts_with(s: &str, start: &str) -> (r: bool)
    ensures
        r == start@.is_prefix_of(s@),
{
    let whole = chars_of(s);
    let part = chars_of(start);
    if part.len() > whole.len() {
        return false;
    }
    let mut i: usize = 0;
    while i < part.len()
        invariant
            whole@ == s@,
            part@ == start@,
            i <= part@.len() <= whole@.len(),
            forall|j: int| 0 <= j < i ==> part@[j] == whole@[j],
        decreases part@.len() - i,
    {
        if part[i] != whole[i] {
            assert(s@.subrange(0, start@.len() as int)[i as int] != start@[i as int]);
            return false;
        }
        i = i + 1;
    }
    assert(s@.subrange(0, start@.len() as int) =~= start@);
    true
}

/// Appends `n` copies of `c`.
pub fn push_repeated(out: &mut String, c: char, n: usize)
    ensures
        final(out)@ == old(out)@ + repeated(c, n as nat),
{
    let ghost before = out@;
    let mut i: usize = 0;
    assert(before + repeated(c, 0) =~= before);
    while i < n
        invariant
            i <= n,
            out@ == before + repeated(c, i as nat),
        decreases n - i,
    {
        out.push(c);
        i = i + 1;
        assert(out@ =~= before + repeated(c, i as nat));
    }
}

/// Appends `s`, filled up with spaces to `width` characters.
pub fn push_padded(out: &mut String, s: &str, width: usize)
    ensures
        final(out)@ == old(out)@ + padded(s@, width as nat),
{
    let ghost before = out@;
    let len = s.unicode_len();
    out.append(s);
    if len < width {
        push_repeated(out, ' ', width - len);
        assert(out@ =~= before + padded(s@, width as nat));
    }
}

/// Appends `n` in decimal.
pub fn push_decimal(out: &mut String, n: u64)
    ensures
        final(out)@ == old(out)@ + decimal(n as nat),
    decreases n,
{
    let ghost before = out@;
    if n >= 10 {
        push_decimal(out, n / 10);
    }
    let last = (n % 10) as u8;
    out.push((48 + last) as char);
    assert(out@ =~= before + decimal(n as nat));
}

/// `a` and `b` one after the other.
pub fn joined(a: &str, b: &str) -> (r: String)
    ensures
        r@ == a@ + b@,
{
    let mut r = a.to_owned();
    r.append(b);
    r
}

/// The characters with the Unicode property White_Space.
pub open spec fn white_space(c: char) -> bool {
    let n = c as u32;
    ||| 0x9 <= n <= 0xd
    ||| n == 0x20
    ||| n == 0x85
    ||| n == 0xa0
    ||| n == 0x1680
    ||| 0x2000 <= n <= 0x200a
    ||| n == 0x2028
    ||| n == 0x2029
    ||| n == 0x202f
    ||| n == 0x205f
    ||| n == 0x3000
}

/// Whether `c` is white space.
pub fn is_white_space(c: char) -> (r: bool)
    ensures
        r == white_space(c),
{
    let n = c as u32;
    (0x9 <= n && n <= 0xd) || n == 0x20 || n == 0x85 || n == 0xa0 || n == 0x1680 || (0x2000 <= n
        && n <= 0x200a) || n == 0x2028 || n == 0x2029 || n == 0x202f || n == 0x205f || n == 0x3000
}

/// `s` without the white space that it begins with.
pub open spec fn trim_start(s: Seq<char>) -> Seq<char>
    decreases s.len(),
{
    if s.len() > 0 && white_space(s[0]) {
        trim_start(s.skip(1))
    } else {
        s
    }
}

/// `s` without the white space that it ends with.
pub open spec fn trim_end(s: Seq<char>) -> Seq<char>
    decreases s.len(),
{
    if s.len() > 0 && white_space(s.last()) {
        trim_end(s.drop_last())
    } else {
        s
    }
}

/// `s` without the white space around it.
pub open spec fn trimmed(s: Seq<char>) -> Seq<char> {
    trim_end(trim_start(s))
}

/// `chars` without the white space around them, as text.
fn trim_chars(chars: &Vec<char>) -> (r: String)
    ensures
        r@ == trimmed(chars@),
{
    let mut from: usize = 0;
    assert(chars@.skip(0) =~= chars@);
    while from < chars.len() && is_white_space(chars[from])
        invariant
            from <= chars@.len(),
            trim_start(chars@) == trim_start(chars@.skip(from as int)),
        decreases chars@.len() - from,
    {
        assert(chars@.skip(from as int).skip(1) =~= chars@.skip(from + 1));
        from = from + 1;
    }
    assert(chars@.subrange(from as int, chars@.len() as int) =~= chars@.skip(from as int));
    text_of(chars, from, end_without_space(chars, from))
}

/// Where the characters from `from` on end, without the white space at the end.
fn end_without_space(chars: &Vec<char>, from: usize) -> (r: usize)
    requires
        from <= chars@.len(),
    ensures
        from <= r <= chars@.len(),
        chars@.subrange(from as int, r as int) == trim_end(
            chars@.subrange(from as int, chars@.len() as int),
        ),
{
    let ghost rest = chars@.subrange(from as int, chars@.len() as int);
    let mut to: usize = chars.len();
    while from < to && is_white_space(chars[to - 1])
        invariant
            from <= to <= chars@.len(),
            trim_end(rest) == trim_end(chars@.subrange(from as int, to as int)),
        decreases to,
    {
        assert(chars@.subrange(from as int, to as int).drop_last() =~= chars@.subrange(
            from as int,
            to - 1,
        ));
        to = to - 1;
    }
    to
}

/// `s` without the white space that it ends with.
pub fn text_without_end_space(s: &str) -> (r: String)
    ensures
        r@ == trim_end(s@),
{
    let chars = chars_of(s);
    assert(chars@.subrange(0, chars@.len() as int) =~= s@);
    text_of(&chars, 0, end_without_space(&chars, 0))
}

/// What separates the addresses of a list.
pub open spec fn separator(c: char) -> bool {
    c == ',' || c == ';'
}

/// What stands between the separators of `s`; without one, `s` itself.
pub open spec fn pieces(s: Seq<char>) -> Seq<Seq<char>>
    decreases s.len(),
{
    if s.len() == 0 {
        seq![Seq::empty()]
    } else {
        let before = pieces(s.drop_last());
        if separator(s.last()) {
            before.push(Seq::empty())
        } else {
            before.update(before.len() - 1, before.last().push(s.last()))
        }
    }
}

/// The texts that are more than white space, without the white space around
/// them.
pub open spec fn trimmed_texts(s: Seq<Seq<char>>) -> Seq<Seq<char>>
    decreases s.len(),
{
    if s.len() == 0 {
        Seq::empty()
    } else {
        let before = trimmed_texts(s.drop_last());
        let last = trimmed(s.last());
        if last.len() == 0 {
            before
        } else {
            before.push(last)
        }
    }
}

/// The entries of a list that commas and semicolons separate; white space round
/// an entry does not count, and an entry of nothing else is none.
pub open spec fn entries(list: Seq<char>) -> Seq<Seq<char>> {
    trimmed_texts(pieces(list))
}

/// Takes a list apart into its entries.
pub fn list_entries(list: &str) -> (r: Vec<String>)
    ensures
        texts(r@) == entries(list@),
{
    let chars = chars_of(list);
    let mut found: Vec<String> = Vec::new();
    let mut piece: Vec<char> = Vec::new();
    let mut i: usize = 0;
    assert(chars@.take(0) =~= Seq::empty());
    proof {
        let none = pieces(Seq::empty());
        assert(none.drop_last() =~= Seq::empty());
        assert(texts(found@) =~= Seq::empty());
    }
    while i < chars.len()
        invariant
            i <= chars@.len(),
            pieces(chars@.take(i as int)).len() > 0,
            pieces(chars@.take(i as int)).last() == piece@,
            texts(found@) == trimmed_texts(pieces(chars@.take(i as int)).drop_last()),
        decreases chars@.len() - i,
    {
        let c = chars[i];
        let ghost before = pieces(chars@.take(i as int));
        let ghost after = pieces(chars@.take(i + 1));
        assert(chars@.take(i + 1).drop_last() =~= chars@.take(i as int));
        if c == ',' || c == ';' {
            let entry = trim_chars(&piece);
            let ghost kept = texts(found@);
            if !entry.as_str().is_empty() {
                found.push(entry);
                assert(texts(found@) =~= kept.push(entry@));
            }
            piece = Vec::new();
            assert(after.drop_last() =~= before);
            assert(piece@ =~= Seq::empty());
        } else {
            piece.push(c);
            assert(after.drop_last() =~= before.drop_last());
        }
        i = i + 1;
    }
    assert(chars@.take(i as int) =~= list@);
    let entry = trim_chars(&piece);
    let ghost kept = texts(found@);
    if !entry.as_str().is_empty() {
        found.push(entry);
        assert(texts(found@) =~= kept.push(entry@));
    }
    found
}

/// Padding keeps the text, fills up with blanks to the width, and never cuts.
pub proof fn law_padding_fills_up(s: Seq<char>, width: nat)
    ensures
        padded(s, width).len() == if s.len() < width {
            width
        } else {
            s.len()
        },
        padded(s, width).take(s.len() as int) == s,
        forall|i: int| s.len() <= i < padded(s, width).len() ==> #[trigger] padded(s, width)[i] == ' ',
{
    assert(padded(s, width).take(s.len() as int) =~= s);
}

/// The number that decimal digits stand for.
pub open spec fn value_of(digits: Seq<char>) -> int
    decreases digits.len(),
{
    if digits.len() == 0 {
        0
    } else {
        10 * value_of(digits.drop_last()) + (digits.last() as int - 48)
    }
}

/// A number can be read back from its digits, and no zero stands before them.
pub proof fn law_decimal_is_read_back(n: nat)
    ensures
        value_of(decimal(n)) == n,
        decimal(n).len() > 0,
        forall|i: int| 0 <= i < decimal(n).len() ==> '0' <= #[trigger] decimal(n)[i] <= '9',
        n > 0 ==> decimal(n)[0] != '0',
        n < 10 ==> decimal(n).len() == 1,
    decreases n,
{
    lemma_decimal_is_digits(n);
    if n >= 10 {
        law_decimal_is_read_back(n / 10);
        assert(decimal(n).drop_last() =~= decimal(n / 10));
    } else {
        assert(decimal(n).drop_last() =~= Seq::empty());
        assert(value_of(Seq::<char>::empty()) == 0);
    }
}

/// Copies of a character are that character, as often as asked for.
pub proof fn law_repeated(c: char, n: nat)
    ensures
        repeated(c, n).len() == n,
        forall|i: int| 0 <= i < n ==> #[trigger] repeated(c, n)[i] == c,
{
}

proof fn lemma_trim_start(s: Seq<char>)
    ensures
        exists|from: int|
            0 <= from <= s.len() && trim_start(s) == #[trigger] s.skip(from) && (forall|k: int|
                0 <= k < from ==> white_space(#[trigger] s[k])) && (from < s.len() ==> !white_space(
                s[from],
            )),
    decreases s.len(),
{
    if s.len() > 0 && white_space(s[0]) {
        let rest = s.skip(1);
        lemma_trim_start(rest);
        let from = choose|from: int|
            0 <= from <= rest.len() && trim_start(rest) == #[trigger] rest.skip(from) && (forall|
                k: int,
            |
                0 <= k < from ==> white_space(#[trigger] rest[k])) && (from < rest.len()
                ==> !white_space(rest[from]));
        assert(s.skip(from + 1) =~= rest.skip(from));
        assert forall|k: int| 0 <= k < from + 1 implies white_space(#[trigger] s[k]) by {
            if k > 0 {
                assert(rest[k - 1] == s[k]);
            }
        }
    } else {
        assert(s.skip(0) =~= s);
    }
}

/// What is cut off at the end is white space, all that is there and nothing
/// else.
pub proof fn law_end_space_is_cut(s: Seq<char>)
    ensures
        trim_end(s).len() <= s.len(),
        trim_end(s) == s.take(trim_end(s).len() as int),
        forall|k: int| trim_end(s).len() <= k < s.len() ==> white_space(#[trigger] s[k]),
        trim_end(s).len() > 0 ==> !white_space(trim_end(s).last()),
    decreases s.len(),
{
    if s.len() > 0 && white_space(s.last()) {
        let less = s.drop_last();
        law_end_space_is_cut(less);
        assert(s.take(trim_end(s).len() as int) =~= less.take(trim_end(s).len() as int));
        assert forall|k: int| trim_end(s).len() <= k < s.len() implies white_space(
            #[trigger] s[k],
        ) by {
            if k < less.len() {
                assert(less[k] == s[k]);
            }
        }
    } else {
        assert(s.take(s.len() as int) =~= s);
    }
}

/// Trimming cuts the white space at both ends, all of it and nothing else.
pub proof fn law_space_around_is_cut(s: Seq<char>)
    ensures
        exists|from: int, to: int|
            0 <= from <= to <= s.len() && trimmed(s) == #[trigger] s.subrange(from, to) && (forall|
                k: int,
            |
                0 <= k < from || to <= k < s.len() ==> white_space(#[trigger] s[k])),
        trimmed(s).len() > 0 ==> !white_space(trimmed(s)[0]) && !white_space(trimmed(s).last()),
{
    lemma_trim_start(s);
    let from = choose|from: int|
        0 <= from <= s.len() && trim_start(s) == #[trigger] s.skip(from) && (forall|k: int|
            0 <= k < from ==> white_space(#[trigger] s[k])) && (from < s.len() ==> !white_space(
            s[from],
        ));
    let rest = s.skip(from);
    law_end_space_is_cut(rest);
    let to = from + trimmed(s).len();
    assert(trimmed(s) =~= s.subrange(from, to));
    assert forall|k: int| 0 <= k < from || to <= k < s.len() implies white_space(
        #[trigger] s[k],
    ) by {
        if k >= to {
            assert(rest[k - from] == s[k]);
        }
    }
    if trimmed(s).len() > 0 {
        assert(trimmed(s)[0] == s[from]);
    }
}

/// Of the ASCII characters, the blank and the control characters from the tab to
/// the carriage return are white space, and no others are.
pub proof fn law_ascii_white_space(c: char)
    requires
        (c as u32) < 0x80,
    ensures
        white_space(c) <==> c == ' ' || c == '\t' || c == '\n' || c == '\r' || c as u32 == 0xb
            || c as u32 == 0xc,
{
}

/// The other characters that are white space.
pub proof fn law_other_white_space(c: char)
    requires
        c as u32 >= 0x80,
    ensures
        white_space(c) <==> {
            ||| c == '\u{85}' || c == '\u{a0}' || c == '\u{1680}'
            ||| '\u{2000}' <= c <= '\u{200a}'
            ||| c == '\u{2028}' || c == '\u{2029}' || c == '\u{202f}' || c == '\u{205f}'
            ||| c == '\u{3000}'
        },
{
}

proof fn lemma_pieces_of_two(a: Seq<char>, between: char, b: Seq<char>)
    requires
        separator(between),
    ensures
        pieces(a.push(between) + b) == pieces(a) + pieces(b),
        pieces(b).len() > 0,
    decreases b.len(),
{
    let whole = a.push(between) + b;
    if b.len() == 0 {
        assert(whole.drop_last() =~= a);
        assert(whole.last() == between);
        assert(pieces(whole) =~= pieces(a) + pieces(b));
    } else {
        let less = b.drop_last();
        lemma_pieces_of_two(a, between, less);
        assert(whole.drop_last() =~= a.push(between) + less);
        assert(whole.last() == b.last());
        assert((pieces(a) + pieces(less)).last() == pieces(less).last());
        assert(pieces(whole) =~= pieces(a) + pieces(b));
    }
}

proof fn lemma_trimmed_texts_join(a: Seq<Seq<char>>, b: Seq<Seq<char>>)
    ensures
        trimmed_texts(a + b) == trimmed_texts(a) + trimmed_texts(b),
    decreases b.len(),
{
    if b.len() == 0 {
        assert(a + b =~= a);
        assert(trimmed_texts(a) + trimmed_texts(b) =~= trimmed_texts(a));
    } else {
        lemma_trimmed_texts_join(a, b.drop_last());
        assert((a + b).drop_last() =~= a + b.drop_last());
        assert((a + b).last() == b.last());
        assert(trimmed_texts(a + b) =~= trimmed_texts(a) + trimmed_texts(b));
    }
}

/// A comma and a semicolon separate two lists: the entries are those of the
/// first, then those of the second.
pub proof fn law_separators_separate(a: Seq<char>, b: Seq<char>)
    ensures
        entries(a.push(',') + b) == entries(a) + entries(b),
        entries(a.push(';') + b) == entries(a) + entries(b),
{
    lemma_pieces_of_two(a, ',', b);
    lemma_pieces_of_two(a, ';', b);
    lemma_trimmed_texts_join(pieces(a), pieces(b));
}

proof fn lemma_one_piece(s: Seq<char>)
    requires
        !s.contains(','),
        !s.contains(';'),
    ensures
        pieces(s) == seq![s],
    decreases s.len(),
{
    if s.len() > 0 {
        let less = s.drop_last();
        assert(s[s.len() - 1] == s.last());
        assert forall|i: int| 0 <= i < less.len() implies less[i] != ',' && less[i] != ';' by {
            assert(s.contains(s[i]));
        }
        lemma_one_piece(less);
        assert(s.contains(s.last()));
        assert(less.push(s.last()) =~= s);
        assert(pieces(s) =~= seq![s]);
    } else {
        assert(s =~= Seq::empty());
        assert(pieces(s) =~= seq![s]);
    }
}

/// A text without a separator is one entry, without the white space around it;
/// it is none where there is nothing else.
pub proof fn law_single_entry(s: Seq<char>)
    requires
        !s.contains(','),
        !s.contains(';'),
    ensures
        trimmed(s).len() > 0 ==> entries(s) == seq![trimmed(s)],
        trimmed(s).len() == 0 ==> entries(s) == Seq::<Seq<char>>::empty(),
{
    lemma_one_piece(s);
    let one = seq![s];
    assert(one.drop_last() =~= Seq::empty());
    assert(trimmed_texts(Seq::empty()) =~= Seq::empty());
    assert(trimmed_texts(one) =~= if trimmed(s).len() > 0 {
        seq![trimmed(s)]
    } else {
        Seq::empty()
    });
}

/// Characters of a text that stand before a character that is no white space are
/// not cut off at the end.
pub proof fn lemma_end_stays(a: Seq<char>, c: char, b: Seq<char>)
    requires
        !white_space(c),
    ensures
        trim_end(a.push(c) + b) == a.push(c) + trim_end(b),
    decreases b.len(),
{
    let whole = a.push(c) + b;
    if b.len() == 0 {
        assert(whole =~= a.push(c));
        assert(a.push(c) + trim_end(b) =~= a.push(c));
    } else if white_space(b.last()) {
        assert(whole.drop_last() =~= a.push(c) + b.drop_last());
        lemma_end_stays(a, c, b.drop_last());
    }
}

} // verus!
