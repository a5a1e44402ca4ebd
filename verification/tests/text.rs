use loophunter::groups::{tally, Hit};
use loophunter::order::OrderedSet;
use loophunter::text::{
    compare_text, is_white_space, joined, list_entries, push_decimal, push_padded, push_repeated,
    starts_with, text_without_end_space, Rank,
};

#[test]
fn white_space_is_that_of_unicode() {
    for n in 0..=0x10ffff {
        if let Some(c) = char::from_u32(n) {
            assert_eq!(is_white_space(c), c.is_whitespace(), "{:x}", n);
        }
    }
}

#[test]
fn texts_stand_in_the_order_of_their_code_points() {
    let words = ["", "0", "10.0.0.1", "10.0.0.10", "9", "AS1", "AS_UNKNOWN", "a", "\u{e9}", "\u{1f600}"];
    for (i, a) in words.iter().enumerate() {
        for (j, b) in words.iter().enumerate() {
            let expected = if i < j {
                Rank::Below
            } else if i == j {
                Rank::Same
            } else {
                Rank::Above
            };
            assert_eq!(compare_text(a, b), expected);
            assert_eq!(a < b, i < j);
        }
    }
}

#[test]
fn numbers_and_padding() {
    let mut s = String::new();
    push_decimal(&mut s, 0);
    push_decimal(&mut s, 90);
    push_decimal(&mut s, u64::MAX);
    assert_eq!(s, "09018446744073709551615");
    let mut s = String::new();
    push_padded(&mut s, "\u{e9}t\u{e9}", 5);
    push_padded(&mut s, "abcdef", 5);
    push_repeated(&mut s, '=', 3);
    assert_eq!(s, "\u{e9}t\u{e9}  abcdef===");
    assert_eq!(joined("a", "b"), "ab");
}

#[test]
fn beginnings_and_ends() {
    assert!(starts_with("AS65001", "AS"));
    assert!(starts_with("AS", ""));
    assert!(!starts_with("A", "AS"));
    assert!(!starts_with("65001", "AS"));
    assert_eq!(text_without_end_space(" a \n\t"), " a");
    assert_eq!(text_without_end_space("\u{3000}"), "");
}

#[test]
fn lists_are_taken_apart() {
    assert_eq!(list_entries("a, b;c"), vec!["a", "b", "c"]);
    assert_eq!(list_entries("   , ;;   "), Vec::<String>::new());
    assert_eq!(list_entries(""), Vec::<String>::new());
    assert_eq!(list_entries(";\t x y \u{a0},"), vec!["x y"]);
}

#[test]
fn ordered_set_holds_each_text_once() {
    let mut set: OrderedSet<String> = OrderedSet::new();
    for word in ["b", "a", "c", "b", "a"] {
        set.insert_text(word.to_string());
    }
    assert_eq!(set.items, vec!["a", "b", "c"]);
    assert!(set.contains_text(&"c".to_string()));
    assert!(!set.contains_text(&"d".to_string()));
}

#[test]
fn groups_are_counted_once() {
    let mut hits = OrderedSet::new();
    for (asn, router, block, target) in [
        ("AS1", "r1", "2001:db8::/48", "2001:db8::2"),
        ("AS1", "10.0.0.1", "198.18.0.1", "198.18.0.1"),
        ("AS1", "r1", "2001:db8::/48", "2001:db8::1"),
        ("AS1", "r1", "2001:db8::/48", "2001:db8::1"),
        ("AS1", "r2", "2001:db8::/48", "2001:db8::1"),
        ("AS2", "r1", "2001:db8::/48", "2001:db8::1"),
    ] {
        hits.insert(Hit {
            asn: asn.to_string(),
            router: router.to_string(),
            block: block.to_string(),
            target: target.to_string(),
        });
    }
    assert_eq!(hits.items.len(), 5);
    let found = tally(&hits, "AS1");
    assert_eq!((found.v4, found.v6), (1, 2));
    assert_eq!(
        found.lines.items,
        vec![
            "10.0.0.1 - 198.18.0.1",
            "r1 - 2001:db8::/48 (target: 2001:db8::1, 2001:db8::2)",
            "r2 - 2001:db8::/48 (target: 2001:db8::1)",
        ]
    );
    assert_eq!(tally(&hits, "AS3").lines.items.len(), 0);
}
