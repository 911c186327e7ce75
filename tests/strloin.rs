use std::ops::Range;
use strloin::{Cow, Ranges, Strloin};

fn check(strloin: &Strloin, input: &[Range<usize>], expected: &str, is_borrow: bool) {
    let got_from_slice = strloin.from_ranges(input);
    assert_eq!(got_from_slice, expected, "from_ranges");

    let mut ranges = Ranges::new();
    for range in input {
        ranges.push(range.clone());
    }
    let got_from_obj = strloin.from_ranges_obj(&ranges);
    assert_eq!(got_from_obj, expected, "from_ranges_obj");

    if is_borrow {
        assert!(
            matches!(got_from_slice, Cow::Borrowed(_)),
            "expected borrow from ranges slice"
        );
        assert!(
            matches!(got_from_obj, Cow::Borrowed(_)),
            "expected borrow from ranges obj"
        );
    } else {
        assert!(
            matches!(got_from_slice, Cow::Owned(_)),
            "expected owned from ranges slice"
        );
        assert!(
            matches!(got_from_obj, Cow::Owned(_)),
            "expected owned from ranges obj"
        );
    }
}

#[test]
fn from_ranges() {
    let string = "hello world";
    let strloin = Strloin::new(&string);

    check(&strloin, &[], "", true);
    check(&strloin, &[0..5], "hello", true);
    check(&strloin, &[6..11], "world", true);
    check(&strloin, &[0..5, 5..11], "hello world", true);
    check(&strloin, &[0..5, 6..11], "helloworld", false);
    check(&strloin, &[6..11, 5..6, 0..5], "world hello", false);
    check(&strloin, &[0..6, 0..5], "hello hello", false);
}

#[test]
#[should_panic]
fn invalid_range() {
    let string = "hello world";
    let strloin = Strloin::new(&string);
    let _ = strloin.from_ranges(&[1..0]);
}

#[test]
#[should_panic]
fn invalid_ranges() {
    let string = "hello world";
    let strloin = Strloin::new(&string);
    let _ = strloin.from_ranges(&[2..1, 1..4]);
}

#[test]
fn from_ranges_borrows_from_source() {
    let source = String::from("hello world");
    let strloin = Strloin::new(&source);
    match strloin.from_ranges(&[6..8, 8..11]) {
        Cow::Borrowed(s) => {
            assert_eq!(s, "world");
            assert_eq!(s.as_ptr(), source[6..].as_ptr());
        }
        Cow::Owned(_) => panic!("expected a borrow"),
    }
}

#[test]
fn from_ranges_owned_is_concatenation_in_order() {
    let strloin = Strloin::new("abcdefgh");
    let got = strloin.from_ranges(&[4..6, 0..2, 7..8, 2..2]);
    assert_eq!(got, "efabh");
    assert!(matches!(got, Cow::Owned(_)));
}

#[test]
fn from_ranges_empty_range_in_chain_still_borrows() {
    let strloin = Strloin::new("hello world");
    let got = strloin.from_ranges(&[0..5, 5..5, 5..11]);
    assert_eq!(got, "hello world");
    assert!(matches!(got, Cow::Borrowed(_)));
}

#[test]
fn from_ranges_multibyte_text() {
    let strloin = Strloin::new("héllo wörld");
    assert_eq!(strloin.from_ranges(&[0..6]), "héllo");
    assert_eq!(strloin.from_ranges(&[0..1, 1..3]), "hé");
    let owned = strloin.from_ranges(&[7..13, 0..1]);
    assert_eq!(owned, "wörldh");
    assert!(matches!(owned, Cow::Owned(_)));
}

#[test]
fn from_ranges_obj_counts_entries() {
    let strloin = Strloin::new("hello world");
    let mut ranges = Ranges::from_range(0..5);
    let one = strloin.from_ranges_obj(&ranges);
    assert_eq!(one, "hello");
    assert!(matches!(one, Cow::Borrowed(_)));

    ranges.push(5..11);
    let merged = strloin.from_ranges_obj(&ranges);
    assert_eq!(merged, "hello world");
    assert!(matches!(merged, Cow::Borrowed(_)));

    ranges.push(5..11);
    let two = strloin.from_ranges_obj(&ranges);
    assert_eq!(two, "hello world world");
    assert!(matches!(two, Cow::Owned(_)));

    ranges.clear();
    let none = strloin.from_ranges_obj(&ranges);
    assert_eq!(none, "");
    assert!(matches!(none, Cow::Borrowed(_)));
}

#[test]
fn from_ranges_obj_keeps_empty_entry_separate() {
    let strloin = Strloin::new("hello world");
    let ranges = Ranges::from_slice(&[0..5, 5..5, 5..11]);
    let got = strloin.from_ranges_obj(&ranges);
    assert_eq!(got, "hello world");
    assert!(matches!(got, Cow::Owned(_)));
}

#[test]
fn strloin_from_str() {
    let strloin = Strloin::from("abc");
    assert_eq!(strloin.source, "abc");
    assert_eq!(strloin.from_ranges(&[1..3]), "bc");
}
