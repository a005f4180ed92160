use std::borrow::Cow;
use std::ops::Bound;

use combined_str::{CombinedStr, CombinedStrIndex, CombinedStrView};

fn content(v: &CombinedStrView<'_>) -> String {
    v.to_string()
}

#[test]
fn range_forms_select_the_same_bytes() {
    let s = CombinedStr::new(["ab", "cde", "", "fgh"]);
    let a = CombinedStrIndex::get(&(1..6), &s).unwrap();
    let b = CombinedStrIndex::get(&(Bound::Included(1), Bound::Excluded(6)), &s).unwrap();
    let c = CombinedStrIndex::get(&(1..=5), &s).unwrap();
    let d = CombinedStrIndex::get(&(Bound::Included(1), Bound::Included(5)), &s).unwrap();
    assert_eq!(content(&a), "bcdef");
    assert_eq!(a, b);
    assert_eq!(a, c);
    assert_eq!(a, d);
    let to = CombinedStrIndex::get(&(..4), &s).unwrap();
    let to_b = CombinedStrIndex::get(&(Bound::Unbounded, Bound::Excluded(4)), &s).unwrap();
    assert_eq!(to, to_b);
    assert!(to == *"abcd");
    let from = CombinedStrIndex::get(&(4..), &s).unwrap();
    let from_b = CombinedStrIndex::get(&(Bound::Included(4), Bound::Unbounded), &s).unwrap();
    assert_eq!(from, from_b);
    assert!(from == *"efgh");
    let to_incl = CombinedStrIndex::get(&(..=3), &s).unwrap();
    let to_incl_b = CombinedStrIndex::get(&(Bound::Unbounded, Bound::Included(3)), &s).unwrap();
    assert_eq!(to_incl, to_incl_b);
    assert!(to_incl == *"abcd");
}

#[test]
fn inclusive_range_to_usize_max_is_out_of_bounds() {
    let s = CombinedStr::new(["abc"]);
    assert!(CombinedStrIndex::get(&(0..=usize::MAX), &s).is_none());
    assert!(CombinedStrIndex::get(&(..=usize::MAX), &s).is_none());
}

#[test]
fn view_len_is_range_width() {
    let s = CombinedStr::new(["hello", " ", "world"]);
    for start in 0..=11 {
        for end in start..=11 {
            let v = CombinedStrIndex::get(&(start..end), &s).unwrap();
            assert_eq!(v.len(), end - start);
            assert_eq!(v.is_empty(), start == end);
            assert_eq!(content(&v), "hello world"[start..end].to_string());
        }
    }
}

#[test]
fn range_ending_past_the_end_is_none() {
    let s = CombinedStr::new(["ab", "cd"]);
    assert!(CombinedStrIndex::get(&(2..5), &s).is_none());
    assert!(CombinedStrIndex::get(&(5..), &s).is_none());
    assert!(CombinedStrIndex::get(&(4..), &s).unwrap().is_empty());
}

#[test]
fn empty_range_has_two_empty_pieces() {
    let s = CombinedStr::new(["abc", "def"]);
    let v = CombinedStrIndex::get(&(4..4), &s).unwrap();
    let mut it = v.into_iter();
    assert_eq!(it.next(), Some(""));
    assert_eq!(it.next(), Some(""));
    assert_eq!(it.next(), None);
}

#[test]
fn multibyte_segments_count_bytes() {
    let s = CombinedStr::new(["h\u{e9}llo", " w\u{f6}rld"]);
    assert_eq!(s.len(), 13);
    assert!(s == *"h\u{e9}llo w\u{f6}rld");
    assert_eq!(s.to_string(), "h\u{e9}llo w\u{f6}rld");
    let v = CombinedStrIndex::get(&(1..10), &s).unwrap();
    assert!(v == *"\u{e9}llo w\u{f6}");
    assert_eq!(v.len(), 9);
}

#[test]
fn equality_is_symmetric_across_string_types() {
    let c = CombinedStr::new(["ab", "c"]);
    let yes = String::from("abc");
    let no = String::from("abd");
    assert_eq!(c == yes, yes == c);
    assert_eq!(c == no, no == c);
    let cow_yes: Cow<str> = Cow::Owned(String::from("abc"));
    assert!(c == cow_yes && cow_yes == c);
    let v = CombinedStrIndex::get(&(0..3), &c).unwrap();
    assert!(v == c && c == v);
    let shorter = CombinedStrIndex::get(&(0..2), &c).unwrap();
    assert!(shorter != c && c != shorter);
}

#[test]
fn views_compare_by_content_not_segments() {
    let s1 = CombinedStr::new(["a", "", "bc", "d"]);
    let s2 = CombinedStr::new(["abcd"]);
    let a = CombinedStrIndex::get(&(..), &s1).unwrap();
    let b = CombinedStrIndex::get(&(..), &s2).unwrap();
    assert_eq!(a, b);
    assert_eq!(b, a);
    assert!(a == s2);
    assert!(b == s1);
}

#[test]
fn add_concatenates_segments_and_bytes() {
    let a = CombinedStr::new(["ab", "c"]);
    let b = CombinedStr::new(["", "de"]);
    let c: CombinedStr<'_, 4> = a.add(b);
    assert_eq!(c.len(), a.len() + b.len());
    assert_eq!(c.to_string(), a.to_string() + b.to_string().as_str());
    let segs: &[&str] = c.as_ref();
    assert_eq!(segs, &["ab", "c", "", "de"]);
    let d: CombinedStr<'_, 3> = a.add_str("xyz");
    assert!(d == *"abcxyz");
}

#[test]
fn string_conversions_agree_with_to_string() {
    let c = CombinedStr::new(["x", "y", "z"]);
    let s: String = c.into();
    assert_eq!(s, c.to_string());
    let cow: Cow<str> = c.into();
    assert!(matches!(cow, Cow::Owned(_)));
    assert_eq!(cow, "xyz");
    let v = CombinedStrIndex::get(&(1..3), &c).unwrap();
    let vs: String = v.into();
    assert_eq!(vs, "yz");
    let vcow: Cow<str> = v.into();
    assert!(matches!(vcow, Cow::Owned(_)));
}

#[test]
fn cow_add_assign_ownership() {
    let mut borrowed: Cow<str> = Cow::Borrowed("keep");
    borrowed += CombinedStr::new(["", ""]);
    assert!(matches!(borrowed, Cow::Borrowed("keep")));
    let mut empty: Cow<str> = Cow::Borrowed("");
    empty += CombinedStr::new(["", ""]);
    assert!(matches!(empty, Cow::Owned(_)));
    assert_eq!(empty, "");
    let mut grows: Cow<str> = Cow::Borrowed("a");
    grows += CombinedStr::new(["b"]);
    assert!(matches!(grows, Cow::Owned(_)));
    assert_eq!(grows, "ab");
    let s = CombinedStr::new(["abc"]);
    let none = CombinedStrIndex::get(&(1..1), &s).unwrap();
    let mut still: Cow<str> = Cow::Borrowed("x");
    still += none;
    assert!(matches!(still, Cow::Borrowed("x")));
}

#[test]
fn iterator_stays_exhausted() {
    let s = CombinedStr::new(["a", "b"]);
    let mut it = s.into_iter();
    assert_eq!(it.next(), Some("a"));
    assert_eq!(it.next(), Some("b"));
    for _ in 0..10 {
        assert_eq!(it.next(), None);
    }
    let empty: CombinedStr<'_, 0> = CombinedStr::new([]);
    assert_eq!(empty.into_iter().next(), None);
    assert!(empty.is_empty());
    assert!(empty == *"");
}

#[test]
fn as_bytes_per_segment() {
    let s = CombinedStr::new(["", "\u{e9}", "ab"]);
    let b = s.as_bytes();
    assert_eq!(b[0], b"");
    assert_eq!(b[1], "\u{e9}".as_bytes());
    assert_eq!(b[2], b"ab");
}

#[test]
fn default_segments_are_empty() {
    let s = CombinedStr::<'_, 4>::default();
    assert_eq!(s.strs, [""; 4]);
    assert_eq!(s.to_string(), "");
}

#[test]
fn from_str_and_array_keep_segments() {
    let one = CombinedStr::from("solo");
    assert_eq!(one.strs, ["solo"]);
    let arr = CombinedStr::from(["a", "b"]);
    assert_eq!(arr.strs, ["a", "b"]);
}

#[test]
fn index_matches_get() {
    let s = CombinedStr::new(["abc", "def", "ghi"]);
    assert_eq!(CombinedStrIndex::index(2..7, &s), CombinedStrIndex::get(&(2..7), &s).unwrap());
    assert_eq!(
        CombinedStrIndex::index((Bound::Excluded(0), Bound::Included(8)), &s),
        CombinedStrIndex::get(&(1..9), &s).unwrap()
    );
}
