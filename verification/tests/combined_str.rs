use std::borrow::Cow;
use std::ops::Bound;

use combined_str::iter::CombinedStrIter;
use combined_str::view::CombinedStrViewIter;
use combined_str::{CombinedStr, CombinedStrIndex};

/// Drains an iterator over the segments of a `CombinedStr` into a `Vec`.
fn collect_segments<'a, const N: usize>(mut iter: CombinedStrIter<'a, N>) -> Vec<&'a str> {
    let mut out = Vec::new();
    while let Some(s) = iter.next() {
        out.push(s);
    }
    out
}

/// Drains an iterator over the segments of a `CombinedStrView` into a `Vec`.
fn collect_view_segments<'a>(mut iter: CombinedStrViewIter<'a>) -> Vec<&'a str> {
    let mut out = Vec::new();
    while let Some(s) = iter.next() {
        out.push(s);
    }
    out
}

/// Skips `n` segments and returns the next one.
fn nth<'a, const N: usize>(iter: &mut CombinedStrIter<'a, N>, n: usize) -> Option<&'a str> {
    for _ in 0..n {
        iter.next()?;
    }
    iter.next()
}


// --- CombinedStr basic tests ---

#[test]
fn len_sums_segments() {
    let s = CombinedStr::new(["foo", "bar", "baz"]);
    assert_eq!(s.len(), 9);
}

#[test]
fn len_with_empty_segments() {
    let s = CombinedStr::new(["", "hello", ""]);
    assert_eq!(s.len(), 5);
}

#[test]
fn is_empty_all_empty() {
    let s = CombinedStr::new(["", ""]);
    assert!(s.is_empty());
}

#[test]
fn is_empty_false_when_nonempty() {
    let s = CombinedStr::new(["a", ""]);
    assert!(!s.is_empty());
}

#[test]
fn default_is_empty() {
    let s = CombinedStr::<'_, 3>::default();
    assert!(s.is_empty());
    assert_eq!(s.len(), 0);
}

#[test]
fn as_bytes_matches_str_bytes() {
    let s = CombinedStr::new(["hi", "!"]);
    let bytes = s.as_bytes();
    assert_eq!(bytes[0], b"hi");
    assert_eq!(bytes[1], b"!");
}

#[test]
fn equality_same_content() {
    assert_eq!(CombinedStr::new(["x", "y"]), CombinedStr::new(["x", "y"]));
}

#[test]
fn equality_different_content() {
    assert_ne!(CombinedStr::new(["x", "y"]), CombinedStr::new(["x", "z"]));
}

#[test]
fn clone_and_copy() {
    let s = CombinedStr::new(["a", "b"]);
    let cloned = s.clone();
    let copied = s;
    assert_eq!(cloned, copied);
}

#[test]
fn from_array() {
    let s = CombinedStr::from(["hello", " ", "world"]);
    assert_eq!(s.len(), 11);
}

#[test]
fn from_str() {
    let s = CombinedStr::from("hello");
    assert_eq!(s.len(), 5);
}

#[test]
fn partial_eq_str_equal() {
    assert!(CombinedStr::new(["foo", "bar"]) == *"foobar");
}

#[test]
fn partial_eq_str_not_equal() {
    assert!(CombinedStr::new(["foo", "bar"]) != *"foobaz");
}

#[test]
fn partial_eq_str_prefix_only() {
    assert!(CombinedStr::new(["foo", "bar"]) != *"foo");
}

#[test]
fn partial_eq_str_empty() {
    assert!(CombinedStr::new(["", ""]) == *"");
}

#[test]
fn as_ref_segments() {
    let s = CombinedStr::new(["a", "b", "c"]);
    let segs: &[&str] = s.as_ref();
    assert_eq!(segs, &["a", "b", "c"]);
}

#[test]
fn partial_eq_string() {
    assert!(CombinedStr::new(["foo", "bar"]) == String::from("foobar"));
    assert!(CombinedStr::new(["foo", "bar"]) != String::from("foobaz"));
}

#[test]
fn partial_eq_string_symmetric() {
    assert!(String::from("foobar") == CombinedStr::new(["foo", "bar"]));
    assert!(String::from("foobaz") != CombinedStr::new(["foo", "bar"]));
}

#[test]
fn partial_eq_cow() {
    assert!(CombinedStr::new(["foo", "bar"]) == Cow::Borrowed("foobar"));
    assert!(CombinedStr::new(["foo", "bar"]) != Cow::Borrowed("foobaz"));
}

#[test]
fn partial_eq_cow_symmetric() {
    assert!(Cow::Borrowed("foobar") == CombinedStr::new(["foo", "bar"]));
    assert!(Cow::Borrowed("foobaz") != CombinedStr::new(["foo", "bar"]));
}

#[test]
fn display_concatenates_segments() {
    let s = CombinedStr::new(["hello", ", ", "world"]);
    assert_eq!(s.to_string(), "hello, world");
}

#[test]
fn display_single_segment() {
    let s = CombinedStr::new(["only"]);
    assert_eq!(s.to_string(), "only");
}

#[test]
fn iterator_yields_segments_in_order() {
    let s = CombinedStr::new(["a", "b", "c"]);
    let collected: Vec<&str> = collect_segments(s.into_iter());
    assert_eq!(collected, vec!["a", "b", "c"]);
}

#[test]
fn iterator_empty_segments() {
    let s = CombinedStr::new(["", "x", ""]);
    let collected: Vec<&str> = collect_segments(s.into_iter());
    assert_eq!(collected, vec!["", "x", ""]);
}

#[test]
fn string_from_combined_str() {
    let s: String = CombinedStr::new(["foo", "bar"]).into();
    assert_eq!(s, "foobar");
}

#[test]
fn cow_from_combined_str() {
    let c: Cow<str> = CombinedStr::new(["foo", "bar"]).into();
    assert_eq!(c, "foobar");
}

#[test]
fn string_add_assign() {
    let mut s = String::from("hello ");
    s += CombinedStr::new(["world", "!"]);
    assert_eq!(s, "hello world!");
}

#[test]
fn string_add() {
    let s = String::from("hi ") + CombinedStr::new(["there", "!"]);
    assert_eq!(s, "hi there!");
}

#[test]
fn string_add_assign_empty_rhs() {
    let mut s = String::from("unchanged");
    s += CombinedStr::new(["", ""]);
    assert_eq!(s, "unchanged");
}

#[test]
fn cow_add_assign_to_empty() {
    let mut c: Cow<str> = Cow::Borrowed("");
    c += CombinedStr::new(["hello", " world"]);
    assert_eq!(c, "hello world");
}

#[test]
fn cow_add_assign_to_nonempty() {
    let mut c: Cow<str> = Cow::Borrowed("start ");
    c += CombinedStr::new(["end"]);
    assert_eq!(c, "start end");
}

#[test]
fn cow_add() {
    let c: Cow<str> = Cow::Borrowed("x");
    let result = c + CombinedStr::new(["y", "z"]);
    assert_eq!(result, "xyz");
}

#[test]
fn add_combined_strs() {
    let a = CombinedStr::new(["hello", " "]);
    let b = CombinedStr::new(["world", "!"]);
    let c: CombinedStr<'_, 4> = a.add(b);
    assert!(c == *"hello world!");
    assert_eq!(c.len(), 12);
}

#[test]
fn add_combined_strs_empty() {
    let a = CombinedStr::new(["foo"]);
    let b = CombinedStr::new(["", ""]);
    let c: CombinedStr<'_, 3> = a.add(b);
    assert!(c == *"foo");
    assert_eq!(c.len(), 3);
}

#[test]
fn add_combined_strs_segments() {
    let a = CombinedStr::new(["a", "b"]);
    let b = CombinedStr::new(["c"]);
    let c: CombinedStr<'_, 3> = a.add(b);
    let segs: &[&str] = c.as_ref();
    assert_eq!(segs, &["a", "b", "c"]);
}

#[test]
fn add_str_slice() {
    let a = CombinedStr::new(["hello", " "]);
    let b: CombinedStr<'_, 3> = a.add_str("world");
    assert!(b == *"hello world");
    assert_eq!(b.len(), 11);
}

#[test]
fn add_str_slice_to_single() {
    let a = CombinedStr::new(["hi"]);
    let b: CombinedStr<'_, 2> = a.add_str("!");
    let segs: &[&str] = b.as_ref();
    assert_eq!(segs, &["hi", "!"]);
}

#[test]
fn add_chained() {
    let a = CombinedStr::new(["a"]);
    let b: CombinedStr<'_, 3> = a.add_str::<2>("b").add_str("c");
    assert!(b == *"abc");
    assert_eq!(b.len(), 3);
}

// --- CombinedStrIndex / CombinedStrView tests ---

#[test]
fn get_range_within_single_segment() {
    let s = CombinedStr::new(["hello", " world"]);
    let view = CombinedStrIndex::get(&(1..4), &s).unwrap();
    assert!(view == *"ell");
    assert_eq!(view.len(), 3);
}

#[test]
fn get_range_spanning_two_segments() {
    let s = CombinedStr::new(["hello", " world"]);
    let view = CombinedStrIndex::get(&(3..8), &s).unwrap();
    assert!(view == *"lo wo");
    assert_eq!(view.len(), 5);
}

#[test]
fn get_range_spanning_all_segments() {
    let s = CombinedStr::new(["ab", "cd", "ef"]);
    let view = CombinedStrIndex::get(&(1..5), &s).unwrap();
    assert!(view == *"bcde");
    assert_eq!(view.len(), 4);
}

#[test]
fn get_range_full() {
    let s = CombinedStr::new(["foo", "bar"]);
    let view = CombinedStrIndex::get(&(..), &s).unwrap();
    assert!(view == *"foobar");
    assert_eq!(view.len(), 6);
}

#[test]
fn get_range_from() {
    let s = CombinedStr::new(["abc", "def"]);
    let view = CombinedStrIndex::get(&(2..), &s).unwrap();
    assert!(view == *"cdef");
}

#[test]
fn get_range_to() {
    let s = CombinedStr::new(["abc", "def"]);
    let view = CombinedStrIndex::get(&(..4), &s).unwrap();
    assert!(view == *"abcd");
}

#[test]
fn get_range_inclusive() {
    let s = CombinedStr::new(["abc", "def"]);
    let view = CombinedStrIndex::get(&(1..=4), &s).unwrap();
    assert!(view == *"bcde");
}

#[test]
fn get_range_to_inclusive() {
    let s = CombinedStr::new(["abc", "def"]);
    let view = CombinedStrIndex::get(&(..=2), &s).unwrap();
    assert!(view == *"abc");
}

#[test]
fn get_empty_range() {
    let s = CombinedStr::new(["hello", "world"]);
    let view = CombinedStrIndex::get(&(3..3), &s).unwrap();
    assert!(view.is_empty());
}

#[test]
fn get_out_of_bounds_returns_none() {
    let s = CombinedStr::new(["abc"]);
    assert!(CombinedStrIndex::get(&(0..10), &s).is_none());
}

#[test]
fn get_invalid_range_returns_none() {
    let s = CombinedStr::new(["abc"]);
    assert!(CombinedStrIndex::get(&(3..1), &s).is_none());
}

#[test]
fn get_at_segment_boundary() {
    let s = CombinedStr::new(["abc", "def"]);
    let view = CombinedStrIndex::get(&(3..6), &s).unwrap();
    assert!(view == *"def");
}

#[test]
fn get_exact_single_segment() {
    let s = CombinedStr::new(["abc", "def", "ghi"]);
    let view = CombinedStrIndex::get(&(3..6), &s).unwrap();
    assert!(view == *"def");
}

#[test]
fn index_range_works() {
    let s = CombinedStr::new(["hello", " ", "world"]);
    let view = CombinedStrIndex::index(2..9, &s);
    assert!(view == *"llo wor");
}

#[test]
fn view_with_empty_segments_skipped() {
    let s = CombinedStr::new(["", "abc", "", "def", ""]);
    let view = CombinedStrIndex::get(&(1..5), &s).unwrap();
    assert!(view == *"bcde");
}

#[test]
fn view_display() {
    let s = CombinedStr::new(["hello", " ", "world"]);
    let view = CombinedStrIndex::get(&(3..9), &s).unwrap();
    assert_eq!(view.to_string(), "lo wor");
}

#[test]
fn get_bounds_tuple() {
    let s = CombinedStr::new(["abc", "def"]);
    let view = CombinedStrIndex::get(&(Bound::Included(1), Bound::Excluded(5)), &s).unwrap();
    assert!(view == *"bcde");
}

#[test]
fn get_bounds_tuple_unbounded() {
    let s = CombinedStr::new(["abc", "def"]);
    let view = CombinedStrIndex::get(&(Bound::Unbounded, Bound::Unbounded), &s).unwrap();
    assert!(view == *"abcdef");
}

#[test]
fn get_bounds_excluded_start() {
    let s = CombinedStr::new(["abc", "def"]);
    let view = CombinedStrIndex::get(&(Bound::Excluded(1), Bound::Excluded(5)), &s).unwrap();
    assert!(view == *"cde");
}

#[test]
fn get_bounds_included_end() {
    let s = CombinedStr::new(["abc", "def"]);
    let view = CombinedStrIndex::get(&(Bound::Included(0), Bound::Included(3)), &s).unwrap();
    assert!(view == *"abcd");
}

#[test]
fn get_bounds_excluded_start_overflow_returns_none() {
    let s = CombinedStr::new(["abc"]);
    assert!(
        CombinedStrIndex::get(&(Bound::Excluded(usize::MAX), Bound::Excluded(3)), &s,).is_none()
    );
}

#[test]
fn get_bounds_included_end_overflow_returns_none() {
    let s = CombinedStr::new(["abc"]);
    assert!(
        CombinedStrIndex::get(&(Bound::Included(0), Bound::Included(usize::MAX)), &s,).is_none()
    );
}

#[test]
fn index_range_to_works() {
    let s = CombinedStr::new(["abc", "def"]);
    let view = CombinedStrIndex::index(..4, &s);
    assert!(view == *"abcd");
}

#[test]
fn index_range_from_works() {
    let s = CombinedStr::new(["abc", "def"]);
    let view = CombinedStrIndex::index(2.., &s);
    assert!(view == *"cdef");
}

#[test]
fn index_range_full_works() {
    let s = CombinedStr::new(["abc", "def"]);
    let view = CombinedStrIndex::index(.., &s);
    assert!(view == *"abcdef");
}

#[test]
fn index_range_inclusive_works() {
    let s = CombinedStr::new(["abc", "def"]);
    let view = CombinedStrIndex::index(1..=4, &s);
    assert!(view == *"bcde");
}

#[test]
fn index_range_to_inclusive_works() {
    let s = CombinedStr::new(["abc", "def"]);
    let view = CombinedStrIndex::index(..=2, &s);
    assert!(view == *"abc");
}

#[test]
fn view_eq_str_shorter_segment() {
    let s = CombinedStr::new(["abc", "def"]);
    let view = CombinedStrIndex::get(&(0..6), &s).unwrap();
    assert!(view != *"abc");
    assert!(view != *"abcdefg");
}

#[test]
fn view_eq_str_mismatch() {
    let s = CombinedStr::new(["abc", "def"]);
    let view = CombinedStrIndex::get(&(0..6), &s).unwrap();
    assert!(view != *"abcxyz");
}

// --- CombinedStrView trait coverage tests ---

#[test]
fn view_eq_view_same() {
    let s = CombinedStr::new(["abc", "def"]);
    let a = CombinedStrIndex::get(&(1..5), &s).unwrap();
    let b = CombinedStrIndex::get(&(1..5), &s).unwrap();
    assert_eq!(a, b);
}

#[test]
fn view_eq_view_different_segments_same_content() {
    let s1 = CombinedStr::new(["ab", "cd", "ef"]);
    let s2 = CombinedStr::new(["abcdef"]);
    let a = CombinedStrIndex::get(&(0..6), &s1).unwrap();
    let b = CombinedStrIndex::get(&(0..6), &s2).unwrap();
    assert_eq!(a, b);
}

#[test]
fn view_ne_view() {
    let s = CombinedStr::new(["abc", "def"]);
    let a = CombinedStrIndex::get(&(0..3), &s).unwrap();
    let b = CombinedStrIndex::get(&(3..6), &s).unwrap();
    assert_ne!(a, b);
}

#[test]
fn view_ne_view_different_len() {
    let s = CombinedStr::new(["abc", "def"]);
    let a = CombinedStrIndex::get(&(0..3), &s).unwrap();
    let b = CombinedStrIndex::get(&(0..5), &s).unwrap();
    assert_ne!(a, b);
}

#[test]
fn view_eq_combined_str() {
    let s = CombinedStr::new(["abc", "def"]);
    let view = CombinedStrIndex::get(&(0..6), &s).unwrap();
    assert!(view == s);
}

#[test]
fn view_eq_combined_str_symmetric() {
    let s = CombinedStr::new(["abc", "def"]);
    let view = CombinedStrIndex::get(&(0..6), &s).unwrap();
    assert!(s == view);
}

#[test]
fn view_ne_combined_str() {
    let s = CombinedStr::new(["abc", "def"]);
    let view = CombinedStrIndex::get(&(1..5), &s).unwrap();
    assert!(view != s);
}

#[test]
fn view_eq_string() {
    let s = CombinedStr::new(["abc", "def"]);
    let view = CombinedStrIndex::get(&(1..5), &s).unwrap();
    assert!(view == String::from("bcde"));
    assert!(view != String::from("xxxx"));
}

#[test]
fn view_eq_string_symmetric() {
    let s = CombinedStr::new(["abc", "def"]);
    let view = CombinedStrIndex::get(&(1..5), &s).unwrap();
    assert!(String::from("bcde") == view);
    assert!(String::from("xxxx") != view);
}

#[test]
fn view_eq_cow() {
    let s = CombinedStr::new(["abc", "def"]);
    let view = CombinedStrIndex::get(&(1..5), &s).unwrap();
    assert!(view == Cow::Borrowed("bcde"));
    assert!(view != Cow::Borrowed("xxxx"));
}

#[test]
fn view_eq_cow_symmetric() {
    let s = CombinedStr::new(["abc", "def"]);
    let view = CombinedStrIndex::get(&(1..5), &s).unwrap();
    assert!(Cow::Borrowed("bcde") == view);
    assert!(Cow::Borrowed("xxxx") != view);
}

#[test]
fn string_from_view() {
    let s = CombinedStr::new(["abc", "def"]);
    let view = CombinedStrIndex::get(&(1..5), &s).unwrap();
    let string: String = view.into();
    assert_eq!(string, "bcde");
}

#[test]
fn cow_from_view() {
    let s = CombinedStr::new(["abc", "def"]);
    let view = CombinedStrIndex::get(&(1..5), &s).unwrap();
    let cow: Cow<str> = view.into();
    assert_eq!(cow, "bcde");
}

#[test]
fn string_add_view() {
    let s = CombinedStr::new(["abc", "def"]);
    let view = CombinedStrIndex::get(&(1..5), &s).unwrap();
    let result = String::from("x") + view;
    assert_eq!(result, "xbcde");
}

#[test]
fn string_add_assign_view() {
    let s = CombinedStr::new(["abc", "def"]);
    let view = CombinedStrIndex::get(&(1..5), &s).unwrap();
    let mut result = String::from("x");
    result += view;
    assert_eq!(result, "xbcde");
}

#[test]
fn cow_add_view() {
    let s = CombinedStr::new(["abc", "def"]);
    let view = CombinedStrIndex::get(&(1..5), &s).unwrap();
    let result = Cow::Borrowed("x") + view;
    assert_eq!(result, "xbcde");
}

#[test]
fn cow_add_assign_view_to_empty() {
    let s = CombinedStr::new(["abc", "def"]);
    let view = CombinedStrIndex::get(&(1..5), &s).unwrap();
    let mut cow: Cow<str> = Cow::Borrowed("");
    cow += view;
    assert_eq!(cow, "bcde");
}

#[test]
fn cow_add_assign_view_to_nonempty() {
    let s = CombinedStr::new(["abc", "def"]);
    let view = CombinedStrIndex::get(&(1..5), &s).unwrap();
    let mut cow: Cow<str> = Cow::Borrowed("x");
    cow += view;
    assert_eq!(cow, "xbcde");
}

#[test]
fn cow_add_assign_empty_view() {
    let s = CombinedStr::new(["abc"]);
    let view = CombinedStrIndex::get(&(0..0), &s).unwrap();
    let mut cow: Cow<str> = Cow::Borrowed("x");
    cow += view;
    assert_eq!(cow, "x");
}

#[test]
fn view_into_iter() {
    let s = CombinedStr::new(["abc", "def", "ghi"]);
    let view = CombinedStrIndex::get(&(1..8), &s).unwrap();
    let collected: Vec<&str> = collect_view_segments(view.into_iter());
    // first="bc", middle=["def"], last="gh"
    assert_eq!(collected, vec!["bc", "def", "gh"]);
}

#[test]
fn view_into_iter_single_segment() {
    let s = CombinedStr::new(["abc", "def"]);
    let view = CombinedStrIndex::get(&(1..3), &s).unwrap();
    let collected: Vec<&str> = collect_view_segments(view.into_iter());
    // first="bc", middle=[], last=""
    assert_eq!(collected, vec!["bc", ""]);
}

// --- More iterator tests ---

#[test]
fn combined_str_iter_single_segment() {
    let s = CombinedStr::new(["hello"]);
    let collected: Vec<&str> = collect_segments(s.into_iter());
    assert_eq!(collected, vec!["hello"]);
}

#[test]
fn combined_str_iter_many_segments() {
    let s = CombinedStr::new(["a", "b", "c", "d", "e"]);
    let collected: Vec<&str> = collect_segments(s.into_iter());
    assert_eq!(collected, vec!["a", "b", "c", "d", "e"]);
}

#[test]
fn combined_str_iter_all_empty() {
    let s = CombinedStr::new(["", "", ""]);
    let collected: Vec<&str> = collect_segments(s.into_iter());
    assert_eq!(collected, vec!["", "", ""]);
}

#[test]
fn combined_str_iter_count() {
    let s = CombinedStr::new(["a", "b", "c"]);
    assert_eq!(collect_segments(s.into_iter()).len(), 3);
}

#[test]
fn combined_str_iter_fold_concat() {
    let s = CombinedStr::new(["hello", " ", "world"]);
    let result: String = collect_segments(s.into_iter()).concat();
    assert_eq!(result, "hello world");
}

#[test]
fn combined_str_iter_nth() {
    let s = CombinedStr::new(["a", "b", "c", "d"]);
    let mut iter = s.into_iter();
    assert_eq!(nth(&mut iter, 2), Some("c"));
    assert_eq!(iter.next(), Some("d"));
    assert_eq!(iter.next(), None);
}

#[test]
fn combined_str_iter_exhausted_returns_none() {
    let s = CombinedStr::new(["a"]);
    let mut iter = s.into_iter();
    assert_eq!(iter.next(), Some("a"));
    assert_eq!(iter.next(), None);
    assert_eq!(iter.next(), None);
}

#[test]
fn view_iter_full_range() {
    let s = CombinedStr::new(["abc", "def"]);
    let view = CombinedStrIndex::get(&(..), &s).unwrap();
    let collected: Vec<&str> = collect_view_segments(view.into_iter());
    // first="abc", middle=[], last="def"
    assert_eq!(collected, vec!["abc", "def"]);
}

#[test]
fn view_iter_empty_range() {
    let s = CombinedStr::new(["abc"]);
    let view = CombinedStrIndex::get(&(1..1), &s).unwrap();
    let collected: Vec<&str> = collect_view_segments(view.into_iter());
    assert_eq!(collected, vec!["", ""]);
}

#[test]
fn view_iter_with_empty_middle_segments() {
    let s = CombinedStr::new(["ab", "", "", "cd"]);
    let view = CombinedStrIndex::get(&(0..4), &s).unwrap();
    let collected: Vec<&str> = collect_view_segments(view.into_iter());
    assert_eq!(collected, vec!["ab", "", "", "cd"]);
}

#[test]
fn view_iter_fold_concat() {
    let s = CombinedStr::new(["hello", " ", "world"]);
    let view = CombinedStrIndex::get(&(2..10), &s).unwrap();
    let result: String = collect_view_segments(view.into_iter()).concat();
    assert_eq!(result, "llo worl");
}

#[test]
fn view_iter_count() {
    let s = CombinedStr::new(["abc", "def", "ghi"]);
    let view = CombinedStrIndex::get(&(1..8), &s).unwrap();
    // first="bc", middle=["def"], last="gh" => 3 items
    assert_eq!(collect_view_segments(view.into_iter()).len(), 3);
}

#[test]
fn view_iter_exhausted_returns_none() {
    let s = CombinedStr::new(["abc"]);
    let view = CombinedStrIndex::get(&(0..2), &s).unwrap();
    let mut iter = view.into_iter();
    assert_eq!(iter.next(), Some("ab"));
    assert_eq!(iter.next(), Some(""));
    assert_eq!(iter.next(), None);
    assert_eq!(iter.next(), None);
}

#[test]
fn combined_str_collect_into_string() {
    let s = CombinedStr::new(["foo", "bar", "baz"]);
    let result: String = collect_segments(s.into_iter()).concat();
    assert_eq!(result, "foobarbaz");
}

#[test]
fn view_iter_boundary_at_segment_edge() {
    let s = CombinedStr::new(["abc", "def", "ghi"]);
    // range exactly covers middle segment
    let view = CombinedStrIndex::get(&(3..6), &s).unwrap();
    let collected: Vec<&str> = collect_view_segments(view.into_iter());
    assert_eq!(collected, vec!["def", ""]);
}

#[test]
fn combined_str_iter_find() {
    let s = CombinedStr::new(["apple", "banana", "cherry"]);
    let found = collect_segments(s.into_iter()).into_iter().find(|s| s.starts_with('b'));
    assert_eq!(found, Some("banana"));
}

#[test]
fn combined_str_iter_position() {
    let s = CombinedStr::new(["a", "b", "c"]);
    let pos = collect_segments(s.into_iter()).into_iter().position(|s| s == "c");
    assert_eq!(pos, Some(2));
}

#[test]
fn combined_str_iter_any_all() {
    let s = CombinedStr::new(["abc", "def"]);
    assert!(collect_segments(s.into_iter()).into_iter().all(|s| s.len() == 3));
    let s = CombinedStr::new(["abc", "def"]);
    assert!(collect_segments(s.into_iter()).into_iter().any(|s| s == "def"));
    let s = CombinedStr::new(["abc", "def"]);
    assert!(!collect_segments(s.into_iter()).into_iter().any(|s| s == "xyz"));
}
