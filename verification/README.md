# combined_str

A Verus-verified library providing `CombinedStr`, a zero-copy string combinator
that holds N string slices and presents them as one logical string without
allocating.

- `src/combined_str.rs`: the `CombinedStr` type, its length, comparisons with
  `str`, `String` and `Cow<str>`, conversions, and concatenation.
- `src/view.rs`: `CombinedStrView`, a byte range of a `CombinedStr` that may
  span segments, and how such a range is cut out of the segments.
- `src/index.rs`: the `CombinedStrIndex` trait, implemented for every standard
  range type over `usize` and for pairs of `Bound<usize>`.
- `src/iter.rs`: iterating over the segments of a `CombinedStr`.
- `src/segments.rs`: the byte model shared by all of the above (segments laid
  end to end, segment offsets, UTF-8 character boundaries across segments).
- `src/laws.rs`: properties that relate several operations.
- `app/lib.rs`: the `strs!` constructor macro and `as_pointer`, which hands out
  raw pointers and so stays outside the verified library.
