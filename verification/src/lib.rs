//! Zero-copy combinator presenting several string slices as one logical string.
//!
//! [`CombinedStr`] holds N string slices and presents them as one logical string
//! without allocating. A byte range of it, possibly spanning several segments, is
//! a [`CombinedStrView`], obtained through [`CombinedStrIndex`].
pub mod combined_str;
pub mod index;
pub mod iter;
pub mod laws;
mod ranges;
mod sealed;
pub mod segments;
pub mod view;

pub use combined_str::CombinedStr;
pub use index::CombinedStrIndex;
pub use view::CombinedStrView;
