use vstd::prelude::*;

pub mod analyze;
pub mod as_chars;
pub mod double_array;
pub mod info;
pub mod laws;
pub mod matrix;
pub mod prefix_map;
pub mod search_cache;
pub mod trie2;
pub mod trie_to_double_array;

pub use crate::analyze::analyze;
pub use crate::as_chars::{AsChars, AsUsize, IntoString};
pub use crate::info::Info;
pub use crate::matrix::Matrix;
pub use crate::prefix_map::PrefixMap;
pub use crate::trie2::Trie;

verus! {

/// The default dictionary shape: a double array probed through the plain
/// linear free-slot scan.
pub type DoubleArray<K, V> = crate::double_array::DoubleArray<
    K,
    V,
    crate::search_cache::NoCache,
>;

} // verus!
