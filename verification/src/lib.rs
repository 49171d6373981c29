//! A wavelet trie: a compressed index over a multiset of bit strings,
//! built on a dynamic bit vector with rank/select and prefix primitives.

pub mod bit_vec_wrap;
pub mod wavelet_trie;
