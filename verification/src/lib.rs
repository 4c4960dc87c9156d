//! Word segmentation for Thai text by maximal matching against a
//! dictionary, with token boundaries held to the ends of Thai character
//! clusters.

pub mod collections;
pub mod four_bytes_str;
pub mod tokenizer;
