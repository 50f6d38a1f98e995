//! Two unbalanced binary search trees: one of plain values, and one of
//! keyed entries whose nodes know their parents.

pub mod binary_search_tree;
pub mod borrowed;
pub mod order;
pub mod parental_binary_search_tree;
