//! A collection of classic algorithms and data structures, verified with Verus:
//! a trie-based autocomplete engine, Kruskal's minimum-spanning-forest algorithm
//! over a disjoint-set union, and a handful of self-contained routines
//! (Morse encoding, SHA-256, aliquot sums, sorting).

mod aliquot_sum;
mod autocomplete_using_trie;
mod bitonic_sort;
mod chars;
mod minimum_spanning_tree;
mod morse_code;
mod quick_sort_3_ways;
mod sha256;
mod swaps;

pub use aliquot_sum::aliquot_spec;
pub use aliquot_sum::aliquot_sum;
pub use autocomplete_using_trie::lemma_find_all;
pub use autocomplete_using_trie::lemma_insert_idempotent;
pub use autocomplete_using_trie::lemma_prefix_monotone;
pub use autocomplete_using_trie::matching;
pub use autocomplete_using_trie::Autocomplete;
pub use bitonic_sort::bitonic_merge;
pub use bitonic_sort::bitonic_sort;
pub use bitonic_sort::comp_and_swap;
pub use minimum_spanning_tree::abs_cost_sum;
pub use minimum_spanning_tree::connected;
pub use minimum_spanning_tree::cost_sum;
pub use minimum_spanning_tree::edges_in_range;
pub use minimum_spanning_tree::greedy_select;
pub use minimum_spanning_tree::insert_sorted;
pub use minimum_spanning_tree::is_path;
pub use minimum_spanning_tree::kruskal;
pub use minimum_spanning_tree::kruskal_spec;
pub use minimum_spanning_tree::links;
pub use minimum_spanning_tree::sorted_by_cost;
pub use minimum_spanning_tree::stable_sorted;
pub use minimum_spanning_tree::step_ok;
pub use minimum_spanning_tree::Edge;
pub use minimum_spanning_tree::GraphError;
pub use morse_code::morse_code;
pub use morse_code::morse_spec;
pub use morse_code::morse_sym;
pub use quick_sort_3_ways::quick_sort_3_ways;
pub use sha256::sha256;
