//! Near-duplicate detection over a corpus of identifier-prefixed lines.
//!
//! Words are encoded to integer ids through a shared vocabulary, sentences
//! are bucketed by order-insensitive digests of their leading and trailing
//! five-word windows, and the members of each bucket are compared with a
//! linear-time test for word-level edit distance at most one.

pub mod bucket;
pub mod dedup;
pub mod edit;
pub mod line;
pub mod sets;
pub mod signature;
pub mod vocab;

pub use bucket::build_buckets;
pub use dedup::{find_near_duplicates, near_duplicate_pairs};
pub use edit::{different_len_edit_dist, edit_distance_le_one, identical, same_len_edit_dist};
pub use line::{process_line, ProcessedLine};
pub use sets::{from_vec, jaccard_counts};
pub use signature::{fnv_hash, fnv_hash_pair, fnv_hash_slice, hash_pair, hash_slice};
pub use vocab::{map_word_to_id, map_words_to_vec_u32, WordDict, WordIdVec};
