//! Sectionizer: detects time ranges where two video files show visually
//! matching content (shared openings, credits, recaps).
//!
//! The core works on sequences of perceptually hashed frames: a BK-tree
//! metric index over the Hamming distance pairs frames across the two
//! sequences, and a temporal clusterer collapses the matched pairs into
//! contiguous, minimum-duration sections expressed in seconds.

mod cluster;
mod error;
mod frame;
mod index;
mod matcher;
mod orchestrator;

pub use cluster::cluster;
pub use cluster::cluster_spec;
pub use cluster::lemma_cluster_sections_ordered;
pub use cluster::lemma_gap_boundary;
pub use cluster::queried_indices;
pub use cluster::runs_of;
pub use cluster::runs_rec;
pub use cluster::sections_of_runs;
pub use cluster::sorted_by_queried;
pub use error::SectionizerError;
pub use frame::frames_from_buffers;
pub use frame::frames_from_hashes;
pub use frame::hamming;
pub use frame::hamming_dist;
pub use frame::hash_of;
pub use frame::indexed;
pub use frame::FRAME_BUFFER_BYTES;
pub use frame::lemma_distance_nonneg;
pub use frame::lemma_distance_symmetric;
pub use frame::lemma_distance_triangle;
pub use frame::lemma_distance_zero;
pub use frame::popcount;
pub use frame::Frame;
pub use index::MetricIndex;
pub use matcher::best_match;
pub use matcher::is_best;
pub use matcher::key_le;
pub use matcher::lemma_match_seq_for_cluster;
pub use matcher::lemma_match_seq_sorted;
pub use matcher::match_seq_spec;
pub use matcher::match_sequence;
pub use matcher::one_match;
pub use matcher::MatchedFrames;
pub use orchestrator::lemma_categorize_symmetric;
pub use orchestrator::lemma_empty_input;
pub use orchestrator::Sectionizer;
pub use orchestrator::Sections;
