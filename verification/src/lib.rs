//! Comparison of two versions of a sequence graph stored in a tagged,
//! tab-delimited text format (segments, paths, walks, edges).
//!
//! The crate indexes each graph in one pass over its bytes, replays any
//! path's node list lazily from its recorded byte offset, walks two graphs'
//! versions of the same path in lockstep to classify every disagreement of
//! their node boundaries as a merge or a split, flags breakpoints that are
//! mere segmentation artifacts, and annotates a previously produced edit
//! log with local segment lengths.

pub mod bytes;
pub mod tables;
pub mod tokenizer;
pub mod index_gfa_file;
pub mod evaluate_spuriousness;
pub mod compute_distance;
pub mod compute_boundaries;
pub mod parse_gfa_file;
pub mod annotate_edit_lengths;
