//! Scatter-gather concatenation of independently owned slices, built on a
//! verified splitter that partitions one owned buffer into disjoint regions
//! addressed by boundary offsets.

pub mod engine;
pub mod model;
pub mod splitter;

pub use engine::concat_slices;
pub use engine::par_concat_slices;
pub use engine::unsafe_concat_slices;
pub use engine::unsafe_par_concat_slices;

pub use splitter::split_buffer_by_offsets;
pub use splitter::split_slice_mut;
pub use splitter::SplitState;
pub use splitter::SubSlices;

pub use model::lemma_concat_results_agree;
pub use model::lemma_flatten_all_empty;
pub use model::lemma_regions_reassemble;
pub use model::offsets_ordered;
pub use model::offsets_span;
pub use model::regions_of;
pub use model::vec_views_of;
pub use model::views_of;
