//! Character frequency counter built for multithreaded use.
//!
//! Counts how often each distinct character occurs in a text, optionally
//! folding character case first. The text is split into contiguous,
//! gap-free character ranges, one per worker; each range is counted
//! independently and the partial mappings are merged into one result.
//! Every public operation carries a contract pinning its result to one
//! mathematical description of the count, and merging the counts of the
//! planned ranges is proved equal to one pass over the whole text — which
//! is what makes it sound to run the range counters on concurrent workers
//! in any order.
//!
//! Under the full Unicode `Insensitive` mode, a character whose lowercase
//! form expands to more than one character cannot be represented in the
//! one-to-one character model; the operation then returns
//! `CountError::UnsupportedFold` to the caller instead of aborting.

mod counter;
mod fold;
mod freq_map;
mod orchestrator;
mod planner;

pub use orchestrator::character_frequencies;
pub use orchestrator::character_frequencies_w_case;
pub use orchestrator::character_frequencies_with_n_threads;
pub use orchestrator::character_frequencies_with_n_threads_w_case;

pub use planner::eff_threads;
pub use planner::lemma_ranges_disjoint;
pub use planner::plan_ranges;
pub use planner::plan_size;
pub use planner::range_size;
pub use planner::ranges_size_total;

pub use counter::character_frequencies_range;
pub use counter::counted_slice;
pub use counter::fold_ok;
pub use counter::freq_in;
pub use counter::lemma_fold_ok_concat;
pub use counter::lemma_frequencies_concat;
pub use counter::lemma_mcount_frequencies;
pub use counter::sequential_character_frequencies;
pub use counter::sequential_character_frequencies_w_case;
pub use counter::spec_frequencies;
pub use counter::CountError;

pub use fold::ascii_lower;
pub use fold::char_lower_seq;
pub use fold::fold_char;
pub use fold::spec_fold;
pub use fold::CaseSense;

pub use freq_map::add_frequencies;
pub use freq_map::lemma_mcount_merge;
pub use freq_map::lemma_merge_associative;
pub use freq_map::lemma_merge_commutative;
pub use freq_map::lemma_merge_empty;
pub use freq_map::mcount;
pub use freq_map::spec_merge;
pub use freq_map::FrequencyMap;
