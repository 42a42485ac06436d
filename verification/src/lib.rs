//! A tiered vector: a positional container that keeps its elements in one
//! backing buffer divided into fixed-size blocks ("tiers"), each acting as a
//! circular buffer through a per-tier rotation offset. Random access is O(1);
//! insertion and removal at an arbitrary index cost O(sqrt n) amortized,
//! because a structural edit only shifts within one tier and then carries a
//! single element (or hole) across the remaining tiers in O(1) each.

mod tiered;
mod laws;

pub use tiered::TieredError;
pub use tiered::VecTiered;
pub use laws::SeqEdit;
pub use laws::edit_succeeds;
pub use laws::apply_edit;
pub use laws::apply_edits;
pub use laws::net_change;
pub use laws::lemma_length_tracks_edits;
pub use laws::lemma_insert_remove_round_trip;
pub use laws::lemma_insert_at_len_is_push;
