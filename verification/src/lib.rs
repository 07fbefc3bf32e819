//! A fixed-capacity probabilistic set-membership filter (a Bloom filter):
//! a flat bit vector of 32-bit words, `k` seeded XXH32 probes per operation,
//! no false negatives, and a false-positive rate that grows with the load.

mod bits;
mod filter;
mod hash;
mod laws;

pub use filter::bit_index_of;
pub use filter::filter_bit;
pub use filter::probe_hits;
pub use filter::probe_mask;
pub use filter::spec_check;
pub use filter::spec_insert;
pub use filter::valid_config;
pub use filter::MicroBloom;
pub use filter::MAX_WORDS;
pub use hash::xxh32_of;
pub use laws::lemma_check_monotone;
pub use laws::lemma_check_monotone_seq;
pub use laws::lemma_coordinates_in_range;
pub use laws::lemma_insert_bit;
pub use laws::lemma_insert_comm;
pub use laws::lemma_insert_idempotent;
pub use laws::lemma_insert_order_independent;
pub use laws::lemma_no_false_negative;
pub use laws::lemma_no_false_negative_after;
pub use laws::spec_insert_seq;
