//! Low-bit vector compression and approximate nearest-neighbour search: the verified core.

pub mod beam;
pub mod bench;
pub mod bench_report;
pub mod bignat;
pub mod cli;
pub mod codecs;
pub mod coset_trellis;
pub mod datasets;
pub mod dehub;
pub mod dist;
pub mod e8;
pub mod graph;
pub mod hnsw;
pub mod ivf;
pub mod lattice;
pub mod links;
pub mod memory;
pub mod order;
pub mod packing;
pub mod page;
pub mod pareto;
pub mod plans;
pub mod prng;
pub mod pvq;
pub mod rotation;
pub mod scored;
pub mod sums;
pub mod sweep_report;
pub mod text;
pub mod viterbi;

pub use crate::memory::{centering_bytes, MemoryBreakdown};
pub use crate::packing::{pack_indices, pack_indices_wide, unpack_indices, unpack_indices_wide};
pub use crate::prng::splitmix64;
pub use crate::rotation::{nearest_index, rotation_seed, Rotation};
pub use crate::scored::ItemId;
