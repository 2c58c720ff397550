//! Core engine for random-access fetching of temporal (time x symbol) data.
//!
//! The engine materialises a densely packed, column-major submatrix for an
//! arbitrary `[time-range x symbol-set]` query over day-blocked backing
//! stores, filling missing cells with the caller's NaN value. A compact,
//! self-describing tabular container with a byte codec is included, since
//! the fetch engine and remote stores exchange data in that format.

use vstd::prelude::*;

mod array;
mod column;
mod convert;
mod fetchers;
mod frame;
mod mem;
mod misc;
mod queue;
mod redis;

pub use array::ArrayError;
pub use array::batch_searchsorted;
pub use array::fast_concat_2d_axis0;
pub use array::filled;
pub use array::lower_bound;
pub use array::mean_axis1;
pub use array::range_eq;
pub use array::searchsorted;
pub use array::searchsorted_range;
pub use array::seq_sorted;
pub use array::seq_strictly_sorted;
pub use column::CachedGetter;
pub use column::cc_layout;
pub use column::cc_plan;
pub use column::cc_task;
pub use column::CcLayout;
pub use column::column_contiguous;
pub use column::day_plan_ok;
pub use column::DayPlan;
pub use column::fill_data;
pub use column::fill_writes;
pub use column::lemma_batch_deterministic;
pub use column::lemma_out_index;
pub use column::lemma_owns_inverse;
pub use column::shm_batch_column_contiguous;
pub use column::shm_batch_grouped_sliced_column_contiguous;
pub use column::shm_batch_sliced_column_contiguous;
pub use column::shm_column_contiguous;
pub use column::shm_row_contiguous;
pub use column::shm_sliced_column_contiguous;
pub use convert::to_nbytes;
pub use fetchers::bufs_views;
pub use fetchers::Fetcher;
pub use fetchers::flat_of;
pub use fetchers::prefix_len;
pub use fetchers::SHMFetcher;
pub use fetchers::SlicedSHMFetcher;
pub use frame::align_nbytes;
pub use frame::DataFrame;
pub use frame::DecodeError;
pub use frame::extract_usize;
pub use frame::le_bytes;
pub use frame::le_val;
pub use frame::lemma_codec_round_trip;
pub use frame::read_le;
pub use mem::cc_cell;
pub use mem::FetcherArgs;
pub use mem::lemma_missing_symbol_nan;
pub use mem::lemma_row_column_equivalence;
pub use mem::MemError;
pub use mem::MemMeta;
pub use mem::MemQuery;
pub use mem::mk_meta;
pub use mem::mk_query;
pub use mem::Offsets;
pub use mem::rc_cell;
pub use mem::rle_expand;
pub use mem::row_contiguous;
pub use mem::unique;
pub use mem::transposed_layouts;
pub use misc::hash_code;
pub use misc::md5_hex_of;
pub use misc::seq_total;
pub use misc::Statics;
pub use misc::Tracker;
pub use misc::Trackers;
pub use queue::QueueResults;
pub use queue::Worker;
pub use redis::check_fetched_len;
pub use redis::decode_cells;
pub use redis::grouped_byte_range;
pub use redis::lemma_pool_rotation;
pub use redis::RedisError;
pub use redis::roll_pool_idx;
pub use redis::trim_key;

verus! {

/// Width in bytes of one column identifier in the tabular container.
pub const COLUMNS_NBYTES: usize = 32;

/// Width in bytes of one index (timestamp) entry in the tabular container.
pub const INDEX_NBYTES: usize = 8;

} // verus!
