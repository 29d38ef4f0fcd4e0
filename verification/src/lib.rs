//! A verified core for streaming spatial joins and proximity maps.
//!
//! Given two sequences of planar geometries, `small` and `big`, a spatial
//! join reports which pairs intersect (or which pairs contain / are within
//! one another), and a proximity map reports which pairs lie within a
//! distance threshold of each other.  This crate verifies the engine that
//! makes such joins sub-quadratic: partitioning a mixed geometry sequence
//! into type-homogeneous buckets with reversible position bookkeeping,
//! merging partial partitions built over chunks of the input, computing
//! bounding envelopes, and filtering candidate pairs by envelope overlap
//! before any exact geometric predicate runs.
//!
//! Coordinates are carried as the raw bit patterns of IEEE-754
//! double-precision values, so that finiteness checks and numeric
//! comparisons become integer computations that the verifier can reason
//! about exactly.  The exact geometric predicates (point-in-polygon tests,
//! segment distances, and so on) act on the numeric values themselves;
//! they are evaluated outside this crate and handed back to the verified
//! engine, which proves that no candidate pair is ever lost, duplicated,
//! or attributed to the wrong original position.

mod bits;
mod positions;
mod geoms;
mod structs;
mod partition;
mod par;
mod envelope;
mod relates;
mod index;

pub use positions::{Indexes, ascending, contiguous, range_seq, before, merged_seq, repr_eq,
    push_repr, offset_repr,
    lemma_canonical_unique, lemma_merge_order_independent};
pub use geoms::{Coord, Geom, GView, Kind, coord_valid, coords_valid, geom_valid, expected_error,
    coord_is_valid};
pub use structs::{Error, Interaction, Config, SJoinRow, SJoinGeoRow, ProxMapRow, ProxMapGeoRow};
pub use partition::{SplitGeo, SplitGeoIndexes, SplitGeoSeq, views_of, all_valid, first_bad,
    positions_of, geoms_of, chunk_kind_ok, is_chunk_partition, is_partition_of, chunk_contract,
    lemma_positions_props, lemma_positions_contains, lemma_positions_total, lemma_positions_step,
    lemma_positions_concat, lemma_first_bad_split, lemma_empty_chunk, lemma_first_bad_props,
    lemma_first_bad_prefix, lemma_merge_chunk, lemma_partition_roundtrip, lemma_partition_unique,
    lemma_views_concat, lemma_shift_concat, lemma_shifted_props, shifted, scatter_post,
    canonical_indexes, builds_agree, lemma_build_deterministic};
pub use par::worker_count;
pub use envelope::{Env, env_point, env_extend, env_of_coords, env_of, has_coords, env_contains,
    env_overlap, envs_overlap, lemma_env_overlap_symmetric, lemma_env_covers};
pub use index::{EnvTable, SpatialIndex, ParSpatialIndex, Request, side_kind_wf, side_wf,
    cand_ok, req_ok, has_req, big_rank, small_rank, req_before, row_of, prox_row_of, selected_reqs, prox_selected,
    prox_selected_reqs, req_in_bounds, geo_row_ok, prox_geo_row_ok, all_finite, join_law_at,
    prox_law_at, lemma_selected_reqs_iff, lemma_prox_selected_iff, lemma_position_injective,
    lemma_partition_kind_lens, lemma_spatial_join_exhaustive, lemma_proximity_exhaustive,
    lemma_mode_complementarity, lemma_mode_complementarity_rows, lemma_partition_side_wf, lemma_valid_has_coords};
pub use relates::{point_eq, rect_intersects_rect_spec, rect_contains_rect_spec,
    rect_contains_point_spec, point_intersects_point, rect_intersects_rect, rect_contains_rect,
    rect_contains_point, lemma_point_intersects_symmetric, lemma_rect_intersects_symmetric,
    can_contain, possible, can_contain_exec, mode_possible};
pub use bits::{SIGN_MASK, MAG_MASK, EXP_MASK};
pub use bits::{finite_bits, key_of, le_bits, eq_bits, lt_bits, is_finite, le, eq_value, max_bits,
    min_bits, lemma_zero_key, lemma_le_total, lemma_le_trans};
