//! A correlation-weighted K-nearest-neighbour estimator over tables of mixed
//! numeric and categorical columns.
//!
//! All statistics are carried out in fixed-point arithmetic: a real quantity
//! `x` is represented by the integer `x * SCALE` rounded toward zero, so that
//! every computation has an exact integer specification.
mod arith;
mod assoc;
mod column;
mod dist;
mod errors;
mod knn;
mod laws;
mod topk;
mod value;

pub use arith::{COLS_MAX, NUM_ABS_MAX, ROWS_MAX, SCALE, WEIGHT_MAX};
pub use assoc::{column_weights, lemma_inferred_types_consistent};
pub use column::{infer_types, ColumnType};
pub use dist::record_dist;
pub use errors::Error;
pub use knn::{check_order, knn};
pub use laws::{lemma_col_type_permuted, lemma_distance_symmetry, lemma_early_exit_sound,
    lemma_missing_neutrality, lemma_no_count_mismatch_after_inference,
    lemma_pruning_preserves_selection, lemma_table_labels_match_distinct,
    lemma_topk_run_invariant, lemma_type_inference_deterministic,
    lemma_unpruned_distance_is_sum, scan_plain};
pub use topk::TopK;
pub use value::Value;
