//! Per-sample uncertainty scores over a flat buffer of class probabilities.
//!
//! The buffer is cut into consecutive groups of `group_size` values, one group
//! per sample; a trailing partial group is dropped, and a group size of zero is
//! refused with `ScoreError::InvalidGroupSize`. Probabilities are handed to
//! this crate as the bit patterns of IEEE 754 doubles (`f64::to_bits`), and the
//! crate decides, for every group, which entries enter a score: the positive
//! entries for Shannon entropy, and the two largest entries for the margin of
//! confidence. The floating-point arithmetic on those entries is left to the
//! caller. Values are not checked to lie in `[0, 1]`.

pub mod entropy;
pub mod float_bits;
pub mod grouping;
pub mod margin;

pub use entropy::entropy_terms;
pub use float_bits::{is_positive, order_key};
pub use grouping::{group_count, ScoreError};
pub use margin::{margin_picks, TopTwo};
