//! A locality-preserving codec between two-dimensional grid coordinates and
//! one-dimensional curve indices, on a fixed 65536 x 65536 grid, together with
//! a small deterministic feed-validation rule.

pub mod curve;
pub mod feed;

pub use curve::reconstruct_1d_to_2d;
pub use curve::strip_2d_to_1d;
pub use curve::try_reconstruct_1d_to_2d;
pub use curve::try_strip_2d_to_1d;
pub use curve::CurveError;
pub use feed::evaluate_feed;
pub use feed::prove_dimensional_integrity;
pub use feed::FeedVerdict;
