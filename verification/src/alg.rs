//! The algorithms that can be shown, and what they have in common.
pub use crate::bibwt;
pub use crate::bwt;
pub use crate::suffix_array;
pub use crate::viz::Viz;
