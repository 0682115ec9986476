//! A paired-array growable container: two independently typed element
//! columns ("A-values" and "B-values") of equal length, indexed in lock-step.
//!
//! The container exposes push/get/remove/pop/clear/reserve and an in-place
//! comparison sort over synchronized index positions, together with a layout
//! calculator that sizes one combined allocation for both columns. Storage is
//! held as two length-synchronized vectors; the layout calculator still
//! computes the combined single-allocation layout (size, alignment and the
//! offset where the B array begins) for callers that account for memory.

pub mod layout;
pub mod order;
pub mod vec2;

pub use layout::CapacityOverflow;
pub use layout::Vec2Layout;
pub use vec2::Vec2;
