//! Edits on decoded buffers.
pub mod fade;
pub mod filter;
pub mod speed;
pub mod trim;
