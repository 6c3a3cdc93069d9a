//! Line-oriented diffs of byte buffers, rendered in the "normal" format that
//! the `patch` tool reads. Patching the first buffer with the diff gives the
//! second one back.

pub mod lines;
pub mod edits;
pub mod hunks;
pub mod patch;
pub mod normal;
pub mod read;

pub use normal::{diff, make_diff};
pub use hunks::Mismatch;
