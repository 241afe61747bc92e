//! Line-based unified diffs.
//!
//! Two texts are split into lines, an edit script between the lines is asked
//! of the `similar` crate and checked, also for changing as few lines as can
//! be, the script is cut into hunks with a bounded number of context lines,
//! again by `similar` and again checked, and the hunks are written out in the
//! unified format, every line of a hunk on an output line of its own. What is
//! checked is what the contracts of this crate promise of every script and
//! every patch that it hands out.
//!
//! - `lines`: a text and its lines
//! - `ops`: edit operations, edit scripts and what they cover
//! - `distance`: the edit distance, and scripts that reach it
//! - `hunks`: hunks, context, and patches
//! - `engine`: what is asked of `similar`, and what is kept of the answers
//! - `format`: the unified format
//! - `diff`: from two texts to a unified diff
//! - `render`: classes and colours of the lines of a diff

pub mod diff;
pub mod distance;
pub mod engine;
pub mod format;
pub mod hunks;
pub mod lines;
pub mod ops;
pub mod render;
