//! Appending new lines to a file while skipping duplicates.
//!
//! - [`lineset`]: an insertion-ordered set of lines;
//! - [`natsort`]: the natural order of strings, proved to be a total order;
//! - [`policy`]: the run's options and the rule that admits a line;
//! - [`run`]: loading the destination, what happens to each input line, and
//!   the rewrite and sorted passes.

pub mod lineset;
pub mod natsort;
pub mod policy;
pub mod run;
