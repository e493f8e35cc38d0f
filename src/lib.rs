//! A terminal directory browser's core: fuzzy filtering of directory entries, a bounded
//! least-recently-used cache of directory listings with a history view over it, in-place
//! flattening and re-folding of subtrees, and the input/view mode state machine.
pub mod app_error;
pub mod message_holder;
pub mod state_holder;
