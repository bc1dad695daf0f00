use vstd::prelude::*;

pub mod config;
pub mod log_rotation;
pub mod monitor;
pub mod orientation;
pub mod process_event;
pub mod startup;
pub mod text;
pub mod watcher;
pub mod wide;
pub mod window_move;

verus! {

} // verus!
