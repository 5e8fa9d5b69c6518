//! Monitors, bounded buffers and counting semaphores built on `parking_lot`.

pub mod monitor;
pub mod semaphores;
mod sync;
pub mod utils;
