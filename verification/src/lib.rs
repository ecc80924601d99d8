//! Helpers for calls with scalable video: splitting a bandwidth budget over the senders of
//! a call, and tracking which video frames have arrived in full.

pub mod allocation_laws;
pub mod allocation_model;
pub mod allocation_strategy;
pub mod allocator;
mod frame_info;
pub mod frame_laws;
pub mod frame_model;
pub mod frame_tracker;
mod frames_in_flight;
pub mod media;
mod selected_targets;
pub mod throttled_allocator;
pub mod time;
pub mod tracker_laws;
pub mod tracker_model;
pub mod units;
