//! The video stream: its configuration, the pacing of its packets, and the decisions of the tasks
//! that start it, send its packets and listen to its client.
pub mod config;
pub mod control;
pub mod pacer;
pub mod pacing_laws;
pub mod rate;
pub mod start;
pub mod transmit;
