//! Perception core of a flying vehicle: triple-buffered frame store,
//! block-matching optical flow, sparse-difference motion watchdog and the
//! atomic kinematics record that the capture loop publishes into.
pub mod arena;
pub mod detector;
pub mod flow;
pub mod health;
pub mod kinematics;
