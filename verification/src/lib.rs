//! Verified core of an MDSplus UDP-event bridge over a publish/subscribe overlay.

pub mod bridge;
pub mod config;
pub mod dedupe;
pub mod multicast;
pub mod overlay;
pub mod text;
pub mod wire;
