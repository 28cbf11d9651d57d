//! Activity tracking core: the sampler's idle arithmetic, the ping log,
//! session reconstruction over pings, and the break-reminder accumulator.

pub mod config;
pub mod event_log;
pub mod sampler;
pub mod reminder;
pub mod sessions;
pub mod usage;
