//! Verified core of the optim launcher.

pub mod text;
pub mod matcher;
pub mod calc;
pub mod config;
pub mod keyed;
pub mod hidden;
pub mod frecency;
pub mod watch;
pub mod services;
pub mod index;
pub mod launcher;
pub mod gamemode;
