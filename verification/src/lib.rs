//! Quick SSH profile registry: named connection shortcuts (alias -> host,
//! user, port), an optional default alias, resolution of alias tokens to
//! profiles, and a deterministic text format for the registry file.

pub mod codec;
pub mod command;
pub mod config;
pub mod util;
