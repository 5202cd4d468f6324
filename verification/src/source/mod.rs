//! Where events come from.

pub mod kafka;
pub mod window;
