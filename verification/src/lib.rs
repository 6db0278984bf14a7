//! A byte-oriented file inspection library: it selects a bounded window of
//! bytes (offset and length given in raw bytes or with unit suffixes) and
//! renders it as a fixed-width hex-and-ASCII dump, optionally collapsing runs
//! of identical lines into a single `*` marker line.

pub mod line;
pub mod render;
pub mod unit;
pub mod window;
