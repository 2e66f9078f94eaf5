//! Records of when a machine was running, turned into merged time spans,
//! half-hour occupancy slots and a calendar view.
pub mod clock;
pub mod span;
pub mod text;
pub mod pattern;
pub mod lastlog;
pub mod slots;
pub mod render;
pub mod report;
pub mod sessions;
pub mod cli;
