//! Verified core of the vissue issue tracker.
pub mod text;
pub mod textmap;
pub mod frame;
pub mod model;
pub mod error;
pub mod path;
pub mod config;
pub mod rofi;
pub mod peercred;
pub mod tomldoc;
pub mod keys;
pub mod props;
pub mod digest;
pub mod dates;
pub mod palette;
pub mod fuzzy;
pub mod views;
pub mod tools;
pub mod surface;
pub mod report;
pub mod org;
pub mod log;
pub mod ops;
pub mod update;
pub mod satchel;
pub mod related;
pub mod tree;
pub mod cycles;
pub mod listing;
pub mod readback;
pub mod prompts;
