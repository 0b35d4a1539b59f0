//! The logic of an interactive tool that inspects a private Docker
//! registry, measures how much space its repositories use and helps to
//! delete old images.

pub mod external;
pub mod formats;
pub mod main_menu;
pub mod pattern;
pub mod registry;
pub mod report;
pub mod sizes;
pub mod tags_menu;
pub mod sorting;
pub mod text;
