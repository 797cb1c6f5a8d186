//! Storage overview: device model, kernel statistics parsing and the
//! interface state of the terminal viewer.
pub mod app;
pub mod disk;
pub mod disk_io;
pub mod disks;
pub mod name_map;
pub mod platform;
pub mod table;
pub mod text;
pub mod tree;
