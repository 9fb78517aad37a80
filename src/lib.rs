//! A small FAT32 filesystem engine over a sector-addressable medium.

pub mod codec;
pub mod error;
pub mod entry;
pub mod device;
pub mod volume;
pub mod layout;
pub mod fs;
pub mod text;
pub mod name;
pub mod directory;
pub mod laws;
pub mod debug;
pub mod shell;

pub use name::str_to_fat_name;
