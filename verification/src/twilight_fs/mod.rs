//! TwilightFS: a volume of 2048-byte blocks. Block 0 holds the superblock, then
//! come the inode bitmap, the zone bitmap, the inode table and the data zones.

pub mod attributes;
pub mod bitmap;
pub mod cache;
pub mod coherence;
pub mod contents;
pub mod decided;
pub mod dir;
pub mod entries;
pub mod format;
pub mod fs;
pub mod inode;
pub mod laws;
pub mod mount;
pub mod moves;
pub mod names;
pub mod ops;
pub mod order;
pub mod plan;
pub mod read;
pub mod shared;
pub mod tree;
pub mod upkeep;
pub mod volume;
pub mod write;
pub mod zones;
