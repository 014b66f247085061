//! Storage for the polynomial state and the applications that share its owner.
pub mod access;
pub mod dim;
pub mod records;
pub mod table;
pub mod database;
pub mod shard;
pub mod buffer;
pub mod disk;
pub mod mem;
pub mod migration;
pub mod generation;
pub mod application;
pub mod content;
pub mod transfer;
pub mod schedule;
pub mod validation;
pub mod archive;
pub mod paging;
pub mod inspection;
pub mod links;
pub mod transfer_source;
