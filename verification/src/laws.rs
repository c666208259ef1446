//! What the operations are for: relations between what they are given and what
//! comes of them, stated of the calls themselves.

pub mod bitset;
pub mod blob;
pub mod block;
pub mod commit;
pub mod data;
pub mod files;
pub mod free_set;
pub mod index;
pub mod manifest;
pub mod rounds;
pub mod segment;
pub mod superblock;
pub mod writer;
