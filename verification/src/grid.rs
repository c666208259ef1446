//! The blocks of which a data file is made.

use vstd::prelude::*;

pub mod blob;
pub mod block;
pub mod stored;
pub mod superblock;
pub mod supply;
pub mod uint;

pub use self::blob::ReadError as BlobReadError;
pub use self::block::{
    BlockRef, ChainedBlock, FixedBlock, InFlightBlock, ReadError as BlockReadError, BLOCK_SIZE,
};
pub use self::superblock::{
    ReadError as SuperblockReadError, Superblock, WriteError as SuperblockWriteError,
};
pub use self::uint::U256;

verus! {

/// Alias denoting a database page.
pub type Page = FixedBlock;

} // verus!
