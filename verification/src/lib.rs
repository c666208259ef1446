use vstd::prelude::*;

pub mod bitset;
pub mod checksum;
pub mod commitlog;
pub mod datafile;
pub mod free_set;
pub mod grid;
pub mod io;
pub mod laws;
pub mod le;
pub mod manifest;
pub mod text;

verus! {

/// The right to submit one item to a queue.
pub trait SendPermit<'a, T>: Sized {
    fn submit(self, io: T);
}

} // verus!
