//! Layout of the data file.

use vstd::prelude::*;

use crate::free_set::Reservation;
use crate::grid::block::BLOCK_SIZE;
use crate::grid::superblock::SUPERBLOCK_LEN;

verus! {

/// The size of a new data file.
pub const MIN_SIZE: u64 = 10485760;

/// The data file grows by multiples of this.
pub const ALLOC_SIZE: u64 = 10485760;

/// The byte offset of copy `copy` of the superblock.
pub open spec fn spec_superblock_offset(copy: u16) -> u64 {
    (SUPERBLOCK_LEN * copy) as u64
}

/// Return the byte offset of a superblock copy within the datafile.
///
/// We put this here so that any future layout changes to the datafile are
/// confined to this module.
pub fn superblock_offset(copy: u16) -> (r: u64)
    ensures
        r == spec_superblock_offset(copy),
        r == SUPERBLOCK_LEN * copy,
{
    let len: u64 = SUPERBLOCK_LEN as u64;
    assert(len * copy <= 4096 * 65535) by (nonlinear_arith)
        requires
            len == 4096,
            copy <= 65535,
    ;
    len * copy as u64
}

/// The copies of the superblock have no byte in common.
pub proof fn law_superblock_copies_do_not_overlap(a: u16, b: u16)
    requires
        a < b,
    ensures
        spec_superblock_offset(a) + SUPERBLOCK_LEN <= spec_superblock_offset(b),
{
}

/// The largest end of the first `n` reservations.
pub open spec fn highest_end(reservations: Seq<&Reservation>, n: nat) -> int
    decreases n,
{
    if n == 0 {
        0
    } else {
        let before = highest_end(reservations, (n - 1) as nat);
        if before < reservations[n - 1]@.end {
            reservations[n - 1]@.end
        } else {
            before
        }
    }
}

/// The smallest multiple of `m` that is not under `n`.
pub open spec fn next_multiple(n: int, m: int) -> int {
    ((n + m - 1) / m) * m
}

/// The size that the datafile must have to store all reserved blocks.
///
/// Space is allocated in [ALLOC_SIZE] increments.
/// `reservations` must not be empty.
pub fn ensure_capacity(reservations: &Vec<&Reservation>) -> (r: u64)
    requires
        reservations@.len() > 0,
        forall|i: int| 0 <= i < reservations@.len() ==> (#[trigger] reservations@[i]).wf(),
        next_multiple(
            highest_end(reservations@, reservations@.len()) * BLOCK_SIZE,
            ALLOC_SIZE as int,
        ) <= u64::MAX,
    ensures
        r == next_multiple(
            highest_end(reservations@, reservations@.len()) * BLOCK_SIZE,
            ALLOC_SIZE as int,
        ),
{
    let mut blocks: usize = 0;
    let mut i: usize = 0;
    while i < reservations.len()
        invariant
            i <= reservations@.len(),
            forall|j: int| 0 <= j < reservations@.len() ==> (#[trigger] reservations@[j]).wf(),
            blocks == highest_end(reservations@, i as nat),
        decreases reservations@.len() - i,
    {
        let end = reservations[i].block_range().end;
        if blocks < end {
            blocks = end;
        }
        i += 1;
    }
    let bytes: u64 = blocks as u64 * BLOCK_SIZE as u64;
    let rest: u64 = bytes % ALLOC_SIZE;
    if rest == 0 {
        bytes
    } else {
        bytes + (ALLOC_SIZE - rest)
    }
}

proof fn lemma_highest_end(reservations: Seq<&Reservation>, n: nat, i: int)
    requires
        0 <= i < n <= reservations.len(),
    ensures
        reservations[i]@.end <= highest_end(reservations, n),
    decreases n,
{
    if i < n - 1 {
        lemma_highest_end(reservations, (n - 1) as nat, i);
    }
}

/// The size of the datafile is a multiple of [ALLOC_SIZE], has room for all
/// blocks of all reservations, and is not larger than it takes.
pub proof fn law_capacity_holds_all_reserved_blocks(reservations: Seq<&Reservation>, i: int)
    requires
        0 <= i < reservations.len(),
    ensures
        ({
            let bytes = highest_end(reservations, reservations.len()) * BLOCK_SIZE;
            let size = next_multiple(bytes, ALLOC_SIZE as int);
            &&& size % ALLOC_SIZE as int == 0
            &&& reservations[i]@.end * BLOCK_SIZE <= size
            &&& bytes <= size < bytes + ALLOC_SIZE
        }),
{
    lemma_highest_end(reservations, reservations.len(), i);
}

} // verus!
