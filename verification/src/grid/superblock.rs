//! The superblock: the root of a data file, of which several copies are kept.

use vstd::prelude::*;

use crate::checksum;
use crate::checksum::Checksum;
use crate::grid::block::BlockRef;
use crate::grid::uint::U256;
use crate::io::ErrorWith;
use crate::le;

verus! {

/// The superblock could not be read.
#[derive(Debug)]
pub enum ReadError<E> {
    /// No `required` copies agree.
    NoReadQuorum { required: usize },
    /// A copy was found in the place of another.
    MisdirectedCopy { expected_copy: u16, block: Superblock },
    /// Too few copies could be read to reach a quorum.
    InsufficientCopies { errors: Vec<Option<LoadError<E>>> },
    /// A copy does not have the checksum that it holds.
    ChecksumMismatch { computed: Checksum, block: Superblock },
    /// A superblock does not descend from the one before it.
    HashChainBroken { parent: Checksum, head: Checksum },
    Io(ErrorWith<E, Superblock>),
}

/// A copy of the superblock could not be read.
#[derive(Debug)]
pub enum LoadError<E> {
    MisdirectedCopy { expected_copy: u16, actual_copy: u16 },
    ChecksumMismatch { computed: Checksum, expected: Checksum },
    Io(E),
}

/// The superblock could not be written.
#[derive(Debug)]
pub enum WriteError<E> {
    NoWriteQuorum { required: usize, source: ReadError<E> },
    Fdatasync(E),
    Io(E),
}

#[derive(Debug)]
pub struct Superblock {
    pub checksum: Checksum,
    pub parent: Checksum,
    pub copy: u16,
    pub version: u16,
    pub features: u32,
    pub sequence: u64,
    pub database_identity: U256,
    pub free_set_blocks_acquired: BlockRef,
    pub free_set_blocks_released: BlockRef,
    pub sealed_snapshot: Checksum,
    pub reserved: Vec<u8>,
}

/// The size of a stored superblock.
pub const SUPERBLOCK_LEN: usize = 4096;

/// The number of reserved bytes at the end of a superblock.
pub const RESERVED_LEN: usize = 3856;

/// The version of the layout.
pub const VERSION: u16 = 1;

/// The number of copies that are kept.
pub const NUM_COPIES: usize = 4;

/// The number of copies that have to agree for a read to succeed.
pub const READ_QUORUM: usize = 2;

/// The number of copies that have to agree for a write to succeed.
pub const WRITE_QUORUM: usize = 3;

/// The number of the first `n` copies that could be read.
pub open spec fn valid_count(valid: Seq<bool>, n: nat) -> nat
    decreases n,
{
    if n == 0 {
        0
    } else {
        valid_count(valid, (n - 1) as nat) + if valid[n - 1] {
            1nat
        } else {
            0nat
        }
    }
}

/// Whether copies `i` and `j` could both be read and agree.
pub open spec fn agree(copies: Seq<Superblock>, valid: Seq<bool>, i: int, j: int) -> bool {
    &&& valid[i]
    &&& valid[j]
    &&& copies[i].sequence == copies[j].sequence
    &&& copies[i].checksum@ == copies[j].checksum@
}

/// The number of the first `n` copies that agree with copy `i`.
pub open spec fn agree_count(copies: Seq<Superblock>, valid: Seq<bool>, i: int, n: nat) -> nat
    decreases n,
{
    if n == 0 {
        0
    } else {
        agree_count(copies, valid, i, (n - 1) as nat) + if agree(copies, valid, i, n - 1) {
            1nat
        } else {
            0nat
        }
    }
}

/// Whether copy `i` is one of at least `quorum` copies that agree.
pub open spec fn in_quorum(
    copies: Seq<Superblock>,
    valid: Seq<bool>,
    quorum: int,
    i: int,
) -> bool {
    0 <= i < copies.len() && agree_count(copies, valid, i, copies.len()) >= quorum
}

/// Whether copy `i` stands for its sequence number: it is the first copy with
/// that number which is in a quorum.
pub open spec fn leads(copies: Seq<Superblock>, valid: Seq<bool>, quorum: int, i: int) -> bool {
    &&& in_quorum(copies, valid, quorum, i)
    &&& forall|j: int|
        0 <= j < i && #[trigger] in_quorum(copies, valid, quorum, j) ==> copies[j].sequence
            != copies[i].sequence
}

/// Whether `b` stands for the highest sequence number below that of `a`.
pub open spec fn follows(
    copies: Seq<Superblock>,
    valid: Seq<bool>,
    quorum: int,
    a: int,
    b: int,
) -> bool {
    &&& leads(copies, valid, quorum, a)
    &&& leads(copies, valid, quorum, b)
    &&& copies[b].sequence < copies[a].sequence
    &&& forall|c: int| #[trigger]
        leads(copies, valid, quorum, c) ==> copies[c].sequence <= copies[b].sequence
            || copies[c].sequence >= copies[a].sequence
}

/// Whether `a` was made to come after `b`.
pub open spec fn chained(copies: Seq<Superblock>, a: int, b: int) -> bool {
    copies[a].parent@ == copies[b].checksum@
}

/// Whether copy `i` stands for the highest sequence number.
pub open spec fn is_highest(
    copies: Seq<Superblock>,
    valid: Seq<bool>,
    quorum: int,
    i: int,
) -> bool {
    &&& leads(copies, valid, quorum, i)
    &&& forall|c: int| #[trigger]
        leads(copies, valid, quorum, c) ==> copies[c].sequence <= copies[i].sequence
}

/// Whether all quorums whose sequence numbers are at least `from` descend from
/// the next lower one.
pub open spec fn chained_down_to(
    copies: Seq<Superblock>,
    valid: Seq<bool>,
    quorum: int,
    from: int,
) -> bool {
    forall|a: int, b: int| #[trigger]
        follows(copies, valid, quorum, a, b) && copies[b].sequence >= from ==> chained(
            copies,
            a,
            b,
        )
}

/// Whether the highest broken link between quorums is that from the one with
/// checksum `head` to the one with checksum `parent`.
pub open spec fn broken_at(
    copies: Seq<Superblock>,
    valid: Seq<bool>,
    quorum: int,
    parent: Seq<u8>,
    head: Seq<u8>,
) -> bool {
    exists|a: int, b: int|
        {
            &&& #[trigger] follows(copies, valid, quorum, a, b)
            &&& !chained(copies, a, b)
            &&& chained_down_to(copies, valid, quorum, copies[a].sequence as int)
            &&& parent == copies[b].checksum@
            &&& head == copies[a].checksum@
        }
}

/// Whether `sequence` is under the bound, if there is one.
pub open spec fn is_below(sequence: u64, bound: Option<u64>) -> bool {
    match bound {
        Some(s) => sequence < s,
        None => true,
    }
}

/// Which copies could be read.
pub open spec fn readable<E>(errors: Seq<Option<LoadError<E>>>) -> Seq<bool> {
    Seq::new(errors.len(), |i: int| errors[i] is None)
}

/// Among the copies in a quorum with one sequence number there is one that
/// stands for it.
pub proof fn lemma_some_leads(copies: Seq<Superblock>, valid: Seq<bool>, quorum: int, i: int) -> (r:
    int)
    requires
        in_quorum(copies, valid, quorum, i),
    ensures
        leads(copies, valid, quorum, r),
        copies[r].sequence == copies[i].sequence,
        r <= i,
    decreases i,
{
    if leads(copies, valid, quorum, i) {
        i
    } else {
        let j = choose|j: int|
            0 <= j < i && #[trigger] in_quorum(copies, valid, quorum, j) && copies[j].sequence
                == copies[i].sequence;
        lemma_some_leads(copies, valid, quorum, j)
    }
}

impl Superblock {
    pub open spec fn wf(self) -> bool {
        self.reserved@.len() == RESERVED_LEN
    }

    /// The stored form: the fields in order.
    pub open spec fn bytes(self) -> Seq<u8> {
        self.checksum@ + self.checked_bytes()
    }

    /// The part of the stored form that the checksum is taken of: all that
    /// follows the checksum, the number of the copy included.
    pub open spec fn checked_bytes(self) -> Seq<u8> {
        self.parent@ + le::le_bytes(self.copy as nat, 2) + le::le_bytes(self.version as nat, 2)
            + le::le_bytes(self.features as nat, 4) + le::le_bytes(self.sequence as nat, 8)
            + self.database_identity@ + self.free_set_blocks_acquired.bytes()
            + self.free_set_blocks_released.bytes() + self.sealed_snapshot@ + self.reserved@
    }

    /// Whether all fields but `copy` are equal.
    pub open spec fn same_but_copy(self, other: Self) -> bool {
        &&& self.checksum == other.checksum
        &&& self.parent == other.parent
        &&& self.version == other.version
        &&& self.features == other.features
        &&& self.sequence == other.sequence
        &&& self.database_identity == other.database_identity
        &&& self.free_set_blocks_acquired == other.free_set_blocks_acquired
        &&& self.free_set_blocks_released == other.free_set_blocks_released
        &&& self.sealed_snapshot == other.sealed_snapshot
        &&& self.reserved@ == other.reserved@
    }

    /// Readies the superblock `copies` for being stored: copy `i` gets the number
    /// `i + 1`. Returns for each the offset in the data file at which it is to
    /// be written.
    ///
    /// All superblocks compare equal, except for their `copy` field.
    pub fn store(copies: &mut Vec<Self>) -> (r: Vec<u64>)
        requires
            old(copies)@.len() == NUM_COPIES,
            forall|i: int|
                0 <= i < old(copies)@.len() ==> (#[trigger] old(copies)@[i]).same_but_copy(
                    old(copies)@[0],
                ),
        ensures
            final(copies)@.len() == NUM_COPIES,
            forall|i: int|
                0 <= i < NUM_COPIES ==> #[trigger] final(copies)@[i] == (Superblock {
                    copy: (i + 1) as u16,
                    ..old(copies)@[i]
                }),
            r@.len() == NUM_COPIES,
            forall|i: int|
                0 <= i < NUM_COPIES ==> #[trigger] r@[i] == crate::datafile::spec_superblock_offset(
                    (i + 1) as u16,
                ),
    {
        let mut offsets: Vec<u64> = Vec::new();
        let mut i: usize = 0;
        while i < NUM_COPIES
            invariant
                i <= NUM_COPIES,
                copies@.len() == NUM_COPIES,
                forall|j: int|
                    0 <= j < i ==> #[trigger] copies@[j] == (Superblock {
                        copy: (j + 1) as u16,
                        ..old(copies)@[j]
                    }),
                forall|j: int| i <= j < NUM_COPIES ==> #[trigger] copies@[j] == old(copies)@[j],
                offsets@.len() == i,
                forall|j: int|
                    0 <= j < i ==> #[trigger] offsets@[j]
                        == crate::datafile::spec_superblock_offset((j + 1) as u16),
            decreases NUM_COPIES - i,
        {
            let copy: u16 = i as u16 + 1;
            copies[i].copy = copy;
            offsets.push(crate::datafile::superblock_offset(copy));
            i += 1;
        }
        offsets
    }

    /// The outcome of storing a superblock, given that of reading the copies
    /// back.
    pub fn verify_stored<E>(
        copies: &Vec<Self>,
        errors: Vec<Option<LoadError<E>>>,
    ) -> (r: Result<usize, WriteError<E>>)
        requires
            copies@.len() == NUM_COPIES,
            errors@.len() == NUM_COPIES,
        ensures
            match r {
                Ok(i) => quorum_outcome(copies@, errors@, WRITE_QUORUM as int, Ok(i)),
                Err(WriteError::NoWriteQuorum { required, source }) => required == WRITE_QUORUM
                    && quorum_outcome(copies@, errors@, WRITE_QUORUM as int, Err(source)),
                Err(_) => false,
            },
    {
        match Self::load_into_with_quorum(WRITE_QUORUM, copies, errors) {
            Ok(i) => Ok(i),
            Err(source) => Err(WriteError::NoWriteQuorum { required: WRITE_QUORUM, source }),
        }
    }

    /// Picks the superblock out of the `copies` that were read, of which
    /// [READ_QUORUM] have to agree.
    pub fn load_into<E>(
        copies: &Vec<Self>,
        errors: Vec<Option<LoadError<E>>>,
    ) -> (r: Result<usize, ReadError<E>>)
        requires
            copies@.len() == NUM_COPIES,
            errors@.len() == NUM_COPIES,
        ensures
            quorum_outcome(copies@, errors@, READ_QUORUM as int, r),
    {
        Self::load_into_with_quorum(READ_QUORUM, copies, errors)
    }

    /// Picks the superblock out of the `copies` that were read, of which
    /// `quorum` have to agree. `errors` says which of them could not be read.
    ///
    /// Quorum means that:
    ///
    /// - at least `quorum` copies could be successfully read from storage
    /// - their checksums verify
    /// - their checksums are equal
    /// - their `sequence` number is equal
    ///
    /// If two quorums exist (e.g. a 2/2 split when 4 copies are used), the
    /// higher sequence number is chosen if and only if it is chained with the
    /// lower sequence number, i.e. its `parent` checksum matches the previous
    /// `checksum`.
    ///
    /// The success return value is an index into `copies`.
    /// The copy at that index is guaranteed to satisfy the quorum requirements.
    pub fn load_into_with_quorum<E>(
        quorum: usize,
        copies: &Vec<Self>,
        errors: Vec<Option<LoadError<E>>>,
    ) -> (r: Result<usize, ReadError<E>>)
        requires
            quorum > 0,
            copies@.len() == NUM_COPIES,
            errors@.len() == NUM_COPIES,
        ensures
            quorum_outcome(copies@, errors@, quorum as int, r),
    {
        let ghost valid = readable(errors@);
        let mut readable_copies: usize = 0;
        let mut i: usize = 0;
        while i < NUM_COPIES
            invariant
                i <= NUM_COPIES,
                errors@.len() == NUM_COPIES,
                valid == readable(errors@),
                readable_copies <= i,
                readable_copies == valid_count(valid, i as nat),
            decreases NUM_COPIES - i,
        {
            if errors[i].is_none() {
                readable_copies += 1;
            }
            i += 1;
        }

        // Give up early if there are not enough valid copies to reach quorum.
        if readable_copies < quorum {
            return Err(ReadError::InsufficientCopies { errors });
        }
        let highest = match Self::highest_quorum_below(copies, &errors, quorum, None) {
            Some(i) => i,
            None => {
                assert forall|i: int| !#[trigger] in_quorum(
                    copies@,
                    valid,
                    quorum as int,
                    i,
                ) by {
                    if in_quorum(copies@, valid, quorum as int, i) {
                        let c = lemma_some_leads(copies@, valid, quorum as int, i);
                        assert(!is_below(copies@[c].sequence, None));
                    }
                }
                return Err(ReadError::NoReadQuorum { required: quorum });
            },
        };

        // Follow the chain of quorums down.
        let mut child: usize = highest;
        loop
            invariant
                quorum > 0,
                copies@.len() == NUM_COPIES,
                errors@.len() == NUM_COPIES,
                valid == readable(errors@),
                valid_count(valid, NUM_COPIES as nat) >= quorum,
                is_highest(copies@, valid, quorum as int, highest as int),
                leads(copies@, valid, quorum as int, child as int),
                child < NUM_COPIES,
                chained_down_to(
                    copies@,
                    valid,
                    quorum as int,
                    copies@[child as int].sequence as int,
                ),
            decreases copies@[child as int].sequence,
        {
            match Self::highest_quorum_below(
                copies,
                &errors,
                quorum,
                Some(copies[child].sequence),
            ) {
                None => {
                    proof {
                        assert forall|a: int, b: int| #[trigger]
                            follows(copies@, valid, quorum as int, a, b) implies chained(
                            copies@,
                            a,
                            b,
                        ) by {
                            if copies@[b].sequence < copies@[child as int].sequence {
                                assert(leads(copies@, valid, quorum as int, b));
                            }
                        }
                    }
                    return Ok(highest);
                },
                Some(parent) => {
                    assert(follows(
                        copies@,
                        valid,
                        quorum as int,
                        child as int,
                        parent as int,
                    ));
                    if copies[child].parent != copies[parent].checksum {
                        return Err(
                            ReadError::HashChainBroken {
                                parent: copies[parent].checksum,
                                head: copies[child].checksum,
                            },
                        );
                    }
                    proof {
                        assert forall|a: int, b: int| #[trigger]
                            follows(copies@, valid, quorum as int, a, b) && copies@[b].sequence
                                >= copies@[parent as int].sequence implies chained(
                            copies@,
                            a,
                            b,
                        ) by {
                            if copies@[b].sequence < copies@[child as int].sequence {
                                assert(leads(copies@, valid, quorum as int, b));
                                assert(leads(copies@, valid, quorum as int, a));
                                lemma_leads_unique(
                                    copies@,
                                    valid,
                                    quorum as int,
                                    b,
                                    parent as int,
                                );
                                lemma_leads_unique(copies@, valid, quorum as int, a, child as int);
                            }
                        }
                    }
                    child = parent;
                },
            }
        }
    }

    /// The copy that stands for the highest sequence number below `bound`.
    fn highest_quorum_below<E>(
        copies: &Vec<Self>,
        errors: &Vec<Option<LoadError<E>>>,
        quorum: usize,
        bound: Option<u64>,
    ) -> (r: Option<usize>)
        requires
            quorum > 0,
            copies@.len() == errors@.len(),
        ensures
            match r {
                Some(i) => {
                    &&& leads(copies@, readable(errors@), quorum as int, i as int)
                    &&& is_below(copies@[i as int].sequence, bound)
                    &&& forall|c: int| #[trigger]
                        leads(copies@, readable(errors@), quorum as int, c) && is_below(copies@[c].sequence, bound)
                            ==> copies@[c].sequence <= copies@[i as int].sequence
                },
                None => forall|c: int| #[trigger]
                    leads(copies@, readable(errors@), quorum as int, c) ==> !is_below(copies@[c].sequence, bound),
            },
    {
        let ghost valid = readable(errors@);
        let mut best: Option<usize> = None;
        let mut i: usize = 0;
        while i < copies.len()
            invariant
                i <= copies@.len(),
                quorum > 0,
                copies@.len() == errors@.len(),
                valid == readable(errors@),
                match best {
                    Some(b) => {
                        &&& b < i
                        &&& leads(copies@, valid, quorum as int, b as int)
                        &&& is_below(copies@[b as int].sequence, bound)
                        &&& forall|c: int|
                            0 <= c < i && #[trigger] in_quorum(
                                copies@,
                                valid,
                                quorum as int,
                                c,
                            ) && is_below(copies@[c].sequence, bound)
                                ==> copies@[c].sequence <= copies@[b as int].sequence
                    },
                    None => forall|c: int|
                        0 <= c < i && #[trigger] in_quorum(copies@, valid, quorum as int, c)
                            ==> !is_below(copies@[c].sequence, bound),
                },
            decreases copies@.len() - i,
        {
            let count = Self::count_agreeing(copies, errors, i);
            let below = match bound {
                Some(s) => copies[i].sequence < s,
                None => true,
            };
            let better = match best {
                Some(b) => copies[i].sequence > copies[b].sequence,
                None => true,
            };
            if count >= quorum && below && better {
                best = Some(i);
            }
            i += 1;
        }
        best
    }

    /// The number of copies that agree with copy `i`.
    fn count_agreeing<E>(
        copies: &Vec<Self>,
        errors: &Vec<Option<LoadError<E>>>,
        i: usize,
    ) -> (r: usize)
        requires
            i < copies@.len() == errors@.len(),
        ensures
            r == agree_count(copies@, readable(errors@), i as int, copies@.len()),
    {
        let mut count: usize = 0;
        let mut j: usize = 0;
        while j < copies.len()
            invariant
                i < copies@.len() == errors@.len(),
                j <= copies@.len(),
                count <= j,
                count == agree_count(copies@, readable(errors@), i as int, j as nat),
            decreases copies@.len() - j,
        {
            if errors[i].is_none() && errors[j].is_none() && copies[i].sequence
                == copies[j].sequence && copies[i].checksum == copies[j].checksum {
                count += 1;
            }
            j += 1;
        }
        count
    }

    /// What becomes of loading the copy with the number `copy`, given how the
    /// read at its offset went.
    pub fn load_copy_into<E>(copy: u16, read: Result<Self, ErrorWith<E, Self>>) -> (r: Result<
        Self,
        ErrorWith<LoadError<E>, Self>,
    >)
        requires
            read matches Ok(block) ==> block.version == VERSION,
        ensures
            match read {
                Ok(block) => if block.copy != copy {
                    r == Err::<Self, ErrorWith<LoadError<E>, Self>>(
                        ErrorWith {
                            error: LoadError::MisdirectedCopy {
                                expected_copy: copy,
                                actual_copy: block.copy,
                            },
                            with: block,
                        },
                    )
                } else if checksum::blake3_hash(block.checked_bytes()) != block.checksum@ {
                    &&& r matches Err(e)
                    &&& e.with == block
                    &&& e.error matches LoadError::ChecksumMismatch { computed, expected }
                    &&& computed@ == checksum::blake3_hash(block.checked_bytes())
                    &&& expected == block.checksum
                } else {
                    r == Ok::<Self, ErrorWith<LoadError<E>, Self>>(block)
                },
                Err(e) => r == Err::<Self, ErrorWith<LoadError<E>, Self>>(
                    ErrorWith { error: LoadError::Io(e.error), with: e.with },
                ),
            },
    {
        match read {
            Ok(block) => {
                if block.copy != copy {
                    let error = LoadError::MisdirectedCopy {
                        expected_copy: copy,
                        actual_copy: block.copy,
                    };
                    return Err(ErrorWith { error, with: block });
                }
                let computed = block.compute_checksum();
                if computed != block.checksum {
                    let error = LoadError::ChecksumMismatch { computed, expected: block.checksum };
                    Err(ErrorWith { error, with: block })
                } else {
                    Ok(block)
                }
            },
            Err(ErrorWith { error, with }) => Err(
                ErrorWith { error: LoadError::Io(error), with },
            ),
        }
    }

    /// The checksum of all that follows the checksum in the stored form.
    pub fn compute_checksum(&self) -> (r: Checksum)
        ensures
            r@ == checksum::blake3_hash(self.checked_bytes()),
    {
        let mut out: Vec<u8> = Vec::new();
        self.put_checked_bytes(&mut out);
        assert(out@ =~= self.checked_bytes());
        Checksum::from_bytes(out.as_slice())
    }

    fn put_checked_bytes(&self, out: &mut Vec<u8>)
        ensures
            final(out)@ == old(out)@ + self.checked_bytes(),
    {
        le::put_slice(out, self.parent.as_bytes());
        let copy = le::u16_to_le(self.copy);
        le::put_slice(out, copy.as_slice());
        let version = le::u16_to_le(self.version);
        le::put_slice(out, version.as_slice());
        let features = le::u32_to_le(self.features);
        le::put_slice(out, features.as_slice());
        let sequence = le::u64_to_le(self.sequence);
        le::put_slice(out, sequence.as_slice());
        le::put_slice(out, self.database_identity.as_bytes());
        self.free_set_blocks_acquired.put_bytes(out);
        self.free_set_blocks_released.put_bytes(out);
        le::put_slice(out, self.sealed_snapshot.as_bytes());
        le::put_slice(out, self.reserved.as_slice());
        assert(out@ =~= old(out)@ + self.checked_bytes());
    }

    /// The stored form.
    pub fn to_bytes(&self) -> (r: Vec<u8>)
        ensures
            r@ == self.bytes(),
    {
        let mut out: Vec<u8> = Vec::new();
        le::put_slice(&mut out, self.checksum.as_bytes());
        self.put_checked_bytes(&mut out);
        assert(out@ =~= self.bytes());
        out
    }

    /// The superblock with the given stored form.
    pub fn from_bytes(s: &[u8]) -> (r: Self)
        requires
            s@.len() == SUPERBLOCK_LEN,
        ensures
            r.wf(),
            r.bytes() == s@,
    {
        let r = Self {
            checksum: Checksum::from_array(le::read_32(s, 0)),
            parent: Checksum::from_array(le::read_32(s, 32)),
            copy: le::read_u16(s, 64),
            version: le::read_u16(s, 66),
            features: le::read_u32(s, 68),
            sequence: le::read_u64(s, 72),
            database_identity: U256::from_array(le::read_32(s, 80)),
            free_set_blocks_acquired: BlockRef::read_bytes(s, 112),
            free_set_blocks_released: BlockRef::read_bytes(s, 160),
            sealed_snapshot: Checksum::from_array(le::read_32(s, 208)),
            reserved: le::read_vec(s, 240, SUPERBLOCK_LEN),
        };
        proof {
            le::lemma_le_bytes_of_value(s@.subrange(64, 66));
            le::lemma_le_bytes_of_value(s@.subrange(66, 68));
            le::lemma_le_bytes_of_value(s@.subrange(68, 72));
            le::lemma_le_bytes_of_value(s@.subrange(72, 80));
            assert(r.bytes() =~= s@);
        }
        r
    }

    /// `true` if all fields of `self`, except for the `copy` field, compare
    /// equal to the respective field in `other`.
    pub fn eq_without_copy(&self, other: &Self) -> (r: bool)
        ensures
            r == self.same_but_copy(*other),
    {
        proof {
            Checksum::lemma_view(self.checksum, other.checksum);
            Checksum::lemma_view(self.parent, other.parent);
            Checksum::lemma_view(self.sealed_snapshot, other.sealed_snapshot);
            U256::lemma_view(self.database_identity, other.database_identity);
        }
        self.checksum == other.checksum && self.parent == other.parent && self.version
            == other.version && self.features == other.features && self.sequence == other.sequence
            && self.database_identity == other.database_identity && self.free_set_blocks_acquired
            == other.free_set_blocks_acquired && self.free_set_blocks_released
            == other.free_set_blocks_released && self.sealed_snapshot == other.sealed_snapshot
            && le::bytes_eq(self.reserved.as_slice(), other.reserved.as_slice())
    }
}

/// What comes of picking a superblock with `quorum`:
///
/// - too few copies could be read for a quorum,
/// - or no quorum exists,
/// - or a quorum does not descend from the next lower one,
/// - or the quorum with the highest sequence number is chosen.
pub open spec fn quorum_outcome<E>(
    copies: Seq<Superblock>,
    errors: Seq<Option<LoadError<E>>>,
    quorum: int,
    r: Result<usize, ReadError<E>>,
) -> bool {
    let valid = readable(errors);
    let enough = valid_count(valid, valid.len()) >= quorum;
    match r {
        Ok(i) => {
            &&& enough
            &&& is_highest(copies, valid, quorum, i as int)
            &&& chained_down_to(copies, valid, quorum, 0)
        },
        Err(ReadError::InsufficientCopies { errors: e }) => !enough && e@ == errors,
        Err(ReadError::NoReadQuorum { required }) => {
            &&& enough
            &&& required == quorum
            &&& forall|i: int| !#[trigger] in_quorum(copies, valid, quorum, i)
        },
        Err(ReadError::HashChainBroken { parent, head }) => {
            &&& enough
            &&& broken_at(copies, valid, quorum, parent@, head@)
        },
        Err(_) => false,
    }
}

proof fn lemma_leads_unique(
    copies: Seq<Superblock>,
    valid: Seq<bool>,
    quorum: int,
    a: int,
    b: int,
)
    requires
        leads(copies, valid, quorum, a),
        leads(copies, valid, quorum, b),
        copies[a].sequence == copies[b].sequence,
    ensures
        a == b,
{
}

/// Superblocks with equal stored forms are equal, so that reading a stored
/// superblock gives back what was stored.
pub proof fn law_stored_superblock_is_unique(a: Superblock, b: Superblock)
    requires
        a.wf(),
        b.wf(),
        a.bytes() == b.bytes(),
    ensures
        a.same_but_copy(b),
        a.copy == b.copy,
{
    let s = a.bytes();
    lemma_fields(a);
    lemma_fields(b);
    le::lemma_le_bounds();
    Checksum::lemma_view(a.checksum, b.checksum);
    Checksum::lemma_view(a.parent, b.parent);
    Checksum::lemma_view(a.sealed_snapshot, b.sealed_snapshot);
    U256::lemma_view(a.database_identity, b.database_identity);
    le::lemma_le_bytes_injective(a.copy as nat, b.copy as nat, 2);
    le::lemma_le_bytes_injective(a.version as nat, b.version as nat, 2);
    le::lemma_le_bytes_injective(a.features as nat, b.features as nat, 4);
    le::lemma_le_bytes_injective(a.sequence as nat, b.sequence as nat, 8);
    BlockRef::law_stored_reference_is_unique(
        a.free_set_blocks_acquired,
        b.free_set_blocks_acquired,
    );
    BlockRef::law_stored_reference_is_unique(
        a.free_set_blocks_released,
        b.free_set_blocks_released,
    );
}

/// The checksums of copies with different numbers are taken of different bytes.
/// So two of them can both have the checksum that they hold, and that checksum
/// in common, only if it is the hash of both.
pub proof fn law_checksum_covers_the_number_of_the_copy(a: Superblock, b: Superblock)
    requires
        a.wf(),
        b.wf(),
        a.copy != b.copy,
    ensures
        a.checked_bytes() != b.checked_bytes(),
{
    if a.checked_bytes() == b.checked_bytes() {
        lemma_fields(a);
        lemma_fields(b);
        le::lemma_le_bounds();
        assert(a.bytes().subrange(64, 66) =~= b.bytes().subrange(64, 66)) by {
            Checksum::lemma_view(a.checksum, b.checksum);
            assert forall|i: int| 64 <= i < 66 implies a.bytes()[i] == b.bytes()[i] by {
                assert(a.bytes()[i] == a.checked_bytes()[i - 32]);
                assert(b.bytes()[i] == b.checked_bytes()[i - 32]);
            }
        }
        le::lemma_le_bytes_injective(a.copy as nat, b.copy as nat, 2);
    }
}

/// Where the fields are in the stored form.
pub proof fn lemma_fields(a: Superblock)
    requires
        a.wf(),
    ensures
        a.bytes().len() == SUPERBLOCK_LEN,
        a.bytes().subrange(0, 32) == a.checksum@,
        a.bytes().subrange(32, 64) == a.parent@,
        a.bytes().subrange(64, 66) == le::le_bytes(a.copy as nat, 2),
        a.bytes().subrange(66, 68) == le::le_bytes(a.version as nat, 2),
        a.bytes().subrange(68, 72) == le::le_bytes(a.features as nat, 4),
        a.bytes().subrange(72, 80) == le::le_bytes(a.sequence as nat, 8),
        a.bytes().subrange(80, 112) == a.database_identity@,
        a.bytes().subrange(112, 160) == a.free_set_blocks_acquired.bytes(),
        a.bytes().subrange(160, 208) == a.free_set_blocks_released.bytes(),
        a.bytes().subrange(208, 240) == a.sealed_snapshot@,
        a.bytes().subrange(240, 4096) == a.reserved@,
{
    let s = a.bytes();
    Checksum::lemma_view(a.checksum, a.checksum);
    Checksum::lemma_view(a.parent, a.parent);
    Checksum::lemma_view(a.sealed_snapshot, a.sealed_snapshot);
    U256::lemma_view(a.database_identity, a.database_identity);
    le::lemma_le_bytes_len(a.copy as nat, 2);
    le::lemma_le_bytes_len(a.version as nat, 2);
    le::lemma_le_bytes_len(a.features as nat, 4);
    le::lemma_le_bytes_len(a.sequence as nat, 8);
    a.free_set_blocks_acquired.lemma_bytes_len();
    a.free_set_blocks_released.lemma_bytes_len();
    assert(s.subrange(0, 32) =~= a.checksum@);
    assert(s.subrange(32, 64) =~= a.parent@);
    assert(s.subrange(64, 66) =~= le::le_bytes(a.copy as nat, 2));
    assert(s.subrange(66, 68) =~= le::le_bytes(a.version as nat, 2));
    assert(s.subrange(68, 72) =~= le::le_bytes(a.features as nat, 4));
    assert(s.subrange(72, 80) =~= le::le_bytes(a.sequence as nat, 8));
    assert(s.subrange(80, 112) =~= a.database_identity@);
    assert(s.subrange(112, 160) =~= a.free_set_blocks_acquired.bytes());
    assert(s.subrange(160, 208) =~= a.free_set_blocks_released.bytes());
    assert(s.subrange(208, 240) =~= a.sealed_snapshot@);
    assert(s.subrange(240, 4096) =~= a.reserved@);
}

/// Where one superblock is in a quorum and all quorums are copies of it, a copy
/// of it is chosen.
pub proof fn law_only_quorum_is_chosen<E>(
    copies: Seq<Superblock>,
    errors: Seq<Option<LoadError<E>>>,
    quorum: int,
    i: int,
    r: Result<usize, ReadError<E>>,
)
    requires
        copies.len() == NUM_COPIES,
        errors.len() == NUM_COPIES,
        quorum > 0,
        in_quorum(copies, readable(errors), quorum, i),
        forall|j: int| #[trigger]
            in_quorum(copies, readable(errors), quorum, j) ==> agree(
                copies,
                readable(errors),
                i,
                j,
            ),
        quorum_outcome(copies, errors, quorum, r),
    ensures
        r matches Ok(j) && in_quorum(copies, readable(errors), quorum, j as int) && agree(
            copies,
            readable(errors),
            i,
            j as int,
        ),
{
    let valid = readable(errors);
    reveal_with_fuel(agree_count, 5);
    reveal_with_fuel(valid_count, 5);
    assert(valid_count(valid, 4) >= agree_count(copies, valid, i, 4));
    match r {
        Ok(j) => {
            assert(leads(copies, valid, quorum, j as int));
        },
        Err(ReadError::HashChainBroken { parent, head }) => {
            let (a, b) = choose|a: int, b: int|
                {
                    &&& #[trigger] follows(copies, valid, quorum, a, b)
                    &&& !chained(copies, a, b)
                    &&& chained_down_to(copies, valid, quorum, copies[a].sequence as int)
                    &&& parent@ == copies[b].checksum@
                    &&& head@ == copies[a].checksum@
                };
            assert(follows(copies, valid, quorum, a, b));
            assert(in_quorum(copies, valid, quorum, a));
            assert(in_quorum(copies, valid, quorum, b));
            assert(agree(copies, valid, i, a));
            assert(agree(copies, valid, i, b));
        },
        _ => {},
    }
}

/// A superblock that a write quorum of copies hold is the one that is read,
/// whatever the other copy holds.
pub proof fn law_stored_superblock_is_loaded<E>(
    copies: Seq<Superblock>,
    errors: Seq<Option<LoadError<E>>>,
    i: int,
    r: Result<usize, ReadError<E>>,
)
    requires
        copies.len() == NUM_COPIES,
        errors.len() == NUM_COPIES,
        in_quorum(copies, readable(errors), WRITE_QUORUM as int, i),
        quorum_outcome(copies, errors, READ_QUORUM as int, r),
    ensures
        r matches Ok(j) && agree(copies, readable(errors), i, j as int),
{
    let valid = readable(errors);
    reveal_with_fuel(agree_count, 5);
    assert forall|j: int| #[trigger] in_quorum(copies, valid, 2, j) implies agree(
        copies,
        valid,
        i,
        j,
    ) by {
        let (a, b) = lemma_two_agree(copies, valid, j);
        if !agree(copies, valid, i, j) {
            assert(!agree(copies, valid, i, a));
            assert(!agree(copies, valid, i, b));
        }
    }
    law_only_quorum_is_chosen(copies, errors, READ_QUORUM as int, i, r);
}

proof fn lemma_two_agree(copies: Seq<Superblock>, valid: Seq<bool>, j: int) -> (r: (int, int))
    requires
        copies.len() == NUM_COPIES,
        in_quorum(copies, valid, 2, j),
    ensures
        0 <= r.0 < r.1 < NUM_COPIES,
        agree(copies, valid, j, r.0),
        agree(copies, valid, j, r.1),
{
    reveal_with_fuel(agree_count, 5);
    let a: int = if agree(copies, valid, j, 0) {
        0
    } else if agree(copies, valid, j, 1) {
        1
    } else {
        2
    };
    let b: int = if agree(copies, valid, j, 3) {
        3
    } else if agree(copies, valid, j, 2) {
        2
    } else {
        1
    };
    (a, b)
}

/// A superblock that a write quorum of copies hold is still the one that is
/// read after any one copy can no longer be read.
pub proof fn law_superblock_survives_the_loss_of_a_copy<E>(
    copies: Seq<Superblock>,
    errors: Seq<Option<LoadError<E>>>,
    i: int,
    lost: int,
    later: Seq<Option<LoadError<E>>>,
    r: Result<usize, ReadError<E>>,
)
    requires
        copies.len() == NUM_COPIES,
        errors.len() == NUM_COPIES,
        later.len() == NUM_COPIES,
        in_quorum(copies, readable(errors), WRITE_QUORUM as int, i),
        0 <= lost < NUM_COPIES,
        later[lost] is Some,
        forall|k: int|
            0 <= k < NUM_COPIES && k != lost ==> (#[trigger] later[k] is None) == (
            errors[k] is None),
        quorum_outcome(copies, later, READ_QUORUM as int, r),
    ensures
        r matches Ok(j) && agree(copies, readable(errors), i, j as int),
{
    let valid = readable(errors);
    let rest = readable(later);
    reveal_with_fuel(agree_count, 5);
    assert forall|k: int| 0 <= k < 4 && k != lost implies #[trigger] rest[k] == valid[k] by {
        assert((later[k] is None) == (errors[k] is None));
    }
    assert(!rest[lost]);
    // Another copy of the three that can still be read.
    let k: int = if lost != 0 && agree(copies, valid, i, 0) {
        0
    } else if lost != 1 && agree(copies, valid, i, 1) {
        1
    } else {
        2
    };
    assert(lost != 0 ==> (agree(copies, rest, k, 0) == agree(copies, valid, i, 0)));
    assert(lost != 1 ==> (agree(copies, rest, k, 1) == agree(copies, valid, i, 1)));
    assert(lost != 2 ==> (agree(copies, rest, k, 2) == agree(copies, valid, i, 2)));
    assert(lost != 3 ==> (agree(copies, rest, k, 3) == agree(copies, valid, i, 3)));
    assert(in_quorum(copies, rest, 2, k));
    assert forall|j: int| #[trigger] in_quorum(copies, rest, 2, j) implies agree(
        copies,
        rest,
        k,
        j,
    ) by {
        let (a, b) = lemma_two_agree(copies, rest, j);
        if !agree(copies, rest, k, j) {
            assert(!agree(copies, valid, i, a));
            assert(!agree(copies, valid, i, b));
        }
    }
    law_only_quorum_is_chosen(copies, later, READ_QUORUM as int, k, r);
}

} // verus!
