//! Fixed-size blocks, and references to them.

use vstd::prelude::*;

use crate::checksum;
use crate::checksum::Checksum;
use crate::free_set::AcquiredAddress;
use crate::io::ErrorWith;
use crate::le;

verus! {

pub const BLOCK_SIZE: usize = 65536;

/// The size of a stored block reference.
pub const BLOCK_REF_SIZE: usize = 48;

/// A block could not be read.
#[derive(Debug)]
pub enum ReadError<E> {
    ChecksumMismatch { computed: Checksum, expected: Checksum },
    Io(E),
}

/// Reference to an on-disk block.
///
/// The type of the target block ([ChainedBlock] or [FixedBlock]) depends on the
/// context.
#[derive(Clone, Copy, Debug)]
pub struct BlockRef {
    /// Checksum of the block.
    pub checksum: Checksum,
    /// The block's offset within the data file.
    pub address: u64,
    pub padding: u64,
}

/// What a [BlockRef] refers to.
#[verifier::ext_equal]
pub struct RefView {
    pub checksum: Seq<u8>,
    pub address: u64,
    pub padding: u64,
}

impl RefView {
    /// The stored form: the checksum, the address and the padding.
    pub open spec fn bytes(self) -> Seq<u8> {
        self.checksum + le::le_bytes(self.address as nat, 8) + le::le_bytes(self.padding as nat, 8)
    }

    /// The reference that has no target.
    pub open spec fn zero() -> Self {
        RefView { checksum: Seq::new(32, |i: int| 0u8), address: 0, padding: 0 }
    }

    /// The reference to the block at `address` with the given header and data.
    pub open spec fn to_block(parent: RefView, data: Seq<u8>, address: u64) -> Self {
        RefView { checksum: checksum::blake3_hash(parent.bytes() + data), address, padding: 0 }
    }
}

impl View for BlockRef {
    type V = RefView;

    open spec fn view(&self) -> RefView {
        RefView { checksum: self.checksum@, address: self.address, padding: self.padding }
    }
}

impl PartialEq for BlockRef {
    fn eq(&self, other: &Self) -> (r: bool) {
        proof {
            Checksum::lemma_view(self.checksum, other.checksum);
        }
        self.checksum == other.checksum && self.address == other.address && self.padding
            == other.padding
    }
}

impl vstd::std_specs::cmp::PartialEqSpecImpl for BlockRef {
    open spec fn obeys_eq_spec() -> bool {
        true
    }

    open spec fn eq_spec(&self, other: &Self) -> bool {
        *self == *other
    }
}

impl BlockRef {
    /// The stored form.
    pub open spec fn bytes(self) -> Seq<u8> {
        self@.bytes()
    }

    /// Whether there is no target.
    pub open spec fn spec_is_zero(self) -> bool {
        self@ == RefView::zero()
    }

    /// A reference is what it refers to.
    pub proof fn lemma_view(a: Self, b: Self)
        ensures
            a@ == b@ ==> a == b,
    {
        Checksum::lemma_view(a.checksum, b.checksum);
    }

    /// `zero` denotes `None`: a hash-linked entry has no parent.
    pub fn zero() -> (r: Self)
        ensures
            r.spec_is_zero(),
    {
        Self { checksum: Checksum::zero(), address: 0, padding: 0 }
    }

    pub fn new(checksum: Checksum, address: u64) -> (r: Self)
        ensures
            r == (BlockRef { checksum, address, padding: 0 }),
    {
        Self { checksum, address, padding: 0 }
    }

    pub fn is_zero(&self) -> (r: bool)
        ensures
            r == self.spec_is_zero(),
    {
        let zero = Self::zero();
        proof {
            Checksum::lemma_view(self.checksum, zero.checksum);
            Self::lemma_view(*self, zero);
        }
        *self == zero
    }

    pub fn checksum(&self) -> (r: Checksum)
        ensures
            r == self.checksum,
    {
        self.checksum
    }

    pub fn address(&self) -> (r: u64)
        ensures
            r == self.address,
    {
        self.address
    }

    pub proof fn lemma_bytes_len(self)
        ensures
            self.bytes().len() == BLOCK_REF_SIZE,
    {
        Checksum::lemma_view(self.checksum, self.checksum);
        le::lemma_le_bytes_len(self.address as nat, 8);
        le::lemma_le_bytes_len(self.padding as nat, 8);
    }

    /// References with equal stored forms are equal, so that reading a stored
    /// reference gives back what was stored.
    pub proof fn law_stored_reference_is_unique(a: Self, b: Self)
        requires
            a.bytes() == b.bytes(),
        ensures
            a == b,
    {
        a.lemma_bytes_len();
        b.lemma_bytes_len();
        Checksum::lemma_view(a.checksum, b.checksum);
        Checksum::lemma_view(b.checksum, a.checksum);
        le::lemma_le_bounds();
        le::lemma_le_bytes_len(a.address as nat, 8);
        le::lemma_le_bytes_len(b.address as nat, 8);
        assert(a.checksum@ =~= a.bytes().subrange(0, 32));
        assert(b.checksum@ =~= b.bytes().subrange(0, 32));
        assert(le::le_bytes(a.address as nat, 8) =~= a.bytes().subrange(32, 40));
        assert(le::le_bytes(b.address as nat, 8) =~= b.bytes().subrange(32, 40));
        assert(le::le_bytes(a.padding as nat, 8) =~= a.bytes().subrange(40, 48));
        assert(le::le_bytes(b.padding as nat, 8) =~= b.bytes().subrange(40, 48));
        le::lemma_le_bytes_injective(a.address as nat, b.address as nat, 8);
        le::lemma_le_bytes_injective(a.padding as nat, b.padding as nat, 8);
    }

    /// Appends the stored form to `out`.
    pub fn put_bytes(&self, out: &mut Vec<u8>)
        ensures
            final(out)@ == old(out)@ + self.bytes(),
    {
        le::put_slice(out, self.checksum.as_bytes());
        let a = le::u64_to_le(self.address);
        le::put_slice(out, a.as_slice());
        let p = le::u64_to_le(self.padding);
        le::put_slice(out, p.as_slice());
        assert(out@ =~= old(out)@ + self.bytes());
    }

    /// The reference whose stored form is at `at`.
    pub fn read_bytes(s: &[u8], at: usize) -> (r: Self)
        requires
            at + BLOCK_REF_SIZE <= s@.len(),
        ensures
            r.bytes() == s@.subrange(at as int, at + BLOCK_REF_SIZE),
    {
        let len = s.len();
        let r = Self {
            checksum: Checksum::from_array(le::read_32(s, at)),
            address: le::read_u64(s, at + 32),
            padding: le::read_u64(s, at + 40),
        };
        proof {
            le::lemma_le_bytes_of_value(s@.subrange(at + 32, at + 40));
            le::lemma_le_bytes_of_value(s@.subrange(at + 40, at + 48));
            assert(r.bytes() =~= s@.subrange(at as int, at + 48));
        }
        r
    }
}

/// A block that is to be written at an address.
pub struct InFlightBlock {
    pub address: AcquiredAddress,
    pub block: ChainedBlock,
}

/// A block of data for dynamically-sized objects.
///
/// A block contains a [BlockRef] header, that hash-chains to a parent block if
/// the object is larger than a single block. A zero reference in the header
/// indicates that there are no more parents.
///
/// Note that [Chain] goes through the blocks in chain order: consumers will
/// need to reverse the chain to recover the write order.
#[derive(Debug)]
pub struct ChainedBlock {
    pub parent: BlockRef,
    pub data: Vec<u8>,
}

/// The number of data bytes in a [ChainedBlock].
pub const CHAINED_DATA_LEN: usize = 65488;

impl ChainedBlock {
    pub open spec fn wf(self) -> bool {
        self.data@.len() == CHAINED_DATA_LEN
    }

    /// The stored form: the header, then the data.
    pub open spec fn bytes(self) -> Seq<u8> {
        self.parent.bytes() + self.data@
    }

    /// What `checksum` computes.
    pub open spec fn spec_checksum(self) -> Seq<u8> {
        checksum::blake3_hash(self.bytes())
    }

    /// The number of blocks that it takes to store `len` bytes.
    pub open spec fn blocks_for(len: nat) -> nat {
        ((len + CHAINED_DATA_LEN - 1) / CHAINED_DATA_LEN as int) as nat
    }

    /// A block of zeros.
    pub fn zeroed() -> (r: Self)
        ensures
            r.wf(),
            r.parent.spec_is_zero(),
            r.data@ == Seq::new(CHAINED_DATA_LEN as nat, |i: int| 0u8),
    {
        let data = vec![0u8; CHAINED_DATA_LEN];
        assert(data@ =~= Seq::new(CHAINED_DATA_LEN as nat, |i: int| 0u8));
        Self { parent: BlockRef::zero(), data }
    }

    /// The number of blocks needed to store `data`, `None` if `data` is empty.
    pub fn num_blocks_for(data: &[u8]) -> (r: Option<usize>)
        ensures
            match r {
                Some(n) => n == Self::blocks_for(data@.len()) && n > 0,
                None => data@.len() == 0,
            },
    {
        let len = data.len();
        if len == 0 {
            return None;
        }
        let n = (len - 1) / CHAINED_DATA_LEN + 1;
        assert((len + CHAINED_DATA_LEN - 1) / CHAINED_DATA_LEN as int == n);
        Some(n)
    }

    /// What becomes of storing a block at `address`, given how the write of it
    /// went.
    pub fn store<E>(
        written: Result<Self, ErrorWith<E, Self>>,
        address: AcquiredAddress,
    ) -> (r: Result<(Self, BlockRef), ErrorWith<E, (Self, AcquiredAddress)>>)
        ensures
            match written {
                Ok(block) => {
                    &&& r matches Ok((b, ptr))
                    &&& b == block
                    &&& ptr.checksum@ == block.spec_checksum()
                    &&& ptr.address == address@
                    &&& ptr.padding == 0
                },
                Err(e) => r == Err::<(Self, BlockRef), ErrorWith<E, (Self, AcquiredAddress)>>(
                    ErrorWith { error: e.error, with: (e.with, address) },
                ),
            },
    {
        match written {
            Ok(block) => {
                let ptr = BlockRef::new(block.checksum(), address.get());
                Ok((block, ptr))
            },
            Err(ErrorWith { error, with }) => Err(ErrorWith { error, with: (with, address) }),
        }
    }

    /// What becomes of loading the block that `ptr` refers to, given how the
    /// read at its address went: the block, if its checksum is that of the
    /// reference.
    ///
    /// Failure to load the block (including checksum verification failure)
    /// returns the memory in an [ErrorWith].
    pub fn load_into<E>(ptr: &BlockRef, read: Result<Self, ErrorWith<E, Self>>) -> (r: Result<
        Self,
        ErrorWith<ReadError<E>, Self>,
    >)
        ensures
            match read {
                Ok(block) => if block.spec_checksum() == ptr.checksum@ {
                    r == Ok::<Self, ErrorWith<ReadError<E>, Self>>(block)
                } else {
                    &&& r matches Err(e)
                    &&& e.with == block
                    &&& e.error matches ReadError::ChecksumMismatch { computed, expected }
                    &&& computed@ == block.spec_checksum()
                    &&& expected == ptr.checksum
                },
                Err(e) => r == Err::<Self, ErrorWith<ReadError<E>, Self>>(
                    ErrorWith { error: ReadError::Io(e.error), with: e.with },
                ),
            },
    {
        match read {
            Ok(block) => {
                let computed = block.checksum();
                if computed != ptr.checksum {
                    Err(
                        ErrorWith {
                            error: ReadError::ChecksumMismatch {
                                computed,
                                expected: ptr.checksum,
                            },
                            with: block,
                        },
                    )
                } else {
                    Ok(block)
                }
            },
            Err(ErrorWith { error, with }) => Err(
                ErrorWith { error: ReadError::Io(error), with },
            ),
        }
    }

    /// Goes through the chain of blocks starting at `head`.
    pub fn load_chain(head: BlockRef) -> (r: Chain)
        ensures
            r@ == (ChainView { head: head@, failed: false }),
    {
        Chain { current_head: head, failed: false }
    }

    /// Compute the [Checksum] of `self`.
    pub fn checksum(&self) -> (r: Checksum)
        ensures
            r@ == self.spec_checksum(),
    {
        let bytes = self.to_bytes();
        Checksum::from_bytes(bytes.as_slice())
    }

    /// Fills the block with `data`, followed by zeros.
    pub fn copy_from_slice(&mut self, parent: BlockRef, data: &[u8])
        requires
            data@.len() <= CHAINED_DATA_LEN,
        ensures
            final(self).wf(),
            final(self).parent == parent,
            final(self).data@ == le::zero_padded(data@, CHAINED_DATA_LEN as nat),
    {
        let mut filled = le::read_vec(data, 0, data.len());
        filled.resize(CHAINED_DATA_LEN, 0u8);
        assert(filled@ =~= le::zero_padded(data@, CHAINED_DATA_LEN as nat)) by {
            assert(data@.subrange(0, data@.len() as int) =~= data@);
            assert forall|i: int| 0 <= i < data@.len() implies filled@[i] == data@[i] by {
                assert(filled@.subrange(0, data@.len() as int)[i] == data@[i]);
            }
        }
        self.data = filled;
        self.parent = parent;
    }

    /// The stored form.
    pub fn to_bytes(&self) -> (r: Vec<u8>)
        ensures
            r@ == self.bytes(),
    {
        let mut out: Vec<u8> = Vec::new();
        self.parent.put_bytes(&mut out);
        le::put_slice(&mut out, self.data.as_slice());
        assert(out@ =~= self.bytes());
        out
    }

    /// The block with the given stored form.
    pub fn from_bytes(s: &[u8]) -> (r: Self)
        requires
            s@.len() == BLOCK_SIZE,
        ensures
            r.wf(),
            r.bytes() == s@,
    {
        let r = Self {
            parent: BlockRef::read_bytes(s, 0),
            data: le::read_vec(s, BLOCK_REF_SIZE, BLOCK_SIZE),
        };
        assert(r.bytes() =~= s@);
        r
    }

    /// Blocks with equal stored forms have equal headers and data, so that
    /// reading a stored block gives back what was stored.
    pub proof fn law_stored_block_is_unique(a: Self, b: Self)
        requires
            a.bytes() == b.bytes(),
        ensures
            a.parent == b.parent,
            a.data@ == b.data@,
    {
        a.parent.lemma_bytes_len();
        b.parent.lemma_bytes_len();
        assert(a.parent.bytes() =~= a.bytes().subrange(0, 48));
        assert(b.parent.bytes() =~= b.bytes().subrange(0, 48));
        assert(a.data@ =~= a.bytes().subrange(48, a.bytes().len() as int));
        assert(b.data@ =~= b.bytes().subrange(48, b.bytes().len() as int));
        BlockRef::law_stored_reference_is_unique(a.parent, b.parent);
    }
}

/// A walk through a chain of blocks, from the head on.
pub struct Chain {
    current_head: BlockRef,
    failed: bool,
}

/// The block that comes next, and whether loading one failed.
pub struct ChainView {
    pub head: RefView,
    pub failed: bool,
}

impl View for Chain {
    type V = ChainView;

    closed spec fn view(&self) -> ChainView {
        ChainView { head: self.current_head@, failed: self.failed }
    }
}

impl ChainView {
    /// Whether there is a block to be loaded.
    pub open spec fn has_next(self) -> bool {
        !self.failed && self.head != RefView::zero()
    }
}

impl Chain {
    /// The block that is to be loaded next. There is none at the end of the
    /// chain, nor after a failure.
    pub fn pending(&self) -> (r: Option<BlockRef>)
        ensures
            match r {
                Some(ptr) => self@.has_next() && ptr@ == self@.head,
                None => !self@.has_next(),
            },
    {
        if self.failed || self.current_head.is_zero() {
            None
        } else {
            Some(self.current_head)
        }
    }

    /// Takes the outcome of reading the pending block, and moves on to its
    /// parent if it could be loaded.
    pub fn advance<E>(
        &mut self,
        read: Result<ChainedBlock, ErrorWith<E, ChainedBlock>>,
    ) -> (r: Result<ChainedBlock, ErrorWith<ReadError<E>, ChainedBlock>>)
        requires
            old(self)@.has_next(),
        ensures
            match read {
                Ok(block) => if block.spec_checksum() == old(self)@.head.checksum {
                    &&& r == Ok::<ChainedBlock, ErrorWith<ReadError<E>, ChainedBlock>>(block)
                    &&& final(self)@ == (ChainView { head: block.parent@, failed: false })
                } else {
                    &&& r matches Err(e)
                    &&& e.with == block
                    &&& e.error matches ReadError::ChecksumMismatch { computed, expected }
                    &&& computed@ == block.spec_checksum()
                    &&& expected@ == old(self)@.head.checksum
                    &&& final(self)@ == (ChainView { failed: true, ..old(self)@ })
                },
                Err(e) => {
                    &&& r == Err::<ChainedBlock, ErrorWith<ReadError<E>, ChainedBlock>>(
                        ErrorWith { error: ReadError::Io(e.error), with: e.with },
                    )
                    &&& final(self)@ == (ChainView { failed: true, ..old(self)@ })
                },
            },
    {
        match ChainedBlock::load_into(&self.current_head, read) {
            Ok(block) => {
                self.current_head = block.parent;
                Ok(block)
            },
            Err(e) => {
                self.failed = true;
                Err(e)
            },
        }
    }
}

/// A fixed size block of data.
///
/// Unlike [ChainedBlock], this doesn't contain a parent pointer.
/// The data section is opaque, and may be interpreted by the application.
///
/// Used to store database pages.
#[derive(Debug)]
pub struct FixedBlock {
    pub data: Vec<u8>,
}

impl FixedBlock {
    pub open spec fn wf(self) -> bool {
        self.data@.len() == BLOCK_SIZE
    }

    /// What becomes of storing a block at `address`, given how the write of it
    /// went.
    pub fn store<E>(
        written: Result<Self, ErrorWith<E, Self>>,
        address: AcquiredAddress,
    ) -> (r: Result<(Self, BlockRef), ErrorWith<E, (Self, AcquiredAddress)>>)
        ensures
            match written {
                Ok(block) => {
                    &&& r matches Ok((b, ptr))
                    &&& b == block
                    &&& ptr.checksum@ == checksum::blake3_hash(block.data@)
                    &&& ptr.address == address@
                    &&& ptr.padding == 0
                },
                Err(e) => r == Err::<(Self, BlockRef), ErrorWith<E, (Self, AcquiredAddress)>>(
                    ErrorWith { error: e.error, with: (e.with, address) },
                ),
            },
    {
        match written {
            Ok(block) => {
                let ptr = BlockRef::new(block.checksum(), address.get());
                Ok((block, ptr))
            },
            Err(ErrorWith { error, with }) => Err(ErrorWith { error, with: (with, address) }),
        }
    }

    /// What becomes of loading the block that `ptr` refers to, given how the
    /// read at its address went: the block, if its checksum is that of the
    /// reference.
    pub fn load_into<E>(ptr: &BlockRef, read: Result<Self, ErrorWith<E, Self>>) -> (r: Result<
        Self,
        ErrorWith<ReadError<E>, Self>,
    >)
        ensures
            match read {
                Ok(block) => if checksum::blake3_hash(block.data@) == ptr.checksum@ {
                    r == Ok::<Self, ErrorWith<ReadError<E>, Self>>(block)
                } else {
                    &&& r matches Err(e)
                    &&& e.with == block
                    &&& e.error matches ReadError::ChecksumMismatch { computed, expected }
                    &&& computed@ == checksum::blake3_hash(block.data@)
                    &&& expected == ptr.checksum
                },
                Err(e) => r == Err::<Self, ErrorWith<ReadError<E>, Self>>(
                    ErrorWith { error: ReadError::Io(e.error), with: e.with },
                ),
            },
    {
        match read {
            Ok(block) => {
                let computed = block.checksum();
                if computed != ptr.checksum {
                    Err(
                        ErrorWith {
                            error: ReadError::ChecksumMismatch {
                                computed,
                                expected: ptr.checksum,
                            },
                            with: block,
                        },
                    )
                } else {
                    Ok(block)
                }
            },
            Err(ErrorWith { error, with }) => Err(
                ErrorWith { error: ReadError::Io(error), with },
            ),
        }
    }

    /// Compute the [Checksum] of `self`.
    pub fn checksum(&self) -> (r: Checksum)
        ensures
            r@ == checksum::blake3_hash(self.data@),
    {
        Checksum::from_bytes(self.data.as_slice())
    }
}

} // verus!
