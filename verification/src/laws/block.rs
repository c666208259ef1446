//! What is promised of blocks.

use vstd::prelude::*;

use crate::checksum::{blake3_hash, Checksum};
use crate::free_set::AcquiredAddress;
use crate::grid::block::{
    BlockRef, Chain, ChainedBlock, FixedBlock, ReadError,
};
use crate::io::ErrorWith;
use crate::le;

verus! {

/// Where the parts of a reference stand in its stored form.
pub proof fn law_layout_of_reference(a: BlockRef)
    ensures
        a.bytes().len() == 48,
        a.bytes().subrange(0, 32) == a.checksum@,
        le::le_value(a.bytes().subrange(32, 40)) == a.address,
        le::le_value(a.bytes().subrange(40, 48)) == a.padding,
{
    a.lemma_bytes_len();
    Checksum::lemma_view(a.checksum, a.checksum);
    le::lemma_le_bounds();
    le::lemma_le_value_of_bytes(a.address as nat, 8);
    le::lemma_le_value_of_bytes(a.padding as nat, 8);
    assert(a.bytes().subrange(0, 32) =~= a.checksum@);
    assert(a.bytes().subrange(32, 40) =~= le::le_bytes(a.address as nat, 8));
    assert(a.bytes().subrange(40, 48) =~= le::le_bytes(a.padding as nat, 8));
}

/// A reference has no target if and only if all of it is zero.
pub proof fn law_zero_reference(a: BlockRef, zero: BlockRef, r: bool)
    requires
        call_ensures(BlockRef::is_zero, (&a,), r),
        call_ensures(BlockRef::zero, (), zero),
    ensures
        r <==> a == zero,
        r <==> a.address == 0 && a.padding == 0 && forall|i: int|
            0 <= i < 32 ==> #[trigger] a.checksum@[i] == 0,
{
    Checksum::lemma_view(a.checksum, zero.checksum);
    BlockRef::lemma_view(a, zero);
    let z = Seq::new(32, |i: int| 0u8);
    if forall|i: int| 0 <= i < 32 ==> #[trigger] a.checksum@[i] == 0 {
        assert(a.checksum@ =~= z);
    }
    if r {
        assert(a.checksum@ == z);
    }
}

/// A reference holds the checksum and the address that it was made of.
pub proof fn law_new_reference(checksum: Checksum, address: u64, r: BlockRef)
    requires
        call_ensures(BlockRef::new, (checksum, address), r),
    ensures
        r.checksum == checksum,
        r.address == address,
        r.padding == 0,
{
}

/// A block is filled with the data, and with zeros behind it.
pub proof fn law_block_is_filled(parent: BlockRef, data: &[u8])
    requires
        data@.len() <= 65488,
    ensures
        forall|block: &mut ChainedBlock| #[trigger]
            call_ensures(ChainedBlock::copy_from_slice, (block, parent, data), ()) ==> {
                &&& final(block).parent == parent
                &&& final(block).data@.len() == 65488
                &&& forall|i: int|
                    0 <= i < data@.len() ==> #[trigger] final(block).data@[i] == data@[i]
                &&& forall|i: int|
                    data@.len() <= i < 65488 ==> #[trigger] final(block).data@[i] == 0
            },
{
}

/// The stored form of a block holds the reference to the parent and the data.
pub proof fn law_layout_of_block(a: ChainedBlock, stored: Vec<u8>)
    requires
        a.wf(),
        call_ensures(ChainedBlock::to_bytes, (&a,), stored),
    ensures
        stored@.len() == 65536,
        stored@.subrange(0, 32) == a.parent.checksum@,
        le::le_value(stored@.subrange(32, 40)) == a.parent.address,
        le::le_value(stored@.subrange(40, 48)) == a.parent.padding,
        stored@.skip(48) == a.data@,
{
    law_layout_of_reference(a.parent);
    assert(stored@.subrange(0, 32) =~= a.parent.bytes().subrange(0, 32));
    assert(stored@.subrange(32, 40) =~= a.parent.bytes().subrange(32, 40));
    assert(stored@.subrange(40, 48) =~= a.parent.bytes().subrange(40, 48));
    assert(stored@.skip(48) =~= a.data@);
}

/// Reading the stored form of a block gives back the block.
pub proof fn law_stored_block_is_read_back(
    a: ChainedBlock,
    stored: Vec<u8>,
    s: &[u8],
    b: ChainedBlock,
)
    requires
        a.wf(),
        call_ensures(ChainedBlock::to_bytes, (&a,), stored),
        s@ == stored@,
        call_ensures(ChainedBlock::from_bytes, (s,), b),
    ensures
        b.parent == a.parent,
        b.data@ == a.data@,
{
    law_layout_of_reference(a.parent);
    ChainedBlock::law_stored_block_is_unique(a, b);
}

/// The checksum of a block is the hash of all of its stored form.
pub proof fn law_checksum_of_block(a: ChainedBlock, stored: Vec<u8>, r: Checksum)
    requires
        call_ensures(ChainedBlock::to_bytes, (&a,), stored),
        call_ensures(ChainedBlock::checksum, (&a,), r),
    ensures
        r@ == blake3_hash(stored@),
{
}

/// The reference to a block that was stored holds its address and the hash of its
/// stored form. A block that could not be written is handed back with its
/// address and the error.
pub proof fn law_stored_block_is_referred_to<E>(
    written: Result<ChainedBlock, ErrorWith<E, ChainedBlock>>,
    address: AcquiredAddress,
    stored: Vec<u8>,
    r: Result<(ChainedBlock, BlockRef), ErrorWith<E, (ChainedBlock, AcquiredAddress)>>,
)
    requires
        call_ensures(ChainedBlock::store::<E>, (written, address), r),
        written matches Ok(block) ==> call_ensures(ChainedBlock::to_bytes, (&block,), stored),
    ensures
        match (written, r) {
            (Ok(block), Ok((b, ptr))) => b == block && ptr.address == address@ && ptr.checksum@
                == blake3_hash(stored@),
            (Err(e), Err(f)) => f.error == e.error && f.with == (e.with, address),
            _ => false,
        },
{
}

/// A block that was read is the one that is referred to if and only if the hash
/// of its stored form is that of the reference. It is handed back either way.
pub proof fn law_only_the_block_referred_to_is_loaded<E>(
    ptr: BlockRef,
    block: ChainedBlock,
    stored: Vec<u8>,
    r: Result<ChainedBlock, ErrorWith<ReadError<E>, ChainedBlock>>,
)
    requires
        call_ensures(ChainedBlock::to_bytes, (&block,), stored),
        call_ensures(
            ChainedBlock::load_into::<E>,
            (&ptr, Ok::<ChainedBlock, ErrorWith<E, ChainedBlock>>(block)),
            r,
        ),
    ensures
        r is Ok <==> blake3_hash(stored@) == ptr.checksum@,
        match r {
            Ok(b) => b == block,
            Err(e) => e.with == block && (e.error matches ReadError::ChecksumMismatch {
                computed,
                expected,
            } && computed@ == blake3_hash(stored@) && expected@ == ptr.checksum@),
        },
{
}

/// A block that cannot be read is an error.
pub proof fn law_unread_block_is_handed_back<E>(
    ptr: BlockRef,
    e: ErrorWith<E, ChainedBlock>,
    r: Result<ChainedBlock, ErrorWith<ReadError<E>, ChainedBlock>>,
)
    requires
        call_ensures(
            ChainedBlock::load_into::<E>,
            (&ptr, Err::<ChainedBlock, ErrorWith<E, ChainedBlock>>(e)),
            r,
        ),
    ensures
        r matches Err(f) && f.with == e.with && f.error == ReadError::<E>::Io(e.error),
{
}

/// As many blocks are needed as hold the data, and not more.
pub proof fn law_blocks_needed(data: &[u8], r: Option<usize>)
    requires
        call_ensures(ChainedBlock::num_blocks_for, (data,), r),
    ensures
        r is None <==> data@.len() == 0,
        r matches Some(n) ==> 65488 * (n - 1) < data@.len() <= 65488 * n,
{
}

/// A chain starts with its head, and ends at once if that is zero.
pub proof fn law_chain_starts_with_the_head(head: BlockRef, chain: Chain, r: Option<BlockRef>)
    requires
        call_ensures(ChainedBlock::load_chain, (head,), chain),
        call_ensures(Chain::pending, (&chain,), r),
    ensures
        r == if head.spec_is_zero() {
            None
        } else {
            Some(head)
        },
{
    if let Some(ptr) = r {
        BlockRef::lemma_view(ptr, head);
    }
}

/// In a chain the parent follows a block that has the checksum of the reference
/// to it. Anything else ends the chain.
pub proof fn law_chain_follows_the_parents<E>(
    read: Result<ChainedBlock, ErrorWith<E, ChainedBlock>>,
    stored: Vec<u8>,
    r: Result<ChainedBlock, ErrorWith<ReadError<E>, ChainedBlock>>,
    before: Option<BlockRef>,
    after: Option<BlockRef>,
)
    requires
        read matches Ok(block) ==> call_ensures(ChainedBlock::to_bytes, (&block,), stored),
    ensures
        forall|chain: &mut Chain| #[trigger]
            call_ensures(Chain::advance::<E>, (chain, read), r) && call_ensures(
                Chain::pending,
                (&*chain,),
                before,
            ) && call_ensures(Chain::pending, (&*final(chain),), after) && before is Some ==> {
                let intact = read is Ok && blake3_hash(stored@) == before->0.checksum@;
                &&& r is Ok <==> intact
                &&& r matches Ok(block) ==> read == Ok::<
                    ChainedBlock,
                    ErrorWith<E, ChainedBlock>,
                >(block)
                &&& after == if intact && !read->Ok_0.parent.spec_is_zero() {
                    Some(read->Ok_0.parent)
                } else {
                    None
                }
            },
{
    if read is Ok {
        let parent = read->Ok_0.parent;
        if let Some(ptr) = after {
            BlockRef::lemma_view(ptr, parent);
        }
    }
}

/// The reference to a page that was stored holds its address and the hash of its
/// data.
pub proof fn law_stored_page_is_referred_to<E>(
    written: Result<FixedBlock, ErrorWith<E, FixedBlock>>,
    address: AcquiredAddress,
    r: Result<(FixedBlock, BlockRef), ErrorWith<E, (FixedBlock, AcquiredAddress)>>,
)
    requires
        call_ensures(FixedBlock::store::<E>, (written, address), r),
    ensures
        match (written, r) {
            (Ok(block), Ok((b, ptr))) => b == block && ptr.address == address@ && ptr.checksum@
                == blake3_hash(block.data@),
            (Err(e), Err(f)) => f.error == e.error && f.with == (e.with, address),
            _ => false,
        },
{
}

/// A page that was read is the one that is referred to if and only if the hash of
/// its data is that of the reference.
pub proof fn law_only_the_page_referred_to_is_loaded<E>(
    ptr: BlockRef,
    read: Result<FixedBlock, ErrorWith<E, FixedBlock>>,
    r: Result<FixedBlock, ErrorWith<ReadError<E>, FixedBlock>>,
)
    requires
        call_ensures(FixedBlock::load_into::<E>, (&ptr, read), r),
    ensures
        match read {
            Ok(block) => {
                &&& r is Ok <==> blake3_hash(block.data@) == ptr.checksum@
                &&& match r {
                    Ok(b) => b == block,
                    Err(e) => e.with == block && (e.error matches ReadError::ChecksumMismatch {
                        computed,
                        expected,
                    } && computed@ == blake3_hash(block.data@) && expected@ == ptr.checksum@),
                }
            },
            Err(e) => r matches Err(f) && f.with == e.with && f.error == ReadError::<E>::Io(
                e.error,
            ),
        },
{
}

/// A reference is stored and read where it is told, and tells what it holds.
pub proof fn law_reference_is_stored_and_read(
    a: BlockRef,
    b: BlockRef,
    s: &[u8],
    at: usize,
    read: BlockRef,
    checksum: Checksum,
    address: u64,
)
    ensures
        forall|out: &mut Vec<u8>|
            #![trigger call_ensures(BlockRef::put_bytes, (&a, out), ())]
            call_ensures(BlockRef::put_bytes, (&a, out), ()) ==> {
                let (v, w) = (out@, final(out)@);
                let t = w.skip(v.len() as int);
                &&& w.len() == v.len() + 48
                &&& w.take(v.len() as int) == v
                &&& t.subrange(0, 32) == a.checksum@
                &&& le::le_value(t.subrange(32, 40)) == a.address
                &&& le::le_value(t.subrange(40, 48)) == a.padding
            },
        at + 48 <= s@.len() && call_ensures(BlockRef::read_bytes, (s, at), read) ==> {
            &&& read.checksum@ == s@.subrange(at as int, at + 32)
            &&& read.address == le::le_value(s@.subrange(at + 32, at + 40))
            &&& read.padding == le::le_value(s@.subrange(at + 40, at + 48))
        },
        call_ensures(BlockRef::checksum, (&a,), checksum) ==> checksum == a.checksum,
        call_ensures(BlockRef::address, (&a,), address) ==> address == a.address,
{
    law_layout_of_reference(a);
    assert forall|out: &mut Vec<u8>|
        #![trigger call_ensures(BlockRef::put_bytes, (&a, out), ())]
        call_ensures(BlockRef::put_bytes, (&a, out), ()) implies ({
        let (v, w) = (out@, final(out)@);
        let t = w.skip(v.len() as int);
        &&& w.len() == v.len() + 48
        &&& w.take(v.len() as int) == v
        &&& t.subrange(0, 32) == a.checksum@
        &&& le::le_value(t.subrange(32, 40)) == a.address
        &&& le::le_value(t.subrange(40, 48)) == a.padding
    }) by {
        let (v, w) = (out@, final(out)@);
        assert(w.skip(v.len() as int) =~= a.bytes());
        assert(w.take(v.len() as int) =~= v);
    }
    if at + 48 <= s@.len() && call_ensures(BlockRef::read_bytes, (s, at), read) {
        law_layout_of_reference(read);
        let t = s@.subrange(at as int, at + 48);
        assert(s@.subrange(at as int, at + 32) =~= t.subrange(0, 32));
        assert(s@.subrange(at + 32, at + 40) =~= t.subrange(32, 40));
        assert(s@.subrange(at + 40, at + 48) =~= t.subrange(40, 48));
    }
    if call_ensures(BlockRef::checksum, (&a,), checksum) {
        Checksum::lemma_view(checksum, a.checksum);
    }
}

/// A new block is all zeros. The checksum of a fixed block is the hash of its data.
pub proof fn law_zeroed_block(a: ChainedBlock, b: FixedBlock, r: Checksum)
    ensures
        call_ensures(ChainedBlock::zeroed, (), a) ==> {
            &&& a.parent.address == 0
            &&& a.parent.padding == 0
            &&& forall|i: int| 0 <= i < 32 ==> #[trigger] a.parent.checksum@[i] == 0
            &&& a.data@.len() == 65488
            &&& forall|i: int| 0 <= i < 65488 ==> #[trigger] a.data@[i] == 0
        },
        call_ensures(FixedBlock::checksum, (&b,), r) ==> r@ == blake3_hash(b.data@),
{
    if call_ensures(ChainedBlock::zeroed, (), a) {
        let z = Seq::new(32, |i: int| 0u8);
        assert(a.parent.checksum@ == z);
    }
}

/// References are equal if and only if all of their parts are.
pub proof fn law_equal_references(a: BlockRef, b: BlockRef, r: bool)
    requires
        call_ensures(<BlockRef as PartialEq>::eq, (&a, &b), r),
    ensures
        r <==> a.checksum@ == b.checksum@ && a.address == b.address && a.padding == b.padding,
{
    Checksum::lemma_view(a.checksum, b.checksum);
}

} // verus!
