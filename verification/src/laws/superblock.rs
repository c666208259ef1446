//! What is promised of the superblock.

use vstd::prelude::*;

use crate::checksum::{blake3_hash, Checksum};
use crate::grid::superblock;
use crate::grid::superblock::{LoadError, ReadError, Superblock, WriteError};
use crate::io::ErrorWith;
use crate::le;

verus! {

/// Whether copies `i` and `j` could both be read, and hold one sequence number
/// and one checksum.
pub open spec fn alike<E>(
    copies: Seq<Superblock>,
    errors: Seq<Option<LoadError<E>>>,
    i: int,
    j: int,
) -> bool {
    errors[i] is None && errors[j] is None && copies[i].sequence == copies[j].sequence
        && copies[i].checksum@ == copies[j].checksum@
}

pub open spec fn one_if(b: bool) -> int {
    if b {
        1
    } else {
        0
    }
}

/// Whether at least `quorum` of the four copies are like copy `j`.
pub open spec fn has_quorum<E>(
    copies: Seq<Superblock>,
    errors: Seq<Option<LoadError<E>>>,
    quorum: int,
    j: int,
) -> bool {
    0 <= j < 4 && one_if(alike(copies, errors, 0, j)) + one_if(alike(copies, errors, 1, j))
        + one_if(alike(copies, errors, 2, j)) + one_if(alike(copies, errors, 3, j)) >= quorum
}

/// Whether copy `j` has a quorum, and no copy before it with the same sequence
/// number has one.
pub open spec fn first_with_quorum<E>(
    copies: Seq<Superblock>,
    errors: Seq<Option<LoadError<E>>>,
    quorum: int,
    j: int,
) -> bool {
    has_quorum(copies, errors, quorum, j) && forall|k: int|
        0 <= k < j && copies[k].sequence == copies[j].sequence ==> !#[trigger] has_quorum(
            copies,
            errors,
            quorum,
            k,
        )
}

/// Whether the sequence number of `b` is the next one with a quorum below that
/// of `a`.
pub open spec fn next_below<E>(
    copies: Seq<Superblock>,
    errors: Seq<Option<LoadError<E>>>,
    quorum: int,
    a: int,
    b: int,
) -> bool {
    &&& first_with_quorum(copies, errors, quorum, a)
    &&& first_with_quorum(copies, errors, quorum, b)
    &&& copies[b].sequence < copies[a].sequence
    &&& forall|c: int| #[trigger]
        has_quorum(copies, errors, quorum, c) ==> !(copies[b].sequence < copies[c].sequence
            < copies[a].sequence)
}

/// Whether `r` is the newest superblock with a quorum, where all superblocks with
/// a quorum descend from one another, and otherwise says what is wrong.
pub open spec fn newest<E>(
    copies: Seq<Superblock>,
    errors: Seq<Option<LoadError<E>>>,
    quorum: int,
    r: Result<usize, ReadError<E>>,
) -> bool {
    let readable = one_if(errors[0] is None) + one_if(errors[1] is None) + one_if(
        errors[2] is None,
    ) + one_if(errors[3] is None);
    match r {
        Ok(i) => {
            &&& first_with_quorum(copies, errors, quorum, i as int)
            &&& forall|j: int| #[trigger]
                has_quorum(copies, errors, quorum, j) ==> copies[j].sequence
                    <= copies[i as int].sequence
            &&& forall|a: int, b: int| #[trigger]
                next_below(copies, errors, quorum, a, b) ==> copies[a].parent@
                    == copies[b].checksum@
        },
        Err(ReadError::InsufficientCopies { errors: e }) => readable < quorum && e@ == errors,
        Err(ReadError::NoReadQuorum { required }) => {
            &&& readable >= quorum
            &&& required == quorum
            &&& forall|j: int| !#[trigger] has_quorum(copies, errors, quorum, j)
        },
        Err(ReadError::HashChainBroken { parent, head }) => exists|a: int, b: int|
            {
                &&& #[trigger] next_below(copies, errors, quorum, a, b)
                &&& copies[a].parent@ != copies[b].checksum@
                &&& head@ == copies[a].checksum@
                &&& parent@ == copies[b].checksum@
                &&& forall|c: int, d: int| #[trigger]
                    next_below(copies, errors, quorum, c, d) && copies[d].sequence
                        >= copies[a].sequence ==> copies[c].parent@ == copies[d].checksum@
            },
        Err(_) => false,
    }
}

proof fn lemma_quorums<E>(
    copies: Seq<Superblock>,
    errors: Seq<Option<LoadError<E>>>,
    quorum: int,
)
    requires
        copies.len() == 4,
        errors.len() == 4,
        quorum > 0,
    ensures
        forall|j: int|
            (#[trigger] has_quorum(copies, errors, quorum, j)) == superblock::in_quorum(
                copies,
                superblock::readable(errors),
                quorum,
                j,
            ),
        forall|j: int|
            (#[trigger] superblock::in_quorum(copies, superblock::readable(errors), quorum, j))
                == has_quorum(copies, errors, quorum, j),
{
    reveal_with_fuel(superblock::agree_count, 5);
    let valid = superblock::readable(errors);
    assert forall|j: int|
        (#[trigger] has_quorum(copies, errors, quorum, j)) == superblock::in_quorum(
            copies,
            valid,
            quorum,
            j,
        ) by {
        if 0 <= j < 4 {
            assert(superblock::agree(copies, valid, j, 0) == alike(copies, errors, 0, j));
            assert(superblock::agree(copies, valid, j, 1) == alike(copies, errors, 1, j));
            assert(superblock::agree(copies, valid, j, 2) == alike(copies, errors, 2, j));
            assert(superblock::agree(copies, valid, j, 3) == alike(copies, errors, 3, j));
        }
    }
}

proof fn lemma_firsts<E>(
    copies: Seq<Superblock>,
    errors: Seq<Option<LoadError<E>>>,
    quorum: int,
)
    requires
        copies.len() == 4,
        errors.len() == 4,
        quorum > 0,
    ensures
        forall|j: int|
            (#[trigger] first_with_quorum(copies, errors, quorum, j)) == superblock::leads(
                copies,
                superblock::readable(errors),
                quorum,
                j,
            ),
        forall|a: int, b: int| #[trigger]
            next_below(copies, errors, quorum, a, b) ==> superblock::follows(
                copies,
                superblock::readable(errors),
                quorum,
                a,
                b,
            ),
        forall|a: int, b: int| #[trigger]
            superblock::follows(copies, superblock::readable(errors), quorum, a, b)
                ==> next_below(copies, errors, quorum, a, b),
{
    lemma_quorums(copies, errors, quorum);
    let valid = superblock::readable(errors);
    assert forall|j: int|
        (#[trigger] first_with_quorum(copies, errors, quorum, j)) == superblock::leads(
            copies,
            valid,
            quorum,
            j,
        ) by {
        if first_with_quorum(copies, errors, quorum, j) {
            assert forall|k: int|
                0 <= k < j && #[trigger] superblock::in_quorum(
                    copies,
                    valid,
                    quorum,
                    k,
                ) implies copies[k].sequence != copies[j].sequence by {
                assert(has_quorum(copies, errors, quorum, k));
            }
        }
        if superblock::leads(copies, valid, quorum, j) {
            assert forall|k: int|
                0 <= k < j && copies[k].sequence == copies[j].sequence implies !#[trigger] has_quorum(
                copies,
                errors,
                quorum,
                k,
            ) by {
                assert(superblock::in_quorum(copies, valid, quorum, k) == has_quorum(
                    copies,
                    errors,
                    quorum,
                    k,
                ));
            }
        }
    }
    assert forall|a: int, b: int| #[trigger]
        superblock::follows(copies, valid, quorum, a, b) implies next_below(
        copies,
        errors,
        quorum,
        a,
        b,
    ) by {
        assert(first_with_quorum(copies, errors, quorum, a));
        assert(first_with_quorum(copies, errors, quorum, b));
        assert forall|c: int| #[trigger] has_quorum(copies, errors, quorum, c) implies !(
        copies[b].sequence < copies[c].sequence < copies[a].sequence) by {
            let d = superblock::lemma_some_leads(copies, valid, quorum, c);
            assert(superblock::leads(copies, valid, quorum, d));
        }
    }
    assert forall|a: int, b: int| #[trigger]
        next_below(copies, errors, quorum, a, b) implies superblock::follows(
        copies,
        valid,
        quorum,
        a,
        b,
    ) by {
        assert(first_with_quorum(copies, errors, quorum, a));
        assert(first_with_quorum(copies, errors, quorum, b));
        assert forall|c: int| #[trigger]
            superblock::leads(copies, valid, quorum, c) implies copies[c].sequence
            <= copies[b].sequence || copies[c].sequence >= copies[a].sequence by {
            assert(has_quorum(copies, errors, quorum, c));
        }
    }
}

proof fn lemma_newest<E>(
    copies: Seq<Superblock>,
    errors: Seq<Option<LoadError<E>>>,
    quorum: int,
    r: Result<usize, ReadError<E>>,
)
    requires
        copies.len() == 4,
        errors.len() == 4,
        quorum > 0,
        superblock::quorum_outcome(copies, errors, quorum, r),
    ensures
        newest(copies, errors, quorum, r),
{
    let valid = superblock::readable(errors);
    reveal_with_fuel(superblock::valid_count, 5);
    lemma_quorums(copies, errors, quorum);
    lemma_firsts(copies, errors, quorum);
    match r {
        Ok(i) => {
            assert(superblock::leads(copies, valid, quorum, i as int));
            assert(first_with_quorum(copies, errors, quorum, i as int));
            assert forall|j: int| #[trigger]
                has_quorum(copies, errors, quorum, j) implies copies[j].sequence
                <= copies[i as int].sequence by {
                let d = superblock::lemma_some_leads(copies, valid, quorum, j);
                assert(superblock::leads(copies, valid, quorum, d));
            }
            assert forall|a: int, b: int| #[trigger]
                next_below(copies, errors, quorum, a, b) implies copies[a].parent@
                == copies[b].checksum@ by {
                assert(superblock::follows(copies, valid, quorum, a, b));
                assert(superblock::chained(copies, a, b));
            }
        },
        Err(ReadError::HashChainBroken { parent, head }) => {
            let (a, b) = choose|a: int, b: int|
                {
                    &&& #[trigger] superblock::follows(copies, valid, quorum, a, b)
                    &&& !superblock::chained(copies, a, b)
                    &&& superblock::chained_down_to(
                        copies,
                        valid,
                        quorum,
                        copies[a].sequence as int,
                    )
                    &&& parent@ == copies[b].checksum@
                    &&& head@ == copies[a].checksum@
                };
            assert(next_below(copies, errors, quorum, a, b));
            assert forall|c: int, d: int| #[trigger]
                next_below(copies, errors, quorum, c, d) && copies[d].sequence
                    >= copies[a].sequence implies copies[c].parent@ == copies[d].checksum@ by {
                assert(superblock::follows(copies, valid, quorum, c, d));
                assert(superblock::chained(copies, c, d));
            }
        },
        Err(ReadError::NoReadQuorum { .. }) => {
            assert forall|j: int| !#[trigger] has_quorum(copies, errors, quorum, j) by {
                assert(!superblock::in_quorum(copies, valid, quorum, j));
            }
        },
        _ => {},
    }
}

/// Loading gives the copy of the newest superblock that a quorum of copies hold.
/// It fails if and only if too few copies can be read, or no superblock has a
/// quorum, or one with a quorum does not descend from the one with a quorum
/// before it; the error says which.
pub proof fn law_newest_superblock_is_loaded<E>(
    quorum: usize,
    copies: Vec<Superblock>,
    errors: Vec<Option<LoadError<E>>>,
    r: Result<usize, ReadError<E>>,
)
    requires
        quorum > 0,
        copies@.len() == 4,
        errors@.len() == 4,
        call_ensures(
            Superblock::load_into_with_quorum::<E>,
            (quorum, &copies, errors),
            r,
        ),
    ensures
        newest(copies@, errors@, quorum as int, r),
{
    lemma_newest(copies@, errors@, quorum as int, r);
}

/// Two copies suffice for loading.
pub proof fn law_two_copies_suffice_for_loading<E>(
    copies: Vec<Superblock>,
    errors: Vec<Option<LoadError<E>>>,
    r: Result<usize, ReadError<E>>,
)
    requires
        copies@.len() == 4,
        errors@.len() == 4,
        call_ensures(Superblock::load_into::<E>, (&copies, errors), r),
    ensures
        newest(copies@, errors@, 2, r),
{
    lemma_newest(copies@, errors@, 2, r);
}

/// It takes three copies for a superblock to count as stored.
pub proof fn law_three_copies_count_as_stored<E>(
    copies: Vec<Superblock>,
    errors: Vec<Option<LoadError<E>>>,
    r: Result<usize, WriteError<E>>,
)
    requires
        copies@.len() == 4,
        errors@.len() == 4,
        call_ensures(Superblock::verify_stored::<E>, (&copies, errors), r),
    ensures
        match r {
            Ok(i) => newest(copies@, errors@, 3, Ok(i)),
            Err(WriteError::NoWriteQuorum { required, source }) => required == 3 && newest(
                copies@,
                errors@,
                3,
                Err(source),
            ),
            Err(_) => false,
        },
{
    match r {
        Ok(i) => {
            lemma_newest::<E>(copies@, errors@, 3, Ok(i));
        },
        Err(WriteError::NoWriteQuorum { required, source }) => {
            lemma_newest::<E>(copies@, errors@, 3, Err(source));
        },
        Err(_) => {},
    }
}

/// Where there are two superblocks with a quorum, and the newer descends from the
/// older, the newer one is loaded, wherever the copies are.
pub proof fn law_newer_of_two_superblocks_is_loaded<E>(
    copies: Vec<Superblock>,
    errors: Vec<Option<LoadError<E>>>,
    new: int,
    old: int,
    r: Result<usize, ReadError<E>>,
)
    requires
        copies@.len() == 4,
        errors@.len() == 4,
        has_quorum(copies@, errors@, 2, new),
        has_quorum(copies@, errors@, 2, old),
        copies@[old].sequence < copies@[new].sequence,
        forall|a: int, b: int|
            0 <= a < 4 && 0 <= b < 4 && copies@[a].sequence == copies@[new].sequence
                && copies@[b].sequence == copies@[old].sequence ==> (
            #[trigger] copies@[a]).parent@ == (#[trigger] copies@[b]).checksum@,
        call_ensures(Superblock::load_into::<E>, (&copies, errors), r),
    ensures
        r matches Ok(i) && i < 4 && copies@[i as int].sequence == copies@[new].sequence
            && copies@[i as int].checksum@ == copies@[new].checksum@,
{
    law_two_copies_suffice_for_loading(copies, errors, r);
    // There is room for no third quorum.
    assert forall|j: int| #[trigger] has_quorum(copies@, errors@, 2, j) implies alike(
        copies@,
        errors@,
        j,
        new,
    ) || alike(copies@, errors@, j, old) by {}
    match r {
        Ok(i) => {
            assert(has_quorum(copies@, errors@, 2, i as int));
        },
        Err(ReadError::HashChainBroken { parent, head }) => {
            let (a, b) = choose|a: int, b: int|
                #[trigger] next_below(copies@, errors@, 2, a, b) && copies@[a].parent@
                    != copies@[b].checksum@;
            assert(has_quorum(copies@, errors@, 2, a));
            assert(has_quorum(copies@, errors@, 2, b));
        },
        _ => {},
    }
}

/// A copy is accepted if and only if its stored form holds the number of the copy
/// that was asked for, and starts with the hash of all that follows.
pub proof fn law_only_intact_copies_are_loaded<E>(
    copy: u16,
    block: Superblock,
    stored: Vec<u8>,
    r: Result<Superblock, ErrorWith<LoadError<E>, Superblock>>,
)
    requires
        block.wf(),
        call_ensures(Superblock::to_bytes, (&block,), stored),
        call_ensures(
            Superblock::load_copy_into::<E>,
            (copy, Ok::<Superblock, ErrorWith<E, Superblock>>(block)),
            r,
        ),
    ensures
        r is Ok <==> le::le_value(stored@.subrange(64, 66)) == copy && blake3_hash(
            stored@.skip(32),
        ) == stored@.take(32),
        r matches Ok(loaded) ==> loaded == block,
        r matches Err(e) ==> e.with == block && match e.error {
            LoadError::MisdirectedCopy { expected_copy, actual_copy } => expected_copy == copy
                && actual_copy == le::le_value(stored@.subrange(64, 66)) && actual_copy != copy,
            LoadError::ChecksumMismatch { computed, expected } => le::le_value(
                stored@.subrange(64, 66),
            ) == copy && computed@ == blake3_hash(stored@.skip(32)) && expected@ == stored@.take(
                32,
            ),
            LoadError::Io(_) => false,
        },
{
    superblock::lemma_fields(block);
    le::lemma_le_bounds();
    le::lemma_le_value_of_bytes(block.copy as nat, 2);
    assert(stored@.take(32) =~= stored@.subrange(0, 32));
    assert(stored@.skip(32) =~= block.checked_bytes());
}

/// A copy that cannot be read is handed back with the error.
pub proof fn law_unread_copies_are_handed_back<E>(
    copy: u16,
    e: ErrorWith<E, Superblock>,
    r: Result<Superblock, ErrorWith<LoadError<E>, Superblock>>,
)
    requires
        call_ensures(
            Superblock::load_copy_into::<E>,
            (copy, Err::<Superblock, ErrorWith<E, Superblock>>(e)),
            r,
        ),
    ensures
        r matches Err(f) && f.with == e.with && f.error == LoadError::Io(e.error),
{
}

/// Where the fields stand in the stored form.
pub proof fn law_layout(a: Superblock, stored: Vec<u8>)
    requires
        a.wf(),
        call_ensures(Superblock::to_bytes, (&a,), stored),
    ensures
        stored@.len() == 4096,
        stored@.subrange(0, 32) == a.checksum@,
        stored@.subrange(32, 64) == a.parent@,
        le::le_value(stored@.subrange(64, 66)) == a.copy,
        le::le_value(stored@.subrange(66, 68)) == a.version,
        le::le_value(stored@.subrange(68, 72)) == a.features,
        le::le_value(stored@.subrange(72, 80)) == a.sequence,
        stored@.subrange(80, 112) == a.database_identity@,
        stored@.subrange(112, 144) == a.free_set_blocks_acquired.checksum@,
        le::le_value(stored@.subrange(144, 152)) == a.free_set_blocks_acquired.address,
        le::le_value(stored@.subrange(152, 160)) == a.free_set_blocks_acquired.padding,
        stored@.subrange(160, 192) == a.free_set_blocks_released.checksum@,
        le::le_value(stored@.subrange(192, 200)) == a.free_set_blocks_released.address,
        le::le_value(stored@.subrange(200, 208)) == a.free_set_blocks_released.padding,
        stored@.subrange(208, 240) == a.sealed_snapshot@,
        stored@.subrange(240, 4096) == a.reserved@,
{
    superblock::lemma_fields(a);
    le::lemma_le_bounds();
    le::lemma_le_value_of_bytes(a.copy as nat, 2);
    le::lemma_le_value_of_bytes(a.version as nat, 2);
    le::lemma_le_value_of_bytes(a.features as nat, 4);
    le::lemma_le_value_of_bytes(a.sequence as nat, 8);
    let p = a.free_set_blocks_acquired;
    let q = a.free_set_blocks_released;
    crate::laws::block::law_layout_of_reference(p);
    crate::laws::block::law_layout_of_reference(q);
    assert(stored@.subrange(112, 144) =~= p.bytes().subrange(0, 32));
    assert(stored@.subrange(144, 152) =~= p.bytes().subrange(32, 40));
    assert(stored@.subrange(152, 160) =~= p.bytes().subrange(40, 48));
    assert(stored@.subrange(160, 192) =~= q.bytes().subrange(0, 32));
    assert(stored@.subrange(200, 208) =~= q.bytes().subrange(40, 48));
    assert(stored@.subrange(192, 200) =~= q.bytes().subrange(32, 40));
}

/// Reading the stored form of a superblock gives back the superblock.
pub proof fn law_stored_form_is_read_back(
    a: Superblock,
    stored: Vec<u8>,
    s: &[u8],
    b: Superblock,
)
    requires
        a.wf(),
        call_ensures(Superblock::to_bytes, (&a,), stored),
        s@ == stored@,
        call_ensures(Superblock::from_bytes, (s,), b),
    ensures
        b.copy == a.copy,
        b.checksum == a.checksum,
        b.parent == a.parent,
        b.version == a.version,
        b.features == a.features,
        b.sequence == a.sequence,
        b.database_identity == a.database_identity,
        b.free_set_blocks_acquired == a.free_set_blocks_acquired,
        b.free_set_blocks_released == a.free_set_blocks_released,
        b.sealed_snapshot == a.sealed_snapshot,
        b.reserved@ == a.reserved@,
{
    superblock::law_stored_superblock_is_unique(a, b);
}

/// Superblocks compare equal if all their fields are equal but for the number of
/// the copy.
pub proof fn law_equal_but_for_the_copy(a: Superblock, b: Superblock, r: bool)
    requires
        call_ensures(Superblock::eq_without_copy, (&a, &b), r),
    ensures
        r <==> a.checksum == b.checksum && a.parent == b.parent && a.version == b.version
            && a.features == b.features && a.sequence == b.sequence && a.database_identity
            == b.database_identity && a.free_set_blocks_acquired == b.free_set_blocks_acquired
            && a.free_set_blocks_released == b.free_set_blocks_released && a.sealed_snapshot
            == b.sealed_snapshot && a.reserved@ == b.reserved@,
{
}

/// Each copy gets its number and a place of its own, and nothing else changes.
pub proof fn law_copies_are_numbered_and_placed(offsets: Vec<u64>)
    ensures
        forall|copies: &mut Vec<Superblock>, i: int|
            #![trigger call_ensures(Superblock::store, (copies,), offsets), copies@[i]]
            call_ensures(Superblock::store, (copies,), offsets) && 0 <= i < 4 ==> {
                &&& offsets@.len() == 4
                &&& offsets@[i] == 4096 * (i + 1)
                &&& final(copies)@.len() == 4
                &&& final(copies)@[i].copy == i + 1
                &&& final(copies)@[i] == (Superblock { copy: (i + 1) as u16, ..copies@[i] })
            },
{
    assert forall|copies: &mut Vec<Superblock>, i: int|
        #![trigger call_ensures(Superblock::store, (copies,), offsets), copies@[i]]
        call_ensures(Superblock::store, (copies,), offsets) && 0 <= i < 4 implies {
        &&& offsets@.len() == 4
        &&& offsets@[i] == 4096 * (i + 1)
        &&& final(copies)@.len() == 4
        &&& final(copies)@[i].copy == i + 1
        &&& final(copies)@[i] == (Superblock { copy: (i + 1) as u16, ..copies@[i] })
    } by {
        assert(offsets@[i] == crate::datafile::spec_superblock_offset((i + 1) as u16));
        assert(final(copies)@[i] == (Superblock { copy: (i + 1) as u16, ..copies@[i] }));
    }
}

/// The checksum of a superblock is the hash of its stored form behind the checksum.
pub proof fn law_checksum_of_superblock(a: Superblock, stored: Vec<u8>, r: Checksum)
    requires
        a.wf(),
        call_ensures(Superblock::to_bytes, (&a,), stored),
        call_ensures(Superblock::compute_checksum, (&a,), r),
    ensures
        r@ == blake3_hash(stored@.skip(32)),
{
    superblock::lemma_fields(a);
    Checksum::lemma_view(a.checksum, a.checksum);
    assert(stored@.skip(32) =~= a.checked_bytes());
}

} // verus!
