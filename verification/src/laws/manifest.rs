//! What is promised of snapshot manifests.

use vstd::prelude::*;

use crate::checksum::Checksum;
use crate::commitlog::repo::mem;
use crate::datafile;
use crate::laws::block::law_layout_of_reference;
use crate::le;
use crate::manifest;
use crate::manifest::{
    BlobRef, BlobsBlock, CommitHeader, PagesBlock, SnapshotHeader, TableEntry, TablesBlock,
};

verus! {

/// The sizes of files, pages and blocks of references.
pub proof fn law_sizes()
    ensures
        datafile::MIN_SIZE == 10 * 1024 * 1024,
        datafile::ALLOC_SIZE == 10 * 1024 * 1024,
        mem::PAGE_SIZE == 4096,
        128 + 16 * manifest::MAX_ENTRIES_PER_TABLES_BLOCK == 512 * 1024,
        80 + 48 * manifest::MAX_ENTRIES_PER_PAGES_BLOCK == 512 * 1024,
        128 + 96 * manifest::MAX_ENTRIES_PER_BLOBS_BLOCK == 512 * 1024,
{
}

/// Where the parts of a commit header stand in its stored form.
pub proof fn law_layout_of_commit_header(h: CommitHeader)
    ensures
        h.bytes().len() == 24,
        le::le_value(h.bytes().subrange(0, 8)) == h.min_tx_offset,
        le::le_value(h.bytes().subrange(8, 12)) == h.epoch,
        le::le_value(h.bytes().subrange(12, 16)) == h.n,
        le::le_value(h.bytes().subrange(16, 20)) == h.len,
        le::le_value(h.bytes().subrange(20, 24)) == h.crc,
{
    le::lemma_le_bounds();
    le::lemma_le_value_of_bytes(h.min_tx_offset as nat, 8);
    le::lemma_le_value_of_bytes(h.epoch as nat, 4);
    le::lemma_le_value_of_bytes(h.n as nat, 4);
    le::lemma_le_value_of_bytes(h.len as nat, 4);
    le::lemma_le_value_of_bytes(h.crc as nat, 4);
    let s = h.bytes();
    assert(s.subrange(0, 8) =~= le::le_bytes(h.min_tx_offset as nat, 8));
    assert(s.subrange(8, 12) =~= le::le_bytes(h.epoch as nat, 4));
    assert(s.subrange(12, 16) =~= le::le_bytes(h.n as nat, 4));
    assert(s.subrange(16, 20) =~= le::le_bytes(h.len as nat, 4));
    assert(s.subrange(20, 24) =~= le::le_bytes(h.crc as nat, 4));
}

/// Where the parts of an entry for a table stand in its stored form.
pub proof fn law_layout_of_table_entry(e: TableEntry)
    ensures
        e.bytes().len() == 16,
        le::le_value(e.bytes().subrange(0, 4)) == e.id,
        le::le_value(e.bytes().subrange(4, 8)) == e.reserved,
        le::le_value(e.bytes().subrange(8, 16)) == e.pages_offset,
{
    le::lemma_le_bounds();
    le::lemma_le_value_of_bytes(e.id as nat, 4);
    le::lemma_le_value_of_bytes(e.reserved as nat, 4);
    le::lemma_le_value_of_bytes(e.pages_offset as nat, 8);
    let s = e.bytes();
    assert(s.subrange(0, 4) =~= le::le_bytes(e.id as nat, 4));
    assert(s.subrange(4, 8) =~= le::le_bytes(e.reserved as nat, 4));
    assert(s.subrange(8, 16) =~= le::le_bytes(e.pages_offset as nat, 8));
}

/// Where the parts of a reference to a blob stand in its stored form.
pub proof fn law_layout_of_blob_reference(b: BlobRef)
    ensures
        b.bytes().len() == 96,
        b.bytes().subrange(0, 32) == b.checksum@,
        le::le_value(b.bytes().subrange(32, 36)) == b.len,
        le::le_value(b.bytes().subrange(36, 40)) == b.refcount,
        b.bytes().subrange(40, 48) == b.reserved@,
        b.bytes().subrange(48, 96) == b.block.bytes(),
{
    le::lemma_le_bounds();
    Checksum::lemma_view(b.checksum, b.checksum);
    law_layout_of_reference(b.block);
    le::lemma_le_value_of_bytes(b.len as nat, 4);
    le::lemma_le_value_of_bytes(b.refcount as nat, 4);
    let s = b.bytes();
    assert(s.subrange(0, 32) =~= b.checksum@);
    assert(s.subrange(32, 36) =~= le::le_bytes(b.len as nat, 4));
    assert(s.subrange(36, 40) =~= le::le_bytes(b.refcount as nat, 4));
    assert(s.subrange(40, 48) =~= b.reserved@);
    assert(s.subrange(48, 96) =~= b.block.bytes());
}

/// Where the parts of the header of a snapshot stand in its stored form.
pub proof fn law_layout_of_snapshot_header(h: SnapshotHeader)
    ensures
        h.bytes().len() == 512,
        h.bytes().subrange(0, 32) == h.checksum@,
        h.bytes().subrange(32, 64) == h.parent@,
        h.bytes().subrange(64, 88) == h.commit.bytes(),
        h.bytes().subrange(88, 120) == h.archive_manifest@,
        h.bytes().subrange(120, 168) == h.tables_block.bytes(),
        h.bytes().subrange(168, 216) == h.pages_block.bytes(),
        h.bytes().subrange(216, 264) == h.blobs_block.bytes(),
        le::le_value(h.bytes().subrange(264, 268)) == h.tables_count,
        le::le_value(h.bytes().subrange(268, 272)) == h.pages_count,
        le::le_value(h.bytes().subrange(272, 276)) == h.blobs_count,
        h.bytes().subrange(276, 492) == h.reserved@,
        forall|i: int| 492 <= i < 512 ==> #[trigger] h.bytes()[i] == 0,
{
    le::lemma_le_bounds();
    Checksum::lemma_view(h.checksum, h.checksum);
    Checksum::lemma_view(h.parent, h.parent);
    Checksum::lemma_view(h.archive_manifest, h.archive_manifest);
    law_layout_of_commit_header(h.commit);
    law_layout_of_reference(h.tables_block);
    law_layout_of_reference(h.pages_block);
    law_layout_of_reference(h.blobs_block);
    le::lemma_le_value_of_bytes(h.tables_count as nat, 4);
    le::lemma_le_value_of_bytes(h.pages_count as nat, 4);
    le::lemma_le_value_of_bytes(h.blobs_count as nat, 4);
    let s = h.bytes();
    assert(s.subrange(0, 32) =~= h.checksum@);
    assert(s.subrange(32, 64) =~= h.parent@);
    assert(s.subrange(64, 88) =~= h.commit.bytes());
    assert(s.subrange(88, 120) =~= h.archive_manifest@);
    assert(s.subrange(120, 168) =~= h.tables_block.bytes());
    assert(s.subrange(168, 216) =~= h.pages_block.bytes());
    assert(s.subrange(216, 264) =~= h.blobs_block.bytes());
    assert(s.subrange(264, 268) =~= le::le_bytes(h.tables_count as nat, 4));
    assert(s.subrange(268, 272) =~= le::le_bytes(h.pages_count as nat, 4));
    assert(s.subrange(272, 276) =~= le::le_bytes(h.blobs_count as nat, 4));
    assert(s.subrange(276, 492) =~= h.reserved@);
}

/// A block of references starts with the reference to its parent and the number of
/// its entries. The entries stand one after the other at its end.
pub proof fn law_layout_of_blocks(
    tables: TablesBlock,
    pages: PagesBlock,
    blobs: BlobsBlock,
    i: int,
)
    ensures
        tables.bytes().take(48) == tables.parent.bytes(),
        le::le_value(tables.bytes().subrange(48, 52)) == tables.entries_count,
        0 <= i < 32760 ==> tables.bytes().subrange(128 + 16 * i, 128 + 16 * i + 16)
            == tables.entries@[i].bytes(),
        pages.bytes().take(48) == pages.parent.bytes(),
        le::le_value(pages.bytes().subrange(48, 52)) == pages.entries_count,
        0 <= i < 10921 ==> pages.bytes().subrange(80 + 48 * i, 80 + 48 * i + 48)
            == pages.entries@[i].bytes(),
        blobs.bytes().take(48) == blobs.parent.bytes(),
        le::le_value(blobs.bytes().subrange(48, 52)) == blobs.entries_count,
        0 <= i < 5460 ==> blobs.bytes().subrange(128 + 96 * i, 128 + 96 * i + 96)
            == blobs.entries@[i].bytes(),
{
    le::lemma_le_bounds();
    law_layout_of_reference(tables.parent);
    law_layout_of_reference(pages.parent);
    law_layout_of_reference(blobs.parent);
    le::lemma_le_value_of_bytes(tables.entries_count as nat, 4);
    le::lemma_le_value_of_bytes(pages.entries_count as nat, 4);
    le::lemma_le_value_of_bytes(blobs.entries_count as nat, 4);
    assert(tables.bytes().take(48) =~= tables.parent.bytes());
    assert(pages.bytes().take(48) =~= pages.parent.bytes());
    assert(blobs.bytes().take(48) =~= blobs.parent.bytes());
    assert(tables.bytes().subrange(48, 52) =~= le::le_bytes(tables.entries_count as nat, 4));
    assert(pages.bytes().subrange(48, 52) =~= le::le_bytes(pages.entries_count as nat, 4));
    assert(blobs.bytes().subrange(48, 52) =~= le::le_bytes(blobs.entries_count as nat, 4));
    if 0 <= i < 32760 {
        law_layout_of_table_entry(tables.entries@[i]);
        assert(tables.bytes().subrange(128 + 16 * i, 128 + 16 * i + 16)
            =~= tables.entries@[i].bytes());
    }
    if 0 <= i < 10921 {
        law_layout_of_reference(pages.entries@[i]);
        assert(pages.bytes().subrange(80 + 48 * i, 80 + 48 * i + 48)
            =~= pages.entries@[i].bytes());
    }
    if 0 <= i < 5460 {
        law_layout_of_blob_reference(blobs.entries@[i]);
        assert(blobs.bytes().subrange(128 + 96 * i, 128 + 96 * i + 96)
            =~= blobs.entries@[i].bytes());
    }
}

} // verus!
