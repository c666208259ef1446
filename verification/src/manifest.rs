//! References that a snapshot manifest is made of.

use vstd::prelude::*;

use crate::checksum::Checksum;
use crate::grid::block::BlockRef;
use crate::le;

verus! {

/// Identifies a table.
pub type TableId = u32;

/// The header of a commit, as a snapshot refers to it.
#[derive(Clone, Copy, Debug)]
pub struct CommitHeader {
    pub min_tx_offset: u64,
    pub epoch: u32,
    pub n: u32,
    pub len: u32,
    pub crc: u32,
}

impl CommitHeader {
    /// The stored form: the fields in order.
    pub open spec fn bytes(self) -> Seq<u8> {
        le::le_bytes(self.min_tx_offset as nat, 8) + le::le_bytes(self.epoch as nat, 4)
            + le::le_bytes(self.n as nat, 4) + le::le_bytes(self.len as nat, 4) + le::le_bytes(
            self.crc as nat,
            4,
        )
    }
}

/// Header of a snapshot manifest.
///
/// Snapshots form a hash-chained log.
/// The page / blob references are stored separate from the header in
/// fixed-length, hash-chained blocks.
#[derive(Debug)]
pub struct SnapshotHeader {
    /// Checksum of all of the below.
    pub checksum: Checksum,
    /// Checksum of the previous [Self].
    pub parent: Checksum,
    /// Commit at which this snapshot was taken.
    ///
    /// The commit describes the state the snapshot captures, it
    /// corresponds to the snapshot trigger (not the deadline).
    pub commit: CommitHeader,
    /// Checksum of the archived form of this snapshot.
    ///
    /// This checksum is computed while sealing the snapshot. It does not
    /// indicate that the snapshot was actually archived.
    pub archive_manifest: Checksum,
    /// The [TablesBlock] that stores the [TableEntry]s for this snapshot.
    pub tables_block: BlockRef,
    /// The [PagesBlock] that stores the [BlockRef]s for the physical pages
    /// referenced by this snapshot.
    pub pages_block: BlockRef,
    /// The [BlobsBlock] that stores the [BlobRef]s for the physical blobs
    /// referenced by this snapshots.
    pub blobs_block: BlockRef,
    /// Total number of tables in this snapshot.
    pub tables_count: u32,
    /// Total number of pages in this snapshot.
    pub pages_count: u32,
    /// Total number of blobs in this snapshot.
    pub blobs_count: u32,
    pub reserved: [u8; 216],
}

impl SnapshotHeader {
    /// The stored form: the fields in order, and zeros up to the size of a
    /// sector.
    pub open spec fn bytes(self) -> Seq<u8> {
        le::zero_padded(
            self.checksum@ + self.parent@ + self.commit.bytes() + self.archive_manifest@
                + self.tables_block.bytes() + self.pages_block.bytes() + self.blobs_block.bytes()
                + le::le_bytes(self.tables_count as nat, 4) + le::le_bytes(
                self.pages_count as nat,
                4,
            ) + le::le_bytes(self.blobs_count as nat, 4) + self.reserved@,
            512,
        )
    }
}

/// Describes a table and its allocated pages.
#[derive(Clone, Copy, Debug)]
pub struct TableEntry {
    /// The table.
    pub id: TableId,
    pub reserved: u32,
    /// The offset into the [BlockRef]s across all [PagesBlock]s where the page
    /// entries for this table start.
    pub pages_offset: u64,
}

impl TableEntry {
    /// The stored form: the fields in order.
    pub open spec fn bytes(self) -> Seq<u8> {
        le::le_bytes(self.id as nat, 4) + le::le_bytes(self.reserved as nat, 4) + le::le_bytes(
            self.pages_offset as nat,
            8,
        )
    }
}

pub const MAX_ENTRIES_PER_TABLES_BLOCK: usize = 32760;

/// A 512KiB block that stores [TableEntry]s.
#[derive(Debug)]
pub struct TablesBlock {
    /// If there are more table entries than fit in a block, this references a
    /// parent block containing more entries. Zero if there are no more
    /// [TablesBlock]s.
    pub parent: BlockRef,
    /// Number of [TableEntry]s in this block (**not** the total number of
    /// tables).
    pub entries_count: u32,
    pub reserved: [u8; 76],
    /// The table entries.
    pub entries: [TableEntry; MAX_ENTRIES_PER_TABLES_BLOCK],
}

impl TablesBlock {
    /// The stored form: the fields in order, and the entries one after the
    /// other.
    pub open spec fn bytes(self) -> Seq<u8> {
        self.parent.bytes() + le::le_bytes(self.entries_count as nat, 4) + self.reserved@
            + Seq::new(
            (16 * self.entries@.len()) as nat,
            |i: int| self.entries@[i / 16].bytes()[i % 16],
        )
    }
}

pub const MAX_ENTRIES_PER_PAGES_BLOCK: usize = 10921;

/// A 512KiB block that stores references to pages.
#[derive(Debug)]
pub struct PagesBlock {
    /// If there are more page entries than fit in a block, this references a
    /// parent block containing more entries. Zero if there are no more
    /// [PagesBlock]s.
    pub parent: BlockRef,
    /// Number of [BlockRef]s in this block.
    pub entries_count: u32,
    pub reserved: [u8; 28],
    /// The [BlockRef] entries.
    pub entries: [BlockRef; MAX_ENTRIES_PER_PAGES_BLOCK],
}

impl PagesBlock {
    /// The stored form: the fields in order, and the entries one after the
    /// other.
    pub open spec fn bytes(self) -> Seq<u8> {
        self.parent.bytes() + le::le_bytes(self.entries_count as nat, 4) + self.reserved@
            + Seq::new(
            (48 * self.entries@.len()) as nat,
            |i: int| self.entries@[i / 48].bytes()[i % 48],
        )
    }
}

pub const MAX_ENTRIES_PER_BLOBS_BLOCK: usize = 5460;

/// A 512KiB block that stores [BlobRef]s.
#[derive(Debug)]
pub struct BlobsBlock {
    /// If there are more blob entries than fit in a block, this references a
    /// parent block containing more entries. Zero if there are no more
    /// [BlobsBlock]s.
    pub parent: BlockRef,
    /// Number of [BlobRef]s in this block.
    pub entries_count: u32,
    pub reserved: [u8; 76],
    /// The [BlobRef] entries.
    pub entries: [BlobRef; MAX_ENTRIES_PER_BLOBS_BLOCK],
}

impl BlobsBlock {
    /// The stored form: the fields in order, and the entries one after the
    /// other.
    pub open spec fn bytes(self) -> Seq<u8> {
        self.parent.bytes() + le::le_bytes(self.entries_count as nat, 4) + self.reserved@
            + Seq::new(
            (96 * self.entries@.len()) as nat,
            |i: int| self.entries@[i / 96].bytes()[i % 96],
        )
    }
}

/// A reference to a blob.
#[derive(Debug)]
pub struct BlobRef {
    /// Checksum of the complete blob.
    pub checksum: Checksum,
    /// The size in bytes of the complete blob.
    pub len: u32,
    /// Number of times this block is referenced from tables.
    pub refcount: u32,
    pub reserved: [u8; 8],
    /// Reference to the "head" block of the blob.
    pub block: BlockRef,
}

impl BlobRef {
    /// The stored form: the fields in order.
    pub open spec fn bytes(self) -> Seq<u8> {
        self.checksum@ + le::le_bytes(self.len as nat, 4) + le::le_bytes(self.refcount as nat, 4)
            + self.reserved@ + self.block.bytes()
    }

    pub fn new(checksum: Checksum, len: u32, refcount: u32, block: BlockRef) -> (r: Self)
        ensures
            r.checksum == checksum,
            r.len == len,
            r.refcount == refcount,
            r.reserved@ == Seq::new(8, |i: int| 0u8),
            r.block == block,
    {
        let reserved: [u8; 8] = [0; 8];
        assert(reserved@ =~= Seq::new(8, |i: int| 0u8));
        Self { checksum, len, refcount, reserved, block }
    }
}

proof fn lemma_field_lens(a: nat, b: nat)
    ensures
        le::le_bytes(a, 4).len() == 4,
        le::le_bytes(b, 8).len() == 8,
{
    le::lemma_le_bytes_len(a, 4);
    le::lemma_le_bytes_len(b, 8);
}

/// The sizes of the stored forms of references and headers.
pub proof fn law_sizes_of_references(
    commit: CommitHeader,
    snapshot: SnapshotHeader,
    table: TableEntry,
    blob: BlobRef,
)
    ensures
        commit.bytes().len() == 24,
        snapshot.bytes().len() == 512,
        table.bytes().len() == 16,
        blob.bytes().len() == 96,
{
    lemma_field_lens(commit.epoch as nat, commit.min_tx_offset as nat);
    lemma_field_lens(commit.n as nat, 0);
    lemma_field_lens(commit.len as nat, 0);
    lemma_field_lens(commit.crc as nat, 0);
    lemma_field_lens(table.id as nat, table.pages_offset as nat);
    lemma_field_lens(table.reserved as nat, 0);
    lemma_field_lens(blob.len as nat, 0);
    lemma_field_lens(blob.refcount as nat, 0);
    blob.block.lemma_bytes_len();
    Checksum::lemma_view(blob.checksum, blob.checksum);
}

/// Blocks of references take 512 KiB each when they are stored.
pub proof fn law_sizes_of_blocks(tables: TablesBlock, pages: PagesBlock, blobs: BlobsBlock)
    ensures
        tables.bytes().len() == 512 * 1024,
        pages.bytes().len() == 512 * 1024,
        blobs.bytes().len() == 512 * 1024,
{
    lemma_field_lens(tables.entries_count as nat, 0);
    lemma_field_lens(pages.entries_count as nat, 0);
    lemma_field_lens(blobs.entries_count as nat, 0);
    tables.parent.lemma_bytes_len();
    pages.parent.lemma_bytes_len();
    blobs.parent.lemma_bytes_len();
}

} // verus!
