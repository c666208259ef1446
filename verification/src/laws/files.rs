//! What is promised of files.

use vstd::prelude::*;
use vstd::string::*;

use crate::checksum::Checksum;
use crate::commitlog::repo::fs;
use crate::commitlog::repo::fs::{CreateStep, SegmentStats, SizeOnDisk, Stat};
use crate::commitlog::repo::mem::Segment;
use crate::commitlog::repo::SegmentWriter;
use crate::commitlog::Options;
use crate::datafile;
use crate::free_set::Reservation;
use crate::grid::block::BlockRef;
use crate::io::{Error, ErrorKind};
use crate::laws::data::{are_digits, is_decimal, lemma_is_decimal, lemma_value, number_of};
use crate::laws::writer::is_written;
use crate::manifest::BlobRef;
use crate::text;

verus! {

/// What the names of the files of segments end with.
pub open spec fn suffix() -> Seq<char> {
    seq!['.', 's', 't', 'd', 'b', '.', 'l', 'o', 'g']
}

proof fn lemma_suffix()
    ensures
        ".stdb.log"@ == suffix(),
{
    reveal_strlit(".stdb.log");
    assert(".stdb.log"@ =~= suffix());
}

/// Whether `name` is the name of the file of the segment that starts with
/// `offset`: a number, maybe with a plus sign, and the suffix.
pub open spec fn is_name_of(name: Seq<char>, offset: u64) -> bool {
    let stem = name.take(name.len() - 9);
    let digits = if stem.len() > 0 && stem[0] == '+' {
        stem.skip(1)
    } else {
        stem
    };
    &&& name.len() >= 9
    &&& name.skip(name.len() - 9) == suffix()
    &&& digits.len() > 0
    &&& are_digits(digits)
    &&& number_of(digits) == offset
}

proof fn lemma_offset_of(name: Seq<char>)
    ensures
        forall|offset: u64| fs::offset_of(name) == Some(offset) <==> #[trigger] is_name_of(
            name,
            offset,
        ),
{
    lemma_suffix();
    if name.len() >= 9 {
        let stem = name.take(name.len() - 9);
        let digits = if stem.len() > 0 && stem[0] == '+' {
            stem.skip(1)
        } else {
            stem
        };
        assert(stem.len() > 0 ==> stem.skip(1) =~= stem.drop_first());
        assert(are_digits(digits) <==> text::all_digits(digits));
        if are_digits(digits) {
            lemma_value(digits);
        }
    }
}

/// The file of a segment is named by twenty digits and the suffix, and its name
/// tells the offset.
pub proof fn law_name_of_segment(offset: u64, r: String)
    requires
        call_ensures(fs::segment_file_name, (offset,), r),
    ensures
        r@.len() == 29,
        are_digits(r@.take(20)),
        number_of(r@.take(20)) == offset,
        r@.skip(20) == suffix(),
        is_name_of(r@, offset),
{
    lemma_suffix();
    fs::law_file_name_tells_the_offset(offset);
    lemma_offset_of(r@);
    let digits = fs::fixed_width(offset as nat, 20);
    lemma_fixed_width_len(offset as nat, 20);
    assert(r@.skip(20) =~= suffix());
    assert(r@.take(20) =~= digits);
    assert(is_name_of(r@, offset));
    assert(r@.take(r@.len() - 9) =~= digits);
    assert(digits[0] != '+');
}

proof fn lemma_fixed_width_len(n: nat, width: nat)
    ensures
        fs::fixed_width(n, width).len() == width,
        are_digits(fs::fixed_width(n, width)),
    decreases width,
{
    if width > 0 {
        lemma_fixed_width_len(n / 10, (width - 1) as nat);
    }
}

/// The offset of a segment is told by the name of its file. Other files are no
/// segments.
pub proof fn law_offset_of_segment(name: &str, r: Option<u64>)
    requires
        call_ensures(fs::segment_offset, (name,), r),
    ensures
        match r {
            Some(offset) => is_name_of(name@, offset),
            None => forall|offset: u64| !is_name_of(name@, offset),
        },
{
    lemma_offset_of(name@);
    if let Some(offset) = r {
        assert(is_name_of(name@, offset));
    }
}

/// The number of files that are named as the segment that starts with `offset`.
pub open spec fn times_named(names: Seq<String>, offset: u64) -> nat
    decreases names.len(),
{
    if names.len() == 0 {
        0
    } else {
        times_named(names.drop_last(), offset) + if is_name_of(names.last()@, offset) {
            1nat
        } else {
            0
        }
    }
}

proof fn lemma_offsets_of(names: Seq<String>, n: nat, offset: u64)
    requires
        n <= names.len(),
    ensures
        fs::offsets_of(names, n).count(offset) == times_named(names.take(n as int), offset),
    decreases n,
{
    if n > 0 {
        lemma_offsets_of(names, (n - 1) as nat, offset);
        let t = names.take(n as int);
        assert(t.drop_last() =~= names.take(n - 1));
        assert(t.last() == names[n - 1]);
        lemma_offset_of(names[n - 1]@);
        assert(is_name_of(names[n - 1]@, offset) <==> fs::offset_of(names[n - 1]@) == Some(
            offset,
        ));
    }
}

/// The segments among some files are found, each as often as it is named, in
/// ascending order.
pub proof fn law_segments_are_listed(names: Vec<String>, r: Vec<u64>)
    requires
        call_ensures(fs::existing_offsets, (&names,), r),
    ensures
        forall|i: int, j: int| 0 <= i < j < r@.len() ==> #[trigger] r@[i] <= #[trigger] r@[j],
        forall|offset: u64| #[trigger]
            r@.to_multiset().count(offset) == times_named(names@, offset),
        forall|offset: u64| #[trigger]
            r@.contains(offset) <==> exists|i: int|
                0 <= i < names@.len() && is_name_of((#[trigger] names@[i])@, offset),
{
    assert forall|offset: u64| #[trigger]
        r@.to_multiset().count(offset) == times_named(names@, offset) by {
        lemma_offsets_of(names@, names@.len(), offset);
        assert(names@.take(names@.len() as int) =~= names@);
    }
    assert forall|offset: u64| #[trigger]
        r@.contains(offset) <==> exists|i: int|
            0 <= i < names@.len() && is_name_of((#[trigger] names@[i])@, offset) by {
        r@.to_multiset_ensures();
        fs::law_segments_are_found(names@, names@.len(), offset);
        assert(r@.contains(offset) <==> r@.to_multiset().count(offset) > 0);
        assert forall|i: int| 0 <= i < names@.len() implies (is_name_of(
            (#[trigger] names@[i])@,
            offset,
        ) <==> fs::offset_of(names@[i]@) == Some(offset)) by {
            lemma_offset_of(names@[i]@);
            assert(is_name_of(names@[i]@, offset) <==> fs::offset_of(names@[i]@) == Some(offset));
        }
    }
}

/// Sizes are added up.
pub proof fn law_sizes_are_added(stat: Stat, len: u64, zero: SizeOnDisk)
    ensures
        call_ensures(<SizeOnDisk as Default>::default, (), zero) ==> zero.total_bytes == 0
            && zero.total_blocks == 0,
        forall|size: &mut SizeOnDisk|
            #![trigger call_ensures(SizeOnDisk::add, (size, stat), ())]
            size.total_bytes + stat.len <= u64::MAX && size.total_blocks + stat.blocks <= u64::MAX
                && call_ensures(SizeOnDisk::add, (size, stat), ()) ==> final(size).total_bytes
                == size.total_bytes + stat.len && final(size).total_blocks == size.total_blocks
                + stat.blocks,
        forall|size: &mut SizeOnDisk|
            #![trigger call_ensures(SizeOnDisk::add_len, (size, len), ())]
            size.total_bytes + len <= u64::MAX && call_ensures(SizeOnDisk::add_len, (size, len), ())
                ==> {
                let (bytes, blocks) = (final(size).total_bytes, final(size).total_blocks);
                &&& bytes == size.total_bytes + len
                &&& blocks % 8 == 0
                &&& 512 * blocks >= bytes
                &&& 512 * blocks < bytes + 4096
            },
{
}

/// The sizes of the segments and of those indexes that there are.
pub open spec fn sum_of_lens(stats: Seq<SegmentStats>) -> int
    decreases stats.len(),
{
    if stats.len() == 0 {
        0
    } else {
        let s = stats.last();
        sum_of_lens(stats.drop_last()) + (if s.segment is Ok {
            s.segment->Ok_0.len as int
        } else {
            0
        }) + (if s.index is Ok {
            s.index->Ok_0.len as int
        } else {
            0
        })
    }
}

/// The blocks of the segments and of those indexes that there are.
pub open spec fn sum_of_blocks(stats: Seq<SegmentStats>) -> int
    decreases stats.len(),
{
    if stats.len() == 0 {
        0
    } else {
        let s = stats.last();
        sum_of_blocks(stats.drop_last()) + (if s.segment is Ok {
            s.segment->Ok_0.blocks as int
        } else {
            0
        }) + (if s.index is Ok {
            s.index->Ok_0.blocks as int
        } else {
            0
        })
    }
}

proof fn lemma_sums(stats: Seq<SegmentStats>, n: nat)
    requires
        n <= stats.len(),
    ensures
        fs::total_len(stats, n) == sum_of_lens(stats.take(n as int)),
        fs::total_blocks(stats, n) == sum_of_blocks(stats.take(n as int)),
    decreases n,
{
    if n > 0 {
        lemma_sums(stats, (n - 1) as nat);
        let t = stats.take(n as int);
        assert(t.drop_last() =~= stats.take(n - 1));
        assert(t.last() == stats[n - 1]);
    }
}

/// Whether the size of a segment is known: that of its file, and that of its index
/// unless there is none.
pub open spec fn is_known(s: SegmentStats) -> bool {
    s.segment is Ok && (s.index is Ok || s.index->Err_0.kind == ErrorKind::NotFound)
}

/// The size of a directory of segments is that of all segments and indexes. It is
/// known if that of each segment is, and otherwise what is wrong with the first
/// one is told.
pub proof fn law_size_of_directory(stats: Vec<SegmentStats>, r: Result<SizeOnDisk, Error>)
    requires
        call_ensures(fs::size_on_disk, (stats,), r),
    ensures
        match r {
            Ok(size) => {
                &&& forall|i: int| 0 <= i < stats@.len() ==> is_known(#[trigger] stats@[i])
                &&& size.total_bytes == sum_of_lens(stats@)
                &&& size.total_blocks == sum_of_blocks(stats@)
            },
            Err(e) => exists|i: int|
                {
                    &&& 0 <= i < stats@.len()
                    &&& !is_known(#[trigger] stats@[i])
                    &&& forall|j: int| 0 <= j < i ==> is_known(#[trigger] stats@[j])
                    &&& if stats@[i].segment is Err {
                        e == stats@[i].segment->Err_0
                    } else {
                        e == stats@[i].index->Err_0
                    }
                },
        },
{
    lemma_sums(stats@, stats@.len());
    assert(stats@.take(stats@.len() as int) =~= stats@);
}

/// A segment whose file was there already is opened again. Other errors stay.
pub proof fn law_segment_is_created(outcome: Result<(), Error>, r: CreateStep)
    requires
        call_ensures(fs::create_segment, (outcome,), r),
    ensures
        match r {
            CreateStep::Created => outcome is Ok,
            CreateStep::Reopen => outcome matches Err(e) && e.kind == ErrorKind::AlreadyExists,
            CreateStep::Failed(said) => outcome matches Err(e) && e.kind != ErrorKind::AlreadyExists
                && said == e,
        },
{
}

/// Only an empty file can be used for a new segment.
pub proof fn law_segment_is_resumed(
    repo: &str,
    offset: u64,
    segment_len: u64,
    r: Result<(), Error>,
)
    requires
        call_ensures(fs::resume_segment, (repo, offset, segment_len), r),
    ensures
        r is Ok <==> segment_len == 0,
        r matches Err(e) ==> e.kind == ErrorKind::AlreadyExists && exists|s: Seq<char>| #[trigger]
            is_decimal(s, offset as int) && e.message@ == "repo "@ + repo@ + ": segment "@ + s
                + " already exists and is non-empty"@,
{
    lemma_is_decimal(offset as nat);
}

/// A segment in memory holds what is written to it, where it is written, as long
/// as there is room.
pub proof fn law_segment_in_memory(
    max_len: u64,
    limited: Segment,
    unlimited: Segment,
    bytes: &[u8],
    buf: &[u8],
    offset: u64,
    r: Result<(), Error>,
)
    ensures
        call_ensures(Segment::new, (max_len,), limited) ==> limited.contents().len() == 0
            && limited.max_len() == max_len,
        call_ensures(Segment::unlimited, (), unlimited) ==> unlimited.contents().len() == 0
            && unlimited.max_len() == u64::MAX,
        call_ensures(Segment::as_slice, (&limited,), bytes) ==> bytes@ == limited.contents(),
        forall|s: &mut Segment|
            #![trigger call_ensures(<Segment as SegmentWriter>::pwrite_all, (s, buf, offset), r)]
            call_ensures(<Segment as SegmentWriter>::pwrite_all, (s, buf, offset), r) ==> {
                let (v, w) = ((*s).contents(), (*final(s)).contents());
                &&& (*final(s)).max_len() == (*s).max_len()
                &&& r is Ok <==> buf@.len() == 0 || offset + buf@.len() <= (*s).max_len() && offset
                    + buf@.len() <= usize::MAX
                &&& r is Ok ==> is_written(v, w, buf@, offset as int)
                &&& r matches Err(e) ==> e.kind == ErrorKind::StorageFull && w == v
            },
        call_ensures(<Segment as SegmentWriter>::fdatasync, (&limited,), r) ==> r is Ok,
{
}

/// The copies of the superblock stand one after the other.
pub proof fn law_place_of_superblock(copy: u16, r: u64)
    requires
        call_ensures(datafile::superblock_offset, (copy,), r),
    ensures
        r == 4096 * copy,
{
}

/// The data file has room for all reserved blocks, in steps of ten mebibytes, and
/// no step more than it takes.
pub proof fn law_capacity_of_datafile(reservations: Vec<&Reservation>, r: u64)
    requires
        reservations@.len() > 0,
        call_ensures(datafile::ensure_capacity, (&reservations,), r),
    ensures
        r % 10485760 == 0,
        forall|i: int|
            0 <= i < reservations@.len() ==> 65536 * (#[trigger] reservations@[i])@.end <= r,
        r == 0 || exists|i: int|
            0 <= i < reservations@.len() && r < 65536 * (#[trigger] reservations@[i])@.end
                + 10485760,
{
    let n = reservations@.len();
    assert forall|i: int| 0 <= i < n implies 65536 * (#[trigger] reservations@[i])@.end <= r by {
        datafile::law_capacity_holds_all_reserved_blocks(reservations@, i);
    }
    datafile::law_capacity_holds_all_reserved_blocks(reservations@, 0);
    lemma_highest_end_is_one(reservations@, n);
}

proof fn lemma_highest_end_is_one(reservations: Seq<&Reservation>, n: nat)
    requires
        n <= reservations.len(),
    ensures
        datafile::highest_end(reservations, n) == 0 || exists|i: int|
            0 <= i < n && (#[trigger] reservations[i])@.end == datafile::highest_end(
                reservations,
                n,
            ),
    decreases n,
{
    if n > 0 {
        lemma_highest_end_is_one(reservations, (n - 1) as nat);
        assert(reservations[n - 1]@.end == reservations[n - 1]@.end);
    }
}

/// Without more said, an index entry is written every 4096 bytes, and at once.
pub proof fn law_default_options(r: Options)
    requires
        call_ensures(<Options as Default>::default, (), r),
    ensures
        r.offset_index_interval_bytes == 4096,
        !r.offset_index_require_segment_fsync,
{
}

/// A reference to a blob holds what it is made of.
pub proof fn law_reference_to_blob(
    checksum: Checksum,
    len: u32,
    refcount: u32,
    block: BlockRef,
    r: BlobRef,
)
    requires
        call_ensures(BlobRef::new, (checksum, len, refcount, block), r),
    ensures
        r.checksum == checksum,
        r.len == len,
        r.refcount == refcount,
        r.block == block,
        forall|i: int| 0 <= i < 8 ==> #[trigger] r.reserved@[i] == 0,
{
}

} // verus!
