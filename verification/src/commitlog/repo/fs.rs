//! Segments in the files of a directory: what is decided from what the file
//! system says.

use vstd::multiset::Multiset;
use vstd::prelude::*;
use vstd::string::*;

use crate::io::{Error, ErrorKind};
use crate::text;

verus! {

/// The digits of `n`, in `width` places.
pub open spec fn fixed_width(n: nat, width: nat) -> Seq<char>
    decreases width,
{
    if width == 0 {
        Seq::empty()
    } else {
        fixed_width(n / 10, (width - 1) as nat).push(text::digit(n % 10))
    }
}

/// The name of the file of the segment that starts with `offset`.
pub open spec fn file_name(offset: u64) -> Seq<char> {
    fixed_width(offset as nat, 20) + ".stdb.log"@
}

/// The offset that a segment starts with, by the name of its file. `None` if
/// it is not the name of a segment.
pub open spec fn offset_of(name: Seq<char>) -> Option<u64> {
    let ext = ".stdb.log"@;
    if name.len() < ext.len() || name.skip(name.len() - ext.len()) != ext {
        None
    } else {
        text::parsed(name.take(name.len() - ext.len()))
    }
}

fn append_fixed_width(out: &mut String, n: u64, width: u64)
    ensures
        final(out)@ == old(out)@ + fixed_width(n as nat, width as nat),
    decreases width,
{
    if width > 0 {
        append_fixed_width(out, n / 10, width - 1);
        text::append_decimal(out, n % 10);
    }
    assert(out@ =~= old(out)@ + fixed_width(n as nat, width as nat));
}

/// The name of the file of the segment that starts with `offset`.
pub fn segment_file_name(offset: u64) -> (r: String)
    ensures
        r@ == file_name(offset),
{
    let mut out = String::new();
    append_fixed_width(&mut out, offset, 20);
    out.append(".stdb.log");
    assert(out@ =~= file_name(offset));
    out
}

/// The offset that a segment starts with, by the name of its file.
pub fn segment_offset(name: &str) -> (r: Option<u64>)
    ensures
        r == offset_of(name@),
{
    proof {
        reveal_strlit(".stdb.log");
    }
    let ext = ".stdb.log";
    let len = name.unicode_len();
    if len < 9 {
        return None;
    }
    let mut i: usize = 0;
    let ghost tail = name@.skip(len - 9);
    while i < 9
        invariant
            i <= 9 <= len == name@.len(),
            ext@ == ".stdb.log"@,
            ext@.len() == 9,
            tail == name@.skip(len - 9),
            forall|j: int| 0 <= j < i ==> #[trigger] tail[j] == ext@[j],
        decreases 9 - i,
    {
        if name.get_char(len - 9 + i) != ext.get_char(i) {
            assert(tail[i as int] != ext@[i as int]);
            return None;
        }
        i += 1;
    }
    assert(tail =~= ext@);
    let stem = name.substring_char(0, len - 9);
    assert(stem@ =~= name@.take(len - 9));
    text::parse_u64(stem)
}

/// The offsets of the segments among the first `n` files.
pub open spec fn offsets_of(names: Seq<String>, n: nat) -> Multiset<u64>
    decreases n,
{
    if n == 0 {
        Multiset::empty()
    } else {
        let before = offsets_of(names, (n - 1) as nat);
        match offset_of(names[n - 1]@) {
            Some(offset) => before.insert(offset),
            None => before,
        }
    }
}

pub open spec fn sorted(s: Seq<u64>) -> bool {
    forall|i: int, j: int| 0 <= i < j < s.len() ==> #[trigger] s[i] <= #[trigger] s[j]
}

/// The offsets of the segments among the files of a directory, in ascending
/// order. Other files are passed over.
pub fn existing_offsets(names: &Vec<String>) -> (r: Vec<u64>)
    ensures
        sorted(r@),
        r@.to_multiset() == offsets_of(names@, names@.len()),
{
    let mut segments: Vec<u64> = Vec::new();
    let len = names.len();
    let mut i: usize = 0;
    proof {
        segments@.to_multiset_ensures();
        assert(segments@.to_multiset() =~= Multiset::empty());
    }
    while i < len
        invariant
            i <= len == names@.len(),
            sorted(segments@),
            segments@.to_multiset() == offsets_of(names@, i as nat),
        decreases len - i,
    {
        match segment_offset(names[i].as_str()) {
            Some(offset) => {
                let at = position(&segments, offset);
                proof {
                    vstd::seq_lib::to_multiset_insert(segments@, at as int, offset);
                }
                segments.insert(at, offset);
            },
            None => {},
        }
        i += 1;
    }
    segments
}

/// Where to insert `offset` so that the offsets stay sorted.
fn position(segments: &Vec<u64>, offset: u64) -> (r: usize)
    requires
        sorted(segments@),
    ensures
        r <= segments@.len(),
        forall|j: int| 0 <= j < r ==> #[trigger] segments@[j] <= offset,
        forall|j: int| r <= j < segments@.len() ==> #[trigger] segments@[j] > offset,
{
    let mut at: usize = segments.len();
    while at > 0 && segments[at - 1] > offset
        invariant
            at <= segments@.len(),
            sorted(segments@),
            forall|j: int| at <= j < segments@.len() ==> #[trigger] segments@[j] > offset,
        decreases at,
    {
        at -= 1;
    }
    at
}

/// What the file system says of the size of a file.
#[derive(Clone, Copy, Debug)]
pub struct Stat {
    /// The size in bytes.
    pub len: u64,
    /// The number of 512-bytes blocks allocated.
    pub blocks: u64,
}

/// Size on disk of a directory of segments.
#[derive(Clone, Copy, Debug)]
pub struct SizeOnDisk {
    /// The total size in bytes of all segments and offset indexes in the repo.
    pub total_bytes: u64,
    /// The total number of 512-bytes blocks allocated by all segments and
    /// offset indexes in the repo.
    ///
    /// Where the platform does not tell, the number computed from the number of
    /// 4096-bytes pages that would be needed to store `total_bytes`, see
    /// [Self::add_len]. This may or may not reflect the actual storage
    /// allocation.
    ///
    /// The number of allocated blocks is typically larger than the number of
    /// actually written bytes.
    ///
    /// When segments are preallocated, the number can diverge substantially.
    /// Use `total_blocks` in this case to monitor disk space.
    pub total_blocks: u64,
}

impl Default for SizeOnDisk {
    fn default() -> (r: Self)
        ensures
            r == (SizeOnDisk { total_bytes: 0, total_blocks: 0 }),
    {
        SizeOnDisk { total_bytes: 0, total_blocks: 0 }
    }
}

impl SizeOnDisk {
    pub open spec fn fits(self, stat: Stat) -> bool {
        self.total_bytes + stat.len <= u64::MAX && self.total_blocks + stat.blocks <= u64::MAX
    }

    pub open spec fn plus(self, stat: Stat) -> Self {
        SizeOnDisk {
            total_bytes: (self.total_bytes + stat.len) as u64,
            total_blocks: (self.total_blocks + stat.blocks) as u64,
        }
    }

    /// Adds the size of a file.
    pub fn add(&mut self, stat: Stat)
        requires
            old(self).fits(stat),
        ensures
            *final(self) == old(self).plus(stat),
    {
        self.total_bytes = self.total_bytes + stat.len;
        self.total_blocks = self.total_blocks + stat.blocks;
    }

    /// The number of 512-bytes blocks in as many 4096-bytes pages as it takes to
    /// store `bytes` bytes.
    pub open spec fn blocks_in_pages(bytes: u64) -> int {
        8 * ((bytes + 4095) / 4096)
    }

    /// Adds the size of a file where the platform does not tell how many blocks
    /// are allocated.
    pub fn add_len(&mut self, len: u64)
        requires
            old(self).total_bytes + len <= u64::MAX,
        ensures
            final(self).total_bytes == old(self).total_bytes + len,
            final(self).total_blocks == Self::blocks_in_pages(final(self).total_bytes),
    {
        self.total_bytes = self.total_bytes + len;
        let pages: u64 = if self.total_bytes % 4096 == 0 {
            self.total_bytes / 4096
        } else {
            self.total_bytes / 4096 + 1
        };
        self.total_blocks = 8 * pages;
    }
}

/// What the file system says of a segment and of its offset index.
#[derive(Debug)]
pub struct SegmentStats {
    pub segment: Result<Stat, Error>,
    pub index: Result<Stat, Error>,
}

impl SegmentStats {
    /// Why the size of the segment is not known. That there is no index is no
    /// reason.
    pub open spec fn failure(self) -> Option<Error> {
        match (self.segment, self.index) {
            (Err(e), _) => Some(e),
            (Ok(_), Err(e)) => if e.kind == ErrorKind::NotFound {
                None
            } else {
                Some(e)
            },
            _ => None,
        }
    }

    /// The size of the segment and of its index.
    pub open spec fn len(self) -> nat {
        len_of(self.segment) + len_of(self.index)
    }

    /// The number of blocks of the segment and of its index.
    pub open spec fn blocks(self) -> nat {
        blocks_of(self.segment) + blocks_of(self.index)
    }
}

pub open spec fn len_of(stat: Result<Stat, Error>) -> nat {
    match stat {
        Ok(stat) => stat.len as nat,
        Err(_) => 0,
    }
}

pub open spec fn blocks_of(stat: Result<Stat, Error>) -> nat {
    match stat {
        Ok(stat) => stat.blocks as nat,
        Err(_) => 0,
    }
}

/// The size of the first `n` segments and their indexes.
pub open spec fn total_len(stats: Seq<SegmentStats>, n: nat) -> nat
    decreases n,
{
    if n == 0 {
        0
    } else {
        total_len(stats, (n - 1) as nat) + stats[n - 1].len()
    }
}

/// The number of blocks of the first `n` segments and their indexes.
pub open spec fn total_blocks(stats: Seq<SegmentStats>, n: nat) -> nat
    decreases n,
{
    if n == 0 {
        0
    } else {
        total_blocks(stats, (n - 1) as nat) + stats[n - 1].blocks()
    }
}

proof fn lemma_totals_grow(stats: Seq<SegmentStats>, n: nat)
    requires
        n <= stats.len(),
    ensures
        total_len(stats, n) <= total_len(stats, stats.len()),
        total_blocks(stats, n) <= total_blocks(stats, stats.len()),
    decreases stats.len() - n,
{
    if n < stats.len() {
        lemma_totals_grow(stats, n + 1);
    }
}

/// Determine the size on disk as the sum of the sizes of all segments, as well
/// as offset indexes.
///
/// It is an error if the size of a segment is not known, or that of an index
/// for another reason than that there is none.
pub fn size_on_disk(stats: Vec<SegmentStats>) -> (r: Result<SizeOnDisk, Error>)
    requires
        total_len(stats@, stats@.len()) <= u64::MAX,
        total_blocks(stats@, stats@.len()) <= u64::MAX,
    ensures
        match r {
            Ok(size) => {
                &&& forall|i: int|
                    0 <= i < stats@.len() ==> (#[trigger] stats@[i]).failure() is None
                &&& size.total_bytes == total_len(stats@, stats@.len())
                &&& size.total_blocks == total_blocks(stats@, stats@.len())
            },
            Err(e) => exists|i: int|
                {
                    &&& 0 <= i < stats@.len()
                    &&& (#[trigger] stats@[i]).failure() == Some(e)
                    &&& forall|j: int|
                        0 <= j < i ==> (#[trigger] stats@[j]).failure() is None
                },
        },
{
    let mut size = SizeOnDisk::default();
    let len = stats.len();
    let mut stats_left = stats;
    let mut i: usize = 0;
    while i < len
        invariant
            i <= len == stats@.len() == stats_left@.len(),
            total_len(stats@, stats@.len()) <= u64::MAX,
            total_blocks(stats@, stats@.len()) <= u64::MAX,
            size.total_bytes == total_len(stats@, i as nat),
            size.total_blocks == total_blocks(stats@, i as nat),
            forall|j: int| 0 <= j < i ==> (#[trigger] stats@[j]).failure() is None,
            forall|j: int| i <= j < len ==> #[trigger] stats_left@[j] == stats@[j],
        decreases len - i,
    {
        proof {
            lemma_totals_grow(stats@, i as nat + 1);
        }
        assert(stats_left@[i as int] == stats@[i as int]);
        let mut found = SegmentStats {
            segment: Ok(Stat { len: 0, blocks: 0 }),
            index: Ok(Stat { len: 0, blocks: 0 }),
        };
        std::mem::swap(&mut found, &mut stats_left[i]);
        match found.segment {
            Ok(stat) => size.add(stat),
            Err(e) => {
                assert(stats@[i as int].failure() == Some(e));
                return Err(e);
            },
        }
        // Add the size of the offset index file if present.
        match found.index {
            Ok(stat) => size.add(stat),
            Err(e) => {
                if e.kind != ErrorKind::NotFound {
                    assert(stats@[i as int].failure() == Some(e));
                    return Err(e);
                }
            },
        }
        i += 1;
    }
    Ok(size)
}

/// What to do after trying to create the file of a segment.
#[derive(Debug)]
pub enum CreateStep {
    /// The file was created.
    Created,
    /// There is a file already: look at its size, see [resume_segment].
    Reopen,
    /// The segment cannot be created.
    Failed(Error),
}

/// Decides what to do after trying to create the file of a segment.
pub fn create_segment(outcome: Result<(), Error>) -> (r: CreateStep)
    ensures
        r == match outcome {
            Ok(_) => CreateStep::Created,
            Err(e) => if e.kind == ErrorKind::AlreadyExists {
                CreateStep::Reopen
            } else {
                CreateStep::Failed(e)
            },
        },
{
    match outcome {
        Ok(()) => CreateStep::Created,
        Err(e) => if e.kind == ErrorKind::AlreadyExists {
            CreateStep::Reopen
        } else {
            CreateStep::Failed(e)
        },
    }
}

/// Decides whether a segment can be written to whose file is there already and
/// has `segment_len` bytes. If it is completely empty, writing can be resumed.
pub fn resume_segment(repo: &str, offset: u64, segment_len: u64) -> (r: Result<(), Error>)
    ensures
        if segment_len == 0 {
            r is Ok
        } else {
            &&& r matches Err(e)
            &&& e.is(
                ErrorKind::AlreadyExists,
                "repo "@ + repo@ + ": segment "@ + text::decimal(offset as nat)
                    + " already exists and is non-empty"@,
            )
        },
{
    if segment_len == 0 {
        return Ok(());
    }
    let mut message = String::new();
    message.append("repo ");
    message.append(repo);
    message.append(": segment ");
    text::append_decimal(&mut message, offset);
    message.append(" already exists and is non-empty");
    assert(message@ =~= "repo "@ + repo@ + ": segment "@ + text::decimal(offset as nat)
        + " already exists and is non-empty"@);
    Err(Error::new(ErrorKind::AlreadyExists, message))
}

pub open spec fn power_of_ten(n: nat) -> nat
    decreases n,
{
    if n == 0 {
        1
    } else {
        10 * power_of_ten((n - 1) as nat)
    }
}

proof fn lemma_fixed_width(n: nat, width: nat)
    requires
        n < power_of_ten(width),
    ensures
        fixed_width(n, width).len() == width,
        text::all_digits(fixed_width(n, width)),
        text::value(fixed_width(n, width)) == n,
    decreases width,
{
    if width > 0 {
        lemma_fixed_width(n / 10, (width - 1) as nat);
        assert(fixed_width(n, width).drop_last() =~= fixed_width(n / 10, (width - 1) as nat));
    }
}

/// The name of the file of a segment tells the offset that it starts with.
pub proof fn law_file_name_tells_the_offset(offset: u64)
    ensures
        offset_of(file_name(offset)) == Some(offset),
{
    reveal_strlit(".stdb.log");
    assert(power_of_ten(20) > u64::MAX) by {
        reveal_with_fuel(power_of_ten, 21);
    }
    lemma_fixed_width(offset as nat, 20);
    let name = file_name(offset);
    let digits = fixed_width(offset as nat, 20);
    assert(name.skip(20) =~= ".stdb.log"@);
    assert(name.take(20) =~= digits);
    assert(digits[0] != '+');
}

/// Each segment among the files is found, and nothing else.
pub proof fn law_segments_are_found(names: Seq<String>, n: nat, offset: u64)
    requires
        n <= names.len(),
    ensures
        offsets_of(names, n).contains(offset) <==> exists|i: int|
            0 <= i < n && offset_of((#[trigger] names[i])@) == Some(offset),
    decreases n,
{
    if n > 0 {
        law_segments_are_found(names, (n - 1) as nat, offset);
        if offset_of(names[n - 1]@) == Some(offset) {
            assert(offsets_of(names, n).contains(offset));
        }
    }
}

} // verus!
