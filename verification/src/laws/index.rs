//! What is promised of the index of a segment.

use vstd::prelude::*;

use crate::commitlog::index;
use crate::commitlog::index::{
    Entry, IndexError, IndexView, TxOffset, TxOffsetIndex, TxOffsetIndexMut,
};
use crate::commitlog::segment::offset_index::IndexWriterView;
use crate::commitlog::segment::OffsetIndexWriter;
use crate::commitlog::Options;
use crate::io::Error;
use crate::le;

verus! {

/// Whether each key is greater than the one before it, and the first than zero.
pub open spec fn keys_ascend(entries: Seq<Entry>) -> bool {
    &&& entries.len() > 0 ==> entries[0].key > 0
    &&& forall|i: int, j: int|
        0 <= i < j < entries.len() ==> (#[trigger] entries[i]).key < (#[trigger] entries[j]).key
}

proof fn lemma_keys_ascend(entries: Seq<Entry>)
    ensures
        keys_ascend(entries) <==> index::ascending(entries),
{
    if keys_ascend(entries) {
        assert forall|i: int| 0 <= i < entries.len() implies (#[trigger] entries[i]).key > 0 by {
            assert(entries[0].key > 0);
        }
    }
}

/// The keys of an index ascend, and there are no more than there is room for.
pub proof fn law_index_ascends(index: TxOffsetIndexMut, read: TxOffsetIndex)
    ensures
        index.wf() <==> keys_ascend(index@.entries) && index@.entries.len() <= index@.cap,
        read.wf() <==> keys_ascend(read@),
{
    lemma_keys_ascend(index@.entries);
    lemma_keys_ascend(read@);
}

/// A new index holds nothing.
pub proof fn law_new_index(cap: u64, r: TxOffsetIndexMut)
    requires
        call_ensures(TxOffsetIndexMut::new, (cap,), r),
    ensures
        r.wf(),
        r@.entries.len() == 0,
        r@.cap == cap,
{
}

/// Whether `r` is what comes of appending an entry: it stands behind the others,
/// unless its key is not greater than all of theirs, or there is no room.
pub open spec fn is_appended(
    v: IndexView,
    w: IndexView,
    key: TxOffset,
    value: u64,
    r: Result<(), IndexError>,
) -> bool {
    &&& w.cap == v.cap
    &&& if key == 0 || exists|i: int|
        0 <= i < v.entries.len() && (#[trigger] v.entries[i]).key >= key {
        &&& r matches Err(IndexError::InvalidInput { last, key: given })
        &&& given == key
        &&& last == if v.entries.len() == 0 {
            0
        } else {
            v.entries[v.entries.len() - 1].key
        }
        &&& w == v
    } else if v.entries.len() == v.cap {
        r == Err::<(), IndexError>(IndexError::OutOfMemory) && w == v
    } else {
        r is Ok && w.entries == v.entries + seq![Entry { key, value }]
    }
}

proof fn lemma_append_error(v: IndexView, key: TxOffset, value: u64)
    requires
        v.wf(),
    ensures
        is_appended(
            v,
            if v.append_error(key) is None {
                v.appended(key, value)
            } else {
                v
            },
            key,
            value,
            match v.append_error(key) {
                None => Ok(()),
                Some(e) => Err(e),
            },
        ),
{
    if v.entries.len() > 0 {
        let n = v.entries.len() - 1;
        if v.entries[n].key >= key {
            assert(exists|i: int|
                0 <= i < v.entries.len() && (#[trigger] v.entries[i]).key >= key);
        }
    }
    assert(v.appended(key, value).entries =~= v.entries + seq![Entry { key, value }]);
}

/// An entry is appended behind the others, if its key is greater and there is
/// room.
pub proof fn law_entry_is_appended(key: TxOffset, value: u64, r: Result<(), IndexError>)
    ensures
        forall|index: &mut TxOffsetIndexMut|
            #![trigger call_ensures(TxOffsetIndexMut::append, (index, key, value), r)]
            (*index).wf() && call_ensures(TxOffsetIndexMut::append, (index, key, value), r) ==> {
                &&& (*final(index)).wf()
                &&& is_appended((*index)@, (*final(index))@, key, value, r)
            },
{
    assert forall|index: &mut TxOffsetIndexMut|
        #![trigger call_ensures(TxOffsetIndexMut::append, (index, key, value), r)]
        (*index).wf() && call_ensures(TxOffsetIndexMut::append, (index, key, value), r) implies ({
        &&& (*final(index)).wf()
        &&& is_appended((*index)@, (*final(index))@, key, value, r)
    }) by {
        lemma_append_error((*index)@, key, value);
    }
}

/// Whether `r` is the entry with the largest key up to `asked`.
pub open spec fn is_found(
    entries: Seq<Entry>,
    asked: TxOffset,
    r: Result<(TxOffset, u64), IndexError>,
) -> bool {
    match r {
        Ok((key, value)) => {
            &&& key <= asked
            &&& entries.contains(Entry { key, value })
            &&& forall|i: int|
                0 <= i < entries.len() && (#[trigger] entries[i]).key <= asked ==> entries[i].key
                    <= key
        },
        Err(IndexError::KeyNotFound) => forall|i: int|
            0 <= i < entries.len() ==> (#[trigger] entries[i]).key > asked,
        Err(_) => false,
    }
}

/// What is found of a key is the entry with the largest key up to it.
pub proof fn law_nearest_key_is_found(
    index: TxOffsetIndexMut,
    read: TxOffsetIndex,
    asked: TxOffset,
    r: Result<(TxOffset, u64), IndexError>,
)
    ensures
        index.wf() && call_ensures(TxOffsetIndexMut::key_lookup, (&index, asked), r) ==> is_found(
            index@.entries,
            asked,
            r,
        ),
        read.wf() && call_ensures(TxOffsetIndex::key_lookup, (&read, asked), r) ==> is_found(
            read@,
            asked,
            r,
        ),
{
    if index.wf() {
        index::law_lookup_finds_the_largest_key_below(index@.entries, asked);
    }
    if read.wf() {
        index::law_lookup_finds_the_largest_key_below(read@, asked);
    }
}

/// Whether the entries before `key` are left of an index that has a key up to
/// `key`, and all of another.
pub open spec fn is_cut(v: IndexView, w: IndexView, key: TxOffset) -> bool {
    &&& w.cap == v.cap
    &&& if exists|i: int| 0 <= i < v.entries.len() && (#[trigger] v.entries[i]).key <= key {
        &&& w.entries.len() <= v.entries.len()
        &&& forall|i: int|
            0 <= i < v.entries.len() ==> ((#[trigger] v.entries[i]).key < key <==> i
                < w.entries.len())
        &&& forall|i: int| 0 <= i < w.entries.len() ==> #[trigger] w.entries[i] == v.entries[i]
    } else {
        w.entries == v.entries
    }
}

proof fn lemma_cut(v: IndexView, key: TxOffset)
    requires
        v.wf(),
    ensures
        index::lookup(v.entries, key) is Some <==> exists|i: int|
            0 <= i < v.entries.len() && (#[trigger] v.entries[i]).key <= key,
        is_cut(
            v,
            if index::lookup(v.entries, key) is Some {
                v.truncated(key)
            } else {
                v
            },
            key,
        ),
{
    index::law_lookup_finds_the_largest_key_below(v.entries, key);
    if let Some(entry) = index::lookup(v.entries, key) {
        let i = choose|i: int| 0 <= i < v.entries.len() && v.entries[i] == entry;
        assert(v.entries[i].key > 0);
        index::lemma_count_le(v.entries, (key - 1) as u64);
    }
}

/// Truncating leaves the entries before a key. It is an error if the index has no
/// key up to it.
pub proof fn law_index_is_truncated(key: TxOffset, r: Result<(), IndexError>)
    ensures
        forall|index: &mut TxOffsetIndexMut|
            #![trigger call_ensures(TxOffsetIndexMut::truncate, (index, key), r)]
            (*index).wf() && call_ensures(TxOffsetIndexMut::truncate, (index, key), r) ==> {
                &&& (*final(index)).wf()
                &&& is_cut((*index)@, (*final(index))@, key)
                &&& r is Ok <==> exists|i: int|
                    0 <= i < (*index)@.entries.len() && (#[trigger] (*index)@.entries[i]).key <= key
                &&& r matches Err(e) ==> e is KeyNotFound
            },
{
    assert forall|index: &mut TxOffsetIndexMut|
        #![trigger call_ensures(TxOffsetIndexMut::truncate, (index, key), r)]
        (*index).wf() && call_ensures(TxOffsetIndexMut::truncate, (index, key), r) implies ({
        &&& (*final(index)).wf()
        &&& is_cut((*index)@, (*final(index))@, key)
        &&& r is Ok <==> exists|i: int|
            0 <= i < (*index)@.entries.len() && (#[trigger] (*index)@.entries[i]).key <= key
        &&& r matches Err(e) ==> e is KeyNotFound
    }) by {
        lemma_cut((*index)@, key);
    }
}

/// Whether an entry stands at the given place, the key before the value, with
/// the lowest byte first.
pub open spec fn entry_stands(s: Seq<u8>, i: int, entry: Entry) -> bool {
    &&& le::le_value(s.subrange(16 * i, 16 * i + 8)) == entry.key
    &&& le::le_value(s.subrange(16 * i + 8, 16 * i + 16)) == entry.value
}

proof fn lemma_entries_in(s: Seq<u8>, i: nat, last: TxOffset)
    ensures
        ({
            let found = index::entries_in(s, i, last);
            let n = i + found.len() as int;
            &&& 16 * n <= s.len() || found.len() == 0
            &&& forall|k: int|
                0 <= k < found.len() ==> entry_stands(s, i + k, #[trigger] found[k])
            &&& 16 * n + 16 > s.len() || le::le_value(s.subrange(16 * n, 16 * n + 8)) <= if found.len()
                == 0 {
                last
            } else {
                found.last().key
            }
        }),
    decreases s.len() - i,
{
    if 16 * i + 16 <= s.len() {
        let at = 16 * i as int;
        le::lemma_le_bounds();
        le::lemma_le_bytes_of_value(s.subrange(at, at + 8));
        le::lemma_le_bytes_of_value(s.subrange(at + 8, at + 16));
        let e = index::entry_at(s, i as int);
        assert(entry_stands(s, i as int, e));
        if e.key > last {
            lemma_entries_in(s, i + 1, e.key);
            let rest = index::entries_in(s, i + 1, e.key);
            let found = index::entries_in(s, i, last);
            assert(found =~= seq![e] + rest);
            assert forall|k: int| 0 <= k < found.len() implies entry_stands(
                s,
                i + k,
                #[trigger] found[k],
            ) by {
                if k > 0 {
                    assert(found[k] == rest[k - 1]);
                }
            }
            if rest.len() > 0 {
                assert(found.last() == rest.last());
            }
        }
    }
}

/// Whether the entries are those that stand in `s`, up to the first one whose key
/// is not greater than the one before it, or than zero.
pub open spec fn are_read(s: Seq<u8>, entries: Seq<Entry>) -> bool {
    let n = entries.len() as int;
    &&& 16 * n <= s.len()
    &&& keys_ascend(entries)
    &&& forall|k: int| 0 <= k < n ==> entry_stands(s, k, #[trigger] entries[k])
    &&& 16 * n + 16 > s.len() || le::le_value(s.subrange(16 * n, 16 * n + 8)) <= if n == 0 {
        0
    } else {
        entries[n - 1].key
    }
}

/// The entries of a stored index are read, up to where the keys no longer ascend.
pub proof fn law_entries_are_read(s: &[u8], index: TxOffsetIndexMut, read: TxOffsetIndex)
    ensures
        call_ensures(TxOffsetIndexMut::from_bytes, (s,), index) ==> are_read(s@, index@.entries)
            && index@.cap == s@.len() / 16,
        call_ensures(TxOffsetIndex::from_bytes, (s,), read) ==> are_read(s@, read@),
{
    lemma_entries_in(s@, 0, 0);
    lemma_keys_ascend(index@.entries);
    lemma_keys_ascend(read@);
    assert(s.len() <= usize::MAX);
}

proof fn lemma_entries_stand(entries: Seq<Entry>, i: int)
    requires
        0 <= i < entries.len(),
    ensures
        entry_stands(index::entries_bytes(entries), i, entries[i]),
    decreases entries.len(),
{
    let front = entries.drop_last();
    let s = index::entries_bytes(entries);
    let t = index::entries_bytes(front);
    index::lemma_entries_bytes_len(front);
    index::lemma_entries_bytes_len(entries);
    let e = entries.last();
    le::lemma_le_bytes_len(e.key as nat, 8);
    le::lemma_le_bytes_len(e.value as nat, 8);
    le::lemma_le_bounds();
    le::lemma_le_value_of_bytes(e.key as nat, 8);
    le::lemma_le_value_of_bytes(e.value as nat, 8);
    if i < front.len() {
        lemma_entries_stand(front, i);
        assert(front[i] == entries[i]);
        assert(s.subrange(16 * i, 16 * i + 8) =~= t.subrange(16 * i, 16 * i + 8));
        assert(s.subrange(16 * i + 8, 16 * i + 16) =~= t.subrange(16 * i + 8, 16 * i + 16));
    } else {
        assert(s.subrange(16 * i, 16 * i + 8) =~= le::le_bytes(e.key as nat, 8));
        assert(s.subrange(16 * i + 8, 16 * i + 16) =~= le::le_bytes(e.value as nat, 8));
    }
}

/// In the stored form of an index each entry stands in its place, and zeros for
/// those that there is room for.
pub proof fn law_entries_are_stored(index: TxOffsetIndexMut, r: Vec<u8>)
    requires
        index.wf(),
        call_ensures(TxOffsetIndexMut::to_bytes, (&index,), r),
    ensures
        r@.len() == 16 * index@.cap,
        forall|i: int|
            0 <= i < index@.entries.len() ==> entry_stands(r@, i, #[trigger] index@.entries[i]),
        forall|i: int| 16 * index@.entries.len() <= i < r@.len() ==> #[trigger] r@[i] == 0,
{
    let entries = index@.entries;
    let s = index::entries_bytes(entries);
    index::lemma_entries_bytes_len(entries);
    assert forall|i: int| 0 <= i < entries.len() implies entry_stands(
        r@,
        i,
        #[trigger] entries[i],
    ) by {
        lemma_entries_stand(entries, i);
        assert(r@.subrange(16 * i, 16 * i + 8) =~= s.subrange(16 * i, 16 * i + 8));
        assert(r@.subrange(16 * i + 8, 16 * i + 16) =~= s.subrange(16 * i + 8, 16 * i + 16));
    }
}

/// A stored index is opened with the entries that it was stored with.
pub proof fn law_stored_index_is_read_back(
    index: TxOffsetIndexMut,
    bytes: Vec<u8>,
    s: &[u8],
    opened: TxOffsetIndexMut,
    read: TxOffsetIndex,
)
    requires
        index.wf(),
        call_ensures(TxOffsetIndexMut::to_bytes, (&index,), bytes),
        s@ == bytes@,
        call_ensures(TxOffsetIndexMut::from_bytes, (s,), opened),
        call_ensures(TxOffsetIndex::from_bytes, (s,), read),
    ensures
        opened@ == index@,
        read@ == index@.entries,
{
    index::law_stored_index_is_opened(index@);
    assert(opened@ =~= index@);
}

/// A writer starts without a candidate.
pub proof fn law_new_index_writer(head: TxOffsetIndexMut, opts: Options, r: OffsetIndexWriter)
    requires
        call_ensures(OffsetIndexWriter::new, (head, opts), r),
    ensures
        r@.head == head@,
        r@.require_segment_fsync == opts.offset_index_require_segment_fsync,
        r@.min_write_interval == opts.offset_index_interval_bytes,
        r@.candidate_min_tx_offset == 0,
        r@.candidate_byte_offset == 0,
        r@.bytes_since_last_index == 0,
{
}

/// Whether the writer has the settings it had.
pub open spec fn same_settings(v: IndexWriterView, w: IndexWriterView) -> bool {
    &&& w.require_segment_fsync == v.require_segment_fsync
    &&& w.min_write_interval == v.min_write_interval
}

/// Whether the writer has no candidate, and starts to count anew.
pub open spec fn is_cleared(w: IndexWriterView) -> bool {
    &&& w.candidate_min_tx_offset == 0
    &&& w.candidate_byte_offset == 0
    &&& w.bytes_since_last_index == 0
}

/// Whether `r` is what comes of trying to append the candidate: it is appended if
/// there is one and enough was written since the last entry.
pub open spec fn candidate_is_tried(
    head: IndexView,
    w: IndexWriterView,
    r: Result<bool, IndexError>,
) -> bool {
    if w.candidate_min_tx_offset == 0 || w.bytes_since_last_index < w.min_write_interval {
        r == Ok::<bool, IndexError>(false) && w.head == head
    } else {
        &&& is_appended(
            head,
            w.head,
            w.candidate_min_tx_offset,
            w.candidate_byte_offset,
            match r {
                Ok(_) => Ok(()),
                Err(e) => Err(e),
            },
        )
        &&& r matches Ok(appended) ==> appended
    }
}

proof fn lemma_candidate(v: IndexWriterView)
    requires
        v.head.wf(),
    ensures
        candidate_is_tried(v.head, v.appended(), v.append_result()),
{
    if v.due() {
        lemma_append_error(v.head, v.candidate_min_tx_offset, v.candidate_byte_offset);
    }
}

/// Whether `w` is a writer that was told of a commit, and `r` what it said: the
/// first commit after an entry is the candidate for the next one. It is tried at
/// once unless the segment must be durable first.
pub open spec fn is_noted(
    v: IndexWriterView,
    w: IndexWriterView,
    min_tx_offset: TxOffset,
    byte_offset: u64,
    commit_len: int,
    r: Result<bool, IndexError>,
) -> bool {
    &&& same_settings(v, w)
    &&& w.bytes_since_last_index == v.bytes_since_last_index + commit_len
    &&& if v.candidate_min_tx_offset == 0 {
        w.candidate_min_tx_offset == min_tx_offset && w.candidate_byte_offset == byte_offset
    } else {
        w.candidate_min_tx_offset == v.candidate_min_tx_offset && w.candidate_byte_offset
            == v.candidate_byte_offset
    }
    &&& if v.require_segment_fsync {
        r == Ok::<bool, IndexError>(false) && w.head == v.head
    } else {
        candidate_is_tried(v.head, w, r)
    }
}

pub proof fn lemma_noted(
    v: IndexWriterView,
    min_tx_offset: TxOffset,
    byte_offset: u64,
    commit_len: u64,
)
    requires
        v.head.wf(),
        v.bytes_since_last_index + commit_len <= u64::MAX,
    ensures
        is_noted(
            v,
            v.after_commit(min_tx_offset, byte_offset, commit_len),
            min_tx_offset,
            byte_offset,
            commit_len as int,
            if v.require_segment_fsync {
                Ok(false)
            } else {
                v.noted(min_tx_offset, byte_offset, commit_len).append_result()
            },
        ),
{
    lemma_candidate(v.noted(min_tx_offset, byte_offset, commit_len));
}

/// The first commit after an entry is the candidate for the next one. It becomes
/// one when enough was written since, and at once if that need not be durable.
pub proof fn law_commit_is_noted(
    min_tx_offset: TxOffset,
    byte_offset: u64,
    commit_len: u64,
    r: Result<bool, IndexError>,
)
    ensures
        forall|writer: &mut OffsetIndexWriter|
            #![trigger call_ensures(OffsetIndexWriter::append_after_commit, (writer, min_tx_offset, byte_offset, commit_len), r)]
            (*writer).wf() && (*writer)@.bytes_since_last_index + commit_len <= u64::MAX
                && call_ensures(
                OffsetIndexWriter::append_after_commit,
                (writer, min_tx_offset, byte_offset, commit_len),
                r,
            ) ==> is_noted(
                (*writer)@,
                (*final(writer))@,
                min_tx_offset,
                byte_offset,
                commit_len as int,
                r,
            ),
{
    assert forall|writer: &mut OffsetIndexWriter|
        #![trigger call_ensures(OffsetIndexWriter::append_after_commit, (writer, min_tx_offset, byte_offset, commit_len), r)]
        (*writer).wf() && (*writer)@.bytes_since_last_index + commit_len <= u64::MAX
            && call_ensures(
            OffsetIndexWriter::append_after_commit,
            (writer, min_tx_offset, byte_offset, commit_len),
            r,
        ) implies is_noted(
        (*writer)@,
        (*final(writer))@,
        min_tx_offset,
        byte_offset,
        commit_len as int,
        r,
    ) by {
        lemma_noted((*writer)@, min_tx_offset, byte_offset, commit_len);
    }
}

/// The candidate is appended on request, if enough was written since the last
/// entry.
pub proof fn law_candidate_is_flushed(appended: bool)
    ensures
        forall|writer: &mut OffsetIndexWriter|
            #![trigger call_ensures(OffsetIndexWriter::flush, (writer,), appended)]
            (*writer).wf() && call_ensures(OffsetIndexWriter::flush, (writer,), appended) ==> {
                let (v, w) = ((*writer)@, (*final(writer))@);
                &&& same_settings(v, w)
                &&& w.candidate_min_tx_offset == v.candidate_min_tx_offset
                &&& w.candidate_byte_offset == v.candidate_byte_offset
                &&& w.bytes_since_last_index == v.bytes_since_last_index
                &&& exists|r: Result<bool, IndexError>| #[trigger]
                    candidate_is_tried(v.head, w, r) && appended == (r == Ok::<bool, IndexError>(
                        true,
                    ))
            },
{
    assert forall|writer: &mut OffsetIndexWriter|
        #![trigger call_ensures(OffsetIndexWriter::flush, (writer,), appended)]
        (*writer).wf() && call_ensures(OffsetIndexWriter::flush, (writer,), appended) implies ({
        let (v, w) = ((*writer)@, (*final(writer))@);
        &&& same_settings(v, w)
        &&& w.candidate_min_tx_offset == v.candidate_min_tx_offset
        &&& w.candidate_byte_offset == v.candidate_byte_offset
        &&& w.bytes_since_last_index == v.bytes_since_last_index
        &&& exists|r: Result<bool, IndexError>| #[trigger]
            candidate_is_tried(v.head, w, r) && appended == (r == Ok::<bool, IndexError>(true))
    }) by {
        lemma_candidate((*writer)@);
        let r = (*writer)@.append_result();
        assert(candidate_is_tried((*writer)@.head, (*final(writer))@, r));
    }
}

/// When the index was written to storage, the next commit is the candidate, and
/// counting starts anew. When that failed, nothing changes.
pub proof fn law_index_is_written(outcome: Result<(), Error>, r: Result<(), IndexError>)
    ensures
        forall|writer: &mut OffsetIndexWriter|
            #![trigger call_ensures(OffsetIndexWriter::flushed, (writer, outcome), r)]
            call_ensures(OffsetIndexWriter::flushed, (writer, outcome), r) ==> {
                let (v, w) = ((*writer)@, (*final(writer))@);
                &&& same_settings(v, w)
                &&& w.head == v.head
                &&& match outcome {
                    Ok(_) => r is Ok && is_cleared(w),
                    Err(e) => w == v && (r matches Err(IndexError::Io(said)) && said == e),
                }
            },
{
}

/// Truncating leaves no candidate, whichever there was, and counting starts anew.
pub proof fn law_truncating_clears_the_candidate(offset: TxOffset)
    ensures
        forall|writer: &mut OffsetIndexWriter|
            #![trigger call_ensures(OffsetIndexWriter::truncate, (writer, offset), ())]
            (*writer).wf() && call_ensures(OffsetIndexWriter::truncate, (writer, offset), ()) ==> {
                let (v, w) = ((*writer)@, (*final(writer))@);
                &&& same_settings(v, w)
                &&& is_cleared(w)
                &&& is_cut(v.head, w.head, offset)
            },
{
    assert forall|writer: &mut OffsetIndexWriter|
        #![trigger call_ensures(OffsetIndexWriter::truncate, (writer, offset), ())]
        (*writer).wf() && call_ensures(OffsetIndexWriter::truncate, (writer, offset), ()) implies ({
        let (v, w) = ((*writer)@, (*final(writer))@);
        &&& same_settings(v, w)
        &&& is_cleared(w)
        &&& is_cut(v.head, w.head, offset)
    }) by {
        lemma_cut((*writer)@.head, offset);
    }
}

/// The commit that follows truncating is the one that the next entry stands for,
/// and not one that was written before.
pub proof fn law_entry_after_truncating(
    offset: TxOffset,
    min_tx_offset: TxOffset,
    byte_offset: u64,
    commit_len: u64,
    r: Result<bool, IndexError>,
)
    requires
        min_tx_offset > 0,
    ensures
        forall|first: &mut OffsetIndexWriter, second: &mut OffsetIndexWriter|
            (*first).wf() && #[trigger] call_ensures(OffsetIndexWriter::truncate, (first, offset), ())
                && *second == *final(first) && #[trigger] call_ensures(
                OffsetIndexWriter::append_after_commit,
                (second, min_tx_offset, byte_offset, commit_len),
                r,
            ) ==> {
                let (v, u, w) = ((*first)@, (*second)@, (*final(second))@);
                &&& w.candidate_min_tx_offset == min_tx_offset
                &&& w.candidate_byte_offset == byte_offset
                &&& w.bytes_since_last_index == commit_len
                &&& is_cut(v.head, u.head, offset)
                &&& if !v.require_segment_fsync && commit_len >= v.min_write_interval {
                    is_appended(
                        u.head,
                        w.head,
                        min_tx_offset,
                        byte_offset,
                        match r {
                            Ok(_) => Ok(()),
                            Err(e) => Err(e),
                        },
                    ) && (r matches Ok(appended) ==> appended)
                } else {
                    r == Ok::<bool, IndexError>(false) && w.head == u.head
                }
            },
{
    law_truncating_clears_the_candidate(offset);
    law_commit_is_noted(min_tx_offset, byte_offset, commit_len, r);
}

/// What is told of a writer of an index is what it holds.
pub proof fn law_index_writer_tells(writer: OffsetIndexWriter, head: &TxOffsetIndexMut, n: u64)
    ensures
        call_ensures(OffsetIndexWriter::head, (&writer,), head) ==> head@ == writer@.head,
        call_ensures(OffsetIndexWriter::bytes_since_last_index, (&writer,), n) ==> n
            == writer@.bytes_since_last_index,
{
}

} // verus!
