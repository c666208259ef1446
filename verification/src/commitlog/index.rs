//! Indexes from transaction offsets to positions in a segment.

use vstd::prelude::*;

use crate::io::Error;
use crate::le;

verus! {

/// The offset of a transaction relative to the start of the log.
pub type TxOffset = u64;

/// The size of a stored [Entry].
pub const ENTRY_SIZE: usize = 16;

/// An index could not be read or changed.
#[derive(Debug)]
pub enum IndexError {
    Io(Error),
    /// There is no key that is not greater than the one asked for.
    KeyNotFound,
    /// Keys must be appended in ascending order.
    InvalidInput { last: TxOffset, key: TxOffset },
    /// The index is full.
    OutOfMemory,
}

/// A key, and the position at which to look for the commit that starts with it.
#[derive(Clone, Copy, Debug, PartialEq, Eq, Structural)]
pub struct Entry {
    pub key: TxOffset,
    pub value: u64,
}

/// Whether the keys are ascending. No key is zero.
pub open spec fn ascending(entries: Seq<Entry>) -> bool {
    &&& forall|i: int| 0 <= i < entries.len() ==> (#[trigger] entries[i]).key > 0
    &&& forall|i: int, j: int|
        0 <= i < j < entries.len() ==> (#[trigger] entries[i]).key < (#[trigger] entries[j]).key
}

/// The number of the first keys that are less than or equal to `key`.
pub open spec fn count_le(entries: Seq<Entry>, key: TxOffset) -> nat
    decreases entries.len(),
{
    if entries.len() == 0 || entries[0].key > key {
        0
    } else {
        1 + count_le(entries.drop_first(), key)
    }
}

/// The entry with the largest key that is not greater than `key`.
pub open spec fn lookup(entries: Seq<Entry>, key: TxOffset) -> Option<Entry> {
    let n = count_le(entries, key);
    if n == 0 {
        None
    } else {
        Some(entries[n - 1])
    }
}

/// The number of the first keys that are less than `key`.
pub open spec fn count_lt(entries: Seq<Entry>, key: TxOffset) -> nat {
    if key == 0 {
        0
    } else {
        count_le(entries, (key - 1) as u64)
    }
}

/// What [count_le] counts.
pub proof fn lemma_count_le(entries: Seq<Entry>, key: TxOffset)
    requires
        ascending(entries),
    ensures
        count_le(entries, key) <= entries.len(),
        forall|i: int|
            0 <= i < entries.len() ==> ((#[trigger] entries[i]).key <= key <==> i < count_le(
                entries,
                key,
            )),
    decreases entries.len(),
{
    if entries.len() > 0 && entries[0].key <= key {
        let t = entries.drop_first();
        lemma_count_le(t, key);
        assert forall|i: int| 0 <= i < entries.len() implies ((#[trigger] entries[i]).key <= key
            <==> i < count_le(entries, key)) by {
            if i > 0 {
                assert(entries[i] == t[i - 1]);
            }
        }
    }
}

/// The number of entries whose keys are less than or equal to `key`.
fn position(entries: &Vec<Entry>, key: TxOffset) -> (r: usize)
    requires
        ascending(entries@),
    ensures
        r == count_le(entries@, key),
{
    let mut low: usize = 0;
    let mut high: usize = entries.len();
    while low < high
        invariant
            low <= high <= entries@.len(),
            ascending(entries@),
            forall|i: int| 0 <= i < low ==> (#[trigger] entries@[i]).key <= key,
            forall|i: int| high <= i < entries@.len() ==> (#[trigger] entries@[i]).key > key,
        decreases high - low,
    {
        let mid = low + (high - low) / 2;
        if entries[mid].key <= key {
            low = mid + 1;
        } else {
            high = mid;
        }
    }
    proof {
        lemma_count_le(entries@, key);
        let n = count_le(entries@, key) as int;
        if n < low {
            assert(entries@[n].key <= key);
        }
        if n > low {
            assert(entries@[low as int].key > key);
        }
    }
    low
}

/// The entries, one after the other.
pub open spec fn entries_bytes(entries: Seq<Entry>) -> Seq<u8>
    decreases entries.len(),
{
    if entries.len() == 0 {
        Seq::empty()
    } else {
        entries_bytes(entries.drop_last()) + le::le_bytes(entries.last().key as nat, 8)
            + le::le_bytes(entries.last().value as nat, 8)
    }
}

pub proof fn lemma_entries_bytes_len(entries: Seq<Entry>)
    ensures
        entries_bytes(entries).len() == 16 * entries.len(),
    decreases entries.len(),
{
    if entries.len() > 0 {
        lemma_entries_bytes_len(entries.drop_last());
        le::lemma_le_bytes_len(entries.last().key as nat, 8);
        le::lemma_le_bytes_len(entries.last().value as nat, 8);
    }
}

/// The `i`-th entry in stored form.
pub open spec fn entry_at(s: Seq<u8>, i: int) -> Entry {
    Entry {
        key: le::le_value(s.subrange(16 * i, 16 * i + 8)) as u64,
        value: le::le_value(s.subrange(16 * i + 8, 16 * i + 16)) as u64,
    }
}

/// The entries that stand in `s` from the `i`-th on, where `last` is the key
/// before. They end where a key is not greater than the one before, as the
/// zeros of an unused entry are not.
pub open spec fn entries_in(s: Seq<u8>, i: nat, last: TxOffset) -> Seq<Entry>
    decreases s.len() - i,
{
    if 16 * i + 16 > s.len() || entry_at(s, i as int).key <= last {
        Seq::empty()
    } else {
        seq![entry_at(s, i as int)] + entries_in(s, i + 1, entry_at(s, i as int).key)
    }
}

/// An index that is written to.
#[derive(Debug)]
pub struct TxOffsetIndexMut {
    entries: Vec<Entry>,
    cap: u64,
}

/// What an index holds.
#[verifier::ext_equal]
pub struct IndexView {
    pub entries: Seq<Entry>,
    /// The number of entries that there is room for.
    pub cap: u64,
}

impl View for TxOffsetIndexMut {
    type V = IndexView;

    closed spec fn view(&self) -> IndexView {
        IndexView { entries: self.entries@, cap: self.cap }
    }
}

impl IndexView {
    pub open spec fn wf(self) -> bool {
        ascending(self.entries) && self.entries.len() <= self.cap
    }

    /// The stored form: the entries, and zeros for those that are unused.
    pub open spec fn bytes(self) -> Seq<u8> {
        le::zero_padded(entries_bytes(self.entries), (16 * self.cap) as nat)
    }

    pub open spec fn last_key(self) -> TxOffset {
        if self.entries.len() == 0 {
            0
        } else {
            self.entries.last().key
        }
    }

    /// Why an entry cannot be appended.
    pub open spec fn append_error(self, key: TxOffset) -> Option<IndexError> {
        if self.last_key() >= key {
            Some(IndexError::InvalidInput { last: self.last_key(), key })
        } else if self.entries.len() >= self.cap {
            Some(IndexError::OutOfMemory)
        } else {
            None
        }
    }

    pub open spec fn appended(self, key: TxOffset, value: u64) -> Self {
        IndexView { entries: self.entries.push(Entry { key, value }), ..self }
    }

    /// The index without the keys that are greater than or equal to `key`.
    pub open spec fn truncated(self, key: TxOffset) -> Self {
        IndexView { entries: self.entries.take(count_lt(self.entries, key) as int), ..self }
    }
}

impl TxOffsetIndexMut {
    pub open spec fn wf(self) -> bool {
        self@.wf()
    }

    /// An empty index with room for `cap` entries.
    pub fn new(cap: u64) -> (r: Self)
        ensures
            r.wf(),
            r@ == (IndexView { entries: Seq::empty(), cap }),
    {
        let r = Self { entries: Vec::new(), cap };
        assert(r@.entries =~= Seq::empty());
        r
    }

    /// Appends an entry. Its key must be greater than the last one.
    pub fn append(&mut self, key: TxOffset, value: u64) -> (r: Result<(), IndexError>)
        requires
            old(self).wf(),
        ensures
            final(self).wf(),
            match old(self)@.append_error(key) {
                Some(e) => r == Err::<(), IndexError>(e) && final(self)@ == old(self)@,
                None => r is Ok && final(self)@ == old(self)@.appended(key, value),
            },
    {
        let len = self.entries.len();
        let last: TxOffset = if len == 0 {
            0
        } else {
            self.entries[len - 1].key
        };
        if last >= key {
            return Err(IndexError::InvalidInput { last, key });
        }
        if len as u64 >= self.cap {
            return Err(IndexError::OutOfMemory);
        }
        self.entries.push(Entry { key, value });
        Ok(())
    }

    /// The entry with the largest key that is not greater than `key`.
    pub fn key_lookup(&self, key: TxOffset) -> (r: Result<(TxOffset, u64), IndexError>)
        requires
            self.wf(),
        ensures
            looked_up(lookup(self@.entries, key), r),
    {
        let n = position(&self.entries, key);
        if n == 0 {
            Err(IndexError::KeyNotFound)
        } else {
            proof {
                lemma_count_le(self.entries@, key);
            }
            Ok((self.entries[n - 1].key, self.entries[n - 1].value))
        }
    }

    /// Removes the entries from the first key on that is greater than or equal
    /// to `key`. It is an error if no key is less than or equal to `key`.
    pub fn truncate(&mut self, key: TxOffset) -> (r: Result<(), IndexError>)
        requires
            old(self).wf(),
        ensures
            final(self).wf(),
            match lookup(old(self)@.entries, key) {
                Some(_) => r is Ok && final(self)@ == old(self)@.truncated(key),
                None => r == Err::<(), IndexError>(IndexError::KeyNotFound) && final(self)@
                    == old(self)@,
            },
    {
        let found = position(&self.entries, key);
        proof {
            lemma_count_le(self.entries@, key);
        }
        if found == 0 {
            return Err(IndexError::KeyNotFound);
        }
        let keep = if self.entries[found - 1].key == key {
            found - 1
        } else {
            found
        };
        proof {
            assert(self.entries@[found - 1].key > 0);
            lemma_count_le(self.entries@, (key - 1) as u64);
            let n = count_lt(self.entries@, key) as int;
            if n < keep {
                assert(self.entries@[n].key < key);
            }
            if n > keep {
                assert(self.entries@[keep as int].key < key);
            }
        }
        self.entries.truncate(keep);
        Ok(())
    }

    /// The stored form: the entries, and zeros for those that are unused.
    pub fn to_bytes(&self) -> (r: Vec<u8>)
        requires
            self.wf(),
            16 * self@.cap <= usize::MAX,
        ensures
            r@ == self@.bytes(),
    {
        let mut out: Vec<u8> = Vec::new();
        let len = self.entries.len();
        let mut i: usize = 0;
        assert(self.entries@.take(0) =~= Seq::empty());
        while i < len
            invariant
                i <= len == self.entries@.len(),
                out@ == entries_bytes(self.entries@.take(i as int)),
            decreases len - i,
        {
            le::put_slice(&mut out, le::u64_to_le(self.entries[i].key).as_slice());
            le::put_slice(&mut out, le::u64_to_le(self.entries[i].value).as_slice());
            assert(self.entries@.take(i + 1).drop_last() =~= self.entries@.take(i as int));
            i += 1;
        }
        assert(self.entries@.take(len as int) =~= self.entries@);
        let size = self.cap as usize * ENTRY_SIZE;
        proof {
            lemma_entries_bytes_len(self.entries@);
        }
        while out.len() < size
            invariant
                size == 16 * self.cap,
                self.entries@.len() <= self.cap,
                entries_bytes(self.entries@).len() == 16 * self.entries@.len(),
                16 * self.entries@.len() <= out@.len() <= size,
                out@ == le::zero_padded(entries_bytes(self.entries@), out@.len()),
            decreases size - out@.len(),
        {
            out.push(0);
            assert(out@ =~= le::zero_padded(entries_bytes(self.entries@), out@.len()));
        }
        out
    }

    /// Opens a stored index.
    pub fn from_bytes(s: &[u8]) -> (r: Self)
        ensures
            r.wf(),
            r@ == (IndexView { entries: entries_in(s@, 0, 0), cap: (s@.len() / 16) as u64 }),
    {
        let entries = read_entries(s);
        Self { entries, cap: (s.len() / ENTRY_SIZE) as u64 }
    }
}

/// Reads the entries in stored form.
fn read_entries(s: &[u8]) -> (r: Vec<Entry>)
    ensures
        r@ == entries_in(s@, 0, 0),
        ascending(r@),
        16 * r@.len() <= s@.len(),
{
    let len = s.len();
    let mut entries: Vec<Entry> = Vec::new();
    let mut last: TxOffset = 0;
    let mut i: usize = 0;
    let mut done = false;
    assert(entries@ + entries_in(s@, 0, 0) =~= entries_in(s@, 0, 0));
    while !done && len - 16 * i >= ENTRY_SIZE
        invariant
            16 * i <= len == s@.len(),
            entries@.len() == i,
            ascending(entries@),
            last == if i == 0 {
                0
            } else {
                entries@[i - 1].key
            },
            entries_in(s@, 0, 0) == entries@ + if done {
                Seq::empty()
            } else {
                entries_in(s@, i as nat, last)
            },
        decreases
            len - 16 * i,
            if done {
                0int
            } else {
                1int
            },
    {
        let at = ENTRY_SIZE * i;
        let entry = Entry { key: le::read_u64(s, at), value: le::read_u64(s, at + 8) };
        assert(entry == entry_at(s@, i as int));
        if entry.key <= last {
            done = true;
        } else {
            let ghost before = entries@;
            entries.push(entry);
            last = entry.key;
            i += 1;
            assert(before + (seq![entry] + entries_in(s@, i as nat, last)) =~= entries@
                + entries_in(s@, i as nat, last));
        }
    }
    assert(entries@ =~= entries_in(s@, 0, 0));
    entries
}

/// An index that is read only.
#[derive(Debug)]
pub struct TxOffsetIndex {
    entries: Vec<Entry>,
}

impl View for TxOffsetIndex {
    type V = Seq<Entry>;

    closed spec fn view(&self) -> Seq<Entry> {
        self.entries@
    }
}

impl TxOffsetIndex {
    pub open spec fn wf(self) -> bool {
        ascending(self@)
    }

    /// Opens a stored index.
    pub fn from_bytes(s: &[u8]) -> (r: Self)
        ensures
            r.wf(),
            r@ == entries_in(s@, 0, 0),
    {
        Self { entries: read_entries(s) }
    }

    /// The entry with the largest key that is not greater than `key`.
    pub fn key_lookup(&self, key: TxOffset) -> (r: Result<(TxOffset, u64), IndexError>)
        requires
            self.wf(),
        ensures
            looked_up(lookup(self@, key), r),
    {
        let n = position(&self.entries, key);
        if n == 0 {
            Err(IndexError::KeyNotFound)
        } else {
            proof {
                lemma_count_le(self.entries@, key);
            }
            Ok((self.entries[n - 1].key, self.entries[n - 1].value))
        }
    }
}

/// The result of looking for a key.
pub open spec fn looked_up(
    found: Option<Entry>,
    r: Result<(TxOffset, u64), IndexError>,
) -> bool {
    match found {
        Some(entry) => r == Ok::<(TxOffset, u64), IndexError>((entry.key, entry.value)),
        None => r == Err::<(TxOffset, u64), IndexError>(IndexError::KeyNotFound),
    }
}

/// What is found of a key: the largest one that is not greater.
pub proof fn law_lookup_finds_the_largest_key_below(entries: Seq<Entry>, key: TxOffset)
    requires
        ascending(entries),
    ensures
        match lookup(entries, key) {
            Some(entry) => {
                &&& entries.contains(entry)
                &&& entry.key <= key
                &&& forall|i: int|
                    0 <= i < entries.len() && (#[trigger] entries[i]).key <= key
                        ==> entries[i].key <= entry.key
            },
            None => forall|i: int| 0 <= i < entries.len() ==> (#[trigger] entries[i]).key > key,
        },
{
    lemma_count_le(entries, key);
    let n = count_le(entries, key) as int;
    if n > 0 {
        assert(entries[n - 1].key <= key);
        assert(entries.contains(entries[n - 1]));
    }
}

/// An appended entry is found under its key, and under all greater ones.
pub proof fn law_appended_entry_is_found(
    index: IndexView,
    key: TxOffset,
    value: u64,
    asked: TxOffset,
)
    requires
        index.wf(),
        index.append_error(key) is None,
        asked >= key,
    ensures
        index.appended(key, value).wf(),
        lookup(index.appended(key, value).entries, asked) == Some(Entry { key, value }),
{
    let after = index.appended(key, value).entries;
    lemma_count_le(after, asked);
    let n = count_le(after, asked) as int;
    if n < after.len() {
        assert(after[n].key <= key) by {
            if n < index.entries.len() {
                assert(index.entries[n].key <= index.last_key());
            }
        }
    }
}

/// After truncating to a key, only the smaller keys are left, with what they
/// stand for.
pub proof fn law_truncate_keeps_the_smaller_keys(index: IndexView, key: TxOffset)
    requires
        index.wf(),
        lookup(index.entries, key) is Some,
    ensures
        index.truncated(key).wf(),
        forall|e: Entry|
            index.truncated(key).entries.contains(e) <==> index.entries.contains(e) && e.key < key,
{
    lemma_count_le(index.entries, key);
    let n = count_le(index.entries, key) as int;
    assert(index.entries[n - 1].key > 0 && index.entries[n - 1].key <= key);
    lemma_count_le(index.entries, (key - 1) as u64);
    let after = index.truncated(key).entries;
    assert forall|e: Entry|
        after.contains(e) <==> index.entries.contains(e) && e.key < key by {
        if after.contains(e) {
            let i = choose|i: int| 0 <= i < after.len() && after[i] == e;
            assert(index.entries[i] == e);
        }
        if index.entries.contains(e) && e.key < key {
            let i = choose|i: int| 0 <= i < index.entries.len() && index.entries[i] == e;
            assert(after[i] == e);
        }
    }
}

proof fn lemma_entry_at(entries: Seq<Entry>, i: int)
    requires
        0 <= i < entries.len(),
    ensures
        entries_bytes(entries).subrange(16 * i, 16 * i + 16) == le::le_bytes(
            entries[i].key as nat,
            8,
        ) + le::le_bytes(entries[i].value as nat, 8),
    decreases entries.len(),
{
    let front = entries.drop_last();
    lemma_entries_bytes_len(front);
    lemma_entries_bytes_len(entries);
    le::lemma_le_bytes_len(entries.last().key as nat, 8);
    le::lemma_le_bytes_len(entries.last().value as nat, 8);
    if i < entries.len() - 1 {
        lemma_entry_at(front, i);
        assert(entries_bytes(entries).subrange(16 * i, 16 * i + 16) =~= entries_bytes(
            front,
        ).subrange(16 * i, 16 * i + 16));
        assert(front[i] == entries[i]);
    } else {
        assert(entries_bytes(entries).subrange(16 * i, 16 * i + 16) =~= le::le_bytes(
            entries[i].key as nat,
            8,
        ) + le::le_bytes(entries[i].value as nat, 8));
    }
}

proof fn lemma_entries_in(index: IndexView, i: nat)
    requires
        index.wf(),
        i <= index.entries.len(),
    ensures
        entries_in(
            index.bytes(),
            i,
            if i == 0 {
                0
            } else {
                index.entries[i - 1].key
            },
        ) == index.entries.skip(i as int),
    decreases index.entries.len() - i,
{
    let s = index.bytes();
    let all = entries_bytes(index.entries);
    lemma_entries_bytes_len(index.entries);
    le::lemma_le_bounds();
    if i < index.entries.len() {
        let e = index.entries[i as int];
        lemma_entry_at(index.entries, i as int);
        le::lemma_le_bytes_len(e.key as nat, 8);
        le::lemma_le_bytes_len(e.value as nat, 8);
        le::lemma_le_value_of_bytes(e.key as nat, 8);
        le::lemma_le_value_of_bytes(e.value as nat, 8);
        let at = 16 * i as int;
        let part = all.subrange(at, at + 16);
        assert(s.subrange(at, at + 8) =~= part.take(8));
        assert(s.subrange(at + 8, at + 16) =~= part.skip(8));
        assert(part.take(8) =~= le::le_bytes(e.key as nat, 8));
        assert(part.skip(8) =~= le::le_bytes(e.value as nat, 8));
        assert(entry_at(s, i as int) == e);
        lemma_entries_in(index, i + 1);
        assert(seq![e] + index.entries.skip(i as int + 1) =~= index.entries.skip(i as int));
    } else {
        assert(index.entries.skip(i as int) =~= Seq::empty());
        if 16 * i + 16 <= s.len() {
            let at = 16 * i as int;
            let z = s.subrange(at, at + 8);
            le::lemma_le_value_of_bytes(0, 8);
            lemma_zeros(8);
            assert(z =~= le::le_bytes(0, 8));
            assert(entry_at(s, i as int).key == 0);
        }
    }
}

proof fn lemma_zeros(n: nat)
    ensures
        le::le_bytes(0, n).len() == n,
        forall|i: int| 0 <= i < n ==> #[trigger] le::le_bytes(0, n)[i] == 0,
    decreases n,
{
    if n > 0 {
        lemma_zeros((n - 1) as nat);
    }
}

/// Opening the stored form of an index gives back its entries.
pub proof fn law_stored_index_is_opened(index: IndexView)
    requires
        index.wf(),
    ensures
        entries_in(index.bytes(), 0, 0) == index.entries,
        index.bytes().len() / 16 == index.cap,
{
    lemma_entries_in(index, 0);
    assert(index.entries.skip(0) =~= index.entries);
}

} // verus!
