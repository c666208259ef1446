//! A set of small integers, kept as bits in 64-bit words.

use vstd::prelude::*;

use crate::le;

verus! {

pub const WORD_BITS: usize = 64;

/// An end of a range of bit positions.
#[derive(Clone, Copy, Debug)]
pub enum Bound {
    /// The range ends at this position and holds it.
    Included(usize),
    /// The range ends at this position and does not hold it.
    Excluded(usize),
    /// The range goes on to the end of the set.
    Unbounded,
}

impl Bound {
    /// The first position of a range that starts at `self`.
    pub open spec fn first(self) -> int {
        match self {
            Bound::Included(n) => n as int,
            Bound::Excluded(n) => n + 1,
            Bound::Unbounded => 0,
        }
    }

    /// One past the last position of a range over `len` positions that ends at
    /// `self`.
    pub open spec fn past_last(self, len: int) -> int {
        match self {
            Bound::Included(n) => n + 1,
            Bound::Excluded(n) => n as int,
            Bound::Unbounded => len,
        }
    }
}

/// Whether both ends of the range can be written as a `usize`.
pub open spec fn bounds_fit(start: Bound, end: Bound, len: int) -> bool {
    start.first() <= usize::MAX && end.past_last(len) <= usize::MAX
}

/// The position that was found, if any.
pub open spec fn position(p: Option<usize>) -> Option<int> {
    match p {
        Some(i) => Some(i as int),
        None => None,
    }
}

/// The bit of weight `2^i` of `word`.
pub open spec fn word_bit(word: u64, i: int) -> bool {
    (word >> (i as u64)) & 1 == 1
}

/// The lowest position in `start..end` whose element is `false`.
pub open spec fn lowest_false(s: Seq<bool>, start: int, end: int) -> Option<int>
    decreases end - start,
{
    if start >= end {
        None
    } else if !s[start] {
        Some(start)
    } else {
        lowest_false(s, start + 1, end)
    }
}

/// What `lowest_false` means: it is in the range, its element is `false`, and
/// all before it are `true`.
pub proof fn lemma_lowest_false(s: Seq<bool>, start: int, end: int)
    ensures
        match lowest_false(s, start, end) {
            Some(i) => start <= i < end && !s[i] && forall|j: int|
                start <= j < i ==> #[trigger] s[j],
            None => forall|j: int| start <= j < end ==> #[trigger] s[j],
        },
    decreases end - start,
{
    if start < end && s[start] {
        lemma_lowest_false(s, start + 1, end);
    }
}

/// A position with the properties of the lowest one is the lowest one.
pub proof fn lemma_lowest_false_is(s: Seq<bool>, start: int, end: int, i: int)
    requires
        start <= i < end,
        !s[i],
        forall|j: int| start <= j < i ==> #[trigger] s[j],
    ensures
        lowest_false(s, start, end) == Some(i),
    decreases i - start,
{
    if start < i {
        lemma_lowest_false_is(s, start + 1, end, i);
    }
}

/// Where all elements are `true`, there is no lowest `false`.
pub proof fn lemma_lowest_false_none(s: Seq<bool>, start: int, end: int)
    requires
        forall|j: int| start <= j < end ==> #[trigger] s[j],
    ensures
        lowest_false(s, start, end) is None,
    decreases end - start,
{
    if start < end {
        lemma_lowest_false_none(s, start + 1, end);
    }
}

/// The bytes of `words`, eight for each, least significant first.
pub open spec fn words_bytes(words: Seq<u64>) -> Seq<u8> {
    Seq::new(8 * words.len(), |i: int| le::le_bytes(words[i / 8] as nat, 8)[i % 8])
}

/// The words whose bytes are `data`, and as many zero words behind them as it
/// takes to have `n`.
pub open spec fn bytes_words(data: Seq<u8>, n: nat) -> Seq<u64> {
    Seq::new(
        n,
        |k: int| le::le_value(le::zero_padded(data, 8 * n).subrange(8 * k, 8 * k + 8)) as u64,
    )
}

/// Loading the bytes of a set gives back the set.
pub proof fn law_load_gives_back_stored_set(set: Bitset)
    requires
        set.wf(),
    ensures
        Bitset::loaded(words_bytes(set.words()), set.words().len()) == set@,
{
    lemma_words_of_bytes(set.words());
    set.lemma_view_of_words();
}

proof fn lemma_words_of_bytes(words: Seq<u64>)
    ensures
        bytes_words(words_bytes(words), words.len()) == words,
{
    let data = words_bytes(words);
    let n = words.len();
    assert forall|k: int| 0 <= k < n implies bytes_words(data, n)[k] == words[k] by {
        le::lemma_le_bounds();
        le::lemma_le_value_of_bytes(words[k] as nat, 8);
        let part = le::zero_padded(data, 8 * n).subrange(8 * k, 8 * k + 8);
        assert forall|j: int| 0 <= j < 8 implies part[j] == le::le_bytes(
            words[k] as nat,
            8,
        )[j] by {
            assert((8 * k + j) / 8 == k && (8 * k + j) % 8 == j);
        }
        assert(part =~= le::le_bytes(words[k] as nat, 8));
    }
    assert(bytes_words(data, n) =~= words);
}

proof fn lemma_mask_test(w: u64, s: u64)
    by (bit_vector)
    requires
        s < 64,
    ensures
        (w & (1u64 << s)) != 0 <==> (w >> s) & 1 == 1,
{
}

proof fn lemma_set_bit(w: u64, s: u64, j: u64)
    by (bit_vector)
    requires
        s < 64,
        j < 64,
    ensures
        ((w | (1u64 << s)) >> j) & 1 == 1 <==> (j == s || (w >> j) & 1 == 1),
{
}

proof fn lemma_unset_bit(w: u64, s: u64, j: u64)
    by (bit_vector)
    requires
        s < 64,
        j < 64,
    ensures
        ((w & !(1u64 << s)) >> j) & 1 == 1 <==> (j != s && (w >> j) & 1 == 1),
{
}

proof fn lemma_low_mask(l: u64)
    by (bit_vector)
    requires
        l < 64,
    ensures
        (1u64 << l) >= 1,
{
}

/// The bits of the mask that `first_unset` looks at: the clear bits of `w` from
/// `f` on, up to `l` where `l` is under 64.
proof fn lemma_mask_bits(w: u64, f: u64, l: u64, m: u64, j: u64)
    by (bit_vector)
    requires
        f < 64,
        l <= 64,
        j < 64,
        l < 64 ==> m == (!w & (0xffff_ffff_ffff_ffffu64 << f)) & (((1u64 << l) - 1) as u64),
        l == 64 ==> m == (!w & (0xffff_ffff_ffff_ffffu64 << f)),
    ensures
        (m >> j) & 1 == 1 <==> (f <= j && j < l && (w >> j) & 1 != 1),
        (m >> j) & 1 == 0 || (m >> j) & 1 == 1,
{
}

proof fn lemma_zero_has_no_bit(j: u64)
    by (bit_vector)
    ensures
        (0u64 >> j) & 1 == 0,
{
}

/// A fixed number of bits, each of which is set or not.
pub struct Bitset {
    bits: Vec<u64>,
    len: usize,
}

impl View for Bitset {
    type V = Seq<bool>;

    closed spec fn view(&self) -> Seq<bool> {
        Seq::new(
            self.len as nat,
            |i: int| word_bit(self.bits@[i / WORD_BITS as int], i % WORD_BITS as int),
        )
    }
}

impl Bitset {
    pub closed spec fn wf(self) -> bool {
        self.len == self.bits@.len()
    }

    /// The words in which the bits are kept.
    pub closed spec fn words(self) -> Seq<u64> {
        self.bits@
    }

    /// One bit for each word; bit `i` is the bit of weight `2^(i % 64)` of word
    /// `i / 64`.
    pub open spec fn from_words(words: Seq<u64>) -> Seq<bool> {
        Seq::new(
            words.len(),
            |i: int| word_bit(words[i / WORD_BITS as int], i % WORD_BITS as int),
        )
    }

    /// The bits of the `n` words that are read from `data`.
    pub open spec fn loaded(data: Seq<u8>, n: nat) -> Seq<bool> {
        Self::from_words(bytes_words(data, n))
    }

    /// The bits are those of the words.
    pub proof fn lemma_view_of_words(self)
        requires
            self.wf(),
        ensures
            self@ == Self::from_words(self.words()),
            self@.len() == self.words().len(),
    {
        assert(self@ =~= Self::from_words(self.words()));
    }

    /// The set holds one bit for each word of `bits`; bit `i` is the bit of
    /// weight `2^(i % 64)` of word `i / 64`.
    pub fn from_bits(bits: Vec<u64>) -> (r: Self)
        ensures
            r.wf(),
            r.words() == bits@,
            r@ == Self::from_words(bits@),
    {
        let len = bits.len();
        let r = Self { bits, len };
        assert(r@ =~= Self::from_words(bits@));
        r
    }

    /// The set whose words are read from `data`, as many as there are in
    /// `storage`; words and parts of words behind the end of `data` are zero.
    pub fn load(data: &[u8], storage: Vec<u64>) -> (r: Self)
        requires
            data@.len() <= 8 * storage@.len(),
        ensures
            r.wf(),
            r.words() == bytes_words(data@, storage@.len()),
            r@ == Self::loaded(data@, storage@.len()),
    {
        let mut storage = storage;
        let ghost n = storage@.len();
        let ghost padded = le::zero_padded(data@, 8 * n);
        let total: usize = data.len();
        let full: usize = total / 8;
        let mut k: usize = 0;
        while k < storage.len()
            invariant
                storage@.len() == n,
                total == data@.len(),
                full == total / 8,
                data@.len() <= 8 * n,
                padded == le::zero_padded(data@, 8 * n),
                forall|j: int|
                    0 <= j < k ==> #[trigger] storage@[j] == bytes_words(data@, n)[j],
            decreases n - k,
        {
            let word: u64;
            if k < full {
                word = le::read_u64(data, k * 8);
                assert(data@.subrange(8 * k, 8 * k + 8) =~= padded.subrange(8 * k, 8 * k + 8));
            } else {
                let mut b: [u8; 8] = [0, 0, 0, 0, 0, 0, 0, 0];
                if k == full {
                    let base = full * 8;
                    let mut j: usize = 0;
                    while j < total - base
                        invariant
                            base == 8 * full,
                            total == data@.len(),
                            full == total / 8,
                            j <= total - base < 8,
                            forall|i: int| 0 <= i < j ==> #[trigger] b@[i] == data@[base + i],
                            forall|i: int| j <= i < 8 ==> #[trigger] b@[i] == 0,
                        decreases total - base - j,
                    {
                        b[j] = data[base + j];
                        j += 1;
                    }
                }
                assert(b@ =~= padded.subrange(8 * k, 8 * k + 8));
                word = le::u64_from_le(b);
            }
            storage[k] = word;
            k += 1;
        }
        assert(storage@ =~= bytes_words(data@, n));
        Self::from_bits(storage)
    }

    /// The bytes of the words, to be kept in a blob.
    pub fn as_bytes(&self) -> (r: Vec<u8>)
        ensures
            r@ == words_bytes(self.words()),
    {
        let mut out: Vec<u8> = Vec::new();
        let mut k: usize = 0;
        while k < self.bits.len()
            invariant
                k <= self.bits@.len(),
                out@.len() == 8 * k,
                forall|i: int|
                    0 <= i < out@.len() ==> #[trigger] out@[i] == words_bytes(self.bits@)[i],
            decreases self.bits@.len() - k,
        {
            let b = le::u64_to_le(self.bits[k]);
            le::put_slice(&mut out, b.as_slice());
            k += 1;
        }
        assert(out@ =~= words_bytes(self.bits@));
        out
    }

    pub fn is_set(&self, bit: usize) -> (r: bool)
        requires
            self.wf(),
            bit < self@.len(),
        ensures
            r == self@[bit as int],
    {
        let word = bit / WORD_BITS;
        let shift = (bit % WORD_BITS) as u64;
        let mask: u64 = 1u64 << shift;
        proof {
            lemma_mask_test(self.bits@[word as int], shift);
        }
        (self.bits[word] & mask) != 0
    }

    pub fn set(&mut self, bit: usize)
        requires
            old(self).wf(),
            bit < old(self)@.len(),
        ensures
            final(self).wf(),
            final(self)@ == old(self)@.update(bit as int, true),
            final(self).words() == old(self).words().update(
                bit as int / 64,
                old(self).words()[bit as int / 64] | (1u64 << ((bit % 64) as u64)),
            ),
    {
        let word = bit / WORD_BITS;
        let shift = (bit % WORD_BITS) as u64;
        let mask: u64 = 1u64 << shift;
        let ghost w = self.bits@[word as int];
        let value: u64 = self.bits[word] | mask;
        self.bits[word] = value;
        assert forall|i: int| 0 <= i < self.len implies self@[i] == old(self)@.update(
            bit as int,
            true,
        )[i] by {
            lemma_set_bit(w, shift, (i % 64) as u64);
            if i / 64 == word as int && i % 64 == shift as int {
                assert(i == bit);
            }
        }
        assert(self@ =~= old(self)@.update(bit as int, true));
    }

    pub fn unset(&mut self, bit: usize)
        requires
            old(self).wf(),
            bit < old(self)@.len(),
        ensures
            final(self).wf(),
            final(self)@ == old(self)@.update(bit as int, false),
            final(self).words() == old(self).words().update(
                bit as int / 64,
                old(self).words()[bit as int / 64] & !(1u64 << ((bit % 64) as u64)),
            ),
    {
        let word = bit / WORD_BITS;
        let shift = (bit % WORD_BITS) as u64;
        let mask: u64 = 1u64 << shift;
        let ghost w = self.bits@[word as int];
        let value: u64 = self.bits[word] & !mask;
        self.bits[word] = value;
        assert forall|i: int| 0 <= i < self.len implies self@[i] == old(self)@.update(
            bit as int,
            false,
        )[i] by {
            lemma_unset_bit(w, shift, (i % 64) as u64);
            if i / 64 == word as int && i % 64 == shift as int {
                assert(i == bit);
            }
        }
        assert(self@ =~= old(self)@.update(bit as int, false));
    }

    /// The lowest position between the two bounds whose bit is not set.
    ///
    /// There is none where a bound lies past the last `usize`.
    pub fn first_unset(&self, start: Bound, end: Bound) -> (r: Option<usize>)
        requires
            self.wf(),
            bounds_fit(start, end, self@.len() as int) ==> start.first() <= end.past_last(
                self@.len() as int,
            ) <= self@.len(),
        ensures
            position(r) == if bounds_fit(start, end, self@.len() as int) {
                lowest_false(self@, start.first(), end.past_last(self@.len() as int))
            } else {
                None
            },
    {
        let start: usize = match start {
            Bound::Included(n) => n,
            Bound::Excluded(n) => {
                if n == usize::MAX {
                    return None;
                }
                n + 1
            },
            Bound::Unbounded => 0,
        };
        let end: usize = match end {
            Bound::Included(n) => {
                if n == usize::MAX {
                    return None;
                }
                n + 1
            },
            Bound::Excluded(n) => n,
            Bound::Unbounded => self.len,
        };
        self.first_unset_in(start, end)
    }

    /// The lowest position in `start..end` whose bit is not set.
    pub fn first_unset_in(&self, start: usize, end: usize) -> (r: Option<usize>)
        requires
            self.wf(),
            start <= end <= self@.len(),
        ensures
            position(r) == lowest_false(self@, start as int, end as int),
    {
        let mut word_index: usize = start / WORD_BITS;
        let mut bit_index: usize = start;

        while bit_index < end
            invariant
                self.wf(),
                start <= bit_index <= end <= self@.len(),
                bit_index < end ==> word_index == bit_index / 64,
                forall|j: int| start <= j < bit_index ==> #[trigger] self@[j],
            decreases end - bit_index,
        {
            let word_start = word_index * WORD_BITS;
            let last_bit = if end - word_start < WORD_BITS {
                end - word_start
            } else {
                WORD_BITS
            };
            let first_bit = bit_index - word_start;

            let word = self.bits[word_index];
            let mut mask: u64 = !word;

            // Clear bits before the range start in the first word.
            mask = mask & (u64::MAX << (first_bit as u64));

            // Clear bits after the range end in the last word.
            if last_bit < WORD_BITS {
                proof {
                    lemma_low_mask(last_bit as u64);
                }
                mask = mask & ((1u64 << (last_bit as u64)) - 1);
            }
            if mask != 0 {
                let t = mask.trailing_zeros() as usize;
                proof {
                    vstd::std_specs::bits::axiom_u64_trailing_zeros(mask);
                    lemma_mask_bits(word, first_bit as u64, last_bit as u64, mask, t as u64);
                    let i = word_start + t;
                    assert(i / 64 == word_index && i % 64 == t);
                    assert(!self@[i]);
                    assert forall|j: int| start <= j < i implies #[trigger] self@[j] by {
                        if j >= bit_index {
                            let b = (j - word_start) as u64;
                            assert(j / 64 == word_index && j % 64 == b);
                            lemma_mask_bits(word, first_bit as u64, last_bit as u64, mask, b);
                        }
                    }
                    lemma_lowest_false_is(self@, start as int, end as int, i as int);
                }
                return Some(word_start + t);
            }
            proof {
                assert forall|j: int|
                    start <= j < word_start + last_bit implies #[trigger] self@[j] by {
                    if j >= bit_index {
                        let b = (j - word_start) as u64;
                        assert(j / 64 == word_index && j % 64 == b);
                        lemma_mask_bits(word, first_bit as u64, last_bit as u64, mask, b);
                        lemma_zero_has_no_bit(b);
                    }
                }
            }
            bit_index = word_start + last_bit;
            if bit_index < end {
                word_index += 1;
            }
        }
        proof {
            lemma_lowest_false_none(self@, start as int, end as int);
        }
        None
    }

    /// Whether all bits between the two bounds are set.
    pub fn all_set(&self, start: Bound, end: Bound) -> (r: bool)
        requires
            self.wf(),
            bounds_fit(start, end, self@.len() as int) ==> start.first() <= end.past_last(
                self@.len() as int,
            ) <= self@.len(),
        ensures
            r <==> (!bounds_fit(start, end, self@.len() as int) || forall|j: int|
                start.first() <= j < end.past_last(self@.len() as int) ==> #[trigger] self@[j]),
    {
        proof {
            lemma_lowest_false(self@, start.first(), end.past_last(self@.len() as int));
        }
        self.first_unset(start, end).is_none()
    }

    pub fn len(&self) -> (r: usize)
        ensures
            r == self@.len(),
    {
        self.len
    }

    pub fn is_empty(&self) -> (r: bool)
        ensures
            r == (self@.len() == 0),
    {
        self.len == 0
    }
}

} // verus!
