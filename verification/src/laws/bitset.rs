//! What is promised of bitsets.

use vstd::prelude::*;

use crate::bitset;
use crate::bitset::{Bitset, Bound};
use crate::le;

verus! {

/// A set made of words holds one bit for each word, the lowest bit of the first
/// word first.
pub proof fn law_bits_of_words(words: Vec<u64>, set: Bitset, bit: usize, r: bool)
    requires
        bit < words@.len(),
        call_ensures(Bitset::from_bits, (words,), set),
        call_ensures(Bitset::is_set, (&set, bit), r),
    ensures
        set@.len() == words@.len(),
        r <==> (words@[bit as int / 64] >> ((bit % 64) as u64)) & 1 == 1,
{
}

/// Setting a bit sets that bit and no other.
pub proof fn law_set_sets_one_bit(bit: usize, other: usize, was: bool, is: bool)
    ensures
        forall|set: &mut Bitset|
            #![trigger call_ensures(Bitset::set, (set, bit), ())]
            call_ensures(Bitset::set, (set, bit), ()) && bit < set@.len() && other < set@.len()
                && call_ensures(Bitset::is_set, (&*set, other), was) && call_ensures(
                Bitset::is_set,
                (&*final(set), other),
                is,
            ) ==> is == (was || other == bit),
{
}

/// Unsetting a bit unsets that bit and no other.
pub proof fn law_unset_unsets_one_bit(bit: usize, other: usize, was: bool, is: bool)
    ensures
        forall|set: &mut Bitset|
            #![trigger call_ensures(Bitset::unset, (set, bit), ())]
            call_ensures(Bitset::unset, (set, bit), ()) && bit < set@.len() && other < set@.len()
                && call_ensures(Bitset::is_set, (&*set, other), was) && call_ensures(
                Bitset::is_set,
                (&*final(set), other),
                is,
            ) ==> is == (was && other != bit),
{
}

/// The bit that is found is not set, and all bits of the range before it are.
pub proof fn law_first_unset_bit_is_found(
    set: Bitset,
    start: usize,
    end: usize,
    r: Option<usize>,
)
    requires
        start <= end <= set@.len(),
        call_ensures(Bitset::first_unset_in, (&set, start, end), r),
    ensures
        match r {
            Some(i) => start <= i < end && !set@[i as int] && forall|j: int|
                start <= j < i ==> #[trigger] set@[j],
            None => forall|j: int| start <= j < end ==> #[trigger] set@[j],
        },
{
    bitset::lemma_lowest_false(set@, start as int, end as int);
}

/// Whether a position lies between two bounds.
pub open spec fn between(start: Bound, end: Bound, j: int) -> bool {
    (match start {
        Bound::Included(n) => n <= j,
        Bound::Excluded(n) => n < j,
        Bound::Unbounded => true,
    }) && (match end {
        Bound::Included(n) => j <= n,
        Bound::Excluded(n) => j < n,
        Bound::Unbounded => true,
    })
}

/// The bit that is found between two bounds is not set, and all bits between the
/// bounds before it are. Ranges that end with the last `usize` are left out: in
/// those nothing is found.
pub proof fn law_first_unset_bit_between_bounds(
    set: Bitset,
    start: Bound,
    end: Bound,
    r: Option<usize>,
)
    requires
        set@.len() <= usize::MAX,
        start != Bound::Excluded(usize::MAX),
        end != Bound::Included(usize::MAX),
        start.first() <= end.past_last(set@.len() as int) <= set@.len(),
        call_ensures(Bitset::first_unset, (&set, start, end), r),
    ensures
        match r {
            Some(i) => i < set@.len() && between(start, end, i as int) && !set@[i as int]
                && forall|j: int|
                0 <= j < i && between(start, end, j) ==> #[trigger] set@[j],
            None => forall|j: int|
                0 <= j < set@.len() && between(start, end, j) ==> #[trigger] set@[j],
        },
{
    lemma_bounds_fit(start, end, set@.len() as int);
    bitset::lemma_lowest_false(set@, start.first(), end.past_last(set@.len() as int));
}

proof fn lemma_bounds_fit(start: Bound, end: Bound, len: int)
    requires
        len <= usize::MAX,
        start != Bound::Excluded(usize::MAX),
        end != Bound::Included(usize::MAX),
    ensures
        bitset::bounds_fit(start, end, len),
{
    match start {
        Bound::Excluded(n) => {
            assert(n < usize::MAX);
        },
        _ => {},
    }
    match end {
        Bound::Included(n) => {
            assert(n < usize::MAX);
        },
        _ => {},
    }
}

/// All bits between two bounds are set if and only if each is.
pub proof fn law_all_set(set: Bitset, start: Bound, end: Bound, r: bool)
    requires
        set@.len() <= usize::MAX,
        start != Bound::Excluded(usize::MAX),
        end != Bound::Included(usize::MAX),
        start.first() <= end.past_last(set@.len() as int) <= set@.len(),
        call_ensures(Bitset::all_set, (&set, start, end), r),
    ensures
        r <==> forall|j: int|
            0 <= j < set@.len() && between(start, end, j) ==> #[trigger] set@[j],
{
    lemma_bounds_fit(start, end, set@.len() as int);
    if r {
        assert forall|j: int| 0 <= j < set@.len() && between(start, end, j) implies
            #[trigger] set@[j] by {
            assert(start.first() <= j < end.past_last(set@.len() as int));
        }
    } else {
        let j = choose|j: int|
            start.first() <= j < end.past_last(set@.len() as int) && !(#[trigger] set@[j]);
        assert(between(start, end, j));
    }
}

proof fn lemma_bit_of_byte(
    b0: u64,
    b1: u64,
    b2: u64,
    b3: u64,
    b4: u64,
    b5: u64,
    b6: u64,
    b7: u64,
    w: u64,
    s: u64,
)
    by (bit_vector)
    requires
        b0 < 256,
        b1 < 256,
        b2 < 256,
        b3 < 256,
        b4 < 256,
        b5 < 256,
        b6 < 256,
        b7 < 256,
        w == b0 | (b1 << 8) | (b2 << 16) | (b3 << 24) | (b4 << 32) | (b5 << 40) | (b6 << 48) | (b7
            << 56),
        s < 64,
    ensures
        s < 8 ==> (w >> s) & 1 == (b0 >> s) & 1,
        8 <= s < 16 ==> (w >> s) & 1 == (b1 >> ((s - 8) as u64)) & 1,
        16 <= s < 24 ==> (w >> s) & 1 == (b2 >> ((s - 16) as u64)) & 1,
        24 <= s < 32 ==> (w >> s) & 1 == (b3 >> ((s - 24) as u64)) & 1,
        32 <= s < 40 ==> (w >> s) & 1 == (b4 >> ((s - 32) as u64)) & 1,
        40 <= s < 48 ==> (w >> s) & 1 == (b5 >> ((s - 40) as u64)) & 1,
        48 <= s < 56 ==> (w >> s) & 1 == (b6 >> ((s - 48) as u64)) & 1,
        56 <= s < 64 ==> (w >> s) & 1 == (b7 >> ((s - 56) as u64)) & 1,
{
}

proof fn lemma_sum_is_or(
    b0: u64,
    b1: u64,
    b2: u64,
    b3: u64,
    b4: u64,
    b5: u64,
    b6: u64,
    b7: u64,
)
    by (bit_vector)
    requires
        b0 < 256,
        b1 < 256,
        b2 < 256,
        b3 < 256,
        b4 < 256,
        b5 < 256,
        b6 < 256,
        b7 < 256,
    ensures
        b0 + 256 * b1 + 65536 * b2 + 16777216 * b3 + 4294967296 * b4 + 1099511627776 * b5
            + 281474976710656 * b6 + 72057594037927936 * b7 == (b0 | (b1 << 8) | (b2 << 16) | (b3
            << 24) | (b4 << 32) | (b5 << 40) | (b6 << 48) | (b7 << 56)),
{
}

proof fn lemma_word_of_bytes(s: Seq<u8>)
    requires
        s.len() == 8,
    ensures
        le::le_value(s) == s[0] + 256 * s[1] + 65536 * s[2] + 16777216 * s[3] + 4294967296 * s[4]
            + 1099511627776 * s[5] + 281474976710656 * s[6] + 72057594037927936 * s[7],
{
    reveal_with_fuel(le::le_value, 9);
    let t1 = s.drop_first();
    let t2 = t1.drop_first();
    let t3 = t2.drop_first();
    let t4 = t3.drop_first();
    let t5 = t4.drop_first();
    let t6 = t5.drop_first();
    let t7 = t6.drop_first();
    assert(t1[0] == s[1] && t2[0] == s[2] && t3[0] == s[3] && t4[0] == s[4] && t5[0] == s[5]
        && t6[0] == s[6] && t7[0] == s[7]);
    assert(t7.drop_first().len() == 0);
}

proof fn lemma_bit_of_word(s: Seq<u8>, i: int)
    requires
        s.len() == 8,
        0 <= i < 64,
    ensures
        bitset::word_bit(le::le_value(s) as u64, i) == ((s[i / 8] as u64 >> ((i % 8) as u64)) & 1
            == 1),
{
    lemma_word_of_bytes(s);
    let (b0, b1, b2, b3) = (s[0] as u64, s[1] as u64, s[2] as u64, s[3] as u64);
    let (b4, b5, b6, b7) = (s[4] as u64, s[5] as u64, s[6] as u64, s[7] as u64);
    lemma_sum_is_or(b0, b1, b2, b3, b4, b5, b6, b7);
    let w = le::le_value(s) as u64;
    lemma_bit_of_byte(b0, b1, b2, b3, b4, b5, b6, b7, w, i as u64);
}

/// The bit of weight `2^(i % 8)` of byte `i / 8` of the data. It is not set behind
/// the end of the data.
pub open spec fn bit_of(data: Seq<u8>, i: int) -> bool {
    i / 8 < data.len() && (data[i / 8] as u64 >> ((i % 8) as u64)) & 1 == 1
}

pub proof fn lemma_loaded_bit(data: Seq<u8>, n: nat, i: int)
    requires
        data.len() <= 8 * n,
        0 <= i < n,
    ensures
        Bitset::loaded(data, n).len() == n,
        Bitset::loaded(data, n)[i] <==> bit_of(data, i),
{
    let padded = le::zero_padded(data, 8 * n);
    let k = i / 64;
    let s = padded.subrange(8 * k, 8 * k + 8);
    lemma_bit_of_word(s, i % 64);
    let j = i / 8;
    assert(s[(i % 64) / 8] == padded[j]);
    assert((i % 64) % 8 == i % 8);
    if j >= data.len() {
        let t = (i % 8) as u64;
        assert((0u64 >> t) & 1 == 0) by (bit_vector);
    }
}

/// The bits of a set that is loaded are those of the data.
pub proof fn law_loaded_bits_are_those_of_the_data(
    data: &[u8],
    storage: Vec<u64>,
    set: Bitset,
    i: int,
)
    requires
        data@.len() <= 8 * storage@.len(),
        call_ensures(Bitset::load, (data, storage), set),
        0 <= i < storage@.len(),
    ensures
        set@.len() == storage@.len(),
        set@[i] <==> bit_of(data@, i),
{
    lemma_loaded_bit(data@, storage@.len(), i);
}

/// Loading the bytes of a set gives back the set.
pub proof fn law_stored_set_is_loaded(
    set: Bitset,
    bytes: Vec<u8>,
    data: &[u8],
    storage: Vec<u64>,
    loaded: Bitset,
)
    requires
        set.wf(),
        call_ensures(Bitset::as_bytes, (&set,), bytes),
        data@ == bytes@,
        storage@.len() == set@.len(),
        call_ensures(Bitset::load, (data, storage), loaded),
    ensures
        bytes@.len() == 8 * set@.len(),
        loaded@ == set@,
{
    set.lemma_view_of_words();
    bitset::law_load_gives_back_stored_set(set);
}

/// The number of bits of a set.
pub proof fn law_length(set: Bitset, len: usize, empty: bool)
    requires
        call_ensures(Bitset::len, (&set,), len),
        call_ensures(Bitset::is_empty, (&set,), empty),
    ensures
        len == set@.len(),
        empty <==> len == 0,
{
}

} // verus!
