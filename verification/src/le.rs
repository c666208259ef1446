//! Little-endian byte encodings of the integers that are stored on disk.

use vstd::prelude::*;

verus! {

/// The `n` lowest base-256 digits of `v`, least significant first.
pub open spec fn le_bytes(v: nat, n: nat) -> Seq<u8>
    decreases n,
{
    if n == 0 {
        Seq::empty()
    } else {
        seq![(v % 256) as u8] + le_bytes(v / 256, (n - 1) as nat)
    }
}

/// The number whose base-256 digits are `s`, least significant first.
pub open spec fn le_value(s: Seq<u8>) -> nat
    decreases s.len(),
{
    if s.len() == 0 {
        0
    } else {
        s[0] as nat + 256 * le_value(s.drop_first())
    }
}

/// The numbers that `n` bytes can hold are those below `le_bound(n)`.
pub open spec fn le_bound(n: nat) -> nat
    decreases n,
{
    if n == 0 {
        1
    } else {
        256 * le_bound((n - 1) as nat)
    }
}

pub proof fn lemma_le_bytes_len(v: nat, n: nat)
    ensures
        le_bytes(v, n).len() == n,
    decreases n,
{
    if n > 0 {
        lemma_le_bytes_len(v / 256, (n - 1) as nat);
    }
}

/// Reading back the bytes of a number that fits gives the number.
pub proof fn lemma_le_value_of_bytes(v: nat, n: nat)
    requires
        v < le_bound(n),
    ensures
        le_value(le_bytes(v, n)) == v,
        le_bytes(v, n).len() == n,
    decreases n,
{
    lemma_le_bytes_len(v, n);
    if n > 0 {
        lemma_le_value_of_bytes(v / 256, (n - 1) as nat);
        assert(le_bytes(v, n).drop_first() =~= le_bytes(v / 256, (n - 1) as nat));
    }
}

/// The bytes of the number that `s` stands for are `s`.
pub proof fn lemma_le_bytes_of_value(s: Seq<u8>)
    ensures
        le_bytes(le_value(s), s.len()) == s,
        le_value(s) < le_bound(s.len()),
    decreases s.len(),
{
    if s.len() > 0 {
        let t = s.drop_first();
        lemma_le_bytes_of_value(t);
        let v = le_value(s);
        assert(v % 256 == s[0] as nat && v / 256 == le_value(t)) by (nonlinear_arith)
            requires
                v == s[0] as nat + 256 * le_value(t),
        ;
        assert(le_bytes(v, s.len()) =~= s);
    }
}

pub proof fn lemma_le_bounds()
    ensures
        le_bound(2) == 0x1_0000,
        le_bound(4) == 0x1_0000_0000,
        le_bound(8) == 0x1_0000_0000_0000_0000,
{
    reveal_with_fuel(le_bound, 9);
}

/// `data`, followed by zeros up to `n` bytes.
pub open spec fn zero_padded(data: Seq<u8>, n: nat) -> Seq<u8> {
    Seq::new(
        n,
        |i: int|
            if i < data.len() {
                data[i]
            } else {
                0
            },
    )
}

/// `zerocopy::little_endian::U16::new` followed by `to_bytes`: the two bytes
/// of `v`, least significant first.
#[verifier::external_body]
pub(crate) fn u16_to_le(v: u16) -> (r: [u8; 2])
    ensures
        r@ == le_bytes(v as nat, 2),
{
    zerocopy::little_endian::U16::new(v).to_bytes()
}

/// `zerocopy::little_endian::U32::new` followed by `to_bytes`: the four bytes
/// of `v`, least significant first.
#[verifier::external_body]
pub(crate) fn u32_to_le(v: u32) -> (r: [u8; 4])
    ensures
        r@ == le_bytes(v as nat, 4),
{
    zerocopy::little_endian::U32::new(v).to_bytes()
}

/// `zerocopy::little_endian::U64::new` followed by `to_bytes`: the eight bytes
/// of `v`, least significant first.
#[verifier::external_body]
pub(crate) fn u64_to_le(v: u64) -> (r: [u8; 8])
    ensures
        r@ == le_bytes(v as nat, 8),
{
    zerocopy::little_endian::U64::new(v).to_bytes()
}

/// `zerocopy::little_endian::U16::from_bytes` followed by `get`: the number
/// whose bytes are `b`, least significant first.
#[verifier::external_body]
pub(crate) fn u16_from_le(b: [u8; 2]) -> (r: u16)
    ensures
        r as nat == le_value(b@),
{
    zerocopy::little_endian::U16::from_bytes(b).get()
}

/// `zerocopy::little_endian::U32::from_bytes` followed by `get`: the number
/// whose bytes are `b`, least significant first.
#[verifier::external_body]
pub(crate) fn u32_from_le(b: [u8; 4]) -> (r: u32)
    ensures
        r as nat == le_value(b@),
{
    zerocopy::little_endian::U32::from_bytes(b).get()
}

/// `zerocopy::little_endian::U64::from_bytes` followed by `get`: the number
/// whose bytes are `b`, least significant first.
#[verifier::external_body]
pub(crate) fn u64_from_le(b: [u8; 8]) -> (r: u64)
    ensures
        r as nat == le_value(b@),
{
    zerocopy::little_endian::U64::from_bytes(b).get()
}

/// Reads the two bytes at `at`.
pub fn read_u16(s: &[u8], at: usize) -> (r: u16)
    requires
        at + 2 <= s@.len(),
    ensures
        r as nat == le_value(s@.subrange(at as int, at + 2)),
{
    let b = [s[at], s[at + 1]];
    assert(b@ =~= s@.subrange(at as int, at + 2));
    u16_from_le(b)
}

/// Reads the four bytes at `at`.
pub fn read_u32(s: &[u8], at: usize) -> (r: u32)
    requires
        at + 4 <= s@.len(),
    ensures
        r as nat == le_value(s@.subrange(at as int, at + 4)),
{
    let b = [s[at], s[at + 1], s[at + 2], s[at + 3]];
    assert(b@ =~= s@.subrange(at as int, at + 4));
    u32_from_le(b)
}

/// Reads the eight bytes at `at`.
pub fn read_u64(s: &[u8], at: usize) -> (r: u64)
    requires
        at + 8 <= s@.len(),
    ensures
        r as nat == le_value(s@.subrange(at as int, at + 8)),
{
    let b = [
        s[at],
        s[at + 1],
        s[at + 2],
        s[at + 3],
        s[at + 4],
        s[at + 5],
        s[at + 6],
        s[at + 7],
    ];
    assert(b@ =~= s@.subrange(at as int, at + 8));
    u64_from_le(b)
}

/// Appends the bytes of `s` to `out`.
pub fn put_slice(out: &mut Vec<u8>, s: &[u8])
    ensures
        final(out)@ == old(out)@ + s@,
{
    out.extend_from_slice(s);
    assert(out@ =~= old(out)@ + s@);
}

/// The 32 bytes at `at`.
pub fn read_32(s: &[u8], at: usize) -> (r: [u8; 32])
    requires
        at + 32 <= s@.len(),
    ensures
        r@ == s@.subrange(at as int, at + 32),
{
    let len = s.len();
    let mut out: [u8; 32] = [0; 32];
    let mut i: usize = 0;
    while i < 32
        invariant
            i <= 32,
            at + 32 <= len == s@.len(),
            forall|j: int| 0 <= j < i ==> #[trigger] out@[j] == s@[at + j],
        decreases 32 - i,
    {
        out[i] = s[at + i];
        i += 1;
    }
    assert(out@ =~= s@.subrange(at as int, at + 32));
    out
}

/// The bytes from `start` to `end`.
pub fn read_vec(s: &[u8], start: usize, end: usize) -> (r: Vec<u8>)
    requires
        start <= end <= s@.len(),
    ensures
        r@ == s@.subrange(start as int, end as int),
{
    let part = vstd::slice::slice_subrange(s, start, end);
    let mut out: Vec<u8> = Vec::new();
    put_slice(&mut out, part);
    assert(out@ =~= s@.subrange(start as int, end as int));
    out
}

/// Numbers of equal length have equal bytes only if they are equal.
pub proof fn lemma_le_bytes_injective(a: nat, b: nat, n: nat)
    requires
        a < le_bound(n),
        b < le_bound(n),
        le_bytes(a, n) == le_bytes(b, n),
    ensures
        a == b,
{
    lemma_le_value_of_bytes(a, n);
    lemma_le_value_of_bytes(b, n);
}

/// Whether the bytes are the same.
pub fn bytes_eq(a: &[u8], b: &[u8]) -> (r: bool)
    ensures
        r == (a@ == b@),
{
    if a.len() != b.len() {
        return false;
    }
    let len = a.len();
    let mut i: usize = 0;
    while i < len
        invariant
            i <= len == a@.len() == b@.len(),
            forall|j: int| 0 <= j < i ==> #[trigger] a@[j] == b@[j],
        decreases len - i,
    {
        if a[i] != b[i] {
            return false;
        }
        i += 1;
    }
    assert(a@ =~= b@);
    true
}

} // verus!
