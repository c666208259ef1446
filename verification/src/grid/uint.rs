//! 256-bit integers as they are stored.

use vstd::prelude::*;

use crate::le;

verus! {

/// The number whose high and low 128 bits are given.
pub open spec fn from_halves(hi: u128, lo: u128) -> nat {
    hi as nat * le::le_bound(16) + lo as nat
}

/// `ethnum::U256::from_words` followed by `to_le_bytes`: the 32 bytes of the
/// number with the given halves, least significant first.
#[verifier::external_body]
fn u256_to_le(hi: u128, lo: u128) -> (r: [u8; 32])
    ensures
        r@ == le::le_bytes(from_halves(hi, lo), 32),
{
    ethnum::U256::from_words(hi, lo).to_le_bytes()
}

/// `ethnum::U256::from_le_bytes` followed by `into_words`: the high and the low
/// 128 bits of the number whose bytes are `b`, least significant first.
#[verifier::external_body]
fn u256_from_le(b: [u8; 32]) -> (r: (u128, u128))
    ensures
        from_halves(r.0, r.1) == le::le_value(b@),
{
    ethnum::U256::from_le_bytes(b).into_words()
}

/// A 256-bit integer, kept as 32 bytes, least significant first.
#[derive(Debug)]
pub struct U256([u8; 32]);

impl View for U256 {
    type V = Seq<u8>;

    closed spec fn view(&self) -> Seq<u8> {
        self.0@
    }
}

impl U256 {
    /// The integer with the given high and low halves.
    pub fn from_words(hi: u128, lo: u128) -> (r: Self)
        ensures
            r@ == le::le_bytes(from_halves(hi, lo), 32),
    {
        Self(u256_to_le(hi, lo))
    }

    /// The high and the low half.
    pub fn into_words(self) -> (r: (u128, u128))
        ensures
            from_halves(r.0, r.1) == le::le_value(self@),
    {
        u256_from_le(self.0)
    }

    /// The integer with the given bytes.
    pub fn from_array(bytes: [u8; 32]) -> (r: Self)
        ensures
            r@ == bytes@,
    {
        Self(bytes)
    }

    pub fn as_bytes(&self) -> (r: &[u8])
        ensures
            r@ == self@,
    {
        self.0.as_slice()
    }

    /// An integer is its 32 bytes.
    pub proof fn lemma_view(a: Self, b: Self)
        ensures
            a@.len() == 32,
            a@ == b@ ==> a == b,
    {
        if a@ == b@ {
            assert forall|i: int| 0 <= i < 32 implies a.0[i] == b.0[i] by {
                assert(a@[i] == b@[i]);
            }
            assert(a.0 =~= b.0);
        }
    }
}

impl PartialEq for U256 {
    fn eq(&self, other: &Self) -> (r: bool) {
        let mut i: usize = 0;
        while i < 32
            invariant
                i <= 32,
                forall|j: int| 0 <= j < i ==> self@[j] == other@[j],
            decreases 32 - i,
        {
            if self.0[i] != other.0[i] {
                return false;
            }
            i += 1;
        }
        assert(self@ =~= other@);
        true
    }
}

impl vstd::std_specs::cmp::PartialEqSpecImpl for U256 {
    open spec fn obeys_eq_spec() -> bool {
        true
    }

    open spec fn eq_spec(&self, other: &Self) -> bool {
        self@ == other@
    }
}

proof fn lemma_bound_sum(a: nat, b: nat)
    ensures
        le::le_bound(a + b) == le::le_bound(a) * le::le_bound(b),
    decreases a,
{
    if a == 0 {
        assert(1 * le::le_bound(b) == le::le_bound(b));
    } else {
        lemma_bound_sum((a - 1) as nat, b);
        assert((a + b - 1) as nat == (a - 1) as nat + b);
        assert(256 * (le::le_bound((a - 1) as nat) * le::le_bound(b)) == (256 * le::le_bound(
            (a - 1) as nat,
        )) * le::le_bound(b)) by (nonlinear_arith);
    }
}

/// The halves that were put into an integer come out of it again.
pub proof fn law_words_roundtrip(hi: u128, lo: u128, stored: Seq<u8>, hi2: u128, lo2: u128)
    requires
        stored == le::le_bytes(from_halves(hi, lo), 32),
        from_halves(hi2, lo2) == le::le_value(stored),
    ensures
        hi2 == hi,
        lo2 == lo,
{
    let m = le::le_bound(16);
    reveal_with_fuel(le::le_bound, 17);
    assert(m == 0x1_0000_0000_0000_0000_0000_0000_0000_0000);
    lemma_bound_sum(16, 16);
    assert(from_halves(hi, lo) < m * m) by (nonlinear_arith)
        requires
            from_halves(hi, lo) == hi as nat * m + lo as nat,
            (hi as nat) < m,
            (lo as nat) < m,
    ;
    le::lemma_le_value_of_bytes(from_halves(hi, lo), 32);
    assert(hi == hi2 && lo == lo2) by (nonlinear_arith)
        requires
            hi as nat * m + lo as nat == hi2 as nat * m + lo2 as nat,
            (lo as nat) < m,
            (lo2 as nat) < m,
    ;
}

} // verus!
