//! Checksums of stored data: 32-byte BLAKE3 hashes.

use vstd::prelude::*;
use vstd::string::*;

verus! {

/// What `blake3::hash` returns for `input`.
pub uninterp spec fn blake3_hash(input: Seq<u8>) -> Seq<u8>;

/// The bytes that were fed to `hasher` since it was made.
pub uninterp spec fn hasher_input(hasher: blake3::Hasher) -> Seq<u8>;

/// `blake3::Hasher`, which hashes data that comes in pieces. Nothing is known
/// of it but what the functions below say.
#[verifier::external_type_specification]
#[verifier::external_body]
pub struct ExHasher(blake3::Hasher);

/// `blake3::hash`: the 32-byte hash of `b`, named `blake3_hash`.
#[verifier::external_body]
fn hash(b: &[u8]) -> (r: [u8; 32])
    ensures
        r@ == blake3_hash(b@),
{
    *blake3::hash(b).as_bytes()
}

/// `blake3::Hasher::new`: a hasher that nothing was fed to.
#[verifier::external_body]
fn hasher_new() -> (r: blake3::Hasher)
    ensures
        hasher_input(r) == Seq::<u8>::empty(),
{
    blake3::Hasher::new()
}

/// `blake3::Hasher::update`: appends `b` to what was fed to the hasher.
#[verifier::external_body]
fn hasher_update(hasher: &mut blake3::Hasher, b: &[u8])
    ensures
        hasher_input(*final(hasher)) == hasher_input(*old(hasher)) + b@,
{
    hasher.update(b);
}

/// `blake3::Hasher::finalize`: the hash of all that was fed to the hasher, the
/// same that `blake3::hash` gives for it in one piece.
#[verifier::external_body]
fn hasher_finalize(hasher: blake3::Hasher) -> (r: [u8; 32])
    ensures
        r@ == blake3_hash(hasher_input(hasher)),
{
    hasher.finalize().into()
}

/// Either an AEGIS128L MAC, or a BLAKE3 hash.
#[derive(Clone, Copy, Debug, Eq, PartialOrd, Ord)]
pub struct Checksum([u8; 32]);

impl View for Checksum {
    type V = Seq<u8>;

    closed spec fn view(&self) -> Seq<u8> {
        self.0@
    }
}

impl PartialEq for Checksum {
    fn eq(&self, other: &Self) -> (r: bool) {
        let mut i: usize = 0;
        while i < 32
            invariant
                i <= 32,
                forall|j: int| 0 <= j < i ==> self@[j] == other@[j],
            decreases 32 - i,
        {
            if self.0[i] != other.0[i] {
                return false;
            }
            i += 1;
        }
        assert(self@ =~= other@);
        true
    }
}

impl vstd::std_specs::cmp::PartialEqSpecImpl for Checksum {
    open spec fn obeys_eq_spec() -> bool {
        true
    }

    open spec fn eq_spec(&self, other: &Self) -> bool {
        self@ == other@
    }
}

/// The hexadecimal digit for `n`.
pub open spec fn hex_digit(n: int) -> char {
    "0123456789abcdef"@[n]
}

/// Two hexadecimal digits for each byte, the high half first.
pub open spec fn hex(bytes: Seq<u8>) -> Seq<char> {
    Seq::new(
        2 * bytes.len(),
        |i: int|
            if i % 2 == 0 {
                hex_digit(bytes[i / 2] as int / 16)
            } else {
                hex_digit(bytes[i / 2] as int % 16)
            },
    )
}

impl Checksum {
    /// A checksum is its 32 bytes.
    pub proof fn lemma_view(a: Self, b: Self)
        ensures
            a@.len() == 32,
            a@ == b@ ==> a == b,
    {
        if a@ == b@ {
            assert forall|i: int| 0 <= i < 32 implies a.0[i] == b.0[i] by {
                assert(a@[i] == b@[i]);
            }
            assert(a.0 =~= b.0);
        }
    }

    /// The checksum whose bytes are `bytes`.
    pub fn from_array(bytes: [u8; 32]) -> (r: Self)
        ensures
            r@ == bytes@,
    {
        Self(bytes)
    }

    /// The checksum that stands for the lack of one.
    pub fn zero() -> (r: Self)
        ensures
            r@ == Seq::new(32, |i: int| 0u8),
    {
        let r = Self([0; 32]);
        assert(r@ =~= Seq::new(32, |i: int| 0u8));
        r
    }

    pub fn from_bytes(b: &[u8]) -> (r: Self)
        ensures
            r@ == blake3_hash(b@),
    {
        Self(hash(b))
    }

    pub fn as_bytes(&self) -> (r: &[u8])
        ensures
            r@ == self@,
    {
        self.0.as_slice()
    }

    /// Starts a checksum of data that comes in pieces.
    pub fn incremental() -> (r: Incremental)
        ensures
            r@ == Seq::<u8>::empty(),
    {
        Incremental(hasher_new())
    }

    pub fn to_hex(&self) -> (r: String)
        ensures
            r@ == hex(self@),
    {
        let digits = "0123456789abcdef";
        proof {
            reveal_strlit("0123456789abcdef");
        }
        let mut out = String::new();
        let mut i: usize = 0;
        while i < 32
            invariant
                i <= 32,
                digits@ == "0123456789abcdef"@,
                digits@.len() == 16,
                out@ == hex(self@).subrange(0, 2 * i),
            decreases 32 - i,
        {
            let b = self.0[i] as usize;
            let ghost before = out@;
            out.append(digits.substring_char(b / 16, b / 16 + 1));
            out.append(digits.substring_char(b % 16, b % 16 + 1));
            assert((2 * i) / 2 == i && (2 * i) % 2 == 0);
            assert((2 * i + 1) / 2 == i && (2 * i + 1) % 2 == 1);
            assert(out@ =~= hex(self@).subrange(0, 2 * i + 2));
            i += 1;
        }
        assert(out@ =~= hex(self@));
        out
    }
}

/// A checksum of data that comes in pieces.
pub struct Incremental(blake3::Hasher);

impl View for Incremental {
    type V = Seq<u8>;

    /// The data so far.
    closed spec fn view(&self) -> Seq<u8> {
        hasher_input(self.0)
    }
}

impl Incremental {
    pub fn update(&mut self, b: &[u8])
        ensures
            final(self)@ == old(self)@ + b@,
    {
        hasher_update(&mut self.0, b);
    }

    pub fn finalize(self) -> (r: Checksum)
        ensures
            r@ == blake3_hash(self@),
    {
        Checksum(hasher_finalize(self.0))
    }
}

} // verus!
