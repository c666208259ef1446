//! What is promised of bytes, numbers and texts.

use vstd::prelude::*;

use crate::checksum;
use crate::checksum::{blake3_hash, Checksum, Incremental};
use crate::commitlog::payload::{ArrayDecoder, Decoder, Encode};
use crate::grid::uint;
use crate::grid::uint::U256;
use crate::io::{ByteReader, Error, ErrorKind};
use crate::le;
use crate::text;

verus! {

/// Numbers are read with the lowest byte first.
pub proof fn law_numbers_are_read(s: &[u8], at: usize, a: u16, b: u32, c: u64)
    ensures
        at + 2 <= s@.len() && call_ensures(le::read_u16, (s, at), a) ==> a == s@[at as int] + 0x100
            * s@[at + 1],
        at + 4 <= s@.len() && call_ensures(le::read_u32, (s, at), b) ==> b == s@[at as int] + 0x100
            * s@[at + 1] + 0x10000 * s@[at + 2] + 0x1000000 * s@[at + 3],
        at + 8 <= s@.len() && call_ensures(le::read_u64, (s, at), c) ==> c == s@[at as int] + 0x100
            * s@[at + 1] + 0x10000 * s@[at + 2] + 0x1000000 * s@[at + 3] + 0x100000000 * s@[at + 4]
            + 0x10000000000 * s@[at + 5] + 0x1000000000000 * s@[at + 6] + 0x100000000000000 * s@[at
            + 7],
{
    if at + 2 <= s@.len() {
        lemma_value_of_two(s@.subrange(at as int, at + 2));
    }
    if at + 4 <= s@.len() {
        lemma_value_of_four(s@.subrange(at as int, at + 4));
    }
    if at + 8 <= s@.len() {
        lemma_value_of_eight(s@.subrange(at as int, at + 8));
    }
}

proof fn lemma_value_of_two(t: Seq<u8>)
    requires
        t.len() == 2,
    ensures
        le::le_value(t) == t[0] + 0x100 * t[1],
{
    reveal_with_fuel(le::le_value, 3);
    assert(t.drop_first()[0] == t[1]);
}

proof fn lemma_value_of_four(t: Seq<u8>)
    requires
        t.len() == 4,
    ensures
        le::le_value(t) == t[0] + 0x100 * t[1] + 0x10000 * t[2] + 0x1000000 * t[3],
{
    let a = t.drop_first();
    let u = a.drop_first();
    lemma_value_of_two(u);
    assert(u[0] == t[2] && u[1] == t[3]);
    assert(a[0] == t[1]);
    assert(le::le_value(t) == t[0] + 256 * le::le_value(a));
    assert(le::le_value(a) == t[1] + 256 * le::le_value(u));
}

proof fn lemma_value_of_eight(t: Seq<u8>)
    requires
        t.len() == 8,
    ensures
        le::le_value(t) == t[0] + 0x100 * t[1] + 0x10000 * t[2] + 0x1000000 * t[3] + 0x100000000
            * t[4] + 0x10000000000 * t[5] + 0x1000000000000 * t[6] + 0x100000000000000 * t[7],
{
    let a = t.drop_first();
    let b = a.drop_first();
    let c = b.drop_first();
    let u = c.drop_first();
    lemma_value_of_four(u);
    assert(u[0] == t[4] && u[1] == t[5] && u[2] == t[6] && u[3] == t[7]);
    assert(a[0] == t[1] && b[0] == t[2] && c[0] == t[3]);
    assert(le::le_value(t) == t[0] + 256 * le::le_value(a));
    assert(le::le_value(a) == t[1] + 256 * le::le_value(b));
    assert(le::le_value(b) == t[2] + 256 * le::le_value(c));
    assert(le::le_value(c) == t[3] + 256 * le::le_value(u));
}

/// Bytes are copied as they are.
pub proof fn law_bytes_are_copied(
    s: &[u8],
    t: &[u8],
    at: usize,
    end: usize,
    a: [u8; 32],
    b: Vec<u8>,
    same: bool,
)
    ensures
        at + 32 <= s@.len() && call_ensures(le::read_32, (s, at), a) ==> forall|i: int|
            0 <= i < 32 ==> #[trigger] a@[i] == s@[at + i],
        at <= end <= s@.len() && call_ensures(le::read_vec, (s, at, end), b) ==> b@.len() == end
            - at && forall|i: int| 0 <= i < end - at ==> #[trigger] b@[i] == s@[at + i],
        call_ensures(le::bytes_eq, (s, t), same) ==> (same <==> s@.len() == t@.len() && forall|
            i: int,
        |
            0 <= i < s@.len() ==> #[trigger] s@[i] == t@[i]),
        forall|out: &mut Vec<u8>|
            #![trigger call_ensures(le::put_slice, (out, s), ())]
            call_ensures(le::put_slice, (out, s), ()) ==> final(out)@ == out@ + s@,
{
    if s@.len() == t@.len() && (forall|i: int| 0 <= i < s@.len() ==> #[trigger] s@[i] == t@[i]) {
        assert(s@ =~= t@);
    }
}

/// Bytes are read from the start on, each once. There is an error where there are
/// too few.
pub proof fn law_bytes_are_read(
    bytes: Vec<u8>,
    fresh: ByteReader,
    reader: ByteReader,
    n: usize,
    pos: u64,
    r: Result<Vec<u8>, Error>,
)
    ensures
        call_ensures(ByteReader::new, (bytes,), fresh) ==> fresh@.bytes == bytes@ && fresh@.pos
            == 0,
        call_ensures(ByteReader::len, (&reader,), n) ==> n == reader@.bytes.len(),
        call_ensures(ByteReader::stream_position, (&reader,), pos) ==> pos == reader@.pos,
        forall|x: &mut ByteReader|
            #![trigger call_ensures(ByteReader::seek, (x, pos), ())]
            call_ensures(ByteReader::seek, (x, pos), ()) ==> (*final(x))@.bytes == (*x)@.bytes && (
            *final(x))@.pos == pos,
        forall|x: &mut ByteReader|
            #![trigger call_ensures(ByteReader::read_exact, (x, n), r)]
            call_ensures(ByteReader::read_exact, (x, n), r) ==> {
                let (v, w) = ((*x)@, (*final(x))@);
                &&& w.bytes == v.bytes
                &&& if n == 0 {
                    r is Ok && r->Ok_0@.len() == 0 && w.pos == v.pos
                } else if v.pos + n <= v.bytes.len() {
                    &&& r matches Ok(found)
                    &&& found@.len() == n
                    &&& forall|i: int| 0 <= i < n ==> #[trigger] found@[i] == v.bytes[v.pos + i]
                    &&& w.pos == v.pos + n
                } else {
                    &&& r matches Err(e)
                    &&& e.kind == ErrorKind::UnexpectedEof
                    &&& w.pos == if v.pos < v.bytes.len() {
                        v.bytes.len() as int
                    } else {
                        v.pos
                    }
                }
            },
{
    assert forall|x: &mut ByteReader|
        #![trigger call_ensures(ByteReader::read_exact, (x, n), r)]
        call_ensures(ByteReader::read_exact, (x, n), r) implies ({
        let (v, w) = ((*x)@, (*final(x))@);
        &&& w.bytes == v.bytes
        &&& if n == 0 {
            r is Ok && r->Ok_0@.len() == 0 && w.pos == v.pos
        } else if v.pos + n <= v.bytes.len() {
            &&& r matches Ok(found)
            &&& found@.len() == n
            &&& forall|i: int| 0 <= i < n ==> #[trigger] found@[i] == v.bytes[v.pos + i]
            &&& w.pos == v.pos + n
        } else {
            &&& r matches Err(e)
            &&& e.kind == ErrorKind::UnexpectedEof
            &&& w.pos == if v.pos < v.bytes.len() {
                v.bytes.len() as int
            } else {
                v.pos
            }
        }
    }) by {
        (*x).lemma_pos();
    }
}

/// An error has the kind and the message that it is made with.
pub proof fn law_error_tells(kind: ErrorKind, message: String, text: &str, r: Error)
    ensures
        call_ensures(Error::new, (kind, message), r) ==> r.kind == kind && r.message@ == message@,
        call_ensures(Error::from_text, (kind, text), r) ==> r.kind == kind && r.message@ == text@,
{
}

/// The number that decimal digits stand for.
pub open spec fn number_of(s: Seq<char>) -> int
    decreases s.len(),
{
    if s.len() == 0 {
        0
    } else {
        10 * number_of(s.drop_last()) + (s.last() as int - '0' as int)
    }
}

/// Whether all characters are decimal digits.
pub open spec fn are_digits(s: Seq<char>) -> bool {
    forall|i: int| 0 <= i < s.len() ==> '0' <= #[trigger] s[i] && s[i] <= '9'
}

/// Whether `s` is how the number is written.
pub open spec fn is_decimal(s: Seq<char>, n: int) -> bool {
    &&& s.len() > 0
    &&& are_digits(s)
    &&& number_of(s) == n
    &&& s[0] == '0' ==> s.len() == 1
}

pub proof fn lemma_value(s: Seq<char>)
    requires
        are_digits(s),
    ensures
        text::value(s) == number_of(s),
        number_of(s) >= 0,
    decreases s.len(),
{
    if s.len() > 0 {
        lemma_value(s.drop_last());
        assert('0' <= s[s.len() - 1]);
    }
}

pub proof fn lemma_is_decimal(n: nat)
    ensures
        is_decimal(text::decimal(n), n as int),
        n > 0 ==> text::decimal(n)[0] != '0',
    decreases n,
{
    let s = text::decimal(n);
    if n < 10 {
        assert(s.drop_last() =~= Seq::<char>::empty());
        reveal_with_fuel(number_of, 2);
    } else {
        lemma_is_decimal(n / 10);
        assert(s.drop_last() =~= text::decimal(n / 10));
        assert(s[0] == text::decimal(n / 10)[0]);
    }
}

/// Numbers are written with decimal digits, the first of which is not zero unless
/// it is the only one.
pub proof fn law_numbers_are_written(
    first: &str,
    a: u64,
    second: &str,
    b: u64,
    r: String,
)
    ensures
        forall|out: &mut String|
            #![trigger call_ensures(text::append_decimal, (out, a), ())]
            call_ensures(text::append_decimal, (out, a), ()) ==> exists|s: Seq<char>| #[trigger]
                is_decimal(s, a as int) && (*final(out))@ == (*out)@ + s,
        call_ensures(text::with_number, (first, a), r) ==> exists|s: Seq<char>| #[trigger]
            is_decimal(s, a as int) && r@ == first@ + s,
        call_ensures(text::with_numbers, (first, a, second, b), r) ==> exists|
            s: Seq<char>,
            t: Seq<char>,
        |
            #![trigger is_decimal(s, a as int), is_decimal(t, b as int)]
            is_decimal(s, a as int) && is_decimal(t, b as int) && r@ == first@ + s + second@ + t,
{
    lemma_is_decimal(a as nat);
    lemma_is_decimal(b as nat);
}

/// A number is read from decimal digits, with or without a plus sign. Nothing else
/// is a number, nor what is greater than 64 bits can hold.
pub proof fn law_numbers_are_parsed(s: &str, r: Option<u64>)
    requires
        call_ensures(text::parse_u64, (s,), r),
    ensures
        ({
            let digits = if s@.len() > 0 && s@[0] == '+' {
                s@.skip(1)
            } else {
                s@
            };
            match r {
                Some(n) => digits.len() > 0 && are_digits(digits) && number_of(digits) == n,
                None => digits.len() == 0 || !are_digits(digits) || number_of(digits) > u64::MAX,
            }
        }),
{
    let digits = if s@.len() > 0 && s@[0] == '+' {
        s@.skip(1)
    } else {
        s@
    };
    assert(s@.len() > 0 ==> s@.skip(1) =~= s@.drop_first());
    assert(are_digits(digits) <==> text::all_digits(digits));
    if are_digits(digits) {
        lemma_value(digits);
    }
}

/// A checksum is the hash of the data, in one piece or in two.
pub proof fn law_checksum_of_pieces(
    whole: &[u8],
    a: &[u8],
    b: &[u8],
    start: Incremental,
    in_one: Checksum,
    in_pieces: Checksum,
)
    requires
        whole@ == a@ + b@,
        call_ensures(Checksum::from_bytes, (whole,), in_one),
        call_ensures(Checksum::incremental, (), start),
    ensures
        in_one@ == blake3_hash(whole@),
        forall|x: &mut Incremental, y: &mut Incremental|
            *x == start && #[trigger] call_ensures(Incremental::update, (x, a), ())
                && *y == *final(x) && #[trigger] call_ensures(Incremental::update, (y, b), ())
                && call_ensures(Incremental::finalize, (*final(y),), in_pieces) ==> in_pieces@
                == in_one@,
{
    assert(Seq::<u8>::empty() + a@ =~= a@);
}

/// The value of a hexadecimal digit.
pub open spec fn hex_value(c: char) -> int {
    if '0' <= c && c <= '9' {
        c as int - '0' as int
    } else if 'a' <= c && c <= 'f' {
        c as int - 'a' as int + 10
    } else {
        -1
    }
}

proof fn lemma_hex_digit(n: int)
    requires
        0 <= n < 16,
    ensures
        hex_value(checksum::hex_digit(n)) == n,
{
    reveal_strlit("0123456789abcdef");
    assert("0123456789abcdef"@.len() == 16);
    assert(checksum::hex_digit(0) == '0' && checksum::hex_digit(1) == '1' && checksum::hex_digit(2)
        == '2' && checksum::hex_digit(3) == '3' && checksum::hex_digit(4) == '4'
        && checksum::hex_digit(5) == '5' && checksum::hex_digit(6) == '6' && checksum::hex_digit(7)
        == '7' && checksum::hex_digit(8) == '8' && checksum::hex_digit(9) == '9'
        && checksum::hex_digit(10) == 'a' && checksum::hex_digit(11) == 'b' && checksum::hex_digit(
        12,
    ) == 'c' && checksum::hex_digit(13) == 'd' && checksum::hex_digit(14) == 'e'
        && checksum::hex_digit(15) == 'f');
}

/// In a text a checksum is two hexadecimal digits for each byte, the higher one
/// first.
pub proof fn law_checksum_in_text(c: Checksum, r: String)
    requires
        call_ensures(Checksum::to_hex, (&c,), r),
    ensures
        r@.len() == 64,
        forall|i: int|
            0 <= i < 32 ==> 16 * hex_value(r@[2 * i]) + hex_value(r@[2 * i + 1]) == #[trigger] c@[i],
        forall|i: int| 0 <= i < 64 ==> hex_value(#[trigger] r@[i]) >= 0,
{
    Checksum::lemma_view(c, c);
    assert forall|i: int| 0 <= i < 32 implies 16 * hex_value(r@[2 * i]) + hex_value(r@[2 * i + 1])
        == #[trigger] c@[i] by {
        assert((2 * i) / 2 == i && (2 * i) % 2 == 0);
        assert((2 * i + 1) / 2 == i && (2 * i + 1) % 2 == 1);
        lemma_hex_digit(c@[i] as int / 16);
        lemma_hex_digit(c@[i] as int % 16);
    }
    assert forall|i: int| 0 <= i < 64 implies hex_value(#[trigger] r@[i]) >= 0 by {
        lemma_hex_digit(c@[i / 2] as int / 16);
        lemma_hex_digit(c@[i / 2] as int % 16);
    }
}

/// A checksum is its bytes.
pub proof fn law_checksum_is_its_bytes(
    bytes: [u8; 32],
    a: Checksum,
    zero: Checksum,
    b: &[u8],
    c: Checksum,
)
    ensures
        call_ensures(Checksum::from_array, (bytes,), a) ==> a@ == bytes@,
        call_ensures(Checksum::as_bytes, (&a,), b) ==> b@ == a@,
        call_ensures(Checksum::zero, (), zero) ==> zero@.len() == 32 && forall|i: int|
            0 <= i < 32 ==> #[trigger] zero@[i] == 0,
        a@ == c@ ==> a == c,
        a@.len() == 32,
{
    Checksum::lemma_view(a, c);
}

/// The halves of a 256-bit number are what it was made of, with the lower half in
/// its first bytes.
pub proof fn law_halves_of_number(hi: u128, lo: u128, n: U256, halves: (u128, u128))
    requires
        call_ensures(U256::from_words, (hi, lo), n),
        call_ensures(U256::into_words, (n,), halves),
    ensures
        halves.0 == hi,
        halves.1 == lo,
        n@.len() == 32,
        le::le_value(n@) == hi * 0x1_0000_0000_0000_0000_0000_0000_0000_0000 + lo,
{
    uint::law_words_roundtrip(hi, lo, n@, halves.0, halves.1);
    U256::lemma_view(n, n);
    assert(le::le_bound(16) == 0x1_0000_0000_0000_0000_0000_0000_0000_0000) by {
        reveal_with_fuel(le::le_bound, 17);
    }
}

/// A 256-bit number is its bytes.
pub proof fn law_number_is_its_bytes(bytes: [u8; 32], a: U256, b: &[u8], c: U256)
    ensures
        call_ensures(U256::from_array, (bytes,), a) ==> a@ == bytes@,
        call_ensures(U256::as_bytes, (&a,), b) ==> b@ == a@,
        a@ == c@ ==> a == c,
{
    U256::lemma_view(a, c);
}

/// Checksums and 256-bit numbers are equal if and only if all of their bytes are.
pub proof fn law_equal_bytes(a: Checksum, b: Checksum, c: U256, d: U256, r: bool)
    ensures
        call_ensures(<Checksum as PartialEq>::eq, (&a, &b), r) ==> (r <==> forall|i: int|
            0 <= i < 32 ==> #[trigger] a@[i] == b@[i]),
        call_ensures(<U256 as PartialEq>::eq, (&c, &d), r) ==> (r <==> forall|i: int|
            0 <= i < 32 ==> #[trigger] c@[i] == d@[i]),
{
    Checksum::lemma_view(a, b);
    Checksum::lemma_view(b, a);
    U256::lemma_view(c, d);
    U256::lemma_view(d, c);
    if forall|i: int| 0 <= i < 32 ==> #[trigger] a@[i] == b@[i] {
        assert(a@ =~= b@);
    }
    if forall|i: int| 0 <= i < 32 ==> #[trigger] c@[i] == d@[i] {
        assert(c@ =~= d@);
    }
}

/// A payload of bytes is those bytes.
pub proof fn law_payload_of_bytes<const N: usize>(a: Vec<u8>, b: [u8; N])
    ensures
        forall|out: &mut Vec<u8>|
            #![trigger call_ensures(<Vec<u8> as Encode>::encode_record, (&a, out), ())]
            call_ensures(<Vec<u8> as Encode>::encode_record, (&a, out), ()) ==> final(out)@ == out@
                + a@,
        forall|out: &mut Vec<u8>|
            #![trigger call_ensures(<[u8; N] as Encode>::encode_record, (&b, out), ())]
            call_ensures(<[u8; N] as Encode>::encode_record, (&b, out), ()) ==> final(out)@ == out@
                + b@,
{
}

/// A payload of a fixed size is read from the bytes that come next. It is an error
/// if there are too few.
pub proof fn law_payload_of_fixed_size<const N: usize>(
    de: ArrayDecoder<N>,
    version: u8,
    tx_offset: u64,
    r: Result<[u8; N], Error>,
)
    ensures
        forall|x: &mut ByteReader|
            #![trigger call_ensures(<ArrayDecoder<N> as Decoder>::decode_record, (&de, version, tx_offset, x), r)]
            call_ensures(
                <ArrayDecoder<N> as Decoder>::decode_record,
                (&de, version, tx_offset, x),
                r,
            ) ==> {
                let (s, t) = ((*x)@.rest(), (*final(x))@.rest());
                &&& r is Ok <==> s.len() >= N
                &&& r matches Ok(found) ==> found@ == s.take(N as int) && t == s.skip(N as int)
                &&& r matches Err(e) ==> e.kind == ErrorKind::UnexpectedEof
            },
{
}

} // verus!
