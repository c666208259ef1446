//! What transactions consist of.

use vstd::prelude::*;

use crate::io::{ByteReader, Error, ErrorKind};
use crate::le;

verus! {

/// A transaction payload that can be written.
pub trait Encode {
    /// The bytes of the payload.
    ///
    /// An implementation must say what they are. The default, which is some
    /// unknown sequence, does not meet the contract of [Self::encode_record]; it
    /// is there for implementations in ordinary Rust, which cannot say it, and of
    /// which nothing is proved.
    open spec fn record(&self) -> Seq<u8> {
        arbitrary()
    }

    /// Appends the bytes of the payload to `buf`.
    fn encode_record(&self, buf: &mut Vec<u8>)
        ensures
            final(buf)@ == old(buf)@ + self.record(),
    ;
}

impl Encode for Vec<u8> {
    open spec fn record(&self) -> Seq<u8> {
        self@
    }

    fn encode_record(&self, buf: &mut Vec<u8>) {
        le::put_slice(buf, self.as_slice());
    }
}

impl<const N: usize> Encode for [u8; N] {
    open spec fn record(&self) -> Seq<u8> {
        self@
    }

    fn encode_record(&self, buf: &mut Vec<u8>) {
        le::put_slice(buf, self.as_slice());
    }
}

/// Decodes the payloads of transactions.
pub trait Decoder: Sized {
    type Record: View;

    /// The payload of the transaction at `tx_offset` that `s` starts with, and
    /// the number of bytes that it takes. `None` if it cannot be decoded.
    ///
    /// An implementation must say what it is. The default, which is some unknown
    /// value, does not meet the contract of [Self::decode_record]; it is there for
    /// implementations in ordinary Rust, which cannot say it, and of which nothing
    /// is proved.
    open spec fn decoded(&self, version: u8, tx_offset: u64, s: Seq<u8>) -> Option<
        (RecordView<Self>, nat),
    > {
        arbitrary()
    }

    /// Whether `e` says why the payload cannot be decoded. An implementation must
    /// say it too, as with [Self::decoded].
    open spec fn refuses(&self, version: u8, tx_offset: u64, s: Seq<u8>, e: Error) -> bool {
        arbitrary()
    }

    /// Reads the payload of the transaction at `tx_offset`, in the given version
    /// of the log format.
    fn decode_record(&self, version: u8, tx_offset: u64, reader: &mut ByteReader) -> (r: Result<
        Self::Record,
        Error,
    >)
        ensures
            match self.decoded(version, tx_offset, old(reader)@.rest()) {
                Some((record, n)) => {
                    &&& r matches Ok(found)
                    &&& found@ == record
                    &&& n <= old(reader)@.rest().len()
                    &&& final(reader)@.rest() == old(reader)@.rest().skip(n as int)
                },
                None => {
                    &&& r matches Err(e)
                    &&& self.refuses(version, tx_offset, old(reader)@.rest(), e)
                },
            },
    ;
}

/// What a payload stands for.
pub type RecordView<D> = <<D as Decoder>::Record as View>::V;

/// Decodes payloads of `N` bytes each.
#[derive(Clone, Copy, Debug)]
pub struct ArrayDecoder<const N: usize>;

impl<const N: usize> Decoder for ArrayDecoder<N> {
    type Record = [u8; N];

    open spec fn decoded(&self, version: u8, tx_offset: u64, s: Seq<u8>) -> Option<
        (Seq<u8>, nat),
    > {
        if s.len() < N {
            None
        } else {
            Some((s.take(N as int), N as nat))
        }
    }

    open spec fn refuses(&self, version: u8, tx_offset: u64, s: Seq<u8>, e: Error) -> bool {
        e.is(ErrorKind::UnexpectedEof, "failed to fill whole buffer"@)
    }

    fn decode_record(&self, version: u8, tx_offset: u64, reader: &mut ByteReader) -> (r: Result<
        [u8; N],
        Error,
    >) {
        proof {
            reader.lemma_pos();
        }
        let ghost s = reader@.rest();
        let bytes = match reader.read_exact(N) {
            Ok(bytes) => bytes,
            Err(e) => {
                return Err(e);
            },
        };
        assert(reader@.rest() =~= s.skip(N as int));
        let mut record: [u8; N] = [0; N];
        let mut i: usize = 0;
        while i < N
            invariant
                i <= N == bytes@.len(),
                forall|j: int| 0 <= j < i ==> #[trigger] record@[j] == bytes@[j],
            decreases N - i,
        {
            record[i] = bytes[i];
            i += 1;
        }
        assert(record@ =~= s.take(N as int));
        Ok(record)
    }
}

/// Decoding the bytes of an array gives back the array, whatever follows.
pub proof fn law_array_is_decoded<const N: usize>(
    record: [u8; N],
    version: u8,
    tx_offset: u64,
    rest: Seq<u8>,
)
    ensures
        ArrayDecoder::<N>.decoded(version, tx_offset, record.record() + rest) == Some(
            (record@, record.record().len()),
        ),
{
    assert((record@ + rest).take(N as int) =~= record@);
}

} // verus!
