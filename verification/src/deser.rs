use vstd::prelude::*;
use crate::error::TlvError;
use crate::wire::{advanced, copy_bytes, from_le32, get_u32, lemma_advance_twice, take};

verus! {

/// A value that can be read from bytes.
pub trait Deserialize: Sized {
    /// What a value of the type stands for.
    type Model;

    /// What this value stands for.
    spec fn model(&self) -> Self::Model;

    /// What the front of `s` decodes to and how many bytes that takes, or why
    /// it does not decode.
    spec fn parse(s: Seq<u8>) -> Result<(Self::Model, nat), TlvError>;

    /// Reads one value off the front of the reader. Whether it succeeds or
    /// fails, all it does to the reader is take bytes off its front.
    fn deserialize(reader: &mut &[u8]) -> (r: Result<Self, TlvError>)
        ensures
            match Self::parse(old(reader)@) {
                Ok((m, n)) => r is Ok && r.unwrap().model() == m && n <= old(reader)@.len()
                    && final(reader)@ == old(reader)@.skip(n as int),
                Err(e) => r == Err::<Self, TlvError>(e),
            },
            advanced(old(reader)@, final(reader)@),
    ;
}

/// Reads one value off the front of the reader.
pub fn deserialize<T: Deserialize>(reader: &mut &[u8]) -> (r: Result<T, TlvError>)
    ensures
        match T::parse(old(reader)@) {
            Ok((m, n)) => r is Ok && r.unwrap().model() == m && n <= old(reader)@.len()
                && final(reader)@ == old(reader)@.skip(n as int),
            Err(e) => r == Err::<T, TlvError>(e),
        },
        advanced(old(reader)@, final(reader)@),
{
    T::deserialize(reader)
}

/// The byte buffer at the front of `s`, which stands as its length in four
/// bytes and then the bytes themselves, and how many bytes it takes.
pub open spec fn parse_bytes(s: Seq<u8>) -> Result<(Seq<u8>, nat), TlvError> {
    if s.len() < 4 {
        Err(TlvError::TruncatedInput)
    } else if s.len() < 4 + from_le32(s) {
        Err(TlvError::TruncatedInput)
    } else {
        Ok((s.subrange(4, 4 + from_le32(s)), 4 + from_le32(s) as nat))
    }
}

/// Reads a length-prefixed byte buffer off the front of the reader.
pub fn deserialize_bytes(reader: &mut &[u8]) -> (r: Result<Vec<u8>, TlvError>)
    ensures
        match parse_bytes(old(reader)@) {
            Ok((bytes, n)) => r is Ok && r.unwrap()@ == bytes && n <= old(reader)@.len()
                && final(reader)@ == old(reader)@.skip(n as int),
            Err(e) => r == Err::<Vec<u8>, TlvError>(e),
        },
        advanced(old(reader)@, final(reader)@),
{
    let len = match get_u32(reader) {
        Ok(len) => len,
        Err(e) => {
            return Err(e);
        },
    };
    let ghost mid = reader@;
    let bytes = match take(reader, len as usize) {
        Ok(bytes) => bytes,
        Err(e) => {
            return Err(e);
        },
    };
    proof {
        lemma_advance_twice(old(reader)@, mid, reader@);
        assert(bytes@ =~= old(reader)@.subrange(4, 4 + len));
        assert(reader@ =~= old(reader)@.skip(4 + len));
    }
    Ok(copy_bytes(bytes))
}

} // verus!
