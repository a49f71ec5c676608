use vstd::prelude::*;
use crate::error::TlvError;
use crate::wire::{le32, put_bytes, put_u32};

verus! {

/// A length as a 16-bit length marker can hold it: itself up to 65535, and
/// 65535 for anything longer.
pub open spec fn clamp16(n: nat) -> nat {
    if n <= 0xFFFF {
        n
    } else {
        0xFFFF
    }
}

/// A value that can be written as bytes.
pub trait Serialize: Sized {
    /// The bytes that the value is written as.
    spec fn wire(&self) -> Seq<u8>;

    /// Whether the value can be written: every count in it fits the width
    /// that the format gives it. A value that cannot is too large, and is
    /// refused as such.
    spec fn encodable(&self) -> bool;

    /// Appends the value's bytes to the writer and returns how many they are.
    /// A value that cannot be written leaves the writer as it was.
    fn serialize(&self, writer: &mut Vec<u8>) -> (r: Result<usize, TlvError>)
        ensures
            self.encodable() ==> r == Ok::<usize, TlvError>(self.wire().len() as usize)
                && final(writer)@ == old(writer)@ + self.wire(),
            !self.encodable() ==> r == Err::<usize, TlvError>(TlvError::ValueTooLarge)
                && final(writer)@ == old(writer)@,
    ;

    /// The number of bytes that the value is written as, as far as 16 bits
    /// can tell.
    fn serialized_length(&self) -> (n: u16)
        ensures
            n as nat == clamp16(self.wire().len()),
    ;
}

/// Appends the value's bytes to the writer and returns how many they are.
pub fn serialize<T: Serialize>(value: &T, writer: &mut Vec<u8>) -> (r: Result<usize, TlvError>)
    ensures
        value.encodable() ==> r == Ok::<usize, TlvError>(value.wire().len() as usize)
            && final(writer)@ == old(writer)@ + value.wire(),
        !value.encodable() ==> r == Err::<usize, TlvError>(TlvError::ValueTooLarge) && final(writer)@ == old(writer)@,
{
    value.serialize(writer)
}

/// A byte buffer as it is written: its length in four bytes, then the bytes
/// themselves.
pub open spec fn bytes_wire(bytes: Seq<u8>) -> Seq<u8> {
    le32(bytes.len() as u32) + bytes
}

/// Appends the buffer to the writer, length first, and returns how many bytes
/// that took. A buffer whose length does not fit 32 bits is refused and the
/// writer left as it was.
pub fn serialize_bytes(bytes: &[u8], writer: &mut Vec<u8>) -> (r: Result<usize, TlvError>)
    ensures
        bytes@.len() <= u32::MAX ==> r == Ok::<usize, TlvError>((4 + bytes@.len()) as usize)
            && final(writer)@ == old(writer)@ + bytes_wire(bytes@),
        bytes@.len() > u32::MAX ==> r == Err::<usize, TlvError>(TlvError::ValueTooLarge)
            && final(writer)@ == old(writer)@,
{
    let start = writer.len();
    if bytes.len() > u32::MAX as usize {
        return Err(TlvError::ValueTooLarge);
    }
    put_u32(bytes.len() as u32, writer);
    put_bytes(bytes, writer);
    assert(writer@ =~= old(writer)@ + bytes_wire(bytes@));
    Ok(writer.len() - start)
}

} // verus!
