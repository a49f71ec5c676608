use vstd::prelude::*;
use crate::deser::Deserialize;
use crate::error::TlvError;
use crate::ser::Serialize;
use crate::wire::{
    from_le16, from_le32, from_le64, get_u16, get_u32, get_u64, get_u8, le16, le32, le64, put_u16,
    put_u32, put_u64,
};

verus! {

/// The byte that a boolean is written as.
pub open spec fn bool_byte(b: bool) -> u8 {
    if b {
        1
    } else {
        0
    }
}

impl Serialize for bool {
    open spec fn wire(&self) -> Seq<u8> {
        seq![bool_byte(*self)]
    }

    open spec fn encodable(&self) -> bool {
        true
    }

    fn serialize(&self, writer: &mut Vec<u8>) -> (r: Result<usize, TlvError>) {
        let byte: u8 = if *self {
            1
        } else {
            0
        };
        writer.push(byte);
        assert(writer@ =~= old(writer)@ + self.wire());
        Ok(1)
    }

    fn serialized_length(&self) -> (n: u16) {
        1
    }
}

impl Deserialize for bool {
    type Model = bool;

    open spec fn model(&self) -> bool {
        *self
    }

    open spec fn parse(s: Seq<u8>) -> Result<(bool, nat), TlvError> {
        if s.len() >= 1 {
            Ok((s[0] != 0, 1))
        } else {
            Err(TlvError::TruncatedInput)
        }
    }

    fn deserialize(reader: &mut &[u8]) -> (r: Result<Self, TlvError>) {
        match get_u8(reader) {
            Ok(byte) => Ok(byte != 0),
            Err(e) => Err(e),
        }
    }
}

impl Serialize for u8 {
    open spec fn wire(&self) -> Seq<u8> {
        seq![*self]
    }

    open spec fn encodable(&self) -> bool {
        true
    }

    fn serialize(&self, writer: &mut Vec<u8>) -> (r: Result<usize, TlvError>) {
        writer.push(*self);
        assert(writer@ =~= old(writer)@ + self.wire());
        Ok(1)
    }

    fn serialized_length(&self) -> (n: u16) {
        1
    }
}

impl Deserialize for u8 {
    type Model = u8;

    open spec fn model(&self) -> u8 {
        *self
    }

    open spec fn parse(s: Seq<u8>) -> Result<(u8, nat), TlvError> {
        if s.len() >= 1 {
            Ok((s[0], 1))
        } else {
            Err(TlvError::TruncatedInput)
        }
    }

    fn deserialize(reader: &mut &[u8]) -> (r: Result<Self, TlvError>) {
        get_u8(reader)
    }
}

impl Serialize for u16 {
    open spec fn wire(&self) -> Seq<u8> {
        le16(*self)
    }

    open spec fn encodable(&self) -> bool {
        true
    }

    fn serialize(&self, writer: &mut Vec<u8>) -> (r: Result<usize, TlvError>) {
        put_u16(*self, writer);
        Ok(2)
    }

    fn serialized_length(&self) -> (n: u16) {
        2
    }
}

impl Deserialize for u16 {
    type Model = u16;

    open spec fn model(&self) -> u16 {
        *self
    }

    open spec fn parse(s: Seq<u8>) -> Result<(u16, nat), TlvError> {
        if s.len() >= 2 {
            Ok((from_le16(s), 2))
        } else {
            Err(TlvError::TruncatedInput)
        }
    }

    fn deserialize(reader: &mut &[u8]) -> (r: Result<Self, TlvError>) {
        get_u16(reader)
    }
}

impl Serialize for u32 {
    open spec fn wire(&self) -> Seq<u8> {
        le32(*self)
    }

    open spec fn encodable(&self) -> bool {
        true
    }

    fn serialize(&self, writer: &mut Vec<u8>) -> (r: Result<usize, TlvError>) {
        put_u32(*self, writer);
        Ok(4)
    }

    fn serialized_length(&self) -> (n: u16) {
        4
    }
}

impl Deserialize for u32 {
    type Model = u32;

    open spec fn model(&self) -> u32 {
        *self
    }

    open spec fn parse(s: Seq<u8>) -> Result<(u32, nat), TlvError> {
        if s.len() >= 4 {
            Ok((from_le32(s), 4))
        } else {
            Err(TlvError::TruncatedInput)
        }
    }

    fn deserialize(reader: &mut &[u8]) -> (r: Result<Self, TlvError>) {
        get_u32(reader)
    }
}

impl Serialize for u64 {
    open spec fn wire(&self) -> Seq<u8> {
        le64(*self)
    }

    open spec fn encodable(&self) -> bool {
        true
    }

    fn serialize(&self, writer: &mut Vec<u8>) -> (r: Result<usize, TlvError>) {
        put_u64(*self, writer);
        Ok(8)
    }

    fn serialized_length(&self) -> (n: u16) {
        8
    }
}

impl Deserialize for u64 {
    type Model = u64;

    open spec fn model(&self) -> u64 {
        *self
    }

    open spec fn parse(s: Seq<u8>) -> Result<(u64, nat), TlvError> {
        if s.len() >= 8 {
            Ok((from_le64(s), 8))
        } else {
            Err(TlvError::TruncatedInput)
        }
    }

    fn deserialize(reader: &mut &[u8]) -> (r: Result<Self, TlvError>) {
        get_u64(reader)
    }
}

} // verus!
