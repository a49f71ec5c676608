use vstd::prelude::*;
use crate::deser::Deserialize;
use crate::error::TlvError;
use crate::impls::clamp_len;
use crate::laws::RoundTrip;
use crate::ser::Serialize;
use crate::wire::{put_bytes, take};

verus! {

impl<const LENGTH: usize> Serialize for [u8; LENGTH] {
    open spec fn wire(&self) -> Seq<u8> {
        self@
    }

    open spec fn encodable(&self) -> bool {
        true
    }

    fn serialize(&self, writer: &mut Vec<u8>) -> (r: Result<usize, TlvError>) {
        put_bytes(self.as_slice(), writer);
        Ok(LENGTH)
    }

    fn serialized_length(&self) -> (n: u16) {
        clamp_len(LENGTH)
    }
}

impl<const LENGTH: usize> Deserialize for [u8; LENGTH] {
    type Model = Seq<u8>;

    open spec fn model(&self) -> Seq<u8> {
        self@
    }

    open spec fn parse(s: Seq<u8>) -> Result<(Seq<u8>, nat), TlvError> {
        if s.len() >= LENGTH {
            Ok((s.take(LENGTH as int), LENGTH as nat))
        } else {
            Err(TlvError::TruncatedInput)
        }
    }

    fn deserialize(reader: &mut &[u8]) -> (r: Result<Self, TlvError>) {
        let bytes = match take(reader, LENGTH) {
            Ok(bytes) => bytes,
            Err(e) => {
                return Err(e);
            },
        };
        let mut buf: [u8; LENGTH] = [0u8; LENGTH];
        let mut i: usize = 0;
        while i < LENGTH
            invariant
                i <= LENGTH,
                bytes@.len() == LENGTH,
                forall|j: int| 0 <= j < i ==> buf@[j] == bytes@[j],
            decreases LENGTH - i,
        {
            buf[i] = bytes[i];
            i += 1;
        }
        assert(buf@ =~= old(reader)@.take(LENGTH as int));
        Ok(buf)
    }
}

impl<const LENGTH: usize> RoundTrip for [u8; LENGTH] {
    proof fn round_trip(&self, rest: Seq<u8>) {
        assert((self.wire() + rest).take(LENGTH as int) =~= self@);
    }
}

} // verus!
