use vstd::prelude::*;
use vstd::utf8::{decode_utf8, encode_utf8, valid_utf8};
use crate::deser::Deserialize;
use crate::error::TlvError;
use crate::ser::{clamp16, Serialize};
use crate::wire::{
    advanced, copy_bytes, from_le32, get_u32, get_u8, le32, lemma_advance_twice, put_bytes,
    put_u32, take,
};

pub mod array;
pub mod maps;
pub mod num;

verus! {

/// The sum of two 16-bit lengths, held at 65535 where it would pass it.
pub fn add_clamped(a: u16, b: u16) -> (n: u16)
    ensures
        n as nat == clamp16(a as nat + b as nat),
{
    if b > 0xFFFF - a {
        0xFFFF
    } else {
        a + b
    }
}

/// A byte count as a 16-bit length, held at 65535 where it would pass it.
pub fn clamp_len(len: usize) -> (n: u16)
    ensures
        n as nat == clamp16(len as nat),
{
    if len > 0xFFFF {
        0xFFFF
    } else {
        len as u16
    }
}

impl<T: Serialize> Serialize for Option<T> {
    open spec fn wire(&self) -> Seq<u8> {
        match self {
            Some(value) => seq![1u8] + value.wire(),
            None => seq![0u8],
        }
    }

    open spec fn encodable(&self) -> bool {
        match self {
            Some(value) => value.encodable(),
            None => true,
        }
    }

    fn serialize(&self, writer: &mut Vec<u8>) -> (r: Result<usize, TlvError>) {
        let start = writer.len();
        match self {
            Some(value) => {
                writer.push(1u8);
                match value.serialize(writer) {
                    Ok(_) => {
                        assert(writer@ =~= old(writer)@ + self.wire());
                        Ok(writer.len() - start)
                    },
                    Err(e) => {
                        writer.truncate(start);
                        assert(writer@ =~= old(writer)@);
                        Err(e)
                    },
                }
            },
            None => {
                writer.push(0u8);
                assert(writer@ =~= old(writer)@ + self.wire());
                Ok(1)
            },
        }
    }

    fn serialized_length(&self) -> (n: u16) {
        match self {
            Some(value) => add_clamped(1, value.serialized_length()),
            None => 1,
        }
    }
}

impl<T: Deserialize> Deserialize for Option<T> {
    type Model = Option<T::Model>;

    open spec fn model(&self) -> Option<T::Model> {
        match self {
            Some(value) => Some(value.model()),
            None => None,
        }
    }

    open spec fn parse(s: Seq<u8>) -> Result<(Option<T::Model>, nat), TlvError> {
        if s.len() < 1 {
            Err(TlvError::TruncatedInput)
        } else if s[0] == 0 {
            Ok((None, 1))
        } else {
            match T::parse(s.skip(1)) {
                Ok((m, n)) => Ok((Some(m), n + 1)),
                Err(e) => Err(e),
            }
        }
    }

    fn deserialize(reader: &mut &[u8]) -> (r: Result<Self, TlvError>) {
        let flag = match get_u8(reader) {
            Ok(flag) => flag,
            Err(e) => {
                return Err(e);
            },
        };
        if flag == 0 {
            return Ok(None);
        }
        let ghost mid = reader@;
        match T::deserialize(reader) {
            Ok(value) => {
                proof {
                    lemma_advance_twice(old(reader)@, mid, reader@);
                    let n = T::parse(old(reader)@.skip(1))->Ok_0.1;
                    assert(old(reader)@.skip(1).skip(n as int) =~= old(reader)@.skip(n as int + 1));
                }
                Ok(Some(value))
            },
            Err(e) => {
                proof {
                    lemma_advance_twice(old(reader)@, mid, reader@);
                }
                Err(e)
            },
        }
    }
}

/// The bytes of the items of `s`, one after the other.
pub open spec fn wire_all<T: Serialize>(s: Seq<T>) -> Seq<u8>
    decreases s.len(),
{
    if s.len() == 0 {
        Seq::empty()
    } else {
        wire_all(s.drop_last()) + s.last().wire()
    }
}

/// What the items of `s` stand for, in order.
pub open spec fn models<T: Deserialize>(s: Seq<T>) -> Seq<T::Model> {
    Seq::new(s.len(), |i: int| s[i].model())
}

/// What `count` values read one after the other from the front of `s` decode
/// to, and how many bytes they take together; the first failure otherwise.
pub open spec fn parse_many<T: Deserialize>(s: Seq<u8>, count: nat) -> Result<
    (Seq<T::Model>, nat),
    TlvError,
>
    decreases count,
{
    if count == 0 {
        Ok((Seq::empty(), 0))
    } else {
        match parse_many::<T>(s, (count - 1) as nat) {
            Err(e) => Err(e),
            Ok((ms, n)) => match T::parse(s.skip(n as int)) {
                Err(e) => Err(e),
                Ok((m, k)) => Ok((ms.push(m), n + k)),
            },
        }
    }
}

/// Once a value fails to decode, asking for more values fails the same way.
pub proof fn lemma_parse_many_fails_on<T: Deserialize>(s: Seq<u8>, i: nat, count: nat)
    requires
        i <= count,
        parse_many::<T>(s, i) is Err,
    ensures
        parse_many::<T>(s, count) == parse_many::<T>(s, i),
    decreases count,
{
    if i < count {
        lemma_parse_many_fails_on::<T>(s, i, (count - 1) as nat);
    }
}

impl<T: Serialize> Serialize for Vec<T> {
    open spec fn wire(&self) -> Seq<u8> {
        le32(self@.len() as u32) + wire_all(self@)
    }

    open spec fn encodable(&self) -> bool {
        &&& self@.len() <= u32::MAX
        &&& forall|i: int| 0 <= i < self@.len() ==> (#[trigger] self@[i]).encodable()
    }

    fn serialize(&self, writer: &mut Vec<u8>) -> (r: Result<usize, TlvError>) {
        let start = writer.len();
        if self.len() > u32::MAX as usize {
            return Err(TlvError::ValueTooLarge);
        }
        put_u32(self.len() as u32, writer);
        let mut i: usize = 0;
        while i < self.len()
            invariant
                i <= self@.len(),
                start == old(writer)@.len(),
                writer@ == old(writer)@ + le32(self@.len() as u32) + wire_all(self@.take(i as int)),
                forall|j: int| 0 <= j < i ==> (#[trigger] self@[j]).encodable(),
            decreases self@.len() - i,
        {
            match self[i].serialize(writer) {
                Ok(_) => {},
                Err(e) => {
                    writer.truncate(start);
                    assert(writer@ =~= old(writer)@);
                    return Err(e);
                },
            }
            proof {
                assert(self@.take(i + 1).drop_last() =~= self@.take(i as int));
                assert(self@.take(i + 1).last() == self@[i as int]);
                assert(writer@ =~= old(writer)@ + le32(self@.len() as u32) + wire_all(
                    self@.take(i + 1),
                ));
            }
            i += 1;
        }
        proof {
            assert(self@.take(i as int) =~= self@);
            assert(writer@ =~= old(writer)@ + self.wire());
        }
        Ok(writer.len() - start)
    }

    fn serialized_length(&self) -> (n: u16) {
        let mut total: u16 = 4;
        let mut i: usize = 0;
        while i < self.len()
            invariant
                i <= self@.len(),
                total as nat == clamp16(4 + wire_all(self@.take(i as int)).len()),
            decreases self@.len() - i,
        {
            let item = self[i].serialized_length();
            proof {
                assert(self@.take(i + 1).drop_last() =~= self@.take(i as int));
                assert(self@.take(i + 1).last() == self@[i as int]);
            }
            total = add_clamped(total, item);
            i += 1;
        }
        proof {
            assert(self@.take(i as int) =~= self@);
        }
        total
    }
}

impl<T: Deserialize> Deserialize for Vec<T> {
    type Model = Seq<T::Model>;

    open spec fn model(&self) -> Seq<T::Model> {
        models(self@)
    }

    open spec fn parse(s: Seq<u8>) -> Result<(Seq<T::Model>, nat), TlvError> {
        if s.len() < 4 {
            Err(TlvError::TruncatedInput)
        } else {
            match parse_many::<T>(s.skip(4), from_le32(s) as nat) {
                Ok((ms, n)) => Ok((ms, n + 4)),
                Err(e) => Err(e),
            }
        }
    }

    fn deserialize(reader: &mut &[u8]) -> (r: Result<Self, TlvError>) {
        let count = match get_u32(reader) {
            Ok(count) => count,
            Err(e) => {
                return Err(e);
            },
        };
        let ghost body = reader@;
        let ghost mut consumed: nat = 0;
        let hint: usize = if (count as usize) < reader.len() {
            count as usize
        } else {
            reader.len()
        };
        let mut out: Vec<T> = Vec::with_capacity(hint);
        let mut i: u32 = 0;
        assert(body.skip(0) =~= body);
        assert(models(out@) =~= Seq::<T::Model>::empty());
        while i < count
            invariant
                i <= count,
                old(reader)@.len() >= 4,
                count == from_le32(old(reader)@),
                body == old(reader)@.skip(4),
                consumed <= body.len(),
                reader@ == body.skip(consumed as int),
                advanced(old(reader)@, reader@),
                parse_many::<T>(body, i as nat) == Ok::<(Seq<T::Model>, nat), TlvError>(
                    (models(out@), consumed),
                ),
            decreases count - i,
        {
            let ghost step = T::parse(reader@);
            let ghost mid = reader@;
            match T::deserialize(reader) {
                Ok(value) => {
                    proof {
                        lemma_advance_twice(old(reader)@, mid, reader@);
                        let k = step->Ok_0.1;
                        assert(body.skip(consumed as int).skip(k as int) =~= body.skip(
                            consumed as int + k as int,
                        ));
                        assert(models(out@.push(value)) =~= models(out@).push(value.model()));
                        consumed = consumed + k;
                    }
                    out.push(value);
                },
                Err(e) => {
                    proof {
                        lemma_advance_twice(old(reader)@, mid, reader@);
                        assert(((i + 1) as nat - 1) as nat == i as nat);
                        assert(parse_many::<T>(body, (i + 1) as nat) is Err);
                        lemma_parse_many_fails_on::<T>(body, (i + 1) as nat, count as nat);
                    }
                    return Err(e);
                },
            }
            i += 1;
        }
        proof {
            assert(body.skip(consumed as int) =~= old(reader)@.skip(consumed as int + 4));
        }
        Ok(out)
    }
}

/// The text that valid UTF-8 bytes spell, or nothing where they are not
/// valid. This is `String::from_utf8` of the standard library, whose result
/// is taken on trust: it accepts exactly the byte strings that are
/// well-formed UTF-8 and gives back the characters that they encode.
#[verifier::external_body]
fn text_from_utf8(bytes: Vec<u8>) -> (r: Option<String>)
    ensures
        r is Some <==> valid_utf8(bytes@),
        r is Some ==> r.unwrap()@ == decode_utf8(bytes@),
{
    match String::from_utf8(bytes) {
        Ok(text) => Some(text),
        Err(_) => None,
    }
}

impl Serialize for String {
    open spec fn wire(&self) -> Seq<u8> {
        le32(encode_utf8(self@).len() as u32) + encode_utf8(self@)
    }

    open spec fn encodable(&self) -> bool {
        encode_utf8(self@).len() <= u32::MAX
    }

    fn serialize(&self, writer: &mut Vec<u8>) -> (r: Result<usize, TlvError>) {
        let bytes = self.as_str().as_bytes();
        let start = writer.len();
        if bytes.len() > u32::MAX as usize {
            return Err(TlvError::ValueTooLarge);
        }
        put_u32(bytes.len() as u32, writer);
        put_bytes(bytes, writer);
        Ok(writer.len() - start)
    }

    fn serialized_length(&self) -> (n: u16) {
        let bytes = self.as_str().as_bytes();
        add_clamped(4, clamp_len(bytes.len()))
    }
}

impl Deserialize for String {
    type Model = Seq<char>;

    open spec fn model(&self) -> Seq<char> {
        self@
    }

    open spec fn parse(s: Seq<u8>) -> Result<(Seq<char>, nat), TlvError> {
        if s.len() < 4 {
            Err(TlvError::TruncatedInput)
        } else if s.len() < 4 + from_le32(s) {
            Err(TlvError::TruncatedInput)
        } else if !valid_utf8(s.subrange(4, 4 + from_le32(s))) {
            Err(TlvError::InvalidEncoding)
        } else {
            Ok((decode_utf8(s.subrange(4, 4 + from_le32(s))), 4 + from_le32(s) as nat))
        }
    }

    fn deserialize(reader: &mut &[u8]) -> (r: Result<Self, TlvError>) {
        let len = match get_u32(reader) {
            Ok(len) => len,
            Err(e) => {
                return Err(e);
            },
        };
        let bytes = match take(reader, len as usize) {
            Ok(bytes) => bytes,
            Err(e) => {
                return Err(e);
            },
        };
        proof {
            assert(bytes@ =~= old(reader)@.subrange(4, 4 + len));
            assert(reader@ =~= old(reader)@.skip(4 + len));
        }
        match text_from_utf8(copy_bytes(bytes)) {
            Some(text) => Ok(text),
            None => Err(TlvError::InvalidEncoding),
        }
    }
}

} // verus!
