use std::collections::BTreeMap;
use vstd::prelude::*;
use crate::deser::{deserialize_bytes, parse_bytes, Deserialize};
use crate::error::TlvError;
use crate::frame::{extract_frames, parse_frames, RawField};
use crate::ser::{bytes_wire, serialize_bytes, Serialize};
use crate::table::find_frame;
use crate::wire::{advanced, copy_bytes, le16, put_bytes, put_u16};

verus! {

/// How a field of a record is treated on the wire.
#[derive(Clone, Copy, Debug, PartialEq, Eq, Structural)]
pub enum FieldKind {
    /// Written by the codec of its type; its frame must be there on decode.
    Regular,
    /// An opaque byte buffer, written length first; an absent frame decodes
    /// to the empty buffer.
    RawBytes,
    /// A value that may be missing, written with its presence flag; an
    /// absent frame decodes to no value.
    Optional,
}

impl FieldKind {
    /// The kind of a field from what its declared type is: a byte buffer is
    /// raw bytes, whatever else it is; anything else that may be missing is
    /// optional; all the rest is regular.
    pub fn classify(is_byte_buffer: bool, is_optional: bool) -> (kind: FieldKind)
        ensures
            is_byte_buffer ==> kind == FieldKind::RawBytes,
            !is_byte_buffer && is_optional ==> kind == FieldKind::Optional,
            !is_byte_buffer && !is_optional ==> kind == FieldKind::Regular,
    {
        if is_byte_buffer {
            FieldKind::RawBytes
        } else if is_optional {
            FieldKind::Optional
        } else {
            FieldKind::Regular
        }
    }
}

/// One field of a record's schema.
#[derive(Debug)]
pub struct FieldSchema {
    pub name: String,
    pub tag: u8,
    pub kind: FieldKind,
}

impl FieldSchema {
    /// The schema entry of a field of this name, tag and kind.
    pub fn new(name: String, tag: u8, kind: FieldKind) -> (field: Self)
        ensures
            field.name == name,
            field.tag == tag,
            field.kind == kind,
    {
        Self { name, tag, kind }
    }
}

/// One frame as it is written: the tag in one byte, the payload's length in
/// two, then the payload.
pub open spec fn frame_wire(tag: u8, payload: Seq<u8>) -> Seq<u8> {
    seq![tag] + le16(payload.len() as u16) + payload
}

/// The frames of a record, one per field and in the order of the fields.
/// A field is given as its tag and its payload.
pub open spec fn record_wire(fields: Seq<(u8, Seq<u8>)>) -> Seq<u8>
    decreases fields.len(),
{
    if fields.len() == 0 {
        Seq::empty()
    } else {
        record_wire(fields.drop_last()) + frame_wire(fields.last().0, fields.last().1)
    }
}

/// The fields of a record as tag and payload, from its schema and the
/// payloads of its fields in schema order.
pub open spec fn tagged(schema: Seq<FieldSchema>, payloads: Seq<Vec<u8>>) -> Seq<(u8, Seq<u8>)> {
    Seq::new(schema.len(), |i: int| (schema[i].tag, payloads[i]@))
}

/// Whether every payload is short enough for a frame's two-byte length.
pub open spec fn all_fit(payloads: Seq<Vec<u8>>) -> bool {
    forall|i: int| 0 <= i < payloads.len() ==> (#[trigger] payloads[i])@.len() <= 0xFFFF
}

/// The value bytes that a table holds, by tag.
pub open spec fn values_of(table: Map<u8, RawField>) -> Map<u8, Seq<u8>> {
    Map::new(|tag: u8| table.contains_key(tag), |tag: u8| table[tag].value@)
}

/// What a field resolves to in a table of frames: its frame's value where
/// the tag is there; where it is not, no value for the two tolerant kinds
/// and a failure for a regular field.
pub open spec fn resolve(m: Map<u8, Seq<u8>>, tag: u8, kind: FieldKind) -> Result<
    Option<Seq<u8>>,
    TlvError,
> {
    if m.contains_key(tag) {
        Ok(Some(m[tag]))
    } else if kind == FieldKind::Regular {
        Err(TlvError::MissingField(tag))
    } else {
        Ok(None)
    }
}

/// What the fields of a schema resolve to, in schema order; the failure of
/// the first field that fails otherwise.
pub open spec fn resolve_all(m: Map<u8, Seq<u8>>, schema: Seq<FieldSchema>) -> Result<
    Seq<Option<Seq<u8>>>,
    TlvError,
>
    decreases schema.len(),
{
    if schema.len() == 0 {
        Ok(Seq::empty())
    } else {
        match resolve_all(m, schema.drop_last()) {
            Err(e) => Err(e),
            Ok(found) => match resolve(m, schema.last().tag, schema.last().kind) {
                Err(e) => Err(e),
                Ok(p) => Ok(found.push(p)),
            },
        }
    }
}

/// The bytes of each resolved payload.
pub open spec fn payload_views(found: Seq<Option<Vec<u8>>>) -> Seq<Option<Seq<u8>>> {
    Seq::new(
        found.len(),
        |i: int|
            match found[i] {
                Some(p) => Some(p@),
                None => None,
            },
    )
}

/// Appends one frame to the writer and returns how many bytes it took. The
/// length marker is the payload's own length; a payload too long for it is
/// refused and the writer left as it was.
pub fn write_frame(tag: u8, payload: &[u8], writer: &mut Vec<u8>) -> (r: Result<usize, TlvError>)
    ensures
        payload@.len() <= 0xFFFF ==> r == Ok::<usize, TlvError>((3 + payload@.len()) as usize)
            && final(writer)@ == old(writer)@ + frame_wire(tag, payload@),
        payload@.len() > 0xFFFF ==> r == Err::<usize, TlvError>(TlvError::ValueTooLarge)
            && final(writer)@ == old(writer)@,
{
    let start = writer.len();
    if payload.len() > 0xFFFF {
        return Err(TlvError::ValueTooLarge);
    }
    writer.push(tag);
    put_u16(payload.len() as u16, writer);
    put_bytes(payload, writer);
    assert(writer@ =~= old(writer)@ + frame_wire(tag, payload@));
    Ok(writer.len() - start)
}

/// The payload of a field that its type's codec writes: the value's bytes.
/// This serves regular and optional fields alike, an optional value bringing
/// its presence flag with it.
pub fn regular_payload<T: Serialize>(value: &T) -> (r: Result<Vec<u8>, TlvError>)
    ensures
        value.encodable() ==> r is Ok && r.unwrap()@ == value.wire(),
        !value.encodable() ==> r == Err::<Vec<u8>, TlvError>(TlvError::ValueTooLarge),
{
    let mut payload: Vec<u8> = Vec::new();
    match value.serialize(&mut payload) {
        Ok(_) => {
            assert(payload@ =~= value.wire());
            Ok(payload)
        },
        Err(e) => Err(e),
    }
}

/// The payload of a raw-bytes field: the buffer, length first.
pub fn bytes_payload(bytes: &[u8]) -> (r: Result<Vec<u8>, TlvError>)
    ensures
        bytes@.len() <= u32::MAX ==> r is Ok && r.unwrap()@ == bytes_wire(bytes@),
        bytes@.len() > u32::MAX ==> r == Err::<Vec<u8>, TlvError>(TlvError::ValueTooLarge),
{
    let mut payload: Vec<u8> = Vec::new();
    match serialize_bytes(bytes, &mut payload) {
        Ok(_) => {
            assert(payload@ =~= bytes_wire(bytes@));
            Ok(payload)
        },
        Err(e) => Err(e),
    }
}

/// Writes one field whose value its type's codec encodes, as a frame under
/// `tag`. Nothing is written unless the whole frame can be.
pub fn encode_field<T: Serialize>(tag: u8, value: &T, writer: &mut Vec<u8>) -> (r: Result<
    usize,
    TlvError,
>)
    ensures
        value.encodable() && value.wire().len() <= 0xFFFF ==> r == Ok::<usize, TlvError>(
            (3 + value.wire().len()) as usize,
        ) && final(writer)@ == old(writer)@ + frame_wire(tag, value.wire()),
        !(value.encodable() && value.wire().len() <= 0xFFFF) ==> r == Err::<usize, TlvError>(
            TlvError::ValueTooLarge,
        ) && final(writer)@ == old(writer)@,
{
    match regular_payload(value) {
        Ok(payload) => write_frame(tag, payload.as_slice(), writer),
        Err(e) => Err(e),
    }
}

/// Writes one raw-bytes field as a frame under `tag`. Nothing is written
/// unless the whole frame can be.
pub fn encode_bytes_field(tag: u8, bytes: &[u8], writer: &mut Vec<u8>) -> (r: Result<
    usize,
    TlvError,
>)
    ensures
        bytes@.len() + 4 <= 0xFFFF ==> r == Ok::<usize, TlvError>((7 + bytes@.len()) as usize)
            && final(writer)@ == old(writer)@ + frame_wire(tag, bytes_wire(bytes@)),
        bytes@.len() + 4 > 0xFFFF ==> r == Err::<usize, TlvError>(TlvError::ValueTooLarge)
            && final(writer)@ == old(writer)@,
{
    match bytes_payload(bytes) {
        Ok(payload) => write_frame(tag, payload.as_slice(), writer),
        Err(e) => Err(e),
    }
}

/// Writes a record: one frame per field of the schema, in schema order, each
/// with the payload that stands at the field's place. Returns the number of
/// bytes written. Nothing is written unless every payload fits a frame.
pub fn encode_record(schema: &[FieldSchema], payloads: &[Vec<u8>], writer: &mut Vec<u8>) -> (r:
    Result<usize, TlvError>)
    requires
        schema@.len() == payloads@.len(),
    ensures
        all_fit(payloads@) ==> r == Ok::<usize, TlvError>(
            record_wire(tagged(schema@, payloads@)).len() as usize,
        ) && final(writer)@ == old(writer)@ + record_wire(tagged(schema@, payloads@)),
        !all_fit(payloads@) ==> r == Err::<usize, TlvError>(TlvError::ValueTooLarge) && final(writer)@ == old(writer)@,
{
    let start = writer.len();
    let ghost fields = tagged(schema@, payloads@);
    let mut i: usize = 0;
    while i < schema.len()
        invariant
            i <= schema@.len(),
            schema@.len() == payloads@.len(),
            start == old(writer)@.len(),
            fields == tagged(schema@, payloads@),
            writer@ == old(writer)@ + record_wire(fields.take(i as int)),
            forall|j: int| 0 <= j < i ==> (#[trigger] payloads@[j])@.len() <= 0xFFFF,
        decreases schema@.len() - i,
    {
        match write_frame(schema[i].tag, payloads[i].as_slice(), writer) {
            Ok(_) => {},
            Err(e) => {
                writer.truncate(start);
                assert(writer@ =~= old(writer)@);
                return Err(e);
            },
        }
        proof {
            assert(fields.take(i + 1).drop_last() =~= fields.take(i as int));
            assert(fields.take(i + 1).last() == (schema@[i as int].tag, payloads@[i as int]@));
            assert(writer@ =~= old(writer)@ + record_wire(fields.take(i + 1)));
        }
        i += 1;
    }
    proof {
        assert(fields.take(i as int) =~= fields);
    }
    Ok(writer.len() - start)
}

/// Looks one field up in the table of frames: a copy of its frame's value,
/// or what its kind says of a frame that is not there.
pub fn resolve_field(table: &BTreeMap<u8, RawField>, tag: u8, kind: FieldKind) -> (r: Result<
    Option<Vec<u8>>,
    TlvError,
>)
    ensures
        match resolve(values_of(table@), tag, kind) {
            Ok(Some(p)) => r is Ok && r.unwrap() is Some && r.unwrap().unwrap()@ == p,
            Ok(None) => r == Ok::<Option<Vec<u8>>, TlvError>(None),
            Err(e) => r == Err::<Option<Vec<u8>>, TlvError>(e),
        },
{
    match find_frame(table, tag) {
        Some(field) => Ok(Some(copy_bytes(field.value.as_slice()))),
        None => match kind {
            FieldKind::Regular => Err(TlvError::MissingField(tag)),
            FieldKind::RawBytes => Ok(None),
            FieldKind::Optional => Ok(None),
        },
    }
}

/// Looks every field of the schema up in the table of frames, in schema
/// order. Frames under tags that the schema does not name are passed over.
pub fn resolve_fields(table: &BTreeMap<u8, RawField>, schema: &[FieldSchema]) -> (r: Result<
    Vec<Option<Vec<u8>>>,
    TlvError,
>)
    ensures
        match resolve_all(values_of(table@), schema@) {
            Ok(found) => r is Ok && payload_views(r.unwrap()@) == found,
            Err(e) => r == Err::<Vec<Option<Vec<u8>>>, TlvError>(e),
        },
{
    let mut out: Vec<Option<Vec<u8>>> = Vec::new();
    let ghost m = values_of(table@);
    let mut i: usize = 0;
    assert(schema@.take(0) =~= Seq::<FieldSchema>::empty());
    assert(payload_views(out@) =~= Seq::<Option<Seq<u8>>>::empty());
    while i < schema.len()
        invariant
            i <= schema@.len(),
            m == values_of(table@),
            resolve_all(m, schema@.take(i as int)) == Ok::<Seq<Option<Seq<u8>>>, TlvError>(
                payload_views(out@),
            ),
        decreases schema@.len() - i,
    {
        proof {
            assert(schema@.take(i + 1).drop_last() =~= schema@.take(i as int));
            assert(schema@.take(i + 1).last() == schema@[i as int]);
        }
        match resolve_field(table, schema[i].tag, schema[i].kind) {
            Ok(p) => {
                let ghost before = out@;
                out.push(p);
                assert(payload_views(out@) =~= payload_views(before).push(
                    match p {
                        Some(v) => Some(v@),
                        None => None,
                    },
                ));
            },
            Err(e) => {
                proof {
                    lemma_resolve_all_fails_on(m, schema@, (i + 1) as int);
                }
                return Err(e);
            },
        }
        i += 1;
    }
    proof {
        assert(schema@.take(i as int) =~= schema@);
    }
    Ok(out)
}

/// Once a field fails to resolve, the whole schema fails the same way.
pub proof fn lemma_resolve_all_fails_on(m: Map<u8, Seq<u8>>, schema: Seq<FieldSchema>, i: int)
    requires
        0 <= i <= schema.len(),
        resolve_all(m, schema.take(i)) is Err,
    ensures
        resolve_all(m, schema) == resolve_all(m, schema.take(i)),
    decreases schema.len(),
{
    if i < schema.len() {
        assert(schema.drop_last().take(i) =~= schema.take(i));
        lemma_resolve_all_fails_on(m, schema.drop_last(), i);
    } else {
        assert(schema.take(i) =~= schema);
    }
}

/// Reads a record: exactly as many frames as the schema has fields, then
/// each field looked up by its tag. The result holds, in schema order, the
/// value bytes of each field's frame, or nothing where a tolerant field has
/// no frame. Any failure fails the whole record. Where the frames are
/// whole, the reader has passed them, whether or not every field resolves.
pub fn decode_record(reader: &mut &[u8], schema: &[FieldSchema]) -> (r: Result<
    Vec<Option<Vec<u8>>>,
    TlvError,
>)
    ensures
        match parse_frames(old(reader)@, schema@.len()) {
            Err(e) => r == Err::<Vec<Option<Vec<u8>>>, TlvError>(e),
            Ok((m, n)) => n <= old(reader)@.len() && final(reader)@ == old(reader)@.skip(n as int)
                && match resolve_all(m, schema@) {
                Err(e) => r == Err::<Vec<Option<Vec<u8>>>, TlvError>(e),
                Ok(found) => r is Ok && payload_views(r.unwrap()@) == found,
            },
        },
        advanced(old(reader)@, final(reader)@),
{
    let table = match extract_frames(reader, schema.len()) {
        Ok(table) => table,
        Err(e) => {
            return Err(e);
        },
    };
    proof {
        let m = parse_frames(old(reader)@, schema@.len())->Ok_0.0;
        assert(values_of(table@) =~= m);
    }
    resolve_fields(&table, schema)
}

/// Decodes a regular field from the table of frames: its frame must be
/// there, and its value is read by the codec of the field's type.
pub fn decode_regular<T: Deserialize>(table: &BTreeMap<u8, RawField>, tag: u8) -> (r: Result<
    T,
    TlvError,
>)
    ensures
        !table@.contains_key(tag) ==> r == Err::<T, TlvError>(TlvError::MissingField(tag)),
        table@.contains_key(tag) ==> match T::parse(table@[tag].value@) {
            Ok((m, _)) => r is Ok && r.unwrap().model() == m,
            Err(e) => r == Err::<T, TlvError>(e),
        },
{
    match find_frame(table, tag) {
        Some(field) => {
            let mut cursor: &[u8] = field.value.as_slice();
            T::deserialize(&mut cursor)
        },
        None => Err(TlvError::MissingField(tag)),
    }
}

/// Decodes a raw-bytes field from the table of frames: the empty buffer
/// where its frame is not there, the length-prefixed buffer in its frame's
/// value where it is.
pub fn decode_bytes(table: &BTreeMap<u8, RawField>, tag: u8) -> (r: Result<Vec<u8>, TlvError>)
    ensures
        !table@.contains_key(tag) ==> r is Ok && r.unwrap()@ == Seq::<u8>::empty(),
        table@.contains_key(tag) ==> match parse_bytes(table@[tag].value@) {
            Ok((bytes, _)) => r is Ok && r.unwrap()@ == bytes,
            Err(e) => r == Err::<Vec<u8>, TlvError>(e),
        },
{
    match find_frame(table, tag) {
        Some(field) => {
            let mut cursor: &[u8] = field.value.as_slice();
            deserialize_bytes(&mut cursor)
        },
        None => Ok(Vec::new()),
    }
}

/// Decodes an optional field from the table of frames: no value where its
/// frame is not there, and what the frame's value decodes to, presence flag
/// first, where it is.
pub fn decode_optional<T: Deserialize>(table: &BTreeMap<u8, RawField>, tag: u8) -> (r: Result<
    Option<T>,
    TlvError,
>)
    ensures
        !table@.contains_key(tag) ==> r == Ok::<Option<T>, TlvError>(None),
        table@.contains_key(tag) ==> match Option::<T>::parse(table@[tag].value@) {
            Ok((m, _)) => r is Ok && r.unwrap().model() == m,
            Err(e) => r == Err::<Option<T>, TlvError>(e),
        },
{
    match find_frame(table, tag) {
        Some(field) => {
            let mut cursor: &[u8] = field.value.as_slice();
            Option::<T>::deserialize(&mut cursor)
        },
        None => Ok(None),
    }
}

} // verus!
