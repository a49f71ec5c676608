use std::collections::BTreeMap;
use vstd::prelude::*;
use crate::error::TlvError;
use crate::table::{empty_table, put_frame};
use crate::wire::{advanced, copy_bytes, from_le16, get_u16, get_u8, lemma_advance_twice, take};

verus! {

/// One frame as it stood on the wire: a tag, the length that was declared,
/// and the value's bytes.
#[derive(Debug)]
pub struct RawField {
    pub id: u8,
    pub len: u16,
    pub value: Vec<u8>,
}

impl RawField {
    /// Whether the declared length is the number of bytes in the value.
    pub open spec fn wf(&self) -> bool {
        self.len == self.value@.len()
    }

    /// A frame of these three parts, taken as they are given.
    pub fn new(id: u8, len: u16, value: Vec<u8>) -> (field: Self)
        ensures
            field.id == id,
            field.len == len,
            field.value == value,
    {
        Self { id, len, value }
    }
}

/// The frame at the front of `s`: its tag, its value and the bytes it takes.
/// A frame is one byte of tag, two bytes of length, and that many bytes of
/// value.
pub open spec fn parse_frame(s: Seq<u8>) -> Result<(u8, Seq<u8>, nat), TlvError> {
    if s.len() < 3 {
        Err(TlvError::TruncatedInput)
    } else if s.len() < 3 + from_le16(s.skip(1)) {
        Err(TlvError::TruncatedInput)
    } else {
        Ok((s[0], s.subrange(3, 3 + from_le16(s.skip(1))), 3 + from_le16(s.skip(1)) as nat))
    }
}

/// The first `count` frames of `s`, as a map from each tag seen to the value
/// of the last frame that carried it, and the bytes they take together; the
/// first failure otherwise.
pub open spec fn parse_frames(s: Seq<u8>, count: nat) -> Result<(Map<u8, Seq<u8>>, nat), TlvError>
    decreases count,
{
    if count == 0 {
        Ok((Map::empty(), 0))
    } else {
        match parse_frames(s, (count - 1) as nat) {
            Err(e) => Err(e),
            Ok((m, n)) => match parse_frame(s.skip(n as int)) {
                Err(e) => Err(e),
                Ok((tag, value, k)) => Ok((m.insert(tag, value), n + k)),
            },
        }
    }
}

/// Whether the table holds exactly the frames of `m`, each under its tag and
/// with its length declared truly.
pub open spec fn table_holds(table: Map<u8, RawField>, m: Map<u8, Seq<u8>>) -> bool {
    &&& table.dom() == m.dom()
    &&& forall|tag: u8| #[trigger]
        m.contains_key(tag) ==> table[tag].id == tag && table[tag].value@ == m[tag]
            && table[tag].wf()
}

/// Once a frame fails to parse, asking for more frames fails the same way.
pub proof fn lemma_parse_frames_fails_on(s: Seq<u8>, i: nat, count: nat)
    requires
        i <= count,
        parse_frames(s, i) is Err,
    ensures
        parse_frames(s, count) == parse_frames(s, i),
    decreases count,
{
    if i < count {
        lemma_parse_frames_fails_on(s, i, (count - 1) as nat);
    }
}

/// Reads one frame off the front of the reader.
pub fn read_frame(reader: &mut &[u8]) -> (r: Result<RawField, TlvError>)
    ensures
        match parse_frame(old(reader)@) {
            Ok((tag, value, k)) => r is Ok && r.unwrap().id == tag && r.unwrap().value@ == value
                && r.unwrap().wf() && k <= old(reader)@.len() && final(reader)@ == old(reader)@.skip(k as int),
            Err(e) => r == Err::<RawField, TlvError>(e),
        },
        advanced(old(reader)@, final(reader)@),
{
    let id = match get_u8(reader) {
        Ok(id) => id,
        Err(e) => {
            return Err(e);
        },
    };
    let ghost after_tag = reader@;
    let len = match get_u16(reader) {
        Ok(len) => len,
        Err(e) => {
            proof {
                lemma_advance_twice(old(reader)@, after_tag, reader@);
            }
            return Err(e);
        },
    };
    let ghost after_length = reader@;
    proof {
        lemma_advance_twice(old(reader)@, after_tag, after_length);
    }
    let bytes = match take(reader, len as usize) {
        Ok(bytes) => bytes,
        Err(e) => {
            return Err(e);
        },
    };
    proof {
        assert(bytes@ =~= old(reader)@.subrange(3, 3 + len));
        assert(reader@ =~= old(reader)@.skip(3 + len));
    }
    Ok(RawField::new(id, len, copy_bytes(bytes)))
}

/// Reads exactly `count` frames off the front of the reader and files each
/// under the tag it carries. A later frame replaces an earlier one with the
/// same tag. Nothing is returned unless all `count` frames are whole.
pub fn extract_frames(reader: &mut &[u8], count: usize) -> (r: Result<
    BTreeMap<u8, RawField>,
    TlvError,
>)
    ensures
        match parse_frames(old(reader)@, count as nat) {
            Ok((m, n)) => r is Ok && table_holds(r.unwrap()@, m) && n <= old(reader)@.len()
                && final(reader)@ == old(reader)@.skip(n as int),
            Err(e) => r == Err::<BTreeMap<u8, RawField>, TlvError>(e),
        },
        advanced(old(reader)@, final(reader)@),
{
    let mut gathered = empty_table();
    let ghost mut m: Map<u8, Seq<u8>> = Map::empty();
    let ghost mut consumed: nat = 0;
    let mut i: usize = 0;
    assert(reader@.skip(0) =~= reader@);
    while i < count
        invariant
            i <= count,
            consumed <= old(reader)@.len(),
            reader@ == old(reader)@.skip(consumed as int),
            advanced(old(reader)@, reader@),
            parse_frames(old(reader)@, i as nat) == Ok::<(Map<u8, Seq<u8>>, nat), TlvError>(
                (m, consumed),
            ),
            table_holds(gathered@, m),
        decreases count - i,
    {
        let ghost step = parse_frame(reader@);
        let ghost mid = reader@;
        match read_frame(reader) {
            Ok(field) => {
                proof {
                    lemma_advance_twice(old(reader)@, mid, reader@);
                    let k = step->Ok_0.2;
                    assert(old(reader)@.skip(consumed as int).skip(k as int) =~= old(reader)@.skip(consumed as int + k as int));
                    m = m.insert(field.id, field.value@);
                    consumed = consumed + k;
                }
                put_frame(&mut gathered, field);
                assert(gathered@.dom() =~= m.dom());
            },
            Err(e) => {
                proof {
                    lemma_advance_twice(old(reader)@, mid, reader@);
                    assert(((i + 1) as nat - 1) as nat == i as nat);
                    assert(parse_frames(old(reader)@, (i + 1) as nat) is Err);
                    lemma_parse_frames_fails_on(old(reader)@, (i + 1) as nat, count as nat);
                }
                return Err(e);
            },
        }
        i += 1;
    }
    Ok(gathered)
}

/// Reads as many frames as there are tags in `tags` and files each under the
/// tag it carries on the wire. The tags listed only say how many frames to
/// read: which tags arrive is for the caller to look up.
pub fn extract_raw<const LENGTH: usize>(reader: &mut &[u8], tags: [u8; LENGTH]) -> (r: Result<
    BTreeMap<u8, RawField>,
    TlvError,
>)
    ensures
        match parse_frames(old(reader)@, LENGTH as nat) {
            Ok((m, n)) => r is Ok && table_holds(r.unwrap()@, m) && n <= old(reader)@.len()
                && final(reader)@ == old(reader)@.skip(n as int),
            Err(e) => r == Err::<BTreeMap<u8, RawField>, TlvError>(e),
        },
        advanced(old(reader)@, final(reader)@),
{
    extract_frames(reader, LENGTH)
}

} // verus!
