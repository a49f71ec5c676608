use vstd::prelude::*;
use crate::error::TlvError;

verus! {

/// The two bytes of `x`, least significant first.
pub open spec fn le16(x: u16) -> Seq<u8> {
    seq![(x % 256) as u8, (x / 256) as u8]
}

/// The four bytes of `x`, least significant first.
pub open spec fn le32(x: u32) -> Seq<u8> {
    seq![
        (x % 256) as u8,
        (x / 0x100 % 256) as u8,
        (x / 0x1_0000 % 256) as u8,
        (x / 0x100_0000) as u8,
    ]
}

/// The eight bytes of `x`, least significant first.
pub open spec fn le64(x: u64) -> Seq<u8> {
    seq![
        (x % 256) as u8,
        (x / 0x100 % 256) as u8,
        (x / 0x1_0000 % 256) as u8,
        (x / 0x100_0000 % 256) as u8,
        (x / 0x1_0000_0000 % 256) as u8,
        (x / 0x100_0000_0000 % 256) as u8,
        (x / 0x1_0000_0000_0000 % 256) as u8,
        (x / 0x100_0000_0000_0000) as u8,
    ]
}

/// The number that the first two bytes of `s` spell, least significant first.
pub open spec fn from_le16(s: Seq<u8>) -> u16
    recommends
        s.len() >= 2,
{
    (s[0] as int + 0x100 * s[1] as int) as u16
}

/// The number that the first four bytes of `s` spell, least significant first.
pub open spec fn from_le32(s: Seq<u8>) -> u32
    recommends
        s.len() >= 4,
{
    (s[0] as int + 0x100 * s[1] as int + 0x1_0000 * s[2] as int + 0x100_0000 * s[3] as int) as u32
}

/// The number that the first eight bytes of `s` spell, least significant first.
pub open spec fn from_le64(s: Seq<u8>) -> u64
    recommends
        s.len() >= 8,
{
    (s[0] as int + 0x100 * s[1] as int + 0x1_0000 * s[2] as int + 0x100_0000 * s[3] as int
        + 0x1_0000_0000 * s[4] as int + 0x100_0000_0000 * s[5] as int + 0x1_0000_0000_0000
        * s[6] as int + 0x100_0000_0000_0000 * s[7] as int) as u64
}

/// Reading back what `le16` wrote gives the number again, whatever follows.
pub proof fn lemma_le16_round_trip(x: u16, rest: Seq<u8>)
    ensures
        le16(x).len() == 2,
        from_le16(le16(x) + rest) == x,
{
}

/// Reading back what `le32` wrote gives the number again, whatever follows.
pub proof fn lemma_le32_round_trip(x: u32, rest: Seq<u8>)
    ensures
        le32(x).len() == 4,
        from_le32(le32(x) + rest) == x,
{
}

/// Reading back what `le64` wrote gives the number again, whatever follows.
pub proof fn lemma_le64_round_trip(x: u64, rest: Seq<u8>)
    ensures
        le64(x).len() == 8,
        from_le64(le64(x) + rest) == x,
{
    let q1 = x / 0x100;
    let q2 = q1 / 0x100;
    let q3 = q2 / 0x100;
    let q4 = q3 / 0x100;
    let q5 = q4 / 0x100;
    let q6 = q5 / 0x100;
    let q7 = q6 / 0x100;
    assert(q2 == x / 0x1_0000);
    assert(q3 == x / 0x100_0000);
    assert(q4 == x / 0x1_0000_0000);
    assert(q5 == x / 0x100_0000_0000);
    assert(q6 == x / 0x1_0000_0000_0000);
    assert(q7 == x / 0x100_0000_0000_0000);
    let s = le64(x) + rest;
    assert(s[0] == x % 256 && s[1] == q1 % 256 && s[2] == q2 % 256 && s[3] == q3 % 256);
    assert(s[4] == q4 % 256 && s[5] == q5 % 256 && s[6] == q6 % 256 && s[7] == q7);
}

/// Whether `after` is what is left of `before` once some bytes, or none,
/// have been taken off its front.
pub open spec fn advanced(before: Seq<u8>, after: Seq<u8>) -> bool {
    exists|k: int| 0 <= k <= before.len() && after == #[trigger] before.skip(k)
}

/// An advance after an advance is an advance.
pub proof fn lemma_advance_twice(a: Seq<u8>, b: Seq<u8>, c: Seq<u8>)
    requires
        advanced(a, b),
        advanced(b, c),
    ensures
        advanced(a, c),
{
    let k1 = choose|k: int| 0 <= k <= a.len() && b == #[trigger] a.skip(k);
    let k2 = choose|k: int| 0 <= k <= b.len() && c == #[trigger] b.skip(k);
    assert(a.skip(k1).skip(k2) =~= a.skip(k1 + k2));
}

/// Takes the first `n` bytes off the reader, or leaves it untouched when it
/// holds fewer.
pub fn take<'a>(reader: &mut &'a [u8], n: usize) -> (r: Result<&'a [u8], TlvError>)
    ensures
        old(reader)@.len() >= n ==> r is Ok && r.unwrap()@ == old(reader)@.take(n as int)
            && final(reader)@ == old(reader)@.skip(n as int),
        old(reader)@.len() < n ==> r == Err::<&[u8], TlvError>(TlvError::TruncatedInput)
            && *final(reader) == *old(reader),
        advanced(old(reader)@, final(reader)@),
{
    let whole: &'a [u8] = *reader;
    if whole.len() < n {
        proof {
            assert(whole@.skip(0) =~= whole@);
        }
        return Err(TlvError::TruncatedInput);
    }
    let (head, tail) = whole.split_at(n);
    *reader = tail;
    Ok(head)
}

/// Appends the two bytes of `x` to the writer.
pub fn put_u16(x: u16, writer: &mut Vec<u8>)
    ensures
        final(writer)@ == old(writer)@ + le16(x),
{
    writer.push((x % 256) as u8);
    writer.push((x / 256) as u8);
    assert(writer@ =~= old(writer)@ + le16(x));
}

/// Appends the four bytes of `x` to the writer.
pub fn put_u32(x: u32, writer: &mut Vec<u8>)
    ensures
        final(writer)@ == old(writer)@ + le32(x),
{
    writer.push((x % 256) as u8);
    writer.push((x / 0x100 % 256) as u8);
    writer.push((x / 0x1_0000 % 256) as u8);
    writer.push((x / 0x100_0000) as u8);
    assert(writer@ =~= old(writer)@ + le32(x));
}

/// Appends the eight bytes of `x` to the writer.
pub fn put_u64(x: u64, writer: &mut Vec<u8>)
    ensures
        final(writer)@ == old(writer)@ + le64(x),
{
    writer.push((x % 256) as u8);
    writer.push((x / 0x100 % 256) as u8);
    writer.push((x / 0x1_0000 % 256) as u8);
    writer.push((x / 0x100_0000 % 256) as u8);
    writer.push((x / 0x1_0000_0000 % 256) as u8);
    writer.push((x / 0x100_0000_0000 % 256) as u8);
    writer.push((x / 0x1_0000_0000_0000 % 256) as u8);
    writer.push((x / 0x100_0000_0000_0000) as u8);
    assert(writer@ =~= old(writer)@ + le64(x));
}

/// Takes one byte off the reader.
pub fn get_u8(reader: &mut &[u8]) -> (r: Result<u8, TlvError>)
    ensures
        old(reader)@.len() >= 1 ==> r == Ok::<u8, TlvError>(old(reader)@[0]) && final(reader)@
            == old(reader)@.skip(1),
        old(reader)@.len() < 1 ==> r == Err::<u8, TlvError>(TlvError::TruncatedInput),
        advanced(old(reader)@, final(reader)@),
{
    match take(reader, 1) {
        Ok(b) => Ok(b[0]),
        Err(e) => Err(e),
    }
}

/// Takes a two-byte number off the reader.
pub fn get_u16(reader: &mut &[u8]) -> (r: Result<u16, TlvError>)
    ensures
        old(reader)@.len() >= 2 ==> r == Ok::<u16, TlvError>(from_le16(old(reader)@))
            && final(reader)@ == old(reader)@.skip(2),
        old(reader)@.len() < 2 ==> r == Err::<u16, TlvError>(TlvError::TruncatedInput),
        advanced(old(reader)@, final(reader)@),
{
    match take(reader, 2) {
        Ok(b) => Ok(b[0] as u16 + 0x100 * (b[1] as u16)),
        Err(e) => Err(e),
    }
}

/// Takes a four-byte number off the reader.
pub fn get_u32(reader: &mut &[u8]) -> (r: Result<u32, TlvError>)
    ensures
        old(reader)@.len() >= 4 ==> r == Ok::<u32, TlvError>(from_le32(old(reader)@))
            && final(reader)@ == old(reader)@.skip(4),
        old(reader)@.len() < 4 ==> r == Err::<u32, TlvError>(TlvError::TruncatedInput),
        advanced(old(reader)@, final(reader)@),
{
    match take(reader, 4) {
        Ok(b) => Ok(
            b[0] as u32 + 0x100 * (b[1] as u32) + 0x1_0000 * (b[2] as u32) + 0x100_0000 * (
            b[3] as u32),
        ),
        Err(e) => Err(e),
    }
}

/// Takes an eight-byte number off the reader.
pub fn get_u64(reader: &mut &[u8]) -> (r: Result<u64, TlvError>)
    ensures
        old(reader)@.len() >= 8 ==> r == Ok::<u64, TlvError>(from_le64(old(reader)@))
            && final(reader)@ == old(reader)@.skip(8),
        old(reader)@.len() < 8 ==> r == Err::<u64, TlvError>(TlvError::TruncatedInput),
        advanced(old(reader)@, final(reader)@),
{
    match take(reader, 8) {
        Ok(b) => Ok(
            b[0] as u64 + 0x100 * (b[1] as u64) + 0x1_0000 * (b[2] as u64) + 0x100_0000 * (
            b[3] as u64) + 0x1_0000_0000 * (b[4] as u64) + 0x100_0000_0000 * (b[5] as u64)
                + 0x1_0000_0000_0000 * (b[6] as u64) + 0x100_0000_0000_0000 * (b[7] as u64),
        ),
        Err(e) => Err(e),
    }
}

/// Appends a copy of `bytes` to the writer.
pub fn put_bytes(bytes: &[u8], writer: &mut Vec<u8>)
    ensures
        final(writer)@ == old(writer)@ + bytes@,
{
    let mut i: usize = 0;
    while i < bytes.len()
        invariant
            i <= bytes@.len(),
            writer@ == old(writer)@ + bytes@.take(i as int),
        decreases bytes@.len() - i,
    {
        writer.push(bytes[i]);
        assert(bytes@.take(i + 1) =~= bytes@.take(i as int).push(bytes@[i as int]));
        assert(writer@ =~= old(writer)@ + bytes@.take(i + 1));
        i += 1;
    }
    assert(bytes@.take(i as int) =~= bytes@);
}

/// A copy of `bytes` that the caller owns.
pub fn copy_bytes(bytes: &[u8]) -> (out: Vec<u8>)
    ensures
        out@ == bytes@,
{
    let mut out: Vec<u8> = Vec::with_capacity(bytes.len());
    put_bytes(bytes, &mut out);
    assert(out@ =~= bytes@);
    out
}

} // verus!
