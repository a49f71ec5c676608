use std::collections::{BTreeMap, HashMap};
use vstd::prelude::*;
use vstd::utf8::{encode_utf8, encode_utf8_decode_utf8, encode_utf8_valid_utf8};
use crate::deser::{parse_bytes, Deserialize};
use crate::error::TlvError;
use crate::impls::maps::{
    key_lawful, lists, map_model, pairs_encodable, parse_pairs, wire_pairs, MapKey,
};
use crate::impls::{models, parse_many, wire_all};
use crate::frame::{parse_frame, parse_frames};
use crate::record::{
    all_fit, frame_wire, record_wire, resolve, resolve_all, tagged, FieldSchema,
};
use crate::schema::distinct_schema_tags;
use crate::ser::{bytes_wire, Serialize};
use crate::wire::{
    from_le16, le16, le32, lemma_le16_round_trip, lemma_le32_round_trip, lemma_le64_round_trip,
};

verus! {

/// A type whose decoder undoes its encoder.
pub trait RoundTrip: Serialize + Deserialize {
    /// Decoding the bytes that a value was written as gives the value back
    /// and takes exactly those bytes, whatever follows them.
    proof fn round_trip(&self, rest: Seq<u8>)
        requires
            self.encodable(),
        ensures
            Self::parse(self.wire() + rest) == Ok::<(Self::Model, nat), TlvError>(
                (self.model(), self.wire().len()),
            ),
    ;
}

impl RoundTrip for bool {
    proof fn round_trip(&self, rest: Seq<u8>) {
    }
}

impl RoundTrip for u8 {
    proof fn round_trip(&self, rest: Seq<u8>) {
    }
}

impl RoundTrip for u16 {
    proof fn round_trip(&self, rest: Seq<u8>) {
        lemma_le16_round_trip(*self, rest);
    }
}

impl RoundTrip for u32 {
    proof fn round_trip(&self, rest: Seq<u8>) {
        lemma_le32_round_trip(*self, rest);
    }
}

impl RoundTrip for u64 {
    proof fn round_trip(&self, rest: Seq<u8>) {
        lemma_le64_round_trip(*self, rest);
    }
}

impl<T: RoundTrip> RoundTrip for Option<T> {
    proof fn round_trip(&self, rest: Seq<u8>) {
        match self {
            Some(value) => {
                value.round_trip(rest);
                assert((self.wire() + rest).skip(1) =~= value.wire() + rest);
            },
            None => {},
        }
    }
}

/// Decoding as many values as were written, from the bytes they were written
/// as, gives them all back and takes exactly those bytes.
pub proof fn lemma_parse_many_round_trip<T: RoundTrip>(s: Seq<T>, rest: Seq<u8>)
    requires
        forall|i: int| 0 <= i < s.len() ==> (#[trigger] s[i]).encodable(),
    ensures
        parse_many::<T>(wire_all(s) + rest, s.len()) == Ok::<(Seq<T::Model>, nat), TlvError>(
            (models(s), wire_all(s).len()),
        ),
    decreases s.len(),
{
    if s.len() == 0 {
        assert(models(s) =~= Seq::<T::Model>::empty());
    } else {
        let front = s.drop_last();
        let last = s.last();
        let whole = wire_all(s) + rest;
        assert(whole =~= wire_all(front) + (last.wire() + rest));
        assert forall|i: int| 0 <= i < front.len() implies (#[trigger] front[i]).encodable() by {
            assert(front[i] == s[i]);
        }
        lemma_parse_many_round_trip::<T>(front, last.wire() + rest);
        assert(whole.skip(wire_all(front).len() as int) =~= last.wire() + rest);
        assert(s[s.len() - 1].encodable());
        last.round_trip(rest);
        assert(models(front).push(last.model()) =~= models(s));
    }
}

impl<T: RoundTrip> RoundTrip for Vec<T> {
    proof fn round_trip(&self, rest: Seq<u8>) {
        let count = self@.len() as u32;
        let whole = self.wire() + rest;
        assert(whole =~= le32(count) + (wire_all(self@) + rest));
        lemma_le32_round_trip(count, wire_all(self@) + rest);
        assert(whole.skip(4) =~= wire_all(self@) + rest);
        lemma_parse_many_round_trip::<T>(self@, rest);
    }
}

impl RoundTrip for String {
    proof fn round_trip(&self, rest: Seq<u8>) {
        let bytes = encode_utf8(self@);
        let whole = self.wire() + rest;
        assert(whole =~= le32(bytes.len() as u32) + (bytes + rest));
        lemma_le32_round_trip(bytes.len() as u32, bytes + rest);
        assert(whole.subrange(4, 4 + bytes.len() as int) =~= bytes);
        encode_utf8_valid_utf8(self@);
        encode_utf8_decode_utf8(self@);
    }
}

/// Reading back a byte buffer from the bytes it was written as gives the
/// buffer and takes exactly those bytes, whatever follows them.
pub proof fn lemma_bytes_round_trip(bytes: Seq<u8>, rest: Seq<u8>)
    requires
        bytes.len() <= u32::MAX,
    ensures
        parse_bytes(bytes_wire(bytes) + rest) == Ok::<(Seq<u8>, nat), TlvError>(
            (bytes, bytes_wire(bytes).len()),
        ),
{
    let whole = bytes_wire(bytes) + rest;
    assert(whole =~= le32(bytes.len() as u32) + (bytes + rest));
    lemma_le32_round_trip(bytes.len() as u32, bytes + rest);
    assert(whole.subrange(4, 4 + bytes.len() as int) =~= bytes);
}

/// Parsing a frame from the bytes it was written as gives its tag and its
/// payload and takes exactly those bytes, whatever follows them.
pub proof fn lemma_frame_round_trip(tag: u8, payload: Seq<u8>, rest: Seq<u8>)
    requires
        payload.len() <= 0xFFFF,
    ensures
        parse_frame(frame_wire(tag, payload) + rest) == Ok::<(u8, Seq<u8>, nat), TlvError>(
            (tag, payload, frame_wire(tag, payload).len()),
        ),
        frame_wire(tag, payload).len() == 3 + payload.len(),
{
    let marker = payload.len() as u16;
    let whole = frame_wire(tag, payload) + rest;
    assert(whole.skip(1) =~= le16(marker) + (payload + rest));
    lemma_le16_round_trip(marker, payload + rest);
    assert(whole.subrange(3, 3 + payload.len() as int) =~= payload);
}

/// A frame whose declared length runs past the end of the input does not
/// parse: the input counts as truncated, and no part of it is handed out.
pub proof fn lemma_short_frame_fails(s: Seq<u8>)
    requires
        s.len() < 3 || s.len() < 3 + from_le16(s.skip(1)),
    ensures
        parse_frame(s) == Err::<(u8, Seq<u8>, nat), TlvError>(TlvError::TruncatedInput),
{
}

/// Reading frames fails in one way only: the input is truncated.
pub proof fn lemma_frames_fail_as_truncated(s: Seq<u8>, count: nat)
    requires
        parse_frames(s, count) is Err,
    ensures
        parse_frames(s, count) == Err::<(Map<u8, Seq<u8>>, nat), TlvError>(
            TlvError::TruncatedInput,
        ),
    decreases count,
{
    if count > 0 && parse_frames(s, (count - 1) as nat) is Err {
        lemma_frames_fail_as_truncated(s, (count - 1) as nat);
    }
}

/// The table that the frames of `fields` leave behind: each payload under
/// its tag, a later field replacing an earlier one with the same tag.
pub open spec fn table_of(fields: Seq<(u8, Seq<u8>)>) -> Map<u8, Seq<u8>>
    decreases fields.len(),
{
    if fields.len() == 0 {
        Map::empty()
    } else {
        table_of(fields.drop_last()).insert(fields.last().0, fields.last().1)
    }
}

/// Whether no two fields carry the same tag.
pub open spec fn distinct_tags(fields: Seq<(u8, Seq<u8>)>) -> bool {
    forall|i: int, j: int|
        0 <= i < fields.len() && 0 <= j < fields.len() && i != j ==> fields[i].0 != fields[j].0
}

/// A record of `k` fields is written as exactly `k` frames: reading `k`
/// frames from its bytes succeeds, takes all of them and nothing of what
/// follows, and finds each field's payload. This holds whatever the payloads
/// are, an absent optional value included.
pub proof fn lemma_record_is_one_frame_per_field(fields: Seq<(u8, Seq<u8>)>, rest: Seq<u8>)
    requires
        forall|i: int| 0 <= i < fields.len() ==> (#[trigger] fields[i]).1.len() <= 0xFFFF,
    ensures
        parse_frames(record_wire(fields) + rest, fields.len()) == Ok::<
            (Map<u8, Seq<u8>>, nat),
            TlvError,
        >((table_of(fields), record_wire(fields).len())),
    decreases fields.len(),
{
    if fields.len() > 0 {
        let front = fields.drop_last();
        let last = fields.last();
        let whole = record_wire(fields) + rest;
        assert(whole =~= record_wire(front) + (frame_wire(last.0, last.1) + rest));
        assert forall|i: int| 0 <= i < front.len() implies (#[trigger] front[i]).1.len()
            <= 0xFFFF by {
            assert(front[i] == fields[i]);
        }
        lemma_record_is_one_frame_per_field(front, frame_wire(last.0, last.1) + rest);
        assert(whole.skip(record_wire(front).len() as int) =~= frame_wire(last.0, last.1) + rest);
        assert(fields[fields.len() - 1].1.len() <= 0xFFFF);
        lemma_frame_round_trip(last.0, last.1, rest);
    }
}

/// A tag that no field carries is not in the table that the fields leave.
pub proof fn lemma_table_has_only_field_tags(fields: Seq<(u8, Seq<u8>)>, tag: u8)
    requires
        forall|i: int| 0 <= i < fields.len() ==> (#[trigger] fields[i]).0 != tag,
    ensures
        !table_of(fields).contains_key(tag),
    decreases fields.len(),
{
    if fields.len() > 0 {
        let front = fields.drop_last();
        assert forall|i: int| 0 <= i < front.len() implies (#[trigger] front[i]).0 != tag by {
            assert(front[i] == fields[i]);
        }
        lemma_table_has_only_field_tags(front, tag);
        assert(fields[fields.len() - 1].0 != tag);
    }
}

/// Where no two fields share a tag, the table that the fields leave holds
/// each field's payload under the field's tag.
pub proof fn lemma_table_finds_each_field(fields: Seq<(u8, Seq<u8>)>, i: int)
    requires
        distinct_tags(fields),
        0 <= i < fields.len(),
    ensures
        table_of(fields).contains_key(fields[i].0),
        table_of(fields)[fields[i].0] == fields[i].1,
    decreases fields.len(),
{
    let front = fields.drop_last();
    if i < fields.len() - 1 {
        assert(distinct_tags(front)) by {
            assert forall|a: int, b: int|
                0 <= a < front.len() && 0 <= b < front.len() && a != b implies front[a].0
                != front[b].0 by {
                assert(front[a] == fields[a] && front[b] == fields[b]);
            }
        }
        lemma_table_finds_each_field(front, i);
        assert(front[i] == fields[i]);
        assert(fields[fields.len() - 1].0 != fields[i].0);
    }
}

/// A frame under a tag that no field of the schema names changes nothing in
/// what the schema's fields resolve to.
pub proof fn lemma_foreign_tag_is_ignored(
    m: Map<u8, Seq<u8>>,
    schema: Seq<FieldSchema>,
    tag: u8,
    value: Seq<u8>,
)
    requires
        forall|i: int| 0 <= i < schema.len() ==> (#[trigger] schema[i]).tag != tag,
    ensures
        resolve_all(m.insert(tag, value), schema) == resolve_all(m, schema),
    decreases schema.len(),
{
    if schema.len() > 0 {
        let front = schema.drop_last();
        assert forall|i: int| 0 <= i < front.len() implies (#[trigger] front[i]).tag != tag by {
            assert(front[i] == schema[i]);
        }
        lemma_foreign_tag_is_ignored(m, front, tag, value);
        assert(schema[schema.len() - 1].tag != tag);
    }
}

/// Where the table has a frame for every field of the schema, every field
/// resolves to its frame's value, whatever its kind.
pub proof fn lemma_present_fields_resolve(m: Map<u8, Seq<u8>>, schema: Seq<FieldSchema>)
    requires
        forall|i: int| 0 <= i < schema.len() ==> m.contains_key((#[trigger] schema[i]).tag),
    ensures
        resolve_all(m, schema) == Ok::<Seq<Option<Seq<u8>>>, TlvError>(
            Seq::new(schema.len(), |i: int| Some(m[schema[i].tag])),
        ),
    decreases schema.len(),
{
    if schema.len() == 0 {
        assert(Seq::new(schema.len(), |i: int| Some(m[schema[i].tag])) =~= Seq::<
            Option<Seq<u8>>,
        >::empty());
    } else {
        let front = schema.drop_last();
        assert forall|i: int| 0 <= i < front.len() implies m.contains_key(
            (#[trigger] front[i]).tag,
        ) by {
            assert(front[i] == schema[i]);
        }
        lemma_present_fields_resolve(m, front);
        assert(m.contains_key(schema[schema.len() - 1].tag));
        assert(Seq::new(front.len(), |i: int| Some(m[front[i].tag])).push(
            Some(m[schema.last().tag]),
        ) =~= Seq::new(schema.len(), |i: int| Some(m[schema[i].tag])));
    }
}

/// A field whose tag is not in the table fails as missing when it is
/// regular, and resolves to no value when it is raw bytes or optional.
pub proof fn lemma_absent_field(m: Map<u8, Seq<u8>>, tag: u8)
    requires
        !m.contains_key(tag),
    ensures
        resolve(m, tag, crate::record::FieldKind::Regular) == Err::<Option<Seq<u8>>, TlvError>(
            TlvError::MissingField(tag),
        ),
        resolve(m, tag, crate::record::FieldKind::RawBytes) == Ok::<Option<Seq<u8>>, TlvError>(
            None,
        ),
        resolve(m, tag, crate::record::FieldKind::Optional) == Ok::<Option<Seq<u8>>, TlvError>(
            None,
        ),
{
}

/// The mapping that the pairs of `s` build when they are put in one after
/// the other: what each value stands for, under its key, a later pair
/// replacing an earlier one with the same key.
pub open spec fn collect<K, V: Deserialize>(s: Seq<(K, V)>) -> Map<K, V::Model>
    decreases s.len(),
{
    if s.len() == 0 {
        Map::empty()
    } else {
        collect(s.drop_last()).insert(s.last().0, s.last().1.model())
    }
}

/// Decoding as many pairs as were written, from the bytes they were written
/// as, builds the mapping of those pairs and takes exactly those bytes.
pub proof fn lemma_parse_pairs_round_trip<K: MapKey + RoundTrip, V: RoundTrip>(
    s: Seq<(K, V)>,
    rest: Seq<u8>,
)
    requires
        pairs_encodable(s),
    ensures
        parse_pairs::<K, V>(wire_pairs(s) + rest, s.len()) == Ok::<
            (Map<K, V::Model>, nat),
            TlvError,
        >((collect(s), wire_pairs(s).len())),
    decreases s.len(),
{
    K::key_laws();
    if s.len() > 0 {
        let front = s.drop_last();
        let key = s.last().0;
        let value = s.last().1;
        let whole = wire_pairs(s) + rest;
        let n = wire_pairs(front).len();
        assert(whole =~= wire_pairs(front) + (key.wire() + (value.wire() + rest)));
        assert forall|i: int| 0 <= i < front.len() implies (#[trigger] front[i]).0.encodable()
            && front[i].1.encodable() by {
            assert(front[i] == s[i]);
        }
        lemma_parse_pairs_round_trip::<K, V>(front, key.wire() + (value.wire() + rest));
        assert(s[s.len() - 1].0.encodable() && s[s.len() - 1].1.encodable());
        assert(whole.skip(n as int) =~= key.wire() + (value.wire() + rest));
        key.round_trip(value.wire() + rest);
        assert(key.model() == key);
        assert(whole.skip(n as int + key.wire().len() as int) =~= value.wire() + rest);
        value.round_trip(rest);
    }
}

/// A pair of `s` puts its key into the mapping that the pairs build.
pub proof fn lemma_collect_has_each_key<K, V: Deserialize>(s: Seq<(K, V)>, i: int)
    requires
        0 <= i < s.len(),
    ensures
        collect(s).contains_key(s[i].0),
    decreases s.len(),
{
    if i < s.len() - 1 {
        lemma_collect_has_each_key(s.drop_last(), i);
        assert(s.drop_last()[i] == s[i]);
    }
}

/// Where every pair of `s` is an entry of `m`, the mapping that the pairs
/// build holds nothing but entries of `m`, each value by what it stands for.
pub proof fn lemma_collect_stays_within<K, V: Deserialize>(s: Seq<(K, V)>, m: Map<K, V>)
    requires
        forall|i: int|
            0 <= i < s.len() ==> m.contains_key((#[trigger] s[i]).0) && m[s[i].0] == s[i].1,
    ensures
        forall|k: K| #[trigger]
            collect(s).contains_key(k) ==> m.contains_key(k) && collect(s)[k] == m[k].model(),
    decreases s.len(),
{
    if s.len() > 0 {
        let front = s.drop_last();
        assert forall|i: int| 0 <= i < front.len() implies m.contains_key(
            (#[trigger] front[i]).0,
        ) && m[front[i].0] == front[i].1 by {
            assert(front[i] == s[i]);
        }
        lemma_collect_stays_within(front, m);
        let last = s[s.len() - 1];
        assert(m.contains_key(last.0) && m[last.0] == last.1);
        assert(collect(s) == collect(front).insert(last.0, last.1.model()));
        assert forall|k: K| #[trigger] collect(s).contains_key(k) implies m.contains_key(k)
            && collect(s)[k] == m[k].model() by {
            if k != last.0 {
                assert(collect(front).contains_key(k));
            }
        }
    }
}

/// Where `s` lists the entries of `m`, the mapping that the pairs of `s`
/// build is what `m` stands for.
pub proof fn lemma_collect_of_listing<K, V: Deserialize>(s: Seq<(K, V)>, m: Map<K, V>)
    requires
        lists(s, m),
    ensures
        collect(s) == map_model(m),
{
    lemma_collect_stays_within(s, m);
    assert forall|k: K| m.contains_key(k) implies #[trigger] collect(s).contains_key(k) by {
        let i = choose|i: int| 0 <= i < s.len() && (#[trigger] s[i]).0 == k;
        lemma_collect_has_each_key(s, i);
    }
    assert(collect(s) =~= map_model(m));
}

impl<K: MapKey + RoundTrip, V: RoundTrip> RoundTrip for BTreeMap<K, V> {
    proof fn round_trip(&self, rest: Seq<u8>) {
        let pairs = vstd::std_specs::btree::into_iter(self.iter());
        let count = self@.len() as u32;
        let whole = self.wire() + rest;
        assert(whole =~= le32(count) + (wire_pairs(pairs) + rest));
        lemma_le32_round_trip(count, wire_pairs(pairs) + rest);
        assert(whole.skip(4) =~= wire_pairs(pairs) + rest);
        lemma_parse_pairs_round_trip::<K, V>(pairs, rest);
        lemma_collect_of_listing(pairs, self@);
    }
}

impl<K: MapKey + RoundTrip, V: RoundTrip> RoundTrip for HashMap<K, V> {
    proof fn round_trip(&self, rest: Seq<u8>) {
        let pairs = vstd::std_specs::hash::into_iter(self.iter());
        let count = self@.len() as u32;
        let whole = self.wire() + rest;
        assert(whole =~= le32(count) + (wire_pairs(pairs) + rest));
        lemma_le32_round_trip(count, wire_pairs(pairs) + rest);
        assert(whole.skip(4) =~= wire_pairs(pairs) + rest);
        lemma_parse_pairs_round_trip::<K, V>(pairs, rest);
        lemma_collect_of_listing(pairs, self@);
    }
}

/// Two hash maps with the same entries decode to the same mapping, in
/// whatever order each of them wrote its entries.
pub proof fn lemma_same_entries_same_decoding<K: MapKey + RoundTrip, V: RoundTrip>(
    a: HashMap<K, V>,
    b: HashMap<K, V>,
    rest: Seq<u8>,
)
    requires
        a@ == b@,
        a.encodable(),
        b.encodable(),
    ensures
        HashMap::<K, V>::parse(a.wire() + rest) is Ok,
        HashMap::<K, V>::parse(b.wire() + rest) is Ok,
        HashMap::<K, V>::parse(a.wire() + rest)->Ok_0.0 == HashMap::<K, V>::parse(
            b.wire() + rest,
        )->Ok_0.0,
{
    a.round_trip(rest);
    b.round_trip(rest);
}

/// Reading back a record from the bytes it was written as finds every
/// field: as many frames as the schema has fields take exactly the bytes
/// written, and each field resolves to the payload it was given.
pub proof fn lemma_record_round_trip(
    schema: Seq<FieldSchema>,
    payloads: Seq<Vec<u8>>,
    rest: Seq<u8>,
)
    requires
        schema.len() == payloads.len(),
        distinct_schema_tags(schema),
        all_fit(payloads),
    ensures
        parse_frames(record_wire(tagged(schema, payloads)) + rest, schema.len()) == Ok::<
            (Map<u8, Seq<u8>>, nat),
            TlvError,
        >((table_of(tagged(schema, payloads)), record_wire(tagged(schema, payloads)).len())),
        resolve_all(table_of(tagged(schema, payloads)), schema) == Ok::<
            Seq<Option<Seq<u8>>>,
            TlvError,
        >(Seq::new(schema.len(), |i: int| Some(payloads[i]@))),
{
    let fields = tagged(schema, payloads);
    let m = table_of(fields);
    assert forall|i: int| 0 <= i < fields.len() implies (#[trigger] fields[i]).1.len()
        <= 0xFFFF by {
        assert(payloads[i]@.len() <= 0xFFFF);
    }
    lemma_record_is_one_frame_per_field(fields, rest);
    assert(distinct_tags(fields));
    assert forall|i: int| 0 <= i < schema.len() implies m.contains_key(
        (#[trigger] schema[i]).tag,
    ) && m[schema[i].tag] == payloads[i]@ by {
        lemma_table_finds_each_field(fields, i);
    }
    lemma_present_fields_resolve(m, schema);
    assert(Seq::new(schema.len(), |i: int| Some(m[schema[i].tag])) =~= Seq::new(
        schema.len(),
        |i: int| Some(payloads[i]@),
    ));
}

/// What parses as a frame parses the same with more bytes behind it.
pub proof fn lemma_frame_ignores_what_follows(s: Seq<u8>, longer: Seq<u8>)
    requires
        parse_frame(s) is Ok,
        s.is_prefix_of(longer),
    ensures
        parse_frame(longer) == parse_frame(s),
{
    assert(longer.skip(1)[0] == s.skip(1)[0]);
    assert(longer.skip(1)[1] == s.skip(1)[1]);
    let len = from_le16(s.skip(1));
    assert(longer.subrange(3, 3 + len) =~= s.subrange(3, 3 + len));
}

/// What parses as `count` frames parses the same with more bytes behind it.
pub proof fn lemma_frames_ignore_what_follows(s: Seq<u8>, longer: Seq<u8>, count: nat)
    requires
        parse_frames(s, count) is Ok,
        s.is_prefix_of(longer),
    ensures
        parse_frames(longer, count) == parse_frames(s, count),
        parse_frames(s, count)->Ok_0.1 <= s.len(),
    decreases count,
{
    if count > 0 {
        lemma_frames_ignore_what_follows(s, longer, (count - 1) as nat);
        let n = parse_frames(s, (count - 1) as nat)->Ok_0.1;
        assert(s.skip(n as int).is_prefix_of(longer.skip(n as int)));
        lemma_frame_ignores_what_follows(s.skip(n as int), longer.skip(n as int));
    }
}

/// A stream cut short anywhere inside its frames gives nothing: where
/// `count` frames take `n` bytes of `s`, no shorter start of `s` holds
/// `count` frames, and reading them fails as truncated.
pub proof fn lemma_cut_stream_fails(s: Seq<u8>, count: nat, cut: int)
    requires
        parse_frames(s, count) is Ok,
        0 <= cut < parse_frames(s, count)->Ok_0.1,
        cut <= s.len(),
    ensures
        parse_frames(s.take(cut), count) == Err::<(Map<u8, Seq<u8>>, nat), TlvError>(
            TlvError::TruncatedInput,
        ),
{
    let short = s.take(cut);
    if parse_frames(short, count) is Ok {
        lemma_frames_ignore_what_follows(short, s, count);
        assert(false);
    }
    lemma_frames_fail_as_truncated(short, count);
}

/// A field written as a frame by its type's codec reads back: the frame
/// parses to the field's tag and the value's bytes, and those bytes decode
/// to the value.
pub proof fn lemma_field_round_trip<T: RoundTrip>(tag: u8, value: T, rest: Seq<u8>)
    requires
        value.encodable(),
        value.wire().len() <= 0xFFFF,
    ensures
        parse_frame(frame_wire(tag, value.wire()) + rest) == Ok::<(u8, Seq<u8>, nat), TlvError>(
            (tag, value.wire(), frame_wire(tag, value.wire()).len()),
        ),
        T::parse(value.wire()) == Ok::<(T::Model, nat), TlvError>(
            (value.model(), value.wire().len()),
        ),
{
    lemma_frame_round_trip(tag, value.wire(), rest);
    value.round_trip(Seq::empty());
    assert(value.wire() + Seq::<u8>::empty() =~= value.wire());
}

/// A raw-bytes field written as a frame reads back: the frame parses to the
/// field's tag and the length-prefixed buffer, and that decodes to the
/// buffer.
pub proof fn lemma_bytes_field_round_trip(tag: u8, bytes: Seq<u8>, rest: Seq<u8>)
    requires
        bytes.len() + 4 <= 0xFFFF,
    ensures
        parse_frame(frame_wire(tag, bytes_wire(bytes)) + rest) == Ok::<
            (u8, Seq<u8>, nat),
            TlvError,
        >((tag, bytes_wire(bytes), frame_wire(tag, bytes_wire(bytes)).len())),
        parse_bytes(bytes_wire(bytes)) == Ok::<(Seq<u8>, nat), TlvError>(
            (bytes, bytes_wire(bytes).len()),
        ),
{
    lemma_frame_round_trip(tag, bytes_wire(bytes), rest);
    lemma_bytes_round_trip(bytes, Seq::empty());
    assert(bytes_wire(bytes) + Seq::<u8>::empty() =~= bytes_wire(bytes));
}

} // verus!
