use std::collections::{BTreeMap, HashMap};
use std::hash::Hash;
use vstd::prelude::*;
use vstd::std_specs::hash::obeys_key_model;
use vstd::std_specs::iter::IteratorSpec;
use crate::deser::Deserialize;
use crate::error::TlvError;
use crate::impls::{add_clamped, clamp_len};
use crate::order::{ascending, before};
use crate::ser::{clamp16, Serialize};
use crate::wire::{advanced, from_le32, get_u32, le32, lemma_advance_twice, put_u32};

verus! {

broadcast use {
    vstd::std_specs::btree::group_btree_axioms,
    vstd::std_specs::hash::group_hash_axioms,
    vstd::laws_cmp::group_laws_cmp,
};

/// A type that can key a mapping on the wire: it is written and read by its
/// own codec, stands for itself, and keeps the laws that the standard maps
/// ask of their keys.
pub trait MapKey: Serialize + Deserialize<Model = Self> + Ord + Hash {
    /// The key type keeps those laws.
    proof fn key_laws()
        ensures
            key_lawful::<Self>(),
    ;
}

/// What is asked of a key type: the standard maps' laws of hashing and of
/// ordering, and that a key stands for itself.
pub open spec fn key_lawful<K: Deserialize<Model = K> + Ord>() -> bool {
    &&& obeys_key_model::<K>()
    &&& vstd::laws_cmp::obeys_cmp::<K>()
    &&& forall|k: K| #[trigger] k.model() == k
}

impl MapKey for u8 {
    proof fn key_laws() {
    }
}

impl MapKey for u16 {
    proof fn key_laws() {
    }
}

impl MapKey for u32 {
    proof fn key_laws() {
    }
}

impl MapKey for u64 {
    proof fn key_laws() {
    }
}

/// The bytes of the pairs of `s`, one after the other, each key before its
/// value.
pub open spec fn wire_pairs<K: Serialize, V: Serialize>(s: Seq<(K, V)>) -> Seq<u8>
    decreases s.len(),
{
    if s.len() == 0 {
        Seq::empty()
    } else {
        wire_pairs(s.drop_last()) + s.last().0.wire() + s.last().1.wire()
    }
}

/// Whether every key and every value of `s` can be written.
pub open spec fn pairs_encodable<K: Serialize, V: Serialize>(s: Seq<(K, V)>) -> bool {
    forall|i: int| 0 <= i < s.len() ==> (#[trigger] s[i]).0.encodable() && s[i].1.encodable()
}

/// Whether `s` lists the entries of `m`: as many pairs as `m` has keys, each
/// pair an entry of `m`, and each key of `m` in some pair.
pub open spec fn lists<K, V>(s: Seq<(K, V)>, m: Map<K, V>) -> bool {
    &&& s.len() == m.len()
    &&& forall|i: int|
        0 <= i < s.len() ==> m.contains_key((#[trigger] s[i]).0) && m[s[i].0] == s[i].1
    &&& forall|k: K| #[trigger]
        m.contains_key(k) ==> exists|i: int| 0 <= i < s.len() && (#[trigger] s[i]).0 == k
}

/// What a mapping stands for: what each value stands for, under its key.
pub open spec fn map_model<K, V: Deserialize>(m: Map<K, V>) -> Map<K, V::Model> {
    Map::new(|k: K| m.contains_key(k), |k: K| m[k].model())
}

/// The mapping that `count` pairs read one after the other from the front of
/// `s` build, a later pair replacing an earlier one with the same key, and
/// how many bytes they take together; the first failure otherwise.
pub open spec fn parse_pairs<K: MapKey, V: Deserialize>(s: Seq<u8>, count: nat) -> Result<
    (Map<K, V::Model>, nat),
    TlvError,
>
    decreases count,
{
    if count == 0 {
        Ok((Map::empty(), 0))
    } else {
        match parse_pairs::<K, V>(s, (count - 1) as nat) {
            Err(e) => Err(e),
            Ok((m, n)) => match K::parse(s.skip(n as int)) {
                Err(e) => Err(e),
                Ok((k, a)) => match V::parse(s.skip(n as int + a as int)) {
                    Err(e) => Err(e),
                    Ok((v, b)) => Ok((m.insert(k, v), n + a + b)),
                },
            },
        }
    }
}

/// What a mapping on the wire decodes to: a count in four bytes, then that
/// many pairs.
pub open spec fn parse_map<K: MapKey, V: Deserialize>(s: Seq<u8>) -> Result<
    (Map<K, V::Model>, nat),
    TlvError,
> {
    if s.len() < 4 {
        Err(TlvError::TruncatedInput)
    } else {
        match parse_pairs::<K, V>(s.skip(4), from_le32(s) as nat) {
            Ok((m, n)) => Ok((m, n + 4)),
            Err(e) => Err(e),
        }
    }
}

/// Once a pair fails to decode, asking for more pairs fails the same way.
pub proof fn lemma_parse_pairs_fails_on<K: MapKey, V: Deserialize>(s: Seq<u8>, i: nat, count: nat)
    requires
        i <= count,
        parse_pairs::<K, V>(s, i) is Err,
    ensures
        parse_pairs::<K, V>(s, count) == parse_pairs::<K, V>(s, i),
    decreases count,
{
    if i < count {
        lemma_parse_pairs_fails_on::<K, V>(s, i, (count - 1) as nat);
    }
}

/// Writes a count and then the pairs, each key before its value. Nothing is
/// written unless all of it can be.
pub fn write_pairs<K: Serialize, V: Serialize>(pairs: &Vec<(&K, &V)>, writer: &mut Vec<u8>) -> (r:
    Result<usize, TlvError>)
    ensures
        pairs@.len() <= u32::MAX && pairs_encodable(pairs@.unref()) ==> r == Ok::<usize, TlvError>(
            (4 + wire_pairs(pairs@.unref()).len()) as usize,
        ) && final(writer)@ == old(writer)@ + le32(pairs@.len() as u32) + wire_pairs(
            pairs@.unref(),
        ),
        !(pairs@.len() <= u32::MAX && pairs_encodable(pairs@.unref())) ==> r == Err::<
            usize,
            TlvError,
        >(TlvError::ValueTooLarge) && final(writer)@ == old(writer)@,
{
    let start = writer.len();
    if pairs.len() > u32::MAX as usize {
        return Err(TlvError::ValueTooLarge);
    }
    put_u32(pairs.len() as u32, writer);
    let ghost all = pairs@.unref();
    let mut i: usize = 0;
    while i < pairs.len()
        invariant
            i <= pairs@.len(),
            all == pairs@.unref(),
            start == old(writer)@.len(),
            writer@ == old(writer)@ + le32(pairs@.len() as u32) + wire_pairs(all.take(i as int)),
            forall|j: int| 0 <= j < i ==> (#[trigger] all[j]).0.encodable() && all[j].1.encodable(),
        decreases pairs@.len() - i,
    {
        let (key, value) = pairs[i];
        proof {
            assert(all[i as int] == (*key, *value));
            assert(all.take(i + 1).drop_last() =~= all.take(i as int));
            assert(all.take(i + 1).last() == all[i as int]);
        }
        match key.serialize(writer) {
            Ok(_) => {},
            Err(e) => {
                writer.truncate(start);
                assert(writer@ =~= old(writer)@);
                return Err(e);
            },
        }
        match value.serialize(writer) {
            Ok(_) => {},
            Err(e) => {
                writer.truncate(start);
                assert(writer@ =~= old(writer)@);
                return Err(e);
            },
        }
        assert(writer@ =~= old(writer)@ + le32(pairs@.len() as u32) + wire_pairs(all.take(i + 1)));
        i += 1;
    }
    proof {
        assert(all.take(i as int) =~= all);
    }
    Ok(writer.len() - start)
}

/// The number of bytes that a count and the pairs are written as, as far as
/// 16 bits can tell.
pub fn pairs_length<K: Serialize, V: Serialize>(pairs: &Vec<(&K, &V)>) -> (n: u16)
    ensures
        n as nat == clamp16(4 + wire_pairs(pairs@.unref()).len()),
{
    let ghost all = pairs@.unref();
    let mut total: u16 = 4;
    let mut i: usize = 0;
    while i < pairs.len()
        invariant
            i <= pairs@.len(),
            all == pairs@.unref(),
            total as nat == clamp16(4 + wire_pairs(all.take(i as int)).len()),
        decreases pairs@.len() - i,
    {
        let (key, value) = pairs[i];
        proof {
            assert(all[i as int] == (*key, *value));
            assert(all.take(i + 1).drop_last() =~= all.take(i as int));
            assert(all.take(i + 1).last() == all[i as int]);
        }
        total = add_clamped(total, key.serialized_length());
        total = add_clamped(total, value.serialized_length());
        i += 1;
    }
    proof {
        assert(all.take(i as int) =~= all);
    }
    total
}

/// The entries of the map in the order in which it hands them out.
pub fn btree_pairs<'a, K: MapKey, V>(map: &'a BTreeMap<K, V>) -> (out: Vec<(&'a K, &'a V)>)
    ensures
        out@.unref() == vstd::std_specs::btree::into_iter(map.iter()),
        lists(out@.unref(), map@),
        ascending(out@.unref()),
{
    proof {
        K::key_laws();
    }
    let mut out: Vec<(&'a K, &'a V)> = Vec::new();
    let ghost all = vstd::std_specs::btree::into_iter(map.iter());
    for pair in it: map.iter()
        invariant
            all == vstd::std_specs::btree::into_iter(map.iter()),
            all == it.seq().unref(),
            it.seq() == map.iter().remaining(),
            vstd::std_specs::btree::increasing_seq(
                map.iter().remaining().map_values(|kv: (&K, &V)| *kv.0),
            ),
            out@ == it.seq().take(it.index()),
    {
        out.push(pair);
        assert(out@ =~= it.seq().take(it.index() + 1));
    }
    proof {
        let keys = map.iter().remaining().map_values(|kv: (&K, &V)| *kv.0);
        assert forall|i: int, j: int| 0 <= i < j < all.len() implies before(
            all[i].0,
            all[j].0,
        ) by {
            assert(keys[i] == all[i].0 && keys[j] == all[j].0);
        }
    }
    proof {
        let seen = map.iter().remaining();
        assert(out@ =~= seen);
        assert(seen.len() == map@.len());
        assert forall|i: int| 0 <= i < all.len() implies map@.contains_key((#[trigger] all[i]).0)
            && map@[all[i].0] == all[i].1 by {
            assert(map@.contains_key(*seen[i].0));
        }
        assert forall|k: K| #[trigger] map@.contains_key(k) implies exists|i: int|
            0 <= i < all.len() && (#[trigger] all[i]).0 == k by {
            assert(seen.contains((&k, &map@[k])));
            let i = choose|i: int| 0 <= i < seen.len() && seen[i] == (&k, &map@[k]);
            assert(all[i].0 == k);
        }
    }
    out
}

impl<K: MapKey, V: Serialize> Serialize for BTreeMap<K, V> {
    open spec fn wire(&self) -> Seq<u8> {
        le32(self@.len() as u32) + wire_pairs(vstd::std_specs::btree::into_iter(self.iter()))
    }

    open spec fn encodable(&self) -> bool {
        &&& self@.len() <= u32::MAX
        &&& lists(vstd::std_specs::btree::into_iter(self.iter()), self@)
        &&& ascending(vstd::std_specs::btree::into_iter(self.iter()))
        &&& pairs_encodable(vstd::std_specs::btree::into_iter(self.iter()))
    }

    fn serialize(&self, writer: &mut Vec<u8>) -> (r: Result<usize, TlvError>)
        ensures
            lists(vstd::std_specs::btree::into_iter(self.iter()), self@),
            ascending(vstd::std_specs::btree::into_iter(self.iter())),
    {
        let pairs = btree_pairs(self);
        write_pairs(&pairs, writer)
    }

    fn serialized_length(&self) -> (n: u16) {
        let pairs = btree_pairs(self);
        pairs_length(&pairs)
    }
}

impl<K: MapKey, V: Deserialize> Deserialize for BTreeMap<K, V> {
    type Model = Map<K, V::Model>;

    open spec fn model(&self) -> Map<K, V::Model> {
        map_model(self@)
    }

    open spec fn parse(s: Seq<u8>) -> Result<(Map<K, V::Model>, nat), TlvError> {
        parse_map::<K, V>(s)
    }

    fn deserialize(reader: &mut &[u8]) -> (r: Result<Self, TlvError>) {
        let count = match get_u32(reader) {
            Ok(count) => count,
            Err(e) => {
                return Err(e);
            },
        };
        proof {
            K::key_laws();
        }
        let ghost body = reader@;
        let ghost mut consumed: nat = 0;
        let mut map: BTreeMap<K, V> = BTreeMap::new();
        let mut i: u32 = 0;
        assert(body.skip(0) =~= body);
        assert(map_model(map@) =~= Map::<K, V::Model>::empty());
        while i < count
            invariant
                i <= count,
                old(reader)@.len() >= 4,
                count == from_le32(old(reader)@),
                body == old(reader)@.skip(4),
                consumed <= body.len(),
                reader@ == body.skip(consumed as int),
                advanced(old(reader)@, reader@),
                key_lawful::<K>(),
                parse_pairs::<K, V>(body, i as nat) == Ok::<(Map<K, V::Model>, nat), TlvError>(
                    (map_model(map@), consumed),
                ),
            decreases count - i,
        {
            let ghost key_step = K::parse(reader@);
            let ghost start = reader@;
            let key = match K::deserialize(reader) {
                Ok(key) => key,
                Err(e) => {
                    proof {
                        lemma_advance_twice(old(reader)@, start, reader@);
                        assert(((i + 1) as nat - 1) as nat == i as nat);
                        assert(parse_pairs::<K, V>(body, (i + 1) as nat) is Err);
                        lemma_parse_pairs_fails_on::<K, V>(body, (i + 1) as nat, count as nat);
                    }
                    return Err(e);
                },
            };
            let ghost a = key_step->Ok_0.1;
            proof {
                assert(body.skip(consumed as int).skip(a as int) =~= body.skip(consumed as int + a as int));
            }
            let ghost value_step = V::parse(reader@);
            let ghost mid = reader@;
            proof {
                lemma_advance_twice(old(reader)@, start, mid);
            }
            let value = match V::deserialize(reader) {
                Ok(value) => value,
                Err(e) => {
                    proof {
                        lemma_advance_twice(old(reader)@, mid, reader@);
                        assert(((i + 1) as nat - 1) as nat == i as nat);
                        assert(parse_pairs::<K, V>(body, (i + 1) as nat) is Err);
                        lemma_parse_pairs_fails_on::<K, V>(body, (i + 1) as nat, count as nat);
                    }
                    return Err(e);
                },
            };
            let ghost b = value_step->Ok_0.1;
            let ghost before = map@;
            proof {
                lemma_advance_twice(old(reader)@, mid, reader@);
                assert(body.skip(consumed as int + a as int).skip(b as int) =~= body.skip(
                    consumed as int + a as int + b as int,
                ));
                assert(map_model(before.insert(key, value)) =~= map_model(before).insert(
                    key,
                    value.model(),
                ));
                consumed = consumed + a + b;
            }
            let _ = map.insert(key, value);
            i += 1;
        }
        proof {
            assert(body.skip(consumed as int) =~= old(reader)@.skip(consumed as int + 4));
        }
        Ok(map)
    }
}

/// The entries of the map in the order in which it hands them out.
pub fn hash_pairs<'a, K: MapKey, V>(map: &'a HashMap<K, V>) -> (out: Vec<(&'a K, &'a V)>)
    ensures
        out@.unref() == vstd::std_specs::hash::into_iter(map.iter()),
        lists(out@.unref(), map@),
{
    proof {
        K::key_laws();
    }
    let mut out: Vec<(&'a K, &'a V)> = Vec::new();
    let ghost all = vstd::std_specs::hash::into_iter(map.iter());
    for pair in it: map.iter()
        invariant
            all == vstd::std_specs::hash::into_iter(map.iter()),
            all == it.seq().unref(),
            it.seq() == map.iter().remaining(),
            out@ == it.seq().take(it.index()),
    {
        out.push(pair);
        assert(out@ =~= it.seq().take(it.index() + 1));
    }
    proof {
        let seen = map.iter().remaining();
        assert(out@ =~= seen);
        assert(seen.len() == map@.len());
        assert forall|i: int| 0 <= i < all.len() implies map@.contains_key((#[trigger] all[i]).0)
            && map@[all[i].0] == all[i].1 by {
            assert(map@.contains_key(*seen[i].0));
        }
        assert forall|k: K| #[trigger] map@.contains_key(k) implies exists|i: int|
            0 <= i < all.len() && (#[trigger] all[i]).0 == k by {
            assert(seen.contains((&k, &map@[k])));
            let i = choose|i: int| 0 <= i < seen.len() && seen[i] == (&k, &map@[k]);
            assert(all[i].0 == k);
        }
    }
    out
}

impl<K: MapKey, V: Serialize> Serialize for HashMap<K, V> {
    open spec fn wire(&self) -> Seq<u8> {
        le32(self@.len() as u32) + wire_pairs(vstd::std_specs::hash::into_iter(self.iter()))
    }

    open spec fn encodable(&self) -> bool {
        &&& self@.len() <= u32::MAX
        &&& lists(vstd::std_specs::hash::into_iter(self.iter()), self@)
        &&& pairs_encodable(vstd::std_specs::hash::into_iter(self.iter()))
    }

    fn serialize(&self, writer: &mut Vec<u8>) -> (r: Result<usize, TlvError>)
        ensures
            lists(vstd::std_specs::hash::into_iter(self.iter()), self@),
    {
        let pairs = hash_pairs(self);
        write_pairs(&pairs, writer)
    }

    fn serialized_length(&self) -> (n: u16) {
        let pairs = hash_pairs(self);
        pairs_length(&pairs)
    }
}

impl<K: MapKey, V: Deserialize> Deserialize for HashMap<K, V> {
    type Model = Map<K, V::Model>;

    open spec fn model(&self) -> Map<K, V::Model> {
        map_model(self@)
    }

    open spec fn parse(s: Seq<u8>) -> Result<(Map<K, V::Model>, nat), TlvError> {
        parse_map::<K, V>(s)
    }

    fn deserialize(reader: &mut &[u8]) -> (r: Result<Self, TlvError>) {
        let count = match get_u32(reader) {
            Ok(count) => count,
            Err(e) => {
                return Err(e);
            },
        };
        proof {
            K::key_laws();
        }
        let ghost body = reader@;
        let ghost mut consumed: nat = 0;
        let mut map: HashMap<K, V> = HashMap::new();
        let mut i: u32 = 0;
        assert(body.skip(0) =~= body);
        assert(map_model(map@) =~= Map::<K, V::Model>::empty());
        while i < count
            invariant
                i <= count,
                old(reader)@.len() >= 4,
                count == from_le32(old(reader)@),
                body == old(reader)@.skip(4),
                consumed <= body.len(),
                reader@ == body.skip(consumed as int),
                advanced(old(reader)@, reader@),
                key_lawful::<K>(),
                parse_pairs::<K, V>(body, i as nat) == Ok::<(Map<K, V::Model>, nat), TlvError>(
                    (map_model(map@), consumed),
                ),
            decreases count - i,
        {
            let ghost key_step = K::parse(reader@);
            let ghost start = reader@;
            let key = match K::deserialize(reader) {
                Ok(key) => key,
                Err(e) => {
                    proof {
                        lemma_advance_twice(old(reader)@, start, reader@);
                        assert(((i + 1) as nat - 1) as nat == i as nat);
                        assert(parse_pairs::<K, V>(body, (i + 1) as nat) is Err);
                        lemma_parse_pairs_fails_on::<K, V>(body, (i + 1) as nat, count as nat);
                    }
                    return Err(e);
                },
            };
            let ghost a = key_step->Ok_0.1;
            proof {
                assert(body.skip(consumed as int).skip(a as int) =~= body.skip(consumed as int + a as int));
            }
            let ghost value_step = V::parse(reader@);
            let ghost mid = reader@;
            proof {
                lemma_advance_twice(old(reader)@, start, mid);
            }
            let value = match V::deserialize(reader) {
                Ok(value) => value,
                Err(e) => {
                    proof {
                        lemma_advance_twice(old(reader)@, mid, reader@);
                        assert(((i + 1) as nat - 1) as nat == i as nat);
                        assert(parse_pairs::<K, V>(body, (i + 1) as nat) is Err);
                        lemma_parse_pairs_fails_on::<K, V>(body, (i + 1) as nat, count as nat);
                    }
                    return Err(e);
                },
            };
            let ghost b = value_step->Ok_0.1;
            let ghost before = map@;
            proof {
                lemma_advance_twice(old(reader)@, mid, reader@);
                assert(body.skip(consumed as int + a as int).skip(b as int) =~= body.skip(
                    consumed as int + a as int + b as int,
                ));
                assert(map_model(before.insert(key, value)) =~= map_model(before).insert(
                    key,
                    value.model(),
                ));
                consumed = consumed + a + b;
            }
            let _ = map.insert(key, value);
            i += 1;
        }
        proof {
            assert(body.skip(consumed as int) =~= old(reader)@.skip(consumed as int + 4));
        }
        Ok(map)
    }
}

} // verus!
