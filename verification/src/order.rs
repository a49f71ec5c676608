use core::cmp::Ordering;
use std::collections::BTreeMap;
use vstd::prelude::*;
use vstd::std_specs::cmp::{OrdSpec, PartialOrdSpec};
use crate::impls::maps::{lists, MapKey};
use crate::ser::Serialize;

verus! {

broadcast use vstd::std_specs::btree::group_btree_axioms;

/// Whether `a` comes strictly before `b` in the order of the key type.
pub open spec fn before<K: Ord>(a: K, b: K) -> bool {
    a.cmp_spec(&b) == Ordering::Less
}

/// Whether the keys of `s` ascend strictly.
pub open spec fn ascending<K: Ord, V>(s: Seq<(K, V)>) -> bool {
    forall|i: int, j: int|
        #![trigger s[i], s[j]]
        0 <= i < j < s.len() ==> before(s[i].0, s[j].0)
}

/// No key comes before itself.
pub proof fn lemma_before_is_irreflexive<K: Ord>(a: K)
    requires
        vstd::laws_cmp::obeys_cmp::<K>(),
    ensures
        !before(a, a),
{
    reveal(vstd::laws_cmp::obeys_partial_cmp_spec_properties);
    reveal(vstd::laws_cmp::obeys_cmp_ord);
    if before(a, a) {
        assert(a.partial_cmp_spec(&a) == Some(Ordering::Less));
        assert(a.partial_cmp_spec(&a) == Some(Ordering::Greater));
    }
}

/// What comes before a key comes before all that the key comes before.
pub proof fn lemma_before_is_transitive<K: Ord>(a: K, b: K, c: K)
    requires
        vstd::laws_cmp::obeys_cmp::<K>(),
        before(a, b),
        before(b, c),
    ensures
        before(a, c),
{
    reveal(vstd::laws_cmp::obeys_partial_cmp_spec_properties);
    reveal(vstd::laws_cmp::obeys_cmp_ord);
    assert(a.partial_cmp_spec(&b) == Some(Ordering::Less));
    assert(b.partial_cmp_spec(&c) == Some(Ordering::Less));
    assert(a.partial_cmp_spec(&c) == Some(Ordering::Less));
}

/// All but the last pair of an ascending listing of `m` list `m` without the
/// last pair's key, and ascend.
pub proof fn lemma_front_lists_the_rest<K: Ord, V>(s: Seq<(K, V)>, m: Map<K, V>)
    requires
        vstd::laws_cmp::obeys_cmp::<K>(),
        m.dom().finite(),
        s.len() > 0,
        lists(s, m),
        ascending(s),
    ensures
        lists(s.drop_last(), m.remove(s.last().0)),
        ascending(s.drop_last()),
        m.contains_key(s.last().0),
        m[s.last().0] == s.last().1,
{
    let n = s.len() - 1;
    let front = s.drop_last();
    let key = s[n].0;
    let rest = m.remove(key);
    lemma_before_is_irreflexive(key);
    assert(m.contains_key(s[n].0) && m[s[n].0] == s[n].1);
    assert(rest.dom() =~= m.dom().remove(key));
    assert forall|i: int| 0 <= i < front.len() implies rest.contains_key((#[trigger] front[i]).0)
        && rest[front[i].0] == front[i].1 by {
        assert(front[i] == s[i]);
        assert(before(s[i].0, s[n].0));
        assert(m.contains_key(s[i].0) && m[s[i].0] == s[i].1);
    }
    assert forall|k: K| #[trigger] rest.contains_key(k) implies exists|i: int|
        0 <= i < front.len() && (#[trigger] front[i]).0 == k by {
        assert(m.contains_key(k));
        let i = choose|i: int| 0 <= i < s.len() && (#[trigger] s[i]).0 == k;
        assert(front[i] == s[i]);
    }
    assert forall|i: int, j: int| 0 <= i < j < front.len() implies before(
        front[i].0,
        front[j].0,
    ) by {
        assert(front[i] == s[i] && front[j] == s[j]);
        assert(before(s[i].0, s[j].0));
    }
}

/// A mapping has one ascending listing only: two sequences that both list
/// its entries in strictly ascending key order are the same sequence.
pub proof fn lemma_ascending_listing_is_unique<K: Ord, V>(
    s: Seq<(K, V)>,
    t: Seq<(K, V)>,
    m: Map<K, V>,
)
    requires
        vstd::laws_cmp::obeys_cmp::<K>(),
        m.dom().finite(),
        lists(s, m),
        lists(t, m),
        ascending(s),
        ascending(t),
    ensures
        s == t,
    decreases s.len(),
{
    if s.len() == 0 {
        assert(s =~= t);
    } else {
        let n = s.len() - 1;
        let ks = s[n].0;
        let kt = t[n].0;
        assert(m.contains_key(s[n].0));
        assert(m.contains_key(t[n].0));
        let j = choose|j: int| 0 <= j < t.len() && (#[trigger] t[j]).0 == ks;
        let i = choose|i: int| 0 <= i < s.len() && (#[trigger] s[i]).0 == kt;
        if j < n {
            assert(before(t[j].0, t[n].0));
            if i < n {
                assert(before(s[i].0, s[n].0));
                lemma_before_is_transitive(ks, kt, ks);
            }
            lemma_before_is_irreflexive(ks);
            assert(false);
        }
        assert(ks == kt);
        lemma_front_lists_the_rest(s, m);
        lemma_front_lists_the_rest(t, m);
        lemma_ascending_listing_is_unique(s.drop_last(), t.drop_last(), m.remove(ks));
        assert(s =~= s.drop_last().push(s[n]));
        assert(t =~= t.drop_last().push(t[n]));
    }
}

/// Two key-ordered maps with the same entries are written as the same
/// bytes, however each of them came to hold its entries.
pub proof fn lemma_key_ordered_bytes_agree<K: MapKey, V: Serialize>(
    a: BTreeMap<K, V>,
    b: BTreeMap<K, V>,
)
    requires
        a@ == b@,
        a.encodable(),
        b.encodable(),
    ensures
        a.wire() == b.wire(),
{
    K::key_laws();
    lemma_ascending_listing_is_unique(
        vstd::std_specs::btree::into_iter(a.iter()),
        vstd::std_specs::btree::into_iter(b.iter()),
        a@,
    );
}

} // verus!
