use std::collections::BTreeMap;
use vstd::prelude::*;
use crate::frame::RawField;

verus! {

broadcast use {vstd::std_specs::btree::group_btree_axioms, vstd::laws_cmp::group_laws_cmp};

/// A table with no frame in it.
pub fn empty_table() -> (table: BTreeMap<u8, RawField>)
    ensures
        table@ == Map::<u8, RawField>::empty(),
{
    BTreeMap::new()
}

/// Puts the frame under its own tag, in place of any frame that was there.
pub fn put_frame(table: &mut BTreeMap<u8, RawField>, field: RawField)
    ensures
        final(table)@ == old(table)@.insert(field.id, field),
{
    let tag = field.id;
    let _ = table.insert(tag, field);
}

/// The frame under `tag`, if the table has one.
pub fn find_frame(table: &BTreeMap<u8, RawField>, tag: u8) -> (r: Option<&RawField>)
    ensures
        table@.contains_key(tag) ==> r == Some(&table@[tag]),
        !table@.contains_key(tag) ==> r is None,
{
    table.get(&tag)
}

} // verus!
