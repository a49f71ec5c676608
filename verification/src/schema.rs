use vstd::prelude::*;
use crate::record::{FieldKind, FieldSchema};

verus! {

/// Why a field's declaration gives no schema entry.
#[derive(Clone, Copy, Debug, PartialEq, Eq, Structural)]
pub enum SchemaError {
    /// The annotation is not a list in brackets, as `tlv(tag = 1)` is.
    NotAList,
    /// The first item of the list is not a name with an integer set to it.
    BadItem,
    /// The name that is set is not `tag`.
    UnknownKey,
    /// The tag does not fit the one byte that it has on the wire.
    TagOutOfRange,
    /// Two fields of the record carry the same tag.
    DuplicateTag(u8),
}

/// What a field's annotation looks like, as far as the schema depends on it.
#[derive(Clone, Copy, Debug, PartialEq, Eq, Structural)]
pub enum AttributeShape {
    /// Not a list in brackets.
    NotAList,
    /// A list that is empty or whose first item is not `name = integer`.
    BadItem,
    /// A list whose first item sets a name to an integer.
    NameValue { key_is_tag: bool, value: u64 },
}

/// What a field's declared type looks like, as far as its kind depends on it.
#[derive(Clone, Copy, Debug, PartialEq, Eq, Structural)]
pub struct TypeShape {
    /// The type is written as a path, as `Vec<u8>` and `std::option::Option<T>` are.
    pub is_path: bool,
    /// The first segment of the path is `Vec`.
    pub first_is_vec: bool,
    /// The first segment has arguments in angle brackets, the first of them the type `u8`.
    pub first_argument_is_u8: bool,
    /// The last segment of the path is `Option`.
    pub last_is_option: bool,
}

impl TypeShape {
    /// Whether the type is a buffer of bytes.
    pub open spec fn byte_buffer(&self) -> bool {
        self.is_path && self.first_is_vec && self.first_argument_is_u8
    }

    /// Whether the type may hold no value.
    pub open spec fn optional(&self) -> bool {
        self.is_path && self.last_is_option
    }

    /// The kind of a field of this type.
    pub open spec fn kind(&self) -> FieldKind {
        if self.byte_buffer() {
            FieldKind::RawBytes
        } else if self.optional() {
            FieldKind::Optional
        } else {
            FieldKind::Regular
        }
    }
}

/// Whether the type is a buffer of bytes, which is written as raw bytes.
pub fn ty_is_vec_u8(ty: &TypeShape) -> (b: bool)
    ensures
        b == ty.byte_buffer(),
{
    if !ty.is_path {
        return false;
    }
    if !ty.first_is_vec {
        return false;
    }
    ty.first_argument_is_u8
}

/// Whether the type may hold no value.
pub fn ty_is_option(ty: &TypeShape) -> (b: bool)
    ensures
        b == ty.optional(),
{
    if !ty.is_path {
        return false;
    }
    ty.last_is_option
}

/// The kind of a field from its declared type.
pub fn kind_of_type(ty: &TypeShape) -> (kind: FieldKind)
    ensures
        kind == ty.kind(),
{
    FieldKind::classify(ty_is_vec_u8(ty), ty_is_option(ty))
}

/// The tag that an annotation gives, or why it gives none.
pub open spec fn attribute_tag(attribute: AttributeShape) -> Result<u8, SchemaError> {
    match attribute {
        AttributeShape::NotAList => Err(SchemaError::NotAList),
        AttributeShape::BadItem => Err(SchemaError::BadItem),
        AttributeShape::NameValue { key_is_tag, value } => if !key_is_tag {
            Err(SchemaError::UnknownKey)
        } else if value > 0xFF {
            Err(SchemaError::TagOutOfRange)
        } else {
            Ok(value as u8)
        },
    }
}

/// Reads the tag out of a field's annotation.
pub fn tag_of_attribute(attribute: &AttributeShape) -> (r: Result<u8, SchemaError>)
    ensures
        r == attribute_tag(*attribute),
{
    match attribute {
        AttributeShape::NotAList => Err(SchemaError::NotAList),
        AttributeShape::BadItem => Err(SchemaError::BadItem),
        AttributeShape::NameValue { key_is_tag, value } => {
            if !*key_is_tag {
                Err(SchemaError::UnknownKey)
            } else if *value > 0xFF {
                Err(SchemaError::TagOutOfRange)
            } else {
                Ok(*value as u8)
            }
        },
    }
}

/// The schema entry of one field, from its name, its annotation and its
/// declared type.
pub fn field_schema(name: String, attribute: &AttributeShape, ty: &TypeShape) -> (r: Result<
    FieldSchema,
    SchemaError,
>)
    ensures
        match attribute_tag(*attribute) {
            Ok(tag) => r is Ok && r.unwrap().name == name && r.unwrap().tag == tag
                && r.unwrap().kind == ty.kind(),
            Err(e) => r == Err::<FieldSchema, SchemaError>(e),
        },
{
    match tag_of_attribute(attribute) {
        Ok(tag) => Ok(FieldSchema::new(name, tag, kind_of_type(ty))),
        Err(e) => Err(e),
    }
}

/// Whether no two fields of the schema carry the same tag.
pub open spec fn distinct_schema_tags(schema: Seq<FieldSchema>) -> bool {
    forall|i: int, j: int|
        0 <= i < schema.len() && 0 <= j < schema.len() && i != j ==> schema[i].tag
            != schema[j].tag
}

/// The first place at which the schema repeats a tag of an earlier field.
pub open spec fn repeats_at(schema: Seq<FieldSchema>, j: int) -> bool {
    &&& 0 <= j < schema.len()
    &&& exists|i: int| 0 <= i < j && schema[i].tag == schema[j].tag
}

/// Checks that no two fields of the schema carry the same tag. Where two
/// do, the failure names the tag of the first field that repeats an earlier
/// one.
pub fn check_distinct_tags(schema: &[FieldSchema]) -> (r: Result<(), SchemaError>)
    ensures
        r is Ok <==> distinct_schema_tags(schema@),
        r is Err ==> exists|j: int|
            #![trigger repeats_at(schema@, j)]
            repeats_at(schema@, j) && r == Err::<(), SchemaError>(
                SchemaError::DuplicateTag(schema@[j].tag),
            ) && forall|k: int| 0 <= k < j ==> !repeats_at(schema@, k),
{
    let mut j: usize = 0;
    while j < schema.len()
        invariant
            j <= schema@.len(),
            forall|a: int, b: int| 0 <= a < b < j ==> schema@[a].tag != schema@[b].tag,
        decreases schema@.len() - j,
    {
        let mut i: usize = 0;
        while i < j
            invariant
                i <= j < schema@.len(),
                forall|a: int, b: int| 0 <= a < b < j ==> schema@[a].tag != schema@[b].tag,
                forall|a: int| 0 <= a < i ==> schema@[a].tag != schema@[j as int].tag,
            decreases j - i,
        {
            if schema[i].tag == schema[j].tag {
                proof {
                    assert(repeats_at(schema@, j as int));
                    assert forall|k: int| 0 <= k < j implies !repeats_at(schema@, k) by {
                        if repeats_at(schema@, k) {
                            let a = choose|a: int| 0 <= a < k && schema@[a].tag == schema@[k].tag;
                            assert(schema@[a].tag != schema@[k].tag);
                        }
                    }
                }
                return Err(SchemaError::DuplicateTag(schema[j].tag));
            }
            i += 1;
        }
        j += 1;
    }
    proof {
        assert forall|a: int, b: int|
            0 <= a < schema@.len() && 0 <= b < schema@.len() && a != b implies schema@[a].tag
            != schema@[b].tag by {
            if a < b {
                assert(schema@[a].tag != schema@[b].tag);
            } else {
                assert(schema@[b].tag != schema@[a].tag);
            }
        }
    }
    Ok(())
}

} // verus!
