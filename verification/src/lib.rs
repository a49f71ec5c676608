use vstd::prelude::*;

pub mod deser;
pub mod error;
pub mod frame;
pub mod impls;
pub mod laws;
pub mod order;
pub mod record;
pub mod schema;
pub mod ser;
pub mod table;
pub mod wire;

pub use crate::deser::{deserialize, deserialize_bytes, Deserialize};
pub use crate::error::TlvError;
pub use crate::frame::{extract_raw, RawField};
pub use crate::ser::{serialize, serialize_bytes, Serialize};
pub use crate::impls::maps::MapKey;
pub use crate::record::{
    bytes_payload, decode_bytes, decode_optional, decode_record, decode_regular,
    encode_bytes_field, encode_field, encode_record, regular_payload, resolve_fields, write_frame,
    FieldKind, FieldSchema,
};
pub use crate::frame::extract_frames;
pub use crate::schema::{
    check_distinct_tags, field_schema, kind_of_type, tag_of_attribute, ty_is_option, ty_is_vec_u8,
    AttributeShape, SchemaError, TypeShape,
};
