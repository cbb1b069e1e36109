//! ISO 8583 message codec: field specifications, presence bitmaps, and a
//! message type that decodes, edits and re-encodes data elements.

pub mod bit_block;
pub mod bitmap;
pub mod codec;
pub mod error;
pub mod iso_field;
pub mod iso_msg;
pub mod laws;
pub mod numeral;
pub mod yaml_specs;
