//! Stable packet API for existing callers and fuzz targets.
//! Version-specific wire codecs live under `codec`.
pub use crate::codec::common::{
    encode, fixed_header, remaining_length, valid_filter, valid_topic, valid_utf8,
};
pub use crate::codec::v311::{ack, connack, decode, publish, Connect, Packet, Will};
