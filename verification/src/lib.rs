//! MQTT 3.1.1 and MQTT 5 wire codecs, a bounded session broker and its recovery image.
pub mod broker;
pub mod buffer;
pub mod codec;
pub mod connection;
pub mod digest;
pub mod error;
pub mod identity;
pub mod limits;
pub mod list;
pub mod message;
pub mod number;
pub mod packet;
pub mod recovery;
pub mod session;
pub mod table;
pub mod text;
pub mod topics;
pub mod wildcards;
pub mod trie;
pub mod usage;
