//! The recovery image: what survives a planned restart, as bytes.
pub mod decode;
pub mod encode;
pub mod fields;
pub mod image;
pub mod integrity;
pub mod law;
pub mod legacy;
pub mod message;
pub mod record;
pub mod snapshot;
pub mod sort;
