//! Wire codecs of both protocol versions.
pub mod common;
pub mod layout;
pub mod layout_v5;
pub mod v311;
pub mod v5;

use vstd::prelude::*;

verus! {

/// The protocol version that a connection or a session speaks.
#[derive(Clone, Copy, Debug, PartialEq, Eq, Structural)]
pub enum MqttVersion {
    V311,
    V5,
}

impl Default for MqttVersion {
    fn default() -> (version: MqttVersion)
        ensures
            version == MqttVersion::V311,
    {
        MqttVersion::V311
    }
}

} // verus!
