//! What a connection does with what it receives, apart from reading and writing.
pub mod answers;
pub mod frame;
pub mod law;
pub mod parting;
pub mod promise;
pub mod step;
pub mod v311;
pub mod v5;
pub mod welcome;

use crate::broker::inbound::{classify, InboundQos2PublishState};
use crate::broker::model::BrokerView;
use crate::broker::state::MqttBroker;
use crate::codec::common::{fixed_header, fixed_header_spec};
use crate::codec::MqttVersion;
use crate::error::Error;
use crate::identity::{AuthenticatedDevice, DeviceView, KeyView, Permissions, SessionKey};
use crate::limits::Limits;
use crate::message::{BrokerMessage, MessageView};
use crate::topics::{publish_acl, publish_acl_spec, TopicKind};
use vstd::prelude::*;

verus! {

#[derive(Clone, Copy, Debug, PartialEq, Eq, Structural)]
pub enum ConnectionState {
    Accepted,
    AwaitConnect,
    Authenticating,
    Connected,
    Draining,
    Closed,
}

/// How far a connection has come.
pub struct StateMachine {
    pub state: ConnectionState,
}

/// A connection goes one stage on at a time, or is closed.
pub open spec fn may_follow(state: ConnectionState, next: ConnectionState) -> bool {
    match next {
        ConnectionState::Accepted => false,
        ConnectionState::AwaitConnect => state == ConnectionState::Accepted,
        ConnectionState::Authenticating => state == ConnectionState::AwaitConnect,
        ConnectionState::Connected => state == ConnectionState::Authenticating,
        ConnectionState::Draining => state == ConnectionState::Connected,
        ConnectionState::Closed => true,
    }
}

impl StateMachine {
    pub fn transition(&mut self, next: ConnectionState) -> (result: Result<(), Error>)
        ensures
            result is Ok <==> may_follow(old(self).state, next),
            result is Ok ==> final(self).state == next,
            result is Err ==> result->Err_0 == Error::Invalid && *final(self) == *old(self),
    {
        let allowed = match next {
            ConnectionState::Accepted => false,
            ConnectionState::AwaitConnect => self.state == ConnectionState::Accepted,
            ConnectionState::Authenticating => self.state == ConnectionState::AwaitConnect,
            ConnectionState::Connected => self.state == ConnectionState::Authenticating,
            ConnectionState::Draining => self.state == ConnectionState::Connected,
            ConnectionState::Closed => true,
        };
        if !allowed {
            return Err(Error::Invalid);
        }
        self.state = next;
        Ok(())
    }
}

/// The stage of a connection that was led through a series of stages, each allowed after the one
/// before.
pub open spec fn led(start: ConnectionState, path: Seq<ConnectionState>) -> bool
    decreases path.len(),
{
    path.len() > 0 ==> may_follow(start, path[0]) && led(path[0], path.drop_first())
}

/// A connection authenticates at most once: no allowed series of stages that starts at or after
/// authentication comes to authentication again.
pub proof fn law_authenticates_once(start: ConnectionState, path: Seq<ConnectionState>, k: int)
    requires
        start == ConnectionState::Authenticating || start == ConnectionState::Connected || start
            == ConnectionState::Draining || start == ConnectionState::Closed,
        led(start, path),
        0 <= k < path.len(),
    ensures
        path[k] != ConnectionState::Authenticating,
        path[k] != ConnectionState::AwaitConnect,
        path[k] != ConnectionState::Accepted,
    decreases path.len(),
{
    if k > 0 {
        law_authenticates_once(path[0], path.drop_first(), k - 1);
        assert(path[k] == path.drop_first()[k - 1]);
    }
}

/// What the first packet of a connection starts with when its client speaks the newer protocol.
pub open spec fn v5_greeting() -> Seq<u8> {
    seq![0u8, 4u8, 0x4du8, 0x51u8, 0x54u8, 0x54u8, 5u8]
}

/// Which protocol the first packet asks for, as soon as all of it is there.
pub open spec fn protocol_spec(input: Seq<u8>, limits: Limits) -> Result<
    Option<MqttVersion>,
    Error,
> {
    match fixed_header_spec(input, limits.max_mqtt_packet_size as nat) {
        Err(error) => Err(error),
        Ok(None) => Ok(None),
        Ok(Some((first, header, total))) => if input.len() < total {
            Ok(None)
        } else if first != 0x10 || total < header + 7 {
            Err(Error::Invalid)
        } else if input.subrange(header as int, header + 7) == v5_greeting() {
            Ok(Some(MqttVersion::V5))
        } else {
            Ok(Some(MqttVersion::V311))
        },
    }
}

/// Which protocol the first packet asks for, as soon as all of it is there.
pub fn protocol(input: &[u8], limits: &Limits) -> (result: Result<Option<MqttVersion>, Error>)
    ensures
        result == protocol_spec(input@, *limits),
{
    let (first, header, total) = match fixed_header(input, limits.max_mqtt_packet_size) {
        Err(error) => return Err(error),
        Ok(None) => return Ok(None),
        Ok(Some(found)) => found,
    };
    if input.len() < total {
        return Ok(None);
    }
    if first != 0x10 || total - header < 7 {
        return Err(Error::Invalid);
    }
    let greeted = input[header] == 0 && input[header + 1] == 4 && input[header + 2] == 0x4d
        && input[header + 3] == 0x51 && input[header + 4] == 0x54 && input[header + 5] == 0x54
        && input[header + 6] == 5;
    proof {
        let part = input@.subrange(header as int, header + 7);
        if greeted {
            assert(part =~= v5_greeting());
        } else {
            let k = header as int;
            assert(part[0] == input@[k] && part[1] == input@[k + 1] && part[2] == input@[k + 2]
                && part[3] == input@[k + 3] && part[4] == input@[k + 4] && part[5] == input@[k + 5]
                && part[6] == input@[k + 6]);
            let g = v5_greeting();
            assert(g[0] == 0 && g[1] == 4 && g[2] == 0x4d && g[3] == 0x51 && g[4] == 0x54 && g[5]
                == 0x54 && g[6] == 5);
        }
    }
    if greeted {
        Ok(Some(MqttVersion::V5))
    } else {
        Ok(Some(MqttVersion::V311))
    }
}

/// The milliseconds of silence after which a connection is given up: one and a half times what
/// the client announced, or the server's own limit where it announced nothing.
pub fn silence_limit(keep_alive: u16, idle_timeout_ms: u64) -> (milliseconds: u64)
    ensures
        milliseconds == if keep_alive == 0 {
            idle_timeout_ms as int
        } else {
            keep_alive * 1500
        },
{
    if keep_alive == 0 {
        idle_timeout_ms
    } else {
        keep_alive as u64 * 1500
    }
}

/// How much of a device's allowance a message uses up: one, and one more for each 4096 bytes.
pub open spec fn publish_units(topic_bytes: nat, payload_bytes: nat) -> nat {
    let size = topic_bytes + payload_bytes;
    let held: nat = if size > usize::MAX {
        usize::MAX as nat
    } else {
        size
    };
    1 + held / 4096
}

pub fn weigh_publish(topic_bytes: usize, payload_bytes: usize) -> (units: usize)
    ensures
        units == publish_units(topic_bytes as nat, payload_bytes as nat),
{
    let size: usize = if payload_bytes > usize::MAX - topic_bytes {
        usize::MAX
    } else {
        topic_bytes + payload_bytes
    };
    1 + size / 4096
}

/// The whole seconds that are left until a deadline, the last begun one included.
pub open spec fn seconds_left(deadline: i64, now: i64) -> u32 {
    let left = if deadline > now {
        deadline - now
    } else {
        0
    };
    let seconds = (left + 999) / 1000;
    if seconds > u32::MAX {
        u32::MAX
    } else {
        seconds as u32
    }
}

pub fn remaining_seconds(deadline: i64, now: i64) -> (seconds: u32)
    ensures
        seconds == seconds_left(deadline, now),
{
    let left: i128 = if deadline > now {
        deadline as i128 - now as i128
    } else {
        0
    };
    let seconds: i128 = (left + 999) / 1000;
    if seconds > u32::MAX as i128 {
        u32::MAX
    } else {
        seconds as u32
    }
}

/// What may be done with a message that is delivered exactly once: one that is already held is
/// only acknowledged again, any other has to be allowed on its topic.
pub open spec fn authorized(
    b: BrokerView,
    device: DeviceView,
    permissions: Permissions,
    key: KeyView,
    generation: u64,
    id: u16,
    topic: Seq<char>,
) -> Result<InboundQos2PublishState, Error> {
    match classify(b, key, generation, id) {
        Err(error) => Err(error),
        Ok(InboundQos2PublishState::ExistingTransaction) => Ok(
            InboundQos2PublishState::ExistingTransaction,
        ),
        Ok(state) => match publish_acl_spec(device, permissions, topic) {
            Err(error) => Err(error),
            Ok(_) => Ok(state),
        },
    }
}

pub fn authorize_inbound_qos2_publish(
    mqtt: &MqttBroker,
    auth: &AuthenticatedDevice,
    key: &SessionKey,
    generation: u64,
    packet_id: u16,
    topic: &str,
) -> (result: Result<InboundQos2PublishState, Error>)
    requires
        mqtt.wf(),
    ensures
        result == authorized(
            mqtt@,
            auth.device_key@,
            auth.permissions,
            key@,
            generation,
            packet_id,
            topic@,
        ),
{
    let state = match mqtt.classify_inbound_qos2_publish(key, generation, packet_id) {
        Ok(state) => state,
        Err(error) => return Err(error),
    };
    match state {
        InboundQos2PublishState::ExistingTransaction => Ok(state),
        InboundQos2PublishState::NeedsNewMessageAdmission
        | InboundQos2PublishState::IdentifierInUse => match publish_acl(auth, topic) {
            Ok(_) => Ok(state),
            Err(error) => Err(error),
        },
    }
}

/// What those who evaluate messages are to do with one: nothing where it only clears a retained
/// message, else to take it, as the answer to a command where it is published as one.
pub open spec fn event_of(
    device: DeviceView,
    permissions: Permissions,
    message: MessageView,
) -> Result<Option<bool>, Error> {
    match publish_acl_spec(device, permissions, message.topic) {
        Err(error) => Err(error),
        Ok(kind) => if message.payload.len() == 0 && message.retain {
            Ok(None)
        } else {
            Ok(Some(kind == TopicKind::DownAck))
        },
    }
}

/// Whether a message of the device is to be evaluated, and if so whether it has to be the answer
/// to a command.
pub fn device_event(auth: &AuthenticatedDevice, message: &BrokerMessage) -> (event: Result<
    Option<bool>,
    Error,
>)
    ensures
        event == event_of(auth.device_key@, auth.permissions, message@),
{
    let kind = match publish_acl(auth, message.topic.as_str()) {
        Ok(kind) => kind,
        Err(error) => return Err(error),
    };
    if message.payload.len() == 0 && message.retain {
        return Ok(None);
    }
    Ok(Some(matches!(kind, TopicKind::DownAck)))
}

} // verus!
