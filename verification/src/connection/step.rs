//! What a connection is to do next, and how it ends.
use super::frame::Wire;
use crate::broker::attach::{detach_spec, Attachment, AttachmentView};
use crate::broker::deliver::frame_option;
use crate::broker::model::{session_at, BrokerView, FrameView};
use crate::broker::outbound::send_command;
use crate::broker::service::{best_qos, forgotten, shut, WillGuard};
use crate::broker::state::{BrokerFrame, MqttBroker};
use crate::broker::wills::{close_will, settle_will, settled_view, without_guard};
use crate::codec::v5::DisconnectReason;
use crate::codec::MqttVersion;
use crate::error::Error;
use crate::identity::{AuthenticatedDevice, DeviceView, KeyView, Permissions};
use crate::limits::Limits;
use crate::message::{no_props, BrokerMessage, MessageView, PropsView, PublishProperties};
use crate::topics::{device_topic, topic, TopicKind};
use vstd::prelude::*;

verus! {

/// What is left to do once a message was handed on.
#[derive(Clone, Copy, Debug, PartialEq, Eq, Structural)]
pub enum Pending {
    Nothing,
    /// The message is acknowledged.
    Acknowledge { packet_id: u16 },
    /// The message is routed, its identifier given back, and the release is answered.
    Release { session_incarnation: u64, packet_id: u16, operation_id: u64 },
}

/// What a connection is to do next.
#[derive(Debug, PartialEq, Eq)]
pub enum Step {
    Idle,
    Send { bytes: Vec<u8> },
    /// Says whether the device can be sent commands, and writes.
    Announce { bytes: Vec<u8>, command_ready: bool },
    /// Writes, and then takes an identifier out of the receive window.
    Settle { bytes: Vec<u8>, packet_id: u16 },
    /// Writes a frame. `received` says that a command has arrived, `more` that a waiting frame may
    /// follow.
    Deliver { frame: Option<BrokerFrame>, received: bool, more: bool },
    /// Hands a device's message on.
    Ingest { message: BrokerMessage, command_ack: bool, pending: Pending },
    /// Has the payload of a message looked at before it is taken.
    Validate { message: BrokerMessage, command_ack: bool, packet_id: u16 },
    /// Ends the connection. An orderly end takes the will back.
    Close { orderly: bool },
    Fail { error: Error, reason: DisconnectReason },
}

pub enum StepView {
    Idle,
    Send { bytes: Seq<u8> },
    Announce { bytes: Seq<u8>, command_ready: bool },
    Settle { bytes: Seq<u8>, packet_id: u16 },
    Deliver { frame: Option<FrameView>, received: bool, more: bool },
    Ingest { message: MessageView, command_ack: bool, pending: Pending },
    Validate { message: MessageView, command_ack: bool, packet_id: u16 },
    Close { orderly: bool },
    Fail { error: Error, reason: DisconnectReason },
}

impl View for Step {
    type V = StepView;

    open spec fn view(&self) -> StepView {
        match *self {
            Step::Idle => StepView::Idle,
            Step::Send { bytes } => StepView::Send { bytes: bytes@ },
            Step::Announce { bytes, command_ready } => StepView::Announce {
                bytes: bytes@,
                command_ready,
            },
            Step::Settle { bytes, packet_id } => StepView::Settle { bytes: bytes@, packet_id },
            Step::Deliver { frame, received, more } => StepView::Deliver {
                frame: frame_option(frame),
                received,
                more,
            },
            Step::Ingest { message, command_ack, pending } => StepView::Ingest {
                message: message@,
                command_ack,
                pending,
            },
            Step::Validate { message, command_ack, packet_id } => StepView::Validate {
                message: message@,
                command_ack,
                packet_id,
            },
            Step::Close { orderly } => StepView::Close { orderly },
            Step::Fail { error, reason } => StepView::Fail { error, reason },
        }
    }
}

/// A connection whose client was let in.
#[derive(Debug, PartialEq, Eq)]
pub struct Endpoint {
    pub auth: AuthenticatedDevice,
    pub attachment: Attachment,
    pub will: Option<WillGuard>,
    pub wire: Wire,
}

#[verifier::ext_equal]
pub struct EndpointView {
    pub device: DeviceView,
    pub permissions: Permissions,
    pub attachment: AttachmentView,
    pub will: Option<u64>,
    pub wire: Wire,
}

pub open spec fn will_token(will: Option<WillGuard>) -> Option<u64> {
    match will {
        Some(guard) => Some(guard.token),
        None => None,
    }
}

impl View for Endpoint {
    type V = EndpointView;

    open spec fn view(&self) -> EndpointView {
        EndpointView {
            device: self.auth.device_key@,
            permissions: self.auth.permissions,
            attachment: self.attachment@,
            will: will_token(self.will),
            wire: self.wire,
        }
    }
}

/// What the session of a connection was granted on a topic.
pub open spec fn granted_qos(b: BrokerView, key: KeyView, topic: Seq<char>) -> Option<u8> {
    match session_at(b, key) {
        Some(i) => best_qos(b.sessions[i].subscriptions, topic),
        None => None,
    }
}

/// The device listens where its commands are published.
pub open spec fn command_ready(b: BrokerView, e: EndpointView) -> bool {
    granted_qos(b, e.attachment.key, device_topic(e.device, TopicKind::Down)) is Some
}

/// What became of a command.
#[derive(Clone, Copy, Debug, PartialEq, Eq, Structural)]
pub enum CommandFate {
    /// It came too late.
    Expired,
    /// It is on its way to the connection.
    Queued,
    /// The device cannot be reached with it.
    Undeliverable,
}

pub open spec fn command_message(
    device: DeviceView,
    payload: Seq<u8>,
    qos: u8,
    expires_at_ms: Option<i64>,
) -> MessageView {
    MessageView {
        topic: device_topic(device, TopicKind::Down),
        payload,
        qos,
        retain: false,
        properties: PropsView { expires_at_ms, ..no_props() },
    }
}

/// A command for the device. A client of the older protocol gets it only where it listens, and
/// what goes wrong there is the command's failure; with a client of the newer protocol it is the
/// connection's.
pub open spec fn commanded(
    b: BrokerView,
    limits: Limits,
    now: i64,
    e: EndpointView,
    payload: Seq<u8>,
    expires_at: i64,
) -> (BrokerView, Result<CommandFate, Error>) {
    let qos = granted_qos(b, e.attachment.key, device_topic(e.device, TopicKind::Down));
    if expires_at <= now {
        (b, Ok(CommandFate::Expired))
    } else {
        match e.wire.version {
            MqttVersion::V311 => match qos {
                None => (b, Ok(CommandFate::Undeliverable)),
                Some(qos) => {
                    let (next, outcome) = send_command(
                        b,
                        limits,
                        now,
                        e.attachment.key,
                        e.attachment.generation,
                        command_message(e.device, payload, qos, None),
                    );
                    (
                        next,
                        Ok(
                            if outcome is Ok {
                                CommandFate::Queued
                            } else {
                                CommandFate::Undeliverable
                            },
                        ),
                    )
                },
            },
            MqttVersion::V5 => {
                let (next, outcome) = send_command(
                    b,
                    limits,
                    now,
                    e.attachment.key,
                    e.attachment.generation,
                    command_message(
                        e.device,
                        payload,
                        match qos {
                            Some(qos) => qos,
                            None => 1,
                        },
                        Some(expires_at),
                    ),
                );
                (
                    next,
                    match outcome {
                        Ok(_) => Ok(CommandFate::Queued),
                        Err(error) => Err(error),
                    },
                )
            },
        }
    }
}

/// The held will of a connection that ended: taken back after an orderly end, else settled.
pub open spec fn will_settled(
    b: BrokerView,
    limits: Limits,
    now: i64,
    version: MqttVersion,
    token: u64,
    orderly: bool,
) -> (BrokerView, Result<Option<MessageView>, Error>) {
    if orderly {
        (without_guard(b, token), Ok(None))
    } else {
        let (next, outcome) = settle_will(b, limits, now, token);
        match (version, outcome) {
            (_, Err(error)) => (close_will(next, limits, now, token), Err(error)),
            (MqttVersion::V311, Ok(None)) => (
                close_will(next, limits, now, token),
                Err(Error::Internal),
            ),
            (_, Ok(message)) => (next, Ok(message)),
        }
    }
}

/// A connection that has ended: its session is detached, its will settled, and what the broker
/// still held for it is given up. The result is the will that was published.
#[verifier::opaque]
pub open spec fn ended(b: BrokerView, limits: Limits, now: i64, e: EndpointView, orderly: bool) -> (
    BrokerView,
    Result<Option<MessageView>, Error>,
) {
    let a = e.attachment;
    let (detached, failed) = if a.attached {
        detach_spec(b, limits, now, a.key, a.generation, a.clean_session)
    } else {
        (b, None)
    };
    let (next, outcome) = match (failed, e.will) {
        (Some(error), None) => (detached, Err(error)),
        (Some(error), Some(token)) => (close_will(detached, limits, now, token), Err(error)),
        (None, None) => (detached, Ok(None)),
        (None, Some(token)) => will_settled(
            detached,
            limits,
            now,
            e.wire.version,
            token,
            orderly,
        ),
    };
    (forgotten(shut(next, a.receiver), a.receiver), outcome)
}

impl Endpoint {
    /// Whether the device can be sent commands.
    pub fn accepts_commands(&self, broker: &MqttBroker) -> (ready: bool)
        ensures
            ready == command_ready(broker@, self@),
    {
        let down = topic(&self.auth.device_key, TopicKind::Down);
        broker.subscription_qos(&self.attachment.key, down.as_str()).is_some()
    }

    /// Passes a command to the device.
    pub fn command(
        &self,
        broker: &mut MqttBroker,
        payload: Vec<u8>,
        expires_at: i64,
        now: i64,
    ) -> (result: Result<CommandFate, Error>)
        requires
            old(broker).wf(),
        ensures
            final(broker).wf(),
            final(broker).limits == old(broker).limits,
            commanded(old(broker)@, old(broker).limits, now, self@, payload@, expires_at) == (
                final(broker)@,
                result,
            ),
    {
        if expires_at <= now {
            return Ok(CommandFate::Expired);
        }
        let down = topic(&self.auth.device_key, TopicKind::Down);
        let granted = broker.subscription_qos(&self.attachment.key, down.as_str());
        let mut properties = PublishProperties::default();
        match self.wire.version {
            MqttVersion::V311 => {
                let qos: u8 = match granted {
                    Some(qos) => qos,
                    None => return Ok(CommandFate::Undeliverable),
                };
                let message = BrokerMessage {
                    topic: down,
                    payload,
                    qos,
                    retain: false,
                    properties,
                };
                assert(message@ =~= command_message(self@.device, payload@, qos, None));
                let sent = broker.send_live(
                    &self.attachment.key,
                    self.attachment.generation,
                    message,
                    now,
                );
                match sent {
                    Ok(_) => Ok(CommandFate::Queued),
                    Err(_) => Ok(CommandFate::Undeliverable),
                }
            },
            MqttVersion::V5 => {
                let qos: u8 = match granted {
                    Some(qos) => qos,
                    None => 1,
                };
                properties.expires_at_ms = Some(expires_at);
                let message = BrokerMessage {
                    topic: down,
                    payload,
                    qos,
                    retain: false,
                    properties,
                };
                assert(message@ =~= command_message(
                    self@.device,
                    payload@,
                    qos,
                    Some(expires_at),
                ));
                let sent = broker.send_live(
                    &self.attachment.key,
                    self.attachment.generation,
                    message,
                    now,
                );
                match sent {
                    Ok(_) => Ok(CommandFate::Queued),
                    Err(error) => Err(error),
                }
            },
        }
    }

    /// Ends the connection. Gives the will that was published, if one was.
    pub fn end(self, broker: &mut MqttBroker, orderly: bool, now: i64) -> (result: Result<
        Option<BrokerMessage>,
        Error,
    >)
        requires
            old(broker).wf(),
        ensures
            final(broker).wf(),
            final(broker).limits == old(broker).limits,
            ended(old(broker)@, old(broker).limits, now, self@, orderly) == (
                final(broker)@,
                settled_view(result),
            ),
    {
        reveal(ended);
        let ghost model = self@;
        let Endpoint { auth: _, attachment, will, wire } = self;
        let mut attachment = attachment;
        let receiver: u64 = attachment.receiver;
        let detached = attachment.detach(broker, now);
        let result = match (detached, will) {
            (Err(error), None) => Err(error),
            (Err(error), Some(guard)) => {
                guard.close(broker, now);
                Err(error)
            },
            (Ok(_), None) => Ok(None),
            (Ok(_), Some(guard)) => settle_guard(broker, guard, wire.version, orderly, now),
        };
        broker.close_receiver(receiver);
        broker.forget_link(receiver);
        result
    }
}

fn settle_guard(
    broker: &mut MqttBroker,
    guard: WillGuard,
    version: MqttVersion,
    orderly: bool,
    now: i64,
) -> (result: Result<Option<BrokerMessage>, Error>)
    requires
        old(broker).wf(),
    ensures
        final(broker).wf(),
        final(broker).limits == old(broker).limits,
        will_settled(old(broker)@, old(broker).limits, now, version, guard.token, orderly) == (
            final(broker)@,
            settled_view(result),
        ),
{
    let mut guard = guard;
    if orderly {
        guard.suppress(broker);
        return Ok(None);
    }
    match version {
        MqttVersion::V311 => match guard.publish(broker, now) {
            Ok(message) => Ok(Some(message)),
            Err(error) => {
                guard.close(broker, now);
                Err(error)
            },
        },
        MqttVersion::V5 => match guard.publish_v5(broker, now) {
            Ok(message) => Ok(message),
            Err(error) => {
                guard.close(broker, now);
                Err(error)
            },
        },
    }
}

} // verus!
