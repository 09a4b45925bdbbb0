//! Turning what the broker hands to a connection into bytes.
use super::{remaining_seconds, seconds_left};
use crate::broker::ease::{
    eased, left, lemma_begin_transfer_eased, lemma_discard_eased, lemma_eased_trans,
    lemma_pulled_lighter, lighter, stale, wills_left,
};
use crate::broker::model::{frame_charge, session_at, wake_global, BrokerView, FrameView};
use crate::broker::outbound::{begin_transfer, discard, pull};
use crate::broker::service::written;
use crate::broker::state::{lemma_session_ok, BrokerDelivery, BrokerFrame, MqttBroker};
use crate::broker::tidy::lemma_positions;
use crate::codec::common::{packet_bytes, packet_fits};
use crate::codec::v5::{
    ack_body, least, no_properties, publish_texts_fit, smaller, AckReason, OutboundPublish,
    Properties, PropertiesView, PubrelReason,
};
use crate::codec::{v311, v5, MqttVersion};
use crate::error::Error;
use crate::identity::{KeyView, SessionKey};
use crate::limits::Limits;
use crate::list::distinct;
use crate::message::{
    clone_pairs, clone_text, expired_spec, MessageView, PropsView, PublishProperties,
};
use crate::number::be16;
use crate::session::outbound_key;
use bytes::Bytes;
use vstd::prelude::*;

verus! {

/// A packet, or the error of one that is too large.
pub open spec fn encoded(first: u8, body: Seq<u8>, maximum: nat) -> Result<Seq<u8>, Error> {
    if packet_fits(body.len(), maximum) {
        Ok(packet_bytes(first, body))
    } else {
        Err(Error::Overloaded)
    }
}

pub open spec fn bytes_result(result: Result<Vec<u8>, Error>) -> Result<Seq<u8>, Error> {
    match result {
        Ok(bytes) => Ok(bytes@),
        Err(error) => Err(error),
    }
}

/// Where a connection stands towards its client.
#[derive(Clone, Copy, Debug, PartialEq, Eq, Structural)]
pub struct Wire {
    pub version: MqttVersion,
    /// The largest packet that the client takes.
    pub maximum: usize,
}

/// What is sent of a message's properties: its deadline becomes the time that is left.
pub open spec fn sent_properties(properties: PropsView, now: i64) -> PropertiesView {
    PropertiesView {
        payload_format: properties.payload_format,
        message_expiry: match properties.expires_at_ms {
            Some(deadline) => Some(seconds_left(deadline, now)),
            None => None,
        },
        content_type: properties.content_type,
        response_topic: properties.response_topic,
        correlation_data: properties.correlation_data,
        user_properties: properties.user_properties,
        ..no_properties()
    }
}

/// The packet that carries a message to a client of the older protocol.
pub open spec fn publish_v311(
    message: MessageView,
    id: Option<u16>,
    dup: bool,
    limits: Limits,
) -> Result<Seq<u8>, Error> {
    if !v311::publish_valid(message.topic, message.qos, id, dup, limits) || v311::publish_size(
        message.topic,
        message.payload,
        id,
    ) > usize::MAX {
        Err(Error::Invalid)
    } else {
        encoded(
            v311::publish_first(message.qos, message.retain, dup),
            v311::publish_body(message.topic, message.payload, id),
            limits.max_mqtt_packet_size as nat,
        )
    }
}

/// The packet that carries a message to a client of the newer protocol.
pub open spec fn publish_v5(
    message: MessageView,
    id: Option<u16>,
    dup: bool,
    now: i64,
    maximum: nat,
) -> Result<Seq<u8>, Error> {
    let properties = sent_properties(message.properties, now);
    if message.qos > 2 || (message.qos > 0 && id is None) {
        Err(Error::Invalid)
    } else if !publish_texts_fit(message.topic, properties) {
        Err(Error::Overloaded)
    } else {
        encoded(
            v311::publish_first(message.qos, message.retain, dup),
            v5::publish_body(message.topic, message.payload, id, properties),
            maximum,
        )
    }
}

/// What came of one frame.
pub enum Attempt {
    /// It can be written.
    Ready(Vec<u8>),
    /// There is nothing to write.
    Skip,
    /// Another frame takes its place.
    Next(BrokerFrame),
    Stop(Error),
}

pub enum AttemptView {
    Ready(Seq<u8>),
    Skip,
    Next(FrameView),
    Stop(Error),
}

impl View for Attempt {
    type V = AttemptView;

    open spec fn view(&self) -> AttemptView {
        match *self {
            Attempt::Ready(bytes) => AttemptView::Ready(bytes@),
            Attempt::Skip => AttemptView::Skip,
            Attempt::Next(frame) => AttemptView::Next(frame@),
            Attempt::Stop(error) => AttemptView::Stop(error),
        }
    }
}

/// The next waiting frame in the place of one that cannot be written.
pub open spec fn replaced(
    b: BrokerView,
    limits: Limits,
    now: i64,
    key: KeyView,
    generation: u64,
    receiver: u64,
    charge: nat,
) -> (BrokerView, AttemptView) {
    let (next, step) = pull(b, limits, now, key, generation);
    (
        written(next, receiver, charge),
        match step {
            Err(error) => AttemptView::Stop(error),
            Ok(None) => AttemptView::Skip,
            Ok(Some(frame)) => AttemptView::Next(frame),
        },
    )
}

/// One frame towards a client of the older protocol. What it occupies is given back when it is
/// written.
#[verifier::opaque]
pub open spec fn attempt_v311(
    b: BrokerView,
    limits: Limits,
    now: i64,
    key: KeyView,
    generation: u64,
    receiver: u64,
    frame: FrameView,
) -> (BrokerView, AttemptView) {
    let charge = frame_charge(frame);
    match frame {
        FrameView::Pubrel { packet_id, .. } => (
            b,
            AttemptView::Ready(packet_bytes(0x62, be16(packet_id))),
        ),
        FrameView::Publish { message, packet_id, dup, .. } => if packet_id is None && expired_spec(
            message,
            now,
        ) {
            (written(b, receiver, charge), AttemptView::Skip)
        } else {
            match publish_v311(message, packet_id, dup, limits) {
                Err(error) => (written(b, receiver, charge), AttemptView::Stop(error)),
                Ok(bytes) => if packet_id is None {
                    (b, AttemptView::Ready(bytes))
                } else {
                    let (begun, outcome) = begin_transfer(
                        b,
                        limits,
                        now,
                        key,
                        generation,
                        packet_id,
                        message,
                    );
                    match outcome {
                        Err(error) => (
                            written(begun, receiver, charge),
                            AttemptView::Stop(error),
                        ),
                        Ok(true) => (begun, AttemptView::Ready(bytes)),
                        Ok(false) => replaced(begun, limits, now, key, generation, receiver, charge),
                    }
                },
            }
        },
    }
}

/// A message towards a client of the newer protocol, once its transfer has begun. What it
/// occupies is given back before it is written. One that is too large for the client is given up.
#[verifier::opaque]
pub open spec fn send_v5(
    b: BrokerView,
    limits: Limits,
    now: i64,
    key: KeyView,
    generation: u64,
    receiver: u64,
    maximum: usize,
    message: MessageView,
    id: Option<u16>,
    dup: bool,
    charge: nat,
) -> (BrokerView, AttemptView) {
    match publish_v5(
        message,
        id,
        dup,
        now,
        smaller(maximum, limits.max_mqtt_packet_size) as nat,
    ) {
        Ok(bytes) => (written(b, receiver, charge), AttemptView::Ready(bytes)),
        Err(Error::Overloaded) => if id is None {
            (written(b, receiver, charge), AttemptView::Skip)
        } else {
            let (left, outcome) = discard(b, limits, now, key, generation, id, message);
            match outcome {
                Err(error) => (written(left, receiver, charge), AttemptView::Stop(error)),
                Ok(_) => replaced(left, limits, now, key, generation, receiver, charge),
            }
        },
        Err(error) => (written(b, receiver, charge), AttemptView::Stop(error)),
    }
}

/// One frame towards a client of the newer protocol.
#[verifier::opaque]
pub open spec fn attempt_v5(
    b: BrokerView,
    limits: Limits,
    now: i64,
    key: KeyView,
    generation: u64,
    receiver: u64,
    maximum: usize,
    frame: FrameView,
) -> (BrokerView, AttemptView) {
    let charge = frame_charge(frame);
    match frame {
        FrameView::Pubrel { packet_id, .. } => (
            b,
            match encoded(
                0x62,
                ack_body(AckReason::Pubrel(PubrelReason::Success), packet_id),
                maximum as nat,
            ) {
                Ok(bytes) => AttemptView::Ready(bytes),
                Err(error) => AttemptView::Stop(error),
            },
        ),
        FrameView::Publish { message, packet_id, dup, .. } => if packet_id is None && expired_spec(
            message,
            now,
        ) {
            (written(b, receiver, charge), AttemptView::Skip)
        } else if packet_id is None {
            send_v5(b, limits, now, key, generation, receiver, maximum, message, packet_id, dup, charge)
        } else {
            let (begun, outcome) = begin_transfer(
                b,
                limits,
                now,
                key,
                generation,
                packet_id,
                message,
            );
            match outcome {
                Err(error) => (written(begun, receiver, charge), AttemptView::Stop(error)),
                Ok(false) => replaced(begun, limits, now, key, generation, receiver, charge),
                Ok(true) => send_v5(
                    begun,
                    limits,
                    now,
                    key,
                    generation,
                    receiver,
                    maximum,
                    message,
                    packet_id,
                    dup,
                    charge,
                ),
            }
        },
    }
}

pub open spec fn attempt(
    b: BrokerView,
    limits: Limits,
    now: i64,
    key: KeyView,
    generation: u64,
    receiver: u64,
    wire: Wire,
    frame: FrameView,
) -> (BrokerView, AttemptView) {
    match wire.version {
        MqttVersion::V311 => attempt_v311(b, limits, now, key, generation, receiver, frame),
        MqttVersion::V5 => attempt_v5(b, limits, now, key, generation, receiver, wire.maximum, frame),
    }
}

/// The first frame that can be written, starting with one that the broker handed out. Every frame
/// that gives way to another leaves less to send, so this comes to an end.
pub open spec fn prepared(
    b: BrokerView,
    limits: Limits,
    now: i64,
    key: KeyView,
    generation: u64,
    receiver: u64,
    wire: Wire,
    frame: FrameView,
) -> (BrokerView, Result<Option<(Seq<u8>, FrameView)>, Error>)
    decreases
            wills_left(b),
            left(b, key),
            if stale(b, key, frame) {
                1nat
            } else {
                0nat
            },
{
    let (next, outcome) = attempt(b, limits, now, key, generation, receiver, wire, frame);
    match outcome {
        AttemptView::Ready(bytes) => (next, Ok(Some((bytes, frame)))),
        AttemptView::Skip => (next, Ok(None)),
        AttemptView::Stop(error) => (next, Err(error)),
        AttemptView::Next(other) => if lighter(b, frame, next, other, key) {
            prepared(next, limits, now, key, generation, receiver, wire, other)
        } else {
            (next, Ok(None))
        },
    }
}

/// A frame of the session in the place of one that was stale, or after a step that left less to
/// send.
proof fn lemma_replaced_lighter(
    b: BrokerView,
    frame: FrameView,
    mid: BrokerView,
    limits: Limits,
    now: i64,
    key: KeyView,
    generation: u64,
    receiver: u64,
)
    requires
        eased(b, mid),
        wills_left(mid) == wills_left(b) && left(mid, key) == left(b, key) ==> stale(
            b,
            key,
            frame,
        ),
        exchanges_distinct(
            replaced(mid, limits, now, key, generation, receiver, frame_charge(frame)).0,
            key,
        ),
        replaced(mid, limits, now, key, generation, receiver, frame_charge(frame)).1 is Next,
    ensures
        lighter(
            b,
            frame,
            replaced(mid, limits, now, key, generation, receiver, frame_charge(frame)).0,
            replaced(mid, limits, now, key, generation, receiver, frame_charge(frame)).1->Next_0,
            key,
        ),
{
    let pulled = pull(mid, limits, now, key, generation).0;
    let next = replaced(mid, limits, now, key, generation, receiver, frame_charge(frame)).0;
    assert(next.sessions == pulled.sessions);
    lemma_pulled_lighter(b, frame, mid, limits, now, key, generation);
}

/// No packet identifier of the session is in use twice.
pub open spec fn exchanges_distinct(b: BrokerView, key: KeyView) -> bool {
    session_at(b, key) matches Some(i) ==> distinct(b.sessions[i].outbound, outbound_key())
}

/// Every frame that gives way to another leaves less to send: fewer wills, or fewer messages of
/// the session, or a frame of the session in the place of one that was none. So handing on the
/// next frame in the place of one that cannot be written comes to an end.
pub proof fn law_replaced_frame_leaves_less(
    b: BrokerView,
    limits: Limits,
    now: i64,
    key: KeyView,
    generation: u64,
    receiver: u64,
    wire: Wire,
    frame: FrameView,
)
    requires
        exchanges_distinct(attempt(b, limits, now, key, generation, receiver, wire, frame).0, key),
        attempt(b, limits, now, key, generation, receiver, wire, frame).1 is Next,
    ensures
        ({
            let (next, outcome) = attempt(b, limits, now, key, generation, receiver, wire, frame);
            lighter(b, frame, next, outcome->Next_0, key)
        }),
{
    reveal(attempt_v311);
    reveal(attempt_v5);
    reveal(send_v5);
    if let FrameView::Publish { message, packet_id: Some(id), dup, command } = frame {
        let (begun, outcome) = begin_transfer(
            b,
            limits,
            now,
            key,
            generation,
            Some(id),
            message,
        );
        lemma_begin_transfer_eased(
            b,
            limits,
            now,
            key,
            generation,
            id,
            message,
            dup,
            command,
        );
        if outcome == Ok::<bool, Error>(false) {
            lemma_replaced_lighter(b, frame, begun, limits, now, key, generation, receiver);
        } else {
            lemma_discard_eased(begun, limits, now, key, generation, id, message, dup, command);
            let left = discard(begun, limits, now, key, generation, Some(id), message).0;
            lemma_eased_trans(b, begun, left);
            lemma_replaced_lighter(b, frame, left, limits, now, key, generation, receiver);
        }
    }
}

/// A packet to write, and the frame that it was made from.
#[derive(Debug, PartialEq, Eq)]
pub struct Outgoing {
    pub bytes: Vec<u8>,
    pub frame: BrokerFrame,
}

pub open spec fn outgoing_result(result: Result<Option<Outgoing>, Error>) -> Result<
    Option<(Seq<u8>, FrameView)>,
    Error,
> {
    match result {
        Ok(Some(outgoing)) => Ok(Some((outgoing.bytes@, outgoing.frame@))),
        Ok(None) => Ok(None),
        Err(error) => Err(error),
    }
}

fn wire_properties(properties: &PublishProperties, now: i64) -> (wire: Properties)
    ensures
        wire@ == sent_properties(properties@, now),
{
    let mut wire = Properties::default();
    wire.payload_format = properties.payload_format;
    wire.message_expiry = match properties.expires_at_ms {
        Some(deadline) => Some(remaining_seconds(deadline, now)),
        None => None,
    };
    wire.content_type = clone_text(&properties.content_type);
    wire.response_topic = clone_text(&properties.response_topic);
    wire.correlation_data = match &properties.correlation_data {
        Some(data) => Some(Bytes::copy_from_slice(data.as_slice())),
        None => None,
    };
    wire.user_properties = clone_pairs(&properties.user_properties);
    assert(wire@ =~= sent_properties(properties@, now));
    wire
}

impl MqttBroker {
    /// The next waiting frame in the place of one that cannot be written.
    fn replace_frame(
        &mut self,
        key: &SessionKey,
        generation: u64,
        receiver: u64,
        frame: &BrokerFrame,
        now: i64,
    ) -> (attempt: Attempt)
        requires
            old(self).wf(),
        ensures
            final(self).wf(),
            final(self).limits == old(self).limits,
            replaced(
                old(self)@,
                old(self).limits,
                now,
                key@,
                generation,
                receiver,
                frame_charge(frame@),
            ) == (final(self)@, attempt@),
    {
        let step = self.next_offline(key, generation, now);
        self.release_frame(receiver, frame);
        match step {
            Err(error) => Attempt::Stop(error),
            Ok(None) => Attempt::Skip,
            Ok(Some(next)) => Attempt::Next(next),
        }
    }

    fn attempt_v311(
        &mut self,
        key: &SessionKey,
        generation: u64,
        receiver: u64,
        frame: &BrokerFrame,
        now: i64,
    ) -> (attempt: Attempt)
        requires
            old(self).wf(),
        ensures
            final(self).wf(),
            final(self).limits == old(self).limits,
            attempt_v311(old(self)@, old(self).limits, now, key@, generation, receiver, frame@) == (
                final(self)@,
                attempt@,
            ),
    {
        reveal(attempt_v311);
        let delivery: &BrokerDelivery = match frame {
            BrokerFrame::Pubrel { packet_id, dup: _ } => {
                let bytes = v311::ack(0x62, *packet_id);
                return Attempt::Ready(bytes);
            },
            BrokerFrame::Publish(delivery) => delivery,
        };
        if delivery.packet_id.is_none() && delivery.message.expired(now) {
            self.release_frame(receiver, frame);
            return Attempt::Skip;
        }
        let limits = self.limits.clone();
        let encoded = v311::publish(
            delivery.message.topic.as_str(),
            delivery.message.payload.as_slice(),
            delivery.message.qos,
            delivery.packet_id,
            delivery.message.retain,
            delivery.dup,
            &limits,
        );
        assert(bytes_result(encoded) == publish_v311(
            delivery.message@,
            delivery.packet_id,
            delivery.dup,
            limits,
        ));
        let bytes = match encoded {
            Ok(bytes) => bytes,
            Err(error) => {
                self.release_frame(receiver, frame);
                return Attempt::Stop(error);
            },
        };
        if delivery.packet_id.is_none() {
            return Attempt::Ready(bytes);
        }
        match self.begin_outbound_transfer(key, generation, delivery, now) {
            Err(error) => {
                self.release_frame(receiver, frame);
                Attempt::Stop(error)
            },
            Ok(true) => Attempt::Ready(bytes),
            Ok(false) => self.replace_frame(key, generation, receiver, frame, now),
        }
    }

    fn send_v5(
        &mut self,
        key: &SessionKey,
        generation: u64,
        receiver: u64,
        maximum: usize,
        delivery: &BrokerDelivery,
        frame: &BrokerFrame,
        now: i64,
    ) -> (attempt: Attempt)
        requires
            old(self).wf(),
        ensures
            final(self).wf(),
            final(self).limits == old(self).limits,
            send_v5(
                old(self)@,
                old(self).limits,
                now,
                key@,
                generation,
                receiver,
                maximum,
                delivery.message@,
                delivery.packet_id,
                delivery.dup,
                frame_charge(frame@),
            ) == (final(self)@, attempt@),
    {
        reveal(send_v5);
        let properties = wire_properties(&delivery.message.properties, now);
        let encoded = v5::publish(
            OutboundPublish {
                topic: delivery.message.topic.as_str(),
                payload: delivery.message.payload.as_slice(),
                qos: delivery.message.qos,
                packet_id: delivery.packet_id,
                retain: delivery.message.retain,
                dup: delivery.dup,
                properties: &properties,
            },
            least(maximum, self.limits.max_mqtt_packet_size),
        );
        assert(bytes_result(encoded) == publish_v5(
            delivery.message@,
            delivery.packet_id,
            delivery.dup,
            now,
            smaller(maximum, self.limits.max_mqtt_packet_size) as nat,
        ));
        match encoded {
            Ok(bytes) => {
                self.release_frame(receiver, frame);
                Attempt::Ready(bytes)
            },
            Err(Error::Overloaded) => {
                if delivery.packet_id.is_none() {
                    self.release_frame(receiver, frame);
                    return Attempt::Skip;
                }
                match self.discard_outbound(key, generation, delivery, now) {
                    Err(error) => {
                        self.release_frame(receiver, frame);
                        Attempt::Stop(error)
                    },
                    Ok(_) => self.replace_frame(key, generation, receiver, frame, now),
                }
            },
            Err(error) => {
                self.release_frame(receiver, frame);
                Attempt::Stop(error)
            },
        }
    }

    fn attempt_v5(
        &mut self,
        key: &SessionKey,
        generation: u64,
        receiver: u64,
        maximum: usize,
        frame: &BrokerFrame,
        now: i64,
    ) -> (attempt: Attempt)
        requires
            old(self).wf(),
        ensures
            final(self).wf(),
            final(self).limits == old(self).limits,
            attempt_v5(
                old(self)@,
                old(self).limits,
                now,
                key@,
                generation,
                receiver,
                maximum,
                frame@,
            ) == (final(self)@, attempt@),
    {
        reveal(attempt_v5);
        let delivery: &BrokerDelivery = match frame {
            BrokerFrame::Pubrel { packet_id, dup: _ } => {
                let packet = v5::ack(
                    AckReason::Pubrel(PubrelReason::Success),
                    *packet_id,
                    maximum,
                );
                return match packet {
                    Ok(bytes) => Attempt::Ready(bytes),
                    Err(error) => Attempt::Stop(error),
                };
            },
            BrokerFrame::Publish(delivery) => delivery,
        };
        if delivery.packet_id.is_none() {
            if delivery.message.expired(now) {
                self.release_frame(receiver, frame);
                return Attempt::Skip;
            }
            return self.send_v5(key, generation, receiver, maximum, delivery, frame, now);
        }
        match self.begin_outbound_transfer(key, generation, delivery, now) {
            Err(error) => {
                self.release_frame(receiver, frame);
                Attempt::Stop(error)
            },
            Ok(false) => self.replace_frame(key, generation, receiver, frame, now),
            Ok(true) => self.send_v5(key, generation, receiver, maximum, delivery, frame, now),
        }
    }

    /// The first frame that can be written, starting with one that the broker handed out.
    pub fn prepare_frame(
        &mut self,
        key: &SessionKey,
        generation: u64,
        receiver: u64,
        wire: Wire,
        frame: BrokerFrame,
        now: i64,
    ) -> (result: Result<Option<Outgoing>, Error>)
        requires
            old(self).wf(),
        ensures
            final(self).wf(),
            final(self).limits == old(self).limits,
            prepared(old(self)@, old(self).limits, now, key@, generation, receiver, wire, frame@) == (
                final(self)@,
                outgoing_result(result),
            ),
    {
        let ghost goal = prepared(self@, self.limits, now, key@, generation, receiver, wire, frame@);
        let ghost offered = frame@;
        let mut current = frame;
        loop
            invariant
                self.wf(),
                self.limits == old(self).limits,
                goal == prepared(
                    old(self)@,
                    old(self).limits,
                    now,
                    key@,
                    generation,
                    receiver,
                    wire,
                    offered,
                ),
                goal == prepared(self@, self.limits, now, key@, generation, receiver, wire, current@),
                offered == frame@,
            decreases
                    wills_left(self@),
                    left(self@, key@),
                    if stale(self@, key@, current@) {
                        1nat
                    } else {
                        0nat
                    },
        {
            let ghost before = self@;
            let attempt = match wire.version {
                MqttVersion::V311 => self.attempt_v311(key, generation, receiver, &current, now),
                MqttVersion::V5 => self.attempt_v5(
                    key,
                    generation,
                    receiver,
                    wire.maximum,
                    &current,
                    now,
                ),
            };
            match attempt {
                Attempt::Ready(bytes) => {
                    return Ok(Some(Outgoing { bytes, frame: current }));
                },
                Attempt::Skip => {
                    return Ok(None);
                },
                Attempt::Stop(error) => {
                    return Err(error);
                },
                Attempt::Next(other) => {
                    proof {
                        lemma_positions(self@, key@);
                        if let Some(i) = session_at(self@, key@) {
                            lemma_session_ok(self.sessions@, i);
                        }
                        law_replaced_frame_leaves_less(
                            before,
                            self.limits,
                            now,
                            key@,
                            generation,
                            receiver,
                            wire,
                            current@,
                        );
                    }
                    current = other;
                },
            }
        }
    }

    /// After a packet was written, or could not be: gives back what its frame occupied, and lets
    /// those go on that waited for it. Says whether a command went out with it.
    pub fn frame_written(&mut self, receiver: u64, wire: Wire, outgoing: &Outgoing, now: i64) -> (result:
        Result<bool, Error>)
        requires
            old(self).wf(),
        ensures
            final(self).wf(),
            final(self).limits == old(self).limits,
            after_writing(
                old(self)@,
                old(self).limits,
                now,
                receiver,
                wire.version,
                outgoing.frame@,
            ) == (final(self)@, result),
    {
        match wire.version {
            MqttVersion::V5 => Ok(false),
            MqttVersion::V311 => match &outgoing.frame {
                BrokerFrame::Pubrel { packet_id: _, dup: _ } => Ok(false),
                BrokerFrame::Publish(delivery) => {
                    self.release_frame(receiver, &outgoing.frame);
                    match self.outbound_bytes_released(now) {
                        Ok(_) => Ok(delivery.command),
                        Err(error) => Err(error),
                    }
                },
            },
        }
    }
}

pub open spec fn after_writing(
    b: BrokerView,
    limits: Limits,
    now: i64,
    receiver: u64,
    version: MqttVersion,
    frame: FrameView,
) -> (BrokerView, Result<bool, Error>) {
    match (version, frame) {
        (MqttVersion::V311, FrameView::Publish { command, .. }) => {
            let (next, failed) = wake_global(
                written(b, receiver, frame_charge(frame)),
                limits,
                now,
            );
            (
                next,
                match failed {
                    Some(error) => Err(error),
                    None => Ok(command),
                },
            )
        },
        _ => (b, Ok(false)),
    }
}

} // verus!
