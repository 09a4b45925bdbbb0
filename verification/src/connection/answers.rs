//! How the answers of a client carry its exchanges on.
use super::step::{EndpointView, Pending, StepView};
use super::{authorized, v311, v5};
use crate::broker::inbound::{
    begin_delivery, classify, route_inbound, ActionView, InboundQos2PublishState,
};
use crate::broker::model::BrokerView;
use crate::broker::outbound::{complete_outbound, pull, receive_pubrec, reject_pubrec, OutboundAck};
use crate::codec::common::packet_fits;
use crate::codec::layout::{framed, law_packets_are_framed, lemma_short, short};
use crate::codec::{v311 as plain, v5 as modern};
use crate::error::Error;
use crate::limits::Limits;
use crate::topics::{publish_acl_spec, TopicKind};
use crate::identity::{DeviceView, KeyView, Permissions};
use vstd::prelude::*;

verus! {

/// An answer that ends an exchange is taken as the one that its packet is, for the identifier that
/// it names, and the client is handed what is due next.
pub open spec fn carries_on(
    b: BrokerView,
    limits: Limits,
    now: i64,
    e: EndpointView,
    id: u16,
    ack: OutboundAck,
    next: BrokerView,
    step: StepView,
) -> bool {
    let key = e.attachment.key;
    let generation = e.attachment.generation;
    let (done, outcome) = complete_outbound(b, limits, now, key, generation, id, ack);
    let (pulled, frame) = pull(done, limits, now, key, generation);
    match outcome {
        Err(_) => step is Fail && next == done,
        Ok(_) => {
            &&& next == pulled
            &&& match frame {
                Err(_) => step is Fail,
                Ok(due) => step matches StepView::Deliver { frame, more, .. } && frame == due && !more,
            }
        },
    }
}

/// What the two answers that end an exchange do, and what is said of a command that was answered.
pub proof fn law_last_answers_carry_on(
    b: BrokerView,
    limits: Limits,
    now: i64,
    e: EndpointView,
    id: u16,
    reason: u8,
)
    ensures
        ({
            let key = e.attachment.key;
            let generation = e.attachment.generation;
            let (next, step) = v311::packet_step(b, limits, now, e, plain::PacketView::Puback(id));
            &&& carries_on(b, limits, now, e, id, OutboundAck::Puback, next, step)
            &&& step matches StepView::Deliver { received, .. } ==> complete_outbound(
                b,
                limits,
                now,
                key,
                generation,
                id,
                OutboundAck::Puback,
            ).1 == Ok::<bool, Error>(received)
        }),
        ({
            let key = e.attachment.key;
            let generation = e.attachment.generation;
            let (next, step) = v311::packet_step(b, limits, now, e, plain::PacketView::Pubcomp(id));
            &&& carries_on(b, limits, now, e, id, OutboundAck::Pubcomp, next, step)
            &&& step matches StepView::Deliver { received, .. } ==> complete_outbound(
                b,
                limits,
                now,
                key,
                generation,
                id,
                OutboundAck::Pubcomp,
            ).1 == Ok::<bool, Error>(received)
        }),
        ({
            let (next, step) = v5::packet_step(
                b,
                limits,
                now,
                e,
                modern::PacketView::Puback { packet_id: id, reason },
            );
            &&& carries_on(b, limits, now, e, id, OutboundAck::Puback, next, step)
            &&& step matches StepView::Deliver { received, .. } ==> received
        }),
        ({
            let (next, step) = v5::packet_step(
                b,
                limits,
                now,
                e,
                modern::PacketView::Pubcomp { packet_id: id, reason },
            );
            &&& carries_on(b, limits, now, e, id, OutboundAck::Pubcomp, next, step)
            &&& step matches StepView::Deliver { received, .. } ==> !received
        }),
{
    reveal(v311::packet_step);
    reveal(v5::packet_step);
}

/// The first answer to a message that is delivered exactly once leads to its release. Over the
/// newer protocol the client may refuse the message instead, which ends the exchange, and is told
/// so if it answers something that is not under way.
pub proof fn law_first_answer_leads_on(
    b: BrokerView,
    limits: Limits,
    now: i64,
    e: EndpointView,
    id: u16,
    reason: u8,
)
    ensures
        ({
            let (next, step) = v311::packet_step(b, limits, now, e, plain::PacketView::Pubrec(id));
            let (done, outcome) = receive_pubrec(
                b,
                limits,
                e.attachment.key,
                e.attachment.generation,
                id,
            );
            &&& next == done
            &&& match outcome {
                Err(_) => step is Fail,
                Ok(release) => step == (StepView::Deliver {
                    frame: Some(release),
                    received: false,
                    more: false,
                }),
            }
        }),
        ({
            let (next, step) = v5::packet_step(
                b,
                limits,
                now,
                e,
                modern::PacketView::Pubrec { packet_id: id, reason },
            );
            let key = e.attachment.key;
            let generation = e.attachment.generation;
            let fits = limits.max_mqtt_packet_size >= 6 && e.wire.maximum >= 6;
            let unknown = framed(0x62, short(id as nat) + seq![0x92u8, 0u8]);
            if reason < 0x80 {
                let (done, outcome) = receive_pubrec(b, limits, key, generation, id);
                &&& next == done
                &&& match outcome {
                    Err(Error::Invalid) => if fits {
                        step == (StepView::Send { bytes: unknown })
                    } else {
                        step is Fail
                    },
                    Err(_) => step is Fail,
                    Ok(release) => step == (StepView::Deliver {
                        frame: Some(release),
                        received: false,
                        more: true,
                    }),
                }
            } else {
                let (done, outcome) = reject_pubrec(b, limits, now, key, generation, id);
                let (pulled, frame) = pull(done, limits, now, key, generation);
                match outcome {
                    Err(Error::Invalid) => {
                        &&& next == done
                        &&& if fits {
                            step == (StepView::Send { bytes: unknown })
                        } else {
                            step is Fail
                        }
                    },
                    Err(_) => next == done && step is Fail,
                    Ok(_) => {
                        &&& next == pulled
                        &&& match frame {
                            Err(_) => step is Fail,
                            Ok(due) => step == (StepView::Deliver {
                                frame: due,
                                received: false,
                                more: false,
                            }),
                        }
                    },
                }
            }
        }),
{
    reveal(v311::packet_step);
    reveal(v5::packet_step);
    let body = short(id as nat) + seq![0x92u8, 0u8];
    lemma_short(id, Seq::empty());
    law_packets_are_framed(0x62, body);
    assert(body.len() == 4);
    assert(framed(0x62, body).len() == 6);
    lemma_small_fits(0x62, body, limits.max_mqtt_packet_size as nat);
}

proof fn lemma_small_fits(first: u8, body: Seq<u8>, maximum: nat)
    requires
        body.len() < 128,
    ensures
        packet_fits(body.len(), maximum) <==> body.len() + 2 <= maximum,
{
    law_packets_are_framed(first, body);
}

/// The release of a message that is delivered exactly once hands it on as it was taken, unless it
/// only clears a retained message, which is routed at once; a release of something that is not
/// held is answered with its completion, and one of something that is being handed on is not
/// answered yet.
pub proof fn law_release_hands_the_message_on(
    b: BrokerView,
    limits: Limits,
    now: i64,
    e: EndpointView,
    id: u16,
)
    ensures
        ({
            let (next, step) = v311::packet_step(b, limits, now, e, plain::PacketView::Pubrel(id));
            let (begun, action) = begin_delivery(
                b,
                e.attachment.key,
                e.attachment.generation,
                id,
            );
            match action {
                Err(_) => step is Fail && next == begun,
                Ok(ActionView::Unknown) => {
                    &&& next == begun
                    &&& step == (StepView::Send { bytes: framed(0x70, short(id as nat)) })
                },
                Ok(ActionView::DeliveryInProgress) => next == begun && step is Idle,
                Ok(ActionView::EventAccepted { session_incarnation, operation_id }) => {
                    let (routed, outcome) = route_inbound(
                        begun,
                        limits,
                        now,
                        e.attachment.key,
                        session_incarnation,
                        id,
                        operation_id,
                        e.device.tenant,
                    );
                    &&& next == routed
                    &&& outcome is Err ==> step is Fail
                    &&& outcome is Ok ==> step == (StepView::Send {
                        bytes: framed(0x70, short(id as nat)),
                    })
                },
                Ok(ActionView::Deliver { message, session_incarnation, operation_id }) => {
                    let clears = message.retain && message.payload.len() == 0;
                    match publish_acl_spec(e.device, e.permissions, message.topic) {
                        Err(_) => step is Fail,
                        Ok(kind) => !clears ==> next == begun && step == (StepView::Ingest {
                            message,
                            command_ack: kind == TopicKind::DownAck,
                            pending: Pending::Release {
                                session_incarnation,
                                packet_id: id,
                                operation_id,
                            },
                        }),
                    }
                },
            }
        }),
{
    reveal(v311::packet_step);
    lemma_short(id, Seq::empty());
    law_packets_are_framed(0x70, short(id as nat));
}

/// The same for the newer protocol, which also says that nothing was held.
pub proof fn law_v5_release_hands_the_message_on(
    b: BrokerView,
    limits: Limits,
    now: i64,
    e: EndpointView,
    id: u16,
    reason: u8,
)
    requires
        limits.max_mqtt_packet_size >= 6,
        e.wire.maximum >= 6,
    ensures
        ({
            let (next, step) = v5::packet_step(
                b,
                limits,
                now,
                e,
                modern::PacketView::Pubrel { packet_id: id, reason },
            );
            let (begun, action) = begin_delivery(
                b,
                e.attachment.key,
                e.attachment.generation,
                id,
            );
            match action {
                Err(_) => step is Fail && next == begun,
                Ok(ActionView::Unknown) => {
                    &&& next == begun
                    &&& step == (StepView::Settle {
                        bytes: framed(0x70, short(id as nat) + seq![0x92u8, 0u8]),
                        packet_id: id,
                    })
                },
                Ok(ActionView::DeliveryInProgress) => next == begun && step is Idle,
                Ok(ActionView::EventAccepted { session_incarnation, operation_id }) => {
                    let (routed, outcome) = route_inbound(
                        begun,
                        limits,
                        now,
                        e.attachment.key,
                        session_incarnation,
                        id,
                        operation_id,
                        e.device.tenant,
                    );
                    &&& next == routed
                    &&& outcome is Err ==> step is Fail
                    &&& outcome is Ok ==> step == (StepView::Settle {
                        bytes: framed(0x70, short(id as nat)),
                        packet_id: id,
                    })
                },
                Ok(ActionView::Deliver { message, session_incarnation, operation_id }) => {
                    let clears = message.retain && message.payload.len() == 0;
                    match publish_acl_spec(e.device, e.permissions, message.topic) {
                        Err(_) => step is Fail,
                        Ok(kind) => !clears ==> next == begun && step == (StepView::Ingest {
                            message,
                            command_ack: kind == TopicKind::DownAck,
                            pending: Pending::Release {
                                session_incarnation,
                                packet_id: id,
                                operation_id,
                            },
                        }),
                    }
                },
            }
        }),
{
    reveal(v5::packet_step);
    let body = short(id as nat) + seq![0x92u8, 0u8];
    lemma_short(id, Seq::empty());
    law_packets_are_framed(0x70, body);
    law_packets_are_framed(0x70, short(id as nat));
    assert(framed(0x70, body).len() == 6);
    assert(framed(0x70, short(id as nat)).len() == 4);
    lemma_small_fits(0x70, body, limits.max_mqtt_packet_size as nat);
    lemma_small_fits(0x70, short(id as nat), limits.max_mqtt_packet_size as nat);
}

/// A message that is held already may be sent again whatever the device may do by now; any other
/// has to be one that the device may publish.
pub proof fn law_only_the_new_needs_permission(
    b: BrokerView,
    device: DeviceView,
    permissions: Permissions,
    key: KeyView,
    generation: u64,
    id: u16,
    topic: Seq<char>,
)
    ensures
        ({
            let known = classify(b, key, generation, id);
            let outcome = authorized(b, device, permissions, key, generation, id, topic);
            let allowed = publish_acl_spec(device, permissions, topic) is Ok;
            match known {
                Err(error) => outcome == Err::<InboundQos2PublishState, Error>(error),
                Ok(InboundQos2PublishState::ExistingTransaction) => outcome == known,
                Ok(_) => if allowed {
                    outcome == known
                } else {
                    outcome is Err
                },
            }
        }),
{
}

} // verus!
