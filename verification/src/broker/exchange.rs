//! How the exchanges of a session go on: what an answer of the client ends, what is sent next, and
//! what a command needs.
use super::carry::holder;
use super::inbound::{carried_on, held_inbound, retransmission, route_inbound, with_inbound};
use super::model::{
    active_at, advance, frame_fits, inflight, lemma_put_session, link_at, link_is, message_due,
    next_unsent, owns, promote, put_session, reserved, session_at, touch_session, unmark,
    wake_session, BrokerView, FrameView,
};
use super::outbound::{
    complete_outbound, follows, receive_pubrec, reject_pubrec, send_command, without_exchange,
    OutboundAck,
};
use super::replay::{begun, handed, law_message_is_handed_over, lemma_same_places};
use super::retain::{law_routed_message_is_retained_if_it_says_so, retains_last};
use super::route::route_message;
use super::tidy::{lemma_positions, topic_of};
use super::turnover::held;
use crate::error::Error;
use crate::identity::KeyView;
use crate::limits::Limits;
use crate::list::{distinct, first, is_first, lemma_first, lemma_first_is};
use crate::message::{charge_of, expired_spec, MessageView};
use crate::session::{
    inbound_is, inbound_key, is_unsent, law_free_id_is_unused, next_free, no_reservation,
    outbound_at, outbound_capacity, outbound_is, outbound_key, promoted, send_quota_left,
    InboundStage, InboundView, OutboundStage, OutboundView, SessionView,
};
use super::service::received;
use vstd::prelude::*;

verus! {

/// An identifier finds its exchange.
proof fn lemma_found(s: SessionView, k: int)
    requires
        0 <= k < s.outbound.len(),
        distinct(s.outbound, outbound_key()),
    ensures
        outbound_at(s, s.outbound[k].packet_id) == Some(k),
{
    let id = s.outbound[k].packet_id;
    assert forall|m: int| 0 <= m < k implies !outbound_is(id)(#[trigger] s.outbound[m]) by {
        assert(outbound_key()(s.outbound[m]) != outbound_key()(s.outbound[k]));
    }
    assert(is_first(s.outbound, outbound_is(id), k));
    lemma_first_is(s.outbound, outbound_is(id), k);
}

/// A session has become another, and nothing else of the broker that a client sees has changed.
pub open spec fn only_changed(
    b: BrokerView,
    next: BrokerView,
    key: KeyView,
    s: SessionView,
) -> bool {
    &&& held(next, key) == Some(s)
    &&& forall|other: KeyView| other != key ==> #[trigger] held(next, other) == held(b, other)
    &&& next.links == b.links
    &&& next.trie == b.trie
    &&& next.retained == b.retained
}

proof fn lemma_only_changed(b: BrokerView, limits: Limits, key: KeyView, s: SessionView)
    requires
        held(b, key) is Some,
        s.key == key,
    ensures
        only_changed(b, put_session(b, limits, session_at(b, key)->0, s), key, s),
{
    let i = session_at(b, key)->0;
    lemma_positions(b, key);
    lemma_put_session(b, limits, i, s);
    lemma_same_places(b, put_session(b, limits, i, s), i, key);
}

/// The answer that an exchange waits for ends it, and no other; then those who waited for room go
/// on. Any other answer is refused and changes nothing.
pub proof fn law_acknowledgement_ends_its_exchange(
    b: BrokerView,
    limits: Limits,
    now: i64,
    key: KeyView,
    generation: u64,
    k: int,
    ack: OutboundAck,
)
    requires
        owns(b, key, generation),
        held(b, key) matches Some(s) && distinct(s.outbound, outbound_key()) && 0 <= k
            < s.outbound.len(),
    ensures
        ({
            let s = held(b, key)->0;
            let e = s.outbound[k];
            let expected = match ack {
                OutboundAck::Puback => e.stage == OutboundStage::Puback,
                OutboundAck::Pubcomp => e.stage == OutboundStage::Pubcomp,
            };
            let ended = without_exchange(b, limits, session_at(b, key)->0, k);
            let (last, stopped) = carried_on(ended, limits, now);
            &&& only_changed(
                b,
                ended,
                key,
                SessionView { outbound: s.outbound.remove(k), ..s },
            )
            &&& complete_outbound(b, limits, now, key, generation, e.packet_id, ack) == if expected {
                (
                    last,
                    match stopped {
                        Some(error) => Err(error),
                        None => Ok(e.command),
                    },
                )
            } else {
                (b, Err::<bool, Error>(Error::Invalid))
            }
        }),
{
    reveal(complete_outbound);
    let s = held(b, key)->0;
    lemma_positions(b, key);
    lemma_found(s, k);
    lemma_only_changed(b, limits, key, SessionView { outbound: s.outbound.remove(k), ..s });
}

/// The first answer to a message that is delivered exactly once makes it the client's, and is
/// answered with a release of the same identifier; the same answer again changes nothing and is
/// answered with the release again. It is refused for a message that is delivered at least once.
pub proof fn law_receipt_is_answered_with_a_release(
    b: BrokerView,
    limits: Limits,
    key: KeyView,
    generation: u64,
    k: int,
)
    requires
        owns(b, key, generation),
        held(b, key) matches Some(s) && distinct(s.outbound, outbound_key()) && 0 <= k
            < s.outbound.len(),
    ensures
        ({
            let s = held(b, key)->0;
            let e = s.outbound[k];
            let (next, outcome) = receive_pubrec(b, limits, key, generation, e.packet_id);
            match e.stage {
                OutboundStage::Puback => next == b && outcome is Err,
                OutboundStage::Pubrec => {
                    &&& outcome == Ok::<FrameView, Error>(
                        FrameView::Pubrel { packet_id: e.packet_id, dup: false },
                    )
                    &&& only_changed(
                        b,
                        next,
                        key,
                        SessionView {
                            outbound: s.outbound.update(
                                k,
                                OutboundView {
                                    stage: OutboundStage::Pubcomp,
                                    started: true,
                                    ..e
                                },
                            ),
                            ..s
                        },
                    )
                },
                OutboundStage::Pubcomp => {
                    &&& outcome == Ok::<FrameView, Error>(
                        FrameView::Pubrel { packet_id: e.packet_id, dup: true },
                    )
                    &&& only_changed(b, next, key, s)
                },
            }
        }),
{
    reveal(receive_pubrec);
    let s = held(b, key)->0;
    let e = s.outbound[k];
    lemma_positions(b, key);
    lemma_found(s, k);
    lemma_only_changed(
        b,
        limits,
        key,
        SessionView {
            outbound: s.outbound.update(
                k,
                OutboundView { stage: OutboundStage::Pubcomp, started: true, ..e },
            ),
            ..s
        },
    );
    assert(s.outbound.update(k, e) =~= s.outbound);
    lemma_only_changed(b, limits, key, SessionView { outbound: s.outbound.update(k, e), ..s });
}

/// An answer to something that is not under way is refused and changes nothing.
pub proof fn law_unknown_answer_changes_nothing(
    b: BrokerView,
    limits: Limits,
    now: i64,
    key: KeyView,
    generation: u64,
    id: u16,
    ack: OutboundAck,
)
    requires
        held(b, key) matches Some(s) && forall|k: int|
            0 <= k < s.outbound.len() ==> (#[trigger] s.outbound[k]).packet_id != id,
    ensures
        ({
            let error = if owns(b, key, generation) {
                Error::Invalid
            } else {
                Error::Conflict
            };
            &&& complete_outbound(b, limits, now, key, generation, id, ack) == (
                b,
                Err::<bool, Error>(error),
            )
            &&& receive_pubrec(b, limits, key, generation, id) == (
                b,
                Err::<FrameView, Error>(error),
            )
            &&& reject_pubrec(b, limits, now, key, generation, id) == (
                b,
                Err::<bool, Error>(error),
            )
        }),
{
    reveal(complete_outbound);
    reveal(receive_pubrec);
    reveal(reject_pubrec);
    let s = held(b, key)->0;
    lemma_first(s.outbound, outbound_is(id));
    if let Some(k) = outbound_at(s, id) {
        assert(s.outbound[k].packet_id == id);
    }
}

/// What a connection is handed next: first the exchanges that it has not been handed, in their
/// order, marked as sent again; then the first message that waits, as a new exchange. A message
/// needs room, in bytes and in what the client takes unanswered; a release needs none.
pub proof fn law_next_frame_is_the_first_due(b: BrokerView, limits: Limits, i: int, j: int)
    requires
        0 <= i < b.sessions.len(),
        0 <= j < b.links.len(),
    ensures
        ({
            let s = b.sessions[i];
            let (next, outcome) = advance(b, limits, i, j);
            match first(s.outbound, |e: OutboundView| !e.sent) {
                Some(k) => {
                    let e = s.outbound[k];
                    let s2 = next.sessions[i];
                    if e.stage == OutboundStage::Pubcomp {
                        &&& outcome == Ok::<Option<FrameView>, Error>(
                            Some(FrameView::Pubrel { packet_id: e.packet_id, dup: true }),
                        )
                        &&& s2 == (SessionView {
                            outbound: s.outbound.update(k, OutboundView { sent: true, ..e }),
                            ..s
                        })
                        &&& next.links == b.links
                    } else if send_quota_left(s) && frame_fits(b, limits, j, charge_of(e.message)) {
                        &&& outcome == Ok::<Option<FrameView>, Error>(
                            Some(
                                FrameView::Publish {
                                    message: e.message,
                                    packet_id: Some(e.packet_id),
                                    dup: true,
                                    command: e.command,
                                },
                            ),
                        )
                        &&& s2 == (SessionView {
                            outbound: s.outbound.update(
                                k,
                                OutboundView { sent: true, windowed: true, ..e },
                            ),
                            ..s
                        })
                    } else {
                        outcome == Ok::<Option<FrameView>, Error>(None) && next == b
                    }
                },
                None => if s.offline.len() > 0 && frame_fits(
                    b,
                    limits,
                    j,
                    charge_of(s.offline[0]),
                ) && outbound_capacity(s, s.offline[0].qos, limits) && send_quota_left(s) {
                    &&& outcome != Ok::<Option<FrameView>, Error>(None)
                    &&& outcome matches Ok(Some(frame)) ==> {
                        let s2 = next.sessions[i];
                        let e = s2.outbound.last();
                        &&& frame == (FrameView::Publish {
                            message: s.offline[0],
                            packet_id: Some(e.packet_id),
                            dup: false,
                            command: false,
                        })
                        &&& begun(e, s.offline[0], false)
                        &&& s.next_packet_id != 0 ==> e.packet_id != 0 && forall|k: int|
                            0 <= k < s.outbound.len() ==> (#[trigger] s.outbound[k]).packet_id
                                != e.packet_id
                        &&& s2.offline == s.offline.remove(0)
                        &&& s2.outbound == s.outbound.push(e)
                        &&& s2.subscriptions == s.subscriptions
                        &&& s2.inbound == s.inbound
                    }
                } else {
                    outcome == Ok::<Option<FrameView>, Error>(None) && next == b
                },
            }
        }),
{
    let s = b.sessions[i];
    reveal(next_unsent);
    reveal(promote);
    assert((|e: OutboundView| !e.sent) =~= is_unsent());
    lemma_first(s.outbound, is_unsent());
    if let Some(id) = next_free(s) {
        if s.next_packet_id != 0 {
            law_free_id_is_unused(s.outbound, s.next_packet_id, u16::MAX as nat);
        }
        if s.offline.len() > 0 {
            lemma_put_session(
                reserved(b, j, charge_of(s.offline[0])),
                limits,
                i,
                promoted(s, id),
            );
        }
    }
}

/// A command is handed to the client at once or not at all: it needs the connection that holds the
/// session, a subscription to its topic, time left, and room for it; and what is handed over is
/// the command itself.
pub proof fn law_command_is_handed_over_or_refused(
    b: BrokerView,
    limits: Limits,
    now: i64,
    key: KeyView,
    generation: u64,
    message: MessageView,
)
    ensures
        ({
            let (next, outcome) = send_command(b, limits, now, key, generation, message);
            outcome is Ok ==> {
                &&& owns(b, key, generation)
                &&& !expired_spec(message, now)
                &&& held(b, key) matches Some(s) && held(next, key) matches Some(s2) && {
                    &&& follows(s, message.topic)
                    &&& handed(message, true, s, holder(b, key), s2, holder(next, key))
                }
                &&& forall|other: KeyView|
                    other != key ==> #[trigger] held(next, other) == held(b, other) && holder(
                        next,
                        other,
                    ) == holder(b, other)
            }
        }),
{
    reveal(send_command);
    lemma_positions(b, key);
    if !expired_spec(message, now) {
        law_message_is_handed_over(b, limits, now, key, message, true);
    }
}

/// A message that is delivered exactly once is routed as it was taken, once the application has it,
/// and becomes the retained one of its topic if it says so.
pub proof fn law_released_message_is_routed_as_taken(
    b: BrokerView,
    limits: Limits,
    now: i64,
    key: KeyView,
    incarnation: u64,
    id: u16,
    operation: u64,
    tenant: Seq<char>,
) -> (tried: BrokerView)
    requires
        distinct(b.retained, topic_of()),
    ensures
        route_inbound(b, limits, now, key, incarnation, id, operation, tenant).1 is Ok ==> (
        held_inbound(b, key, id) matches Some((i, k)) && {
            let e = b.sessions[i].inbound[k];
            let (routed, reached) = route_message(
                tried,
                limits,
                now,
                tenant,
                Some(key),
                e.message,
            );
            &&& e.stage == InboundStage::EventAccepted
            &&& e.operation_id == Some(operation)
            &&& b.sessions[i].incarnation == incarnation
            &&& tried.links == b.links
            &&& tried.trie == b.trie
            &&& tried.retained == b.retained
            &&& reached == route_inbound(b, limits, now, key, incarnation, id, operation, tenant).1
            &&& if e.message.retain && !expired_spec(e.message, now) {
                retains_last(b.retained, routed.retained, tenant, Some(key), e.message)
            } else {
                routed.retained == b.retained
            }
        }),
{
    reveal(route_inbound);
    match held_inbound(b, key, id) {
        Some((i, k)) => {
            let s = b.sessions[i];
            let e = s.inbound[k];
            let tried = touch_session(
                b,
                i,
                with_inbound(
                    s,
                    k,
                    InboundView {
                        reservation: no_reservation(),
                        ..e
                    },
                ),
            );
            law_routed_message_is_retained_if_it_says_so(
                tried,
                limits,
                now,
                tenant,
                Some(key),
                e.message,
            );
            tried
        },
        None => b,
    }
}

/// A session that waits for room and finds it is handed its next frame: the last that its
/// connection holds is what was due first.
pub proof fn law_woken_session_is_handed_its_next_frame(
    b: BrokerView,
    limits: Limits,
    now: i64,
    key: KeyView,
    gate: u8,
)
    requires
        held(b, key) is Some,
        active_at(b, key) is Some,
        !message_due(unmark(b, key), key, now),
        ({
            let s = held(b, key)->0;
            let waits_for = match first(s.outbound, |e: OutboundView| !e.sent) {
                Some(k) => Some(
                    if s.outbound[k].stage == OutboundStage::Puback {
                        1u8
                    } else {
                        2u8
                    },
                ),
                None => if s.offline.len() > 0 {
                    Some(s.offline[0].qos)
                } else {
                    None
                },
            };
            &&& waits_for == Some(gate)
            &&& holder(b, key)->0.open
            &&& holder(b, key)->0.queue.len() < limits.max_outbound_messages_per_connection
            &&& inflight(b, key.device.tenant, gate) < if gate == 1 {
                limits.max_inflight_qos1_per_tenant
            } else {
                limits.max_inflight_qos2_per_tenant
            }
        }),
    ensures
        ({
            let i = session_at(b, key)->0;
            let j = active_at(b, key)->0;
            let (stepped, outcome) = advance(unmark(b, key), limits, i, j);
            let (next, failed) = wake_session(b, limits, now, key, Some(gate));
            &&& outcome matches Ok(Some(frame)) ==> {
                &&& failed is None
                &&& next.links[j].queue == b.links[j].queue.push(frame)
                &&& next.sessions == stepped.sessions
            }
            &&& outcome matches Err(error) ==> failed == Some(error)
        }),
{
    reveal(wake_session);
    lemma_positions(b, key);
    let s = held(b, key)->0;
    let i = session_at(b, key)->0;
    let j = active_at(b, key)->0;
    assert((|e: OutboundView| !e.sent) =~= is_unsent());
    let b1 = unmark(b, key);
    assert(session_at(b1, key) == Some(i) && active_at(b1, key) == Some(j));
    assert(inflight(b1, key.device.tenant, gate) == inflight(b, key.device.tenant, gate));
    reveal(next_unsent);
    reveal(promote);
    if s.offline.len() > 0 {
        if let Some(id) = next_free(s) {
            lemma_put_session(
                reserved(b1, j, charge_of(s.offline[0])),
                limits,
                i,
                promoted(s, id),
            );
        }
    }
}

/// A message that is sent again over a new connection takes its place in the window once, if there
/// is one left; nothing else changes.
pub proof fn law_message_sent_again_takes_its_place_once(
    b: BrokerView,
    limits: Limits,
    key: KeyView,
    generation: u64,
    k: int,
)
    requires
        owns(b, key, generation),
        held(b, key) matches Some(s) && distinct(s.inbound, inbound_key()) && 0 <= k
            < s.inbound.len(),
    ensures
        ({
            let s = held(b, key)->0;
            let e = s.inbound[k];
            let (next, outcome) = retransmission(b, limits, key, generation, e.packet_id);
            let taken = s.inbound_window.contains(e.packet_id);
            let room = s.inbound_window.len() < limits.max_inflight_qos1_per_session
                && s.inbound_window.len() < limits.max_inflight_qos2_per_session;
            if e.stage != InboundStage::AwaitPubrel {
                outcome is Err && next == b
            } else {
                &&& outcome == Ok::<bool, Error>(taken || room)
                &&& taken || !room ==> next == b
                &&& !taken && room ==> only_changed(
                    b,
                    next,
                    key,
                    SessionView { inbound_window: s.inbound_window.insert(e.packet_id), ..s },
                )
            }
        }),
{
    let s = held(b, key)->0;
    let e = s.inbound[k];
    lemma_positions(b, key);
    let i = session_at(b, key)->0;
    let p = inbound_is(e.packet_id);
    assert forall|m: int| 0 <= m < k implies !p(#[trigger] s.inbound[m]) by {
        assert(inbound_key()(s.inbound[m]) != inbound_key()(s.inbound[k]));
    }
    assert(is_first(s.inbound, p, k));
    lemma_first_is(s.inbound, p, k);
    let s2 = SessionView { inbound_window: s.inbound_window.insert(e.packet_id), ..s };
    lemma_same_places(b, touch_session(b, i, s2), i, key);
}

/// A connection takes its frames in the order in which they were queued, each once, and what it
/// took stays counted until it is written.
pub proof fn law_frames_are_taken_in_order(b: BrokerView, receiver: u64)
    ensures
        ({
            let (next, frame) = received(b, receiver);
            match link_at(b, receiver) {
                Some(j) => {
                    let l = b.links[j];
                    if l.queue.len() == 0 {
                        frame is None && next == b
                    } else {
                        &&& frame == Some(l.queue[0])
                        &&& next.links[j].queue == l.queue.skip(1)
                        &&& next.links[j].used == l.used
                        &&& next.links[j].open == l.open
                        &&& next.links[j].active == l.active
                        &&& next.sessions == b.sessions
                    }
                },
                None => frame is None && next == b,
            }
        }),
{
    lemma_first(b.links, link_is(receiver));
    if let Some(j) = link_at(b, receiver) {
        let l = b.links[j];
        if l.queue.len() > 0 {
            assert(l.queue.remove(0) =~= l.queue.skip(1));
        }
    }
}

} // verus!
