//! Messages sent to clients: acknowledgements, transfers and live commands.
use super::deliver::step_of;
use super::inbound::carried_on;
use super::model::{
    active_at, drive, enqueue, frame_fits, has_room, inflight, mark, message_due, next_unsent, owns,
    promote, prune_session, put_session, session_at, tenant_limit, BrokerView, FrameView,
};
use super::state::{lemma_session_ok, BrokerDelivery, BrokerFrame, MqttBroker};
use super::wills::retried;
use crate::error::Error;
use crate::identity::{KeyView, SessionKey};
use crate::limits::Limits;
use crate::message::{charge_of, expired_spec, BrokerMessage, MessageView};
use crate::session::{
    outbound_at, outbound_capacity, send_quota_left, unsent_qos, OutboundStage, OutboundView,
    SessionView,
};
use crate::topics::{matches_spec, topic_matches};
use vstd::prelude::*;

verus! {

/// Which acknowledgement ends an exchange.
#[derive(Clone, Copy, Debug, PartialEq, Eq, Structural)]
pub enum OutboundAck {
    Puback,
    Pubcomp,
}

pub open spec fn awaited(ack: OutboundAck) -> OutboundStage {
    match ack {
        OutboundAck::Puback => OutboundStage::Puback,
        OutboundAck::Pubcomp => OutboundStage::Pubcomp,
    }
}

/// The broker without an exchange.
pub open spec fn without_exchange(b: BrokerView, limits: Limits, i: int, k: int) -> BrokerView {
    let s = b.sessions[i];
    put_session(b, limits, i, SessionView { outbound: s.outbound.remove(k), ..s })
}

pub open spec fn with_exchange(b: BrokerView, limits: Limits, i: int, k: int, e: OutboundView) -> BrokerView {
    let s = b.sessions[i];
    put_session(b, limits, i, SessionView { outbound: s.outbound.update(k, e), ..s })
}

/// An exchange completed by its acknowledgement. Tells whether it was a command. Any other
/// acknowledgement changes nothing.
#[verifier::opaque]
pub open spec fn complete_outbound(
    b: BrokerView,
    limits: Limits,
    now: i64,
    key: KeyView,
    generation: u64,
    id: u16,
    ack: OutboundAck,
) -> (BrokerView, Result<bool, Error>) {
    if !owns(b, key, generation) {
        (b, Err(Error::Conflict))
    } else {
        match session_at(b, key) {
            None => (b, Err(Error::Internal)),
            Some(i) => {
                let s = b.sessions[i];
                match outbound_at(s, id) {
                    None => (b, Err(Error::Invalid)),
                    Some(k) => if s.outbound[k].stage != awaited(ack) {
                        (b, Err(Error::Invalid))
                    } else {
                        match carried_on(without_exchange(b, limits, i, k), limits, now) {
                            (next, Some(error)) => (next, Err(error)),
                            (next, None) => (next, Ok(s.outbound[k].command)),
                        }
                    },
                }
            },
        }
    }
}

/// The first acknowledgement of an exchange of two: the message is the client's from here on.
#[verifier::opaque]
pub open spec fn receive_pubrec(
    b: BrokerView,
    limits: Limits,
    key: KeyView,
    generation: u64,
    id: u16,
) -> (BrokerView, Result<FrameView, Error>) {
    if !owns(b, key, generation) {
        (b, Err(Error::Conflict))
    } else {
        match session_at(b, key) {
            None => (b, Err(Error::Internal)),
            Some(i) => {
                let s = b.sessions[i];
                match outbound_at(s, id) {
                    None => (b, Err(Error::Invalid)),
                    Some(k) => {
                        let e = s.outbound[k];
                        match e.stage {
                            OutboundStage::Pubrec => (
                                with_exchange(
                                    b,
                                    limits,
                                    i,
                                    k,
                                    OutboundView {
                                        stage: OutboundStage::Pubcomp,
                                        started: true,
                                        ..e
                                    },
                                ),
                                Ok(FrameView::Pubrel { packet_id: id, dup: false }),
                            ),
                            OutboundStage::Pubcomp => (
                                with_exchange(b, limits, i, k, e),
                                Ok(FrameView::Pubrel { packet_id: id, dup: true }),
                            ),
                            OutboundStage::Puback => (b, Err(Error::Conflict)),
                        }
                    },
                }
            },
        }
    }
}

/// The client refuses a message: its exchange ends. Tells whether it was a command.
#[verifier::opaque]
pub open spec fn reject_pubrec(
    b: BrokerView,
    limits: Limits,
    now: i64,
    key: KeyView,
    generation: u64,
    id: u16,
) -> (BrokerView, Result<bool, Error>) {
    if !owns(b, key, generation) {
        (b, Err(Error::Conflict))
    } else {
        match session_at(b, key) {
            None => (b, Err(Error::Internal)),
            Some(i) => {
                let s = b.sessions[i];
                match outbound_at(s, id) {
                    None => (b, Err(Error::Invalid)),
                    Some(k) => if s.outbound[k].stage != OutboundStage::Pubrec {
                        (b, Err(Error::Conflict))
                    } else {
                        match drive(without_exchange(b, limits, i, k), limits, now) {
                            (next, Some(error)) => (next, Err(error)),
                            (next, None) => (next, Ok(s.outbound[k].command)),
                        }
                    },
                }
            },
        }
    }
}

/// The position of the exchange that a frame belongs to, if it still waits for the first
/// acknowledgement of this very message.
pub open spec fn frame_exchange(s: SessionView, id: u16, message: MessageView) -> Option<int> {
    match outbound_at(s, id) {
        Some(k) => if s.outbound[k].stage != OutboundStage::Pubcomp && s.outbound[k].message
            == message {
            Some(k)
        } else {
            None
        },
        None => None,
    }
}

/// A queued message about to be written for the first time. An expired one whose transfer has
/// not begun is given up instead.
#[verifier::opaque]
pub open spec fn begin_transfer(
    b: BrokerView,
    limits: Limits,
    now: i64,
    key: KeyView,
    generation: u64,
    id: Option<u16>,
    message: MessageView,
) -> (BrokerView, Result<bool, Error>) {
    match id {
        None => (b, Err(Error::Invalid)),
        Some(id) => if !owns(b, key, generation) {
            (b, Err(Error::Conflict))
        } else {
            match session_at(b, key) {
                None => (b, Err(Error::Internal)),
                Some(i) => {
                    let s = b.sessions[i];
                    match frame_exchange(s, id, message) {
                        None => (b, Ok(false)),
                        Some(k) => if expired_spec(message, now) && !s.outbound[k].started {
                            match drive(without_exchange(b, limits, i, k), limits, now) {
                                (next, Some(error)) => (next, Err(error)),
                                (next, None) => (next, Ok(false)),
                            }
                        } else {
                            (
                                with_exchange(
                                    b,
                                    limits,
                                    i,
                                    k,
                                    OutboundView { started: true, ..s.outbound[k] },
                                ),
                                Ok(true),
                            )
                        },
                    }
                },
            }
        },
    }
}

/// A message that the client's packet size cannot carry, given up.
#[verifier::opaque]
pub open spec fn discard(
    b: BrokerView,
    limits: Limits,
    now: i64,
    key: KeyView,
    generation: u64,
    id: Option<u16>,
    message: MessageView,
) -> (BrokerView, Result<bool, Error>) {
    match id {
        None => (b, Err(Error::Invalid)),
        Some(id) => if !owns(b, key, generation) {
            (b, Err(Error::Conflict))
        } else {
            match session_at(b, key) {
                None => (b, Err(Error::Internal)),
                Some(i) => match frame_exchange(b.sessions[i], id, message) {
                    None => (b, Ok(false)),
                    Some(k) => match carried_on(without_exchange(b, limits, i, k), limits, now) {
                        (next, Some(error)) => (next, Err(error)),
                        (next, None) => (next, Ok(true)),
                    },
                },
            }
        },
    }
}

/// Some filter of the session matches the topic.
pub open spec fn follows(s: SessionView, topic: Seq<char>) -> bool {
    exists|i: int| 0 <= i < s.subscriptions.len() && matches_spec(
        (#[trigger] s.subscriptions[i]).0,
        topic,
    )
}

/// A command for a connected subscriber, handed over at once or not at all.
#[verifier::opaque]
pub open spec fn send_command(
    b: BrokerView,
    limits: Limits,
    now: i64,
    key: KeyView,
    generation: u64,
    message: MessageView,
) -> (BrokerView, Result<(), Error>) {
    let tenant = key.device.tenant;
    let charge = charge_of(message);
    if !owns(b, key, generation) {
        (b, Err(Error::Unavailable))
    } else {
        let j = active_at(b, key)->0;
        match session_at(b, key) {
            None => (b, Err(Error::Unavailable)),
            Some(i) => {
                let s = b.sessions[i];
                if !follows(s, message.topic) || expired_spec(message, now) {
                    (b, Err(Error::Unavailable))
                } else if !has_room(b.links[j], limits) || charge
                    > limits.max_outbound_bytes_per_connection || !frame_fits(
                    b,
                    limits,
                    j,
                    charge,
                ) {
                    (b, Err(Error::Overloaded))
                } else if message.qos > 0 && (inflight(b, tenant, message.qos) >= tenant_limit(
                    limits,
                    message.qos,
                ) || !outbound_capacity(s, message.qos, limits) || !send_quota_left(s)) {
                    (b, Err(Error::Overloaded))
                } else {
                    enqueue(b, limits, now, key, message, true)
                }
            },
        }
    }
}

/// The next frame for a connection that asks for one.
#[verifier::opaque]
pub open spec fn pull_next(b: BrokerView, limits: Limits, now: i64, key: KeyView) -> (
    BrokerView,
    Result<Option<FrameView>, Error>,
) {
    match (session_at(b, key), active_at(b, key)) {
        (Some(i), Some(j)) => {
            let s = b.sessions[i];
            if unsent_qos(s) is Some {
                let (next, frame) = next_unsent(b, limits, i, j);
                (mark(next, key), Ok(frame))
            } else if s.offline.len() > 0 && inflight(b, key.device.tenant, s.offline[0].qos)
                >= tenant_limit(limits, s.offline[0].qos) {
                (mark(b, key), Ok(None))
            } else {
                match promote(b, limits, i, j) {
                    (next, Err(error)) => (next, Err(error)),
                    (next, Ok(frame)) => (retried(mark(next, key), limits, now), Ok(frame)),
                }
            }
        },
        _ => (b, Err(Error::Unavailable)),
    }
}

#[verifier::opaque]
pub open spec fn pull(b: BrokerView, limits: Limits, now: i64, key: KeyView, generation: u64) -> (
    BrokerView,
    Result<Option<FrameView>, Error>,
) {
    if !owns(b, key, generation) {
        (b, Err(Error::Conflict))
    } else if message_due(b, key, now) {
        match drive(prune_session(b, limits, key, now), limits, now) {
            (next, Some(error)) => (next, Err(error)),
            (next, None) => pull_next(next, limits, now, key),
        }
    } else {
        pull_next(b, limits, now, key)
    }
}

pub open spec fn frame_result(result: Result<BrokerFrame, Error>) -> Result<FrameView, Error> {
    match result {
        Ok(frame) => Ok(frame@),
        Err(error) => Err(error),
    }
}

impl MqttBroker {
    fn remove_exchange(&mut self, i: usize, k: usize) -> (command: bool)
        requires
            old(self).wf(),
            i < old(self)@.sessions.len(),
            k < old(self)@.sessions[i as int].outbound.len(),
        ensures
            final(self).wf(),
            final(self).limits == old(self).limits,
            command == old(self)@.sessions[i as int].outbound[k as int].command,
            final(self)@ == without_exchange(old(self)@, old(self).limits, i as int, k as int),
    {
        proof {
            lemma_session_ok(self.sessions@, i as int);
            assert(self@.sessions[i as int].outbound.len()
                == self.sessions@[i as int].outbound@.len());
        }
        let ghost before = *self;
        let entry = self.sessions[i].remove_outbound_at(k);
        self.sync_session_usage(i, Ghost(before));
        entry.command
    }

    fn move_exchange(&mut self, i: usize, k: usize, stage: OutboundStage, started: bool)
        requires
            old(self).wf(),
            i < old(self)@.sessions.len(),
            k < old(self)@.sessions[i as int].outbound.len(),
        ensures
            final(self).wf(),
            final(self).limits == old(self).limits,
            final(self)@ == with_exchange(
                old(self)@,
                old(self).limits,
                i as int,
                k as int,
                OutboundView {
                    stage,
                    started,
                    ..old(self)@.sessions[i as int].outbound[k as int]
                },
            ),
    {
        proof {
            lemma_session_ok(self.sessions@, i as int);
            assert(self@.sessions[i as int].outbound.len()
                == self.sessions@[i as int].outbound@.len());
        }
        let ghost before = *self;
        self.sessions[i].update_outbound(k, stage, started);
        self.sync_session_usage(i, Ghost(before));
    }

    /// Completes an exchange by its acknowledgement.
    fn complete_outbound(
        &mut self,
        key: &SessionKey,
        generation: u64,
        packet_id: u16,
        ack: OutboundAck,
        now: i64,
    ) -> (result: Result<bool, Error>)
        requires
            old(self).wf(),
        ensures
            final(self).wf(),
            final(self).limits == old(self).limits,
            complete_outbound(
                old(self)@,
                old(self).limits,
                now,
                key@,
                generation,
                packet_id,
                ack,
            ) == (final(self)@, result),
    {
        proof {
            reveal(complete_outbound);
        }
        if !self.check_owner(key, generation) {
            return Err(Error::Conflict);
        }
        let i = match self.find_session(key) {
            Some(i) => i,
            None => return Err(Error::Internal),
        };
        let k = match self.sessions[i].find_outbound(packet_id) {
            Some(k) => k,
            None => return Err(Error::Invalid),
        };
        assert(self@.sessions[i as int].outbound[k as int]
            == self.sessions@[i as int].outbound@[k as int]@);
        let expected = match ack {
            OutboundAck::Puback => OutboundStage::Puback,
            OutboundAck::Pubcomp => OutboundStage::Pubcomp,
        };
        if self.sessions[i].outbound[k].state.stage() != expected {
            return Err(Error::Invalid);
        }
        let command = self.remove_exchange(i, k);
        if let Err(error) = self.carry_on(now) {
            return Err(error);
        }
        Ok(command)
    }

    /// The client has a message of at least once.
    pub fn puback(&mut self, key: &SessionKey, generation: u64, packet_id: u16, now: i64) -> (result:
        Result<bool, Error>)
        requires
            old(self).wf(),
        ensures
            final(self).wf(),
            final(self).limits == old(self).limits,
            complete_outbound(
                old(self)@,
                old(self).limits,
                now,
                key@,
                generation,
                packet_id,
                OutboundAck::Puback,
            ) == (final(self)@, result),
    {
        self.complete_outbound(key, generation, packet_id, OutboundAck::Puback, now)
    }

    /// The client has completed a message of exactly once.
    pub fn pubcomp(&mut self, key: &SessionKey, generation: u64, packet_id: u16, now: i64) -> (result:
        Result<bool, Error>)
        requires
            old(self).wf(),
        ensures
            final(self).wf(),
            final(self).limits == old(self).limits,
            complete_outbound(
                old(self)@,
                old(self).limits,
                now,
                key@,
                generation,
                packet_id,
                OutboundAck::Pubcomp,
            ) == (final(self)@, result),
    {
        self.complete_outbound(key, generation, packet_id, OutboundAck::Pubcomp, now)
    }

    /// The client has received a message of exactly once: it is released.
    pub fn pubrec(&mut self, key: &SessionKey, generation: u64, packet_id: u16) -> (result: Result<
        BrokerFrame,
        Error,
    >)
        requires
            old(self).wf(),
        ensures
            final(self).wf(),
            final(self).limits == old(self).limits,
            receive_pubrec(old(self)@, old(self).limits, key@, generation, packet_id) == (
                final(self)@,
                frame_result(result),
            ),
    {
        proof {
            reveal(receive_pubrec);
        }
        if !self.check_owner(key, generation) {
            return Err(Error::Conflict);
        }
        let i = match self.find_session(key) {
            Some(i) => i,
            None => return Err(Error::Internal),
        };
        let k = match self.sessions[i].find_outbound(packet_id) {
            Some(k) => k,
            None => return Err(Error::Invalid),
        };
        assert(self@.sessions[i as int].outbound[k as int]
            == self.sessions@[i as int].outbound@[k as int]@);
        let started = self.sessions[i].outbound[k].started;
        match self.sessions[i].outbound[k].state.stage() {
            OutboundStage::Pubrec => {
                self.move_exchange(i, k, OutboundStage::Pubcomp, true);
                Ok(BrokerFrame::Pubrel { packet_id, dup: false })
            },
            OutboundStage::Pubcomp => {
                self.move_exchange(i, k, OutboundStage::Pubcomp, started);
                Ok(BrokerFrame::Pubrel { packet_id, dup: true })
            },
            OutboundStage::Puback => Err(Error::Conflict),
        }
    }

    /// The client refuses a message of exactly once.
    pub fn pubrec_rejected(&mut self, key: &SessionKey, generation: u64, packet_id: u16, now: i64) -> (result:
        Result<bool, Error>)
        requires
            old(self).wf(),
        ensures
            final(self).wf(),
            final(self).limits == old(self).limits,
            reject_pubrec(old(self)@, old(self).limits, now, key@, generation, packet_id) == (
                final(self)@,
                result,
            ),
    {
        proof {
            reveal(reject_pubrec);
        }
        if !self.check_owner(key, generation) {
            return Err(Error::Conflict);
        }
        let i = match self.find_session(key) {
            Some(i) => i,
            None => return Err(Error::Internal),
        };
        let k = match self.sessions[i].find_outbound(packet_id) {
            Some(k) => k,
            None => return Err(Error::Invalid),
        };
        assert(self@.sessions[i as int].outbound[k as int]
            == self.sessions@[i as int].outbound@[k as int]@);
        if self.sessions[i].outbound[k].state.stage() != OutboundStage::Pubrec {
            return Err(Error::Conflict);
        }
        let command = self.remove_exchange(i, k);
        if let Err(error) = self.drive_capacity_wakes(now) {
            return Err(error);
        }
        Ok(command)
    }

    fn find_frame_exchange(&self, i: usize, packet_id: u16, message: &BrokerMessage) -> (position:
        Option<usize>)
        requires
            i < self@.sessions.len(),
        ensures
            match position {
                Some(k) => frame_exchange(self@.sessions[i as int], packet_id, message@) == Some(
                    k as int,
                ) && k < self@.sessions[i as int].outbound.len(),
                None => frame_exchange(self@.sessions[i as int], packet_id, message@) is None,
            },
    {
        let k = match self.sessions[i].find_outbound(packet_id) {
            Some(k) => k,
            None => return None,
        };
        assert(self@.sessions[i as int].outbound[k as int]
            == self.sessions@[i as int].outbound@[k as int]@);
        if self.sessions[i].outbound[k].state.stage() != OutboundStage::Pubcomp
            && self.sessions[i].outbound[k].state.message().same(message) {
            Some(k)
        } else {
            None
        }
    }

    /// A queued message is about to be written for the first time. Tells whether it still is to
    /// be written.
    pub fn begin_outbound_transfer(
        &mut self,
        key: &SessionKey,
        generation: u64,
        delivery: &BrokerDelivery,
        now: i64,
    ) -> (result: Result<bool, Error>)
        requires
            old(self).wf(),
        ensures
            final(self).wf(),
            final(self).limits == old(self).limits,
            begin_transfer(
                old(self)@,
                old(self).limits,
                now,
                key@,
                generation,
                delivery.packet_id,
                delivery.message@,
            ) == (final(self)@, result),
    {
        proof {
            reveal(begin_transfer);
        }
        let packet_id = match delivery.packet_id {
            Some(packet_id) => packet_id,
            None => return Err(Error::Invalid),
        };
        if !self.check_owner(key, generation) {
            return Err(Error::Conflict);
        }
        let i = match self.find_session(key) {
            Some(i) => i,
            None => return Err(Error::Internal),
        };
        let k = match self.find_frame_exchange(i, packet_id, &delivery.message) {
            Some(k) => k,
            None => return Ok(false),
        };
        assert(self@.sessions[i as int].outbound.len() == self.sessions@[i as int].outbound@.len());
        assert(self@.sessions[i as int].outbound[k as int]
            == self.sessions@[i as int].outbound@[k as int]@);
        if delivery.message.expired(now) && !self.sessions[i].outbound[k].started {
            let _ = self.remove_exchange(i, k);
            if let Err(error) = self.drive_capacity_wakes(now) {
                return Err(error);
            }
            return Ok(false);
        }
        let stage = self.sessions[i].outbound[k].state.stage();
        self.move_exchange(i, k, stage, true);
        Ok(true)
    }

    /// Gives up a message that the client's packet size cannot carry.
    pub fn discard_outbound(
        &mut self,
        key: &SessionKey,
        generation: u64,
        delivery: &BrokerDelivery,
        now: i64,
    ) -> (result: Result<bool, Error>)
        requires
            old(self).wf(),
        ensures
            final(self).wf(),
            final(self).limits == old(self).limits,
            discard(
                old(self)@,
                old(self).limits,
                now,
                key@,
                generation,
                delivery.packet_id,
                delivery.message@,
            ) == (final(self)@, result),
    {
        proof {
            reveal(discard);
        }
        let packet_id = match delivery.packet_id {
            Some(packet_id) => packet_id,
            None => return Err(Error::Invalid),
        };
        if !self.check_owner(key, generation) {
            return Err(Error::Conflict);
        }
        let i = match self.find_session(key) {
            Some(i) => i,
            None => return Err(Error::Internal),
        };
        let k = match self.find_frame_exchange(i, packet_id, &delivery.message) {
            Some(k) => k,
            None => return Ok(false),
        };
        let _ = self.remove_exchange(i, k);
        if let Err(error) = self.carry_on(now) {
            return Err(error);
        }
        Ok(true)
    }

    fn session_follows(&self, i: usize, topic: &str) -> (yes: bool)
        requires
            i < self@.sessions.len(),
        ensures
            yes == follows(self@.sessions[i as int], topic@),
    {
        let ghost subs = self@.sessions[i as int].subscriptions;
        let mut at: usize = 0;
        assert(subs.len() == self.sessions@[i as int].subscriptions@.len());
        while at < self.sessions[i].subscriptions.len()
            invariant
                i < self.sessions@.len(),
                subs == self@.sessions[i as int].subscriptions,
                subs.len() == self.sessions@[i as int].subscriptions@.len(),
                at <= subs.len(),
                forall|j: int| 0 <= j < at ==> !matches_spec((#[trigger] subs[j]).0, topic@),
            decreases subs.len() - at,
        {
            assert(subs[at as int].0 == self.sessions@[i as int].subscriptions@[at as int].0@);
            if topic_matches(self.sessions[i].subscriptions[at].0.as_str(), topic) {
                return true;
            }
            at = at + 1;
        }
        false
    }

    /// Hands a command to a connected subscriber at once, or not at all.
    pub fn send_live(
        &mut self,
        key: &SessionKey,
        generation: u64,
        message: BrokerMessage,
        now: i64,
    ) -> (result: Result<(), Error>)
        requires
            old(self).wf(),
        ensures
            final(self).wf(),
            final(self).limits == old(self).limits,
            send_command(old(self)@, old(self).limits, now, key@, generation, message@) == (
                final(self)@,
                result,
            ),
    {
        proof {
            reveal(send_command);
        }
        if !self.check_owner(key, generation) {
            return Err(Error::Unavailable);
        }
        let j = match self.find_active(key) {
            Some(j) => j,
            None => return Err(Error::Unavailable),
        };
        let i = match self.find_session(key) {
            Some(i) => i,
            None => return Err(Error::Unavailable),
        };
        if !self.session_follows(i, message.topic.as_str()) || message.expired(now) {
            return Err(Error::Unavailable);
        }
        let charge: usize = message.bytes();
        if !self.link_has_room(j) || charge > self.limits.max_outbound_bytes_per_connection
            || !self.fits_link(j, charge) {
            return Err(Error::Overloaded);
        }
        if message.qos > 0 && (!self.tenant_has_inflight(&key.device.tenant_id, message.qos)
            || !self.sessions[i].has_outbound_capacity(message.qos, &self.limits)
            || !self.sessions[i].has_send_quota()) {
            return Err(Error::Overloaded);
        }
        self.enqueue(key, message, true, now)
    }

    fn pull_frame(&mut self, key: &SessionKey, now: i64) -> (result: Result<
        Option<BrokerFrame>,
        Error,
    >)
        requires
            old(self).wf(),
        ensures
            final(self).wf(),
            final(self).limits == old(self).limits,
            pull_next(old(self)@, old(self).limits, now, key@) == (final(self)@, step_of(result)),
    {
        proof {
            reveal(pull_next);
        }
        let session = self.find_session(key);
        let link = self.find_active(key);
        let (i, j) = match (session, link) {
            (Some(i), Some(j)) => (i, j),
            _ => return Err(Error::Unavailable),
        };
        if self.sessions[i].unsent_outbound_qos().is_some() {
            let frame = self.next_unsent_frame(i, j);
            self.mark_pending(key);
            return Ok(frame);
        }
        assert(self@.sessions[i as int].offline.len() == self.sessions@[i as int].offline@.len());
        if self.sessions[i].offline.len() > 0 {
            let qos = self.sessions[i].offline[0].qos;
            assert(self@.sessions[i as int].offline[0].qos == qos);
            if !self.tenant_has_inflight(&key.device.tenant_id, qos) {
                self.mark_pending(key);
                return Ok(None);
            }
        }
        match self.promote_offline(i, j) {
            Err(error) => Err(error),
            Ok(frame) => {
                self.mark_pending(key);
                self.retry_pending_wills(now);
                Ok(frame)
            },
        }
    }

    /// The next frame for a connection that asks for one.
    pub fn next_offline(&mut self, key: &SessionKey, generation: u64, now: i64) -> (result: Result<
        Option<BrokerFrame>,
        Error,
    >)
        requires
            old(self).wf(),
        ensures
            final(self).wf(),
            final(self).limits == old(self).limits,
            pull(old(self)@, old(self).limits, now, key@, generation) == (
                final(self)@,
                step_of(result),
            ),
    {
        proof {
            reveal(pull);
        }
        if !self.check_owner(key, generation) {
            return Err(Error::Conflict);
        }
        if self.message_expiry_due(key, now) {
            self.prune_session_messages(key, now);
            if let Err(error) = self.drive_capacity_wakes(now) {
                return Err(error);
            }
        }
        self.pull_frame(key, now)
    }
}

} // verus!
