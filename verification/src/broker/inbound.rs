//! Messages received exactly once: accepted, delivered to the application, routed, completed.
use super::attach::next_generation;
use super::deliver::failure;
use super::model::{
    drive, growth_allowed, inflight, owns, put_session, reindexed, reserve_retained, session_at,
    touch_session, BrokerView,
};
use super::route::{count_result, route_message};
use super::state::{lemma_session_ok, MqttBroker};
use super::wills::retried;
use crate::codec::MqttVersion;
use crate::error::Error;
use crate::identity::{DeviceKey, KeyView, SessionKey};
use crate::limits::Limits;
use crate::list::count;
use crate::message::{charge_of, message_valid, valid_broker_message, BrokerMessage, MessageView};
use crate::session::{
    inbound_at, is_qos2, no_reservation, InboundEntry, InboundQos2State, InboundStage, InboundView,
    RetainedReservation, SessionView,
};
use vstd::prelude::*;

verus! {

/// What a release asks for.
#[derive(Debug, PartialEq, Eq)]
pub enum InboundQos2Action {
    Deliver { message: BrokerMessage, session_incarnation: u64, operation_id: u64 },
    EventAccepted { session_incarnation: u64, operation_id: u64 },
    DeliveryInProgress,
    Unknown,
}

pub enum ActionView {
    Deliver { message: MessageView, session_incarnation: u64, operation_id: u64 },
    EventAccepted { session_incarnation: u64, operation_id: u64 },
    DeliveryInProgress,
    Unknown,
}

impl View for InboundQos2Action {
    type V = ActionView;

    open spec fn view(&self) -> ActionView {
        match *self {
            InboundQos2Action::Deliver {
                message,
                session_incarnation,
                operation_id,
            } => ActionView::Deliver { message: message@, session_incarnation, operation_id },
            InboundQos2Action::EventAccepted {
                session_incarnation,
                operation_id,
            } => ActionView::EventAccepted { session_incarnation, operation_id },
            InboundQos2Action::DeliveryInProgress => ActionView::DeliveryInProgress,
            InboundQos2Action::Unknown => ActionView::Unknown,
        }
    }
}

/// What a received identifier stands for.
#[derive(Clone, Copy, Debug, PartialEq, Eq, Structural)]
pub enum InboundQos2PublishState {
    ExistingTransaction,
    NeedsNewMessageAdmission,
    IdentifierInUse,
}

/// How many messages a client may have under way to the broker.
pub open spec fn receive_limit(limits: Limits) -> usize {
    if limits.max_inflight_qos1_per_session <= limits.max_inflight_qos2_per_session {
        limits.max_inflight_qos1_per_session
    } else {
        limits.max_inflight_qos2_per_session
    }
}

/// The position of a received message that is being looked at by its owner.
pub open spec fn held_inbound(b: BrokerView, key: KeyView, id: u16) -> Option<(int, int)> {
    match session_at(b, key) {
        Some(i) => match inbound_at(b.sessions[i], id) {
            Some(k) => Some((i, k)),
            None => None,
        },
        None => None,
    }
}

pub open spec fn with_inbound(s: SessionView, k: int, e: InboundView) -> SessionView {
    SessionView { inbound: s.inbound.update(k, e), ..s }
}

/// Whether one more message of this connection may be under way.
pub open spec fn receive_available(
    b: BrokerView,
    limits: Limits,
    key: KeyView,
    generation: u64,
    qos: u8,
    id: u16,
) -> Result<bool, Error> {
    if !owns(b, key, generation) {
        Err(Error::Conflict)
    } else {
        match session_at(b, key) {
            None => Err(Error::Internal),
            Some(i) => {
                let s = b.sessions[i];
                Ok(
                    (qos == 2 && inbound_at(s, id) is Some) || s.inbound_window.len()
                        < receive_limit(limits),
                )
            },
        }
    }
}

/// A message sent again over a new connection takes that connection's slot once.
pub open spec fn retransmission(
    b: BrokerView,
    limits: Limits,
    key: KeyView,
    generation: u64,
    id: u16,
) -> (BrokerView, Result<bool, Error>) {
    if !owns(b, key, generation) {
        (b, Err(Error::Conflict))
    } else {
        match session_at(b, key) {
            None => (b, Err(Error::Internal)),
            Some(i) => {
                let s = b.sessions[i];
                match inbound_at(s, id) {
                    None => (b, Err(Error::Conflict)),
                    Some(k) => if s.inbound[k].stage != InboundStage::AwaitPubrel {
                        (b, Err(Error::Conflict))
                    } else if s.inbound_window.contains(id) {
                        (b, Ok(true))
                    } else if s.inbound_window.len() >= receive_limit(limits) {
                        (b, Ok(false))
                    } else {
                        (
                            touch_session(
                                b,
                                i,
                                SessionView {
                                    inbound_window: s.inbound_window.insert(id),
                                    ..s
                                },
                            ),
                            Ok(true),
                        )
                    },
                }
            },
        }
    }
}

pub open spec fn classify(b: BrokerView, key: KeyView, generation: u64, id: u16) -> Result<
    InboundQos2PublishState,
    Error,
> {
    if id == 0 {
        Err(Error::Invalid)
    } else if !owns(b, key, generation) {
        Err(Error::Conflict)
    } else {
        match session_at(b, key) {
            None => Err(Error::Internal),
            Some(i) => Ok(
                match inbound_at(b.sessions[i], id) {
                    Some(k) => if b.sessions[i].inbound[k].stage == InboundStage::AwaitPubrel {
                        InboundQos2PublishState::ExistingTransaction
                    } else {
                        InboundQos2PublishState::IdentifierInUse
                    },
                    None => InboundQos2PublishState::NeedsNewMessageAdmission,
                },
            ),
        }
    }
}

/// A received message accepted. The same identifier again changes nothing: over MQTT 5 whatever
/// it brings, over MQTT 3.1.1 if it brings the same message.
#[verifier::opaque]
pub open spec fn accept_inbound(
    b: BrokerView,
    limits: Limits,
    key: KeyView,
    generation: u64,
    id: u16,
    message: MessageView,
) -> (BrokerView, Result<bool, Error>) {
    if message.qos != 2 {
        (b, Err(Error::Invalid))
    } else if !owns(b, key, generation) {
        (b, Err(Error::Conflict))
    } else {
        match session_at(b, key) {
            None => (b, Err(Error::Internal)),
            Some(i) => {
                let s = b.sessions[i];
                match inbound_at(s, id) {
                    Some(k) => if s.version == MqttVersion::V5 || s.inbound[k].message == message {
                        (b, Ok(false))
                    } else {
                        (b, Err(Error::Invalid))
                    },
                    None => accept_new(b, limits, i, id, message),
                }
            },
        }
    }
}

/// A new message accepted, with what storing it as retained will need.
#[verifier::opaque]
pub open spec fn accept_new(b: BrokerView, limits: Limits, i: int, id: u16, message: MessageView) -> (
    BrokerView,
    Result<bool, Error>,
) {
    let s = b.sessions[i];
    let tenant = s.key.device.tenant;
    if !message_valid(message, limits) {
        (b, Err(Error::Invalid))
    } else if s.inbound.len() + count(s.outbound, is_qos2())
        >= limits.max_inflight_qos2_per_session || (s.version == MqttVersion::V5
        && s.inbound_window.len() >= receive_limit(limits)) {
        (b, Err(Error::Overloaded))
    } else {
        match reserve_retained(b, limits, tenant, Some(s.key), message) {
            Err(error) => (b, Err(error)),
            Ok(reservation) => if inflight(b, tenant, 2) >= limits.max_inflight_qos2_per_tenant
                || !growth_allowed(b, limits, s, 0, 0, 0, charge_of(message)) {
                (b, Err(Error::Overloaded))
            } else {
                let entry = InboundView {
                    packet_id: id,
                    stage: InboundStage::AwaitPubrel,
                    message,
                    operation_id: None,
                    reservation,
                };
                (
                    put_session(
                        b,
                        limits,
                        i,
                        SessionView {
                            inbound: s.inbound.push(entry),
                            inbound_window: if s.version == MqttVersion::V5 {
                                s.inbound_window.insert(id)
                            } else {
                                s.inbound_window
                            },
                            ..s
                        },
                    ),
                    Ok(true),
                )
            },
        }
    }
}

/// The connection is done with a message.
pub open spec fn window_left(b: BrokerView, key: KeyView, generation: u64, id: u16) -> (
    BrokerView,
    Result<(), Error>,
) {
    if !owns(b, key, generation) {
        (b, Err(Error::Conflict))
    } else {
        match session_at(b, key) {
            None => (b, Err(Error::Internal)),
            Some(i) => {
                let s = b.sessions[i];
                (
                    touch_session(
                        b,
                        i,
                        SessionView { inbound_window: s.inbound_window.remove(id), ..s },
                    ),
                    Ok(()),
                )
            },
        }
    }
}

/// A release received: the message is given out for delivery at most once at a time.
#[verifier::opaque]
pub open spec fn begin_delivery(b: BrokerView, key: KeyView, generation: u64, id: u16) -> (
    BrokerView,
    Result<ActionView, Error>,
) {
    if !owns(b, key, generation) {
        (b, Err(Error::Conflict))
    } else {
        let operation = next_generation(b.operation_id);
        let b1 = BrokerView { operation_id: operation, ..b };
        match session_at(b1, key) {
            None => (b1, Err(Error::Internal)),
            Some(i) => {
                let s = b1.sessions[i];
                match inbound_at(s, id) {
                    None => (b1, Ok(ActionView::Unknown)),
                    Some(k) => {
                        let e = s.inbound[k];
                        match e.stage {
                            InboundStage::AwaitPubrel => (
                                touch_session(
                                    b1,
                                    i,
                                    with_inbound(
                                        s,
                                        k,
                                        InboundView {
                                            stage: InboundStage::Delivering {
                                                operation_id: operation,
                                            },
                                            ..e
                                        },
                                    ),
                                ),
                                Ok(
                                    ActionView::Deliver {
                                        message: e.message,
                                        session_incarnation: s.incarnation,
                                        operation_id: operation,
                                    },
                                ),
                            ),
                            InboundStage::Delivering { .. } => (
                                b1,
                                Ok(ActionView::DeliveryInProgress),
                            ),
                            InboundStage::EventAccepted => {
                                let held = match e.operation_id {
                                    Some(held) => held,
                                    None => operation,
                                };
                                (
                                    touch_session(
                                        b1,
                                        i,
                                        with_inbound(
                                            s,
                                            k,
                                            InboundView { operation_id: Some(held), ..e },
                                        ),
                                    ),
                                    Ok(
                                        ActionView::EventAccepted {
                                            session_incarnation: s.incarnation,
                                            operation_id: held,
                                        },
                                    ),
                                )
                            },
                        }
                    },
                }
            },
        }
    }
}

/// The application has taken the message. Only the operation that was given it may say so.
#[verifier::opaque]
pub open spec fn finish_delivery(
    b: BrokerView,
    key: KeyView,
    incarnation: u64,
    id: u16,
    operation: u64,
) -> (BrokerView, Result<(), Error>) {
    match session_at(b, key) {
        None => (b, Err(Error::Internal)),
        Some(i) => {
            let s = b.sessions[i];
            if s.incarnation != incarnation {
                (b, Err(Error::Conflict))
            } else {
                match inbound_at(s, id) {
                    None => (b, Err(Error::Invalid)),
                    Some(k) => {
                        let e = s.inbound[k];
                        if e.stage == (InboundStage::Delivering { operation_id: operation }) {
                            (
                                touch_session(
                                    b,
                                    i,
                                    with_inbound(
                                        s,
                                        k,
                                        InboundView {
                                            stage: InboundStage::EventAccepted,
                                            operation_id: Some(operation),
                                            ..e
                                        },
                                    ),
                                ),
                                Ok(()),
                            )
                        } else if e.stage == InboundStage::EventAccepted && e.operation_id == Some(
                            operation,
                        ) {
                            (b, Ok(()))
                        } else {
                            (b, Err(Error::Conflict))
                        }
                    },
                }
            }
        },
    }
}

/// The application has not taken the message: it may be given out again.
#[verifier::opaque]
pub open spec fn abandon_delivery(
    b: BrokerView,
    key: KeyView,
    incarnation: u64,
    id: u16,
    operation: u64,
) -> (BrokerView, Result<(), Error>) {
    match session_at(b, key) {
        None => (b, Err(Error::Internal)),
        Some(i) => {
            let s = b.sessions[i];
            if s.incarnation != incarnation {
                (b, Err(Error::Conflict))
            } else {
                match inbound_at(s, id) {
                    None => (b, Err(Error::Invalid)),
                    Some(k) => {
                        let e = s.inbound[k];
                        if e.stage == (InboundStage::Delivering { operation_id: operation }) {
                            (
                                touch_session(
                                    b,
                                    i,
                                    with_inbound(
                                        s,
                                        k,
                                        InboundView { stage: InboundStage::AwaitPubrel, ..e },
                                    ),
                                ),
                                Ok(()),
                            )
                        } else {
                            (b, Err(Error::Conflict))
                        }
                    },
                }
            }
        },
    }
}

/// The broker without a received message.
pub open spec fn without_inbound(b: BrokerView, limits: Limits, key: KeyView, id: u16) -> BrokerView {
    match held_inbound(b, key, id) {
        Some((i, k)) => {
            let s = b.sessions[i];
            put_session(b, limits, i, SessionView { inbound: s.inbound.remove(k), ..s })
        },
        None => reindexed(b, limits, key),
    }
}

/// What a released exchange lets go on: sessions that waited for room, and wills.
pub open spec fn carried_on(b: BrokerView, limits: Limits, now: i64) -> (
    BrokerView,
    Option<Error>,
) {
    match drive(b, limits, now) {
        (next, Some(error)) => (next, Some(error)),
        (next, None) => (retried(next, limits, now), None),
    }
}

/// A received message completed without being routed.
#[verifier::opaque]
pub open spec fn complete_inbound(
    b: BrokerView,
    limits: Limits,
    now: i64,
    key: KeyView,
    generation: u64,
    id: u16,
) -> (BrokerView, Option<Error>) {
    if !owns(b, key, generation) {
        (b, Some(Error::Conflict))
    } else if session_at(b, key) is None {
        (b, Some(Error::Internal))
    } else {
        carried_on(without_inbound(b, limits, key, id), limits, now)
    }
}

/// A received message that the application has taken, routed and completed. If it cannot be
/// routed it stays, with what is set aside for it.
#[verifier::opaque]
pub open spec fn route_inbound(
    b: BrokerView,
    limits: Limits,
    now: i64,
    key: KeyView,
    incarnation: u64,
    id: u16,
    operation: u64,
    tenant: Seq<char>,
) -> (BrokerView, Result<nat, Error>) {
    match held_inbound(b, key, id) {
        None => (b, Err(Error::Conflict)),
        Some((i, k)) => {
            let s = b.sessions[i];
            let e = s.inbound[k];
            if s.incarnation != incarnation || e.stage != InboundStage::EventAccepted
                || e.operation_id != Some(operation) {
                (b, Err(Error::Conflict))
            } else {
                let tried = touch_session(
                    b,
                    i,
                    with_inbound(s, k, InboundView { reservation: no_reservation(), ..e }),
                );
                match route_message(tried, limits, now, tenant, Some(key), e.message) {
                    (next, Err(error)) => (
                        with_reservation(next, key, id, e.reservation),
                        Err(error),
                    ),
                    (next, Ok(delivered)) => match carried_on(
                        without_inbound(next, limits, key, id),
                        limits,
                        now,
                    ) {
                        (last, Some(error)) => (last, Err(error)),
                        (last, None) => (last, Ok(delivered)),
                    },
                }
            }
        },
    }
}

pub open spec fn with_reservation(
    b: BrokerView,
    key: KeyView,
    id: u16,
    reservation: RetainedReservation,
) -> BrokerView {
    match held_inbound(b, key, id) {
        Some((i, k)) => {
            let s = b.sessions[i];
            touch_session(
                b,
                i,
                with_inbound(s, k, InboundView { reservation, ..s.inbound[k] }),
            )
        },
        None => b,
    }
}

pub open spec fn action_result(result: Result<InboundQos2Action, Error>) -> Result<
    ActionView,
    Error,
> {
    match result {
        Ok(action) => Ok(action@),
        Err(error) => Err(error),
    }
}

impl MqttBroker {
    fn receive_bound(&self) -> (limit: usize)
        ensures
            limit == receive_limit(self.limits),
    {
        if self.limits.max_inflight_qos1_per_session <= self.limits.max_inflight_qos2_per_session {
            self.limits.max_inflight_qos1_per_session
        } else {
            self.limits.max_inflight_qos2_per_session
        }
    }

    /// Whether one more message of this connection may be under way.
    pub fn inbound_receive_available(
        &self,
        key: &SessionKey,
        generation: u64,
        qos: u8,
        packet_id: u16,
    ) -> (result: Result<bool, Error>)
        requires
            self.wf(),
        ensures
            result == receive_available(self@, self.limits, key@, generation, qos, packet_id),
    {
        if !self.check_owner(key, generation) {
            return Err(Error::Conflict);
        }
        let i = match self.find_session(key) {
            Some(i) => i,
            None => return Err(Error::Internal),
        };
        proof {
            lemma_session_ok(self.sessions@, i as int);
        }
        if qos == 2 && self.sessions[i].find_inbound(packet_id).is_some() {
            return Ok(true);
        }
        Ok(self.sessions[i].window_len() < self.receive_bound())
    }

    /// A message sent again over a new connection takes that connection's slot once.
    pub fn begin_inbound_qos2_retransmission(
        &mut self,
        key: &SessionKey,
        generation: u64,
        packet_id: u16,
    ) -> (result: Result<bool, Error>)
        requires
            old(self).wf(),
        ensures
            final(self).wf(),
            final(self).limits == old(self).limits,
            retransmission(old(self)@, old(self).limits, key@, generation, packet_id) == (
                final(self)@,
                result,
            ),
    {
        if !self.check_owner(key, generation) {
            return Err(Error::Conflict);
        }
        let i = match self.find_session(key) {
            Some(i) => i,
            None => return Err(Error::Internal),
        };
        proof {
            lemma_session_ok(self.sessions@, i as int);
        }
        let k = match self.sessions[i].find_inbound(packet_id) {
            Some(k) => k,
            None => return Err(Error::Conflict),
        };
        assert(self@.sessions[i as int].inbound[k as int]
            == self.sessions@[i as int].inbound_qos2@[k as int]@);
        if self.sessions[i].inbound_qos2[k].state.stage_now() != InboundStage::AwaitPubrel {
            return Err(Error::Conflict);
        }
        if self.sessions[i].window_contains(packet_id) {
            return Ok(true);
        }
        if self.sessions[i].window_len() >= self.receive_bound() {
            return Ok(false);
        }
        let ghost before = *self;
        self.sessions[i].window_insert(packet_id);
        proof {
            self.lemma_touched(i as int, before);
        }
        Ok(true)
    }

    /// What a received identifier stands for.
    pub fn classify_inbound_qos2_publish(
        &self,
        key: &SessionKey,
        generation: u64,
        packet_id: u16,
    ) -> (result: Result<InboundQos2PublishState, Error>)
        requires
            self.wf(),
        ensures
            result == classify(self@, key@, generation, packet_id),
    {
        if packet_id == 0 {
            return Err(Error::Invalid);
        }
        if !self.check_owner(key, generation) {
            return Err(Error::Conflict);
        }
        let i = match self.find_session(key) {
            Some(i) => i,
            None => return Err(Error::Internal),
        };
        match self.sessions[i].find_inbound(packet_id) {
            Some(k) => {
                assert(self@.sessions[i as int].inbound[k as int]
                    == self.sessions@[i as int].inbound_qos2@[k as int]@);
                if self.sessions[i].inbound_qos2[k].state.stage_now() == InboundStage::AwaitPubrel {
                    Ok(InboundQos2PublishState::ExistingTransaction)
                } else {
                    Ok(InboundQos2PublishState::IdentifierInUse)
                }
            },
            None => Ok(InboundQos2PublishState::NeedsNewMessageAdmission),
        }
    }

    /// Accepts a new message.
    fn accept_new_inbound(&mut self, i: usize, packet_id: u16, message: BrokerMessage) -> (result:
        Result<bool, Error>)
        requires
            old(self).wf(),
            i < old(self)@.sessions.len(),
            inbound_at(old(self)@.sessions[i as int], packet_id) is None,
        ensures
            final(self).wf(),
            final(self).limits == old(self).limits,
            accept_new(old(self)@, old(self).limits, i as int, packet_id, message@) == (
                final(self)@,
                result,
            ),
    {
        proof {
            reveal(accept_new);
            lemma_session_ok(self.sessions@, i as int);
        }
        if !valid_broker_message(&message, &self.limits) {
            return Err(Error::Invalid);
        }
        let open: u128 = self.sessions[i].inbound_qos2.len() as u128
            + self.sessions[i].qos2_exchanges() as u128;
        if open >= self.limits.max_inflight_qos2_per_session as u128 {
            return Err(Error::Overloaded);
        }
        if self.sessions[i].version == MqttVersion::V5 && self.sessions[i].window_len()
            >= self.receive_bound() {
            return Err(Error::Overloaded);
        }
        let tenant = &self.sessions[i].key.device.tenant_id;
        let reservation = match self.reserve_retained(
            tenant,
            Some(&self.sessions[i].key),
            &message,
        ) {
            Ok(reservation) => reservation,
            Err(error) => return Err(error),
        };
        let charge: usize = message.bytes();
        if !self.tenant_has_inflight(tenant, 2) || !self.may_grow(i, 0, 0, 0, charge) {
            return Err(Error::Overloaded);
        }
        let entry = InboundEntry {
            packet_id,
            state: InboundQos2State::AwaitPubrel(message),
            operation_id: None,
            reservation,
        };
        let ghost before = *self;
        self.sessions[i].insert_inbound(entry);
        if self.sessions[i].version == MqttVersion::V5 {
            self.sessions[i].window_insert(packet_id);
        }
        self.sync_session_usage(i, Ghost(before));
        Ok(true)
    }

    /// Accepts a received message. The same identifier again changes nothing.
    pub fn inbound_qos2(
        &mut self,
        key: &SessionKey,
        generation: u64,
        packet_id: u16,
        message: BrokerMessage,
    ) -> (result: Result<bool, Error>)
        requires
            old(self).wf(),
        ensures
            final(self).wf(),
            final(self).limits == old(self).limits,
            accept_inbound(
                old(self)@,
                old(self).limits,
                key@,
                generation,
                packet_id,
                message@,
            ) == (final(self)@, result),
    {
        proof {
            reveal(accept_inbound);
        }
        if message.qos != 2 {
            return Err(Error::Invalid);
        }
        if !self.check_owner(key, generation) {
            return Err(Error::Conflict);
        }
        let i = match self.find_session(key) {
            Some(i) => i,
            None => return Err(Error::Internal),
        };
        if let Some(k) = self.sessions[i].find_inbound(packet_id) {
            assert(self@.sessions[i as int].inbound[k as int]
                == self.sessions@[i as int].inbound_qos2@[k as int]@);
            if self.sessions[i].version == MqttVersion::V5
                || self.sessions[i].inbound_qos2[k].state.message().same(&message) {
                return Ok(false);
            }
            return Err(Error::Invalid);
        }
        self.accept_new_inbound(i, packet_id, message)
    }

    /// The connection is done with a message.
    pub fn finish_inbound_pubcomp(&mut self, key: &SessionKey, generation: u64, packet_id: u16) -> (result:
        Result<(), Error>)
        requires
            old(self).wf(),
        ensures
            final(self).wf(),
            final(self).limits == old(self).limits,
            window_left(old(self)@, key@, generation, packet_id) == (final(self)@, result),
    {
        if !self.check_owner(key, generation) {
            return Err(Error::Conflict);
        }
        let i = match self.find_session(key) {
            Some(i) => i,
            None => return Err(Error::Internal),
        };
        proof {
            lemma_session_ok(self.sessions@, i as int);
        }
        let ghost before = *self;
        self.sessions[i].window_remove(packet_id);
        proof {
            self.lemma_touched(i as int, before);
        }
        Ok(())
    }

    /// Moves a received message on in place.
    fn move_inbound(
        &mut self,
        i: usize,
        k: usize,
        stage: InboundStage,
        operation_id: Option<u64>,
        reservation: RetainedReservation,
    )
        requires
            old(self).wf(),
            i < old(self)@.sessions.len(),
            k < old(self)@.sessions[i as int].inbound.len(),
        ensures
            final(self).wf(),
            final(self).limits == old(self).limits,
            final(self)@ == touch_session(
                old(self)@,
                i as int,
                with_inbound(
                    old(self)@.sessions[i as int],
                    k as int,
                    InboundView {
                        stage,
                        operation_id,
                        reservation,
                        ..old(self)@.sessions[i as int].inbound[k as int]
                    },
                ),
            ),
    {
        proof {
            lemma_session_ok(self.sessions@, i as int);
            assert(self@.sessions[i as int].inbound.len()
                == self.sessions@[i as int].inbound_qos2@.len());
        }
        let ghost before = *self;
        self.sessions[i].update_inbound(k, stage, operation_id, reservation);
        proof {
            self.lemma_touched(i as int, before);
        }
    }

    /// Gives a released message out for delivery, at most once at a time.
    pub fn begin_inbound_qos2_delivery(
        &mut self,
        key: &SessionKey,
        generation: u64,
        packet_id: u16,
    ) -> (result: Result<InboundQos2Action, Error>)
        requires
            old(self).wf(),
        ensures
            final(self).wf(),
            final(self).limits == old(self).limits,
            begin_delivery(old(self)@, key@, generation, packet_id) == (
                final(self)@,
                action_result(result),
            ),
    {
        proof {
            reveal(begin_delivery);
        }
        if !self.check_owner(key, generation) {
            return Err(Error::Conflict);
        }
        let ghost b = self@;
        let operation_id = if self.operation_id == u64::MAX {
            1
        } else {
            self.operation_id + 1
        };
        self.operation_id = operation_id;
        assert(self@ =~= (BrokerView { operation_id, ..b }));
        let i = match self.find_session(key) {
            Some(i) => i,
            None => return Err(Error::Internal),
        };
        let session_incarnation = self.sessions[i].incarnation;
        let k = match self.sessions[i].find_inbound(packet_id) {
            Some(k) => k,
            None => return Ok(InboundQos2Action::Unknown),
        };
        assert(self@.sessions[i as int].inbound[k as int]
            == self.sessions@[i as int].inbound_qos2@[k as int]@);
        let held = self.sessions[i].inbound_qos2[k].operation_id;
        let reservation = self.sessions[i].inbound_qos2[k].reservation;
        match self.sessions[i].inbound_qos2[k].state.stage_now() {
            InboundStage::AwaitPubrel => {
                let message = self.sessions[i].inbound_qos2[k].state.message().clone();
                self.move_inbound(
                    i,
                    k,
                    InboundStage::Delivering { operation_id },
                    held,
                    reservation,
                );
                Ok(InboundQos2Action::Deliver { message, session_incarnation, operation_id })
            },
            InboundStage::Delivering { .. } => Ok(InboundQos2Action::DeliveryInProgress),
            InboundStage::EventAccepted => {
                let operation_id = match held {
                    Some(held) => held,
                    None => operation_id,
                };
                self.move_inbound(
                    i,
                    k,
                    InboundStage::EventAccepted,
                    Some(operation_id),
                    reservation,
                );
                Ok(InboundQos2Action::EventAccepted { session_incarnation, operation_id })
            },
        }
    }

    /// The application has taken the message.
    pub fn finish_inbound_qos2_delivery(
        &mut self,
        key: &SessionKey,
        session_incarnation: u64,
        packet_id: u16,
        operation_id: u64,
    ) -> (result: Result<(), Error>)
        requires
            old(self).wf(),
        ensures
            final(self).wf(),
            final(self).limits == old(self).limits,
            finish_delivery(
                old(self)@,
                key@,
                session_incarnation,
                packet_id,
                operation_id,
            ) == (final(self)@, result),
    {
        proof {
            reveal(finish_delivery);
        }
        let i = match self.find_session(key) {
            Some(i) => i,
            None => return Err(Error::Internal),
        };
        if self.sessions[i].incarnation != session_incarnation {
            return Err(Error::Conflict);
        }
        let k = match self.sessions[i].find_inbound(packet_id) {
            Some(k) => k,
            None => return Err(Error::Invalid),
        };
        assert(self@.sessions[i as int].inbound[k as int]
            == self.sessions@[i as int].inbound_qos2@[k as int]@);
        let stage = self.sessions[i].inbound_qos2[k].state.stage_now();
        let reservation = self.sessions[i].inbound_qos2[k].reservation;
        if stage == (InboundStage::Delivering { operation_id }) {
            self.move_inbound(
                i,
                k,
                InboundStage::EventAccepted,
                Some(operation_id),
                reservation,
            );
            return Ok(());
        }
        let held = match self.sessions[i].inbound_qos2[k].operation_id {
            Some(held) => held == operation_id,
            None => false,
        };
        if stage == InboundStage::EventAccepted && held {
            return Ok(());
        }
        Err(Error::Conflict)
    }

    /// The application has not taken the message.
    pub fn abandon_inbound_qos2_delivery(
        &mut self,
        key: &SessionKey,
        session_incarnation: u64,
        packet_id: u16,
        operation_id: u64,
    ) -> (result: Result<(), Error>)
        requires
            old(self).wf(),
        ensures
            final(self).wf(),
            final(self).limits == old(self).limits,
            abandon_delivery(
                old(self)@,
                key@,
                session_incarnation,
                packet_id,
                operation_id,
            ) == (final(self)@, result),
    {
        proof {
            reveal(abandon_delivery);
        }
        let i = match self.find_session(key) {
            Some(i) => i,
            None => return Err(Error::Internal),
        };
        if self.sessions[i].incarnation != session_incarnation {
            return Err(Error::Conflict);
        }
        let k = match self.sessions[i].find_inbound(packet_id) {
            Some(k) => k,
            None => return Err(Error::Invalid),
        };
        assert(self@.sessions[i as int].inbound[k as int]
            == self.sessions@[i as int].inbound_qos2@[k as int]@);
        if self.sessions[i].inbound_qos2[k].state.stage_now() != (InboundStage::Delivering {
            operation_id,
        }) {
            return Err(Error::Conflict);
        }
        let held = self.sessions[i].inbound_qos2[k].operation_id;
        let reservation = self.sessions[i].inbound_qos2[k].reservation;
        self.move_inbound(i, k, InboundStage::AwaitPubrel, held, reservation);
        Ok(())
    }

    fn drop_inbound(&mut self, key: &SessionKey, packet_id: u16)
        requires
            old(self).wf(),
        ensures
            final(self).wf(),
            final(self).limits == old(self).limits,
            final(self)@ == without_inbound(old(self)@, old(self).limits, key@, packet_id),
    {
        if let Some(i) = self.find_session(key) {
            if let Some(k) = self.sessions[i].find_inbound(packet_id) {
                proof {
                    lemma_session_ok(self.sessions@, i as int);
                }
                let ghost before = *self;
                let _ = self.sessions[i].remove_inbound_at(k);
                self.sync_session_usage(i, Ghost(before));
                return;
            }
        }
        self.reindex(key);
    }

    /// Lets go on what waited for a released exchange.
    pub fn carry_on(&mut self, now: i64) -> (result: Result<(), Error>)
        requires
            old(self).wf(),
        ensures
            final(self).wf(),
            final(self).limits == old(self).limits,
            carried_on(old(self)@, old(self).limits, now) == (final(self)@, failure(result)),
    {
        if let Err(error) = self.drive_capacity_wakes(now) {
            return Err(error);
        }
        self.retry_pending_wills(now);
        Ok(())
    }

    /// Completes a received message without routing it.
    pub fn complete_inbound_qos2(
        &mut self,
        key: &SessionKey,
        generation: u64,
        packet_id: u16,
        now: i64,
    ) -> (result: Result<(), Error>)
        requires
            old(self).wf(),
        ensures
            final(self).wf(),
            final(self).limits == old(self).limits,
            complete_inbound(old(self)@, old(self).limits, now, key@, generation, packet_id) == (
                final(self)@,
                failure(result),
            ),
    {
        proof {
            reveal(complete_inbound);
        }
        if !self.check_owner(key, generation) {
            return Err(Error::Conflict);
        }
        if self.find_session(key).is_none() {
            return Err(Error::Internal);
        }
        self.drop_inbound(key, packet_id);
        self.carry_on(now)
    }

    fn restore_reservation(&mut self, key: &SessionKey, packet_id: u16, reservation: RetainedReservation)
        requires
            old(self).wf(),
        ensures
            final(self).wf(),
            final(self).limits == old(self).limits,
            final(self)@ == with_reservation(old(self)@, key@, packet_id, reservation),
    {
        if let Some(i) = self.find_session(key) {
            if let Some(k) = self.sessions[i].find_inbound(packet_id) {
                assert(self@.sessions[i as int].inbound[k as int]
                    == self.sessions@[i as int].inbound_qos2@[k as int]@);
                let stage = self.sessions[i].inbound_qos2[k].state.stage_now();
                let held = self.sessions[i].inbound_qos2[k].operation_id;
                self.move_inbound(i, k, stage, held, reservation);
            }
        }
    }

    /// Routes and completes a received message that the application has taken.
    pub fn route_inbound_qos2(
        &mut self,
        key: &SessionKey,
        session_incarnation: u64,
        packet_id: u16,
        operation_id: u64,
        owner: &DeviceKey,
        now: i64,
    ) -> (result: Result<usize, Error>)
        requires
            old(self).wf(),
        ensures
            final(self).wf(),
            final(self).limits == old(self).limits,
            route_inbound(
                old(self)@,
                old(self).limits,
                now,
                key@,
                session_incarnation,
                packet_id,
                operation_id,
                owner@.tenant,
            ) == (final(self)@, count_result(result)),
    {
        proof {
            reveal(route_inbound);
        }
        let i = match self.find_session(key) {
            Some(i) => i,
            None => return Err(Error::Conflict),
        };
        let k = match self.sessions[i].find_inbound(packet_id) {
            Some(k) => k,
            None => return Err(Error::Conflict),
        };
        assert(self@.sessions[i as int].inbound[k as int]
            == self.sessions@[i as int].inbound_qos2@[k as int]@);
        let held = match self.sessions[i].inbound_qos2[k].operation_id {
            Some(held) => held == operation_id,
            None => false,
        };
        if self.sessions[i].incarnation != session_incarnation
            || self.sessions[i].inbound_qos2[k].state.stage_now() != InboundStage::EventAccepted
            || !held {
            return Err(Error::Conflict);
        }
        let message = self.sessions[i].inbound_qos2[k].state.message().clone();
        let reservation = self.sessions[i].inbound_qos2[k].reservation;
        self.move_inbound(
            i,
            k,
            InboundStage::EventAccepted,
            Some(operation_id),
            RetainedReservation { count: 0, bytes: 0 },
        );
        let delivered = match self.route_locked(owner, Some(key), &message, now) {
            Ok(delivered) => delivered,
            Err(error) => {
                self.restore_reservation(key, packet_id, reservation);
                return Err(error);
            },
        };
        self.drop_inbound(key, packet_id);
        if let Err(error) = self.carry_on(now) {
            return Err(error);
        }
        Ok(delivered)
    }
}

} // verus!
