//! Routing for publishers, held wills, maintenance, and what can be asked of the broker.
use super::attach::{detach_spec, Attachment, AttachmentView};
use super::deliver::{failure, frame_option};
use super::inbound::carried_on;
use super::model::{
    drive, link_at, link_is, prune_expired, prune_messages, remove_session, retained_at,
    retained_bytes, sat_sub, session_at, wake_global, with_link, BrokerView, DelayView, FrameView,
    LinkView, RetainedView, HOT_MAINTENANCE_BUDGET, TICK_MAINTENANCE_BUDGET,
};
use super::route::{count_result, route_message};
use super::state::{frame_views, saturated, BrokerFrame, MqttBroker, WillDelay};
use super::wills::{
    armed_will, close_will, delayed_will, hold_will, prolonged_will, retry_wills, settle_will,
    settled_view, without_guard,
};
use crate::error::Error;
use crate::identity::{key_ref_view, AuthInvalidation, DeviceKey, KeyView, SessionKey};
use crate::limits::Limits;
use crate::list::{count, is_first, keep, lemma_first_is, lemma_first_none, lemma_keep_step};
use crate::message::{
    expired_spec, message_valid, sat, valid_broker_message, BrokerMessage, MessageView,
};
use crate::session::{SessionView, StoredSession, Subscription};
use crate::topics::{matches_spec, topic_matches};
use crate::trie::{subscriber_views, trie_matching};
use crate::usage::total_usage;
use vstd::prelude::*;

verus! {

/// A message published: refused if it is not valid, dropped if it has expired or cannot reach
/// anyone, else routed.
#[verifier::opaque]
pub open spec fn publish(
    b: BrokerView,
    limits: Limits,
    now: i64,
    tenant: Seq<char>,
    origin: Option<KeyView>,
    message: MessageView,
) -> (BrokerView, Result<nat, Error>) {
    if !message_valid(message, limits) {
        (b, Err(Error::Invalid))
    } else if expired_spec(message, now) || (!message.retain && total_usage(
        b.sessions,
    ).subscriptions == 0) {
        (b, Ok(0))
    } else {
        let (next, result) = route_message(
            prune_messages(b, limits, now, HOT_MAINTENANCE_BUDGET as nat),
            limits,
            now,
            tenant,
            origin,
            message,
        );
        (drive(next, limits, now).0, result)
    }
}

/// One maintenance pass.
#[verifier::opaque]
pub open spec fn ticked(b: BrokerView, limits: Limits, now: i64) -> (BrokerView, Option<Error>) {
    let budget = TICK_MAINTENANCE_BUDGET as nat;
    let b1 = prune_messages(prune_expired(b, limits, now, budget), limits, now, budget);
    match wake_global(b1, limits, now) {
        (next, Some(error)) => (next, Some(error)),
        (next, None) => (retry_wills(next, limits, now, budget).0, None),
    }
}

/// Which sessions an invalidation is about. One of unknown authorization is always among them
/// where authorizations are looked at.
pub open spec fn concerned(invalidation: AuthInvalidation) -> spec_fn(SessionView) -> bool {
    |s: SessionView|
        match invalidation {
            AuthInvalidation::Device { device } => s.key.device == device@,
            AuthInvalidation::Product { tenant_id, product_id } => s.key.device.tenant == tenant_id@
                && s.key.device.product == product_id@,
            AuthInvalidation::Tenant { tenant_id } => s.key.device.tenant == tenant_id@,
            AuthInvalidation::CredentialVersion { version } => s.authorization matches Some(a)
                ==> a.credential_version == version,
            AuthInvalidation::AuthGeneration { generation } => s.authorization matches Some(a)
                ==> a.auth_generation == generation,
            AuthInvalidation::All => true,
        }
}

pub open spec fn remove_first(
    b: BrokerView,
    limits: Limits,
    removed: Seq<SessionView>,
    n: nat,
) -> BrokerView
    decreases n,
{
    if n == 0 {
        b
    } else {
        remove_session(
            remove_first(b, limits, removed, (n - 1) as nat),
            limits,
            removed[n - 1].key,
        )
    }
}

/// Sessions given up because their authorization no longer holds. Tells how many.
#[verifier::opaque]
pub open spec fn invalidated(
    b: BrokerView,
    limits: Limits,
    now: i64,
    invalidation: AuthInvalidation,
) -> (BrokerView, Result<nat, Error>) {
    let removed = keep(b.sessions, concerned(invalidation));
    match carried_on(remove_first(b, limits, removed, removed.len()), limits, now) {
        (next, Some(error)) => (next, Err(error)),
        (next, None) => (next, Ok(removed.len())),
    }
}

pub open spec fn retained_live(filter: Seq<char>, now: i64) -> spec_fn(RetainedView) -> bool {
    |r: RetainedView| !expired_spec(r.message, now) && matches_spec(filter, r.message.topic)
}

/// The best quality of service among a session's filters that match.
pub open spec fn best_qos(subs: Seq<(Seq<char>, Subscription)>, topic: Seq<char>) -> Option<u8>
    decreases subs.len(),
{
    if subs.len() == 0 {
        None
    } else {
        let best = best_qos(subs.drop_last(), topic);
        let last = subs.last();
        if matches_spec(last.0, topic) && (best matches Some(q) ==> q < last.1.qos) {
            Some(last.1.qos)
        } else {
            best
        }
    }
}

/// A frame taken by its connection; its bytes stay counted until it is written.
pub open spec fn received(b: BrokerView, receiver: u64) -> (BrokerView, Option<FrameView>) {
    match link_at(b, receiver) {
        Some(j) => {
            let l = b.links[j];
            if l.queue.len() == 0 {
                (b, None)
            } else {
                (with_link(b, j, LinkView { queue: l.queue.remove(0), ..l }), Some(l.queue[0]))
            }
        },
        None => (b, None),
    }
}

/// The bytes of a frame that was written or dropped, given back.
pub open spec fn written(b: BrokerView, receiver: u64, charge: nat) -> BrokerView {
    match link_at(b, receiver) {
        Some(j) => with_link(
            b,
            j,
            LinkView { used: sat_sub(b.links[j].used, charge), ..b.links[j] },
        ),
        None => b,
    }
}

/// A connection that takes no more frames. What it had not taken is dropped.
pub open spec fn shut(b: BrokerView, receiver: u64) -> BrokerView {
    match link_at(b, receiver) {
        Some(j) => with_link(
            b,
            j,
            LinkView { open: false, queue: Seq::empty(), used: 0, ..b.links[j] },
        ),
        None => b,
    }
}

pub open spec fn forgotten(b: BrokerView, receiver: u64) -> BrokerView {
    match link_at(b, receiver) {
        Some(j) => if b.links[j].active {
            b
        } else {
            BrokerView { links: b.links.remove(j), ..b }
        },
        None => b,
    }
}

/// A will held for a connection.
#[derive(Debug, PartialEq, Eq)]
pub struct WillGuard {
    pub token: u64,
}

impl WillGuard {
    /// From here on the will is published when its connection ends.
    pub fn arm(&mut self, broker: &mut MqttBroker)
        requires
            old(broker).wf(),
        ensures
            final(broker).wf(),
            final(broker).limits == old(broker).limits,
            *final(self) == *old(self),
            final(broker)@ == armed_will(old(broker)@, old(self).token),
    {
        broker.arm_will(self.token);
    }

    /// The will of a connection of MQTT 5 waits for the session to end or the delay to pass.
    pub fn arm_v5(
        &mut self,
        broker: &mut MqttBroker,
        key: SessionKey,
        incarnation: u64,
        generation: u64,
        delay: u32,
        session_expiry: u32,
        message_expiry: Option<u32>,
    )
        requires
            old(broker).wf(),
        ensures
            final(broker).wf(),
            final(broker).limits == old(broker).limits,
            *final(self) == *old(self),
            final(broker)@ == delayed_will(
                old(broker)@,
                old(self).token,
                DelayView { delay, session_expiry, key: key@, incarnation, generation },
                message_expiry,
            ),
    {
        broker.delay_will(
            self.token,
            WillDelay { delay, session_expiry, key, incarnation, generation },
            message_expiry,
        );
    }

    pub fn set_v5_session_expiry(&mut self, broker: &mut MqttBroker, interval: u32)
        requires
            old(broker).wf(),
        ensures
            final(broker).wf(),
            final(broker).limits == old(broker).limits,
            *final(self) == *old(self),
            final(broker)@ == prolonged_will(old(broker)@, old(self).token, interval),
    {
        broker.prolong_will(self.token, interval);
    }

    /// Settles the will: schedules it, gives it up or publishes it. Tells what was published.
    pub fn publish_v5(&mut self, broker: &mut MqttBroker, now: i64) -> (result: Result<
        Option<BrokerMessage>,
        Error,
    >)
        requires
            old(broker).wf(),
        ensures
            final(broker).wf(),
            final(broker).limits == old(broker).limits,
            *final(self) == *old(self),
            settle_will(old(broker)@, old(broker).limits, now, old(self).token) == (
                final(broker)@,
                settled_view(result),
            ),
    {
        broker.settle_will(self.token, now)
    }

    /// Publishes the will at once.
    pub fn publish(&mut self, broker: &mut MqttBroker, now: i64) -> (result: Result<
        BrokerMessage,
        Error,
    >)
        requires
            old(broker).wf(),
        ensures
            final(broker).wf(),
            final(broker).limits == old(broker).limits,
            *final(self) == *old(self),
            ({
                let (next, outcome) = settle_will(
                    old(broker)@,
                    old(broker).limits,
                    now,
                    old(self).token,
                );
                final(broker)@ == next && match outcome {
                    Ok(Some(message)) => result is Ok && result->Ok_0@ == message,
                    Ok(None) => result is Err && result->Err_0 == Error::Internal,
                    Err(error) => result is Err && result->Err_0 == error,
                }
            }),
    {
        match broker.settle_will(self.token, now) {
            Ok(Some(message)) => Ok(message),
            Ok(None) => Err(Error::Internal),
            Err(error) => Err(error),
        }
    }

    /// Gives the will up.
    pub fn suppress(&mut self, broker: &mut MqttBroker)
        requires
            old(broker).wf(),
        ensures
            final(broker).wf(),
            final(broker).limits == old(broker).limits,
            *final(self) == *old(self),
            final(broker)@ == without_guard(old(broker)@, old(self).token),
    {
        broker.suppress_will(self.token);
    }

    /// Lets the will go: settles it if it was armed, gives it up otherwise.
    pub fn close(self, broker: &mut MqttBroker, now: i64)
        requires
            old(broker).wf(),
        ensures
            final(broker).wf(),
            final(broker).limits == old(broker).limits,
            final(broker)@ == close_will(old(broker)@, old(broker).limits, now, self.token),
    {
        broker.close_will(self.token, now);
    }
}

pub open spec fn guard_result(result: Result<WillGuard, Error>) -> Result<u64, Error> {
    match result {
        Ok(guard) => Ok(guard.token),
        Err(error) => Err(error),
    }
}

impl Attachment {
    /// Leaves the session, once.
    pub fn detach(&mut self, broker: &mut MqttBroker, now: i64) -> (result: Result<(), Error>)
        requires
            old(broker).wf(),
        ensures
            final(broker).wf(),
            final(broker).limits == old(broker).limits,
            old(self).attached ==> detach_spec(
                old(broker)@,
                old(broker).limits,
                now,
                old(self)@.key,
                old(self).generation,
                old(self).clean_session,
            ) == (final(broker)@, failure(result)),
            !old(self).attached ==> result is Ok && final(broker)@ == old(broker)@,
            final(self).attached == (old(self).attached && result is Err),
            final(self)@ == (AttachmentView { attached: final(self).attached, ..old(self)@ }),
    {
        if self.attached {
            if let Err(error) = broker.detach(
                &self.key,
                self.generation,
                self.clean_session,
                now,
            ) {
                return Err(error);
            }
            self.attached = false;
        }
        Ok(())
    }
}

impl MqttBroker {
    /// Publishes for a device.
    pub fn route(&mut self, owner: &DeviceKey, message: BrokerMessage, now: i64) -> (result: Result<
        usize,
        Error,
    >)
        requires
            old(self).wf(),
        ensures
            final(self).wf(),
            final(self).limits == old(self).limits,
            publish(old(self)@, old(self).limits, now, owner@.tenant, None, message@) == (
                final(self)@,
                count_result(result),
            ),
    {
        self.route_with_origin(owner, None, message, now)
    }

    /// Publishes for a session, whose own subscriptions may decline it.
    pub fn route_from_session(&mut self, key: &SessionKey, message: BrokerMessage, now: i64) -> (result:
        Result<usize, Error>)
        requires
            old(self).wf(),
        ensures
            final(self).wf(),
            final(self).limits == old(self).limits,
            publish(
                old(self)@,
                old(self).limits,
                now,
                key@.device.tenant,
                Some(key@),
                message@,
            ) == (final(self)@, count_result(result)),
    {
        self.route_with_origin(&key.device, Some(key), message, now)
    }

    fn route_with_origin(
        &mut self,
        owner: &DeviceKey,
        origin: Option<&SessionKey>,
        message: BrokerMessage,
        now: i64,
    ) -> (result: Result<usize, Error>)
        requires
            old(self).wf(),
        ensures
            final(self).wf(),
            final(self).limits == old(self).limits,
            publish(
                old(self)@,
                old(self).limits,
                now,
                owner@.tenant,
                key_ref_view(origin),
                message@,
            ) == (final(self)@, count_result(result)),
    {
        proof {
            reveal(publish);
        }
        if !valid_broker_message(&message, &self.limits) {
            return Err(Error::Invalid);
        }
        if message.expired(now) || (!message.retain && self.totals().subscriptions == 0) {
            return Ok(0);
        }
        self.prune_expired_messages(now, HOT_MAINTENANCE_BUDGET);
        let result = self.route_locked(owner, origin, &message, now);
        let _ = self.drive_capacity_wakes(now);
        result
    }

    /// Takes over the will of a device's connection.
    pub fn reserve_will(&mut self, owner: DeviceKey, message: BrokerMessage) -> (result: Result<
        WillGuard,
        Error,
    >)
        requires
            old(self).wf(),
        ensures
            final(self).wf(),
            final(self).limits == old(self).limits,
            hold_will(old(self)@, old(self).limits, owner@, None, message@) == (
                final(self)@,
                guard_result(result),
            ),
    {
        match self.hold_will(&owner, None, message) {
            Ok(token) => Ok(WillGuard { token }),
            Err(error) => Err(error),
        }
    }

    /// Takes over the will of a session's connection.
    pub fn reserve_will_for_session(&mut self, origin: SessionKey, message: BrokerMessage) -> (result:
        Result<WillGuard, Error>)
        requires
            old(self).wf(),
        ensures
            final(self).wf(),
            final(self).limits == old(self).limits,
            hold_will(
                old(self)@,
                old(self).limits,
                origin@.device,
                Some(origin@),
                message@,
            ) == (final(self)@, guard_result(result)),
    {
        let owner = origin.device.clone();
        match self.hold_will(&owner, Some(origin), message) {
            Ok(token) => Ok(WillGuard { token }),
            Err(error) => Err(error),
        }
    }

    /// How many wills wait for their time or for room.
    pub fn pending_will_count(&self) -> (number: usize)
        ensures
            number == sat(self@.pending_wills.len() + self@.future_wills.len()),
    {
        saturated(self.pending_wills.len() as u128 + self.future_wills.len() as u128)
    }

    /// A write has given bytes back.
    pub fn outbound_bytes_released(&mut self, now: i64) -> (result: Result<(), Error>)
        requires
            old(self).wf(),
        ensures
            final(self).wf(),
            final(self).limits == old(self).limits,
            wake_global(old(self)@, old(self).limits, now) == (final(self)@, failure(result)),
    {
        self.wake_global_byte_pending(now)
    }

    /// One maintenance pass.
    pub fn tick(&mut self, now: i64) -> (result: Result<(), Error>)
        requires
            old(self).wf(),
        ensures
            final(self).wf(),
            final(self).limits == old(self).limits,
            ticked(old(self)@, old(self).limits, now) == (final(self)@, failure(result)),
    {
        proof {
            reveal(ticked);
        }
        self.prune_expired_sessions(now, TICK_MAINTENANCE_BUDGET);
        self.prune_expired_messages(now, TICK_MAINTENANCE_BUDGET);
        if let Err(error) = self.wake_global_byte_pending(now) {
            return Err(error);
        }
        let _ = self.retry_pending_wills_bounded(now, TICK_MAINTENANCE_BUDGET);
        Ok(())
    }

    fn is_concerned(session: &StoredSession, invalidation: &AuthInvalidation) -> (yes: bool)
        ensures
            yes == concerned(*invalidation)(session@),
    {
        match invalidation {
            AuthInvalidation::Device { device } => session.key.device.same(device),
            AuthInvalidation::Product { tenant_id, product_id } => session.key.device.tenant_id.same(
                tenant_id,
            ) && session.key.device.product_id.same(product_id),
            AuthInvalidation::Tenant { tenant_id } => session.key.device.tenant_id.same(tenant_id),
            AuthInvalidation::CredentialVersion { version } => match &session.authorization {
                Some(authorization) => authorization.credential_version == *version,
                None => true,
            },
            AuthInvalidation::AuthGeneration { generation } => match &session.authorization {
                Some(authorization) => authorization.auth_generation == *generation,
                None => true,
            },
            AuthInvalidation::All => true,
        }
    }

    fn concerned_keys(&self, invalidation: &AuthInvalidation) -> (keys: Vec<SessionKey>)
        ensures
            keys@.len() == keep(self@.sessions, concerned(*invalidation)).len(),
            forall|i: int|
                0 <= i < keys@.len() ==> (#[trigger] keys@[i])@ == keep(
                    self@.sessions,
                    concerned(*invalidation),
                )[i].key,
    {
        let ghost all = self@.sessions;
        let ghost p = concerned(*invalidation);
        let mut keys: Vec<SessionKey> = Vec::new();
        let mut at: usize = 0;
        assert(keep(all.take(0), p) =~= Seq::<SessionView>::empty());
        while at < self.sessions.len()
            invariant
                at <= self.sessions.len(),
                all == self@.sessions,
                p == concerned(*invalidation),
                keys@.len() == keep(all.take(at as int), p).len(),
                forall|i: int|
                    0 <= i < keys@.len() ==> (#[trigger] keys@[i])@ == keep(
                        all.take(at as int),
                        p,
                    )[i].key,
            decreases self.sessions.len() - at,
        {
            proof {
                lemma_keep_step(all, p, at as int);
            }
            assert(all[at as int] == self.sessions@[at as int]@);
            if MqttBroker::is_concerned(&self.sessions[at], invalidation) {
                keys.push(self.sessions[at].key.clone());
            }
            at = at + 1;
        }
        assert(all.take(all.len() as int) =~= all);
        keys
    }

    /// Gives up the sessions whose authorization no longer holds. Tells how many.
    pub fn invalidate_sessions(&mut self, invalidation: &AuthInvalidation, now: i64) -> (result: Result<
        usize,
        Error,
    >)
        requires
            old(self).wf(),
        ensures
            final(self).wf(),
            final(self).limits == old(self).limits,
            invalidated(old(self)@, old(self).limits, now, *invalidation) == (
                final(self)@,
                count_result(result),
            ),
    {
        proof {
            reveal(invalidated);
        }
        let keys = self.concerned_keys(invalidation);
        let ghost removed = keep(self@.sessions, concerned(*invalidation));
        let mut at: usize = 0;
        while at < keys.len()
            invariant
                at <= keys.len(),
                self.wf(),
                self.limits == old(self).limits,
                keys@.len() == removed.len(),
                forall|i: int| 0 <= i < keys@.len() ==> (#[trigger] keys@[i])@ == removed[i].key,
                self@ == remove_first(old(self)@, old(self).limits, removed, at as nat),
            decreases keys.len() - at,
        {
            assert(keys@[at as int]@ == removed[at as int].key);
            self.remove_session(&keys[at]);
            at = at + 1;
        }
        if let Err(error) = self.carry_on(now) {
            return Err(error);
        }
        Ok(keys.len())
    }

    /// Sessions, their bytes, subscriptions, retained messages and their bytes.
    pub fn usage(&self) -> (usage: (usize, usize, usize, usize, usize))
        requires
            self.wf(),
        ensures
            usage.0 == self@.sessions.len(),
            usage.1 == sat(total_usage(self@.sessions).state_bytes),
            usage.2 == sat(total_usage(self@.sessions).subscriptions),
            usage.3 == self@.retained.len(),
            usage.4 == sat(retained_bytes(self@, None)),
    {
        let totals = self.totals();
        let retained = self.retained_totals(None);
        (
            self.sessions.len(),
            saturated(totals.state_bytes),
            saturated(totals.subscriptions),
            self.retained.len(),
            saturated(retained.1),
        )
    }

    /// How many sessions a topic reaches.
    pub fn matching_subscription_count(&self, topic: &str) -> (number: usize)
        ensures
            number == trie_matching(self@.trie, topic@).len(),
    {
        let matches = self.trie.matching(topic);
        assert(subscriber_views(matches@).len() == matches@.len());
        matches.len()
    }

    /// How many retained messages a filter matches.
    pub fn matching_retained_count(&self, filter: &str, now: i64) -> (number: usize)
        ensures
            number == count(self@.retained, retained_live(filter@, now)),
    {
        let ghost all = self@.retained;
        let ghost p = retained_live(filter@, now);
        let mut number: usize = 0;
        let mut at: usize = 0;
        assert(count(all.take(0), p) == 0);
        while at < self.retained.len()
            invariant
                at <= self.retained.len(),
                all == self@.retained,
                p == retained_live(filter@, now),
                number <= at,
                number == count(all.take(at as int), p),
            decreases self.retained.len() - at,
        {
            proof {
                assert(all.take(at as int + 1).drop_last() =~= all.take(at as int));
                assert(all.take(at as int + 1).last() == all[at as int]);
            }
            if !self.retained[at].message.expired(now) && topic_matches(
                filter,
                self.retained[at].message.topic.as_str(),
            ) {
                number = number + 1;
            }
            at = at + 1;
        }
        assert(all.take(all.len() as int) =~= all);
        number
    }

    /// Whether a topic has a retained message that has not expired.
    pub fn has_retained_topic(&self, topic: &str, now: i64) -> (found: bool)
        ensures
            found == match retained_at(self@, topic@) {
                Some(i) => !expired_spec(self@.retained[i].message, now),
                None => false,
            },
    {
        match self.find_retained(topic) {
            Some(i) => {
                assert(self@.retained[i as int] == self.retained@[i as int]@);
                !self.retained[i].message.expired(now)
            },
            None => false,
        }
    }

    /// The best quality of service among a session's filters that match a topic.
    pub fn subscription_qos(&self, key: &SessionKey, topic: &str) -> (qos: Option<u8>)
        ensures
            qos == match session_at(self@, key@) {
                Some(i) => best_qos(self@.sessions[i].subscriptions, topic@),
                None => None,
            },
    {
        let i = match self.find_session(key) {
            Some(i) => i,
            None => return None,
        };
        let ghost subs = self@.sessions[i as int].subscriptions;
        let mut best: Option<u8> = None;
        let mut at: usize = 0;
        assert(subs.len() == self.sessions@[i as int].subscriptions@.len());
        assert(best_qos(subs.take(0), topic@) is None);
        while at < self.sessions[i].subscriptions.len()
            invariant
                i < self.sessions@.len(),
                subs == self@.sessions[i as int].subscriptions,
                subs.len() == self.sessions@[i as int].subscriptions@.len(),
                at <= subs.len(),
                best == best_qos(subs.take(at as int), topic@),
            decreases subs.len() - at,
        {
            proof {
                assert(subs.take(at as int + 1).drop_last() =~= subs.take(at as int));
                assert(subs.take(at as int + 1).last() == subs[at as int]);
                assert(subs[at as int].0 == self.sessions@[i as int].subscriptions@[at as int].0@);
            }
            let qos = self.sessions[i].subscriptions[at].1.qos;
            let better = match best {
                Some(best) => best < qos,
                None => true,
            };
            if topic_matches(self.sessions[i].subscriptions[at].0.as_str(), topic) && better {
                best = Some(qos);
            }
            at = at + 1;
        }
        assert(subs.take(subs.len() as int) =~= subs);
        best
    }

    fn find_link(&self, receiver: u64) -> (position: Option<usize>)
        ensures
            match position {
                Some(j) => link_at(self@, receiver) == Some(j as int) && j < self.links@.len(),
                None => link_at(self@, receiver) is None,
            },
    {
        let mut at: usize = 0;
        while at < self.links.len()
            invariant
                at <= self.links.len(),
                forall|j: int| 0 <= j < at ==> !link_is(receiver)(#[trigger] self@.links[j]),
            decreases self.links.len() - at,
        {
            if self.links[at].receiver == receiver {
                proof {
                    assert(is_first(self@.links, link_is(receiver), at as int));
                    lemma_first_is(self@.links, link_is(receiver), at as int);
                }
                return Some(at);
            }
            at = at + 1;
        }
        proof {
            lemma_first_none(self@.links, link_is(receiver));
        }
        None
    }

    /// Takes the next queued frame of a connection.
    pub fn try_recv(&mut self, receiver: u64) -> (frame: Option<BrokerFrame>)
        requires
            old(self).wf(),
        ensures
            final(self).wf(),
            final(self).limits == old(self).limits,
            received(old(self)@, receiver) == (final(self)@, frame_option(frame)),
    {
        let j = match self.find_link(receiver) {
            Some(j) => j,
            None => return None,
        };
        assert(self@.links[j as int].queue.len() == self.links@[j as int].queue@.len());
        if self.links[j].queue.len() == 0 {
            return None;
        }
        let ghost before = self@;
        let ghost queue = self.links@[j as int].queue@;
        let frame = self.links[j].queue.remove(0);
        proof {
            assert(frame_views(self.links@[j as int].queue@) =~= frame_views(queue).remove(0));
            let l = LinkView {
                queue: before.links[j as int].queue.remove(0),
                ..before.links[j as int]
            };
            assert(self@.links =~= before.links.update(j as int, l));
            assert(self@ =~= with_link(before, j as int, l));
            assert(frame@ == before.links[j as int].queue[0]);
        }
        Some(frame)
    }

    /// Gives back the bytes of a frame that was written or dropped.
    pub fn release_frame(&mut self, receiver: u64, frame: &BrokerFrame)
        requires
            old(self).wf(),
        ensures
            final(self).wf(),
            final(self).limits == old(self).limits,
            final(self)@ == written(
                old(self)@,
                receiver,
                super::model::frame_charge(frame@),
            ),
    {
        let charge: usize = frame.bytes();
        if let Some(j) = self.find_link(receiver) {
            let ghost before = self@;
            self.links[j].used = if self.links[j].used >= charge {
                self.links[j].used - charge
            } else {
                0
            };
            proof {
                let l = LinkView {
                    used: sat_sub(before.links[j as int].used, charge as nat),
                    ..before.links[j as int]
                };
                assert(self@.links =~= before.links.update(j as int, l));
                assert(self@ =~= with_link(before, j as int, l));
            }
        }
    }

    /// The connection takes no more frames.
    pub fn close_receiver(&mut self, receiver: u64)
        requires
            old(self).wf(),
        ensures
            final(self).wf(),
            final(self).limits == old(self).limits,
            final(self)@ == shut(old(self)@, receiver),
    {
        if let Some(j) = self.find_link(receiver) {
            let ghost before = self@;
            self.links[j].open = false;
            self.links[j].queue = Vec::new();
            self.links[j].used = 0;
            proof {
                assert(frame_views(self.links@[j as int].queue@) =~= Seq::<FrameView>::empty());
                let l = LinkView {
                    open: false,
                    queue: Seq::empty(),
                    used: 0,
                    ..before.links[j as int]
                };
                assert(self@.links =~= before.links.update(j as int, l));
                assert(self@ =~= with_link(before, j as int, l));
            }
        }
    }

    /// Forgets a connection that no longer holds a session.
    pub fn forget_link(&mut self, receiver: u64)
        requires
            old(self).wf(),
        ensures
            final(self).wf(),
            final(self).limits == old(self).limits,
            final(self)@ == forgotten(old(self)@, receiver),
    {
        if let Some(j) = self.find_link(receiver) {
            if !self.links[j].active {
                let ghost before = self@;
                let _ = self.links.remove(j);
                proof {
                    assert(self@.links =~= before.links.remove(j as int));
                    assert(self@ =~= (BrokerView {
                        links: before.links.remove(j as int),
                        ..before
                    }));
                }
            }
        }
    }

    /// Whether a connection has been told to stop.
    pub fn is_cancelled(&self, receiver: u64) -> (cancelled: bool)
        ensures
            cancelled == match link_at(self@, receiver) {
                Some(j) => self@.links[j].cancelled,
                None => true,
            },
    {
        match self.find_link(receiver) {
            Some(j) => self.links[j].cancelled,
            None => true,
        }
    }

    /// Whether a connection has taken its last frame: the session is no longer its own, and
    /// nothing is queued any more.
    pub fn is_drained(&self, receiver: u64) -> (drained: bool)
        ensures
            drained == match link_at(self@, receiver) {
                Some(j) => !self@.links[j].active && self@.links[j].queue.len() == 0,
                None => true,
            },
    {
        match self.find_link(receiver) {
            Some(j) => {
                assert(self@.links[j as int].queue.len() == self.links@[j as int].queue@.len());
                !self.links[j].active && self.links[j].queue.len() == 0
            },
            None => true,
        }
    }
}

} // verus!
