//! Getting frames to connections: exchanges handed again, waiting messages promoted, and the
//! queue of sessions that wait for room.
use super::model::{
    advance, drive, drive_wakes, enqueue, finish_exchange, least, least_wake, lemma_put_session,
    live_exchange, next_unsent, promote, prune_if_due, prune_session, push_next, put_session,
    queue_offline, queued_for, remove_session, reserved, text_before, touch_session,
    waiting_allowed, wake_before, wake_global, wake_global_loop, wake_session, wake_tenant,
    wake_tenant_loop, without_filters, BrokerView, FrameView, HOT_MAINTENANCE_BUDGET,
};
use super::state::{cap_sum, lemma_session_ok, BrokerFrame, MqttBroker};
use crate::error::Error;
use crate::identity::{SessionKey, TenantId};
use crate::list::{count, first, is_first, lemma_first, lemma_first_is, lemma_first_none};
use crate::message::{charge_of, BrokerMessage, MessageView};
use crate::session::{
    fresh_exchange, is_unsent, lemma_next_free, next_free, outbound_at, pruned, session_charge,
    OutboundStage, SessionView, Subscription,
};
use crate::text::characters;
use vstd::prelude::*;

verus! {

pub open spec fn frame_option(frame: Option<BrokerFrame>) -> Option<FrameView> {
    match frame {
        Some(frame) => Some(frame@),
        None => None,
    }
}

pub open spec fn step_of(result: Result<Option<BrokerFrame>, Error>) -> Result<
    Option<FrameView>,
    Error,
> {
    match result {
        Ok(frame) => Ok(frame_option(frame)),
        Err(error) => Err(error),
    }
}

pub open spec fn failure(result: Result<(), Error>) -> Option<Error> {
    match result {
        Ok(_) => None,
        Err(error) => Some(error),
    }
}

impl MqttBroker {
    /// The first exchange that the connection has not been handed, if it may be handed it now.
    pub fn next_unsent_frame(&mut self, i: usize, j: usize) -> (frame: Option<BrokerFrame>)
        requires
            old(self).wf(),
            i < old(self)@.sessions.len(),
            j < old(self)@.links.len(),
        ensures
            final(self).wf(),
            final(self).limits == old(self).limits,
            next_unsent(old(self)@, old(self).limits, i as int, j as int) == (
                final(self)@,
                frame_option(frame),
            ),
    {
        proof {
            reveal(next_unsent);
        }
        proof {
            lemma_session_ok(self.sessions@, i as int);
            lemma_first(self@.sessions[i as int].outbound, is_unsent());
        }
        let k = match self.sessions[i].find_unsent() {
            Some(k) => k,
            None => return None,
        };
        let packet_id = self.sessions[i].outbound[k].packet_id;
        assert(self@.sessions[i as int].outbound[k as int]
            == self.sessions@[i as int].outbound@[k as int]@);
        if self.sessions[i].outbound[k].state.stage() == OutboundStage::Pubcomp {
            let ghost before = *self;
            self.sessions[i].hand_over(k, false);
            proof {
                self.lemma_touched(i as int, before);
            }
            return Some(BrokerFrame::Pubrel { packet_id, dup: true });
        }
        if !self.sessions[i].has_send_quota() {
            return None;
        }
        let message = self.sessions[i].outbound[k].state.message().clone();
        let command = self.sessions[i].outbound[k].command;
        let charge: usize = message.bytes();
        if !self.fits_link(j, charge) {
            return None;
        }
        self.reserve_frame(j, charge);
        let ghost before = *self;
        proof {
            lemma_session_ok(self.sessions@, i as int);
            assert(self@.sessions[i as int] == old(self)@.sessions[i as int]);
            assert(self@.sessions[i as int].outbound.len()
                == self.sessions@[i as int].outbound@.len());
        }
        self.sessions[i].hand_over(k, true);
        proof {
            self.lemma_touched(i as int, before);
        }
        Some(BrokerFrame::publish(message, Some(packet_id), true, command))
    }

    /// The first waiting message as a new exchange, if there is room for one.
    pub fn promote_offline(&mut self, i: usize, j: usize) -> (result: Result<
        Option<BrokerFrame>,
        Error,
    >)
        requires
            old(self).wf(),
            i < old(self)@.sessions.len(),
            j < old(self)@.links.len(),
        ensures
            final(self).wf(),
            final(self).limits == old(self).limits,
            promote(old(self)@, old(self).limits, i as int, j as int) == (
                final(self)@,
                step_of(result),
            ),
    {
        proof {
            reveal(promote);
        }
        let ghost s = self@.sessions[i as int];
        proof {
            lemma_session_ok(self.sessions@, i as int);
            lemma_next_free(s);
        }
        if self.sessions[i].offline.len() == 0 {
            return Ok(None);
        }
        assert(s.offline[0] == self.sessions@[i as int].offline@[0]@);
        let charge: usize = self.sessions[i].offline[0].bytes();
        let qos = self.sessions[i].offline[0].qos;
        if !self.fits_link(j, charge) || !self.sessions[i].has_outbound_capacity(qos, &self.limits)
            || !self.sessions[i].has_send_quota() {
            return Ok(None);
        }
        let id: u16 = match self.sessions[i].projected_packet_id() {
            Ok(id) => id,
            Err(error) => return Err(error),
        };
        self.reserve_frame(j, charge);
        let ghost before = *self;
        proof {
            lemma_session_ok(self.sessions@, i as int);
            assert(self@.sessions[i as int] == s);
            assert(self@.sessions[i as int].offline.len() == self.sessions@[i as int].offline@.len());
        }
        let message = self.sessions[i].promote_first(id);
        self.sync_session_usage(i, Ghost(before));
        Ok(Some(BrokerFrame::publish(message, Some(id), false, false)))
    }

    /// The next frame for a connected session.
    pub fn advance_session(&mut self, i: usize, j: usize) -> (result: Result<
        Option<BrokerFrame>,
        Error,
    >)
        requires
            old(self).wf(),
            i < old(self)@.sessions.len(),
            j < old(self)@.links.len(),
        ensures
            final(self).wf(),
            final(self).limits == old(self).limits,
            advance(old(self)@, old(self).limits, i as int, j as int) == (
                final(self)@,
                step_of(result),
            ),
    {
        if self.sessions[i].unsent_outbound_qos().is_some() {
            Ok(self.next_unsent_frame(i, j))
        } else {
            self.promote_offline(i, j)
        }
    }

    fn push_next_frame(&mut self, i: usize, j: usize) -> (result: Result<(), Error>)
        requires
            old(self).wf(),
            i < old(self)@.sessions.len(),
            j < old(self)@.links.len(),
        ensures
            final(self).wf(),
            final(self).limits == old(self).limits,
            push_next(old(self)@, old(self).limits, i as int, j as int) == (
                final(self)@,
                failure(result),
            ),
    {
        proof {
            lemma_advance_links(self@, self.limits, i as int, j as int);
        }
        match self.advance_session(i, j) {
            Err(error) => Err(error),
            Ok(None) => Ok(()),
            Ok(Some(frame)) => {
                let _ = self.send_frame(j, frame);
                Ok(())
            },
        }
    }

    /// Drops what has expired in one session.
    pub fn prune_session_messages(&mut self, key: &SessionKey, now: i64)
        requires
            old(self).wf(),
        ensures
            final(self).wf(),
            final(self).limits == old(self).limits,
            final(self)@ == prune_session(old(self)@, old(self).limits, key@, now),
    {
        proof {
            reveal(prune_session);
        }
        if let Some(i) = self.find_session(key) {
            proof {
                lemma_session_ok(self.sessions@, i as int);
            }
            let ghost before = *self;
            let _ = self.sessions[i].prune_messages(now);
            let empty = self.sessions[i].offline.len() == 0;
            assert(pruned(before@.sessions[i as int], now).offline.len() == 0 <==> empty);
            self.sync_session_usage(i, Ghost(before));
            if empty {
                self.unmark_pending(key);
            }
        }
    }

    pub fn prune_when_due(&mut self, key: &SessionKey, now: i64)
        requires
            old(self).wf(),
        ensures
            final(self).wf(),
            final(self).limits == old(self).limits,
            final(self)@ == prune_if_due(old(self)@, old(self).limits, key@, now),
    {
        if self.message_expiry_due(key, now) {
            self.prune_session_messages(key, now);
        }
    }

    /// Looks after one queued session.
    fn wake_one(&mut self, key: &SessionKey, now: i64, gate: Option<u8>) -> (result: Result<
        (),
        Error,
    >)
        requires
            old(self).wf(),
        ensures
            final(self).wf(),
            final(self).limits == old(self).limits,
            wake_session(old(self)@, old(self).limits, now, key@, gate) == (
                final(self)@,
                failure(result),
            ),
    {
        proof {
            reveal(wake_session);
        }
        self.unmark_pending(key);
        self.prune_when_due(key, now);
        let ghost b1 = self@;
        let session = self.find_session(key);
        let link = self.find_active(key);
        if let (Some(i), Some(j)) = (session, link) {
            let admitted = match (self.sessions[i].next_waiting_qos(), gate) {
                (None, _) => false,
                (Some(qos), Some(wanted)) => qos == wanted && self.tenant_has_inflight(
                    &key.device.tenant_id,
                    qos,
                ),
                (Some(qos), None) => self.sessions[i].unsent_outbound_qos().is_some()
                    || self.tenant_has_inflight(&key.device.tenant_id, qos),
            };
            if admitted && self.link_has_room(j) {
                if let Err(error) = self.push_next_frame(i, j) {
                    return Err(error);
                }
            }
        }
        self.mark_pending(key);
        Ok(())
    }

    fn find_queued(&self, tenant: &TenantId, qos: u8) -> (position: Option<usize>)
        ensures
            match position {
                Some(k) => first(self@.pending, queued_for(tenant@, qos)) == Some(k as int) && k
                    < self.pending.entries@.len(),
                None => first(self@.pending, queued_for(tenant@, qos)) is None,
            },
    {
        let mut at: usize = 0;
        while at < self.pending.entries.len()
            invariant
                at <= self.pending.entries.len(),
                forall|j: int| 0 <= j < at ==> !queued_for(tenant@, qos)(
                    #[trigger] self@.pending[j],
                ),
            decreases self.pending.entries.len() - at,
        {
            if self.pending.entries[at].1 == qos
                && self.pending.entries[at].0.device.tenant_id.same(tenant) {
                proof {
                    assert(is_first(self@.pending, queued_for(tenant@, qos), at as int));
                    lemma_first_is(self@.pending, queued_for(tenant@, qos), at as int);
                }
                return Some(at);
            }
            at = at + 1;
        }
        proof {
            lemma_first_none(self@.pending, queued_for(tenant@, qos));
        }
        None
    }

    fn queued_count(&self, tenant: &TenantId, qos: u8) -> (number: usize)
        ensures
            number == count(self@.pending, queued_for(tenant@, qos)),
    {
        let ghost all = self@.pending;
        let ghost p = queued_for(tenant@, qos);
        let mut number: usize = 0;
        let mut at: usize = 0;
        assert(count(all.take(0), p) == 0);
        while at < self.pending.entries.len()
            invariant
                at <= self.pending.entries.len(),
                all == self@.pending,
                p == queued_for(tenant@, qos),
                number <= at,
                number == count(all.take(at as int), p),
            decreases self.pending.entries.len() - at,
        {
            proof {
                assert(all.take(at as int + 1).drop_last() =~= all.take(at as int));
                assert(all.take(at as int + 1).last() == all[at as int]);
            }
            if self.pending.entries[at].1 == qos
                && self.pending.entries[at].0.device.tenant_id.same(tenant) {
                number = number + 1;
            }
            at = at + 1;
        }
        assert(all.take(all.len() as int) =~= all);
        number
    }

    /// Looks after the queued sessions of a tenant, each at most once, while the tenant has room.
    pub fn wake_tenant_pending(&mut self, tenant: &TenantId, qos: u8, now: i64) -> (result: Result<
        (),
        Error,
    >)
        requires
            old(self).wf(),
        ensures
            final(self).wf(),
            final(self).limits == old(self).limits,
            wake_tenant(old(self)@, old(self).limits, now, tenant@, qos) == (
                final(self)@,
                failure(result),
            ),
    {
        proof {
            reveal(wake_tenant);
        }
        let mut attempts: usize = self.queued_count(tenant, qos);
        let ghost goal = wake_tenant(self@, self.limits, now, tenant@, qos);
        let ghost limits = self.limits;
        while attempts > 0
            invariant
                self.wf(),
                self.limits == limits,
                goal == wake_tenant(old(self)@, limits, now, tenant@, qos),
                limits == old(self).limits,
                goal == wake_tenant_loop(self@, limits, now, tenant@, qos, attempts as nat),
            decreases attempts,
        {
            if !self.tenant_has_inflight(tenant, qos) {
                return Ok(());
            }
            let k = match self.find_queued(tenant, qos) {
                Some(k) => k,
                None => return Ok(()),
            };
            let key = self.pending.entries[k].0.clone();
            assert(key@ == self@.pending[k as int].0);
            if let Err(error) = self.wake_one(&key, now, Some(qos)) {
                return Err(error);
            }
            attempts = attempts - 1;
        }
        Ok(())
    }

    fn least_wake_at(&self) -> (position: usize)
        requires
            self.wakes@.len() > 0,
        ensures
            position == least_wake(self@.wakes, self@.wakes.len()),
            position < self.wakes@.len(),
    {
        let ghost all = self@.wakes;
        let mut best: usize = 0;
        let mut at: usize = 1;
        while at < self.wakes.len()
            invariant
                1 <= at <= self.wakes.len(),
                all == self@.wakes,
                best < at,
                best == least_wake(all, at as nat),
            decreases self.wakes.len() - at,
        {
            let earlier = earlier_wake(&self.wakes[at], &self.wakes[best]);
            assert(earlier == wake_before(all[at as int], all[best as int]));
            if earlier {
                best = at;
            }
            at = at + 1;
        }
        best
    }

    /// Looks after the tenants that finished exchanges, within a budget.
    pub fn drive_capacity_wakes(&mut self, now: i64) -> (result: Result<(), Error>)
        requires
            old(self).wf(),
        ensures
            final(self).wf(),
            final(self).limits == old(self).limits,
            drive(old(self)@, old(self).limits, now) == (final(self)@, failure(result)),
    {
        proof {
            reveal(drive);
        }
        let mut budget: usize = HOT_MAINTENANCE_BUDGET;
        let ghost goal = drive(self@, self.limits, now);
        let ghost limits = self.limits;
        while budget > 0
            invariant
                self.wf(),
                self.limits == limits,
                goal == drive(old(self)@, limits, now),
                limits == old(self).limits,
                goal == drive_wakes(self@, limits, now, budget as nat),
            decreases budget,
        {
            if self.wakes.len() == 0 {
                assert(self@.wakes.len() == 0);
                return Ok(());
            }
            let k = self.least_wake_at();
            let ghost before = self@;
            let (tenant, qos) = self.wakes.remove(k);
            proof {
                assert(self@.wakes =~= before.wakes.remove(k as int));
                assert(self@ =~= (BrokerView { wakes: before.wakes.remove(k as int), ..before }));
                assert(before.wakes[k as int] == (tenant@, qos));
            }
            if let Err(error) = self.wake_tenant_pending(&tenant, qos, now) {
                self.restore_wake(&tenant, qos);
                return Err(error);
            }
            budget = budget - 1;
        }
        Ok(())
    }

    /// A finished write gave bytes back: looks after the sessions that wait longest, whatever
    /// their tenant.
    pub fn wake_global_byte_pending(&mut self, now: i64) -> (result: Result<(), Error>)
        requires
            old(self).wf(),
        ensures
            final(self).wf(),
            final(self).limits == old(self).limits,
            wake_global(old(self)@, old(self).limits, now) == (final(self)@, failure(result)),
    {
        let queued: usize = self.pending.entries.len();
        assert(queued == self@.pending.len());
        let mut attempts: usize = if queued < HOT_MAINTENANCE_BUDGET {
            queued
        } else {
            HOT_MAINTENANCE_BUDGET
        };
        let ghost start = self@;
        let ghost limits = self.limits;
        let ghost total_attempts = attempts as nat;
        while attempts > 0
            invariant
                self.wf(),
                self.limits == limits,
                total_attempts == least(start.pending.len(), HOT_MAINTENANCE_BUDGET as nat),
                wake_global_loop(start, limits, now, total_attempts) == wake_global_loop(
                    self@,
                    limits,
                    now,
                    attempts as nat,
                ),
                start == old(self)@,
                limits == old(self).limits,
            decreases attempts,
        {
            if self.pending.entries.len() == 0 {
                assert(self@.pending.len() == 0);
                assert(wake_global_loop(start, limits, now, total_attempts) == (
                    self@,
                    None::<Error>,
                ));
                return self.drive_capacity_wakes(now);
            }
            let key = self.pending.entries[0].0.clone();
            assert(key@ == self@.pending[0].0);
            if let Err(error) = self.wake_one(&key, now, None) {
                return Err(error);
            }
            attempts = attempts - 1;
        }
        self.drive_capacity_wakes(now)
    }

    /// Takes the filters of a session out of the trie.
    fn forget_filters(&mut self, key: &SessionKey, subscriptions: &Vec<(String, Subscription)>)
        requires
            old(self).wf(),
        ensures
            final(self).wf(),
            final(self).limits == old(self).limits,
            final(self)@ == (BrokerView {
                trie: without_filters(
                    old(self)@.trie,
                    key@,
                    crate::session::sub_views(subscriptions@),
                ),
                ..old(self)@
            }),
    {
        let ghost views = crate::session::sub_views(subscriptions@);
        let ghost trie = self@.trie;
        let mut at: usize = 0;
        while at < subscriptions.len()
            invariant
                at <= subscriptions.len(),
                views == crate::session::sub_views(subscriptions@),
                trie == old(self)@.trie,
                self.wf(),
                self.limits == old(self).limits,
                self@ == (BrokerView {
                    trie: without_filters(trie, key@, views.take(at as int)),
                    ..old(self)@
                }),
            decreases subscriptions.len() - at,
        {
            proof {
                assert(views.take(at as int + 1).drop_last() =~= views.take(at as int));
                assert(views.take(at as int + 1).last() == views[at as int]);
            }
            self.trie.remove(subscriptions[at].0.as_str(), key);
            at = at + 1;
        }
        assert(views.take(views.len() as int) =~= views);
    }

    /// Gives up a session with everything it holds.
    pub fn remove_session(&mut self, key: &SessionKey)
        requires
            old(self).wf(),
        ensures
            final(self).wf(),
            final(self).limits == old(self).limits,
            final(self)@ == remove_session(old(self)@, old(self).limits, key@),
    {
        proof {
            reveal(remove_session);
        }
        self.unmark_pending(key);
        self.release_link(key);
        if let Some(i) = self.find_session(key) {
            let ghost b1 = self@;
            let session = self.take_session(i);
            self.forget_filters(key, &session.subscriptions);
        }
        self.reindex(key);
    }

    /// Whether one more message may wait.
    pub fn may_wait(
        &self,
        i: usize,
        own: (u128, u128),
        of_tenant: (u128, u128),
        of_all: (u128, u128),
        charge: usize,
    ) -> (allowed: bool)
        requires
            self.wf(),
            i < self@.sessions.len(),
        ensures
            allowed == waiting_allowed(
                self@,
                self.limits,
                self@.sessions[i as int],
                (own.0 as nat, own.1 as nat),
                (of_tenant.0 as nat, of_tenant.1 as nat),
                (of_all.0 as nat, of_all.1 as nat),
                charge as nat,
            ),
    {
        proof {
            lemma_session_ok(self.sessions@, i as int);
        }
        let session = &self.sessions[i];
        let tenant = self.tenant_totals(&session.key.device.tenant_id);
        let all = self.totals();
        let bytes: u128 = charge as u128;
        cap_sum(session.offline.len() as u128, own.0)
            < self.limits.max_offline_messages_per_session as u128 && cap_sum(
            cap_sum(session.offline_bytes as u128, own.1),
            bytes,
        ) <= self.limits.max_offline_bytes_per_session as u128 && cap_sum(
            tenant.offline_count,
            of_tenant.0,
        ) < self.limits.max_offline_messages_per_tenant as u128 && cap_sum(
            cap_sum(tenant.offline_bytes, of_tenant.1),
            bytes,
        ) <= self.limits.max_offline_bytes_per_tenant as u128 && cap_sum(
            all.offline_count,
            of_all.0,
        ) < self.limits.max_offline_messages as u128 && cap_sum(
            cap_sum(all.offline_bytes, of_all.1),
            bytes,
        ) <= self.limits.max_offline_bytes as u128
    }

    /// Puts a message into a session's waiting queue.
    pub fn queue_offline(&mut self, key: &SessionKey, message: BrokerMessage) -> (result: Result<
        (),
        Error,
    >)
        requires
            old(self).wf(),
        ensures
            final(self).wf(),
            final(self).limits == old(self).limits,
            queue_offline(old(self)@, old(self).limits, key@, message@) == (final(self)@, result),
    {
        proof {
            reveal(queue_offline);
        }
        if message.qos == 0 {
            return Ok(());
        }
        let i = match self.find_session(key) {
            Some(i) => i,
            None => return Err(Error::Unavailable),
        };
        let charge: usize = message.bytes();
        if !self.may_wait(i, (0, 0), (0, 0), (0, 0), charge) || !self.may_grow(i, 0, 0, 0, charge) {
            return Err(Error::Overloaded);
        }
        proof {
            lemma_session_ok(self.sessions@, i as int);
        }
        let ghost before = *self;
        self.sessions[i].push_offline(message);
        self.sync_session_usage(i, Ghost(before));
        self.mark_pending(key);
        Ok(())
    }

    /// Hands a message to a connected session, or lets it wait.
    pub fn enqueue(&mut self, key: &SessionKey, message: BrokerMessage, command: bool, now: i64) -> (result:
        Result<(), Error>)
        requires
            old(self).wf(),
        ensures
            final(self).wf(),
            final(self).limits == old(self).limits,
            enqueue(old(self)@, old(self).limits, now, key@, message@, command) == (
                final(self)@,
                result,
            ),
    {
        proof {
            reveal(enqueue);
        }
        if message.expired(now) {
            return Ok(());
        }
        let j = match self.find_active(key) {
            Some(j) => j,
            None => return self.queue_offline(key, message),
        };
        let charge: usize = message.bytes();
        if charge > self.limits.max_outbound_bytes_per_connection {
            return Err(Error::Overloaded);
        }
        if !self.link_has_room(j) || !self.fits_link(j, charge) {
            return self.queue_offline(key, message);
        }
        if message.qos > 0 && !self.tenant_has_inflight(&key.device.tenant_id, message.qos) {
            return self.queue_offline(key, message);
        }
        let i = match self.find_session(key) {
            Some(i) => i,
            None => return Err(Error::Internal),
        };
        if message.qos == 0 {
            self.reserve_frame(j, charge);
            if self.send_frame(j, BrokerFrame::publish(message, None, false, command)) {
                return Ok(());
            }
            return if command {
                Err(Error::Unavailable)
            } else {
                Err(Error::Overloaded)
            };
        }
        if !self.sessions[i].has_outbound_capacity(message.qos, &self.limits)
            || !self.sessions[i].has_send_quota() {
            return self.queue_offline(key, message);
        }
        self.enqueue_exchange(i, j, message, command)
    }

    /// Starts an exchange with a connected session.
    fn enqueue_exchange(
        &mut self,
        i: usize,
        j: usize,
        message: BrokerMessage,
        command: bool,
    ) -> (result: Result<(), Error>)
        requires
            old(self).wf(),
            i < old(self)@.sessions.len(),
            j < old(self)@.links.len(),
        ensures
            final(self).wf(),
            final(self).limits == old(self).limits,
            live_exchange(
                old(self)@,
                old(self).limits,
                i as int,
                j as int,
                message@,
                command,
            ) == (final(self)@, result),
    {
        proof {
            reveal(live_exchange);
        }
        let ghost b = self@;
        let ghost s = self@.sessions[i as int];
        proof {
            lemma_session_ok(self.sessions@, i as int);
            lemma_next_free(s);
        }
        let charge: usize = message.bytes();
        let allowed = self.may_grow(i, 0, 0, 0, charge);
        let id: u16 = match self.take_packet_id(i) {
            Ok(id) => id,
            Err(error) => return Err(error),
        };
        if !allowed {
            return Err(Error::Overloaded);
        }
        self.begin_exchange(i, j, id, &message, command);
        proof {
            lemma_put_session(
                reserved(touch_session(b, i as int, before_exchange(s, id)), j as int, charge as nat),
                self.limits,
                i as int,
                in_exchange(s, id, message@, command),
            );
        }
        self.finish_exchange(i, j, id, message, command)
    }

    /// Hands the frame of an exchange that was just started to its connection.
    fn finish_exchange(
        &mut self,
        i: usize,
        j: usize,
        id: u16,
        message: BrokerMessage,
        command: bool,
    ) -> (result: Result<(), Error>)
        requires
            old(self).wf(),
            i < old(self)@.sessions.len(),
            j < old(self)@.links.len(),
            old(self)@.sessions[i as int].outbound.len() > 0,
        ensures
            final(self).wf(),
            final(self).limits == old(self).limits,
            finish_exchange(
                old(self)@,
                old(self).limits,
                i as int,
                j as int,
                id,
                message@,
                command,
            ) == (final(self)@, result),
    {
        proof {
            reveal(finish_exchange);
        }
        if self.send_frame(j, BrokerFrame::publish(message, Some(id), false, command)) {
            return Ok(());
        }
        if !command {
            return Ok(());
        }
        self.undo_exchange(i);
        Err(Error::Unavailable)
    }

    /// Gives out an identifier of a session.
    fn take_packet_id(&mut self, i: usize) -> (result: Result<u16, Error>)
        requires
            old(self).wf(),
            i < old(self)@.sessions.len(),
        ensures
            final(self).wf(),
            final(self).limits == old(self).limits,
            match next_free(old(self)@.sessions[i as int]) {
                Some(id) => result == Ok::<u16, Error>(id) && final(self)@ == touch_session(
                    old(self)@,
                    i as int,
                    before_exchange(old(self)@.sessions[i as int], id),
                ),
                None => result == Err::<u16, Error>(Error::Overloaded) && final(self)@
                    == old(self)@,
            },
    {
        let ghost before = *self;
        proof {
            lemma_session_ok(self.sessions@, i as int);
        }
        let result = self.sessions[i].allocate_packet_id();
        proof {
            assert(self.unsettled(i as int, before));
            self.lemma_touched(i as int, before);
            assert(touch_session(before@, i as int, before@.sessions[i as int]) =~= before@);
        }
        result
    }

    /// Counts a frame and its exchange.
    fn begin_exchange(
        &mut self,
        i: usize,
        j: usize,
        id: u16,
        message: &BrokerMessage,
        command: bool,
    )
        requires
            old(self).wf(),
            i < old(self)@.sessions.len(),
            j < old(self)@.links.len(),
            outbound_at(old(self)@.sessions[i as int], id) is None,
            session_charge(old(self)@.sessions[i as int]) + charge_of(message@) <= usize::MAX,
        ensures
            final(self).wf(),
            final(self).limits == old(self).limits,
            final(self)@ == put_session(
                reserved(old(self)@, j as int, charge_of(message@)),
                old(self).limits,
                i as int,
                SessionView {
                    outbound: old(self)@.sessions[i as int].outbound.push(
                        fresh_exchange(id, message@, command),
                    ),
                    ..old(self)@.sessions[i as int]
                },
            ),
    {
        let charge: usize = message.bytes();
        self.reserve_frame(j, charge);
        let ghost middle = *self;
        proof {
            lemma_session_ok(self.sessions@, i as int);
            assert(self@.sessions[i as int] == old(self)@.sessions[i as int]);
        }
        self.sessions[i].start_exchange(id, message.clone(), command);
        self.sync_session_usage(i, Ghost(middle));
    }

    /// Takes the exchange that was started last back.
    fn undo_exchange(&mut self, i: usize)
        requires
            old(self).wf(),
            i < old(self)@.sessions.len(),
            old(self)@.sessions[i as int].outbound.len() > 0,
        ensures
            final(self).wf(),
            final(self).limits == old(self).limits,
            final(self)@ == put_session(
                old(self)@,
                old(self).limits,
                i as int,
                SessionView {
                    outbound: old(self)@.sessions[i as int].outbound.remove(
                        old(self)@.sessions[i as int].outbound.len() - 1,
                    ),
                    ..old(self)@.sessions[i as int]
                },
            ),
    {
        let ghost last = *self;
        proof {
            lemma_session_ok(self.sessions@, i as int);
            assert(self@.sessions[i as int].outbound.len()
                == self.sessions@[i as int].outbound@.len());
        }
        let at: usize = self.sessions[i].outbound.len() - 1;
        let _ = self.sessions[i].remove_outbound_at(at);
        self.sync_session_usage(i, Ghost(last));
    }
}

spec fn before_exchange(s: SessionView, id: u16) -> SessionView {
    SessionView { next_packet_id: crate::session::id_after(id), ..s }
}

spec fn in_exchange(s: SessionView, id: u16, message: MessageView, command: bool) -> SessionView {
    SessionView {
        outbound: s.outbound.push(fresh_exchange(id, message, command)),
        ..before_exchange(s, id)
    }
}

/// A step towards a frame leaves the connections where they are.
pub proof fn lemma_advance_links(
    b: BrokerView,
    limits: crate::limits::Limits,
    i: int,
    j: int,
)
    requires
        0 <= j < b.links.len(),
        0 <= i < b.sessions.len(),
    ensures
        advance(b, limits, i, j).0.links.len() == b.links.len(),
        advance(b, limits, i, j).0.sessions.len() == b.sessions.len(),
{
    reveal(next_unsent);
    reveal(promote);
    let s = b.sessions[i];
    if let Some(id) = next_free(s) {
        lemma_put_session(
            reserved(b, j, charge_of(s.offline[0])),
            limits,
            i,
            crate::session::promoted(s, id),
        );
    }
}

fn earlier_wake(a: &(TenantId, u8), b: &(TenantId, u8)) -> (earlier: bool)
    ensures
        earlier == wake_before((a.0@, a.1), (b.0@, b.1)),
{
    text_earlier(a.0.as_str(), b.0.as_str()) || (a.0.same(&b.0) && a.1 < b.1)
}

pub(crate) fn text_earlier(a: &str, b: &str) -> (earlier: bool)
    ensures
        earlier == text_before(a@, b@),
{
    let left = characters(a);
    let right = characters(b);
    let mut at: usize = 0;
    proof {
        assert(left@.skip(0) =~= a@);
        assert(right@.skip(0) =~= b@);
    }
    while at < left.len() && at < right.len()
        invariant
            at <= left.len(),
            at <= right.len(),
            text_before(a@, b@) == text_before(left@.skip(at as int), right@.skip(at as int)),
        decreases left.len() - at,
    {
        let x = left[at];
        let y = right[at];
        proof {
            assert(left@.skip(at as int)[0] == x);
            assert(right@.skip(at as int)[0] == y);
            assert(left@.skip(at as int).drop_first() =~= left@.skip(at as int + 1));
            assert(right@.skip(at as int).drop_first() =~= right@.skip(at as int + 1));
        }
        if x < y {
            return true;
        }
        if x != y {
            return false;
        }
        at = at + 1;
    }
    at < right.len()
}

} // verus!
