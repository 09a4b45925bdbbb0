//! Looking after what has expired, and what is retained.
use super::model::{
    prune_expired, prune_messages, prune_retained, prune_sessions, remove_session, reserve_retained,
    retained_allowed, retained_bytes, retained_bytes_of, update_retained, will_allowed, BrokerView,
    RetainedView,
};
use super::state::{cap_sum, retained_bytes_for, MqttBroker, RetainedMessage};
use crate::error::Error;
use crate::identity::{clone_key_ref, key_ref_view, SessionKey, TenantId};
use crate::list::lemma_total_member;
use crate::message::BrokerMessage;
use crate::session::RetainedReservation;
use crate::table::{due_at, with_entry};
use vstd::prelude::*;

verus! {

impl MqttBroker {
    /// Gives up sessions whose time has passed, the earliest first.
    pub fn prune_expired_sessions(&mut self, now: i64, budget: usize)
        requires
            old(self).wf(),
        ensures
            final(self).wf(),
            final(self).limits == old(self).limits,
            final(self)@ == prune_expired(old(self)@, old(self).limits, now, budget as nat),
    {
        let ghost goal = prune_expired(self@, self.limits, now, budget as nat);
        let mut left: usize = budget;
        while left > 0
            invariant
                self.wf(),
                self.limits == old(self).limits,
                goal == prune_expired(old(self)@, old(self).limits, now, budget as nat),
                goal == prune_expired(self@, self.limits, now, left as nat),
            decreases left,
        {
            let ghost before = self@;
            let key = match self.session_expiry.pop_due(now) {
                Some(key) => key,
                None => {
                    assert(self@ =~= before);
                    return;
                },
            };
            proof {
                let k = due_at(before.session_expiry, now)->0;
                assert(self@ =~= (BrokerView {
                    session_expiry: before.session_expiry.remove(k),
                    ..before
                }));
            }
            if self.session_expired(&key, now) {
                self.remove_session(&key);
            } else {
                self.reindex(&key);
            }
            left = left - 1;
        }
    }

    fn prune_due_sessions(&mut self, now: i64, budget: usize)
        requires
            old(self).wf(),
        ensures
            final(self).wf(),
            final(self).limits == old(self).limits,
            final(self)@ == prune_sessions(old(self)@, old(self).limits, now, budget as nat),
    {
        let ghost goal = prune_sessions(self@, self.limits, now, budget as nat);
        let mut left: usize = budget;
        while left > 0
            invariant
                self.wf(),
                self.limits == old(self).limits,
                goal == prune_sessions(old(self)@, old(self).limits, now, budget as nat),
                goal == prune_sessions(self@, self.limits, now, left as nat),
            decreases left,
        {
            let ghost before = self@;
            let key = match self.message_expiry.pop_due(now) {
                Some(key) => key,
                None => {
                    assert(self@ =~= before);
                    return;
                },
            };
            proof {
                let k = due_at(before.message_expiry, now)->0;
                assert(self@ =~= (BrokerView {
                    message_expiry: before.message_expiry.remove(k),
                    ..before
                }));
            }
            self.prune_session_messages(&key, now);
            left = left - 1;
        }
    }

    fn prune_due_retained(&mut self, now: i64, budget: usize)
        requires
            old(self).wf(),
        ensures
            final(self).wf(),
            final(self).limits == old(self).limits,
            final(self)@ == prune_retained(old(self)@, now, budget as nat),
    {
        let ghost goal = prune_retained(self@, now, budget as nat);
        let mut left: usize = budget;
        while left > 0
            invariant
                self.wf(),
                self.limits == old(self).limits,
                goal == prune_retained(old(self)@, now, budget as nat),
                goal == prune_retained(self@, now, left as nat),
            decreases left,
        {
            let ghost before = self@;
            let topic = match self.retained_expiry.pop_due(now) {
                Some(topic) => topic,
                None => {
                    assert(self@ =~= before);
                    return;
                },
            };
            let ghost taken = self@;
            proof {
                let k = due_at(before.retained_expiry, now)->0;
                assert(taken =~= (BrokerView {
                    retained_expiry: before.retained_expiry.remove(k),
                    ..before
                }));
            }
            if let Some(i) = self.find_retained(topic.as_str()) {
                assert(taken.retained[i as int] == self.retained@[i as int]@);
                if self.retained[i].message.expired(now) {
                    let _ = self.retained.remove(i);
                    assert(self@.retained =~= taken.retained.remove(i as int));
                    assert(self@ =~= (BrokerView {
                        retained: taken.retained.remove(i as int),
                        ..taken
                    }));
                } else {
                    let deadline = self.retained[i].message.properties.expires_at_ms;
                    self.retained_expiry.update(&topic, deadline);
                    assert(self@ =~= (BrokerView {
                        retained_expiry: with_entry(taken.retained_expiry, topic@, deadline),
                        ..taken
                    }));
                }
            }
            left = left - 1;
        }
    }

    /// Drops waiting and retained messages that have expired, within a budget each.
    pub fn prune_expired_messages(&mut self, now: i64, budget: usize)
        requires
            old(self).wf(),
        ensures
            final(self).wf(),
            final(self).limits == old(self).limits,
            final(self)@ == prune_messages(old(self)@, old(self).limits, now, budget as nat),
    {
        self.prune_due_sessions(now, budget);
        self.prune_due_retained(now, budget);
    }

    /// Whether a retained message may be replaced or added.
    pub fn check_retained_update(
        &self,
        tenant: &TenantId,
        origin: Option<&SessionKey>,
        message: &BrokerMessage,
    ) -> (allowed: bool)
        ensures
            allowed == retained_allowed(
                self@,
                self.limits,
                tenant@,
                key_ref_view(origin),
                message@,
            ),
    {
        if message.payload.len() == 0 {
            return true;
        }
        if message.payload.len() > self.limits.max_retained_message_bytes {
            return false;
        }
        let existing = self.find_retained(message.topic.as_str());
        let old_bytes: u128 = match existing {
            Some(i) => self.retained[i].bytes() as u128,
            None => 0,
        };
        let same_tenant = match existing {
            Some(i) => self.retained[i].tenant_id.same(tenant),
            None => false,
        };
        let new_bytes: u128 = retained_bytes_for(message, origin) as u128;
        let all = self.retained_totals(None);
        let own = self.retained_totals(Some(tenant));
        proof {
            if let Some(i) = existing {
                assert(self@.retained[i as int] == self.retained@[i as int]@);
                lemma_total_member(self@.retained, i as int, retained_bytes_of(None));
                lemma_total_member(self@.retained, i as int, retained_bytes_of(Some(tenant@)));
                assert(old_bytes <= retained_bytes(self@, None));
                assert(same_tenant ==> old_bytes <= retained_bytes(self@, Some(tenant@)));
            }
        }
        let own_old: u128 = if same_tenant {
            old_bytes
        } else {
            0
        };
        let slot_free = existing.is_some() || cap_sum(self.retained.len() as u128, all.2)
            < self.limits.max_retained_messages as u128;
        let tenant_slot_free = same_tenant || cap_sum(own.0, own.2)
            < self.limits.max_retained_messages_per_tenant as u128;
        let bytes: u128 = cap_sum(cap_sum(all.1 - old_bytes, new_bytes), all.3);
        let tenant_bytes: u128 = cap_sum(cap_sum(own.1 - own_old, new_bytes), own.3);
        slot_free && tenant_slot_free && bytes <= self.limits.max_retained_bytes as u128
            && tenant_bytes <= self.limits.max_retained_bytes_per_tenant as u128
    }

    /// Replaces, adds or takes away the retained message of a topic.
    pub fn update_retained(
        &mut self,
        tenant: &TenantId,
        origin: Option<&SessionKey>,
        message: &BrokerMessage,
    )
        requires
            old(self).wf(),
        ensures
            final(self).wf(),
            final(self).limits == old(self).limits,
            final(self)@ == update_retained(
                old(self)@,
                tenant@,
                key_ref_view(origin),
                message@,
            ),
    {
        let ghost before = self@;
        let at = self.find_retained(message.topic.as_str());
        if message.payload.len() == 0 {
            if let Some(i) = at {
                let _ = self.retained.remove(i);
                assert(self@.retained =~= before.retained.remove(i as int));
            }
            self.retained_expiry.update(&message.topic, None);
            assert(self@ =~= update_retained(before, tenant@, key_ref_view(origin), message@));
            return;
        }
        let entry = RetainedMessage {
            tenant_id: tenant.clone(),
            message: message.clone(),
            origin: clone_key_ref(origin),
        };
        let ghost model = RetainedView {
            tenant: tenant@,
            message: message@,
            origin: key_ref_view(origin),
        };
        assert(entry@ == model);
        match at {
            Some(i) => {
                self.retained.set(i, entry);
                assert(self@.retained =~= before.retained.update(i as int, model));
            },
            None => {
                self.retained.push(entry);
                assert(self@.retained =~= before.retained.push(model));
            },
        }
        self.retained_expiry.update(&message.topic, message.properties.expires_at_ms);
        assert(self@ =~= update_retained(before, tenant@, key_ref_view(origin), message@));
    }

    /// Sets a retained slot aside for a message that will be stored later.
    pub fn reserve_retained(
        &self,
        tenant: &TenantId,
        origin: Option<&SessionKey>,
        message: &BrokerMessage,
    ) -> (result: Result<RetainedReservation, Error>)
        ensures
            result == reserve_retained(
                self@,
                self.limits,
                tenant@,
                key_ref_view(origin),
                message@,
            ),
    {
        if !message.retain || message.payload.len() == 0 {
            return Ok(RetainedReservation { count: 0, bytes: 0 });
        }
        if message.payload.len() > self.limits.max_retained_message_bytes {
            return Err(Error::Overloaded);
        }
        let bytes: usize = retained_bytes_for(message, origin);
        let all = self.retained_totals(None);
        let own = self.retained_totals(Some(tenant));
        if cap_sum(cap_sum(self.retained.len() as u128, all.2), 1)
            > self.limits.max_retained_messages as u128 || cap_sum(
            cap_sum(all.1, all.3),
            bytes as u128,
        ) > self.limits.max_retained_bytes as u128 || cap_sum(cap_sum(own.0, own.2), 1)
            > self.limits.max_retained_messages_per_tenant as u128 || cap_sum(
            cap_sum(own.1, own.3),
            bytes as u128,
        ) > self.limits.max_retained_bytes_per_tenant as u128 {
            return Err(Error::Overloaded);
        }
        Ok(RetainedReservation { count: 1, bytes })
    }

    /// Whether the broker can answer for one more will.
    pub fn may_hold_will(&self, tenant: &TenantId, bytes: usize) -> (allowed: bool)
        requires
            self.wf(),
        ensures
            allowed == will_allowed(self@, self.limits, tenant@, bytes as nat),
    {
        let all = self.will_responsibility(None);
        let own = self.will_responsibility(Some(tenant));
        all.0 < self.limits.max_connections as u128 && own.0
            < self.limits.max_connections_per_tenant as u128 && cap_sum(
            self.total_state_bytes(None),
            bytes as u128,
        ) <= self.limits.global_mqtt_session_bytes as u128 && cap_sum(
            self.total_state_bytes(Some(tenant)),
            bytes as u128,
        ) <= self.limits.max_mqtt_session_state_bytes_per_tenant as u128
    }
}

} // verus!
