//! Subscribing: the retained messages are planned first, and nothing is left behind if they do
//! not fit.
use super::deliver::failure;
use super::model::{
    active_at, bytes_fit, drive, enqueue, growth_allowed, inflight, owns, prune_if_due,
    prune_messages, put_session, queue_offline, session_at, tenant_limit, waiting_allowed,
    BrokerView, RetainedView, HOT_MAINTENANCE_BUDGET,
};
use super::route::lower_qos;
use super::state::{lemma_session_ok, MqttBroker, RetainedMessage};
use super::wills::retried;
use crate::codec::common::topic_valid;
use crate::codec::v5::SubscriptionOptions;
use crate::error::Error;
use crate::identity::{KeyView, SessionKey};
use crate::limits::Limits;
use crate::list::{keep, lemma_keep_step};
use crate::message::{charge_of, expired_spec, BrokerMessage, MessageView, STATE_OVERHEAD};
use crate::session::{
    fresh_exchange, id_after, lemma_next_free, message_views, next_free, outbound_capacity,
    send_quota_left, session_charge, SessionView, StoredSession, Subscription,
};
use crate::table::{lookup, with_entry};
use crate::text::{byte_len, levels, text_bytes};
use crate::topics::{matches_spec, topic_matches};
use crate::trie::{trie_insert, trie_remove};
use crate::usage::{ledger_of, of_device, tenant_usage, total_usage, usage_sum};
use vstd::prelude::*;

verus! {

/// Which retained messages a new or renewed subscription gets.
pub open spec fn replayed(
    key: KeyView,
    filter: Seq<char>,
    subscription: Subscription,
    renewed: bool,
    now: i64,
) -> spec_fn(RetainedView) -> bool {
    |r: RetainedView|
        {
            &&& matches_spec(filter, r.message.topic)
            &&& !expired_spec(r.message, now)
            &&& !(subscription.no_local && r.origin == Some(key))
            &&& subscription.retain_handling == 0 || (subscription.retain_handling == 1 && !renewed)
        }
}

/// A retained message as the subscriber gets it.
pub open spec fn replay_copy(r: RetainedView, subscription: Subscription) -> MessageView {
    MessageView {
        qos: lower_qos(r.message.qos, subscription.qos),
        retain: true,
        ..r.message
    }
}

pub open spec fn replay_copies(s: Seq<RetainedView>, subscription: Subscription) -> Seq<MessageView> {
    Seq::new(s.len(), |i: int| replay_copy(s[i], subscription))
}

/// The retained messages that a subscription gets.
pub open spec fn replay_of(
    b: BrokerView,
    key: KeyView,
    filter: Seq<char>,
    subscription: Subscription,
    renewed: bool,
    now: i64,
) -> Seq<MessageView> {
    replay_copies(
        keep(b.retained, replayed(key, filter, subscription, renewed, now)),
        subscription,
    )
}

/// A replay as far as it is planned: the exchanges it would start, and what it would use.
#[verifier::ext_equal]
pub struct ReplayView {
    pub session: SessionView,
    pub frames: nat,
    pub frame_bytes: nat,
    pub started1: nat,
    pub started2: nat,
    pub waiting: nat,
    pub waiting_bytes: nat,
    pub grown: nat,
    /// Which messages go to the connection; the others wait.
    pub live: Seq<bool>,
}

/// One retained message planned, everything planned before counted already.
#[verifier::opaque]
pub open spec fn replay_step(
    b: BrokerView,
    limits: Limits,
    i: int,
    j: int,
    r: ReplayView,
    message: MessageView,
) -> Result<ReplayView, Error> {
    let s = b.sessions[i];
    let tenant = s.key.device.tenant;
    let charge = charge_of(message);
    let room = b.links[j].queue.len() + r.frames < limits.max_outbound_messages_per_connection;
    let fits = bytes_fit(
        b,
        limits,
        tenant,
        b.links[j].used + r.frame_bytes,
        r.frame_bytes,
        r.frame_bytes,
        charge,
    );
    let started = if message.qos == 1 {
        r.started1
    } else {
        r.started2
    };
    if message.qos == 0 {
        if room && fits {
            Ok(
                ReplayView {
                    frames: r.frames + 1,
                    frame_bytes: r.frame_bytes + charge,
                    live: r.live.push(true),
                    ..r
                },
            )
        } else {
            Err(Error::Overloaded)
        }
    } else if charge > limits.max_outbound_bytes_per_connection || !growth_allowed(
        b,
        limits,
        s,
        r.grown,
        r.grown,
        r.grown,
        charge,
    ) {
        Err(Error::Overloaded)
    } else if inflight(b, tenant, message.qos) + started < tenant_limit(limits, message.qos) && room
        && outbound_capacity(r.session, message.qos, limits) && send_quota_left(r.session) && fits {
        match next_free(r.session) {
            None => Err(Error::Overloaded),
            Some(id) => Ok(
                ReplayView {
                    session: SessionView {
                        next_packet_id: id_after(id),
                        outbound: r.session.outbound.push(fresh_exchange(id, message, false)),
                        ..r.session
                    },
                    frames: r.frames + 1,
                    frame_bytes: r.frame_bytes + charge,
                    started1: if message.qos == 1 {
                        r.started1 + 1
                    } else {
                        r.started1
                    },
                    started2: if message.qos == 1 {
                        r.started2
                    } else {
                        r.started2 + 1
                    },
                    grown: r.grown + charge,
                    live: r.live.push(true),
                    ..r
                },
            ),
        }
    } else if waiting_allowed(
        b,
        limits,
        s,
        (r.waiting, r.waiting_bytes),
        (r.waiting, r.waiting_bytes),
        (r.waiting, r.waiting_bytes),
        charge,
    ) {
        Ok(
            ReplayView {
                waiting: r.waiting + 1,
                waiting_bytes: r.waiting_bytes + charge,
                grown: r.grown + charge,
                live: r.live.push(false),
                ..r
            },
        )
    } else {
        Err(Error::Overloaded)
    }
}

pub open spec fn replay_first(
    b: BrokerView,
    limits: Limits,
    i: int,
    j: int,
    start: ReplayView,
    messages: Seq<MessageView>,
    n: nat,
) -> Result<ReplayView, Error>
    decreases n,
{
    if n == 0 {
        Ok(start)
    } else {
        match replay_first(b, limits, i, j, start, messages, (n - 1) as nat) {
            Err(error) => Err(error),
            Ok(r) => replay_step(b, limits, i, j, r, messages[n - 1]),
        }
    }
}

/// How retained messages reach a session that has a subscription of so many bytes more.
#[verifier::opaque]
pub open spec fn plan_replay(
    b: BrokerView,
    limits: Limits,
    i: int,
    messages: Seq<MessageView>,
    charge: nat,
) -> Result<Seq<bool>, Error> {
    let s = b.sessions[i];
    if !growth_allowed(b, limits, s, 0, 0, 0, charge) {
        Err(Error::Overloaded)
    } else if messages.len() == 0 {
        Ok(Seq::empty())
    } else {
        match active_at(b, s.key) {
            None => Err(Error::Conflict),
            Some(j) => {
                let start = ReplayView {
                    session: s,
                    frames: 0,
                    frame_bytes: 0,
                    started1: 0,
                    started2: 0,
                    waiting: 0,
                    waiting_bytes: 0,
                    grown: charge,
                    live: Seq::empty(),
                };
                match replay_first(b, limits, i, j, start, messages, messages.len()) {
                    Err(error) => Err(error),
                    Ok(r) => Ok(r.live),
                }
            },
        }
    }
}

/// The planned messages handed over one by one; `n` of them, or up to the first that fails.
pub open spec fn replay_all(
    b: BrokerView,
    limits: Limits,
    now: i64,
    key: KeyView,
    messages: Seq<MessageView>,
    live: Seq<bool>,
    n: nat,
) -> (BrokerView, Result<(), Error>)
    decreases n,
{
    if n == 0 {
        (b, Ok(()))
    } else {
        match replay_all(b, limits, now, key, messages, live, (n - 1) as nat) {
            (before, Err(error)) => (before, Err(error)),
            (before, Ok(_)) => if live[n - 1] {
                enqueue(before, limits, now, key, messages[n - 1], false)
            } else {
                queue_offline(before, limits, key, messages[n - 1])
            },
        }
    }
}

pub open spec fn subscription_bytes(filter: Seq<char>, renewed: bool) -> nat {
    if renewed {
        0
    } else {
        text_bytes(filter) + STATE_OVERHEAD as nat
    }
}

/// Whether one more subscription is within the bounds.
pub open spec fn subscription_allowed(b: BrokerView, limits: Limits, s: SessionView) -> bool {
    &&& s.subscriptions.len() < limits.max_subscriptions_per_session
    &&& usage_sum(b.sessions, of_device(s.key.device)).subscriptions
        < limits.max_subscriptions_per_device
    &&& total_usage(b.sessions).subscriptions < limits.max_subscriptions
    &&& tenant_usage(b.sessions, s.key.device.tenant).subscriptions
        < limits.max_subscriptions_per_tenant
}

/// The session with a subscription added or replaced, and the trie with it.
pub open spec fn with_subscription(
    b: BrokerView,
    limits: Limits,
    i: int,
    filter: Seq<char>,
    subscription: Subscription,
) -> BrokerView {
    let s = b.sessions[i];
    let s2 = SessionView {
        subscriptions: with_entry(s.subscriptions, filter, Some(subscription)),
        ..s
    };
    let next = put_session(b, limits, i, s2);
    BrokerView { trie: trie_insert(next.trie, levels(filter), s.key, subscription), ..next }
}

/// A subscription taken back after a replay that failed on the way.
pub open spec fn rolled_back(
    b: BrokerView,
    limits: Limits,
    s: SessionView,
    filter: Seq<char>,
) -> BrokerView {
    let removed = trie_remove(b.trie, levels(filter), s.key);
    let b1 = BrokerView {
        trie: match lookup(s.subscriptions, filter) {
            Some(previous) => trie_insert(removed, levels(filter), s.key, previous),
            None => removed,
        },
        ..b
    };
    match session_at(b1, s.key) {
        Some(i) => put_session(b1, limits, i, s),
        None => b1,
    }
}

/// A subscription made for a session whose connection is known to hold it.
#[verifier::opaque]
pub open spec fn subscribe_owned(
    b: BrokerView,
    limits: Limits,
    now: i64,
    i: int,
    filter: Seq<char>,
    subscription: Subscription,
) -> (BrokerView, Result<u8, Error>) {
    let s = b.sessions[i];
    let renewed = lookup(s.subscriptions, filter) is Some;
    let messages = replay_of(b, s.key, filter, subscription, renewed, now);
    if !renewed && !subscription_allowed(b, limits, s) {
        (b, Err(Error::Overloaded))
    } else {
        match plan_replay(b, limits, i, messages, subscription_bytes(filter, renewed)) {
            Err(error) => (b, Err(error)),
            Ok(live) => {
                let b1 = with_subscription(b, limits, i, filter, subscription);
                match replay_all(b1, limits, now, s.key, messages, live, messages.len()) {
                    (next, Ok(_)) => (next, Ok(subscription.qos)),
                    (next, Err(error)) => (
                        rolled_back(next, limits, s, filter),
                        Err(error),
                    ),
                }
            },
        }
    }
}

/// A subscription made: the granted quality of service, or nothing changed but what had expired.
#[verifier::opaque]
pub open spec fn subscribe_spec(
    b: BrokerView,
    limits: Limits,
    now: i64,
    key: KeyView,
    generation: u64,
    filter: Seq<char>,
    subscription: Subscription,
) -> (BrokerView, Result<u8, Error>) {
    if subscription.qos > 2 || subscription.retain_handling > 2 || !topic_valid(
        filter,
        limits,
        true,
    ) {
        (b, Err(Error::Invalid))
    } else {
        match drive(
            prune_messages(b, limits, now, HOT_MAINTENANCE_BUDGET as nat),
            limits,
            now,
        ) {
            (b1, Some(error)) => (b1, Err(error)),
            (b1, None) => if !owns(b1, key, generation) {
                (b1, Err(Error::Conflict))
            } else {
                let b2 = prune_if_due(b1, limits, key, now);
                match session_at(b2, key) {
                    None => (b2, Err(Error::Internal)),
                    Some(i) => subscribe_owned(b2, limits, now, i, filter, subscription),
                }
            },
        }
    }
}

/// A subscription taken away, if there was one.
#[verifier::opaque]
pub open spec fn unsubscribe_spec(
    b: BrokerView,
    limits: Limits,
    now: i64,
    key: KeyView,
    generation: u64,
    filter: Seq<char>,
) -> (BrokerView, Result<bool, Error>) {
    if !owns(b, key, generation) {
        (b, Err(Error::Conflict))
    } else {
        match session_at(b, key) {
            None => (b, Ok(false)),
            Some(i) => {
                let s = b.sessions[i];
                if lookup(s.subscriptions, filter) is None {
                    (b, Ok(false))
                } else {
                    let b1 = BrokerView { trie: trie_remove(b.trie, levels(filter), key), ..b };
                    let b2 = put_session(
                        b1,
                        limits,
                        i,
                        SessionView {
                            subscriptions: with_entry(s.subscriptions, filter, None),
                            ..s
                        },
                    );
                    (retried(b2, limits, now), Ok(true))
                }
            },
        }
    }
}

struct Replay {
    session: StoredSession,
    frames: u128,
    frame_bytes: u128,
    started1: u128,
    started2: u128,
    waiting: u128,
    waiting_bytes: u128,
    grown: u128,
    live: Vec<bool>,
}

impl Replay {
    spec fn model(self) -> ReplayView {
        ReplayView {
            session: self.session@,
            frames: self.frames as nat,
            frame_bytes: self.frame_bytes as nat,
            started1: self.started1 as nat,
            started2: self.started2 as nat,
            waiting: self.waiting as nat,
            waiting_bytes: self.waiting_bytes as nat,
            grown: self.grown as nat,
            live: self.live@,
        }
    }
}

impl MqttBroker {
    fn is_replayed(
        retained: &RetainedMessage,
        key: &SessionKey,
        filter: &str,
        subscription: Subscription,
        renewed: bool,
        now: i64,
    ) -> (yes: bool)
        ensures
            yes == replayed(key@, filter@, subscription, renewed, now)(retained@),
    {
        let own = match &retained.origin {
            Some(origin) => origin.same(key),
            None => false,
        };
        topic_matches(filter, retained.message.topic.as_str()) && !retained.message.expired(now)
            && !(subscription.no_local && own) && (subscription.retain_handling == 0 || (
        subscription.retain_handling == 1 && !renewed))
    }

    /// The retained messages that a subscription gets.
    fn retained_replay(
        &self,
        key: &SessionKey,
        filter: &str,
        subscription: Subscription,
        renewed: bool,
        now: i64,
    ) -> (messages: Vec<BrokerMessage>)
        ensures
            message_views(messages@) == replay_of(
                self@,
                key@,
                filter@,
                subscription,
                renewed,
                now,
            ),
    {
        let ghost all = self@.retained;
        let ghost p = replayed(key@, filter@, subscription, renewed, now);
        let mut messages: Vec<BrokerMessage> = Vec::new();
        let mut at: usize = 0;
        assert(message_views(messages@) =~= replay_copies(keep(all.take(0), p), subscription));
        while at < self.retained.len()
            invariant
                at <= self.retained.len(),
                all == self@.retained,
                p == replayed(key@, filter@, subscription, renewed, now),
                message_views(messages@) == replay_copies(
                    keep(all.take(at as int), p),
                    subscription,
                ),
            decreases self.retained.len() - at,
        {
            proof {
                lemma_keep_step(all, p, at as int);
            }
            let ghost before = message_views(messages@);
            assert(all[at as int] == self.retained@[at as int]@);
            if MqttBroker::is_replayed(
                &self.retained[at],
                key,
                filter,
                subscription,
                renewed,
                now,
            ) {
                let mut message = self.retained[at].message.clone();
                message.qos = if message.qos <= subscription.qos {
                    message.qos
                } else {
                    subscription.qos
                };
                message.retain = true;
                let ghost model = message@;
                messages.push(message);
                proof {
                    assert(model == replay_copy(all[at as int], subscription));
                    assert(message_views(messages@) =~= before.push(model));
                    assert(replay_copies(
                        keep(all.take(at as int), p).push(all[at as int]),
                        subscription,
                    ) =~= before.push(model));
                }
            }
            at = at + 1;
        }
        assert(all.take(all.len() as int) =~= all);
        messages
    }

    /// Plans one retained message.
    fn replay_one(&self, i: usize, j: usize, replay: Replay, message: &BrokerMessage) -> (result:
        Result<Replay, Error>)
        requires
            self.wf(),
            i < self@.sessions.len(),
            j < self@.links.len(),
            replay.session.wf(),
            replay.frames <= usize::MAX,
            session_charge(replay.session@) <= session_charge(self@.sessions[i as int])
                + replay.grown,
        ensures
            match (
                replay_step(self@, self.limits, i as int, j as int, replay.model(), message@),
                result,
            ) {
                (Ok(next), Ok(after)) => {
                    &&& after.model() == next
                    &&& after.session.wf()
                    &&& after.frames <= usize::MAX
                    &&& session_charge(after.session@) <= session_charge(
                        self@.sessions[i as int],
                    ) + after.grown
                },
                (Err(error), Err(other)) => error == other,
                _ => false,
            },
    {
        proof {
            reveal(replay_step);
            lemma_next_free(replay.session@);
        }
        let mut r = replay;
        let ghost before = r.model();
        let charge: usize = message.bytes();
        let room = self.links[j].queue.len() as u128 + r.frames
            < self.limits.max_outbound_messages_per_connection as u128;
        assert(self@.links[j as int].queue.len() == self.links@[j as int].queue@.len());
        let tenant = &self.sessions[i].key.device.tenant_id;
        let fits = self.outbound_fits(
            tenant,
            super::state::cap_sum(self.links[j].used as u128, r.frame_bytes),
            r.frame_bytes,
            r.frame_bytes,
            charge,
        );
        if message.qos == 0 {
            if !room || !fits {
                return Err(Error::Overloaded);
            }
            r.frames = r.frames + 1;
            r.frame_bytes = r.frame_bytes + charge as u128;
            r.live.push(true);
            return Ok(r);
        }
        if charge > self.limits.max_outbound_bytes_per_connection || !self.may_grow(
            i,
            r.grown,
            r.grown,
            r.grown,
            charge,
        ) {
            return Err(Error::Overloaded);
        }
        let started: u128 = if message.qos == 1 {
            r.started1
        } else {
            r.started2
        };
        let admitted = super::state::cap_sum(self.tenant_inflight(tenant, message.qos), started)
            < self.inflight_limit(message.qos) as u128;
        if admitted && room && r.session.has_outbound_capacity(message.qos, &self.limits)
            && r.session.has_send_quota() && fits {
            let id: u16 = match r.session.projected_packet_id() {
                Ok(id) => id,
                Err(error) => return Err(error),
            };
            let ghost s = r.session@;
            r.session.start_numbered(id, message.clone());
            proof {
                crate::list::lemma_total_push(
                    s.outbound,
                    fresh_exchange(id, message@, false),
                    crate::session::outbound_charge(),
                );
            }
            r.frames = r.frames + 1;
            r.frame_bytes = r.frame_bytes + charge as u128;
            if message.qos == 1 {
                r.started1 = r.started1 + 1;
            } else {
                r.started2 = r.started2 + 1;
            }
            r.grown = r.grown + charge as u128;
            r.live.push(true);
            return Ok(r);
        }
        if !self.may_wait(
            i,
            (r.waiting, r.waiting_bytes),
            (r.waiting, r.waiting_bytes),
            (r.waiting, r.waiting_bytes),
            charge,
        ) {
            return Err(Error::Overloaded);
        }
        r.waiting = r.waiting + 1;
        r.waiting_bytes = r.waiting_bytes + charge as u128;
        r.grown = r.grown + charge as u128;
        r.live.push(false);
        Ok(r)
    }

    /// Plans how retained messages reach a session.
    fn preflight_retained_replay(&self, i: usize, messages: &Vec<BrokerMessage>, charge: usize) -> (result:
        Result<Vec<bool>, Error>)
        requires
            self.wf(),
            i < self@.sessions.len(),
        ensures
            match (
                plan_replay(
                    self@,
                    self.limits,
                    i as int,
                    message_views(messages@),
                    charge as nat,
                ),
                result,
            ) {
                (Ok(live), Ok(plan)) => plan@ == live,
                (Err(error), Err(other)) => error == other,
                _ => false,
            },
    {
        proof {
            reveal(plan_replay);
            lemma_session_ok(self.sessions@, i as int);
        }
        if !self.may_grow(i, 0, 0, 0, charge) {
            return Err(Error::Overloaded);
        }
        let ghost views = message_views(messages@);
        if messages.len() == 0 {
            let none: Vec<bool> = Vec::new();
            assert(none@ =~= Seq::<bool>::empty());
            assert(views.len() == 0);
            return Ok(none);
        }
        let j = match self.find_active(&self.sessions[i].key) {
            Some(j) => j,
            None => return Err(Error::Conflict),
        };
        let mut replay = Replay {
            session: self.sessions[i].clone(),
            frames: 0,
            frame_bytes: 0,
            started1: 0,
            started2: 0,
            waiting: 0,
            waiting_bytes: 0,
            grown: charge as u128,
            live: Vec::new(),
        };
        let ghost start = replay.model();
        assert(start.live =~= Seq::<bool>::empty());
        let mut at: usize = 0;
        while at < messages.len()
            invariant
                at <= messages.len(),
                views == message_views(messages@),
                self.wf(),
                i < self@.sessions.len(),
                j < self@.links.len(),
                replay.session.wf(),
                replay.frames <= usize::MAX,
                session_charge(replay.session@) <= session_charge(self@.sessions[i as int])
                    + replay.grown,
                replay_first(
                    self@,
                    self.limits,
                    i as int,
                    j as int,
                    start,
                    views,
                    at as nat,
                ) == Ok::<ReplayView, Error>(replay.model()),
                match replay_first(
                    self@,
                    self.limits,
                    i as int,
                    j as int,
                    start,
                    views,
                    views.len(),
                ) {
                    Err(error) => plan_replay(
                        self@,
                        self.limits,
                        i as int,
                        views,
                        charge as nat,
                    ) == Err::<Seq<bool>, Error>(error),
                    Ok(r) => plan_replay(self@, self.limits, i as int, views, charge as nat)
                        == Ok::<Seq<bool>, Error>(r.live),
                },
            decreases messages.len() - at,
        {
            assert(views[at as int] == messages@[at as int]@);
            match self.replay_one(i, j, replay, &messages[at]) {
                Ok(next) => {
                    replay = next;
                },
                Err(error) => {
                    proof {
                        lemma_replay_fails(
                            self@,
                            self.limits,
                            i as int,
                            j as int,
                            start,
                            views,
                            at as nat + 1,
                            views.len(),
                            error,
                        );
                    }
                    return Err(error);
                },
            }
            at = at + 1;
        }
        Ok(replay.live)
    }

    /// Hands the planned messages over.
    fn replay_messages(
        &mut self,
        key: &SessionKey,
        messages: &Vec<BrokerMessage>,
        live: &Vec<bool>,
        now: i64,
    ) -> (result: Result<(), Error>)
        requires
            old(self).wf(),
            live@.len() == messages@.len(),
        ensures
            final(self).wf(),
            final(self).limits == old(self).limits,
            ({
                let (next, outcome) = replay_all(
                    old(self)@,
                    old(self).limits,
                    now,
                    key@,
                    message_views(messages@),
                    live@,
                    messages@.len(),
                );
                final(self)@ == next && failure(result) == failure(outcome)
            }),
    {
        let ghost views = message_views(messages@);
        let mut at: usize = 0;
        while at < messages.len()
            invariant
                at <= messages.len(),
                live@.len() == messages@.len(),
                views == message_views(messages@),
                self.wf(),
                self.limits == old(self).limits,
                replay_all(
                    old(self)@,
                    old(self).limits,
                    now,
                    key@,
                    views,
                    live@,
                    at as nat,
                ).0 == self@,
                replay_all(
                    old(self)@,
                    old(self).limits,
                    now,
                    key@,
                    views,
                    live@,
                    at as nat,
                ).1 is Ok,
            decreases messages.len() - at,
        {
            assert(views[at as int] == messages@[at as int]@);
            let result = if live[at] {
                self.enqueue(key, messages[at].clone(), false, now)
            } else {
                self.queue_offline(key, messages[at].clone())
            };
            if let Err(error) = result {
                proof {
                    lemma_replay_stops(
                        old(self)@,
                        old(self).limits,
                        now,
                        key@,
                        views,
                        live@,
                        at as nat + 1,
                        views.len(),
                    );
                }
                return Err(error);
            }
            at = at + 1;
        }
        Ok(())
    }

    /// Adds or replaces a subscription and its place in the trie.
    fn add_subscription(&mut self, i: usize, filter: &str, subscription: Subscription)
        requires
            old(self).wf(),
            i < old(self)@.sessions.len(),
            lookup(old(self)@.sessions[i as int].subscriptions, filter@) is Some || session_charge(
                old(self)@.sessions[i as int],
            ) + text_bytes(filter@) + STATE_OVERHEAD <= usize::MAX,
        ensures
            final(self).wf(),
            final(self).limits == old(self).limits,
            final(self)@ == with_subscription(
                old(self)@,
                old(self).limits,
                i as int,
                filter@,
                subscription,
            ),
    {
        proof {
            lemma_session_ok(self.sessions@, i as int);
        }
        let ghost before = *self;
        let key = self.sessions[i].key.clone();
        self.sessions[i].set_subscription(filter, subscription);
        self.sync_session_usage(i, Ghost(before));
        let ghost middle = self@;
        self.trie.insert(filter, &key, subscription);
        assert(self@ =~= (BrokerView {
            trie: trie_insert(middle.trie, levels(filter@), key@, subscription),
            ..middle
        }));
    }

    fn roll_back(&mut self, session: StoredSession, filter: &str)
        requires
            old(self).wf(),
            session.wf(),
        ensures
            final(self).wf(),
            final(self).limits == old(self).limits,
            final(self)@ == rolled_back(old(self)@, old(self).limits, session@, filter@),
    {
        let ghost before = self@;
        self.trie.remove(filter, &session.key);
        proof {
            crate::list::lemma_first(
                session@.subscriptions,
                crate::session::sub_is(filter@),
            );
        }
        if let Some(at) = session.find_subscription(filter) {
            let previous = session.subscriptions[at].1;
            assert(lookup(session@.subscriptions, filter@) == Some(previous));
            self.trie.insert(filter, &session.key, previous);
        }
        assert(self@ =~= (BrokerView { trie: self@.trie, ..before }));
        if let Some(i) = self.find_session(&session.key) {
            self.store_session(i, session);
        }
    }

    /// Whether one more subscription is within the bounds.
    fn may_subscribe(&self, i: usize) -> (allowed: bool)
        requires
            self.wf(),
            i < self@.sessions.len(),
        ensures
            allowed == subscription_allowed(self@, self.limits, self@.sessions[i as int]),
    {
        let session = &self.sessions[i];
        let device: u128 = self.accounts.device_subscriptions(
            &session.key.device,
            Ghost(ledger_of(self@.sessions)),
        );
        assert(self@.sessions[i as int].subscriptions.len()
            == self.sessions@[i as int].subscriptions@.len());
        session.subscriptions.len() < self.limits.max_subscriptions_per_session && device
            < self.limits.max_subscriptions_per_device as u128 && self.totals().subscriptions
            < self.limits.max_subscriptions as u128 && self.tenant_totals(
            &session.key.device.tenant_id,
        ).subscriptions < self.limits.max_subscriptions_per_tenant as u128
    }

    fn subscribe_session(&mut self, i: usize, filter: &str, subscription: Subscription, now: i64) -> (result:
        Result<u8, Error>)
        requires
            old(self).wf(),
            i < old(self)@.sessions.len(),
        ensures
            final(self).wf(),
            final(self).limits == old(self).limits,
            subscribe_owned(
                old(self)@,
                old(self).limits,
                now,
                i as int,
                filter@,
                subscription,
            ) == (final(self)@, result),
    {
        proof {
            reveal(subscribe_owned);
            lemma_session_ok(self.sessions@, i as int);
            crate::list::lemma_first(
                self@.sessions[i as int].subscriptions,
                crate::session::sub_is(filter@),
            );
        }
        let ghost b = self@;
        let ghost s = self@.sessions[i as int];
        let before = self.sessions[i].clone();
        let renewed = before.find_subscription(filter).is_some();
        let messages = self.retained_replay(&before.key, filter, subscription, renewed, now);
        if !renewed && !self.may_subscribe(i) {
            return Err(Error::Overloaded);
        }
        let bytes: u128 = if renewed {
            0
        } else {
            byte_len(filter) as u128 + STATE_OVERHEAD as u128
        };
        assert(bytes == subscription_bytes(filter@, renewed));
        if bytes > usize::MAX as u128 {
            proof {
                reveal(plan_replay);
            }
            return Err(Error::Overloaded);
        }
        let live = match self.preflight_retained_replay(i, &messages, bytes as usize) {
            Ok(live) => live,
            Err(error) => return Err(error),
        };
        proof {
            lemma_plan_replay(b, self.limits, i as int, message_views(messages@), bytes as nat);
        }
        self.add_subscription(i, filter, subscription);
        match self.replay_messages(&before.key, &messages, &live, now) {
            Ok(_) => Ok(subscription.qos),
            Err(error) => {
                self.roll_back(before, filter);
                Err(error)
            },
        }
    }

    /// Makes a subscription: tells the granted quality of service.
    pub fn subscribe_options(
        &mut self,
        key: &SessionKey,
        generation: u64,
        filter: &str,
        subscription: Subscription,
        now: i64,
    ) -> (result: Result<u8, Error>)
        requires
            old(self).wf(),
        ensures
            final(self).wf(),
            final(self).limits == old(self).limits,
            subscribe_spec(
                old(self)@,
                old(self).limits,
                now,
                key@,
                generation,
                filter@,
                subscription,
            ) == (final(self)@, result),
    {
        proof {
            reveal(subscribe_spec);
        }
        if subscription.qos > 2 || subscription.retain_handling > 2
            || !crate::codec::common::valid_topic(filter, &self.limits, true) {
            return Err(Error::Invalid);
        }
        self.prune_expired_messages(now, HOT_MAINTENANCE_BUDGET);
        if let Err(error) = self.drive_capacity_wakes(now) {
            return Err(error);
        }
        if !self.check_owner(key, generation) {
            return Err(Error::Conflict);
        }
        self.prune_when_due(key, now);
        let i = match self.find_session(key) {
            Some(i) => i,
            None => return Err(Error::Internal),
        };
        self.subscribe_session(i, filter, subscription, now)
    }

    /// Makes a subscription of MQTT 3.1.1.
    pub fn subscribe(
        &mut self,
        key: &SessionKey,
        generation: u64,
        filter: &str,
        qos: u8,
        now: i64,
    ) -> (result: Result<u8, Error>)
        requires
            old(self).wf(),
        ensures
            final(self).wf(),
            final(self).limits == old(self).limits,
            subscribe_spec(
                old(self)@,
                old(self).limits,
                now,
                key@,
                generation,
                filter@,
                Subscription::v311_spec(qos),
            ) == (final(self)@, result),
    {
        self.subscribe_options(key, generation, filter, Subscription::v311(qos), now)
    }

    /// Makes a subscription of MQTT 5.
    pub fn subscribe_v5(
        &mut self,
        key: &SessionKey,
        generation: u64,
        filter: &str,
        options: SubscriptionOptions,
        now: i64,
    ) -> (result: Result<u8, Error>)
        requires
            old(self).wf(),
        ensures
            final(self).wf(),
            final(self).limits == old(self).limits,
            subscribe_spec(
                old(self)@,
                old(self).limits,
                now,
                key@,
                generation,
                filter@,
                Subscription {
                    qos: options.qos,
                    no_local: options.no_local,
                    retain_as_published: options.retain_as_published,
                    retain_handling: options.retain_handling,
                },
            ) == (final(self)@, result),
    {
        self.subscribe_options(
            key,
            generation,
            filter,
            Subscription {
                qos: options.qos,
                no_local: options.no_local,
                retain_as_published: options.retain_as_published,
                retain_handling: options.retain_handling,
            },
            now,
        )
    }

    /// Takes a subscription away: tells whether there was one.
    pub fn unsubscribe(&mut self, key: &SessionKey, generation: u64, filter: &str, now: i64) -> (result:
        Result<bool, Error>)
        requires
            old(self).wf(),
        ensures
            final(self).wf(),
            final(self).limits == old(self).limits,
            unsubscribe_spec(old(self)@, old(self).limits, now, key@, generation, filter@) == (
                final(self)@,
                result,
            ),
    {
        proof {
            reveal(unsubscribe_spec);
        }
        if !self.check_owner(key, generation) {
            return Err(Error::Conflict);
        }
        let i = match self.find_session(key) {
            Some(i) => i,
            None => return Ok(false),
        };
        proof {
            lemma_session_ok(self.sessions@, i as int);
            crate::list::lemma_first(
                self@.sessions[i as int].subscriptions,
                crate::session::sub_is(filter@),
            );
        }
        if self.sessions[i].find_subscription(filter).is_none() {
            return Ok(false);
        }
        let ghost b = self@;
        self.trie.remove(filter, key);
        assert(self@ =~= (BrokerView { trie: trie_remove(b.trie, levels(filter@), key@), ..b }));
        let ghost before = *self;
        let _ = self.sessions[i].clear_subscription(filter);
        self.sync_session_usage(i, Ghost(before));
        self.retry_pending_wills(now);
        Ok(true)
    }
}

proof fn lemma_replay_fails(
    b: BrokerView,
    limits: Limits,
    i: int,
    j: int,
    start: ReplayView,
    messages: Seq<MessageView>,
    n: nat,
    m: nat,
    error: Error,
)
    requires
        n <= m,
        replay_first(b, limits, i, j, start, messages, n) == Err::<ReplayView, Error>(error),
    ensures
        replay_first(b, limits, i, j, start, messages, m) == Err::<ReplayView, Error>(error),
    decreases m,
{
    if n < m {
        lemma_replay_fails(b, limits, i, j, start, messages, n, (m - 1) as nat, error);
    }
}

proof fn lemma_replay_stops(
    b: BrokerView,
    limits: Limits,
    now: i64,
    key: KeyView,
    messages: Seq<MessageView>,
    live: Seq<bool>,
    n: nat,
    m: nat,
)
    requires
        n <= m,
        replay_all(b, limits, now, key, messages, live, n).1 is Err,
    ensures
        replay_all(b, limits, now, key, messages, live, m) == replay_all(
            b,
            limits,
            now,
            key,
            messages,
            live,
            n,
        ),
    decreases m,
{
    if n < m {
        lemma_replay_stops(b, limits, now, key, messages, live, n, (m - 1) as nat);
    }
}

/// A plan has a verdict on every message, and the subscription itself fits.
proof fn lemma_plan_replay(
    b: BrokerView,
    limits: Limits,
    i: int,
    messages: Seq<MessageView>,
    charge: nat,
)
    ensures
        plan_replay(b, limits, i, messages, charge) matches Ok(live) ==> live.len()
            == messages.len() && session_charge(b.sessions[i]) + charge
            <= limits.max_mqtt_session_state_bytes,
{
    reveal(plan_replay);
    if plan_replay(b, limits, i, messages, charge) is Ok && messages.len() > 0 {
        let j = active_at(b, b.sessions[i].key)->0;
        let start = ReplayView {
            session: b.sessions[i],
            frames: 0,
            frame_bytes: 0,
            started1: 0,
            started2: 0,
            waiting: 0,
            waiting_bytes: 0,
            grown: charge,
            live: Seq::empty(),
        };
        lemma_replay_len(b, limits, i, j, start, messages, messages.len());
    }
}

proof fn lemma_replay_len(
    b: BrokerView,
    limits: Limits,
    i: int,
    j: int,
    start: ReplayView,
    messages: Seq<MessageView>,
    n: nat,
)
    ensures
        replay_first(b, limits, i, j, start, messages, n) matches Ok(r) ==> r.live.len()
            == start.live.len() + n,
    decreases n,
{
    if n > 0 {
        reveal(replay_step);
        lemma_replay_len(b, limits, i, j, start, messages, (n - 1) as nat);
    }
}

} // verus!
