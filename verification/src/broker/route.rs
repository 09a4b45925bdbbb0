//! Routing a message: first a plan for every subscriber, then, if the whole plan is within the
//! bounds, the delivery.
use super::model::{
    active_at, bytes_fit, growth_allowed, has_room, in_scope, inflight, lemma_put_session, mark,
    prune_session, put_session, reserved, retained_allowed, sent, session_at, tenant_limit,
    update_retained, waiting_allowed, BrokerView, FrameView,
};
use super::state::{lemma_session_ok, scope_view, BrokerFrame, MqttBroker};
use crate::error::Error;
use crate::identity::{key_ref_view, DeviceKey, KeyView, SessionKey, TenantId};
use crate::limits::Limits;
use crate::list::count;
use crate::message::{charge_of, expired_spec, BrokerMessage, MessageView};
use crate::session::{
    fresh_exchange, id_after, lemma_next_free, next_free, outbound_capacity, send_quota_left,
    session_charge, SessionView, Subscription,
};
use crate::table::due_at;
use crate::trie::{subscriber_views, trie_matching};
use vstd::prelude::*;

verus! {

/// How a planned message reaches its subscriber.
#[derive(Clone, Copy, Debug, PartialEq, Eq, Structural)]
pub enum PlannedRouteMode {
    /// At most once, over the connection.
    Qos0,
    /// As an exchange, over the connection.
    Live,
    /// As a waiting message.
    Offline,
}

pub struct PlannedView {
    pub key: KeyView,
    pub qos: u8,
    pub retain_as_published: bool,
    pub mode: PlannedRouteMode,
}

/// One subscriber in a plan.
#[derive(Debug, PartialEq, Eq)]
pub struct PlannedRouteTarget {
    pub key: SessionKey,
    pub qos: u8,
    pub retain_as_published: bool,
    pub mode: PlannedRouteMode,
}

impl View for PlannedRouteTarget {
    type V = PlannedView;

    open spec fn view(&self) -> PlannedView {
        PlannedView {
            key: self.key@,
            qos: self.qos,
            retain_as_published: self.retain_as_published,
            mode: self.mode,
        }
    }
}

pub open spec fn plan_views(s: Seq<PlannedRouteTarget>) -> Seq<PlannedView> {
    Seq::new(s.len(), |i: int| s[i]@)
}

/// What is counted in a plan.
#[derive(Clone, Copy, Debug, PartialEq, Eq, Structural)]
pub enum PlanCount {
    /// Frames for connections.
    Frames,
    /// Exchanges of the same kind as those of a quality of service.
    Exchanges(u8),
    /// Waiting messages.
    Waiting,
    /// Messages that a session keeps.
    Kept,
}

pub open spec fn counts(what: PlanCount, t: PlannedView) -> bool {
    match what {
        PlanCount::Frames => t.mode != PlannedRouteMode::Offline,
        PlanCount::Exchanges(qos) => t.mode == PlannedRouteMode::Live && (t.qos == 1) == (qos == 1),
        PlanCount::Waiting => t.mode == PlannedRouteMode::Offline,
        PlanCount::Kept => t.mode != PlannedRouteMode::Qos0,
    }
}

pub open spec fn planned_for(scope: Option<Seq<char>>, what: PlanCount) -> spec_fn(
    PlannedView,
) -> bool {
    |t: PlannedView| in_scope(scope, t.key.device.tenant) && counts(what, t)
}

pub open spec fn planned(plan: Seq<PlannedView>, scope: Option<Seq<char>>, what: PlanCount) -> nat {
    count(plan, planned_for(scope, what))
}

pub open spec fn lower_qos(a: u8, b: u8) -> u8 {
    if a <= b {
        a
    } else {
        b
    }
}

/// The plan with one more subscriber, everything planned before counted already.
#[verifier::opaque]
pub open spec fn plan_step(
    b: BrokerView,
    limits: Limits,
    origin: Option<KeyView>,
    message: MessageView,
    plan: Seq<PlannedView>,
    key: KeyView,
    subscription: Subscription,
) -> Result<Seq<PlannedView>, Error> {
    let qos = lower_qos(message.qos, subscription.qos);
    let charge = charge_of(message);
    let tenant = key.device.tenant;
    let own = Some(tenant);
    let target = |mode: PlannedRouteMode|
        PlannedView {
            key,
            qos,
            retain_as_published: subscription.retain_as_published,
            mode,
        };
    let reachable = match active_at(b, key) {
        Some(j) => b.links[j].open && has_room(b.links[j], limits) && bytes_fit(
            b,
            limits,
            tenant,
            b.links[j].used,
            charge * planned(plan, own, PlanCount::Frames),
            charge * planned(plan, None, PlanCount::Frames),
            charge,
        ),
        None => false,
    };
    if subscription.no_local && origin == Some(key) {
        Ok(plan)
    } else if qos == 0 {
        if reachable {
            Ok(plan.push(target(PlannedRouteMode::Qos0)))
        } else {
            Ok(plan)
        }
    } else if charge > limits.max_outbound_bytes_per_connection {
        Err(Error::Overloaded)
    } else {
        match session_at(b, key) {
            None => Err(Error::Internal),
            Some(i) => {
                let s = b.sessions[i];
                let live = reachable && inflight(b, tenant, qos) + planned(
                    plan,
                    own,
                    PlanCount::Exchanges(qos),
                ) < tenant_limit(limits, qos) && outbound_capacity(s, qos, limits)
                    && send_quota_left(s);
                if !growth_allowed(
                    b,
                    limits,
                    s,
                    0,
                    charge * planned(plan, own, PlanCount::Kept),
                    charge * planned(plan, None, PlanCount::Kept),
                    charge,
                ) {
                    Err(Error::Overloaded)
                } else if live {
                    if next_free(s) is Some {
                        Ok(plan.push(target(PlannedRouteMode::Live)))
                    } else {
                        Err(Error::Overloaded)
                    }
                } else if waiting_allowed(
                    b,
                    limits,
                    s,
                    (0, 0),
                    (
                        planned(plan, own, PlanCount::Waiting),
                        charge * planned(plan, own, PlanCount::Waiting),
                    ),
                    (
                        planned(plan, None, PlanCount::Waiting),
                        charge * planned(plan, None, PlanCount::Waiting),
                    ),
                    charge,
                ) {
                    Ok(plan.push(target(PlannedRouteMode::Offline)))
                } else {
                    Err(Error::Overloaded)
                }
            },
        }
    }
}

/// The plan for the first `n` subscribers.
pub open spec fn plan_first(
    b: BrokerView,
    limits: Limits,
    origin: Option<KeyView>,
    message: MessageView,
    matches: Seq<(KeyView, Subscription)>,
    n: nat,
) -> Result<Seq<PlannedView>, Error>
    decreases n,
{
    if n == 0 {
        Ok(Seq::empty())
    } else {
        match plan_first(b, limits, origin, message, matches, (n - 1) as nat) {
            Err(error) => Err(error),
            Ok(plan) => plan_step(
                b,
                limits,
                origin,
                message,
                plan,
                matches[n - 1].0,
                matches[n - 1].1,
            ),
        }
    }
}

/// The plan for every subscriber of the message's topic.
pub open spec fn plan_route(
    b: BrokerView,
    limits: Limits,
    tenant: Seq<char>,
    origin: Option<KeyView>,
    message: MessageView,
) -> Result<Seq<PlannedView>, Error> {
    let matches = trie_matching(b.trie, message.topic);
    if message.retain && !retained_allowed(b, limits, tenant, origin, message) {
        Err(Error::Overloaded)
    } else {
        plan_first(b, limits, origin, message, matches, matches.len())
    }
}

/// The message as one subscriber gets it.
pub open spec fn routed(message: MessageView, t: PlannedView) -> MessageView {
    MessageView { qos: t.qos, retain: t.retain_as_published && message.retain, ..message }
}

/// One planned delivery. The plan was made for this very state, so there is room.
#[verifier::opaque]
pub open spec fn deliver_one(b: BrokerView, limits: Limits, message: MessageView, t: PlannedView) -> (
    BrokerView,
    bool,
) {
    let m = routed(message, t);
    let charge = charge_of(message);
    match t.mode {
        PlannedRouteMode::Qos0 => match active_at(b, t.key) {
            Some(j) => {
                let l = b.links[j];
                if l.open && has_room(l, limits) {
                    let frame = FrameView::Publish {
                        message: m,
                        packet_id: None,
                        dup: false,
                        command: false,
                    };
                    (sent(reserved(b, j, charge), limits, j, frame), true)
                } else {
                    (b, false)
                }
            },
            None => (b, false),
        },
        PlannedRouteMode::Live => match (session_at(b, t.key), active_at(b, t.key)) {
            (Some(i), Some(j)) => {
                let s = b.sessions[i];
                match next_free(s) {
                    Some(id) => if session_charge(s) + charge <= usize::MAX {
                        let s2 = SessionView {
                            next_packet_id: id_after(id),
                            outbound: s.outbound.push(fresh_exchange(id, m, false)),
                            ..s
                        };
                        let frame = FrameView::Publish {
                            message: m,
                            packet_id: Some(id),
                            dup: false,
                            command: false,
                        };
                        (
                            sent(
                                reserved(put_session(b, limits, i, s2), j, charge),
                                limits,
                                j,
                                frame,
                            ),
                            true,
                        )
                    } else {
                        (b, false)
                    },
                    None => (b, false),
                }
            },
            _ => (b, false),
        },
        PlannedRouteMode::Offline => match session_at(b, t.key) {
            Some(i) => {
                let s = b.sessions[i];
                if session_charge(s) + charge <= usize::MAX {
                    let s2 = SessionView { offline: s.offline.push(m), ..s };
                    (mark(put_session(b, limits, i, s2), t.key), true)
                } else {
                    (b, false)
                }
            },
            None => (b, false),
        },
    }
}

/// The first `n` planned deliveries, and how many there were.
pub open spec fn deliver_first(
    b: BrokerView,
    limits: Limits,
    message: MessageView,
    plan: Seq<PlannedView>,
    n: nat,
) -> (BrokerView, nat)
    decreases n,
{
    if n == 0 {
        (b, 0)
    } else {
        let (before, delivered) = deliver_first(b, limits, message, plan, (n - 1) as nat);
        let (next, done) = deliver_one(before, limits, message, plan[n - 1]);
        (
            next,
            if done {
                delivered + 1
            } else {
                delivered
            },
        )
    }
}

/// Every subscriber of a topic without what has expired.
pub open spec fn prune_matching(
    b: BrokerView,
    limits: Limits,
    now: i64,
    matches: Seq<(KeyView, Subscription)>,
    n: nat,
) -> BrokerView
    decreases n,
{
    if n == 0 {
        b
    } else {
        prune_session(
            prune_matching(b, limits, now, matches, (n - 1) as nat),
            limits,
            matches[n - 1].0,
            now,
        )
    }
}

pub open spec fn prune_before_route(
    b: BrokerView,
    limits: Limits,
    now: i64,
    topic: Seq<char>,
) -> BrokerView {
    if due_at(b.message_expiry, now) is Some {
        let matches = trie_matching(b.trie, topic);
        prune_matching(b, limits, now, matches, matches.len())
    } else {
        b
    }
}

/// A message routed to its subscribers and retained if it says so. Either all of it happens or,
/// where a bound would be passed, nothing.
#[verifier::opaque]
pub open spec fn route_message(
    b: BrokerView,
    limits: Limits,
    now: i64,
    tenant: Seq<char>,
    origin: Option<KeyView>,
    message: MessageView,
) -> (BrokerView, Result<nat, Error>) {
    if expired_spec(message, now) {
        (b, Ok(0))
    } else {
        let b1 = prune_before_route(b, limits, now, message.topic);
        match plan_route(b1, limits, tenant, origin, message) {
            Err(error) => (b1, Err(error)),
            Ok(plan) => {
                let b2 = if message.retain {
                    update_retained(b1, tenant, origin, message)
                } else {
                    b1
                };
                let (next, delivered) = deliver_first(b2, limits, message, plan, plan.len());
                (next, Ok(delivered))
            },
        }
    }
}

pub open spec fn plan_result(result: Result<Vec<PlannedRouteTarget>, Error>) -> Result<
    Seq<PlannedView>,
    Error,
> {
    match result {
        Ok(plan) => Ok(plan_views(plan@)),
        Err(error) => Err(error),
    }
}

pub open spec fn count_result(result: Result<usize, Error>) -> Result<nat, Error> {
    match result {
        Ok(n) => Ok(n as nat),
        Err(error) => Err(error),
    }
}

fn counted(what: PlanCount, t: &PlannedRouteTarget) -> (yes: bool)
    ensures
        yes == counts(what, t@),
{
    match what {
        PlanCount::Frames => t.mode != PlannedRouteMode::Offline,
        PlanCount::Exchanges(qos) => t.mode == PlannedRouteMode::Live && (t.qos == 1) == (qos == 1),
        PlanCount::Waiting => t.mode == PlannedRouteMode::Offline,
        PlanCount::Kept => t.mode != PlannedRouteMode::Qos0,
    }
}

fn count_planned(plan: &Vec<PlannedRouteTarget>, scope: Option<&TenantId>, what: PlanCount) -> (number:
    usize)
    ensures
        number == planned(plan_views(plan@), scope_view(scope), what),
{
    let ghost all = plan_views(plan@);
    let ghost p = planned_for(scope_view(scope), what);
    let mut number: usize = 0;
    let mut at: usize = 0;
    assert(count(all.take(0), p) == 0);
    while at < plan.len()
        invariant
            at <= plan.len(),
            all == plan_views(plan@),
            p == planned_for(scope_view(scope), what),
            number <= at,
            number == count(all.take(at as int), p),
        decreases plan.len() - at,
    {
        proof {
            assert(all.take(at as int + 1).drop_last() =~= all.take(at as int));
            assert(all.take(at as int + 1).last() == all[at as int]);
        }
        let in_tenant = match scope {
            Some(tenant) => tenant.same(&plan[at].key.device.tenant_id),
            None => true,
        };
        if in_tenant && counted(what, &plan[at]) {
            number = number + 1;
        }
        at = at + 1;
    }
    assert(all.take(all.len() as int) =~= all);
    number
}

fn product(charge: usize, number: usize) -> (result: u128)
    ensures
        result == charge * number,
{
    assert(charge * number <= 0xffff_ffff_ffff_ffff * 0xffff_ffff_ffff_ffff) by (nonlinear_arith)
        requires
            charge <= 0xffff_ffff_ffff_ffff,
            number <= 0xffff_ffff_ffff_ffff,
    ;
    charge as u128 * number as u128
}

/// The message as one subscriber gets it.
fn routed_copy(message: &BrokerMessage, qos: u8, retain_as_published: bool) -> (copy: BrokerMessage)
    ensures
        copy@ == (MessageView { qos, retain: retain_as_published && message@.retain, ..message@ }),
        charge_of(copy@) == charge_of(message@),
{
    let mut copy = message.clone();
    copy.qos = qos;
    copy.retain = retain_as_published && message.retain;
    copy
}

impl MqttBroker {
    /// Whether a subscriber's connection can take one more planned frame.
    fn reachable(&self, key: &SessionKey, charge: usize, plan: &Vec<PlannedRouteTarget>) -> (yes:
        bool)
        ensures
            yes == match active_at(self@, key@) {
                Some(j) => self@.links[j].open && has_room(self@.links[j], self.limits)
                    && bytes_fit(
                    self@,
                    self.limits,
                    key@.device.tenant,
                    self@.links[j].used,
                    charge as nat * planned(
                        plan_views(plan@),
                        Some(key@.device.tenant),
                        PlanCount::Frames,
                    ),
                    charge as nat * planned(plan_views(plan@), None, PlanCount::Frames),
                    charge as nat,
                ),
                None => false,
            },
    {
        let j = match self.find_active(key) {
            Some(j) => j,
            None => return false,
        };
        if !self.links[j].open || !self.link_has_room(j) {
            return false;
        }
        let tenant = &key.device.tenant_id;
        let own: u128 = product(charge, count_planned(plan, Some(tenant), PlanCount::Frames));
        let all: u128 = product(charge, count_planned(plan, None, PlanCount::Frames));
        self.outbound_fits(tenant, self.links[j].used as u128, own, all, charge)
    }

    /// Plans one subscriber.
    fn plan_target(
        &self,
        origin: Option<&SessionKey>,
        message: &BrokerMessage,
        plan: &Vec<PlannedRouteTarget>,
        key: &SessionKey,
        subscription: Subscription,
    ) -> (result: Result<Option<PlannedRouteTarget>, Error>)
        requires
            self.wf(),
        ensures
            plan_step(
                self@,
                self.limits,
                key_ref_view(origin),
                message@,
                plan_views(plan@),
                key@,
                subscription,
            ) == match result {
                Err(error) => Err::<Seq<PlannedView>, Error>(error),
                Ok(None) => Ok(plan_views(plan@)),
                Ok(Some(target)) => Ok(plan_views(plan@).push(target@)),
            },
    {
        proof {
            reveal(plan_step);
        }
        let local = match origin {
            Some(origin) => origin.same(key),
            None => false,
        };
        if subscription.no_local && local {
            return Ok(None);
        }
        let qos = if message.qos <= subscription.qos {
            message.qos
        } else {
            subscription.qos
        };
        let charge: usize = message.bytes();
        let retain_as_published = subscription.retain_as_published;
        let reachable = self.reachable(key, charge, plan);
        if qos == 0 {
            if reachable {
                return Ok(
                    Some(
                        PlannedRouteTarget {
                            key: key.clone(),
                            qos,
                            retain_as_published,
                            mode: PlannedRouteMode::Qos0,
                        },
                    ),
                );
            }
            return Ok(None);
        }
        if charge > self.limits.max_outbound_bytes_per_connection {
            return Err(Error::Overloaded);
        }
        let i = match self.find_session(key) {
            Some(i) => i,
            None => return Err(Error::Internal),
        };
        let tenant = &key.device.tenant_id;
        let exchanges: usize = count_planned(plan, Some(tenant), PlanCount::Exchanges(qos));
        let started: u128 = crate::broker::state::cap_sum(
            self.tenant_inflight(tenant, qos),
            exchanges as u128,
        );
        let live = reachable && started < self.inflight_limit(qos) as u128
            && self.sessions[i].has_outbound_capacity(qos, &self.limits)
            && self.sessions[i].has_send_quota();
        let kept: u128 = product(charge, count_planned(plan, Some(tenant), PlanCount::Kept));
        let kept_all: u128 = product(charge, count_planned(plan, None, PlanCount::Kept));
        if !self.may_grow(i, 0, kept, kept_all, charge) {
            return Err(Error::Overloaded);
        }
        let mode = if live {
            if let Err(error) = self.sessions[i].projected_packet_id() {
                return Err(error);
            }
            PlannedRouteMode::Live
        } else {
            let waiting: usize = count_planned(plan, Some(tenant), PlanCount::Waiting);
            let waiting_all: usize = count_planned(plan, None, PlanCount::Waiting);
            if !self.may_wait(
                i,
                (0, 0),
                (waiting as u128, product(charge, waiting)),
                (waiting_all as u128, product(charge, waiting_all)),
                charge,
            ) {
                return Err(Error::Overloaded);
            }
            PlannedRouteMode::Offline
        };
        Ok(Some(PlannedRouteTarget { key: key.clone(), qos, retain_as_published, mode }))
    }

    /// Plans every subscriber of the message's topic without changing anything.
    pub fn preflight_route(
        &self,
        tenant: &TenantId,
        origin: Option<&SessionKey>,
        message: &BrokerMessage,
    ) -> (result: Result<Vec<PlannedRouteTarget>, Error>)
        requires
            self.wf(),
        ensures
            plan_result(result) == plan_route(
                self@,
                self.limits,
                tenant@,
                key_ref_view(origin),
                message@,
            ),
    {
        if message.retain && !self.check_retained_update(tenant, origin, message) {
            return Err(Error::Overloaded);
        }
        let matches = self.trie.matching(message.topic.as_str());
        let ghost views = subscriber_views(matches@);
        let ghost from = key_ref_view(origin);
        let mut plan: Vec<PlannedRouteTarget> = Vec::new();
        let mut at: usize = 0;
        assert(plan_views(plan@) =~= Seq::<PlannedView>::empty());
        while at < matches.len()
            invariant
                at <= matches.len(),
                self.wf(),
                views == subscriber_views(matches@),
                views == trie_matching(self@.trie, message@.topic),
                from == key_ref_view(origin),
                !(message@.retain && !retained_allowed(
                    self@,
                    self.limits,
                    tenant@,
                    from,
                    message@,
                )),
                plan_first(self@, self.limits, from, message@, views, at as nat) == Ok::<
                    Seq<PlannedView>,
                    Error,
                >(plan_views(plan@)),
            decreases matches.len() - at,
        {
            let ghost before = plan_views(plan@);
            assert(views[at as int] == (matches@[at as int].0@, matches@[at as int].1));
            match self.plan_target(origin, message, &plan, &matches[at].0, matches[at].1) {
                Err(error) => {
                    proof {
                        lemma_plan_fails(
                            self@,
                            self.limits,
                            from,
                            message@,
                            views,
                            at as nat + 1,
                            views.len(),
                            error,
                        );
                    }
                    return Err(error);
                },
                Ok(None) => {},
                Ok(Some(target)) => {
                    let ghost model = target@;
                    plan.push(target);
                    assert(plan_views(plan@) =~= before.push(model));
                },
            }
            at = at + 1;
        }
        Ok(plan)
    }

    /// Makes one planned delivery.
    fn deliver_target(&mut self, message: &BrokerMessage, target: &PlannedRouteTarget) -> (done: bool)
        requires
            old(self).wf(),
        ensures
            final(self).wf(),
            final(self).limits == old(self).limits,
            deliver_one(old(self)@, old(self).limits, message@, target@) == (final(self)@, done),
    {
        proof {
            reveal(deliver_one);
        }
        let copy = routed_copy(message, target.qos, target.retain_as_published);
        assert(copy@ == routed(message@, target@));
        let charge: usize = message.bytes();
        match target.mode {
            PlannedRouteMode::Qos0 => {
                let j = match self.find_active(&target.key) {
                    Some(j) => j,
                    None => return false,
                };
                if !self.links[j].open || !self.link_has_room(j) {
                    return false;
                }
                self.reserve_frame(j, charge);
                let _ = self.send_frame(j, BrokerFrame::publish(copy, None, false, false));
                true
            },
            PlannedRouteMode::Live => {
                let session = self.find_session(&target.key);
                let link = self.find_active(&target.key);
                match (session, link) {
                    (Some(i), Some(j)) => self.deliver_live(i, j, copy, charge),
                    _ => false,
                }
            },
            PlannedRouteMode::Offline => {
                let i = match self.find_session(&target.key) {
                    Some(i) => i,
                    None => return false,
                };
                proof {
                    lemma_session_ok(self.sessions@, i as int);
                }
                if charge > usize::MAX - self.sessions[i].state_bytes {
                    return false;
                }
                let ghost before = *self;
                self.sessions[i].push_offline(copy);
                self.sync_session_usage(i, Ghost(before));
                self.mark_pending(&target.key);
                true
            },
        }
    }

    fn deliver_live(&mut self, i: usize, j: usize, message: BrokerMessage, charge: usize) -> (done:
        bool)
        requires
            old(self).wf(),
            i < old(self)@.sessions.len(),
            j < old(self)@.links.len(),
            charge == charge_of(message@),
        ensures
            final(self).wf(),
            final(self).limits == old(self).limits,
            match next_free(old(self)@.sessions[i as int]) {
                Some(id) => if session_charge(old(self)@.sessions[i as int]) + charge
                    <= usize::MAX {
                    done && final(self)@ == sent(
                        reserved(
                            put_session(
                                old(self)@,
                                old(self).limits,
                                i as int,
                                SessionView {
                                    next_packet_id: id_after(id),
                                    outbound: old(self)@.sessions[i as int].outbound.push(
                                        fresh_exchange(id, message@, false),
                                    ),
                                    ..old(self)@.sessions[i as int]
                                },
                            ),
                            j as int,
                            charge as nat,
                        ),
                        old(self).limits,
                        j as int,
                        FrameView::Publish {
                            message: message@,
                            packet_id: Some(id),
                            dup: false,
                            command: false,
                        },
                    )
                } else {
                    !done && final(self)@ == old(self)@
                },
                None => !done && final(self)@ == old(self)@,
            },
    {
        let ghost s = self@.sessions[i as int];
        proof {
            lemma_session_ok(self.sessions@, i as int);
            lemma_next_free(s);
        }
        let id: u16 = match self.sessions[i].projected_packet_id() {
            Ok(id) => id,
            Err(_) => return false,
        };
        if charge > usize::MAX - self.sessions[i].state_bytes {
            return false;
        }
        let ghost before = *self;
        self.sessions[i].start_numbered(id, message.clone());
        proof {
            lemma_put_session(
                before@,
                before.limits,
                i as int,
                self.sessions@[i as int]@,
            );
        }
        self.sync_session_usage(i, Ghost(before));
        self.reserve_frame(j, charge);
        let _ = self.send_frame(j, BrokerFrame::publish(message, Some(id), false, false));
        true
    }

    fn deliver_plan(&mut self, message: &BrokerMessage, plan: &Vec<PlannedRouteTarget>) -> (delivered:
        usize)
        requires
            old(self).wf(),
        ensures
            final(self).wf(),
            final(self).limits == old(self).limits,
            deliver_first(
                old(self)@,
                old(self).limits,
                message@,
                plan_views(plan@),
                plan@.len(),
            ) == (final(self)@, delivered as nat),
    {
        let ghost views = plan_views(plan@);
        let mut delivered: usize = 0;
        let mut at: usize = 0;
        while at < plan.len()
            invariant
                at <= plan.len(),
                delivered <= at,
                views == plan_views(plan@),
                self.wf(),
                self.limits == old(self).limits,
                deliver_first(old(self)@, old(self).limits, message@, views, at as nat) == (
                    self@,
                    delivered as nat,
                ),
            decreases plan.len() - at,
        {
            assert(views[at as int] == plan@[at as int]@);
            if self.deliver_target(message, &plan[at]) {
                delivered = delivered + 1;
            }
            at = at + 1;
        }
        delivered
    }

    fn prune_subscribers(&mut self, topic: &str, now: i64)
        requires
            old(self).wf(),
        ensures
            final(self).wf(),
            final(self).limits == old(self).limits,
            final(self)@ == prune_before_route(old(self)@, old(self).limits, now, topic@),
    {
        if !self.message_expiry.has_due(now) {
            return;
        }
        let matches = self.trie.matching(topic);
        let ghost views = subscriber_views(matches@);
        let mut at: usize = 0;
        while at < matches.len()
            invariant
                at <= matches.len(),
                views == subscriber_views(matches@),
                self.wf(),
                self.limits == old(self).limits,
                self@ == prune_matching(old(self)@, old(self).limits, now, views, at as nat),
            decreases matches.len() - at,
        {
            assert(views[at as int].0 == matches@[at as int].0@);
            self.prune_session_messages(&matches[at].0, now);
            at = at + 1;
        }
    }

    /// Routes a message to its subscribers and retains it if it says so, all or nothing.
    pub fn route_locked(
        &mut self,
        owner: &DeviceKey,
        origin: Option<&SessionKey>,
        message: &BrokerMessage,
        now: i64,
    ) -> (result: Result<usize, Error>)
        requires
            old(self).wf(),
        ensures
            final(self).wf(),
            final(self).limits == old(self).limits,
            route_message(
                old(self)@,
                old(self).limits,
                now,
                owner@.tenant,
                key_ref_view(origin),
                message@,
            ) == (final(self)@, count_result(result)),
    {
        proof {
            reveal(route_message);
        }
        if message.expired(now) {
            return Ok(0);
        }
        self.prune_subscribers(message.topic.as_str(), now);
        let plan = match self.preflight_route(&owner.tenant_id, origin, message) {
            Ok(plan) => plan,
            Err(error) => return Err(error),
        };
        if message.retain {
            self.update_retained(&owner.tenant_id, origin, message);
        }
        assert(plan_views(plan@).len() == plan@.len());
        Ok(self.deliver_plan(message, &plan))
    }
}

/// A plan that fails stays failed.
proof fn lemma_plan_fails(
    b: BrokerView,
    limits: Limits,
    origin: Option<KeyView>,
    message: MessageView,
    matches: Seq<(KeyView, Subscription)>,
    n: nat,
    m: nat,
    error: Error,
)
    requires
        n <= m,
        plan_first(b, limits, origin, message, matches, n) == Err::<Seq<PlannedView>, Error>(error),
    ensures
        plan_first(b, limits, origin, message, matches, m) == Err::<Seq<PlannedView>, Error>(error),
    decreases m,
{
    if n < m {
        lemma_plan_fails(b, limits, origin, message, matches, n, (m - 1) as nat, error);
    }
}

} // verus!
