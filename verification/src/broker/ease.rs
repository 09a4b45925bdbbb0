//! What a session has left to send becomes less with every step that is not a new message.
use super::inbound::carried_on;
use super::law::{law_routing_keeps_the_wills, same_wills};
use super::model::{
    active_at, add_wake, advance, drive, drive_wakes, least, least_wake, lemma_put_session, mark,
    message_due, next_unsent, promote, prune_if_due, prune_session, push_next, put_session,
    queued_for, reserved, session_at, session_is, unmark, update_retained, wake_session,
    wake_tenant, wake_tenant_loop, BrokerView, FrameView, WillView, HOT_MAINTENANCE_BUDGET,
};
use super::outbound::{
    begin_transfer, discard, frame_exchange, pull, pull_next, with_exchange, without_exchange,
};
use super::route::{
    deliver_first, deliver_one, plan_route, prune_before_route, prune_matching, route_message,
    PlannedView,
};
use super::tidy::lemma_positions;
use super::wills::{
    due_times, promote_due, ready, refreshed, retried, retry_loop, retry_one, retry_wills,
};
use crate::error::Error;
use crate::identity::KeyView;
use crate::limits::Limits;
use crate::list::{
    count, distinct, first, is_first, keep, lemma_first, lemma_first_is, lemma_first_none,
    lemma_keep_members,
};
use crate::message::{charge_of, MessageView};
use crate::session::{
    exchange_stays, fresh_exchange, fresh_message, is_unsent, next_free, no_reservation,
    outbound_is, outbound_key, promoted, pruned, OutboundStage, OutboundView, SessionView,
    Subscription,
};
use crate::table::{due_at, law_due_when_passed};
use crate::trie::trie_matching;
use vstd::prelude::*;

verus! {

/// How many messages wait in a session or are under way to its client.
pub open spec fn left_of(s: SessionView) -> nat {
    s.offline.len() + s.outbound.len()
}

/// An exchange that waits for the first acknowledgement of this message.
pub open spec fn carries(e: OutboundView, id: u16, message: MessageView) -> bool {
    e.packet_id == id && e.stage != OutboundStage::Pubcomp && e.message == message
}

pub open spec fn under_way(s: SessionView, id: u16, message: MessageView) -> bool {
    exists|k: int| 0 <= k < s.outbound.len() && #[trigger] carries(s.outbound[k], id, message)
}

/// The same session, whatever it sends.
pub open spec fn same_receiver(s: SessionView, t: SessionView) -> bool {
    &&& t.key == s.key
    &&& t.incarnation == s.incarnation
    &&& t.inbound == s.inbound
}

/// A session to which no message was added: what waits now waited before, what is under way was
/// under way or waited, and if nothing has left it then all that was under way still is.
#[verifier::opaque]
pub open spec fn thinned(s: SessionView, t: SessionView) -> bool {
    &&& same_receiver(s, t)
    &&& left_of(t) <= left_of(s)
    &&& forall|message: MessageView| #[trigger]
        t.offline.contains(message) ==> s.offline.contains(message)
    &&& forall|id: u16, message: MessageView| #[trigger]
        under_way(t, id, message) ==> under_way(s, id, message) || s.offline.contains(message)
    &&& left_of(t) == left_of(s) ==> forall|id: u16, message: MessageView| #[trigger]
        under_way(s, id, message) ==> under_way(t, id, message)
}

/// Wills that are due or wait for their time.
pub open spec fn wills_left(b: BrokerView) -> nat {
    b.pending_wills.len() + b.future_wills.len()
}

/// A step that adds no message to any session and touches no will.
#[verifier::opaque]
pub open spec fn lean(b: BrokerView, next: BrokerView) -> bool {
    &&& same_wills(b, next)
    &&& next.sessions.len() == b.sessions.len()
    &&& forall|i: int|
        0 <= i < b.sessions.len() ==> thinned(b.sessions[i], #[trigger] next.sessions[i])
}

/// A step that receives nothing, and adds messages only where a will is published.
#[verifier::opaque]
pub open spec fn eased(b: BrokerView, next: BrokerView) -> bool {
    &&& next.sessions.len() == b.sessions.len()
    &&& forall|i: int|
        0 <= i < b.sessions.len() ==> same_receiver(b.sessions[i], #[trigger] next.sessions[i])
    &&& wills_left(next) <= wills_left(b)
    &&& wills_left(next) == wills_left(b) ==> forall|i: int|
        0 <= i < b.sessions.len() ==> thinned(b.sessions[i], #[trigger] next.sessions[i])
}

proof fn lemma_thinned_refl(s: SessionView)
    ensures
        thinned(s, s),
{
    reveal(thinned);
}

proof fn lemma_thinned_trans(s: SessionView, t: SessionView, u: SessionView)
    requires
        thinned(s, t),
        thinned(t, u),
    ensures
        thinned(s, u),
{
    reveal(thinned);
}

pub proof fn lemma_lean_refl(b: BrokerView)
    ensures
        lean(b, b),
{
    reveal(lean);
    assert forall|i: int| 0 <= i < b.sessions.len() implies thinned(
        b.sessions[i],
        #[trigger] b.sessions[i],
    ) by {
        lemma_thinned_refl(b.sessions[i]);
    }
}

/// A step that leaves sessions and wills alone.
proof fn lemma_lean_same(b: BrokerView, next: BrokerView)
    requires
        same_wills(b, next),
        next.sessions == b.sessions,
    ensures
        lean(b, next),
{
    reveal(lean);
    lemma_lean_refl(b);
}

pub proof fn lemma_lean_trans(a: BrokerView, b: BrokerView, c: BrokerView)
    requires
        lean(a, b),
        lean(b, c),
    ensures
        lean(a, c),
{
    reveal(lean);
    assert forall|i: int| 0 <= i < a.sessions.len() implies thinned(
        a.sessions[i],
        #[trigger] c.sessions[i],
    ) by {
        assert(thinned(a.sessions[i], b.sessions[i]));
        lemma_thinned_trans(a.sessions[i], b.sessions[i], c.sessions[i]);
    }
}

pub proof fn lemma_lean_eased(b: BrokerView, next: BrokerView)
    requires
        lean(b, next),
    ensures
        eased(b, next),
{
    reveal(lean);
    reveal(eased);
    reveal(thinned);
}

pub proof fn lemma_eased_trans(a: BrokerView, b: BrokerView, c: BrokerView)
    requires
        eased(a, b),
        eased(b, c),
    ensures
        eased(a, c),
{
    reveal(eased);
    assert forall|i: int| 0 <= i < a.sessions.len() implies same_receiver(
        a.sessions[i],
        #[trigger] c.sessions[i],
    ) by {
        assert(same_receiver(a.sessions[i], b.sessions[i]));
    }
    if wills_left(c) == wills_left(a) {
        assert forall|i: int| 0 <= i < a.sessions.len() implies thinned(
            a.sessions[i],
            #[trigger] c.sessions[i],
        ) by {
            assert(thinned(a.sessions[i], b.sessions[i]));
            lemma_thinned_trans(a.sessions[i], b.sessions[i], c.sessions[i]);
        }
    }
}

/// One session replaced by a thinner one.
proof fn lemma_lean_update(b: BrokerView, next: BrokerView, i: int, s: SessionView)
    requires
        0 <= i < b.sessions.len(),
        next.sessions == b.sessions.update(i, s),
        same_wills(b, next),
        thinned(b.sessions[i], s),
    ensures
        lean(b, next),
{
    reveal(lean);
    assert forall|k: int| 0 <= k < b.sessions.len() implies thinned(
        b.sessions[k],
        #[trigger] next.sessions[k],
    ) by {
        lemma_thinned_refl(b.sessions[k]);
    }
}

/// What is kept if nothing is dropped.
proof fn lemma_keep_whole<T>(s: Seq<T>, p: spec_fn(T) -> bool)
    requires
        keep(s, p).len() == s.len(),
    ensures
        keep(s, p) == s,
    decreases s.len(),
{
    if s.len() > 0 {
        let front = s.drop_last();
        lemma_keep_members(front, p);
        lemma_keep_whole(front, p);
        assert(keep(s, p) =~= s);
    }
}

proof fn lemma_pruned_thinned(s: SessionView, now: i64)
    ensures
        thinned(s, pruned(s, now)),
{
    reveal(thinned);
    let t = pruned(s, now);
    let kept = keep(s.outbound, exchange_stays(now));
    lemma_keep_members(s.offline, fresh_message(now));
    lemma_keep_members(s.outbound, exchange_stays(now));
    assert forall|message: MessageView| #[trigger] t.offline.contains(message) implies
        s.offline.contains(message) by {
        let k = choose|k: int| 0 <= k < t.offline.len() && t.offline[k] == message;
        assert(s.offline.contains(keep(s.offline, fresh_message(now))[k]));
    }
    assert forall|id: u16, message: MessageView| #[trigger] under_way(t, id, message) implies
        under_way(s, id, message) by {
        let k = choose|k: int|
            0 <= k < t.outbound.len() && #[trigger] carries(t.outbound[k], id, message);
        assert(t.outbound[k] == kept[k]);
        assert(s.outbound.contains(kept[k]));
        let m = choose|m: int| 0 <= m < s.outbound.len() && s.outbound[m] == kept[k];
        assert(carries(s.outbound[m], id, message));
    }
    if left_of(t) == left_of(s) {
        lemma_keep_whole(s.outbound, exchange_stays(now));
        assert forall|id: u16, message: MessageView| #[trigger] under_way(s, id, message) implies
            under_way(t, id, message) by {
            let k = choose|k: int|
                0 <= k < s.outbound.len() && #[trigger] carries(s.outbound[k], id, message);
            assert(t.outbound[k] == s.outbound[k]);
            assert(carries(t.outbound[k], id, message));
        }
    }
}

/// An exchange that is only marked.
proof fn lemma_marked_thinned(s: SessionView, k: int, e: OutboundView)
    requires
        0 <= k < s.outbound.len(),
        e.packet_id == s.outbound[k].packet_id,
        e.stage == s.outbound[k].stage,
        e.message == s.outbound[k].message,
    ensures
        thinned(s, SessionView { outbound: s.outbound.update(k, e), ..s }),
{
    reveal(thinned);
    let t = SessionView { outbound: s.outbound.update(k, e), ..s };
    assert forall|id: u16, message: MessageView| under_way(t, id, message) == #[trigger] under_way(
        s,
        id,
        message,
    ) by {
        if under_way(t, id, message) {
            let m = choose|m: int|
                0 <= m < t.outbound.len() && #[trigger] carries(t.outbound[m], id, message);
            assert(carries(s.outbound[m], id, message));
        }
        if under_way(s, id, message) {
            let m = choose|m: int|
                0 <= m < s.outbound.len() && #[trigger] carries(s.outbound[m], id, message);
            assert(carries(t.outbound[m], id, message));
        }
    }
}

proof fn lemma_promoted_thinned(s: SessionView, id: u16)
    requires
        s.offline.len() > 0,
    ensures
        thinned(s, promoted(s, id)),
        under_way(promoted(s, id), id, s.offline[0]),
        left_of(promoted(s, id)) == left_of(s),
{
    reveal(thinned);
    let t = promoted(s, id);
    let fresh = fresh_exchange(id, s.offline[0], false);
    assert(carries(t.outbound[s.outbound.len() as int], id, s.offline[0]));
    assert forall|message: MessageView| #[trigger] t.offline.contains(message) implies
        s.offline.contains(message) by {
        let k = choose|k: int| 0 <= k < t.offline.len() && t.offline[k] == message;
        assert(s.offline[k + 1] == message);
    }
    assert forall|other: u16, message: MessageView| #[trigger]
        under_way(t, other, message) implies under_way(s, other, message) || s.offline.contains(
        message,
    ) by {
        let k = choose|k: int|
            0 <= k < t.outbound.len() && #[trigger] carries(t.outbound[k], other, message);
        if k < s.outbound.len() {
            assert(carries(s.outbound[k], other, message));
        } else {
            assert(t.outbound[k] == fresh);
            assert(s.offline[0] == message);
        }
    }
    assert forall|other: u16, message: MessageView| #[trigger]
        under_way(s, other, message) implies under_way(t, other, message) by {
        let k = choose|k: int|
            0 <= k < s.outbound.len() && #[trigger] carries(s.outbound[k], other, message);
        assert(carries(t.outbound[k], other, message));
    }
}

/// A session without one of its exchanges.
pub proof fn lemma_removed_thinned(s: SessionView, k: int)
    requires
        0 <= k < s.outbound.len(),
    ensures
        thinned(s, SessionView { outbound: s.outbound.remove(k), ..s }),
        left_of(SessionView { outbound: s.outbound.remove(k), ..s }) < left_of(s),
{
    reveal(thinned);
    let t = SessionView { outbound: s.outbound.remove(k), ..s };
    assert forall|id: u16, message: MessageView| #[trigger] under_way(t, id, message) implies
        under_way(s, id, message) by {
        let m = choose|m: int|
            0 <= m < t.outbound.len() && #[trigger] carries(t.outbound[m], id, message);
        let at = if m < k { m } else { m + 1 };
        assert(t.outbound[m] == s.outbound[at]);
        assert(carries(s.outbound[at], id, message));
    }
}

pub proof fn lemma_prune_session_lean(b: BrokerView, limits: Limits, key: KeyView, now: i64)
    ensures
        lean(b, prune_session(b, limits, key, now)),
{
    reveal(prune_session);
    lemma_lean_refl(b);
    lemma_positions(b, key);
    if let Some(i) = session_at(b, key) {
        let s = pruned(b.sessions[i], now);
        lemma_pruned_thinned(b.sessions[i], now);
        lemma_put_session(b, limits, i, s);
        lemma_lean_update(b, prune_session(b, limits, key, now), i, s);
    }
}

proof fn lemma_next_unsent_lean(b: BrokerView, limits: Limits, i: int, j: int)
    requires
        0 <= i < b.sessions.len(),
    ensures
        lean(b, next_unsent(b, limits, i, j).0),
        next_unsent(b, limits, i, j).1 matches Some(frame) ==> handed(
            next_unsent(b, limits, i, j).0.sessions[i],
            frame,
        ),
{
    reveal(next_unsent);
    lemma_lean_refl(b);
    let s = b.sessions[i];
    lemma_first(s.outbound, is_unsent());
    if let Some(k) = first(s.outbound, is_unsent()) {
        let e = s.outbound[k];
        let again = OutboundView { sent: true, ..e };
        let counted = OutboundView { sent: true, windowed: true, ..e };
        lemma_marked_thinned(s, k, again);
        lemma_marked_thinned(s, k, counted);
        let next = next_unsent(b, limits, i, j).0;
        if e.stage == OutboundStage::Pubcomp {
            lemma_lean_update(
                b,
                next,
                i,
                SessionView { outbound: s.outbound.update(k, again), ..s },
            );
        } else if next_unsent(b, limits, i, j).1 is Some {
            lemma_lean_update(
                b,
                next,
                i,
                SessionView { outbound: s.outbound.update(k, counted), ..s },
            );
            assert(carries(next.sessions[i].outbound[k], e.packet_id, e.message));
        }
    }
}

/// What a frame carries is under way in its session.
pub open spec fn handed(s: SessionView, frame: FrameView) -> bool {
    frame matches FrameView::Publish { message, packet_id: Some(id), .. } ==> under_way(
        s,
        id,
        message,
    )
}

proof fn lemma_promote_lean(b: BrokerView, limits: Limits, i: int, j: int)
    requires
        0 <= i < b.sessions.len(),
    ensures
        lean(b, promote(b, limits, i, j).0),
        promote(b, limits, i, j).1 matches Ok(Some(frame)) ==> handed(
            promote(b, limits, i, j).0.sessions[i],
            frame,
        ),
{
    reveal(promote);
    lemma_lean_refl(b);
    let s = b.sessions[i];
    if promote(b, limits, i, j).1 matches Ok(Some(_)) {
        let id = next_free(s)->0;
        let charged = reserved(b, j, charge_of(s.offline[0]));
        lemma_promoted_thinned(s, id);
        lemma_put_session(charged, limits, i, promoted(s, id));
        lemma_lean_update(b, promote(b, limits, i, j).0, i, promoted(s, id));
    }
}

proof fn lemma_wake_session_lean(
    b: BrokerView,
    limits: Limits,
    now: i64,
    key: KeyView,
    gate: Option<u8>,
)
    ensures
        lean(b, wake_session(b, limits, now, key, gate).0),
{
    reveal(wake_session);
    let b0 = unmark(b, key);
    let b1 = prune_if_due(b0, limits, key, now);
    lemma_lean_same(b, b0);
    lemma_prune_session_lean(b0, limits, key, now);
    lemma_lean_refl(b0);
    lemma_lean_trans(b, b0, b1);
    lemma_lean_same(b1, mark(b1, key));
    lemma_lean_trans(b, b1, mark(b1, key));
    lemma_positions(b1, key);
    if let (Some(i), Some(j)) = (session_at(b1, key), active_at(b1, key)) {
        let next = push_next(b1, limits, i, j).0;
        let step = advance(b1, limits, i, j).0;
        lemma_next_unsent_lean(b1, limits, i, j);
        lemma_promote_lean(b1, limits, i, j);
        lemma_lean_same(step, next);
        lemma_lean_trans(b1, step, next);
        lemma_lean_trans(b, b1, next);
        lemma_lean_same(next, mark(next, key));
        lemma_lean_trans(b, next, mark(next, key));
    }
}

proof fn lemma_wake_tenant_lean(
    b: BrokerView,
    limits: Limits,
    now: i64,
    tenant: Seq<char>,
    qos: u8,
    attempts: nat,
)
    ensures
        lean(b, wake_tenant_loop(b, limits, now, tenant, qos, attempts).0),
    decreases attempts,
{
    lemma_lean_refl(b);
    if attempts > 0 {
        if let Some(k) = first(b.pending, queued_for(tenant, qos)) {
            let key = b.pending[k].0;
            let next = wake_session(b, limits, now, key, Some(qos)).0;
            lemma_wake_session_lean(b, limits, now, key, Some(qos));
            lemma_wake_tenant_lean(next, limits, now, tenant, qos, (attempts - 1) as nat);
            lemma_lean_trans(
                b,
                next,
                wake_tenant_loop(next, limits, now, tenant, qos, (attempts - 1) as nat).0,
            );
        }
    }
}

proof fn lemma_drive_wakes_lean(b: BrokerView, limits: Limits, now: i64, budget: nat)
    ensures
        lean(b, drive_wakes(b, limits, now, budget).0),
    decreases budget,
{
    lemma_lean_refl(b);
    if budget > 0 && b.wakes.len() > 0 {
        let k = least_wake(b.wakes, b.wakes.len());
        let (tenant, qos) = b.wakes[k];
        let taken = BrokerView { wakes: b.wakes.remove(k), ..b };
        let next = wake_tenant(taken, limits, now, tenant, qos).0;
        lemma_lean_same(b, taken);
        assert(lean(taken, next)) by {
            reveal(wake_tenant);
            lemma_wake_tenant_lean(
                taken,
                limits,
                now,
                tenant,
                qos,
                count(taken.pending, queued_for(tenant, qos)),
            );
        }
        lemma_lean_trans(b, taken, next);
        let back = BrokerView { wakes: add_wake(next.wakes, (tenant, qos)), ..next };
        lemma_lean_same(next, back);
        lemma_lean_trans(b, next, back);
        lemma_drive_wakes_lean(next, limits, now, (budget - 1) as nat);
        lemma_lean_trans(b, next, drive_wakes(next, limits, now, (budget - 1) as nat).0);
    }
}

/// Looking after those that wait adds no message to any session.
pub proof fn lemma_drive_lean(b: BrokerView, limits: Limits, now: i64)
    ensures
        lean(b, drive(b, limits, now).0),
{
    reveal(drive);
    lemma_drive_wakes_lean(b, limits, now, HOT_MAINTENANCE_BUDGET as nat);
}

proof fn lemma_prune_matching_lean(
    b: BrokerView,
    limits: Limits,
    now: i64,
    matches: Seq<(KeyView, Subscription)>,
    n: nat,
)
    ensures
        lean(b, prune_matching(b, limits, now, matches, n)),
    decreases n,
{
    lemma_lean_refl(b);
    if n > 0 {
        let before = prune_matching(b, limits, now, matches, (n - 1) as nat);
        lemma_prune_matching_lean(b, limits, now, matches, (n - 1) as nat);
        lemma_prune_session_lean(before, limits, matches[n - 1].0, now);
        lemma_lean_trans(b, before, prune_matching(b, limits, now, matches, n));
    }
}

pub proof fn lemma_prune_before_route_lean(
    b: BrokerView,
    limits: Limits,
    now: i64,
    topic: Seq<char>,
)
    ensures
        lean(b, prune_before_route(b, limits, now, topic)),
{
    lemma_lean_refl(b);
    let matches = trie_matching(b.trie, topic);
    lemma_prune_matching_lean(b, limits, now, matches, matches.len());
}

/// The same sessions, whatever they send.
#[verifier::opaque]
pub open spec fn same_receivers(b: BrokerView, next: BrokerView) -> bool {
    &&& next.sessions.len() == b.sessions.len()
    &&& forall|i: int|
        0 <= i < b.sessions.len() ==> same_receiver(b.sessions[i], #[trigger] next.sessions[i])
}

pub proof fn lemma_lean_receivers(b: BrokerView, next: BrokerView)
    requires
        lean(b, next) || eased(b, next),
    ensures
        same_receivers(b, next),
{
    reveal(lean);
    reveal(eased);
    reveal(thinned);
    reveal(same_receivers);
}

pub proof fn lemma_receivers_trans(a: BrokerView, b: BrokerView, c: BrokerView)
    requires
        same_receivers(a, b),
        same_receivers(b, c),
    ensures
        same_receivers(a, c),
{
    reveal(same_receivers);
    assert forall|i: int| 0 <= i < a.sessions.len() implies same_receiver(
        a.sessions[i],
        #[trigger] c.sessions[i],
    ) by {
        assert(same_receiver(a.sessions[i], b.sessions[i]));
    }
}

proof fn lemma_deliver_one_receivers(
    b: BrokerView,
    limits: Limits,
    message: MessageView,
    t: PlannedView,
)
    ensures
        same_receivers(b, deliver_one(b, limits, message, t).0),
{
    reveal(same_receivers);
    reveal(deliver_one);
    reveal(put_session);
    lemma_positions(b, t.key);
}

proof fn lemma_deliver_first_receivers(
    b: BrokerView,
    limits: Limits,
    message: MessageView,
    plan: Seq<PlannedView>,
    n: nat,
)
    ensures
        same_receivers(b, deliver_first(b, limits, message, plan, n).0),
    decreases n,
{
    if n > 0 {
        let before = deliver_first(b, limits, message, plan, (n - 1) as nat).0;
        lemma_deliver_first_receivers(b, limits, message, plan, (n - 1) as nat);
        lemma_deliver_one_receivers(before, limits, message, plan[n - 1]);
        lemma_receivers_trans(b, before, deliver_first(b, limits, message, plan, n).0);
    } else {
        reveal(same_receivers);
    }
}

/// Routing a message changes nothing of what the sessions have received, and refused it adds no
/// message to any of them.
pub proof fn lemma_route_receivers(
    b: BrokerView,
    limits: Limits,
    now: i64,
    tenant: Seq<char>,
    origin: Option<KeyView>,
    message: MessageView,
)
    ensures
        same_receivers(b, route_message(b, limits, now, tenant, origin, message).0),
        route_message(b, limits, now, tenant, origin, message).1 is Err ==> lean(
            b,
            route_message(b, limits, now, tenant, origin, message).0,
        ),
{
    reveal(route_message);
    lemma_lean_refl(b);
    let b1 = prune_before_route(b, limits, now, message.topic);
    lemma_prune_before_route_lean(b, limits, now, message.topic);
    lemma_lean_receivers(b, b1);
    lemma_lean_receivers(b, b);
    if let Ok(plan) = plan_route(b1, limits, tenant, origin, message) {
        let b2 = if message.retain {
            update_retained(b1, tenant, origin, message)
        } else {
            b1
        };
        lemma_lean_same(b1, b2);
        lemma_lean_receivers(b1, b2);
        lemma_receivers_trans(b, b1, b2);
        lemma_deliver_first_receivers(b2, limits, message, plan, plan.len());
        lemma_receivers_trans(b, b2, deliver_first(b2, limits, message, plan, plan.len()).0);
    }
}

proof fn lemma_retry_one_eased(b: BrokerView, limits: Limits, now: i64)
    requires
        b.pending_wills.len() > 0,
    ensures
        eased(b, retry_one(b, limits, now).0),
{
    reveal(retry_one);
    let w = refreshed(b.pending_wills[0], now);
    let tried = BrokerView {
        pending_wills: b.pending_wills.update(
            0,
            WillView { reservation: no_reservation(), ..w },
        ),
        ..b
    };
    let tenant = w.owner.tenant;
    let (next, outcome) = route_message(tried, limits, now, tenant, w.origin, w.message);
    let last = retry_one(b, limits, now).0;
    lemma_route_receivers(tried, limits, now, tenant, w.origin, w.message);
    law_routing_keeps_the_wills(tried, limits, now, tenant, w.origin, w.message);
    reveal(same_receivers);
    reveal(lean);
    reveal(eased);
    assert(last.sessions == next.sessions);
    assert(outcome is Ok ==> wills_left(last) < wills_left(b));
}

proof fn lemma_retry_loop_eased(b: BrokerView, limits: Limits, now: i64, attempts: nat)
    ensures
        eased(b, retry_loop(b, limits, now, attempts).0),
    decreases attempts,
{
    lemma_lean_refl(b);
    lemma_lean_eased(b, b);
    if attempts > 0 && b.pending_wills.len() > 0 {
        let next = retry_one(b, limits, now).0;
        lemma_retry_one_eased(b, limits, now);
        lemma_retry_loop_eased(next, limits, now, (attempts - 1) as nat);
        lemma_eased_trans(b, next, retry_loop(next, limits, now, (attempts - 1) as nat).0);
    }
}

proof fn lemma_promote_due_eased(b: BrokerView, now: i64, budget: nat)
    ensures
        eased(b, promote_due(b, now, budget)),
    decreases budget,
{
    lemma_lean_refl(b);
    lemma_lean_eased(b, b);
    if budget > 0 {
        if let Some(k) = due_at(due_times(b.future_wills), now) {
            let next = BrokerView {
                future_wills: b.future_wills.remove(k),
                pending_wills: b.pending_wills.push(ready(b.future_wills[k])),
                ..b
            };
            law_due_when_passed(due_times(b.future_wills), now);
            assert(eased(b, next)) by {
                reveal(eased);
            }
            lemma_promote_due_eased(next, now, (budget - 1) as nat);
            lemma_eased_trans(b, next, promote_due(b, now, budget));
        }
    }
}

/// Trying the wills that are due.
pub proof fn lemma_retried_eased(b: BrokerView, limits: Limits, now: i64)
    ensures
        eased(b, retried(b, limits, now)),
{
    reveal(retry_wills);
    let budget = HOT_MAINTENANCE_BUDGET as nat;
    let b1 = promote_due(b, now, budget);
    let attempts = least(b1.pending_wills.len(), budget);
    lemma_promote_due_eased(b, now, budget);
    lemma_retry_loop_eased(b1, limits, now, attempts);
    lemma_eased_trans(b, b1, retry_loop(b1, limits, now, attempts).0);
}

pub proof fn lemma_carried_on_eased(b: BrokerView, limits: Limits, now: i64)
    ensures
        eased(b, carried_on(b, limits, now).0),
{
    let next = drive(b, limits, now).0;
    lemma_drive_lean(b, limits, now);
    lemma_lean_eased(b, next);
    lemma_retried_eased(next, limits, now);
    lemma_eased_trans(b, next, retried(next, limits, now));
}

/// How many messages a session has left to send.
pub open spec fn left(b: BrokerView, key: KeyView) -> nat {
    match session_at(b, key) {
        Some(i) => left_of(b.sessions[i]),
        None => 0,
    }
}

/// A frame whose exchange its session does not have.
pub open spec fn stale(b: BrokerView, key: KeyView, frame: FrameView) -> bool {
    frame matches FrameView::Publish { message, packet_id: Some(id), .. } && !(session_at(
        b,
        key,
    ) matches Some(i) && frame_exchange(b.sessions[i], id, message) is Some)
}

/// There is less left to send than before: fewer wills, or as many and fewer messages of this
/// session, or as many of both and a frame of the session in the place of one that was not.
pub open spec fn lighter(
    b: BrokerView,
    frame: FrameView,
    next: BrokerView,
    other: FrameView,
    key: KeyView,
) -> bool {
    ||| wills_left(next) < wills_left(b)
    ||| wills_left(next) == wills_left(b) && left(next, key) < left(b, key)
    ||| {
        &&& wills_left(next) == wills_left(b)
        &&& left(next, key) == left(b, key)
        &&& stale(b, key, frame) && !stale(next, key, other)
    }
}

pub proof fn lemma_receivers_at(b: BrokerView, next: BrokerView, key: KeyView)
    requires
        same_receivers(b, next),
    ensures
        session_at(next, key) == session_at(b, key),
{
    reveal(same_receivers);
    lemma_first(b.sessions, session_is(key));
    if let Some(i) = session_at(b, key) {
        assert(is_first(next.sessions, session_is(key), i)) by {
            assert forall|k: int| 0 <= k < i implies !session_is(key)(
                #[trigger] next.sessions[k],
            ) by {
                assert(!session_is(key)(b.sessions[k]));
            }
        }
        lemma_first_is(next.sessions, session_is(key), i);
    } else {
        assert forall|k: int| 0 <= k < next.sessions.len() implies !session_is(key)(
            #[trigger] next.sessions[k],
        ) by {
            assert(!session_is(key)(b.sessions[k]));
        }
        lemma_first_none(next.sessions, session_is(key));
    }
}

/// No step of this sort leaves a session more to send, unless a will was published.
pub proof fn lemma_eased_left(b: BrokerView, next: BrokerView, key: KeyView)
    requires
        eased(b, next),
    ensures
        session_at(next, key) == session_at(b, key),
        wills_left(next) <= wills_left(b),
        wills_left(next) == wills_left(b) ==> left(next, key) <= left(b, key),
{
    lemma_lean_receivers(b, next);
    lemma_receivers_at(b, next, key);
    lemma_positions(b, key);
    reveal(eased);
    reveal(thinned);
}

/// A frame that was pulled belongs to an exchange of the session, unless there is less left to
/// send than before.
proof fn lemma_pull_next_eased(b: BrokerView, limits: Limits, now: i64, key: KeyView)
    ensures
        eased(b, pull_next(b, limits, now, key).0),
        pull_next(b, limits, now, key).1 matches Ok(Some(frame)) ==> session_at(b, key) matches Some(
            i,
        ) && ({
            let next = pull_next(b, limits, now, key).0;
            wills_left(next) == wills_left(b) && left(next, key) == left(b, key) ==> handed(
                next.sessions[i],
                frame,
            )
        }),
{
    reveal(pull_next);
    lemma_lean_refl(b);
    lemma_lean_eased(b, b);
    lemma_positions(b, key);
    if let (Some(i), Some(j)) = (session_at(b, key), active_at(b, key)) {
        lemma_lean_same(b, mark(b, key));
        lemma_lean_eased(b, mark(b, key));
        let again = next_unsent(b, limits, i, j).0;
        lemma_next_unsent_lean(b, limits, i, j);
        lemma_lean_same(again, mark(again, key));
        lemma_lean_trans(b, again, mark(again, key));
        lemma_lean_eased(b, mark(again, key));
        let (step, outcome) = promote(b, limits, i, j);
        let marked = mark(step, key);
        let last = retried(marked, limits, now);
        lemma_promote_lean(b, limits, i, j);
        lemma_lean_eased(b, step);
        lemma_lean_same(step, marked);
        lemma_lean_trans(b, step, marked);
        lemma_lean_eased(b, marked);
        lemma_retried_eased(marked, limits, now);
        lemma_eased_trans(b, marked, last);
        lemma_eased_left(b, marked, key);
        lemma_eased_left(marked, last, key);
        reveal(lean);
        reveal(eased);
        reveal(thinned);
    }
}

pub proof fn lemma_pull_eased(
    b: BrokerView,
    limits: Limits,
    now: i64,
    key: KeyView,
    generation: u64,
)
    ensures
        eased(b, pull(b, limits, now, key, generation).0),
        pull(b, limits, now, key, generation).1 matches Ok(Some(frame)) ==> session_at(
            b,
            key,
        ) matches Some(i) && ({
            let next = pull(b, limits, now, key, generation).0;
            wills_left(next) == wills_left(b) && left(next, key) == left(b, key) ==> handed(
                next.sessions[i],
                frame,
            )
        }),
{
    reveal(pull);
    lemma_lean_refl(b);
    lemma_lean_eased(b, b);
    lemma_pull_next_eased(b, limits, now, key);
    if message_due(b, key, now) {
        let b1 = prune_session(b, limits, key, now);
        let b2 = drive(b1, limits, now).0;
        let b3 = pull_next(b2, limits, now, key).0;
        lemma_prune_session_lean(b, limits, key, now);
        lemma_drive_lean(b1, limits, now);
        lemma_lean_trans(b, b1, b2);
        lemma_lean_eased(b, b2);
        lemma_pull_next_eased(b2, limits, now, key);
        lemma_eased_trans(b, b2, b3);
        lemma_eased_left(b, b2, key);
        lemma_eased_left(b2, b3, key);
    }
}

/// An exchange that is under way is the one that its frame belongs to.
proof fn lemma_handed_fresh(b: BrokerView, key: KeyView, frame: FrameView)
    requires
        session_at(b, key) matches Some(i) && handed(b.sessions[i], frame) && distinct(
            b.sessions[i].outbound,
            outbound_key(),
        ),
    ensures
        !stale(b, key, frame),
{
    if let FrameView::Publish { message, packet_id: Some(id), .. } = frame {
        let s = b.sessions[session_at(b, key)->0];
        let k = choose|k: int|
            0 <= k < s.outbound.len() && #[trigger] carries(s.outbound[k], id, message);
        assert(is_first(s.outbound, outbound_is(id), k)) by {
            assert forall|m: int| 0 <= m < k implies !outbound_is(id)(
                #[trigger] s.outbound[m],
            ) by {
                assert(outbound_key()(s.outbound[m]) != outbound_key()(s.outbound[k]));
            }
        }
        lemma_first_is(s.outbound, outbound_is(id), k);
    }
}

/// Another frame pulled in the place of one, after a step that left less to send or found the
/// frame stale.
pub proof fn lemma_pulled_lighter(
    b: BrokerView,
    frame: FrameView,
    mid: BrokerView,
    limits: Limits,
    now: i64,
    key: KeyView,
    generation: u64,
)
    requires
        eased(b, mid),
        wills_left(mid) == wills_left(b) && left(mid, key) == left(b, key) ==> stale(
            b,
            key,
            frame,
        ),
        pull(mid, limits, now, key, generation).1 matches Ok(Some(_)),
        ({
            let next = pull(mid, limits, now, key, generation).0;
            session_at(next, key) matches Some(i) ==> distinct(
                next.sessions[i].outbound,
                outbound_key(),
            )
        }),
    ensures
        lighter(
            b,
            frame,
            pull(mid, limits, now, key, generation).0,
            pull(mid, limits, now, key, generation).1->Ok_0->0,
            key,
        ),
{
    let (next, outcome) = pull(mid, limits, now, key, generation);
    let other = outcome->Ok_0->0;
    lemma_pull_eased(mid, limits, now, key, generation);
    lemma_eased_left(b, mid, key);
    lemma_eased_left(mid, next, key);
    if wills_left(next) == wills_left(b) && left(next, key) == left(b, key) {
        lemma_handed_fresh(next, key, other);
    }
}

/// The broker without an exchange leaves its session less to send.
pub proof fn lemma_without_exchange_left(
    b: BrokerView,
    limits: Limits,
    key: KeyView,
    i: int,
    k: int,
)
    requires
        session_at(b, key) == Some(i),
        0 <= k < b.sessions[i].outbound.len(),
    ensures
        lean(b, without_exchange(b, limits, i, k)),
        left(without_exchange(b, limits, i, k), key) < left(b, key),
{
    let s = b.sessions[i];
    let t = SessionView { outbound: s.outbound.remove(k), ..s };
    let next = without_exchange(b, limits, i, k);
    lemma_positions(b, key);
    lemma_removed_thinned(s, k);
    lemma_put_session(b, limits, i, t);
    lemma_lean_update(b, next, i, t);
    lemma_lean_eased(b, next);
    lemma_eased_left(b, next, key);
}

/// A transfer that could not begin: the frame was stale, or there is less left to send.
pub proof fn lemma_begin_transfer_eased(
    b: BrokerView,
    limits: Limits,
    now: i64,
    key: KeyView,
    generation: u64,
    id: u16,
    message: MessageView,
    dup: bool,
    command: bool,
)
    ensures
        ({
            let frame = FrameView::Publish { message, packet_id: Some(id), dup, command };
            let (next, outcome) = begin_transfer(
                b,
                limits,
                now,
                key,
                generation,
                Some(id),
                message,
            );
            &&& eased(b, next)
            &&& wills_left(next) == wills_left(b)
            &&& outcome == Ok::<bool, Error>(false) ==> left(next, key) < left(b, key) || (stale(
                b,
                key,
                frame,
            ) && next == b)
            &&& outcome == Ok::<bool, Error>(true) ==> left(next, key) == left(b, key) && !stale(
                next,
                key,
                frame,
            )
        }),
{
    reveal(begin_transfer);
    lemma_lean_refl(b);
    lemma_lean_eased(b, b);
    lemma_positions(b, key);
    if let Some(i) = session_at(b, key) {
        let s = b.sessions[i];
        lemma_first(s.outbound, outbound_is(id));
        if let Some(k) = frame_exchange(s, id, message) {
            let gone = without_exchange(b, limits, i, k);
            lemma_without_exchange_left(b, limits, key, i, k);
            lemma_lean_eased(b, gone);
            lemma_drive_lean(gone, limits, now);
            let driven = drive(gone, limits, now).0;
            lemma_lean_eased(gone, driven);
            lemma_eased_trans(b, gone, driven);
            lemma_eased_left(gone, driven, key);
            assert(wills_left(driven) == wills_left(gone) && wills_left(gone) == wills_left(b)) by {
                reveal(lean);
            }
            let e = OutboundView { started: true, ..s.outbound[k] };
            let t = SessionView { outbound: s.outbound.update(k, e), ..s };
            let begun = with_exchange(b, limits, i, k, e);
            lemma_marked_thinned(s, k, e);
            lemma_put_session(b, limits, i, t);
            lemma_lean_update(b, begun, i, t);
            lemma_lean_eased(b, begun);
            lemma_eased_left(b, begun, key);
            assert(is_first(t.outbound, outbound_is(id), k)) by {
                assert forall|m: int| 0 <= m < k implies !outbound_is(id)(
                    #[trigger] t.outbound[m],
                ) by {
                    assert(!outbound_is(id)(s.outbound[m]));
                }
            }
            lemma_first_is(t.outbound, outbound_is(id), k);
        }
    }
}

/// A message given up leaves less to send.
pub proof fn lemma_discard_eased(
    b: BrokerView,
    limits: Limits,
    now: i64,
    key: KeyView,
    generation: u64,
    id: u16,
    message: MessageView,
    dup: bool,
    command: bool,
)
    requires
        !stale(b, key, FrameView::Publish { message, packet_id: Some(id), dup, command }),
        discard(b, limits, now, key, generation, Some(id), message).1 is Ok,
    ensures
        ({
            let next = discard(b, limits, now, key, generation, Some(id), message).0;
            &&& eased(b, next)
            &&& wills_left(next) < wills_left(b) || left(next, key) < left(b, key)
        }),
{
    reveal(discard);
    lemma_positions(b, key);
    let i = session_at(b, key)->0;
    let s = b.sessions[i];
    lemma_first(s.outbound, outbound_is(id));
    let k = frame_exchange(s, id, message)->0;
    let gone = without_exchange(b, limits, i, k);
    let last = carried_on(gone, limits, now).0;
    lemma_without_exchange_left(b, limits, key, i, k);
    lemma_lean_eased(b, gone);
    lemma_carried_on_eased(gone, limits, now);
    lemma_eased_trans(b, gone, last);
    lemma_eased_left(gone, last, key);
    lemma_eased_left(b, gone, key);
}

} // verus!
