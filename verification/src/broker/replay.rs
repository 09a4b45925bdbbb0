//! What a session gets that a message is handed to, and what a new subscription gets.
use super::carry::{holder, lemma_reserved_bytes};
use super::filing::lemma_replay_all_steady;
use super::flow::{
    lemma_enqueue_steady, lemma_prune_messages_steady, lemma_queue_offline_steady,
    lemma_retry_wills_steady,
};
use super::model::{
    active_at, drive, enqueue, finish_exchange, frame_fits, has_room, inflight, lemma_put_session,
    live_exchange, outbound_used, owns, prune_if_due, prune_messages, put_session, queue_offline,
    reserved, sent, session_at, session_is, state_bytes, touch_session, BrokerView, FrameView,
    LinkView, RetainedView, HOT_MAINTENANCE_BUDGET,
};
use super::reach::lower_of;
use super::subscribe::{
    plan_replay, replay_all, replay_first, replay_of, replay_step, replayed, subscribe_owned,
    subscribe_spec, subscription_bytes, unsubscribe_spec, with_subscription, ReplayView,
};
use super::tidy::{
    lemma_drive_steady, lemma_outline_positions, lemma_positions, lemma_prune_if_due_steady,
    lemma_steady_tidy, lemma_steady_trans, retained_tidy, same_outline, sessions_tidy, tidy,
    topic_of,
};
use super::turnover::held;
use crate::error::Error;
use crate::identity::KeyView;
use crate::limits::Limits;
use crate::list::{
    distinct, first, keep, lemma_first, lemma_first_is, lemma_keep_all, lemma_keep_members,
};
use crate::message::{charge_of, expired_spec, MessageView};
use crate::session::{
    fresh_exchange, id_after, law_free_id_is_unused, next_free, outbound_capacity, send_quota_left,
    session_charge, OutboundStage, OutboundView, SessionView, Subscription,
};
use crate::table::{entry_key, law_one_value_per_key, lookup, with_entry};
use crate::topics::matches_spec;
use super::retain::{
    lemma_drive_retains, lemma_prune_if_due_retains, lemma_prune_messages_keeps, only_expired_lost,
};
use super::unsubscribe::calmed;
use crate::codec::common::topic_valid;
use super::wills::retried;
use crate::trie::trie_remove;
use crate::text::levels;
use crate::usage::{of_device, tenant_usage, total_usage, usage_sum};
use vstd::prelude::*;
use vstd::utf8::encode_utf8;

verus! {

/// An exchange that has just begun with a message.
pub open spec fn begun(e: OutboundView, message: MessageView, command: bool) -> bool {
    e == (OutboundView {
        packet_id: e.packet_id,
        stage: if message.qos == 1 {
            OutboundStage::Puback
        } else {
            OutboundStage::Pubrec
        },
        message,
        command,
        sent: true,
        windowed: true,
        started: false,
    })
}

/// A message has reached a session: at most once, as a frame of its connection; else as a new
/// exchange, with its frame if the connection takes frames, or as the last that waits.
#[verifier::opaque]
pub open spec fn handed(
    message: MessageView,
    command: bool,
    s: SessionView,
    link: Option<LinkView>,
    s2: SessionView,
    link2: Option<LinkView>,
) -> bool {
    if message.qos == 0 {
        &&& s2 == s
        &&& link matches Some(l) && link2 matches Some(l2) && l2 == (LinkView {
            queue: l.queue.push(
                FrameView::Publish { message, packet_id: None, dup: false, command },
            ),
            used: l2.used,
            ..l
        })
    } else {
        ||| {
            &&& link2 == link
            &&& s2 == (SessionView { offline: s.offline.push(message), ..s })
        }
        ||| link matches Some(l) && link2 matches Some(l2) && s2.outbound.len() == s.outbound.len()
            + 1 && {
            let e = s2.outbound.last();
            &&& begun(e, message, command)
            &&& s.next_packet_id != 0 ==> e.packet_id != 0 && forall|k: int|
                0 <= k < s.outbound.len() ==> (#[trigger] s.outbound[k]).packet_id != e.packet_id
            &&& s2 == (SessionView {
                next_packet_id: s2.next_packet_id,
                outbound: s.outbound.push(e),
                ..s
            })
            &&& l2 == (LinkView {
                queue: if l.open {
                    l.queue.push(
                        FrameView::Publish {
                            message,
                            packet_id: Some(e.packet_id),
                            dup: false,
                            command,
                        },
                    )
                } else {
                    l.queue
                },
                used: l2.used,
                cancelled: l2.cancelled,
                ..l
            })
        }
    }
}

proof fn lemma_offline_handed(b: BrokerView, limits: Limits, key: KeyView, message: MessageView)
    ensures
        ({
            let (next, outcome) = queue_offline(b, limits, key, message);
            &&& next.links == b.links
            &&& next.retained == b.retained
            &&& outcome is Ok && message.qos > 0 ==> (held(b, key) matches Some(s) && held(next, key)
                matches Some(s2) && handed(message, false, s, holder(b, key), s2, holder(next, key)))
            &&& outcome is Ok && message.qos > 0 ==> held(next, key)->0.offline == held(
                b,
                key,
            )->0.offline.push(message)
            &&& message.qos == 0 ==> next == b
            &&& forall|other: KeyView| other != key ==> #[trigger] held(next, other) == held(b, other)
        }),
{
    let next = queue_offline(b, limits, key, message).0;
    lemma_queue_offline_steady(b, limits, key, message);
    lemma_outline_positions(b, next, key);
    lemma_positions(b, key);
    reveal(handed);
    reveal(queue_offline);
    if let Some(i) = session_at(b, key) {
        let s = b.sessions[i];
        lemma_put_session(b, limits, i, SessionView { offline: s.offline.push(message), ..s });
    }
    assert forall|other: KeyView| other != key implies #[trigger] held(next, other) == held(
        b,
        other,
    ) by {
        lemma_outline_positions(b, next, other);
        lemma_positions(b, other);
    }
}

proof fn lemma_live_handed(
    b: BrokerView,
    limits: Limits,
    i: int,
    j: int,
    message: MessageView,
    command: bool,
)
    requires
        0 <= i < b.sessions.len(),
        0 <= j < b.links.len(),
        message.qos > 0,
        has_room(b.links[j], limits),
    ensures
        ({
            let (next, outcome) = live_exchange(b, limits, i, j, message, command);
            &&& next.retained == b.retained
            &&& next.sessions.len() == b.sessions.len()
            &&& next.links.len() == b.links.len()
            &&& forall|k: int|
                0 <= k < b.sessions.len() && k != i ==> #[trigger] next.sessions[k] == b.sessions[k]
            &&& forall|k: int|
                0 <= k < b.links.len() && k != j ==> #[trigger] next.links[k] == b.links[k]
            &&& outcome is Ok ==> handed(
                message,
                command,
                b.sessions[i],
                Some(b.links[j]),
                next.sessions[i],
                Some(next.links[j]),
            )
            &&& outcome is Ok ==> next.sessions[i].offline == b.sessions[i].offline
            &&& next.links[j].queue.len() <= b.links[j].queue.len() + 1
            &&& next.links[j].used <= b.links[j].used + charge_of(message)
        }),
{
    reveal(live_exchange);
    reveal(finish_exchange);
    reveal(handed);
    let s = b.sessions[i];
    if let Some(id) = next_free(s) {
        if s.next_packet_id != 0 {
            law_free_id_is_unused(s.outbound, s.next_packet_id, u16::MAX as nat);
        }
    }
    assert forall|x: BrokerView, t: SessionView| ({
        let next = #[trigger] put_session(x, limits, i, t);
        next.sessions == x.sessions.update(i, t) && next.links == x.links && next.retained
            == x.retained
    }) by {
        lemma_put_session(x, limits, i, t);
    }
}

/// A message can be sent now: the session is connected, its connection has room, and one that is
/// acknowledged finds room among the exchanges of the client, the session and the tenant.
pub open spec fn ready(b: BrokerView, limits: Limits, key: KeyView, message: MessageView) -> bool {
    &&& holder(b, key) matches Some(l) && has_room(l, limits)
    &&& frame_fits(b, limits, active_at(b, key)->0, charge_of(message))
    &&& message.qos > 0 ==> {
        &&& inflight(b, key.device.tenant, message.qos) < if message.qos == 1 {
            limits.max_inflight_qos1_per_tenant
        } else {
            limits.max_inflight_qos2_per_tenant
        }
        &&& held(b, key) matches Some(s) && outbound_capacity(s, message.qos, limits)
            && send_quota_left(s)
    }
}

/// A message has reached the session of a key.
pub open spec fn reaches(
    b: BrokerView,
    next: BrokerView,
    key: KeyView,
    message: MessageView,
    command: bool,
) -> bool {
    held(b, key) matches Some(s) && held(next, key) matches Some(s2) && handed(
        message,
        command,
        s,
        holder(b, key),
        s2,
        holder(next, key),
    )
}

/// A message that is handed to a session is sent if it can be sent now. Else it waits, or is
/// dropped if it is to arrive at most once. No other session is touched.
pub proof fn law_message_is_handed_over(
    b: BrokerView,
    limits: Limits,
    now: i64,
    key: KeyView,
    message: MessageView,
    command: bool,
)
    requires
        !expired_spec(message, now),
    ensures
        ({
            let (next, outcome) = enqueue(b, limits, now, key, message, command);
            &&& next.retained == b.retained
            &&& outcome is Ok ==> if ready(b, limits, key, message) {
                reaches(b, next, key, message, command) && held(next, key)->0.offline == held(
                    b,
                    key,
                )->0.offline
            } else if message.qos > 0 {
                reaches(b, next, key, message, false) && held(next, key)->0.offline == held(
                    b,
                    key,
                )->0.offline.push(message)
            } else {
                next == b
            }
            &&& forall|other: KeyView|
                other != key ==> #[trigger] held(next, other) == held(b, other) && holder(next, other)
                    == holder(b, other)
        }),
{
    let (next, outcome) = enqueue(b, limits, now, key, message, command);
    lemma_enqueue_steady(b, limits, now, key, message, command);
    lemma_outline_positions(b, next, key);
    lemma_positions(b, key);
    lemma_offline_handed(b, limits, key, message);
    reveal(enqueue);
    if let (Some(i), Some(j)) = (session_at(b, key), active_at(b, key)) {
        if has_room(b.links[j], limits) && message.qos > 0 {
            lemma_live_handed(b, limits, i, j, message, command);
        }
        if message.qos == 0 {
            reveal(handed);
        }
    }
    assert forall|other: KeyView| other != key implies #[trigger] held(next, other) == held(b, other)
        && holder(next, other) == holder(b, other) by {
        lemma_outline_positions(b, next, other);
        lemma_positions(b, other);
    }
}

/// What a connection holds and counts grows by one message at most.
proof fn lemma_enqueue_load(
    b: BrokerView,
    limits: Limits,
    now: i64,
    key: KeyView,
    message: MessageView,
)
    ensures
        ({
            let next = enqueue(b, limits, now, key, message, false).0;
            &&& holder(b, key) matches Some(l) ==> holder(next, key) matches Some(l2)
                && l2.queue.len() <= l.queue.len() + 1 && l2.used <= l.used + charge_of(message)
            &&& forall|scope: Option<Seq<char>>| #[trigger]
                outbound_used(next, scope) <= outbound_used(b, scope) + charge_of(message)
        }),
{
    let next = enqueue(b, limits, now, key, message, false).0;
    let charge = charge_of(message);
    lemma_enqueue_steady(b, limits, now, key, message, false);
    lemma_outline_positions(b, next, key);
    lemma_positions(b, key);
    lemma_offline_handed(b, limits, key, message);
    reveal(enqueue);
    if let (Some(i), Some(j)) = (session_at(b, key), active_at(b, key)) {
        let s = b.sessions[i];
        let frame = FrameView::Publish { message, packet_id: None, dup: false, command: false };
        if has_room(b.links[j], limits) && message.qos > 0 {
            lemma_live_handed(b, limits, i, j, message, false);
        }
        assert forall|scope: Option<Seq<char>>| #[trigger] outbound_used(next, scope)
            <= outbound_used(b, scope) + charge by {
            lemma_reserved_bytes(b, limits, j, charge, frame, scope);
            reveal(live_exchange);
            reveal(finish_exchange);
            if let Some(id) = next_free(s) {
                let s1 = SessionView { next_packet_id: id_after(id), ..s };
                let b1 = touch_session(b, i, s1);
                let s2 = SessionView {
                    outbound: s1.outbound.push(fresh_exchange(id, message, false)),
                    ..s1
                };
                let b2 = reserved(b1, j, charge);
                lemma_put_session(b2, limits, i, s2);
                let started = FrameView::Publish {
                    message,
                    packet_id: Some(id),
                    dup: false,
                    command: false,
                };
                lemma_reserved_bytes(b1, limits, j, charge, started, scope);
                assert(sent(put_session(b2, limits, i, s2), limits, j, started).links == sent(
                    b2,
                    limits,
                    j,
                    started,
                ).links);
            }
        }
    }
}

/// One of the frames of a connection is a publication of this message.
pub open spec fn carries(frame: FrameView, message: MessageView) -> bool {
    frame matches FrameView::Publish { message: m, packet_id, dup, command } && m == message
        && !dup && !command && (packet_id is None <==> message.qos == 0)
}

/// A frame is a publication of a message that has a property.
pub open spec fn carries_such(frame: FrameView, p: spec_fn(MessageView) -> bool) -> bool {
    frame matches FrameView::Publish { message: m, .. } && p(m) && carries(frame, m)
}

/// What a session and its connection have more than before is made of messages that have a
/// property.
#[verifier::opaque]
pub open spec fn gained(
    s: SessionView,
    link: Option<LinkView>,
    s2: SessionView,
    link2: Option<LinkView>,
    p: spec_fn(MessageView) -> bool,
) -> bool {
    &&& s2 == (SessionView {
        offline: s2.offline,
        outbound: s2.outbound,
        next_packet_id: s2.next_packet_id,
        ..s
    })
    &&& s.offline.is_prefix_of(s2.offline)
    &&& s.outbound.is_prefix_of(s2.outbound)
    &&& forall|k: int|
        s.offline.len() <= k < s2.offline.len() ==> p(#[trigger] s2.offline[k]) && s2.offline[k].qos
            > 0
    &&& forall|k: int|
        s.outbound.len() <= k < s2.outbound.len() ==> {
            let e = #[trigger] s2.outbound[k];
            p(e.message) && e.message.qos > 0 && begun(e, e.message, false)
        }
    &&& link is Some <==> link2 is Some
    &&& link matches Some(l) ==> link2 matches Some(l2) && {
        &&& l2 == (LinkView { queue: l2.queue, used: l2.used, cancelled: l2.cancelled, ..l })
        &&& l.queue.is_prefix_of(l2.queue)
        &&& forall|k: int|
            l.queue.len() <= k < l2.queue.len() ==> carries_such(#[trigger] l2.queue[k], p)
    }
}

/// A message is among what a session and its connection have more than before.
#[verifier::opaque]
pub open spec fn reached(
    s: SessionView,
    link: Option<LinkView>,
    s2: SessionView,
    link2: Option<LinkView>,
    message: MessageView,
) -> bool {
    if message.qos == 0 {
        link matches Some(l) && link2 matches Some(l2) && exists|k: int|
            l.queue.len() <= k < l2.queue.len() && carries(#[trigger] l2.queue[k], message)
    } else {
        ||| exists|k: int|
            s.offline.len() <= k < s2.offline.len() && #[trigger] s2.offline[k] == message
        ||| exists|k: int|
            s.outbound.len() <= k < s2.outbound.len() && (#[trigger] s2.outbound[k]).message
                == message
    }
}

proof fn lemma_gained(
    s: SessionView,
    link: Option<LinkView>,
    s1: SessionView,
    link1: Option<LinkView>,
    s2: SessionView,
    link2: Option<LinkView>,
    p: spec_fn(MessageView) -> bool,
    message: MessageView,
)
    requires
        gained(s, link, s1, link1, p),
        handed(message, false, s1, link1, s2, link2),
        p(message),
    ensures
        gained(s, link, s2, link2, p),
        reached(s, link, s2, link2, message),
        forall|m: MessageView|
            reached(s, link, s1, link1, m) ==> #[trigger] reached(s, link, s2, link2, m),
{
    reveal(gained);
    reveal(handed);
    reveal(reached);
    if message.qos == 0 {
        let l2 = link2->0;
        let frame = FrameView::Publish { message, packet_id: None, dup: false, command: false };
        assert(l2.queue.last() == frame);
        assert(carries(l2.queue[l2.queue.len() - 1], message));
    } else if s2.offline.len() > s1.offline.len() {
        assert(s2.offline[s2.offline.len() - 1] == message);
    } else {
        let e = s2.outbound.last();
        assert(s2.outbound[s2.outbound.len() - 1].message == message);
        let l1 = link1->0;
        let l2 = link2->0;
        if l1.open {
            assert(carries(l2.queue[l2.queue.len() - 1], message));
        }
    }
    if let (Some(l), Some(l1), Some(l2)) = (link, link1, link2) {
        assert forall|k: int| l.queue.len() <= k < l2.queue.len() implies carries_such(
            #[trigger] l2.queue[k],
            p,
        ) by {
            if k < l1.queue.len() {
                assert(l2.queue[k] == l1.queue[k]);
            }
        }
    }
    assert forall|k: int| s.offline.len() <= k < s2.offline.len() implies p(
        #[trigger] s2.offline[k],
    ) && s2.offline[k].qos > 0 by {
        if k < s1.offline.len() {
            assert(s2.offline[k] == s1.offline[k]);
        }
    }
    assert forall|k: int| s.outbound.len() <= k < s2.outbound.len() implies {
        let e = #[trigger] s2.outbound[k];
        p(e.message) && e.message.qos > 0 && begun(e, e.message, false)
    } by {
        if k < s1.outbound.len() {
            assert(s2.outbound[k] == s1.outbound[k]);
        }
    }
    assert(gained(s, link, s2, link2, p));
    assert forall|m: MessageView| reached(s, link, s1, link1, m) implies #[trigger] reached(
        s,
        link,
        s2,
        link2,
        m,
    ) by {
        if m.qos == 0 {
            let k = choose|k: int|
                link->0.queue.len() <= k < link1->0.queue.len() && carries(
                    #[trigger] link1->0.queue[k],
                    m,
                );
            assert(link2->0.queue[k] == link1->0.queue[k]);
        } else if exists|k: int|
            s.offline.len() <= k < s1.offline.len() && #[trigger] s1.offline[k] == m {
            let k = choose|k: int|
                s.offline.len() <= k < s1.offline.len() && #[trigger] s1.offline[k] == m;
            assert(s2.offline[k] == m);
        } else {
            let k = choose|k: int|
                s.outbound.len() <= k < s1.outbound.len() && (#[trigger] s1.outbound[k]).message
                    == m;
            assert(s2.outbound[k].message == m);
        }
    }
}

proof fn lemma_planned_before(
    b: BrokerView,
    limits: Limits,
    i: int,
    j: int,
    start: ReplayView,
    messages: Seq<MessageView>,
    m: nat,
    n: nat,
)
    requires
        m <= n,
        start.live.len() == 0,
        replay_first(b, limits, i, j, start, messages, n) is Ok,
    ensures
        replay_first(b, limits, i, j, start, messages, n) matches Ok(after) && replay_first(
            b,
            limits,
            i,
            j,
            start,
            messages,
            m,
        ) matches Ok(before) && before.live.len() == m && after.live.len() == n
            && before.live.is_prefix_of(after.live),
    decreases n,
{
    if n > 0 {
        reveal(replay_step);
        let k = if m < n {
            m
        } else {
            (n - 1) as nat
        };
        lemma_planned_before(b, limits, i, j, start, messages, k, (n - 1) as nat);
    }
}

/// What one connection, one tenant and all have in use is no more than planned.
spec fn within_plan(b: BrokerView, next: BrokerView, key: KeyView, r: ReplayView) -> bool {
    let own = Some(key.device.tenant);
    &&& holder(b, key) matches Some(l) && holder(next, key) matches Some(l2) && l2.queue.len()
        <= l.queue.len() + r.frames && l2.used <= l.used + r.frame_bytes
    &&& outbound_used(next, own) <= outbound_used(b, own) + r.frame_bytes
    &&& outbound_used(next, None) <= outbound_used(b, None) + r.frame_bytes
}

spec fn stepped(
    b: BrokerView,
    limits: Limits,
    now: i64,
    key: KeyView,
    message: MessageView,
    live: bool,
) -> (BrokerView, Result<(), Error>) {
    if live {
        enqueue(b, limits, now, key, message, false)
    } else {
        queue_offline(b, limits, key, message)
    }
}

proof fn lemma_replay_step_handed(
    b: BrokerView,
    before: BrokerView,
    limits: Limits,
    now: i64,
    i: int,
    j: int,
    r: ReplayView,
    message: MessageView,
)
    requires
        0 <= i < b.sessions.len(),
        active_at(b, b.sessions[i].key) == Some(j),
        active_at(before, b.sessions[i].key) == Some(j),
        within_plan(b, before, b.sessions[i].key, r),
        !expired_spec(message, now),
        replay_step(b, limits, i, j, r, message) is Ok,
    ensures
        ({
            let key = b.sessions[i].key;
            let after = replay_step(b, limits, i, j, r, message)->Ok_0;
            let (next, outcome) = stepped(before, limits, now, key, message, after.live.last());
            outcome is Ok ==> {
                &&& within_plan(b, next, key, after)
                &&& held(before, key) matches Some(s) && held(next, key) matches Some(s2) && handed(
                    message,
                    false,
                    s,
                    holder(before, key),
                    s2,
                    holder(next, key),
                )
                &&& next.retained == before.retained
                &&& forall|other: KeyView|
                    other != key ==> #[trigger] held(next, other) == held(before, other) && holder(
                        next,
                        other,
                    ) == holder(before, other)
            }
        }),
{
    let key = b.sessions[i].key;
    lemma_positions(b, key);
    lemma_positions(before, key);
    law_message_is_handed_over(before, limits, now, key, message, false);
    lemma_offline_handed(before, limits, key, message);
    lemma_enqueue_load(before, limits, now, key, message);
    let own = Some(key.device.tenant);
    let next = enqueue(before, limits, now, key, message, false).0;
    assert(outbound_used(next, own) <= outbound_used(before, own) + charge_of(message));
    assert(outbound_used(next, None) <= outbound_used(before, None) + charge_of(message));
    reveal(replay_step);
    assert(message.qos == 0 ==> has_room(before.links[j], limits) && frame_fits(
        before,
        limits,
        j,
        charge_of(message),
    ));
}

proof fn lemma_replay_gained(
    b: BrokerView,
    b1: BrokerView,
    limits: Limits,
    now: i64,
    i: int,
    j: int,
    start: ReplayView,
    messages: Seq<MessageView>,
    live: Seq<bool>,
    n: nat,
    p: spec_fn(MessageView) -> bool,
)
    requires
        0 <= i < b.sessions.len(),
        b1.links == b.links,
        held(b1, b.sessions[i].key) is Some,
        active_at(b, b.sessions[i].key) == Some(j),
        start.live.len() == 0,
        start.frames == 0,
        start.frame_bytes == 0,
        n <= messages.len(),
        forall|k: int|
            0 <= k < messages.len() ==> p(#[trigger] messages[k]) && !expired_spec(messages[k], now),
        replay_first(b, limits, i, j, start, messages, messages.len()) matches Ok(r) && r.live
            == live,
        replay_all(b1, limits, now, b.sessions[i].key, messages, live, n).1 is Ok,
    ensures
        ({
            let key = b.sessions[i].key;
            let next = replay_all(b1, limits, now, key, messages, live, n).0;
            &&& replay_first(b, limits, i, j, start, messages, n) matches Ok(r) && within_plan(
                b,
                next,
                key,
                r,
            )
            &&& held(b1, key) matches Some(s) && held(next, key) matches Some(s2) && gained(
                s,
                holder(b1, key),
                s2,
                holder(next, key),
                p,
            ) && forall|k: int|
                0 <= k < n ==> #[trigger] reached(
                    s,
                    holder(b1, key),
                    s2,
                    holder(next, key),
                    messages[k],
                )
            &&& next.retained == b1.retained
            &&& forall|other: KeyView|
                other != key ==> #[trigger] held(next, other) == held(b1, other) && holder(
                    next,
                    other,
                ) == holder(b1, other)
        }),
    decreases n,
{
    let key = b.sessions[i].key;
    let next = replay_all(b1, limits, now, key, messages, live, n).0;
    lemma_positions(b, key);
    lemma_planned_before(b, limits, i, j, start, messages, n, messages.len());
    if n == 0 {
        reveal(gained);
    } else {
        let before = replay_all(b1, limits, now, key, messages, live, (n - 1) as nat).0;
        let message = messages[n - 1];
        lemma_replay_gained(b, b1, limits, now, i, j, start, messages, live, (n - 1) as nat, p);
        lemma_planned_before(b, limits, i, j, start, messages, (n - 1) as nat, n);
        lemma_replay_all_steady(b1, limits, now, key, messages, live, (n - 1) as nat);
        lemma_outline_positions(b1, before, key);
        let r = replay_first(b, limits, i, j, start, messages, (n - 1) as nat)->Ok_0;
        let after = replay_first(b, limits, i, j, start, messages, n)->Ok_0;
        assert(after.live.last() == live[n - 1]);
        assert(next == stepped(before, limits, now, key, message, after.live.last()).0);
        lemma_replay_step_handed(b, before, limits, now, i, j, r, message);
        let s = held(b1, key)->0;
        let s1 = held(before, key)->0;
        let s2 = held(next, key)->0;
        lemma_gained(
            s,
            holder(b1, key),
            s1,
            holder(before, key),
            s2,
            holder(next, key),
            p,
            message,
        );
        assert forall|k: int| 0 <= k < n implies #[trigger] reached(
            s,
            holder(b1, key),
            s2,
            holder(next, key),
            messages[k],
        ) by {
            if k < n - 1 {
                assert(reached(s, holder(b1, key), s1, holder(before, key), messages[k]));
            }
        }
        assert forall|other: KeyView| other != key implies #[trigger] held(next, other) == held(
            b1,
            other,
        ) && holder(next, other) == holder(b1, other) by {
            assert(held(before, other) == held(b1, other));
            assert(held(next, other) == held(before, other));
        }
    }
}

/// A retained message is one that a subscription gets: its topic matches, it has not expired, it
/// is not the subscriber's own if it wants none of those, and it is asked for, always or for a
/// subscription that is new.
pub open spec fn due(
    r: RetainedView,
    key: KeyView,
    filter: Seq<char>,
    subscription: Subscription,
    renewed: bool,
    now: i64,
) -> bool {
    &&& matches_spec(filter, r.message.topic)
    &&& !expired_spec(r.message, now)
    &&& !(subscription.no_local && r.origin == Some(key))
    &&& subscription.retain_handling != 2
    &&& subscription.retain_handling == 1 ==> !renewed
}

/// A message is a retained one as a subscriber gets it: marked as retained, at the lower of the
/// stored and the granted quality of service, and otherwise as it was stored.
pub open spec fn copied(message: MessageView, r: RetainedView, subscription: Subscription) -> bool {
    &&& message.topic == r.message.topic
    &&& message.payload == r.message.payload
    &&& message.properties == r.message.properties
    &&& message.retain
    &&& lower_of(message.qos, r.message.qos, subscription.qos)
}

/// What a subscription may add: copies of the retained messages that are due.
pub open spec fn due_copy(
    retained: Seq<RetainedView>,
    key: KeyView,
    filter: Seq<char>,
    subscription: Subscription,
    renewed: bool,
    now: i64,
) -> spec_fn(MessageView) -> bool {
    |m: MessageView|
        exists|k: int|
            0 <= k < retained.len() && due(
                #[trigger] retained[k],
                key,
                filter,
                subscription,
                renewed,
                now,
            ) && copied(m, retained[k], subscription)
}

proof fn lemma_messages_due(
    b: BrokerView,
    key: KeyView,
    filter: Seq<char>,
    subscription: Subscription,
    renewed: bool,
    now: i64,
)
    requires
        subscription.retain_handling <= 2,
    ensures
        ({
            let messages = replay_of(b, key, filter, subscription, renewed, now);
            let p = due_copy(b.retained, key, filter, subscription, renewed, now);
            &&& forall|k: int|
                0 <= k < messages.len() ==> p(#[trigger] messages[k]) && !expired_spec(
                    messages[k],
                    now,
                )
            &&& forall|k: int|
                0 <= k < b.retained.len() && due(
                    #[trigger] b.retained[k],
                    key,
                    filter,
                    subscription,
                    renewed,
                    now,
                ) ==> exists|at: int|
                    0 <= at < messages.len() && copied(
                        #[trigger] messages[at],
                        b.retained[k],
                        subscription,
                    )
        }),
{
    let wanted = replayed(key, filter, subscription, renewed, now);
    let kept = keep(b.retained, wanted);
    let messages = replay_of(b, key, filter, subscription, renewed, now);
    let p = due_copy(b.retained, key, filter, subscription, renewed, now);
    lemma_keep_members(b.retained, wanted);
    assert forall|k: int| 0 <= k < messages.len() implies p(#[trigger] messages[k])
        && !expired_spec(messages[k], now) by {
        assert(wanted(kept[k]) && b.retained.contains(kept[k]));
        let at = choose|at: int| 0 <= at < b.retained.len() && b.retained[at] == kept[k];
        assert(due(b.retained[at], key, filter, subscription, renewed, now));
        assert(copied(messages[k], b.retained[at], subscription));
    }
    assert forall|k: int|
        0 <= k < b.retained.len() && due(
            #[trigger] b.retained[k],
            key,
            filter,
            subscription,
            renewed,
            now,
        ) implies exists|at: int|
        0 <= at < messages.len() && copied(#[trigger] messages[at], b.retained[k], subscription) by {
        assert(wanted(b.retained[k]));
        lemma_keep_all(b.retained, wanted, k);
        let at = choose|at: int| 0 <= at < kept.len() && kept[at] == b.retained[k];
        assert(copied(messages[at], b.retained[k], subscription));
    }
}

/// What is replayed to a subscription that is made.
#[verifier::rlimit(40)]
proof fn lemma_replayed(
    b: BrokerView,
    limits: Limits,
    now: i64,
    key: KeyView,
    filter: Seq<char>,
    subscription: Subscription,
    messages: Seq<MessageView>,
    p: spec_fn(MessageView) -> bool,
)
    requires
        held(b, key) is Some,
        messages == replay_of(
            b,
            key,
            filter,
            subscription,
            lookup(held(b, key)->0.subscriptions, filter) is Some,
            now,
        ),
        forall|k: int|
            0 <= k < messages.len() ==> p(#[trigger] messages[k]) && !expired_spec(messages[k], now),
        subscribe_owned(b, limits, now, session_at(b, key)->0, filter, subscription).1 is Ok,
    ensures
        ({
            let (next, outcome) = subscribe_owned(
                b,
                limits,
                now,
                session_at(b, key)->0,
                filter,
                subscription,
            );
            let s = held(b, key)->0;
            let s1 = SessionView {
                subscriptions: with_entry(s.subscriptions, filter, Some(subscription)),
                ..s
            };
            &&& outcome == Ok::<u8, Error>(subscription.qos)
            &&& next.retained == b.retained
            &&& held(next, key) matches Some(s2) && s2.subscriptions == s1.subscriptions && gained(
                s1,
                holder(b, key),
                s2,
                holder(next, key),
                p,
            ) && forall|k: int|
                0 <= k < messages.len() ==> #[trigger] reached(
                    s1,
                    holder(b, key),
                    s2,
                    holder(next, key),
                    messages[k],
                )
            &&& forall|other: KeyView|
                other != key ==> #[trigger] held(next, other) == held(b, other) && holder(next, other)
                    == holder(b, other)
        }),
{
    lemma_positions(b, key);
    let i = session_at(b, key)->0;
    let s = b.sessions[i];
    let renewed = lookup(s.subscriptions, filter) is Some;
    let charge = subscription_bytes(filter, renewed);
    let b1 = with_subscription(b, limits, i, filter, subscription);
    let s1 = SessionView {
        subscriptions: with_entry(s.subscriptions, filter, Some(subscription)),
        ..s
    };
    let (next, outcome) = subscribe_owned(b, limits, now, i, filter, subscription);
    let planned = plan_replay(b, limits, i, messages, charge);
    let replay = replay_all(b1, limits, now, key, messages, planned->Ok_0, messages.len());
    assert(planned is Ok && replay.0 == next && replay.1 is Ok && outcome == Ok::<u8, Error>(subscription.qos)) by {
        reveal(subscribe_owned);
    }
    let live = planned->Ok_0;
    lemma_put_session(b, limits, i, s1);
    lemma_same_places(b, b1, i, key);
    if messages.len() > 0 {
        let j = active_at(b, key)->0;
        let start = ReplayView {
            session: s,
            frames: 0,
            frame_bytes: 0,
            started1: 0,
            started2: 0,
            waiting: 0,
            waiting_bytes: 0,
            grown: charge,
            live: Seq::empty(),
        };
        assert(active_at(b, key) is Some && (replay_first(
            b,
            limits,
            i,
            j,
            start,
            messages,
            messages.len(),
        ) matches Ok(r) && r.live == live)) by {
            reveal(plan_replay);
        }
        lemma_replay_gained(b, b1, limits, now, i, j, start, messages, live, messages.len(), p);
        assert(held(b1, key) == Some(s1));
        assert(holder(b1, key) == holder(b, key));
    } else {
        assert(next == b1);
        assert(held(b1, key) == Some(s1));
        assert(holder(b1, key) == holder(b, key));
        assert(gained(s1, holder(b, key), s1, holder(b, key), p)) by {
            reveal(gained);
        }
    }
    assert(held(next, key)->0.subscriptions == s1.subscriptions) by {
        reveal(gained);
    }
    assert forall|other: KeyView| other != key implies #[trigger] held(next, other) == held(b, other)
        && holder(next, other) == holder(b, other) by {
        assert(held(b1, other) == held(b, other));
        assert(holder(b1, other) == holder(b, other));
    }
}

/// A subscription that is made is granted at the quality of service asked for, and stands. Every
/// retained message that is due is sent or waits, as a copy at the lower quality of service that
/// is marked as retained; nothing else is sent or waits because of it; and no other session is
/// touched.
pub proof fn law_subscription_gets_what_is_retained(
    b: BrokerView,
    limits: Limits,
    now: i64,
    key: KeyView,
    filter: Seq<char>,
    subscription: Subscription,
)
    requires
        held(b, key) matches Some(s) && distinct(s.subscriptions, entry_key()),
        subscription.retain_handling <= 2,
        subscribe_owned(b, limits, now, session_at(b, key)->0, filter, subscription).1 is Ok,
    ensures
        ({
            let (next, outcome) = subscribe_owned(
                b,
                limits,
                now,
                session_at(b, key)->0,
                filter,
                subscription,
            );
            let renewed = lookup(held(b, key)->0.subscriptions, filter) is Some;
            &&& outcome == Ok::<u8, Error>(subscription.qos)
            &&& next.retained == b.retained
            &&& held(b, key) matches Some(s) && held(next, key) matches Some(s2) && {
                let s1 = SessionView { subscriptions: s2.subscriptions, ..s };
                &&& lookup(s2.subscriptions, filter) == Some(subscription)
                &&& forall|other: Seq<char>|
                    other != filter ==> #[trigger] lookup(s2.subscriptions, other) == lookup(
                        s.subscriptions,
                        other,
                    )
                &&& gained(
                    s1,
                    holder(b, key),
                    s2,
                    holder(next, key),
                    due_copy(b.retained, key, filter, subscription, renewed, now),
                )
                &&& forall|k: int|
                    0 <= k < b.retained.len() && due(
                        #[trigger] b.retained[k],
                        key,
                        filter,
                        subscription,
                        renewed,
                        now,
                    ) ==> exists|m: MessageView|
                        copied(m, b.retained[k], subscription) && #[trigger] reached(
                            s1,
                            holder(b, key),
                            s2,
                            holder(next, key),
                            m,
                        )
            }
            &&& forall|other: KeyView|
                other != key ==> #[trigger] held(next, other) == held(b, other) && holder(next, other)
                    == holder(b, other)
        }),
{
    let i = session_at(b, key)->0;
    let s = b.sessions[i];
    let renewed = lookup(s.subscriptions, filter) is Some;
    let messages = replay_of(b, key, filter, subscription, renewed, now);
    let p = due_copy(b.retained, key, filter, subscription, renewed, now);
    let s1 = SessionView {
        subscriptions: with_entry(s.subscriptions, filter, Some(subscription)),
        ..s
    };
    let next = subscribe_owned(b, limits, now, i, filter, subscription).0;
    lemma_positions(b, key);
    lemma_messages_due(b, key, filter, subscription, renewed, now);
    lemma_replayed(b, limits, now, key, filter, subscription, messages, p);
    law_one_value_per_key(s.subscriptions, filter, Some(subscription), filter);
    assert forall|other: Seq<char>| other != filter implies #[trigger] lookup(
        s1.subscriptions,
        other,
    ) == lookup(s.subscriptions, other) by {
        law_one_value_per_key(s.subscriptions, filter, Some(subscription), other);
    }
    let s2 = held(next, key)->0;
    assert forall|k: int|
        0 <= k < b.retained.len() && due(
            #[trigger] b.retained[k],
            key,
            filter,
            subscription,
            renewed,
            now,
        ) implies exists|m: MessageView|
        copied(m, b.retained[k], subscription) && #[trigger] reached(
            s1,
            holder(b, key),
            s2,
            holder(next, key),
            m,
        ) by {
        let at = choose|at: int|
            0 <= at < messages.len() && copied(
                #[trigger] messages[at],
                b.retained[k],
                subscription,
            );
        assert(reached(s1, holder(b, key), s2, holder(next, key), messages[at]));
    }
}

/// A session replaced by one of the same key leaves every other where it is.
pub proof fn lemma_same_places(b: BrokerView, b1: BrokerView, i: int, key: KeyView)
    requires
        session_at(b, key) == Some(i),
        b1.links == b.links,
        b1.sessions.len() == b.sessions.len(),
        b1.sessions == b.sessions.update(i, b1.sessions[i]),
        b1.sessions[i].key == key,
    ensures
        held(b1, key) == Some(b1.sessions[i]),
        forall|other: KeyView| #[trigger] holder(b1, other) == holder(b, other),
        forall|other: KeyView| other != key ==> #[trigger] held(b1, other) == held(b, other),
{
    lemma_positions(b, key);
    assert forall|other: KeyView| #[trigger] session_at(b1, other) == session_at(b, other) by {
        lemma_first_same(b.sessions, b1.sessions, session_is(other));
    }
    assert forall|other: KeyView| other != key implies #[trigger] held(b1, other) == held(
        b,
        other,
    ) by {
        lemma_positions(b, other);
        assert(session_at(b1, other) == session_at(b, other));
    }
    assert(session_at(b1, key) == session_at(b, key));
}

proof fn lemma_first_same(
    a: Seq<SessionView>,
    b: Seq<SessionView>,
    p: spec_fn(SessionView) -> bool,
)
    requires
        a.len() == b.len(),
        forall|k: int| 0 <= k < a.len() ==> p(#[trigger] a[k]) == p(b[k]),
    ensures
        first(a, p) == first(b, p),
{
    lemma_first(a, p);
    match first(a, p) {
        Some(k) => {
            assert(p(a[k]));
            assert forall|m: int| 0 <= m < k implies !p(#[trigger] b[m]) by {
                assert(!p(a[m]));
            }
            lemma_first_is(b, p, k);
        },
        None => {
            lemma_first(b, p);
            if let Some(k) = first(b, p) {
                assert(p(a[k]) == p(b[k]));
            }
        },
    }
}

/// A subscription that a client asks for is made only for the connection that holds the session,
/// for a valid filter and options. It is granted at the quality of service asked for and stands,
/// beside those that stood before; and what it gets is what is retained and due, of which nothing
/// was lost before but what had expired.
pub proof fn law_subscription_stands(
    b: BrokerView,
    limits: Limits,
    now: i64,
    key: KeyView,
    generation: u64,
    filter: Seq<char>,
    subscription: Subscription,
)
    requires
        tidy(b, limits),
    ensures
        ({
            let calm = calmed(b, limits, now, key);
            let (next, outcome) = subscribe_spec(
                b,
                limits,
                now,
                key,
                generation,
                filter,
                subscription,
            );
            outcome is Ok ==> {
                &&& outcome == Ok::<u8, Error>(subscription.qos)
                &&& subscription.qos <= 2
                &&& subscription.retain_handling <= 2
                &&& topic_valid(filter, limits, true)
                &&& owns(calm, key, generation)
                &&& only_expired_lost(b.retained, calm.retained, now)
                &&& held(calm, key) matches Some(s) && held(next, key) matches Some(s2) && {
                    &&& distinct(s.subscriptions, entry_key())
                    &&& lookup(s2.subscriptions, filter) == Some(subscription)
                    &&& forall|other: Seq<char>|
                        other != filter ==> #[trigger] lookup(s2.subscriptions, other) == lookup(
                            s.subscriptions,
                            other,
                        )
                }
                &&& subscribe_owned(
                    calm,
                    limits,
                    now,
                    session_at(calm, key)->0,
                    filter,
                    subscription,
                ) == (next, outcome)
            }
        }),
{
    reveal(subscribe_spec);
    let budget = HOT_MAINTENANCE_BUDGET as nat;
    let b0 = prune_messages(b, limits, now, budget);
    let b1 = drive(b0, limits, now).0;
    let calm = calmed(b, limits, now, key);
    if subscribe_spec(b, limits, now, key, generation, filter, subscription).1 is Ok {
        assert(calm == prune_if_due(b1, limits, key, now));
        lemma_prune_messages_steady(b, limits, now, budget);
        lemma_drive_steady(b0, limits, now);
        lemma_steady_trans(b, b0, b1, limits);
        lemma_prune_if_due_steady(b1, limits, key, now);
        lemma_steady_trans(b, b1, calm, limits);
        lemma_steady_tidy(b, calm, limits);
        lemma_outline_positions(b1, calm, key);
        lemma_positions(calm, key);
        lemma_positions(b1, key);
        assert(owns(calm, key, generation)) by {
            reveal(same_outline);
        }
        assert(distinct(held(calm, key)->0.subscriptions, entry_key())) by {
            reveal(sessions_tidy);
        }
        assert(only_expired_lost(b.retained, calm.retained, now)) by {
            assert(distinct(b.retained, topic_of())) by {
                reveal(retained_tidy);
            }
            lemma_prune_messages_keeps(b, limits, now, budget);
            lemma_drive_retains(b0, limits, now);
            lemma_prune_if_due_retains(b1, limits, key, now);
        }
        law_subscription_gets_what_is_retained(calm, limits, now, key, filter, subscription);
    }
}

/// A filter that the connection of a session ends is no longer among its subscriptions, and every
/// other stays. The answer tells whether there was one.
pub proof fn law_ended_subscription_is_gone(
    b: BrokerView,
    limits: Limits,
    now: i64,
    key: KeyView,
    generation: u64,
    filter: Seq<char>,
)
    requires
        tidy(b, limits),
    ensures
        ({
            let (next, outcome) = unsubscribe_spec(b, limits, now, key, generation, filter);
            &&& outcome is Err <==> !owns(b, key, generation)
            &&& outcome is Err ==> next == b
            &&& held(b, key) matches Some(s) ==> held(next, key) matches Some(s2) && (outcome
                matches Ok(found) ==> {
                &&& found <==> lookup(s.subscriptions, filter) is Some
                &&& lookup(s2.subscriptions, filter) is None
                &&& forall|other: Seq<char>|
                    other != filter ==> #[trigger] lookup(s2.subscriptions, other) == lookup(
                        s.subscriptions,
                        other,
                    )
            })
        }),
{
    reveal(unsubscribe_spec);
    lemma_positions(b, key);
    if let Some(i) = session_at(b, key) {
        let s = b.sessions[i];
        let entries = with_entry(s.subscriptions, filter, None);
        let s2 = SessionView { subscriptions: entries, ..s };
        let b1 = BrokerView { trie: trie_remove(b.trie, levels(filter), key), ..b };
        let b2 = put_session(b1, limits, i, s2);
        let next = retried(b2, limits, now);
        assert(distinct(s.subscriptions, entry_key())) by {
            reveal(sessions_tidy);
        }
        law_one_value_per_key(s.subscriptions, filter, None, filter);
        assert forall|other: Seq<char>| other != filter implies #[trigger] lookup(entries, other)
            == lookup(s.subscriptions, other) by {
            law_one_value_per_key(s.subscriptions, filter, None, other);
        }
        lemma_put_session(b1, limits, i, s2);
        lemma_same_places(b, b2, i, key);
        lemma_retry_wills_steady(b2, limits, now, HOT_MAINTENANCE_BUDGET as nat);
        lemma_outline_positions(b2, next, key);
        reveal(same_outline);
    }
}

/// A subscription for which nothing retained is due is made wherever there is room for it: for one
/// more with the session, the device, the tenant and all, and for the bytes of its filter. One
/// that only replaces another needs no room.
pub proof fn law_subscription_is_made_where_there_is_room(
    b: BrokerView,
    limits: Limits,
    now: i64,
    key: KeyView,
    filter: Seq<char>,
    subscription: Subscription,
)
    requires
        held(b, key) is Some,
        subscription.retain_handling <= 2,
        ({
            let s = held(b, key)->0;
            let tenant = key.device.tenant;
            let renewed = lookup(s.subscriptions, filter) is Some;
            let bytes = if renewed {
                0
            } else {
                encode_utf8(filter).len() + 64
            };
            &&& forall|k: int|
                0 <= k < b.retained.len() ==> !due(
                    #[trigger] b.retained[k],
                    key,
                    filter,
                    subscription,
                    renewed,
                    now,
                )
            &&& session_charge(s) + bytes <= limits.max_mqtt_session_state_bytes
            &&& state_bytes(b, Some(tenant)) + bytes
                <= limits.max_mqtt_session_state_bytes_per_tenant
            &&& state_bytes(b, None) + bytes <= limits.global_mqtt_session_bytes
            &&& !renewed ==> {
                &&& s.subscriptions.len() < limits.max_subscriptions_per_session
                &&& usage_sum(b.sessions, |k: KeyView| k.device == key.device).subscriptions
                    < limits.max_subscriptions_per_device
                &&& tenant_usage(b.sessions, tenant).subscriptions
                    < limits.max_subscriptions_per_tenant
                &&& total_usage(b.sessions).subscriptions < limits.max_subscriptions
            }
        }),
    ensures
        subscribe_owned(b, limits, now, session_at(b, key)->0, filter, subscription).1 == Ok::<
            u8,
            Error,
        >(subscription.qos),
{
    reveal(subscribe_owned);
    reveal(plan_replay);
    lemma_positions(b, key);
    let s = held(b, key)->0;
    let renewed = lookup(s.subscriptions, filter) is Some;
    let wanted = replayed(key, filter, subscription, renewed, now);
    lemma_keep_members(b.retained, wanted);
    let kept = keep(b.retained, wanted);
    if kept.len() > 0 {
        assert(wanted(kept[0]) && b.retained.contains(kept[0]));
        let at = choose|at: int| 0 <= at < b.retained.len() && b.retained[at] == kept[0];
        assert(!due(b.retained[at], key, filter, subscription, renewed, now));
    }
    assert(of_device(key.device) =~= (|k: KeyView| k.device == key.device));
}

} // verus!
