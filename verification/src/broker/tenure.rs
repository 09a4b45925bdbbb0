//! Who holds a session, and how long a session lasts.
use super::attach::{
    attach_spec, cleared, detach_spec, expired_away, linked, next_generation, opened, resend,
    resend_one, resume, resume_waiting, with_receiver, Profile, ResumeView,
};
use super::filing::lemma_held_at;
use super::flow::{
    lemma_cancel_resumed_steady, lemma_carried_on_steady, lemma_release_delays_steady,
    lemma_retry_wills_steady,
};
use super::inbound::carried_on;
use super::model::{
    active_at, active_is, drive, inflight, lemma_put_session, mark, owns, prune_if_due, put_session,
    reindexed, released, remove_session, sat_sub, session_at, session_is, unmark, with_link,
    BrokerView, FrameView, LinkView, HOT_MAINTENANCE_BUDGET,
};
use super::service::{concerned, invalidated, remove_first};
use super::tidy::{
    lemma_drive_steady, lemma_mark_steady, lemma_outline_positions, lemma_positions,
    lemma_prune_if_due_steady, lemma_same_books, lemma_steady_tidy, links_tidy, same_outline,
    steady, tidy,
};
use super::turnover::{
    held, lemma_cleared_tidy, lemma_hole, lemma_let_go, lemma_let_go_tidy, lemma_opened_tidy,
    lemma_released, lemma_remove_session, lemma_resume, lemma_session_pushed,
};
use super::wills::{cancel_resumed, release_delays, retried};
use crate::codec::MqttVersion;
use crate::identity::{AuthInvalidation, KeyView};
use crate::limits::Limits;
use crate::message::charge_of;
use crate::list::{is_first, keep, lemma_first, lemma_first_is, lemma_keep_all, lemma_keep_members};
use crate::session::{
    disconnected, new_session, next_free, promoted, reconnected, AuthView, SessionView,
    Subscription,
};
use vstd::prelude::*;

verus! {

/// What a session has subscribed to, if there is one.
pub open spec fn filters(b: BrokerView, key: KeyView) -> Option<Seq<(Seq<char>, Subscription)>> {
    match held(b, key) {
        Some(s) => Some(s.subscriptions),
        None => None,
    }
}

/// A steady step keeps the sessions, what they have subscribed to and who holds them.
proof fn lemma_steady_filters(b: BrokerView, next: BrokerView, limits: Limits, key: KeyView)
    requires
        steady(b, next, limits),
    ensures
        filters(next, key) == filters(b, key),
        active_at(next, key) == active_at(b, key),
        forall|generation: u64| #[trigger]
            owns(next, key, generation) == owns(b, key, generation),
{
    lemma_outline_positions(b, next, key);
    reveal(same_outline);
    if let Some(i) = session_at(b, key) {
        assert(next.sessions[i].subscriptions == b.sessions[i].subscriptions);
    }
    if let Some(j) = active_at(b, key) {
        assert(next.links[j].generation == b.links[j].generation);
    }
}

proof fn lemma_linked_holds(
    b: BrokerView,
    limits: Limits,
    now: i64,
    key: KeyView,
    generation: u64,
    profile: Profile,
)
    requires
        session_at(b, key) is Some,
        active_at(b, key) is None,
        linked(b, limits, now, session_at(b, key)->0, generation, profile).1 is None,
    ensures
        ({
            let next = linked(b, limits, now, session_at(b, key)->0, generation, profile).0;
            &&& owns(next, key, generation)
            &&& filters(next, key) == filters(b, key)
        }),
{
    reveal(linked);
    let i = session_at(b, key)->0;
    lemma_positions(b, key);
    let s = reconnected(
        b.sessions[i],
        generation,
        now,
        profile.session_expiry_interval,
        profile.receive_maximum,
    );
    lemma_resume(b, limits, s);
    let r = resume(b, limits, s).0;
    let b0 = with_receiver(b, key, generation, r);
    let b1 = put_session(b0, limits, i, r.session);
    lemma_put_session(b0, limits, i, r.session);
    let j = b.links.len() as int;
    lemma_first(b.links, active_is(key));
    assert forall|m: int| 0 <= m < j implies !active_is(key)(#[trigger] b1.links[m]) by {
        assert(!active_is(key)(b.links[m]));
    }
    assert(is_first(b1.links, active_is(key), j));
    lemma_first_is(b1.links, active_is(key), j);
    lemma_first(b.sessions, session_is(key));
    assert forall|m: int| 0 <= m < i implies !session_is(key)(#[trigger] b1.sessions[m]) by {
        assert(!session_is(key)(b.sessions[m]));
    }
    assert(is_first(b1.sessions, session_is(key), i));
    lemma_first_is(b1.sessions, session_is(key), i);
    assert(owns(b1, key, generation));
    let next = drive(b1, limits, now).0;
    lemma_drive_steady(b1, limits, now);
    lemma_steady_filters(b1, next, limits, key);
    lemma_mark_steady(next, limits, key);
    lemma_steady_filters(next, mark(next, key), limits, key);
}

/// What becomes of what the session had subscribed to, up to the point where the connection
/// takes it up.
proof fn lemma_cleared_filters(
    b: BrokerView,
    limits: Limits,
    now: i64,
    key: KeyView,
    profile: Profile,
    auth: AuthView,
)
    requires
        tidy(b, limits),
    ensures
        ({
            let next = cleared(b, limits, now, key, profile, auth);
            &&& filters(next, key) is None || filters(next, key) == filters(b, key)
            &&& profile.clean_session ==> filters(next, key) is None
        }),
{
    reveal(cleared);
    let b0 = expired_away(b, limits, now, key);
    lemma_hole(b, limits, key);
    lemma_remove_session(b, limits, key);
    let b1 = prune_if_due(b0, limits, key, now);
    lemma_prune_if_due_steady(b0, limits, key, now);
    lemma_steady_tidy(b0, b1, limits);
    lemma_steady_filters(b0, b1, limits, key);
    let b2 = release_delays(b1, key);
    lemma_release_delays_steady(b1, limits, key);
    lemma_steady_tidy(b1, b2, limits);
    let b3 = retried(b2, limits, now);
    lemma_retry_wills_steady(b2, limits, now, HOT_MAINTENANCE_BUDGET as nat);
    lemma_steady_tidy(b2, b3, limits);
    lemma_hole(b1, limits, key);
    lemma_remove_session(b1, limits, key);
    lemma_hole(b3, limits, key);
    lemma_remove_session(b3, limits, key);
}

proof fn lemma_opened_filters(
    b: BrokerView,
    limits: Limits,
    now: i64,
    key: KeyView,
    profile: Profile,
    auth: AuthView,
)
    requires
        tidy(b, limits),
        opened(b, limits, now, key, profile, auth).1 is None,
    ensures
        filters(opened(b, limits, now, key, profile, auth).0, key) == match filters(b, key) {
            Some(had) => Some(had),
            None => Some(Seq::<(Seq<char>, Subscription)>::empty()),
        },
{
    reveal(opened);
    if session_at(b, key) is None {
        let b1 = BrokerView { generation: next_generation(b.generation), ..b };
        let s = SessionView {
            version: profile.version,
            session_expiry_interval: profile.session_expiry_interval,
            ..new_session(key, b1.generation, auth, now)
        };
        let b2 = BrokerView { sessions: b1.sessions.push(s), ..b1 };
        lemma_same_books(b, b1, limits, None);
        assert(held(b1, key) is None);
        lemma_session_pushed(b1, b2, s);
        assert(reindexed(b2, limits, key).sessions == b2.sessions);
    }
}

/// The connection that attached last holds the session, and no other does. It finds what was
/// subscribed to before if it is told that there was a session, and nothing otherwise; there is
/// never one for a connection that starts afresh.
pub proof fn law_newest_connection_holds_the_session(
    b: BrokerView,
    limits: Limits,
    now: i64,
    key: KeyView,
    profile: Profile,
    auth: AuthView,
)
    requires
        tidy(b, limits),
    ensures
        attach_spec(b, limits, now, key, profile, auth).1 matches Ok(attachment) ==> {
            let next = attach_spec(b, limits, now, key, profile, auth).0;
            &&& owns(next, key, attachment.generation)
            &&& forall|other: u64|
                other != attachment.generation ==> !#[trigger] owns(next, key, other)
            &&& attachment.session_present ==> !profile.clean_session && filters(next, key)
                == filters(b, key)
            &&& !attachment.session_present ==> filters(next, key) == Some(
                Seq::<(Seq<char>, Subscription)>::empty(),
            )
        },
{
    reveal(attach_spec);
    if let Ok(attachment) = attach_spec(b, limits, now, key, profile, auth).1 {
        let b1 = cleared(b, limits, now, key, profile, auth);
        lemma_cleared_tidy(b, limits, now, key, profile, auth);
        lemma_cleared_filters(b, limits, now, key, profile, auth);
        let b2 = opened(b1, limits, now, key, profile, auth).0;
        lemma_opened_tidy(b1, limits, now, key, profile, auth);
        lemma_opened_filters(b1, limits, now, key, profile, auth);
        let b3 = retried(b2, limits, now);
        lemma_retry_wills_steady(b2, limits, now, HOT_MAINTENANCE_BUDGET as nat);
        lemma_steady_tidy(b2, b3, limits);
        lemma_steady_filters(b2, b3, limits, key);
        let incarnation = b3.sessions[session_at(b3, key)->0].incarnation;
        let c = cancel_resumed(b3, key, incarnation, now);
        lemma_cancel_resumed_steady(b3, limits, key, incarnation, now);
        lemma_steady_tidy(b3, c, limits);
        lemma_steady_filters(b3, c, limits, key);
        let b4 = released(c, key);
        lemma_hole(c, limits, key);
        lemma_released(c, limits, key);
        let generation = next_generation(b4.generation);
        let b5 = BrokerView { generation, ..b4 };
        assert(active_at(b5, key) == active_at(b4, key));
        assert(session_at(b5, key) == session_at(c, key));
        lemma_linked_holds(b5, limits, now, key, generation, profile);
    }
}

/// A connection that leaves holds its session no more, nor does any other. The session stays,
/// with what it had subscribed to, unless it was to end with its connection.
pub proof fn law_session_outlives_its_connection_if_it_may(
    b: BrokerView,
    limits: Limits,
    now: i64,
    key: KeyView,
    generation: u64,
    clean_session: bool,
)
    requires
        tidy(b, limits),
        owns(b, key, generation),
        held(b, key) is Some,
    ensures
        ({
            let next = detach_spec(b, limits, now, key, generation, clean_session).0;
            let s = held(b, key)->0;
            let ends = if s.version == MqttVersion::V5 {
                s.session_expiry_interval == 0
            } else {
                clean_session
            };
            &&& active_at(next, key) is None
            &&& filters(next, key) == if ends {
                None
            } else {
                filters(b, key)
            }
        }),
{
    reveal(detach_spec);
    lemma_positions(b, key);
    let j = active_at(b, key)->0;
    let l = LinkView { active: false, ..b.links[j] };
    let b0 = with_link(b, j, l);
    lemma_hole(b, limits, key);
    lemma_let_go(b, b0, j, l);
    let b1 = unmark(b0, key);
    assert(active_at(b1, key) == active_at(b0, key));
    assert(session_at(b1, key) == session_at(b, key));
    let i = session_at(b, key)->0;
    let s = b.sessions[i];
    let ends = if s.version == MqttVersion::V5 {
        s.session_expiry_interval == 0
    } else {
        clean_session
    };
    let b2 = if ends {
        remove_session(b1, limits, key)
    } else {
        put_session(b1, limits, i, disconnected(s, now))
    };
    if ends {
        lemma_let_go_tidy(b, b1, limits, key, j, l);
        lemma_remove_session(b1, limits, key);
    } else {
        let d = disconnected(s, now);
        lemma_put_session(b1, limits, i, d);
        assert(b2.links == b1.links);
        lemma_first(b.sessions, session_is(key));
        assert forall|m: int| 0 <= m < i implies !session_is(key)(#[trigger] b2.sessions[m]) by {
            assert(!session_is(key)(b.sessions[m]));
        }
        assert(is_first(b2.sessions, session_is(key), i));
        lemma_first_is(b2.sessions, session_is(key), i);
    }
    lemma_drive_steady(b2, limits, now);
    lemma_steady_filters(b2, drive(b2, limits, now).0, limits, key);
}

proof fn lemma_remove_first_gone(
    b: BrokerView,
    limits: Limits,
    removed: Seq<SessionView>,
    n: nat,
)
    requires
        tidy(b, limits),
        n <= removed.len(),
    ensures
        tidy(remove_first(b, limits, removed, n), limits),
        forall|k: int|
            0 <= k < n ==> held(
                remove_first(b, limits, removed, n),
                (#[trigger] removed[k]).key,
            ) is None,
        forall|key: KeyView|
            (forall|k: int| 0 <= k < n ==> (#[trigger] removed[k]).key != key) ==> #[trigger] held(
                remove_first(b, limits, removed, n),
                key,
            ) == held(b, key),
    decreases n,
{
    if n > 0 {
        let before = remove_first(b, limits, removed, (n - 1) as nat);
        let last = removed[n - 1].key;
        let next = remove_first(b, limits, removed, n);
        lemma_remove_first_gone(b, limits, removed, (n - 1) as nat);
        lemma_hole(before, limits, last);
        lemma_remove_session(before, limits, last);
        assert forall|k: int| 0 <= k < n implies held(next, (#[trigger] removed[k]).key) is None by {
            if removed[k].key != last {
                assert(held(next, removed[k].key) == held(before, removed[k].key));
            }
        }
        assert forall|key: KeyView|
            (forall|k: int| 0 <= k < n ==> (#[trigger] removed[k]).key != key) implies
            #[trigger] held(next, key) == held(b, key) by {
            assert(removed[n - 1].key != key);
            assert(held(next, key) == held(before, key));
        }
    }
}

/// When authorizations are withdrawn, every session that one of them stood for is gone, with its
/// connection and its subscriptions, and every other session is there as before.
pub proof fn law_withdrawn_authorization_ends_its_sessions(
    b: BrokerView,
    limits: Limits,
    now: i64,
    invalidation: AuthInvalidation,
    key: KeyView,
)
    requires
        tidy(b, limits),
    ensures
        ({
            let next = invalidated(b, limits, now, invalidation).0;
            match held(b, key) {
                Some(s) => if concerned(invalidation)(s) {
                    held(next, key) is None && active_at(next, key) is None
                } else {
                    filters(next, key) == filters(b, key)
                },
                None => held(next, key) is None,
            }
        }),
{
    reveal(invalidated);
    let p = concerned(invalidation);
    let removed = keep(b.sessions, p);
    let last = remove_first(b, limits, removed, removed.len());
    lemma_remove_first_gone(b, limits, removed, removed.len());
    lemma_carried_on_steady(last, limits, now);
    let next = carried_on(last, limits, now).0;
    lemma_steady_filters(last, next, limits, key);
    lemma_steady_tidy(last, next, limits);
    lemma_positions(b, key);
    lemma_keep_members(b.sessions, p);
    match held(b, key) {
        Some(s) => {
            let i = session_at(b, key)->0;
            if p(s) {
                lemma_keep_all(b.sessions, p, i);
                assert(held(last, key) is None);
            } else {
                assert forall|k: int| 0 <= k < removed.len() implies (#[trigger] removed[k]).key
                    != key by {
                    if removed[k].key == key {
                        let m = choose|m: int|
                            0 <= m < b.sessions.len() && #[trigger] b.sessions[m] == removed[k];
                        lemma_held_at(b, m);
                    }
                }
                assert(held(last, key) == held(b, key));
            }
        },
        None => {
            assert forall|k: int| 0 <= k < removed.len() implies (#[trigger] removed[k]).key
                != key by {
                if removed[k].key == key {
                    let m = choose|m: int|
                        0 <= m < b.sessions.len() && #[trigger] b.sessions[m] == removed[k];
                    lemma_held_at(b, m);
                }
            }
            assert(held(last, key) == held(b, key));
        },
    }
    if held(next, key) is None {
        lemma_unheld(next, limits, key);
    }
}

/// A session that does not exist is held by nobody.
proof fn lemma_unheld(b: BrokerView, limits: Limits, key: KeyView)
    requires
        tidy(b, limits),
        held(b, key) is None,
    ensures
        active_at(b, key) is None,
{
    reveal(links_tidy);
    lemma_positions(b, key);
    if let Some(j) = active_at(b, key) {
        assert(b.links[j].active);
    }
}

/// The identifier that a frame carries.
pub open spec fn frame_id(frame: FrameView) -> Option<u16> {
    match frame {
        FrameView::Publish { packet_id, .. } => packet_id,
        FrameView::Pubrel { packet_id, .. } => Some(packet_id),
    }
}

/// The frames belong to exchanges at increasing places, the last of them before a bound.
pub open spec fn in_order(r: ResumeView, places: Seq<int>, bound: int) -> bool {
    &&& places.len() == r.frames.len()
    &&& forall|x: int, y: int|
        0 <= x < y < places.len() ==> #[trigger] places[x] < #[trigger] places[y]
    &&& forall|x: int|
        0 <= x < places.len() ==> 0 <= #[trigger] places[x] < bound && bound
            <= r.session.outbound.len() && frame_id(r.frames[x]) == Some(
            r.session.outbound[places[x]].packet_id,
        )
}

/// The exchanges of a session are those of another, with the messages that waited there first
/// after them.
pub open spec fn continues(r: SessionView, s: SessionView) -> bool {
    let n = s.outbound.len();
    &&& n <= r.outbound.len() <= n + s.offline.len()
    &&& r.offline == s.offline.skip(r.outbound.len() - n)
    &&& forall|m: int|
        0 <= m < n ==> (#[trigger] r.outbound[m]).packet_id == s.outbound[m].packet_id
            && r.outbound[m].message == s.outbound[m].message
    &&& forall|m: int|
        n <= m < r.outbound.len() ==> (#[trigger] r.outbound[m]).message == s.offline[m - n]
}

proof fn lemma_resend_order(
    b: BrokerView,
    limits: Limits,
    s: SessionView,
    r: ResumeView,
    k: int,
    left: nat,
    places: Seq<int>,
) -> (next: Seq<int>)
    requires
        0 <= k,
        k + left == s.outbound.len(),
        r.session.outbound.len() == s.outbound.len(),
        continues(r.session, s),
        in_order(r, places, k),
    ensures
        continues(resend(b, limits, r, k, left).session, s),
        resend(b, limits, r, k, left).session.outbound.len() == s.outbound.len(),
        in_order(resend(b, limits, r, k, left), next, s.outbound.len() as int),
    decreases left,
{
    reveal(resend_one);
    let last = resend(b, limits, r, k, left);
    if left == 0 || r.frames.len() >= limits.max_outbound_messages_per_connection {
        assert(in_order(last, places, s.outbound.len() as int));
        places
    } else {
        let (then, more) = resend_one(b, limits, r, k);
        let longer = if then.frames.len() == r.frames.len() {
            places
        } else {
            places.push(k)
        };
        assert(in_order(then, longer, k + 1)) by {
            assert forall|x: int| 0 <= x < longer.len() implies 0 <= #[trigger] longer[x] < k + 1
                && k + 1 <= then.session.outbound.len() && frame_id(then.frames[x]) == Some(
                then.session.outbound[longer[x]].packet_id,
            ) by {
                if x < places.len() {
                    assert(longer[x] == places[x]);
                    assert(then.frames[x] == r.frames[x]);
                }
            }
            assert forall|x: int, y: int| 0 <= x < y < longer.len() implies #[trigger] longer[x]
                < #[trigger] longer[y] by {
                assert(longer[x] == places[x]);
                if y < places.len() {
                    assert(longer[y] == places[y]);
                }
            }
        }
        assert(continues(then.session, s));
        if more {
            lemma_resend_order(b, limits, s, then, k + 1, (left - 1) as nat, longer)
        } else {
            assert(in_order(last, longer, s.outbound.len() as int));
            longer
        }
    }
}

proof fn lemma_waiting_order(
    b: BrokerView,
    limits: Limits,
    s: SessionView,
    r: ResumeView,
    room1: nat,
    room2: nat,
    places: Seq<int>,
) -> (next: Seq<int>)
    requires
        continues(r.session, s),
        in_order(r, places, r.session.outbound.len() as int),
    ensures
        ({
            let last = resume_waiting(b, limits, r, room1, room2).0;
            &&& continues(last.session, s)
            &&& in_order(last, next, last.session.outbound.len() as int)
        }),
    decreases r.session.offline.len(),
{
    let (last, _) = resume_waiting(b, limits, r, room1, room2);
    if last == r {
        places
    } else {
        let id = next_free(r.session)->0;
        let message = r.session.offline[0];
        let then = ResumeView {
            session: promoted(r.session, id),
            frames: r.frames.push(
                FrameView::Publish { message, packet_id: Some(id), dup: false, command: false },
            ),
            used: r.used + charge_of(message),
        };
        let n = r.session.outbound.len() as int;
        let longer = places.push(n);
        assert(in_order(then, longer, n + 1)) by {
            assert forall|x: int| 0 <= x < longer.len() implies 0 <= #[trigger] longer[x] < n + 1
                && n + 1 <= then.session.outbound.len() && frame_id(then.frames[x]) == Some(
                then.session.outbound[longer[x]].packet_id,
            ) by {
                if x < places.len() {
                    assert(longer[x] == places[x]);
                }
            }
            assert forall|x: int, y: int| 0 <= x < y < longer.len() implies #[trigger] longer[x]
                < #[trigger] longer[y] by {
                assert(longer[x] == places[x]);
                if y < places.len() {
                    assert(longer[y] == places[y]);
                }
            }
        }
        assert(continues(then.session, s)) by {
            assert(then.session.offline =~= s.offline.skip(n + 1 - s.outbound.len()));
        }
        if message.qos == 1 {
            lemma_waiting_order(b, limits, s, then, (room1 - 1) as nat, room2, longer)
        } else {
            lemma_waiting_order(b, limits, s, then, room1, (room2 - 1) as nat, longer)
        }
    }
}

/// A session that is taken up again is handed its unfinished exchanges in the order in which they
/// were started, and after them the messages that waited, in the order in which they came.
pub proof fn law_resumption_keeps_the_order(b: BrokerView, limits: Limits, s: SessionView)
    ensures
        ({
            let r = resume(b, limits, s).0;
            &&& continues(r.session, s)
            &&& exists|places: Seq<int>| in_order(r, places, r.session.outbound.len() as int)
        }),
{
    reveal(resume);
    let tenant = s.key.device.tenant;
    let start = ResumeView { session: s, frames: Seq::empty(), used: 0 };
    assert(s.offline.skip(0) =~= s.offline);
    assert(in_order(start, Seq::empty(), 0));
    let sent = resend(b, limits, start, 0, s.outbound.len());
    let places = lemma_resend_order(b, limits, s, start, 0, s.outbound.len(), Seq::empty());
    let r = resume(b, limits, s).0;
    let last = lemma_waiting_order(
        b,
        limits,
        s,
        sent,
        sat_sub(limits.max_inflight_qos1_per_tenant as nat, inflight(b, tenant, 1)),
        sat_sub(limits.max_inflight_qos2_per_tenant as nat, inflight(b, tenant, 2)),
        places,
    );
    assert(in_order(r, last, r.session.outbound.len() as int));
}

} // verus!
