//! Sessions and connections come and go, and leave everything in its place.
use super::attach::{
    attach_spec, cleared, detach_spec, expired_away, fresh_link, linked, new_session_allowed,
    next_generation, opened, resend, resend_one, resume, resume_fits, resume_waiting, with_receiver,
    Profile, ResumeView,
};
use super::flow::{
    lemma_cancel_resumed_steady, lemma_release_delays_steady, lemma_removed_entry,
    lemma_retry_wills_steady, lemma_taken,
};
use super::model::{
    active_at, active_is, bytes_fit, drive, expiry_deadline, inflight, lemma_put_session, link_used,
    mark, owns, prune_expired, prune_if_due, put_session, reindexed, released, remove_session,
    sat_sub, session_at, session_is, session_key, unmark, wakes_after, with_link, without_filters,
    BrokerView, FrameView, LinkView, HOT_MAINTENANCE_BUDGET,
};
use super::slots::{lemma_session_gone_claims, lemma_session_new_claims, lemma_slots_kept, slots};
use super::tidy::{
    exact_but, filed, fits, frames_within, indexed, lemma_drive_steady, lemma_frames_pushed,
    lemma_frames_within, lemma_mark_steady, lemma_outline_positions, lemma_outline_tidy,
    lemma_parts, lemma_positions, lemma_prune_if_due_steady, lemma_put, lemma_put_steady,
    lemma_reindexed, lemma_same_books, lemma_steady_tidy, lemma_within_pushed, lemma_within_removed,
    links_tidy, numbers_within, retained_indexed, retained_tidy, sessions_tidy, shares_within,
    spelled, tenant_within, tidy, tidy_but, trie_tidy,
};
use super::weight::{
    lemma_exchange_changed, lemma_promoted, lemma_second_count, lemma_unhanded, second_count,
};
use super::wills::{cancel_resumed, release_delays, retried};
use crate::codec::MqttVersion;
use crate::identity::KeyView;
use crate::limits::Limits;
use crate::list::{
    distinct, first, is_first, lemma_distinct_push, lemma_distinct_remove, lemma_first,
    lemma_first_is, lemma_first_none, total,
};
use crate::message::charge_of;
use crate::session::{
    disconnected, new_session, next_free, promoted, reconnected, usage_of, AuthView, OutboundView,
    SessionView, Subscription, UsageView,
};
use crate::table::{due_at, entry_is, entry_key, law_due_when_passed, lookup};
use crate::text::{lemma_levels_nonempty, levels};
use crate::trie::{law_remove, subscribed, trie_ok, TrieView};
use crate::usage::{no_usage, tenant_usage};
use vstd::prelude::*;

verus! {

/// The session of a key.
pub open spec fn held(b: BrokerView, key: KeyView) -> Option<SessionView> {
    match session_at(b, key) {
        Some(i) => Some(b.sessions[i]),
        None => None,
    }
}

/// Different texts have different levels.
pub proof fn lemma_levels_differ(a: Seq<char>, b: Seq<char>)
    requires
        levels(a) == levels(b),
    ensures
        a == b,
    decreases a.len() + b.len(),
{
    if a.len() == 0 && b.len() == 0 {
        assert(a =~= b);
    } else if a.len() == 0 {
        lemma_levels_shape(b);
    } else if b.len() == 0 {
        lemma_levels_shape(a);
    } else {
        let x = levels(a.drop_last());
        let y = levels(b.drop_last());
        lemma_levels_nonempty(a.drop_last());
        lemma_levels_nonempty(b.drop_last());
        assert(levels(a).last() == levels(b).last());
        if a.last() == '/' {
            if b.last() != '/' {
                assert(levels(b).last() == y.last().push(b.last()));
                assert(levels(b).last().len() > 0);
                assert(levels(a).last().len() == 0);
            }
            assert(x =~= levels(a).drop_last());
            assert(y =~= levels(b).drop_last());
        } else {
            if b.last() == '/' {
                assert(levels(a).last() == x.last().push(a.last()));
                assert(levels(a).last().len() > 0);
                assert(levels(b).last().len() == 0);
            }
            assert(x.last().push(a.last()) == y.last().push(b.last()));
            assert(x.last().push(a.last()).drop_last() =~= x.last());
            assert(y.last().push(b.last()).drop_last() =~= y.last());
            assert(x.last().push(a.last()).last() == a.last());
            assert(y.last().push(b.last()).last() == b.last());
            assert forall|i: int| 0 <= i < x.len() implies x[i] == y[i] by {
                if i < x.len() - 1 {
                    assert(levels(a)[i] == x[i]);
                    assert(levels(b)[i] == y[i]);
                }
            }
            assert(x =~= y);
        }
        lemma_levels_differ(a.drop_last(), b.drop_last());
        assert(a =~= a.drop_last().push(a.last()));
        assert(b =~= b.drop_last().push(b.last()));
    }
}

proof fn lemma_levels_shape(text: Seq<char>)
    requires
        text.len() > 0,
    ensures
        levels(text) != levels(Seq::<char>::empty()),
{
    let before = levels(text.drop_last());
    let none = levels(Seq::<char>::empty());
    lemma_levels_nonempty(text.drop_last());
    assert(none.len() == 1 && none[0].len() == 0);
    if text.last() == '/' {
        assert(levels(text).len() == before.len() + 1);
    } else {
        assert(levels(text).last() == before.last().push(text.last()));
        assert(levels(text).last().len() > 0);
    }
}

/// The indexes hold for the same sessions in the same state of connection.
pub proof fn lemma_exact_same(
    b: BrokerView,
    next: BrokerView,
    limits: Limits,
    key: KeyView,
)
    requires
        exact_but(b, limits, None) || exact_but(b, limits, Some(key)),
        next.session_expiry == b.session_expiry,
        next.message_expiry == b.message_expiry,
        forall|other: KeyView|
            other != key ==> #[trigger] held(next, other) == held(b, other) && active_at(
                next,
                other,
            ) is Some == active_at(b, other) is Some,
    ensures
        exact_but(next, limits, Some(key)),
{
    reveal(exact_but);
    assert forall|other: KeyView| Some(key) != Some(other) implies #[trigger] indexed(
        next,
        limits,
        other,
    ) by {
        assert(indexed(b, limits, other));
        assert(held(next, other) == held(b, other));
    }
}

pub proof fn lemma_retained_same(b: BrokerView, next: BrokerView)
    requires
        next.retained == b.retained,
        next.retained_expiry == b.retained_expiry,
    ensures
        retained_tidy(b) ==> retained_tidy(next),
{
    reveal(retained_tidy);
    assert forall|topic: Seq<char>| retained_indexed(b, topic) implies #[trigger] retained_indexed(
        next,
        topic,
    ) by {}
}

pub proof fn lemma_trie_same(b: BrokerView, next: BrokerView)
    requires
        next.trie == b.trie,
        next.sessions == b.sessions,
    ensures
        trie_tidy(b) ==> trie_tidy(next),
        sessions_tidy(b) ==> sessions_tidy(next),
{
    reveal(trie_tidy);
    reveal(sessions_tidy);
    assert forall|key: KeyView, filter: Seq<char>| filed(b, key, filter) implies #[trigger] filed(
        next,
        key,
        filter,
    ) by {}
}

/// No connection holds the session any more, and the others hold theirs.
pub proof fn lemma_let_go(b: BrokerView, next: BrokerView, j: int, l: LinkView)
    requires
        links_tidy(b),
        0 <= j < b.links.len(),
        b.links[j].active,
        l.key == b.links[j].key,
        !l.active,
        next.links == b.links.update(j, l),
        next.sessions == b.sessions,
    ensures
        links_tidy(next),
        active_at(next, l.key) is None,
        forall|other: KeyView|
            other != l.key ==> #[trigger] active_at(next, other) is Some == active_at(
                b,
                other,
            ) is Some,
{
    reveal(links_tidy);
    assert forall|m: int, n: int|
        0 <= m < n < next.links.len() && (#[trigger] next.links[m]).active && (
        #[trigger] next.links[n]).active implies next.links[m].key != next.links[n].key by {
        assert(b.links[m].active && b.links[n].active);
    }
    assert forall|m: int| 0 <= m < next.links.len() && (#[trigger] next.links[m]).active implies
        session_at(next, next.links[m].key) is Some by {
        assert(b.links[m].active);
    }
    assert forall|m: int| 0 <= m < next.links.len() implies !active_is(l.key)(
        #[trigger] next.links[m],
    ) by {
        if m != j && b.links[m].active {
            assert(b.links[j].active);
            if m < j {
                assert(b.links[m].key != b.links[j].key);
            } else {
                assert(b.links[j].key != b.links[m].key);
            }
        }
    }
    lemma_first_none(next.links, active_is(l.key));
    assert forall|other: KeyView| other != l.key implies #[trigger] active_at(
        next,
        other,
    ) is Some == active_at(b, other) is Some by {
        lemma_first(b.links, active_is(other));
        lemma_first(next.links, active_is(other));
        if let Some(m) = active_at(b, other) {
            assert(active_is(other)(next.links[m]));
        }
        if let Some(m) = active_at(next, other) {
            assert(active_is(other)(b.links[m]));
        }
    }
}

pub proof fn lemma_hole(b: BrokerView, limits: Limits, key: KeyView)
    requires
        tidy(b, limits),
    ensures
        tidy_but(b, limits, Some(key)),
{
    reveal(exact_but);
}

/// The connection of a session let go: the session's deadline is due to be noted.
pub proof fn lemma_released(b: BrokerView, limits: Limits, key: KeyView)
    requires
        tidy_but(b, limits, Some(key)),
    ensures
        tidy_but(released(b, key), limits, Some(key)),
        active_at(released(b, key), key) is None,
        released(b, key).sessions == b.sessions,
        released(b, key).trie == b.trie,
{
    let next = released(b, key);
    lemma_positions(b, key);
    lemma_retained_same(b, next);
    lemma_trie_same(b, next);
    if let Some(j) = active_at(b, key) {
        let l = LinkView { active: false, cancelled: true, ..b.links[j] };
        lemma_let_go(b, next, j, l);
        lemma_frames_within(b.links, limits, j, l, 0);
        assert forall|other: KeyView| other != key implies #[trigger] held(next, other) == held(
            b,
            other,
        ) && active_at(next, other) is Some == active_at(b, other) is Some by {}
        lemma_exact_same(b, next, limits, key);
    }
}

/// One session fewer.
proof fn lemma_session_removed(b: BrokerView, next: BrokerView, i: int)
    requires
        sessions_tidy(b),
        0 <= i < b.sessions.len(),
        next.sessions == b.sessions.remove(i),
    ensures
        sessions_tidy(next),
        held(next, b.sessions[i].key) is None,
        forall|other: KeyView|
            other != b.sessions[i].key ==> #[trigger] held(next, other) == held(b, other),
{
    reveal(sessions_tidy);
    let key = b.sessions[i].key;
    lemma_distinct_remove(b.sessions, i, session_key());
    assert forall|m: int| 0 <= m < next.sessions.len() implies distinct(
        (#[trigger] next.sessions[m]).subscriptions,
        entry_key(),
    ) by {
        let from = if m < i {
            m
        } else {
            m + 1
        };
        assert(next.sessions[m] == b.sessions[from]);
        assert(distinct(b.sessions[from].subscriptions, entry_key()));
    }
    assert forall|m: int| 0 <= m < next.sessions.len() implies !session_is(key)(
        #[trigger] next.sessions[m],
    ) by {
        let from = if m < i {
            m
        } else {
            m + 1
        };
        assert(next.sessions[m] == b.sessions[from]);
        assert(session_key()(b.sessions[from]) != session_key()(b.sessions[i]));
    }
    lemma_first_none(next.sessions, session_is(key));
    assert forall|other: KeyView| other != key implies #[trigger] held(next, other) == held(
        b,
        other,
    ) by {
        let p = session_is(other);
        lemma_first(b.sessions, p);
        lemma_first(next.sessions, p);
        match session_at(b, other) {
            Some(k) => {
                let at = if k < i {
                    k
                } else {
                    k - 1
                };
                assert(next.sessions[at] == b.sessions[k]);
                assert forall|m: int| 0 <= m < at implies !p(#[trigger] next.sessions[m]) by {
                    let from = if m < i {
                        m
                    } else {
                        m + 1
                    };
                    assert(next.sessions[m] == b.sessions[from]);
                    assert(!p(b.sessions[from]));
                }
                assert(is_first(next.sessions, p, at));
                lemma_first_is(next.sessions, p, at);
            },
            None => {
                assert forall|m: int| 0 <= m < next.sessions.len() implies !p(
                    #[trigger] next.sessions[m],
                ) by {
                    let from = if m < i {
                        m
                    } else {
                        m + 1
                    };
                    assert(next.sessions[m] == b.sessions[from]);
                    assert(!p(b.sessions[from]));
                }
                lemma_first_none(next.sessions, p);
            },
        }
    }
}

/// The filters of one session taken out of the trie, and no other's.
proof fn lemma_without_filters(
    t: TrieView,
    key: KeyView,
    subscriptions: Seq<(Seq<char>, Subscription)>,
    path: Seq<Seq<char>>,
    other: KeyView,
)
    requires
        trie_ok(t),
    ensures
        trie_ok(without_filters(t, key, subscriptions)),
        other != key ==> subscribed(without_filters(t, key, subscriptions), path, other)
            == subscribed(t, path, other),
        subscribed(without_filters(t, key, subscriptions), path, key) is None || subscribed(
            without_filters(t, key, subscriptions),
            path,
            key,
        ) == subscribed(t, path, key),
        forall|k: int|
            0 <= k < subscriptions.len() ==> path != levels((#[trigger] subscriptions[k]).0)
                || subscribed(without_filters(t, key, subscriptions), path, key) is None,
    decreases subscriptions.len(),
{
    if subscriptions.len() > 0 {
        let front = subscriptions.drop_last();
        let before = without_filters(t, key, front);
        let last = levels(subscriptions.last().0);
        lemma_without_filters(t, key, front, path, other);
        law_remove(before, last, key, path, other);
        law_remove(before, last, key, path, key);
        assert forall|k: int| 0 <= k < subscriptions.len() implies path != levels(
            (#[trigger] subscriptions[k]).0,
        ) || subscribed(without_filters(t, key, subscriptions), path, key) is None by {
            if k < front.len() {
                assert(front[k] == subscriptions[k]);
            }
        }
    }
}

/// A session given up leaves nothing of it behind.
pub proof fn lemma_remove_session(b: BrokerView, limits: Limits, key: KeyView)
    requires
        tidy_but(b, limits, Some(key)),
    ensures
        tidy(remove_session(b, limits, key), limits),
        held(remove_session(b, limits, key), key) is None,
        active_at(remove_session(b, limits, key), key) is None,
        forall|other: KeyView|
            other != key ==> #[trigger] held(remove_session(b, limits, key), other) == held(
                b,
                other,
            ),
{
    reveal(remove_session);
    let b0 = unmark(b, key);
    lemma_same_books(b, b0, limits, Some(key));
    let b1 = released(b0, key);
    lemma_released(b0, limits, key);
    lemma_positions(b1, key);
    match session_at(b1, key) {
        Some(i) => {
            let s = b1.sessions[i];
            let b2 = BrokerView {
                sessions: b1.sessions.remove(i),
                trie: without_filters(b1.trie, key, s.subscriptions),
                wakes: wakes_after(
                    b1.wakes,
                    key.device.tenant,
                    usage_of(s),
                    no_usage(),
                ),
                ..b1
            };
            lemma_session_removed(b1, b2, i);
            lemma_within_removed(b1.sessions, limits, i);
            lemma_session_gone_claims(slots(b1), i);
            lemma_slots_kept(slots(b1), slots(b2), limits);
            assert forall|other: KeyView| other != key implies #[trigger] held(b2, other) == held(
                b1,
                other,
            ) && active_at(b2, other) is Some == active_at(b1, other) is Some by {}
            lemma_exact_same(b1, b2, limits, key);
            lemma_retained_same(b1, b2);
            lemma_links_without(b1, b2, key);
            lemma_trie_without(b1, b2, key, s);
            lemma_reindexed(b2, limits, key);
            let next = reindexed(b2, limits, key);
            assert forall|other: KeyView| other != key implies #[trigger] held(next, other)
                == held(b, other) by {
                assert(held(b2, other) == held(b1, other));
                assert(session_at(next, other) == session_at(b2, other));
            }
        },
        None => {
            lemma_reindexed(b1, limits, key);
        },
    }
}

proof fn lemma_links_without(b: BrokerView, next: BrokerView, key: KeyView)
    requires
        links_tidy(b),
        active_at(b, key) is None,
        next.links == b.links,
        forall|other: KeyView| other != key ==> #[trigger] held(next, other) == held(b, other),
    ensures
        links_tidy(next),
{
    reveal(links_tidy);
    lemma_first(b.links, active_is(key));
    assert forall|m: int| 0 <= m < next.links.len() && (#[trigger] next.links[m]).active implies
        session_at(next, next.links[m].key) is Some by {
        assert(!active_is(key)(b.links[m]));
        assert(held(next, b.links[m].key) == held(b, b.links[m].key));
    }
}

proof fn lemma_trie_without(b: BrokerView, next: BrokerView, key: KeyView, s: SessionView)
    requires
        trie_tidy(b),
        held(b, key) == Some(s),
        held(next, key) is None,
        next.trie == without_filters(b.trie, key, s.subscriptions),
        forall|other: KeyView| other != key ==> #[trigger] held(next, other) == held(b, other),
    ensures
        trie_tidy(next),
{
    reveal(trie_tidy);
    lemma_without_filters(b.trie, key, s.subscriptions, levels(Seq::empty()), key);
    assert forall|path: Seq<Seq<char>>, k: KeyView| #[trigger]
        subscribed(next.trie, path, k) is Some implies spelled(path) by {
        lemma_without_filters(b.trie, key, s.subscriptions, path, k);
        assert(subscribed(b.trie, path, k) is Some);
    }
    assert forall|k: KeyView, filter: Seq<char>| #[trigger] filed(next, k, filter) by {
        assert(filed(b, k, filter));
        lemma_without_filters(b.trie, key, s.subscriptions, levels(filter), k);
        if k == key {
            lemma_first(s.subscriptions, entry_is::<Seq<char>, Subscription>(filter));
            if let Some(m) = first(
                s.subscriptions,
                entry_is::<Seq<char>, Subscription>(filter),
            ) {
                assert(s.subscriptions[m].0 == filter);
            }
        } else {
            assert(held(next, k) == held(b, k));
        }
    }
}

/// Sessions whose time has passed, each with its entry in the index.
pub proof fn lemma_prune_expired_tidy(b: BrokerView, limits: Limits, now: i64, budget: nat)
    requires
        tidy(b, limits),
    ensures
        tidy(prune_expired(b, limits, now, budget), limits),
    decreases budget,
{
    if budget > 0 {
        law_due_when_passed(b.session_expiry, now);
        if let Some(k) = due_at(b.session_expiry, now) {
            let key = b.session_expiry[k].0;
            let taken = BrokerView { session_expiry: b.session_expiry.remove(k), ..b };
            assert(exact_but(taken, limits, Some(key))) by {
                assert(distinct(b.session_expiry, entry_key()) && distinct(
                    b.message_expiry,
                    entry_key(),
                )) by {
                    reveal(exact_but);
                }
                assert forall|other: KeyView| other != key implies #[trigger] lookup(
                    taken.session_expiry,
                    other,
                ) == lookup(b.session_expiry, other) by {
                    lemma_removed_entry(b.session_expiry, k, other);
                }
                lemma_removed_entry(b.session_expiry, k, key);
                lemma_taken(b, taken, limits, key);
            }
            lemma_parts(b, taken);
            let next = if expiry_deadline(taken, limits, key) matches Some(deadline) && deadline
                <= now {
                remove_session(taken, limits, key)
            } else {
                reindexed(taken, limits, key)
            };
            lemma_remove_session(taken, limits, key);
            lemma_reindexed(taken, limits, key);
            lemma_prune_expired_tidy(next, limits, now, (budget - 1) as nat);
        }
    }
}

/// One session more.
pub proof fn lemma_session_pushed(b: BrokerView, next: BrokerView, s: SessionView)
    requires
        sessions_tidy(b),
        held(b, s.key) is None,
        distinct(s.subscriptions, entry_key()),
        next.sessions == b.sessions.push(s),
    ensures
        sessions_tidy(next),
        held(next, s.key) == Some(s),
        forall|other: KeyView| other != s.key ==> #[trigger] held(next, other) == held(b, other),
{
    reveal(sessions_tidy);
    let n = b.sessions.len() as int;
    lemma_first(b.sessions, session_is(s.key));
    assert forall|k: int| 0 <= k < b.sessions.len() implies session_key()(
        #[trigger] b.sessions[k],
    ) != session_key()(s) by {
        assert(!session_is(s.key)(b.sessions[k]));
    }
    lemma_distinct_push(b.sessions, s, session_key());
    assert forall|m: int| 0 <= m < next.sessions.len() implies distinct(
        (#[trigger] next.sessions[m]).subscriptions,
        entry_key(),
    ) by {
        if m < n {
            assert(distinct(b.sessions[m].subscriptions, entry_key()));
        }
    }
    assert forall|m: int| 0 <= m < n implies !session_is(s.key)(#[trigger] next.sessions[m]) by {
        assert(!session_is(s.key)(b.sessions[m]));
    }
    assert(is_first(next.sessions, session_is(s.key), n));
    lemma_first_is(next.sessions, session_is(s.key), n);
    assert forall|other: KeyView| other != s.key implies #[trigger] held(next, other) == held(
        b,
        other,
    ) by {
        let p = session_is(other);
        lemma_first(b.sessions, p);
        match session_at(b, other) {
            Some(k) => {
                assert forall|m: int| 0 <= m < k implies !p(#[trigger] next.sessions[m]) by {
                    assert(!p(b.sessions[m]));
                }
                assert(is_first(next.sessions, p, k));
                lemma_first_is(next.sessions, p, k);
            },
            None => {
                assert forall|m: int| 0 <= m < next.sessions.len() implies !p(
                    #[trigger] next.sessions[m],
                ) by {
                    if m < n {
                        assert(!p(b.sessions[m]));
                    }
                }
                lemma_first_none(next.sessions, p);
            },
        }
    }
}

/// The connections still hold sessions that exist.
pub proof fn lemma_links_with(b: BrokerView, next: BrokerView)
    requires
        links_tidy(b),
        next.links == b.links,
        forall|key: KeyView| held(b, key) is Some ==> #[trigger] held(next, key) is Some,
    ensures
        links_tidy(next),
{
    reveal(links_tidy);
    assert forall|m: int| 0 <= m < next.links.len() && (#[trigger] next.links[m]).active implies
        session_at(next, next.links[m].key) is Some by {
        assert(b.links[m].active);
        assert(held(b, b.links[m].key) is Some);
        assert(held(next, b.links[m].key) is Some);
    }
}

/// A session without subscriptions added.
proof fn lemma_opened(b: BrokerView, limits: Limits, s: SessionView)
    requires
        tidy(b, limits),
        held(b, s.key) is None,
        s.subscriptions.len() == 0,
        s.offline.len() == 0,
        s.inbound.len() == 0,
        s.outbound.len() == 0,
        new_session_allowed(b, limits, s.key),
    ensures
        tidy(
            reindexed(BrokerView { sessions: b.sessions.push(s), ..b }, limits, s.key),
            limits,
        ),
{
    let next = BrokerView { sessions: b.sessions.push(s), ..b };
    lemma_session_pushed(b, next, s);
    assert(tenant_within(tenant_usage(b.sessions, s.key.device.tenant), limits)) by {
        reveal(shares_within);
    }
    lemma_within_pushed(b.sessions, limits, s);
    lemma_session_new_claims(slots(b), s);
    lemma_slots_kept(slots(b), slots(next), limits);
    assert(numbers_within(next.sessions, limits)) by {
        reveal(numbers_within);
    }
    assert forall|other: KeyView| other != s.key implies #[trigger] held(next, other) == held(
        b,
        other,
    ) && active_at(next, other) is Some == active_at(b, other) is Some by {}
    lemma_exact_same(b, next, limits, s.key);
    lemma_retained_same(b, next);
    lemma_links_with(b, next);
    assert(trie_tidy(next)) by {
        reveal(trie_tidy);
        assert forall|k: KeyView, filter: Seq<char>| #[trigger] filed(next, k, filter) by {
            assert(filed(b, k, filter));
            if k == s.key {
                lemma_first_none(
                    s.subscriptions,
                    entry_is::<Seq<char>, Subscription>(filter),
                );
            } else {
                assert(held(next, k) == held(b, k));
            }
        }
    }
    lemma_reindexed(next, limits, s.key);
}

/// A session replaced under its key with the same subscriptions.
proof fn lemma_put_tidy(b: BrokerView, limits: Limits, i: int, s: SessionView)
    requires
        0 <= i < b.sessions.len(),
        s.key == b.sessions[i].key,
        s.subscriptions == b.sessions[i].subscriptions,
        s.authorization == b.sessions[i].authorization,
        s.inbound == b.sessions[i].inbound,
        fits(b.sessions, limits, i, s),
        tidy_but(b, limits, Some(s.key)),
    ensures
        tidy(put_session(b, limits, i, s), limits),
{
    let next = put_session(b, limits, i, s);
    lemma_put(b, limits, i, s);
    lemma_put_session(b, limits, i, s);
    lemma_put_steady(b, limits, i, s);
    lemma_outline_tidy(b, next);
}

/// What was handed so far is within the bounds.
pub open spec fn resumable(b: BrokerView, limits: Limits, r: ResumeView) -> bool {
    &&& r.frames.len() <= limits.max_outbound_messages_per_connection
    &&& resume_fits(b, limits, r, 0)
}

/// Amounts that are no greater than others, but for so many exchanges more.
pub open spec fn resumed_within(is: UsageView, was: UsageView, room1: nat, room2: nat) -> bool {
    &&& is.subscriptions <= was.subscriptions
    &&& is.state_bytes <= was.state_bytes
    &&& is.offline_count <= was.offline_count
    &&& is.offline_bytes <= was.offline_bytes
    &&& is.qos1_inflight <= was.qos1_inflight + room1
    &&& is.qos2_inflight <= was.qos2_inflight + room2
}

/// A session has no more exchanges than before, or no more than allowed.
pub open spec fn share_kept(was: SessionView, is: SessionView, limits: Limits) -> bool {
    &&& usage_of(is).qos1_inflight <= usage_of(was).qos1_inflight || usage_of(is).qos1_inflight
        <= limits.max_inflight_qos1_per_session
    &&& second_count(is) <= second_count(was) || second_count(is)
        <= limits.max_inflight_qos2_per_session
}

proof fn lemma_resend(b: BrokerView, limits: Limits, r: ResumeView, k: int, left: nat)
    requires
        0 <= k,
        k + left <= r.session.outbound.len(),
    ensures
        resend(b, limits, r, k, left).session.key == r.session.key,
        resend(b, limits, r, k, left).session.subscriptions == r.session.subscriptions,
        resend(b, limits, r, k, left).session.authorization == r.session.authorization,
        resend(b, limits, r, k, left).session.inbound == r.session.inbound,
        usage_of(resend(b, limits, r, k, left).session) == usage_of(r.session),
        second_count(resend(b, limits, r, k, left).session) == second_count(r.session),
        resumable(b, limits, r) ==> resumable(b, limits, resend(b, limits, r, k, left)),
    decreases left,
{
    reveal(resend_one);
    if left > 0 {
        let e = r.session.outbound[k];
        lemma_exchange_changed(r.session, k, OutboundView { sent: true, ..e });
        lemma_exchange_changed(r.session, k, OutboundView { sent: true, windowed: true, ..e });
        lemma_resend(b, limits, resend_one(b, limits, r, k).0, k + 1, (left - 1) as nat);
    }
}

proof fn lemma_resume_waiting(
    b: BrokerView,
    limits: Limits,
    r: ResumeView,
    room1: nat,
    room2: nat,
)
    ensures
        resume_waiting(b, limits, r, room1, room2).0.session.key == r.session.key,
        resume_waiting(b, limits, r, room1, room2).0.session.subscriptions
            == r.session.subscriptions,
        resume_waiting(b, limits, r, room1, room2).0.session.authorization
            == r.session.authorization,
        resume_waiting(b, limits, r, room1, room2).0.session.inbound == r.session.inbound,
        resumed_within(
            usage_of(resume_waiting(b, limits, r, room1, room2).0.session),
            usage_of(r.session),
            room1,
            room2,
        ),
        share_kept(r.session, resume_waiting(b, limits, r, room1, room2).0.session, limits),
        resumable(b, limits, r) ==> resumable(
            b,
            limits,
            resume_waiting(b, limits, r, room1, room2).0,
        ),
    decreases r.session.offline.len(),
{
    if r.session.offline.len() > 0 {
        let message = r.session.offline[0];
        if let Some(id) = next_free(r.session) {
            let next = ResumeView {
                session: promoted(r.session, id),
                frames: r.frames.push(
                    FrameView::Publish { message, packet_id: Some(id), dup: false, command: false },
                ),
                used: r.used + charge_of(message),
            };
            lemma_promoted(r.session, id);
            lemma_second_count(r.session);
            if room1 > 0 {
                lemma_resume_waiting(b, limits, next, (room1 - 1) as nat, room2);
            }
            if room2 > 0 {
                lemma_resume_waiting(b, limits, next, room1, (room2 - 1) as nat);
            }
        }
    }
}

/// Taking a session up changes neither its key nor what it has subscribed to.
pub proof fn lemma_resume(b: BrokerView, limits: Limits, s: SessionView)
    ensures
        resume(b, limits, s).0.session.key == s.key,
        resume(b, limits, s).0.session.subscriptions == s.subscriptions,
        resume(b, limits, s).0.session.authorization == s.authorization,
        resume(b, limits, s).0.session.inbound == s.inbound,
        resumed_within(
            usage_of(resume(b, limits, s).0.session),
            usage_of(s),
            sat_sub(
                limits.max_inflight_qos1_per_tenant as nat,
                inflight(b, s.key.device.tenant, 1),
            ),
            sat_sub(
                limits.max_inflight_qos2_per_tenant as nat,
                inflight(b, s.key.device.tenant, 2),
            ),
        ),
        share_kept(s, resume(b, limits, s).0.session, limits),
        frames_within(b.links, limits) ==> resumable(b, limits, resume(b, limits, s).0),
{
    reveal(resume);
    let tenant = s.key.device.tenant;
    let start = ResumeView { session: s, frames: Seq::empty(), used: 0 };
    if frames_within(b.links, limits) {
        reveal(frames_within);
        assert(total(b.links, link_used(Some(tenant))) <= limits.max_outbound_bytes_per_tenant);
        assert(resumable(b, limits, start));
    }
    lemma_resend(b, limits, start, 0, s.outbound.len());
    lemma_resume_waiting(
        b,
        limits,
        resend(b, limits, start, 0, s.outbound.len()),
        sat_sub(limits.max_inflight_qos1_per_tenant as nat, inflight(b, tenant, 1)),
        sat_sub(limits.max_inflight_qos2_per_tenant as nat, inflight(b, tenant, 2)),
    );
}

/// A connection for a session that has none.
proof fn lemma_link_pushed(b: BrokerView, next: BrokerView, limits: Limits, l: LinkView)
    requires
        tidy_but(b, limits, Some(l.key)),
        l.active,
        active_at(b, l.key) is None,
        session_at(b, l.key) is Some,
        next == (BrokerView { links: b.links.push(l), next_receiver: next.next_receiver, ..b }),
        l.queue.len() <= limits.max_outbound_messages_per_connection,
        bytes_fit(b, limits, l.key.device.tenant, l.used, l.used, l.used, 0),
    ensures
        tidy_but(next, limits, Some(l.key)),
{
    lemma_frames_pushed(b.links, limits, l);
    lemma_retained_same(b, next);
    lemma_trie_same(b, next);
    assert(links_tidy(next)) by {
        reveal(links_tidy);
        lemma_first(b.links, active_is(l.key));
        assert forall|m: int, n: int|
            0 <= m < n < next.links.len() && (#[trigger] next.links[m]).active && (
            #[trigger] next.links[n]).active implies next.links[m].key != next.links[n].key by {
            if n < b.links.len() {
                assert(b.links[m].active && b.links[n].active);
            } else {
                assert(!active_is(l.key)(b.links[m]));
            }
        }
        assert forall|m: int| 0 <= m < next.links.len() && (#[trigger] next.links[m]).active
            implies session_at(next, next.links[m].key) is Some by {
            if m < b.links.len() {
                assert(b.links[m].active);
            }
        }
    }
    assert forall|other: KeyView| other != l.key implies #[trigger] held(next, other) == held(
        b,
        other,
    ) && active_at(next, other) is Some == active_at(b, other) is Some by {
        lemma_first(b.links, active_is(other));
        lemma_first(next.links, active_is(other));
        if let Some(m) = active_at(b, other) {
            assert(active_is(other)(next.links[m]));
        }
        if let Some(m) = active_at(next, other) {
            assert(active_is(other)(b.links[m]));
        }
    }
    lemma_exact_same(b, next, limits, l.key);
}

proof fn lemma_linked_tidy(
    b: BrokerView,
    limits: Limits,
    now: i64,
    i: int,
    generation: u64,
    profile: Profile,
)
    requires
        0 <= i < b.sessions.len(),
        tidy_but(b, limits, Some(b.sessions[i].key)),
        active_at(b, b.sessions[i].key) is None,
        session_at(b, b.sessions[i].key) is Some,
    ensures
        tidy(linked(b, limits, now, i, generation, profile).0, limits),
{
    reveal(linked);
    let s = reconnected(
        b.sessions[i],
        generation,
        now,
        profile.session_expiry_interval,
        profile.receive_maximum,
    );
    let key = s.key;
    lemma_unhanded(b.sessions[i], s);
    lemma_resume(b, limits, s);
    match resume(b, limits, s) {
        (r, Some(error)) => {
            let left = SessionView { active_generation: None, ..r.session };
            let b1 = put_session(b, limits, i, left);
            lemma_put_tidy(b, limits, i, left);
            lemma_hole(b1, limits, key);
            lemma_remove_session(b1, limits, key);
            let b2 = if profile.clean_session {
                remove_session(b1, limits, key)
            } else {
                b1
            };
            lemma_drive_steady(b2, limits, now);
            lemma_steady_tidy(b2, drive(b2, limits, now).0, limits);
        },
        (r, None) => {
            let l = fresh_link(key, generation, b.next_receiver, r);
            let b0 = with_receiver(b, key, generation, r);
            lemma_link_pushed(b, b0, limits, l);
            let b1 = put_session(b0, limits, i, r.session);
            lemma_put_tidy(b0, limits, i, r.session);
            let next = drive(b1, limits, now).0;
            lemma_drive_steady(b1, limits, now);
            lemma_steady_tidy(b1, next, limits);
            lemma_mark_steady(next, limits, key);
            lemma_steady_tidy(next, mark(next, key), limits);
        },
    }
}

pub proof fn lemma_cleared_tidy(
    b: BrokerView,
    limits: Limits,
    now: i64,
    key: KeyView,
    profile: Profile,
    auth: AuthView,
)
    requires
        tidy(b, limits),
    ensures
        tidy(cleared(b, limits, now, key, profile, auth), limits),
{
    reveal(cleared);
    let b0 = expired_away(b, limits, now, key);
    lemma_hole(b, limits, key);
    lemma_remove_session(b, limits, key);
    let b1 = prune_if_due(b0, limits, key, now);
    lemma_prune_if_due_steady(b0, limits, key, now);
    lemma_steady_tidy(b0, b1, limits);
    let b2 = release_delays(b1, key);
    lemma_release_delays_steady(b1, limits, key);
    lemma_steady_tidy(b1, b2, limits);
    let b3 = retried(b2, limits, now);
    lemma_retry_wills_steady(b2, limits, now, HOT_MAINTENANCE_BUDGET as nat);
    lemma_steady_tidy(b2, b3, limits);
    lemma_hole(b1, limits, key);
    lemma_remove_session(b1, limits, key);
    lemma_hole(b3, limits, key);
    lemma_remove_session(b3, limits, key);
}

pub proof fn lemma_opened_tidy(
    b: BrokerView,
    limits: Limits,
    now: i64,
    key: KeyView,
    profile: Profile,
    auth: AuthView,
)
    requires
        tidy(b, limits),
    ensures
        tidy(opened(b, limits, now, key, profile, auth).0, limits),
{
    reveal(opened);
    let b1 = BrokerView { generation: next_generation(b.generation), ..b };
    lemma_same_books(b, b1, limits, None);
    if session_at(b, key) is None && new_session_allowed(b1, limits, key) {
        let s = SessionView {
            version: profile.version,
            session_expiry_interval: profile.session_expiry_interval,
            ..new_session(key, b1.generation, auth, now)
        };
        assert(held(b1, key) is None);
        lemma_opened(b1, limits, s);
    }
}

pub proof fn lemma_attach_tidy(
    b: BrokerView,
    limits: Limits,
    now: i64,
    key: KeyView,
    profile: Profile,
    auth: AuthView,
)
    requires
        tidy(b, limits),
    ensures
        tidy(attach_spec(b, limits, now, key, profile, auth).0, limits),
{
    reveal(attach_spec);
    let b1 = cleared(b, limits, now, key, profile, auth);
    lemma_cleared_tidy(b, limits, now, key, profile, auth);
    let b2 = opened(b1, limits, now, key, profile, auth).0;
    lemma_opened_tidy(b1, limits, now, key, profile, auth);
    let b3 = retried(b2, limits, now);
    lemma_retry_wills_steady(b2, limits, now, HOT_MAINTENANCE_BUDGET as nat);
    lemma_steady_tidy(b2, b3, limits);
    if let Some(i) = session_at(b3, key) {
        let incarnation = b3.sessions[i].incarnation;
        let c = cancel_resumed(b3, key, incarnation, now);
        lemma_cancel_resumed_steady(b3, limits, key, incarnation, now);
        lemma_steady_tidy(b3, c, limits);
        lemma_outline_positions(b3, c, key);
        let b4 = released(c, key);
        lemma_hole(c, limits, key);
        lemma_released(c, limits, key);
        let generation = next_generation(b4.generation);
        let b5 = BrokerView { generation, ..b4 };
        lemma_same_books(b4, b5, limits, Some(key));
        lemma_positions(b5, key);
        if let Some(i) = session_at(b5, key) {
            lemma_linked_tidy(b5, limits, now, i, generation, profile);
        }
    }
}

/// A connection that leaves: its session's deadline is due to be noted.
pub proof fn lemma_let_go_tidy(
    b: BrokerView,
    next: BrokerView,
    limits: Limits,
    key: KeyView,
    j: int,
    l: LinkView,
)
    requires
        tidy(b, limits),
        active_at(b, key) == Some(j),
        l == (LinkView { active: false, ..b.links[j] }),
        next == unmark(with_link(b, j, l), key),
    ensures
        tidy_but(next, limits, Some(key)),
{
    lemma_positions(b, key);
    let b0 = with_link(b, j, l);
    lemma_let_go(b, b0, j, l);
    lemma_frames_within(b.links, limits, j, l, 0);
    lemma_retained_same(b, b0);
    lemma_trie_same(b, b0);
    assert forall|other: KeyView| other != key implies #[trigger] held(b0, other) == held(
        b,
        other,
    ) && active_at(b0, other) is Some == active_at(b, other) is Some by {}
    lemma_exact_same(b, b0, limits, key);
    lemma_same_books(b0, next, limits, Some(key));
}

pub proof fn lemma_detach_tidy(
    b: BrokerView,
    limits: Limits,
    now: i64,
    key: KeyView,
    generation: u64,
    clean_session: bool,
)
    requires
        tidy(b, limits),
    ensures
        tidy(detach_spec(b, limits, now, key, generation, clean_session).0, limits),
{
    reveal(detach_spec);
    if owns(b, key, generation) {
        lemma_positions(b, key);
        let j = active_at(b, key)->0;
        let l = LinkView { active: false, ..b.links[j] };
        let b1 = unmark(with_link(b, j, l), key);
        lemma_let_go_tidy(b, b1, limits, key, j, l);
        lemma_positions(b1, key);
        lemma_reindexed(b1, limits, key);
        lemma_remove_session(b1, limits, key);
        if let Some(i) = session_at(b1, key) {
            lemma_unhanded(b1.sessions[i], disconnected(b1.sessions[i], now));
            lemma_put_tidy(b1, limits, i, disconnected(b1.sessions[i], now));
        }
        let b2 = match session_at(b1, key) {
            None => reindexed(b1, limits, key),
            Some(i) => {
                let s = b1.sessions[i];
                let given_up = if s.version == MqttVersion::V5 {
                    s.session_expiry_interval == 0
                } else {
                    clean_session
                };
                if given_up {
                    remove_session(b1, limits, key)
                } else {
                    put_session(b1, limits, i, disconnected(s, now))
                }
            },
        };
        lemma_drive_steady(b2, limits, now);
        lemma_steady_tidy(b2, drive(b2, limits, now).0, limits);
    }
}

} // verus!
