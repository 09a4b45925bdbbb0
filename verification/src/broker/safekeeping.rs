//! A broker in which everything fits together comes back from its image.
use super::model::{will_count, BrokerView};
use super::restore::{
    all_unclaimed, broker_image, by_topic, ordered, ordered_session, ordered_sessions, snapshot_of,
    snapshot_session, snapshot_sessions,
};
use super::state::{PendingWill, RetainedMessage};
use super::tidy::{
    answered_within, numbers_within, retained_tidy, share_within, shares_within, tidy, topic_of,
};
use super::slots::{claims_count, retained_numbers_within, slots};
use super::weight::is_second;
use crate::error::Error;
use crate::limits::Limits;
use crate::list::{count, distinct};
use crate::recovery::image::{decode_image, ImageView};
use crate::recovery::law::{law_recovery_round_trip, session_kept, snapshot_kept, topic_key};
use crate::recovery::message::message_kept;
use crate::recovery::record::{
    inbound_kept, outbound_kept, retained_kept, session_meta_kept, subscription_kept, will_kept,
};
use crate::recovery::snapshot::recovered;
use crate::recovery::sort::{insert_by, law_sort_keeps, rank, sort_by};
use crate::session::{
    inbound_key, is_qos2, session_ok, sub_key, InboundEntry, OutboundView, SessionView,
    StoredSession, Subscription,
};
use vstd::prelude::*;

verus! {

/// What a session holds is what reading accepts: its identifiers, its filters and its messages.
pub open spec fn session_readable(s: SessionView, limits: Limits) -> bool {
    &&& session_meta_kept(s, limits)
    &&& forall|i: int|
        0 <= i < s.subscriptions.len() ==> subscription_kept(
            (#[trigger] s.subscriptions[i]).0,
            s.subscriptions[i].1,
            limits,
        )
    &&& forall|i: int|
        0 <= i < s.offline.len() ==> message_kept(#[trigger] s.offline[i], limits) && (
        s.offline[i].qos == 1 || s.offline[i].qos == 2)
    &&& forall|i: int| 0 <= i < s.inbound.len() ==> inbound_kept(#[trigger] s.inbound[i], limits)
    &&& forall|i: int| 0 <= i < s.outbound.len() ==> outbound_kept(#[trigger] s.outbound[i], limits)
}

/// What the broker holds is what reading accepts.
pub open spec fn readable(b: BrokerView, limits: Limits) -> bool {
    &&& forall|i: int|
        0 <= i < b.sessions.len() ==> session_readable(#[trigger] b.sessions[i], limits)
    &&& forall|i: int|
        0 <= i < b.pending_wills.len() ==> will_kept(#[trigger] b.pending_wills[i], limits)
    &&& forall|i: int|
        0 <= i < b.future_wills.len() ==> will_kept(#[trigger] b.future_wills[i], limits)
    &&& forall|i: int|
        0 <= i < b.retained.len() ==> retained_kept(#[trigger] b.retained[i], limits)
}

/// Whatever stands in a sorted list stood in the list.
proof fn lemma_sorted_from<T>(s: Seq<T>, before: spec_fn(T, T) -> bool)
    ensures
        sort_by(s, before).len() == s.len(),
        forall|i: int| 0 <= i < s.len() ==> s.contains(#[trigger] sort_by(s, before)[i]),
{
    broadcast use vstd::seq_lib::group_to_multiset_ensures;

    law_sort_keeps(s, before);
    let t = sort_by(s, before);
    assert forall|i: int| 0 <= i < s.len() implies s.contains(#[trigger] t[i]) by {
        assert(t.contains(t[i]));
        assert(t.to_multiset().count(t[i]) > 0);
    }
}

proof fn lemma_inserted_apart<T, K>(
    s: Seq<T>,
    x: T,
    before: spec_fn(T, T) -> bool,
    key: spec_fn(T) -> K,
)
    requires
        distinct(s, key),
        forall|i: int| 0 <= i < s.len() ==> key(#[trigger] s[i]) != key(x),
    ensures
        distinct(insert_by(s, x, before), key),
        forall|i: int|
            0 <= i < insert_by(s, x, before).len() ==> (#[trigger] insert_by(s, x, before)[i]) == x
                || s.contains(insert_by(s, x, before)[i]),
    decreases s.len(),
{
    let t = insert_by(s, x, before);
    if s.len() == 0 || !before(x, s.last()) {
        assert forall|i: int| 0 <= i < t.len() implies (#[trigger] t[i]) == x || s.contains(t[i]) by {
            if i < s.len() {
                assert(t[i] == s[i]);
            }
        }
    } else {
        let front = s.drop_last();
        let less = insert_by(front, x, before);
        assert forall|i: int, j: int|
            0 <= i < front.len() && 0 <= j < front.len() && i != j implies key(
            #[trigger] front[i],
        ) != key(#[trigger] front[j]) by {
            assert(key(s[i]) != key(s[j]));
        }
        assert forall|i: int| 0 <= i < front.len() implies key(#[trigger] front[i]) != key(x) by {
            assert(s[i] == front[i]);
        }
        lemma_inserted_apart(front, x, before, key);
        assert forall|i: int| 0 <= i < less.len() implies key(#[trigger] less[i]) != key(
            s.last(),
        ) by {
            if less[i] != x {
                let j = front.index_of(less[i]);
                assert(front[j] == less[i]);
                assert(key(s[j]) != key(s[s.len() - 1]));
            } else {
                assert(key(s[s.len() - 1]) != key(x));
            }
        }
        assert forall|i: int, j: int|
            0 <= i < t.len() && 0 <= j < t.len() && i != j implies key(#[trigger] t[i]) != key(
            #[trigger] t[j],
        ) by {
            if i < less.len() && j < less.len() {
                assert(key(less[i]) != key(less[j]));
            } else if i < less.len() {
                assert(key(less[i]) != key(s.last()));
            } else {
                assert(key(less[j]) != key(s.last()));
            }
        }
        assert forall|i: int| 0 <= i < t.len() implies (#[trigger] t[i]) == x || s.contains(t[i]) by {
            if i < less.len() {
                assert(t[i] == less[i]);
                if t[i] != x {
                    let j = front.index_of(less[i]);
                    assert(s[j] == t[i]);
                }
            } else {
                assert(s[s.len() - 1] == t[i]);
            }
        }
    }
}

/// Sorting tells apart what was told apart.
proof fn lemma_sorted_apart<T, K>(s: Seq<T>, before: spec_fn(T, T) -> bool, key: spec_fn(T) -> K)
    requires
        distinct(s, key),
    ensures
        distinct(sort_by(s, before), key),
    decreases s.len(),
{
    if s.len() > 0 {
        let front = s.drop_last();
        assert forall|i: int, j: int|
            0 <= i < front.len() && 0 <= j < front.len() && i != j implies key(
            #[trigger] front[i],
        ) != key(#[trigger] front[j]) by {
            assert(key(s[i]) != key(s[j]));
        }
        lemma_sorted_apart(front, before, key);
        lemma_sorted_from(front, before);
        let t = sort_by(front, before);
        assert forall|i: int| 0 <= i < t.len() implies key(#[trigger] t[i]) != key(s.last()) by {
            let j = front.index_of(t[i]);
            assert(front[j] == t[i]);
            assert(key(s[j]) != key(s[s.len() - 1]));
        }
        lemma_inserted_apart(t, s.last(), before, key);
    }
}

/// Every exchange that reading accepts is for a message of its own quality of service.
proof fn lemma_all_second(s: Seq<OutboundView>, limits: Limits)
    requires
        forall|i: int| 0 <= i < s.len() ==> outbound_kept(#[trigger] s[i], limits),
    ensures
        count(s, is_qos2()) == count(s, is_second()),
    decreases s.len(),
{
    if s.len() > 0 {
        assert(outbound_kept(s[s.len() - 1], limits));
        lemma_all_second(s.drop_last(), limits);
    }
}

proof fn lemma_session_kept(s: SessionView, limits: Limits)
    requires
        session_ok(s),
        share_within(s, limits),
        session_readable(s, limits),
    ensures
        session_kept(ordered_session(snapshot_session(s)), limits),
{
    let r = ordered_session(snapshot_session(s));
    let t = r.session;
    let subs = rank::<(String, Subscription)>();
    let entries = rank::<InboundEntry>();
    let inbound = all_unclaimed(s.inbound);
    lemma_sorted_from(s.subscriptions, subs);
    lemma_sorted_apart(s.subscriptions, subs, sub_key());
    assert forall|i: int, j: int|
        0 <= i < inbound.len() && 0 <= j < inbound.len() && i != j implies inbound_key()(
        #[trigger] inbound[i],
    ) != inbound_key()(#[trigger] inbound[j]) by {
        assert(inbound_key()(s.inbound[i]) != inbound_key()(s.inbound[j]));
    }
    lemma_sorted_from(inbound, entries);
    lemma_sorted_apart(inbound, entries, inbound_key());
    lemma_all_second(s.outbound, limits);
    assert forall|i: int| 0 <= i < t.subscriptions.len() implies subscription_kept(
        (#[trigger] t.subscriptions[i]).0,
        t.subscriptions[i].1,
        limits,
    ) by {
        let j = s.subscriptions.index_of(t.subscriptions[i]);
        assert(s.subscriptions[j] == t.subscriptions[i]);
    }
    assert forall|i: int| 0 <= i < t.inbound.len() implies inbound_kept(
        #[trigger] t.inbound[i],
        limits,
    ) by {
        let j = inbound.index_of(t.inbound[i]);
        assert(inbound[j] == t.inbound[i]);
        assert(inbound_kept(s.inbound[j], limits));
    }
}

/// Where everything fits together, and what is held is what reading accepts, an image can give
/// the whole of it back once every will that counts is the broker's own: nothing occurs twice,
/// and nothing is more than reading allows.
pub proof fn law_snapshot_can_be_read_back(b: BrokerView, limits: Limits)
    requires
        tidy(b, limits),
        forall|i: int| 0 <= i < b.sessions.len() ==> session_ok(#[trigger] b.sessions[i]),
        readable(b, limits),
        will_count(b, None) == b.pending_wills.len() + b.future_wills.len(),
    ensures
        snapshot_kept(ordered(snapshot_of(b)), limits),
{
    let snapshot = ordered(snapshot_of(b));
    let listed = ordered_sessions(snapshot_sessions(b.sessions));
    let topics = by_topic(b.retained);
    lemma_sorted_from(listed, rank::<StoredSession>());
    lemma_sorted_from(topics, rank::<(String, RetainedMessage)>());
    lemma_sorted_from(b.future_wills, rank::<PendingWill>());
    assert(snapshot.sessions.len() <= limits.max_persistent_sessions) by {
        reveal(numbers_within);
    }
    assert(snapshot.wills.len() <= limits.max_connections) by {
        reveal(answered_within);
    }
    assert(snapshot.retained.len() <= limits.max_retained_messages) by {
        reveal(retained_numbers_within);
        assert(claims_count(slots(b), None) + b.retained.len() <= limits.max_retained_messages);
    }
    assert forall|i: int| 0 <= i < snapshot.sessions.len() implies session_kept(
        #[trigger] snapshot.sessions[i],
        limits,
    ) by {
        let j = listed.index_of(snapshot.sessions[i]);
        assert(listed[j] == snapshot.sessions[i]);
        let s = b.sessions[j];
        assert(share_within(s, limits)) by {
            reveal(shares_within);
        }
        assert(session_ok(s) && session_readable(s, limits));
        lemma_session_kept(s, limits);
    }
    assert forall|i: int| 0 <= i < snapshot.wills.len() implies will_kept(
        #[trigger] snapshot.wills[i],
        limits,
    ) by {
        if i < b.pending_wills.len() {
            assert(snapshot.wills[i] == b.pending_wills[i]);
        } else {
            let w = sort_by(b.future_wills, rank::<PendingWill>())[i - b.pending_wills.len()];
            assert(snapshot.wills[i] == w);
            let j = b.future_wills.index_of(w);
            assert(b.future_wills[j] == w);
        }
    }
    assert forall|i: int| 0 <= i < snapshot.retained.len() implies retained_kept(
        (#[trigger] snapshot.retained[i]).1,
        limits,
    ) && snapshot.retained[i].0 == snapshot.retained[i].1.message.topic by {
        let j = topics.index_of(snapshot.retained[i]);
        assert(topics[j] == snapshot.retained[i]);
        assert(retained_kept(b.retained[j], limits));
    }
    assert(distinct(topics, topic_key())) by {
        reveal(retained_tidy);
        assert forall|i: int, j: int|
            0 <= i < topics.len() && 0 <= j < topics.len() && i != j implies topic_key()(
            #[trigger] topics[i],
        ) != topic_key()(#[trigger] topics[j]) by {
            assert(topic_of()(b.retained[i]) != topic_of()(b.retained[j]));
        }
    }
    lemma_sorted_apart(topics, rank::<(String, RetainedMessage)>(), topic_key());
}

/// The image of a broker in which everything fits together gives back what the broker holds, if
/// that is what reading accepts.
pub proof fn law_image_gives_the_broker_back(b: BrokerView, limits: Limits)
    requires
        tidy(b, limits),
        forall|i: int| 0 <= i < b.sessions.len() ==> session_ok(#[trigger] b.sessions[i]),
        readable(b, limits),
        broker_image(b, limits) is Ok,
    ensures
        decode_image(broker_image(b, limits)->Ok_0, limits) == Ok::<ImageView, Error>(
            ImageView::Snapshot(recovered(ordered(snapshot_of(b)))),
        ),
{
    law_snapshot_can_be_read_back(b, limits);
    law_recovery_round_trip(ordered(snapshot_of(b)), limits);
}

} // verus!
