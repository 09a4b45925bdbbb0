//! What connections keep when a snapshot takes the place of the broker's state.
use super::history::law_restored_broker_is_tidy;
use super::law::law_will_is_settled_once;
use super::model::{
    active_at, active_is, empty_broker, guard_at, guard_is, guard_wills, link_at, link_is,
    link_used, will_count, will_in, will_reserved_bytes, will_reserved_count, BrokerView, GuardView,
    LinkView, RetainedView, WillView, HOT_MAINTENANCE_BUDGET,
};
use super::restore::{
    admit_session, all_cut_off, all_unbacked, cut_off, put_in_place, reserve_entries, reserve_entry,
    reserve_sessions, restore_message, restore_messages, restore_sessions, restore_will,
    restore_wills, restored, restored_parts, unbacked,
};
use super::flow::lemma_retry_wills_steady;
use super::service::received;
use super::slots::{
    claims_bytes, claims_count, retained_numbers_within, retained_shares_within, slots, taken_bytes,
    taken_count,
};
use super::tidy::{
    exact_but, frames_within, guard_token, guards_tidy, indexed, lemma_wills_kept, links_tidy,
    same_outline, tidy, wills_no_more,
};
use super::turnover::{held, lemma_retained_same, lemma_trie_same};
use super::wills::{hold_will, settle_will};
use crate::identity::{DeviceView, KeyView};
use crate::limits::Limits;
use crate::list::{is_first, lemma_first, lemma_first_is, lemma_first_none, total};
use crate::message::MessageView;
use crate::recovery::snapshot::{RecordedView, SnapshotView};
use vstd::prelude::*;

verus! {

/// Neither connections nor held wills come or go.
spec fn same_holders(b: BrokerView, next: BrokerView) -> bool {
    next.links == b.links && next.guards == b.guards
}

proof fn lemma_sessions_hold(
    b: BrokerView,
    limits: Limits,
    now: i64,
    version: u32,
    sessions: Seq<RecordedView>,
)
    ensures
        restore_sessions(b, limits, now, version, sessions) matches Ok(next) ==> same_holders(
            b,
            next,
        ),
    decreases sessions.len(),
{
    if sessions.len() > 0 {
        lemma_sessions_hold(b, limits, now, version, sessions.drop_last());
        reveal(admit_session);
    }
}

proof fn lemma_messages_hold(
    b: BrokerView,
    limits: Limits,
    now: i64,
    retained: Seq<(Seq<char>, RetainedView)>,
)
    ensures
        restore_messages(b, limits, now, retained) matches Ok(next) ==> same_holders(b, next),
    decreases retained.len(),
{
    if retained.len() > 0 {
        lemma_messages_hold(b, limits, now, retained.drop_last());
        reveal(restore_message);
    }
}

proof fn lemma_wills_hold(b: BrokerView, limits: Limits, now: i64, wills: Seq<WillView>)
    ensures
        restore_wills(b, limits, now, wills) matches Ok(next) ==> same_holders(b, next),
    decreases wills.len(),
{
    if wills.len() > 0 {
        lemma_wills_hold(b, limits, now, wills.drop_last());
        reveal(restore_will);
    }
}

proof fn lemma_entries_hold(b: BrokerView, limits: Limits, i: int, k: int)
    ensures
        reserve_entries(b, limits, i, k) matches Ok(next) ==> same_holders(b, next),
    decreases b.sessions[i].inbound.len() - k,
{
    if k < b.sessions[i].inbound.len() {
        reveal(reserve_entry);
        if let Ok(next) = reserve_entry(b, limits, i, k) {
            if next.sessions[i].inbound.len() == b.sessions[i].inbound.len() {
                lemma_entries_hold(next, limits, i, k + 1);
            }
        }
    }
}

proof fn lemma_reservations_hold(b: BrokerView, limits: Limits, i: int)
    ensures
        reserve_sessions(b, limits, i) matches Ok(next) ==> same_holders(b, next),
    decreases b.sessions.len() - i,
{
    if i < b.sessions.len() {
        lemma_entries_hold(b, limits, i, 0);
        if let Ok(next) = reserve_entries(b, limits, i, 0) {
            if next.sessions.len() == b.sessions.len() {
                lemma_reservations_hold(next, limits, i + 1);
            }
        }
    }
}

/// A state that was restored has no connections.
proof fn lemma_restored_alone(limits: Limits, now: i64, snapshot: SnapshotView)
    ensures
        restored(limits, now, snapshot) matches Ok(b) ==> b.links.len() == 0,
{
    reveal(restored);
    reveal(restored_parts);
    let start = BrokerView { generation: snapshot.generation, ..empty_broker() };
    let version = snapshot.format_version;
    lemma_sessions_hold(start, limits, now, version, snapshot.sessions);
    if let Ok(b1) = restore_sessions(start, limits, now, version, snapshot.sessions) {
        lemma_messages_hold(b1, limits, now, snapshot.retained);
        if let Ok(b2) = restore_messages(b1, limits, now, snapshot.retained) {
            lemma_wills_hold(b2, limits, now, snapshot.wills);
            if let Ok(b3) = restore_wills(b2, limits, now, snapshot.wills) {
                lemma_reservations_hold(b3, limits, 0);
                if let Ok(b4) = reserve_sessions(b3, limits, 0) {
                    lemma_retry_wills_steady(b4, limits, now, HOT_MAINTENANCE_BUDGET as nat);
                    reveal(same_outline);
                }
            }
        }
    }
}

proof fn lemma_cut_off_used(links: Seq<LinkView>, scope: Option<Seq<char>>)
    ensures
        total(all_cut_off(links), link_used(scope)) <= total(links, link_used(scope)),
    decreases links.len(),
{
    if links.len() > 0 {
        lemma_cut_off_used(links.drop_last(), scope);
        assert(all_cut_off(links).drop_last() =~= all_cut_off(links.drop_last()));
        assert(all_cut_off(links).last() == cut_off(links.last()));
    }
}

proof fn lemma_unbacked_claims(guards: Seq<GuardView>, scope: Option<Seq<char>>)
    ensures
        total(guard_wills(all_unbacked(guards)), will_reserved_count(scope)) == 0,
        total(guard_wills(all_unbacked(guards)), will_reserved_bytes(scope)) == 0,
    decreases guards.len(),
{
    let wills = guard_wills(all_unbacked(guards));
    if guards.len() > 0 {
        lemma_unbacked_claims(guards.drop_last(), scope);
        assert(wills.drop_last() =~= guard_wills(all_unbacked(guards.drop_last())));
        assert(wills.last() == unbacked(guards.last()).will);
    }
}

proof fn lemma_placed_slots(before: BrokerView, b: BrokerView, limits: Limits)
    ensures
        retained_shares_within(slots(b), limits) ==> retained_shares_within(
            slots(put_in_place(before, b)),
            limits,
        ),
        retained_numbers_within(slots(b), limits) ==> retained_numbers_within(
            slots(put_in_place(before, b)),
            limits,
        ),
{
    let next = put_in_place(before, b);
    reveal(retained_shares_within);
    reveal(retained_numbers_within);
    assert forall|scope: Option<Seq<char>>|
        #![trigger claims_count(slots(next), scope)]
        #![trigger claims_bytes(slots(next), scope)]
        claims_count(slots(next), scope) <= claims_count(slots(b), scope) && claims_bytes(
            slots(next),
            scope,
        ) <= claims_bytes(slots(b), scope) && taken_count(slots(next), scope) == taken_count(
            slots(b),
            scope,
        ) && taken_bytes(slots(next), scope) == taken_bytes(slots(b), scope) by {
        lemma_unbacked_claims(before.guards, scope);
    }
}

proof fn lemma_unbacked_answers(guards: Seq<GuardView>, scope: Option<Seq<char>>)
    ensures
        total(guard_wills(all_unbacked(guards)), will_in(scope)) == 0,
    decreases guards.len(),
{
    let wills = guard_wills(all_unbacked(guards));
    if guards.len() > 0 {
        lemma_unbacked_answers(guards.drop_last(), scope);
        assert(wills.drop_last() =~= guard_wills(all_unbacked(guards.drop_last())));
        assert(wills.last() == unbacked(guards.last()).will);
    }
}

proof fn lemma_placed_wills(before: BrokerView, b: BrokerView)
    ensures
        wills_no_more(b, put_in_place(before, b)),
{
    let next = put_in_place(before, b);
    assert forall|scope: Option<Seq<char>>| #[trigger]
        will_count(next, scope) <= will_count(b, scope) by {
        lemma_unbacked_answers(before.guards, scope);
    }
}

proof fn lemma_placed_frames(links: Seq<LinkView>, limits: Limits)
    requires
        frames_within(links, limits),
    ensures
        frames_within(all_cut_off(links), limits),
{
    reveal(frames_within);
    let next = all_cut_off(links);
    assert forall|j: int| 0 <= j < next.len() implies (#[trigger] next[j]).queue.len()
        <= limits.max_outbound_messages_per_connection && next[j].used
        <= limits.max_outbound_bytes_per_connection by {
        assert(links[j].queue.len() <= limits.max_outbound_messages_per_connection);
    }
    assert forall|tenant: Seq<char>|
        total(next, #[trigger] link_used(Some(tenant))) <= limits.max_outbound_bytes_per_tenant by {
        lemma_cut_off_used(links, Some(tenant));
        assert(total(links, link_used(Some(tenant))) <= limits.max_outbound_bytes_per_tenant);
    }
    lemma_cut_off_used(links, None);
}

proof fn lemma_placed_guards(guards: Seq<GuardView>, next_guard: u64)
    requires
        guards_tidy(guards, next_guard),
    ensures
        guards_tidy(all_unbacked(guards), next_guard),
{
    reveal(guards_tidy);
    let next = all_unbacked(guards);
    assert forall|i: int, j: int|
        0 <= i < next.len() && 0 <= j < next.len() && i != j implies guard_token()(
        #[trigger] next[i],
    ) != guard_token()(#[trigger] next[j]) by {
        assert(guard_token()(guards[i]) != guard_token()(guards[j]));
    }
    assert forall|k: int| 0 <= k < next.len() implies (#[trigger] next[k]).token < next_guard by {
        assert(guards[k].token < next_guard);
    }
}

/// Everything still fits together after a snapshot has taken the place of the broker's state,
/// whatever connections held of the old one.
pub proof fn law_restored_state_fits_what_is_held(
    before: BrokerView,
    limits: Limits,
    now: i64,
    snapshot: SnapshotView,
)
    requires
        tidy(before, limits),
    ensures
        restored(limits, now, snapshot) matches Ok(b) ==> tidy(put_in_place(before, b), limits),
{
    law_restored_broker_is_tidy(limits, now, snapshot);
    lemma_restored_alone(limits, now, snapshot);
    if let Ok(b) = restored(limits, now, snapshot) {
        let next = put_in_place(before, b);
        lemma_placed_slots(before, b, limits);
        lemma_placed_wills(before, b);
        lemma_wills_kept(b, next, limits);
        lemma_placed_frames(before.links, limits);
        lemma_placed_guards(before.guards, before.next_guard);
        lemma_retained_same(b, next);
        lemma_trie_same(b, next);
        assert(links_tidy(next)) by {
            reveal(links_tidy);
        }
        assert forall|key: KeyView| #[trigger] held(next, key) == held(b, key) && active_at(
            next,
            key,
        ) is Some == active_at(b, key) is Some by {
            lemma_first_none(b.links, active_is(key));
            lemma_first_none(next.links, active_is(key));
        }
        assert(exact_but(next, limits, None)) by {
            reveal(exact_but);
            assert forall|key: KeyView| #[trigger] indexed(next, limits, key) by {
                assert(indexed(b, limits, key));
                assert(held(next, key) == held(b, key));
            }
        }
    }
}

proof fn lemma_placed_at(before: BrokerView, b: BrokerView, token: u64, receiver: u64)
    ensures
        guard_at(put_in_place(before, b), token) == guard_at(before, token),
        link_at(put_in_place(before, b), receiver) == link_at(before, receiver),
{
    let next = put_in_place(before, b);
    lemma_first(before.guards, guard_is(token));
    lemma_first(before.links, link_is(receiver));
    match guard_at(before, token) {
        Some(k) => {
            assert forall|m: int| 0 <= m < k implies !guard_is(token)(#[trigger] next.guards[m]) by {
                assert(!guard_is(token)(before.guards[m]));
            }
            assert(is_first(next.guards, guard_is(token), k));
            lemma_first_is(next.guards, guard_is(token), k);
        },
        None => {
            assert forall|m: int| 0 <= m < next.guards.len() implies !guard_is(token)(
                #[trigger] next.guards[m],
            ) by {
                assert(!guard_is(token)(before.guards[m]));
            }
            lemma_first_none(next.guards, guard_is(token));
        },
    }
    match link_at(before, receiver) {
        Some(j) => {
            assert forall|m: int| 0 <= m < j implies !link_is(receiver)(#[trigger] next.links[m]) by {
                assert(!link_is(receiver)(before.links[m]));
            }
            assert(is_first(next.links, link_is(receiver), j));
            lemma_first_is(next.links, link_is(receiver), j);
        },
        None => {
            assert forall|m: int| 0 <= m < next.links.len() implies !link_is(receiver)(
                #[trigger] next.links[m],
            ) by {
                assert(!link_is(receiver)(before.links[m]));
            }
            lemma_first_none(next.links, link_is(receiver));
        },
    }
}

/// A will that a connection held before a snapshot took the place of the broker's state is still
/// held, with the same message for the same device, delayed and armed as it was. It is settled
/// into the new state, and only once.
pub proof fn law_held_will_outlives_a_restore(
    before: BrokerView,
    limits: Limits,
    restored_at: i64,
    snapshot: SnapshotView,
    now: i64,
    token: u64,
)
    requires
        tidy(before, limits),
        guard_at(before, token) is Some,
        restored(limits, restored_at, snapshot) is Ok,
    ensures
        ({
            let next = put_in_place(before, restored(limits, restored_at, snapshot)->Ok_0);
            let g = before.guards[guard_at(before, token)->0];
            let h = next.guards[guard_at(next, token)->0];
            &&& guard_at(next, token) is Some
            &&& h.will == (WillView {
                reservation: h.will.reservation,
                counted: h.will.counted,
                ..g.will
            })
            &&& h.delay == g.delay
            &&& h.armed == g.armed
            &&& settle_will(next, limits, now, token).1 is Ok
            &&& guard_at(settle_will(next, limits, now, token).0, token) is None
        }),
{
    let b = restored(limits, restored_at, snapshot)->Ok_0;
    let next = put_in_place(before, b);
    lemma_placed_at(before, b, token, 0);
    lemma_first(before.guards, guard_is(token));
    law_restored_state_fits_what_is_held(before, limits, restored_at, snapshot);
    assert(settle_will(next, limits, now, token).1 is Ok) by {
        reveal(settle_will);
    }
    law_will_is_settled_once(next, limits, now, token);
}

/// A will that comes to be held is told apart from every one that is held already, also from
/// those that were held before a snapshot took the place of the broker's state.
pub proof fn law_held_wills_are_told_apart(
    b: BrokerView,
    limits: Limits,
    owner: DeviceView,
    origin: Option<KeyView>,
    message: MessageView,
)
    requires
        tidy(b, limits),
    ensures
        hold_will(b, limits, owner, origin, message).1 matches Ok(token) ==> guard_at(
            b,
            token,
        ) is None,
{
    reveal(hold_will);
    reveal(guards_tidy);
    if let Ok(token) = hold_will(b, limits, owner, origin, message).1 {
        lemma_first(b.guards, guard_is(token));
    }
}

/// The frames that were queued for a connection before a snapshot took the place of the broker's
/// state are still there for it to take, in the same order.
pub proof fn law_queued_frames_outlive_a_restore(before: BrokerView, b: BrokerView, receiver: u64)
    ensures
        received(put_in_place(before, b), receiver).1 == received(before, receiver).1,
        received(put_in_place(before, b), receiver).0 == put_in_place(
            received(before, receiver).0,
            b,
        ),
{
    let next = put_in_place(before, b);
    lemma_placed_at(before, b, 0, receiver);
    lemma_first(before.links, link_is(receiver));
    if let Some(j) = link_at(before, receiver) {
        let l = before.links[j];
        if l.queue.len() > 0 {
            let taken = LinkView { queue: l.queue.remove(0), ..l };
            assert(next.links.update(j, cut_off(taken)) =~= all_cut_off(
                before.links.update(j, taken),
            ));
            assert(received(next, receiver).0 =~= put_in_place(received(before, receiver).0, b));
        }
    }
}

} // verus!
