//! What outlives a restart.
use super::attach::next_generation;
use super::model::{
    empty_broker, retained_at, retained_is, BrokerView, RetainedView, WillView,
    HOT_MAINTENANCE_BUDGET,
};
use super::restore::{
    admit_session, reserve_entries, reserve_entry, reserve_sessions, restore_message,
    restore_messages, restore_session, restore_sessions, restore_will, restore_wills, restored,
    restored_parts,
};
use super::revive::{current, lifetime_fate, revived, Fate};
use super::wills::retried;
use crate::limits::Limits;
use crate::list::lemma_first;
use crate::message::expired_spec;
use crate::recovery::snapshot::{inbound_all_after, RecordedView, SnapshotView};
use crate::session::{no_reservation, InboundView, SessionView};
use super::flow::lemma_retry_wills_steady;
use vstd::prelude::*;

verus! {

/// A session without the retained slots that are set aside for its received messages.
pub open spec fn bare(s: SessionView) -> SessionView {
    SessionView {
        inbound: Seq::new(
            s.inbound.len(),
            |k: int| InboundView { reservation: no_reservation(), ..s.inbound[k] },
        ),
        ..s
    }
}

/// A session is the recorded one: no connection holds it, deliveries that were under way start
/// anew, what has expired is gone, and everything else is as it was.
#[verifier::opaque]
pub open spec fn lives_on(s: SessionView, r: RecordedView, now: i64) -> bool {
    &&& r.session.incarnation != 0 ==> s.incarnation == r.session.incarnation
    &&& bare(s) == current(revived(r.session, s.incarnation), now)
}

/// A recorded session lasts beyond the restart.
pub open spec fn lasts(r: RecordedView, version: u32, now: i64) -> bool {
    lifetime_fate(r.session, version, now) == Fate::Keep
}

/// A recorded session is among the sessions.
pub open spec fn is_kept(sessions: Seq<SessionView>, r: RecordedView, now: i64) -> bool {
    exists|j: int| 0 <= j < sessions.len() && #[trigger] lives_on(sessions[j], r, now)
}

/// A session is among those recorded that last.
pub open spec fn was_recorded(
    recorded: Seq<RecordedView>,
    version: u32,
    s: SessionView,
    now: i64,
) -> bool {
    exists|i: int|
        0 <= i < recorded.len() && lasts(recorded[i], version, now) && #[trigger] lives_on(
            s,
            recorded[i],
            now,
        )
}

/// The sessions are the recorded ones that last.
pub open spec fn sessions_live_on(
    sessions: Seq<SessionView>,
    recorded: Seq<RecordedView>,
    version: u32,
    now: i64,
) -> bool {
    &&& forall|i: int|
        0 <= i < recorded.len() && lasts(recorded[i], version, now) ==> #[trigger] is_kept(
            sessions,
            recorded[i],
            now,
        )
    &&& forall|j: int|
        0 <= j < sessions.len() ==> #[trigger] was_recorded(recorded, version, sessions[j], now)
}

/// A retained message is among those recorded that have not expired.
pub open spec fn was_retained(
    recorded: Seq<(Seq<char>, RetainedView)>,
    r: RetainedView,
    now: i64,
) -> bool {
    exists|i: int|
        0 <= i < recorded.len() && !expired_spec(r.message, now) && (#[trigger] recorded[i]).1 == r
}

/// The retained messages are the recorded ones that have not expired.
pub open spec fn retained_live_on(
    retained: Seq<RetainedView>,
    recorded: Seq<(Seq<char>, RetainedView)>,
    now: i64,
) -> bool {
    &&& forall|i: int|
        0 <= i < recorded.len() && !expired_spec((#[trigger] recorded[i]).1.message, now)
            ==> retained.contains(recorded[i].1)
    &&& forall|j: int|
        0 <= j < retained.len() ==> #[trigger] was_retained(recorded, retained[j], now)
}

/// A recorded will is among those that the broker answers for.
pub open spec fn is_held(wills: Seq<WillView>, r: WillView) -> bool {
    exists|j: int|
        0 <= j < wills.len() && #[trigger] wills[j] == (WillView {
            reservation: wills[j].reservation,
            counted: true,
            ..r
        })
}

/// The wills that are tried or wait are the recorded ones that have not expired.
pub open spec fn wills_live_on(b: BrokerView, recorded: Seq<WillView>, now: i64) -> bool {
    &&& forall|i: int|
        0 <= i < recorded.len() && !expired_spec(recorded[i].message, now) ==> #[trigger] is_held(
            b.pending_wills,
            recorded[i],
        ) || is_held(b.future_wills, recorded[i])
    &&& b.pending_wills.len() + b.future_wills.len() <= recorded.len()
}

proof fn lemma_bare(s: SessionView, incarnation: u64, now: i64)
    ensures
        bare(current(revived(s, incarnation), now)) == current(revived(s, incarnation), now),
{
    let t = current(revived(s, incarnation), now);
    assert(t.inbound =~= inbound_all_after(s.inbound));
    assert(bare(t).inbound =~= t.inbound);
}

proof fn lemma_kept_on(sessions: Seq<SessionView>, t: SessionView, r: RecordedView, now: i64)
    ensures
        is_kept(sessions, r, now) || lives_on(t, r, now) ==> is_kept(sessions.push(t), r, now),
{
    let next = sessions.push(t);
    if is_kept(sessions, r, now) {
        let j = choose|j: int| 0 <= j < sessions.len() && #[trigger] lives_on(sessions[j], r, now);
        assert(lives_on(next[j], r, now));
    } else if lives_on(t, r, now) {
        assert(lives_on(next[sessions.len() as int], r, now));
    }
}

proof fn lemma_recorded_on(
    recorded: Seq<RecordedView>,
    version: u32,
    s: SessionView,
    now: i64,
)
    requires
        recorded.len() > 0,
        was_recorded(recorded.drop_last(), version, s, now) || lasts(recorded.last(), version, now)
            && lives_on(s, recorded.last(), now),
    ensures
        was_recorded(recorded, version, s, now),
{
    let front = recorded.drop_last();
    if was_recorded(front, version, s, now) {
        let i = choose|i: int|
            0 <= i < front.len() && lasts(front[i], version, now) && #[trigger] lives_on(
                s,
                front[i],
                now,
            );
        assert(lives_on(s, recorded[i], now));
    } else {
        assert(lives_on(s, recorded[recorded.len() - 1], now));
    }
}

/// One more recorded session that lasts.
proof fn lemma_one_lives_on(
    sessions: Seq<SessionView>,
    t: SessionView,
    recorded: Seq<RecordedView>,
    version: u32,
    now: i64,
)
    requires
        recorded.len() > 0,
        sessions_live_on(sessions, recorded.drop_last(), version, now),
        lasts(recorded.last(), version, now),
        lives_on(t, recorded.last(), now),
    ensures
        sessions_live_on(sessions.push(t), recorded, version, now),
{
    let front = recorded.drop_last();
    let next = sessions.push(t);
    assert forall|i: int|
        0 <= i < recorded.len() && lasts(recorded[i], version, now) implies #[trigger] is_kept(
        next,
        recorded[i],
        now,
    ) by {
        if i < front.len() {
            assert(is_kept(sessions, front[i], now));
        }
        lemma_kept_on(sessions, t, recorded[i], now);
    }
    assert forall|j: int| 0 <= j < next.len() implies #[trigger] was_recorded(
        recorded,
        version,
        next[j],
        now,
    ) by {
        if j < sessions.len() {
            assert(was_recorded(front, version, sessions[j], now));
        }
        lemma_recorded_on(recorded, version, next[j], now);
    }
}

/// One more recorded session that does not last.
proof fn lemma_one_is_gone(
    sessions: Seq<SessionView>,
    recorded: Seq<RecordedView>,
    version: u32,
    now: i64,
)
    requires
        recorded.len() > 0,
        sessions_live_on(sessions, recorded.drop_last(), version, now),
        !lasts(recorded.last(), version, now),
    ensures
        sessions_live_on(sessions, recorded, version, now),
{
    let front = recorded.drop_last();
    assert forall|i: int|
        0 <= i < recorded.len() && lasts(recorded[i], version, now) implies #[trigger] is_kept(
        sessions,
        recorded[i],
        now,
    ) by {
        assert(is_kept(sessions, front[i], now));
    }
    assert forall|j: int| 0 <= j < sessions.len() implies #[trigger] was_recorded(
        recorded,
        version,
        sessions[j],
        now,
    ) by {
        assert(was_recorded(front, version, sessions[j], now));
        lemma_recorded_on(recorded, version, sessions[j], now);
    }
}

/// A recorded session that is let in.
proof fn lemma_admitted_lives_on(b: BrokerView, limits: Limits, now: i64, r: RecordedView)
    ensures
        admit_session(b, limits, now, r) matches Ok(next) ==> {
            &&& next.sessions.len() == b.sessions.len() + 1
            &&& next.sessions == b.sessions.push(next.sessions.last())
            &&& lives_on(next.sessions.last(), r, now)
            &&& next.retained == b.retained
            &&& next.shadowed == b.shadowed
            &&& next.pending_wills == b.pending_wills
            &&& next.future_wills == b.future_wills
        },
{
    reveal(admit_session);
    reveal(lives_on);
    let incarnation = if r.session.incarnation == 0 {
        next_generation(b.generation)
    } else {
        r.session.incarnation
    };
    lemma_bare(r.session, incarnation, now);
}

proof fn lemma_sessions_live_on(
    b: BrokerView,
    limits: Limits,
    now: i64,
    version: u32,
    recorded: Seq<RecordedView>,
)
    requires
        b.sessions.len() == 0,
    ensures
        restore_sessions(b, limits, now, version, recorded) matches Ok(next) ==> sessions_live_on(
            next.sessions,
            recorded,
            version,
            now,
        ) && next.retained == b.retained && next.shadowed == b.shadowed && next.pending_wills
            == b.pending_wills && next.future_wills == b.future_wills,
    decreases recorded.len(),
{
    if recorded.len() > 0 {
        let front = recorded.drop_last();
        let r = recorded.last();
        lemma_sessions_live_on(b, limits, now, version, front);
        if let Ok(before) = restore_sessions(b, limits, now, version, front) {
            if let Ok(next) = restore_session(before, limits, now, version, r) {
                if lasts(r, version, now) {
                    lemma_admitted_lives_on(before, limits, now, r);
                    lemma_one_lives_on(
                        before.sessions,
                        next.sessions.last(),
                        recorded,
                        version,
                        now,
                    );
                } else {
                    lemma_one_is_gone(before.sessions, recorded, version, now);
                }
            }
        }
    }
}

/// Slots that are set aside change nothing else of the sessions.
spec fn same_but_slots(b: BrokerView, next: BrokerView) -> bool {
    &&& next == BrokerView { sessions: next.sessions, ..b }
    &&& next.sessions.len() == b.sessions.len()
    &&& forall|j: int|
        0 <= j < b.sessions.len() ==> bare(#[trigger] next.sessions[j]) == bare(b.sessions[j])
}

proof fn lemma_reserve_entry(b: BrokerView, limits: Limits, i: int, k: int)
    requires
        0 <= i < b.sessions.len(),
        0 <= k < b.sessions[i].inbound.len(),
    ensures
        reserve_entry(b, limits, i, k) matches Ok(next) ==> same_but_slots(b, next),
{
    reveal(reserve_entry);
    if let Ok(next) = reserve_entry(b, limits, i, k) {
        assert forall|j: int| 0 <= j < b.sessions.len() implies bare(
            #[trigger] next.sessions[j],
        ) == bare(b.sessions[j]) by {
            assert(bare(next.sessions[j]).inbound =~= bare(b.sessions[j]).inbound);
        }
    }
}

proof fn lemma_reserve_entries(b: BrokerView, limits: Limits, i: int, k: int)
    requires
        0 <= i < b.sessions.len(),
        0 <= k,
    ensures
        reserve_entries(b, limits, i, k) matches Ok(next) ==> same_but_slots(b, next),
    decreases b.sessions[i].inbound.len() - k,
{
    if k < b.sessions[i].inbound.len() {
        lemma_reserve_entry(b, limits, i, k);
        if let Ok(next) = reserve_entry(b, limits, i, k) {
            if next.sessions[i].inbound.len() == b.sessions[i].inbound.len() {
                lemma_reserve_entries(next, limits, i, k + 1);
                if let Ok(last) = reserve_entries(next, limits, i, k + 1) {
                    lemma_slots_trans(b, next, last);
                }
            }
        }
    }
}

proof fn lemma_slots_trans(a: BrokerView, b: BrokerView, c: BrokerView)
    requires
        same_but_slots(a, b),
        same_but_slots(b, c),
    ensures
        same_but_slots(a, c),
{
    assert forall|j: int| 0 <= j < a.sessions.len() implies bare(#[trigger] c.sessions[j]) == bare(
        a.sessions[j],
    ) by {
        assert(bare(b.sessions[j]) == bare(a.sessions[j]));
    }
}

proof fn lemma_reserve_sessions(b: BrokerView, limits: Limits, i: int)
    requires
        0 <= i,
    ensures
        reserve_sessions(b, limits, i) matches Ok(next) ==> same_but_slots(b, next),
    decreases b.sessions.len() - i,
{
    if i < b.sessions.len() {
        lemma_reserve_entries(b, limits, i, 0);
        if let Ok(next) = reserve_entries(b, limits, i, 0) {
            if next.sessions.len() == b.sessions.len() {
                lemma_reserve_sessions(next, limits, i + 1);
                if let Ok(last) = reserve_sessions(next, limits, i + 1) {
                    lemma_slots_trans(b, next, last);
                }
            }
        }
    }
}

proof fn lemma_retained_live_on(
    b: BrokerView,
    limits: Limits,
    now: i64,
    recorded: Seq<(Seq<char>, RetainedView)>,
)
    requires
        b.retained.len() == 0,
        forall|i: int, j: int|
            0 <= i < j < recorded.len() ==> (#[trigger] recorded[i]).0 != (
            #[trigger] recorded[j]).0,
    ensures
        restore_messages(b, limits, now, recorded) matches Ok(next) ==> {
            &&& retained_live_on(next.retained, recorded, now)
            &&& forall|i: int|
                0 <= i < recorded.len() ==> (#[trigger] recorded[i]).1.message.topic
                    == recorded[i].0
            &&& next.sessions == b.sessions
            &&& next.shadowed == b.shadowed
            &&& next.pending_wills == b.pending_wills
            &&& next.future_wills == b.future_wills
        },
    decreases recorded.len(),
{
    if recorded.len() > 0 {
        let front = recorded.drop_last();
        let (topic, r) = recorded.last();
        lemma_retained_live_on(b, limits, now, front);
        if let (Ok(before), Ok(next)) = (
            restore_messages(b, limits, now, front),
            restore_messages(b, limits, now, recorded),
        ) {
            reveal(restore_message);
            if !expired_spec(r.message, now) {
                lemma_first(before.retained, retained_is(topic));
                if let Some(m) = retained_at(before, topic) {
                    assert(was_retained(front, before.retained[m], now));
                    let i = choose|i: int|
                        0 <= i < front.len() && (#[trigger] front[i]).1 == before.retained[m];
                    assert(front[i].0 == recorded[i].0);
                    assert(recorded[i].0 != recorded[recorded.len() - 1].0);
                }
                assert(next.retained == before.retained.push(r));
            }
            assert forall|i: int|
                0 <= i < recorded.len() && !expired_spec(
                    (#[trigger] recorded[i]).1.message,
                    now,
                ) implies next.retained.contains(recorded[i].1) by {
                if i < front.len() {
                    assert(front[i] == recorded[i]);
                    let j = choose|j: int|
                        0 <= j < before.retained.len() && before.retained[j] == front[i].1;
                    assert(next.retained[j] == front[i].1);
                } else {
                    assert(next.retained[before.retained.len() as int] == r);
                }
            }
            assert forall|j: int| 0 <= j < next.retained.len() implies #[trigger] was_retained(
                recorded,
                next.retained[j],
                now,
            ) by {
                if j < before.retained.len() {
                    assert(was_retained(front, before.retained[j], now));
                    let i = choose|i: int|
                        0 <= i < front.len() && (#[trigger] front[i]).1 == before.retained[j];
                    assert(recorded[i] == front[i]);
                } else {
                    assert(recorded[recorded.len() - 1].1 == r);
                }
            }
            assert forall|i: int| 0 <= i < recorded.len() implies (
            #[trigger] recorded[i]).1.message.topic == recorded[i].0 by {
                if i < front.len() {
                    assert(front[i] == recorded[i]);
                }
            }
        }
    }
}

proof fn lemma_wills_live_on(b: BrokerView, limits: Limits, now: i64, recorded: Seq<WillView>)
    requires
        b.pending_wills.len() == 0,
        b.future_wills.len() == 0,
    ensures
        restore_wills(b, limits, now, recorded) matches Ok(next) ==> wills_live_on(
            next,
            recorded,
            now,
        ) && next.sessions == b.sessions && next.retained == b.retained && next.shadowed
            == b.shadowed,
    decreases recorded.len(),
{
    if recorded.len() > 0 {
        let front = recorded.drop_last();
        let r = recorded.last();
        lemma_wills_live_on(b, limits, now, front);
        if let (Ok(before), Ok(next)) = (
            restore_wills(b, limits, now, front),
            restore_wills(b, limits, now, recorded),
        ) {
            reveal(restore_will);
            assert forall|i: int|
                0 <= i < recorded.len() && !expired_spec(
                    recorded[i].message,
                    now,
                ) implies #[trigger] is_held(next.pending_wills, recorded[i]) || is_held(
                next.future_wills,
                recorded[i],
            ) by {
                if i < front.len() {
                    assert(front[i] == recorded[i]);
                    assert(is_held(before.pending_wills, front[i]) || is_held(
                        before.future_wills,
                        front[i],
                    ));
                    lemma_held_on(before.pending_wills, next.pending_wills, recorded[i]);
                    lemma_held_on(before.future_wills, next.future_wills, recorded[i]);
                } else if r.due_at_ms is Some {
                    let at = before.future_wills.len() as int;
                    assert(next.future_wills[at].owner == r.owner);
                } else {
                    let at = before.pending_wills.len() as int;
                    assert(next.pending_wills[at].owner == r.owner);
                }
            }
        }
    }
}

proof fn lemma_held_on(wills: Seq<WillView>, next: Seq<WillView>, r: WillView)
    requires
        next == wills || exists|w: WillView| next == #[trigger] wills.push(w),
    ensures
        is_held(wills, r) ==> is_held(next, r),
{
    if is_held(wills, r) {
        let j = choose|j: int|
            0 <= j < wills.len() && #[trigger] wills[j] == (WillView {
                reservation: wills[j].reservation,
                counted: true,
                ..r
            });
        assert(next[j] == wills[j]);
    }
}

/// A restart keeps what was recorded: the sessions that last, with their subscriptions, waiting
/// messages and unfinished exchanges; the retained messages and the wills that have not expired;
/// and nothing besides. After that the wills that are due are tried. What is counted of retained
/// messages is what is held.
pub proof fn law_restart_keeps_what_was_recorded(
    limits: Limits,
    now: i64,
    snapshot: SnapshotView,
)
    requires
        forall|i: int, j: int|
            0 <= i < j < snapshot.retained.len() ==> (#[trigger] snapshot.retained[i]).0 != (
            #[trigger] snapshot.retained[j]).0,
    ensures
        restored_parts(limits, now, snapshot) matches Ok(b) ==> {
            &&& sessions_live_on(b.sessions, snapshot.sessions, snapshot.format_version, now)
            &&& retained_live_on(b.retained, snapshot.retained, now)
            &&& wills_live_on(b, snapshot.wills, now)
        },
        restored(limits, now, snapshot) matches Ok(last) ==> {
            &&& restored_parts(limits, now, snapshot) matches Ok(b) && last == retried(
                b,
                limits,
                now,
            )
            &&& last.shadowed.len() == 0
        },
{
    reveal(restored);
    reveal(restored_parts);
    let version = snapshot.format_version;
    let start = BrokerView { generation: snapshot.generation, ..empty_broker() };
    lemma_sessions_live_on(start, limits, now, version, snapshot.sessions);
    if let Ok(b1) = restore_sessions(start, limits, now, version, snapshot.sessions) {
        lemma_retained_live_on(b1, limits, now, snapshot.retained);
        if let Ok(b2) = restore_messages(b1, limits, now, snapshot.retained) {
            lemma_wills_live_on(b2, limits, now, snapshot.wills);
            if let Ok(b3) = restore_wills(b2, limits, now, snapshot.wills) {
                lemma_reserve_sessions(b3, limits, 0);
                if let Ok(b) = reserve_sessions(b3, limits, 0) {
                    lemma_live_on_bare(b3.sessions, b.sessions, snapshot.sessions, version, now);
                    lemma_retry_wills_steady(b, limits, now, HOT_MAINTENANCE_BUDGET as nat);
                }
            }
        }
    }
}

proof fn lemma_live_on_bare(
    sessions: Seq<SessionView>,
    next: Seq<SessionView>,
    recorded: Seq<RecordedView>,
    version: u32,
    now: i64,
)
    requires
        sessions_live_on(sessions, recorded, version, now),
        next.len() == sessions.len(),
        forall|j: int| 0 <= j < next.len() ==> bare(#[trigger] next[j]) == bare(sessions[j]),
    ensures
        sessions_live_on(next, recorded, version, now),
{
    assert forall|i: int|
        0 <= i < recorded.len() && lasts(recorded[i], version, now) implies #[trigger] is_kept(
        next,
        recorded[i],
        now,
    ) by {
        assert(is_kept(sessions, recorded[i], now));
        let j = choose|j: int|
            0 <= j < sessions.len() && #[trigger] lives_on(sessions[j], recorded[i], now);
        lemma_lives_on_bare(sessions[j], next[j], recorded[i], now);
    }
    assert forall|j: int| 0 <= j < next.len() implies #[trigger] was_recorded(
        recorded,
        version,
        next[j],
        now,
    ) by {
        assert(was_recorded(recorded, version, sessions[j], now));
        let i = choose|i: int|
            0 <= i < recorded.len() && lasts(recorded[i], version, now) && #[trigger] lives_on(
                sessions[j],
                recorded[i],
                now,
            );
        lemma_lives_on_bare(sessions[j], next[j], recorded[i], now);
    }
}

proof fn lemma_lives_on_bare(s: SessionView, t: SessionView, r: RecordedView, now: i64)
    requires
        bare(t) == bare(s),
        lives_on(s, r, now),
    ensures
        lives_on(t, r, now),
{
    reveal(lives_on);
    assert(bare(t).incarnation == t.incarnation);
    assert(bare(s).incarnation == s.incarnation);
}

} // verus!
