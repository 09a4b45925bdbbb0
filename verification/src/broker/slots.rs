//! Retained slots: those that are taken and those that are set aside.
use super::model::{
    entry_reserved_bytes, entry_reserved_count, guard_wills, in_scope, reserve_retained,
    reserved_bytes, reserved_count, retained_bytes_of, retained_charge, retained_in,
    session_reserved_bytes, session_reserved_count, will_reserved_bytes, will_reserved_count,
    BrokerView, GuardView, RetainedView, WillView,
};
use super::wills::{all_ready, cancel_resumed, owned_at, ready, resume_each, take_owned};
use crate::identity::KeyView;
use crate::limits::Limits;
use crate::list::{
    count, lemma_total_add, lemma_total_push, lemma_total_remove, lemma_total_same,
    lemma_total_update, total,
};
use crate::message::MessageView;
use crate::session::{no_reservation, InboundView, RetainedReservation, SessionView};
use vstd::prelude::*;

verus! {

/// Everything that takes a retained slot or has one set aside.
pub struct SlotsView {
    pub retained: Seq<RetainedView>,
    pub shadowed: Seq<RetainedView>,
    pub sessions: Seq<SessionView>,
    pub pending_wills: Seq<WillView>,
    pub future_wills: Seq<WillView>,
    pub guards: Seq<GuardView>,
}

pub open spec fn slots(b: BrokerView) -> SlotsView {
    SlotsView {
        retained: b.retained,
        shadowed: b.shadowed,
        sessions: b.sessions,
        pending_wills: b.pending_wills,
        future_wills: b.future_wills,
        guards: b.guards,
    }
}

/// The slots that are set aside.
pub open spec fn claims_count(v: SlotsView, scope: Option<Seq<char>>) -> nat {
    total(v.sessions, session_reserved_count(scope)) + total(
        v.pending_wills,
        will_reserved_count(scope),
    ) + total(v.future_wills, will_reserved_count(scope)) + total(
        guard_wills(v.guards),
        will_reserved_count(scope),
    )
}

/// The bytes that are set aside.
pub open spec fn claims_bytes(v: SlotsView, scope: Option<Seq<char>>) -> nat {
    total(v.sessions, session_reserved_bytes(scope)) + total(
        v.pending_wills,
        will_reserved_bytes(scope),
    ) + total(v.future_wills, will_reserved_bytes(scope)) + total(
        guard_wills(v.guards),
        will_reserved_bytes(scope),
    )
}

/// The slots that count as taken, and their bytes.
pub open spec fn taken_count(v: SlotsView, scope: Option<Seq<char>>) -> nat {
    count(v.retained, retained_in(scope)) + count(v.shadowed, retained_in(scope))
}

pub open spec fn taken_bytes(v: SlotsView, scope: Option<Seq<char>>) -> nat {
    total(v.retained, retained_bytes_of(scope)) + total(v.shadowed, retained_bytes_of(scope))
}

/// No tenant has more slots, or more bytes, taken and set aside than allowed.
#[verifier::opaque]
pub open spec fn retained_shares_within(v: SlotsView, limits: Limits) -> bool {
    forall|tenant: Seq<char>| #[trigger]
        claims_bytes(v, Some(tenant)) + taken_bytes(v, Some(tenant))
            <= limits.max_retained_bytes_per_tenant && claims_count(v, Some(tenant)) + taken_count(
            v,
            Some(tenant),
        ) <= limits.max_retained_messages_per_tenant
}

/// No more slots, and no more bytes, are taken and set aside than allowed.
#[verifier::opaque]
pub open spec fn retained_numbers_within(v: SlotsView, limits: Limits) -> bool {
    &&& claims_count(v, None) + v.retained.len() <= limits.max_retained_messages
    &&& claims_bytes(v, None) + taken_bytes(v, None)
        <= limits.max_retained_bytes
}

/// The bounds hold on.
pub open spec fn slots_stay(v: SlotsView, next: SlotsView, limits: Limits) -> bool {
    &&& retained_shares_within(v, limits) ==> retained_shares_within(next, limits)
    &&& retained_numbers_within(v, limits) ==> retained_numbers_within(next, limits)
}

/// Why the bounds hold on: nothing changed, no more is set aside, or it is known otherwise.
pub open spec fn slots_fine(v: SlotsView, next: SlotsView, limits: Limits) -> bool {
    ||| next == v
    ||| next.retained == v.retained && next.shadowed == v.shadowed && claims_no_more(v, next)
    ||| slots_stay(v, next, limits)
}

/// No more is set aside than before, apart from so much for one tenant.
pub open spec fn claims_grow(
    v: SlotsView,
    next: SlotsView,
    tenant: Seq<char>,
    more: RetainedReservation,
) -> bool {
    forall|scope: Option<Seq<char>>|
        #![trigger claims_count(next, scope)]
        #![trigger claims_bytes(next, scope)]
        {
            &&& claims_count(next, scope) <= claims_count(v, scope) + (if in_scope(scope, tenant) {
                more.count as nat
            } else {
                0nat
            })
            &&& claims_bytes(next, scope) <= claims_bytes(v, scope) + (if in_scope(scope, tenant) {
                more.bytes as nat
            } else {
                0nat
            })
        }
}

/// No more is set aside than before.
pub open spec fn claims_no_more(v: SlotsView, next: SlotsView) -> bool {
    forall|scope: Option<Seq<char>>|
        #![trigger claims_count(next, scope)]
        #![trigger claims_bytes(next, scope)]
        claims_count(next, scope) <= claims_count(v, scope) && claims_bytes(next, scope)
            <= claims_bytes(v, scope)
}

/// At least so much less is set aside for one tenant than before.
pub open spec fn claims_shrink(
    v: SlotsView,
    next: SlotsView,
    tenant: Seq<char>,
    less: RetainedReservation,
) -> bool {
    forall|scope: Option<Seq<char>>|
        #![trigger claims_count(next, scope)]
        #![trigger claims_bytes(next, scope)]
        {
            &&& claims_count(next, scope) + (if in_scope(scope, tenant) {
                less.count as nat
            } else {
                0nat
            }) <= claims_count(v, scope)
            &&& claims_bytes(next, scope) + (if in_scope(scope, tenant) {
                less.bytes as nat
            } else {
                0nat
            }) <= claims_bytes(v, scope)
        }
}

pub proof fn lemma_claims_of(b: BrokerView, scope: Option<Seq<char>>)
    ensures
        claims_count(slots(b), scope) == reserved_count(b, scope),
        claims_bytes(slots(b), scope) == reserved_bytes(b, scope),
{
}

/// The bounds hold on if the same is retained and no more is set aside.
pub proof fn lemma_slots_kept(v: SlotsView, next: SlotsView, limits: Limits)
    requires
        next.retained == v.retained,
        next.shadowed == v.shadowed,
        claims_no_more(v, next),
    ensures
        slots_stay(v, next, limits),
{
    reveal(retained_shares_within);
    reveal(retained_numbers_within);
    assert(claims_count(next, None) <= claims_count(v, None));
    if retained_shares_within(v, limits) {
        assert forall|tenant: Seq<char>| #[trigger]
            claims_bytes(next, Some(tenant)) + taken_bytes(next, Some(tenant))
                <= limits.max_retained_bytes_per_tenant && claims_count(next, Some(tenant))
                + taken_count(next, Some(tenant)) <= limits.max_retained_messages_per_tenant by {
            assert(claims_bytes(v, Some(tenant)) + taken_bytes(v, Some(tenant))
                <= limits.max_retained_bytes_per_tenant);
        }
        assert(retained_shares_within(next, limits));
    }
}

/// The bounds hold on if the same is retained and a slot is set aside that there is.
pub proof fn lemma_slots_reserved(
    b: BrokerView,
    next: BrokerView,
    limits: Limits,
    tenant: Seq<char>,
    origin: Option<KeyView>,
    message: MessageView,
)
    requires
        next.retained == b.retained,
        next.shadowed == b.shadowed,
        reserve_retained(b, limits, tenant, origin, message) matches Ok(reservation)
            && claims_grow(slots(b), slots(next), tenant, reservation),
    ensures
        slots_stay(slots(b), slots(next), limits),
        reserve_retained(b, limits, tenant, origin, message)->Ok_0 != no_reservation()
            ==> retained_numbers_within(slots(next), limits),
{
    let v = slots(b);
    let w = slots(next);
    let reservation = reserve_retained(b, limits, tenant, origin, message)->Ok_0;
    if reservation == no_reservation() {
        assert(claims_no_more(v, w));
        lemma_slots_kept(v, w, limits);
    } else {
        reveal(retained_shares_within);
        reveal(retained_numbers_within);
        lemma_claims_of(b, None);
        assert(claims_count(w, None) <= claims_count(v, None) + 1);
        assert(reservation.bytes == retained_charge(message, origin));
        assert(retained_numbers_within(w, limits));
        if retained_shares_within(v, limits) {
            assert forall|other: Seq<char>| #[trigger]
                claims_bytes(w, Some(other)) + taken_bytes(w, Some(other))
                    <= limits.max_retained_bytes_per_tenant && claims_count(w, Some(other))
                    + taken_count(w, Some(other))
                    <= limits.max_retained_messages_per_tenant by {
                lemma_claims_of(b, Some(other));
                assert(claims_bytes(v, Some(other)) + taken_bytes(v, Some(other))
                    <= limits.max_retained_bytes_per_tenant);
            }
            assert(retained_shares_within(w, limits));
        }
    }
}

/// Nothing is set aside.
pub open spec fn unclaimed(v: SlotsView) -> bool {
    forall|scope: Option<Seq<char>>|
        #![trigger claims_count(v, scope)]
        #![trigger claims_bytes(v, scope)]
        claims_count(v, scope) == 0 && claims_bytes(v, scope) == 0
}

pub proof fn lemma_still_unclaimed(v: SlotsView, next: SlotsView)
    requires
        unclaimed(v),
        claims_no_more(v, next),
    ensures
        unclaimed(next),
{
    assert forall|scope: Option<Seq<char>>|
        #![trigger claims_count(next, scope)]
        #![trigger claims_bytes(next, scope)]
        claims_count(next, scope) == 0 && claims_bytes(next, scope) == 0 by {
        assert(claims_count(v, scope) == 0);
        assert(claims_count(next, scope) <= claims_count(v, scope));
    }
}

/// Setting a slot aside that there is, where nothing was set aside or the bounds held.
pub proof fn lemma_claimed(
    b: BrokerView,
    next: BrokerView,
    limits: Limits,
    tenant: Seq<char>,
    origin: Option<KeyView>,
    message: MessageView,
)
    requires
        unclaimed(slots(b)) || retained_numbers_within(slots(b), limits),
        next.retained == b.retained,
        next.shadowed == b.shadowed,
        reserve_retained(b, limits, tenant, origin, message) matches Ok(reservation)
            && claims_grow(slots(b), slots(next), tenant, reservation),
    ensures
        unclaimed(slots(next)) || retained_numbers_within(slots(next), limits),
        slots_stay(slots(b), slots(next), limits),
{
    lemma_slots_reserved(b, next, limits, tenant, origin, message);
    let reservation = reserve_retained(b, limits, tenant, origin, message)->Ok_0;
    if reservation == no_reservation() {
        assert(claims_no_more(slots(b), slots(next)));
        if unclaimed(slots(b)) {
            lemma_still_unclaimed(slots(b), slots(next));
        }
    }
}

/// A session has no more set aside than another.
pub open spec fn claims_within(s: SessionView, t: SessionView) -> bool {
    &&& total(s.inbound, entry_reserved_count()) <= total(t.inbound, entry_reserved_count())
    &&& total(s.inbound, entry_reserved_bytes()) <= total(t.inbound, entry_reserved_bytes())
}

pub proof fn lemma_session_claims(v: SlotsView, next: SlotsView, i: int, s: SessionView)
    requires
        0 <= i < v.sessions.len(),
        s.key == v.sessions[i].key,
        claims_within(s, v.sessions[i]),
        next == (SlotsView { sessions: v.sessions.update(i, s), ..v }),
    ensures
        claims_no_more(v, next),
{
    assert forall|scope: Option<Seq<char>>|
        #![trigger claims_count(next, scope)]
        #![trigger claims_bytes(next, scope)]
        claims_count(next, scope) <= claims_count(v, scope) && claims_bytes(next, scope)
            <= claims_bytes(v, scope) by {
        lemma_total_update(v.sessions, i, s, session_reserved_count(scope));
        lemma_total_update(v.sessions, i, s, session_reserved_bytes(scope));
    }
}

/// One received message of a session has something else set aside.
pub proof fn lemma_entry_claims(
    v: SlotsView,
    next: SlotsView,
    i: int,
    k: int,
    e: InboundView,
    window: Set<u16>,
)
    requires
        0 <= i < v.sessions.len(),
        ({
            let s = v.sessions[i];
            next == (SlotsView {
                sessions: v.sessions.update(
                    i,
                    if 0 <= k < s.inbound.len() {
                        SessionView { inbound: s.inbound.update(k, e), ..s }
                    } else {
                        SessionView { inbound: s.inbound.push(e), inbound_window: window, ..s }
                    },
                ),
                ..v
            })
        }),
    ensures
        claims_grow(v, next, v.sessions[i].key.device.tenant, e.reservation),
        0 <= k < v.sessions[i].inbound.len() && e.reservation == no_reservation()
            ==> claims_shrink(
            v,
            next,
            v.sessions[i].key.device.tenant,
            v.sessions[i].inbound[k].reservation,
        ),
{
    let s = v.sessions[i];
    let s2 = next.sessions[i];
    if 0 <= k < s.inbound.len() {
        lemma_total_update(s.inbound, k, e, entry_reserved_count());
        lemma_total_update(s.inbound, k, e, entry_reserved_bytes());
    } else {
        lemma_total_push(s.inbound, e, entry_reserved_count());
        lemma_total_push(s.inbound, e, entry_reserved_bytes());
    }
    let tenant = s.key.device.tenant;
    assert forall|scope: Option<Seq<char>>|
        #![trigger claims_count(next, scope)]
        #![trigger claims_bytes(next, scope)]
        {
            &&& claims_count(next, scope) <= claims_count(v, scope) + (if in_scope(scope, tenant) {
                e.reservation.count as nat
            } else {
                0nat
            })
            &&& claims_bytes(next, scope) <= claims_bytes(v, scope) + (if in_scope(scope, tenant) {
                e.reservation.bytes as nat
            } else {
                0nat
            })
        } by {
        lemma_total_update(v.sessions, i, s2, session_reserved_count(scope));
        lemma_total_update(v.sessions, i, s2, session_reserved_bytes(scope));
    }
    if 0 <= k < s.inbound.len() && e.reservation == no_reservation() {
        let less = s.inbound[k].reservation;
        assert forall|scope: Option<Seq<char>>|
            #![trigger claims_count(next, scope)]
            #![trigger claims_bytes(next, scope)]
            {
                &&& claims_count(next, scope) + (if in_scope(scope, tenant) {
                    less.count as nat
                } else {
                    0nat
                }) <= claims_count(v, scope)
                &&& claims_bytes(next, scope) + (if in_scope(scope, tenant) {
                    less.bytes as nat
                } else {
                    0nat
                }) <= claims_bytes(v, scope)
            } by {
            lemma_total_update(v.sessions, i, s2, session_reserved_count(scope));
            lemma_total_update(v.sessions, i, s2, session_reserved_bytes(scope));
        }
    }
}

/// What was set aside and given up may be set aside again.
pub proof fn lemma_claims_back(
    v: SlotsView,
    less: SlotsView,
    then: SlotsView,
    more: SlotsView,
    tenant: Seq<char>,
    reservation: RetainedReservation,
)
    requires
        claims_shrink(v, less, tenant, reservation),
        claims_no_more(less, then),
        claims_grow(then, more, tenant, reservation),
    ensures
        claims_no_more(v, more),
{
    assert forall|scope: Option<Seq<char>>|
        #![trigger claims_count(more, scope)]
        #![trigger claims_bytes(more, scope)]
        claims_count(more, scope) <= claims_count(v, scope) && claims_bytes(more, scope)
            <= claims_bytes(v, scope) by {
        assert(claims_count(then, scope) <= claims_count(less, scope));
        assert(claims_count(less, scope) <= claims_count(v, scope));
    }
}

pub proof fn lemma_session_gone_claims(v: SlotsView, i: int)
    requires
        0 <= i < v.sessions.len(),
    ensures
        claims_no_more(v, SlotsView { sessions: v.sessions.remove(i), ..v }),
{
    let next = SlotsView { sessions: v.sessions.remove(i), ..v };
    assert forall|scope: Option<Seq<char>>|
        #![trigger claims_count(next, scope)]
        #![trigger claims_bytes(next, scope)]
        claims_count(next, scope) <= claims_count(v, scope) && claims_bytes(next, scope)
            <= claims_bytes(v, scope) by {
        lemma_total_remove(v.sessions, i, session_reserved_count(scope));
        lemma_total_remove(v.sessions, i, session_reserved_bytes(scope));
    }
}

pub proof fn lemma_session_new_claims(v: SlotsView, s: SessionView)
    requires
        total(s.inbound, entry_reserved_count()) == 0,
        total(s.inbound, entry_reserved_bytes()) == 0,
    ensures
        claims_no_more(v, SlotsView { sessions: v.sessions.push(s), ..v }),
{
    let next = SlotsView { sessions: v.sessions.push(s), ..v };
    assert forall|scope: Option<Seq<char>>|
        #![trigger claims_count(next, scope)]
        #![trigger claims_bytes(next, scope)]
        claims_count(next, scope) <= claims_count(v, scope) && claims_bytes(next, scope)
            <= claims_bytes(v, scope) by {
        lemma_total_push(v.sessions, s, session_reserved_count(scope));
        lemma_total_push(v.sessions, s, session_reserved_bytes(scope));
    }
}

pub proof fn lemma_slots_fine(v: SlotsView, next: SlotsView, limits: Limits)
    requires
        slots_fine(v, next, limits),
    ensures
        slots_stay(v, next, limits),
{
    if next.retained == v.retained && next.shadowed == v.shadowed && claims_no_more(v, next) {
        lemma_slots_kept(v, next, limits);
    }
}

pub proof fn lemma_no_more_refl(v: SlotsView)
    ensures
        claims_no_more(v, v),
{
}

pub proof fn lemma_no_more_trans(v: SlotsView, w: SlotsView, x: SlotsView)
    requires
        claims_no_more(v, w),
        claims_no_more(w, x),
    ensures
        claims_no_more(v, x),
{
    assert forall|scope: Option<Seq<char>>|
        #![trigger claims_count(x, scope)]
        #![trigger claims_bytes(x, scope)]
        claims_count(x, scope) <= claims_count(v, scope) && claims_bytes(x, scope)
            <= claims_bytes(v, scope) by {
        assert(claims_count(w, scope) <= claims_count(v, scope));
    }
}

pub proof fn lemma_shrink_no_more(
    v: SlotsView,
    next: SlotsView,
    tenant: Seq<char>,
    less: RetainedReservation,
)
    requires
        claims_shrink(v, next, tenant, less),
    ensures
        claims_no_more(v, next),
{
}

/// A held will changed in place, or let go.
pub proof fn lemma_guard_claims(v: SlotsView, k: int, g: GuardView)
    requires
        0 <= k < v.guards.len(),
        g.will.owner == v.guards[k].will.owner,
    ensures
        g.will.reservation == v.guards[k].will.reservation ==> claims_no_more(
            v,
            SlotsView { guards: v.guards.update(k, g), ..v },
        ),
        g.will.reservation == no_reservation() ==> claims_shrink(
            v,
            SlotsView { guards: v.guards.update(k, g), ..v },
            g.will.owner.tenant,
            v.guards[k].will.reservation,
        ),
        claims_shrink(
            v,
            SlotsView { guards: v.guards.remove(k), ..v },
            g.will.owner.tenant,
            v.guards[k].will.reservation,
        ),
{
    let old_wills = guard_wills(v.guards);
    let less = v.guards[k].will.reservation;
    let tenant = g.will.owner.tenant;
    assert(guard_wills(v.guards.update(k, g)) =~= old_wills.update(k, g.will));
    assert(guard_wills(v.guards.remove(k)) =~= old_wills.remove(k));
    if g.will.reservation == less {
        let next = SlotsView { guards: v.guards.update(k, g), ..v };
        assert forall|scope: Option<Seq<char>>|
            #![trigger claims_count(next, scope)]
            #![trigger claims_bytes(next, scope)]
            claims_count(next, scope) <= claims_count(v, scope) && claims_bytes(next, scope)
                <= claims_bytes(v, scope) by {
            lemma_total_update(old_wills, k, g.will, will_reserved_count(scope));
            lemma_total_update(old_wills, k, g.will, will_reserved_bytes(scope));
        }
    }
    if g.will.reservation == no_reservation() {
        let next = SlotsView { guards: v.guards.update(k, g), ..v };
        assert forall|scope: Option<Seq<char>>|
            #![trigger claims_count(next, scope)]
            #![trigger claims_bytes(next, scope)]
            {
                &&& claims_count(next, scope) + (if in_scope(scope, tenant) {
                    less.count as nat
                } else {
                    0nat
                }) <= claims_count(v, scope)
                &&& claims_bytes(next, scope) + (if in_scope(scope, tenant) {
                    less.bytes as nat
                } else {
                    0nat
                }) <= claims_bytes(v, scope)
            } by {
            lemma_total_update(old_wills, k, g.will, will_reserved_count(scope));
            lemma_total_update(old_wills, k, g.will, will_reserved_bytes(scope));
        }
    }
    let next = SlotsView { guards: v.guards.remove(k), ..v };
    assert forall|scope: Option<Seq<char>>|
        #![trigger claims_count(next, scope)]
        #![trigger claims_bytes(next, scope)]
        {
            &&& claims_count(next, scope) + (if in_scope(scope, tenant) {
                less.count as nat
            } else {
                0nat
            }) <= claims_count(v, scope)
            &&& claims_bytes(next, scope) + (if in_scope(scope, tenant) {
                less.bytes as nat
            } else {
                0nat
            }) <= claims_bytes(v, scope)
        } by {
        lemma_total_remove(old_wills, k, will_reserved_count(scope));
        lemma_total_remove(old_wills, k, will_reserved_bytes(scope));
    }
}

/// One more will.
pub proof fn lemma_will_more(v: SlotsView, w: WillView, g: GuardView)
    requires
        g.will == w,
    ensures
        claims_grow(
            v,
            SlotsView { pending_wills: v.pending_wills.push(w), ..v },
            w.owner.tenant,
            w.reservation,
        ),
        claims_grow(
            v,
            SlotsView { future_wills: v.future_wills.push(w), ..v },
            w.owner.tenant,
            w.reservation,
        ),
        claims_grow(
            v,
            SlotsView { guards: v.guards.push(g), ..v },
            w.owner.tenant,
            w.reservation,
        ),
{
    let tenant = w.owner.tenant;
    let more = w.reservation;
    let old_wills = guard_wills(v.guards);
    assert(guard_wills(v.guards.push(g)) =~= old_wills.push(w));
    let next = SlotsView { pending_wills: v.pending_wills.push(w), ..v };
    assert forall|scope: Option<Seq<char>>|
        #![trigger claims_count(next, scope)]
        #![trigger claims_bytes(next, scope)]
        {
            &&& claims_count(next, scope) <= claims_count(v, scope) + (if in_scope(scope, tenant) {
                more.count as nat
            } else {
                0nat
            })
            &&& claims_bytes(next, scope) <= claims_bytes(v, scope) + (if in_scope(scope, tenant) {
                more.bytes as nat
            } else {
                0nat
            })
        } by {
        lemma_total_push(v.pending_wills, w, will_reserved_count(scope));
        lemma_total_push(v.pending_wills, w, will_reserved_bytes(scope));
    }
    let next = SlotsView { future_wills: v.future_wills.push(w), ..v };
    assert forall|scope: Option<Seq<char>>|
        #![trigger claims_count(next, scope)]
        #![trigger claims_bytes(next, scope)]
        {
            &&& claims_count(next, scope) <= claims_count(v, scope) + (if in_scope(scope, tenant) {
                more.count as nat
            } else {
                0nat
            })
            &&& claims_bytes(next, scope) <= claims_bytes(v, scope) + (if in_scope(scope, tenant) {
                more.bytes as nat
            } else {
                0nat
            })
        } by {
        lemma_total_push(v.future_wills, w, will_reserved_count(scope));
        lemma_total_push(v.future_wills, w, will_reserved_bytes(scope));
    }
    let next = SlotsView { guards: v.guards.push(g), ..v };
    assert forall|scope: Option<Seq<char>>|
        #![trigger claims_count(next, scope)]
        #![trigger claims_bytes(next, scope)]
        {
            &&& claims_count(next, scope) <= claims_count(v, scope) + (if in_scope(scope, tenant) {
                more.count as nat
            } else {
                0nat
            })
            &&& claims_bytes(next, scope) <= claims_bytes(v, scope) + (if in_scope(scope, tenant) {
                more.bytes as nat
            } else {
                0nat
            })
        } by {
        lemma_total_push(old_wills, w, will_reserved_count(scope));
        lemma_total_push(old_wills, w, will_reserved_bytes(scope));
    }
}

/// The first pending will has nothing set aside any more, or is gone.
pub proof fn lemma_first_claims(v: SlotsView, w: WillView)
    requires
        v.pending_wills.len() > 0,
        w.owner == v.pending_wills[0].owner,
        w.reservation == no_reservation(),
    ensures
        claims_shrink(
            v,
            SlotsView { pending_wills: v.pending_wills.update(0, w), ..v },
            w.owner.tenant,
            v.pending_wills[0].reservation,
        ),
        claims_no_more(v, SlotsView { pending_wills: v.pending_wills.remove(0), ..v }),
{
    let less = v.pending_wills[0].reservation;
    let tenant = w.owner.tenant;
    let next = SlotsView { pending_wills: v.pending_wills.update(0, w), ..v };
    assert forall|scope: Option<Seq<char>>|
        #![trigger claims_count(next, scope)]
        #![trigger claims_bytes(next, scope)]
        {
            &&& claims_count(next, scope) + (if in_scope(scope, tenant) {
                less.count as nat
            } else {
                0nat
            }) <= claims_count(v, scope)
            &&& claims_bytes(next, scope) + (if in_scope(scope, tenant) {
                less.bytes as nat
            } else {
                0nat
            }) <= claims_bytes(v, scope)
        } by {
        lemma_total_update(v.pending_wills, 0, w, will_reserved_count(scope));
        lemma_total_update(v.pending_wills, 0, w, will_reserved_bytes(scope));
    }
    let next = SlotsView { pending_wills: v.pending_wills.remove(0), ..v };
    assert forall|scope: Option<Seq<char>>|
        #![trigger claims_count(next, scope)]
        #![trigger claims_bytes(next, scope)]
        claims_count(next, scope) <= claims_count(v, scope) && claims_bytes(next, scope)
            <= claims_bytes(v, scope) by {
        lemma_total_remove(v.pending_wills, 0, will_reserved_count(scope));
        lemma_total_remove(v.pending_wills, 0, will_reserved_bytes(scope));
    }
}

/// A will that waited is tried.
pub proof fn lemma_ready_claims(v: SlotsView, k: int)
    requires
        0 <= k < v.future_wills.len(),
    ensures
        claims_no_more(
            v,
            SlotsView {
                future_wills: v.future_wills.remove(k),
                pending_wills: v.pending_wills.push(ready(v.future_wills[k])),
                ..v
            },
        ),
{
    let w = ready(v.future_wills[k]);
    let next = SlotsView {
        future_wills: v.future_wills.remove(k),
        pending_wills: v.pending_wills.push(w),
        ..v
    };
    assert forall|scope: Option<Seq<char>>|
        #![trigger claims_count(next, scope)]
        #![trigger claims_bytes(next, scope)]
        claims_count(next, scope) <= claims_count(v, scope) && claims_bytes(next, scope)
            <= claims_bytes(v, scope) by {
        lemma_total_push(v.pending_wills, w, will_reserved_count(scope));
        lemma_total_push(v.pending_wills, w, will_reserved_bytes(scope));
        lemma_total_remove(v.future_wills, k, will_reserved_count(scope));
        lemma_total_remove(v.future_wills, k, will_reserved_bytes(scope));
    }
}

proof fn lemma_owned_at(s: Seq<WillView>, key: KeyView, n: nat)
    requires
        n <= s.len(),
    ensures
        owned_at(s, key, n) matches Some(k) ==> 0 <= k < n,
    decreases n,
{
    if n > 0 {
        lemma_owned_at(s, key, (n - 1) as nat);
    }
}

/// The wills of a session and the others are all there were.
pub proof fn lemma_take_owned(s: Seq<WillView>, key: KeyView, fuel: nat, f: spec_fn(WillView) -> nat)
    ensures
        total(take_owned(s, key, fuel).0, f) + total(take_owned(s, key, fuel).1, f) == total(s, f),
    decreases fuel,
{
    lemma_owned_at(s, key, s.len());
    if let Some(k) = owned_at(s, key, s.len()) {
        if fuel > 0 {
            let (left, owned) = take_owned(s.remove(k), key, (fuel - 1) as nat);
            lemma_take_owned(s.remove(k), key, (fuel - 1) as nat, f);
            lemma_total_remove(s, k, f);
            lemma_total_add(seq![s[k]], owned, f);
            assert(total(seq![s[k]], f) == f(s[k])) by {
                lemma_total_push(Seq::<WillView>::empty(), s[k], f);
                assert(Seq::<WillView>::empty().push(s[k]) =~= seq![s[k]]);
            }
        }
    }
}

pub proof fn lemma_release_claims(v: SlotsView, key: KeyView)
    ensures
        ({
            let (left, owned) = take_owned(v.future_wills, key, v.future_wills.len());
            claims_no_more(
                v,
                SlotsView {
                    future_wills: left,
                    pending_wills: v.pending_wills + all_ready(owned),
                    ..v
                },
            )
        }),
{
    let (left, owned) = take_owned(v.future_wills, key, v.future_wills.len());
    let next = SlotsView {
        future_wills: left,
        pending_wills: v.pending_wills + all_ready(owned),
        ..v
    };
    assert forall|scope: Option<Seq<char>>|
        #![trigger claims_count(next, scope)]
        #![trigger claims_bytes(next, scope)]
        claims_count(next, scope) <= claims_count(v, scope) && claims_bytes(next, scope)
            <= claims_bytes(v, scope) by {
        let f = will_reserved_count(scope);
        let g = will_reserved_bytes(scope);
        lemma_take_owned(v.future_wills, key, v.future_wills.len(), f);
        lemma_take_owned(v.future_wills, key, v.future_wills.len(), g);
        lemma_total_add(v.pending_wills, all_ready(owned), f);
        lemma_total_add(v.pending_wills, all_ready(owned), g);
        lemma_total_same(all_ready(owned), owned, f, f);
        lemma_total_same(all_ready(owned), owned, g, g);
    }
}

pub proof fn lemma_resume_each_total(
    b: BrokerView,
    key: KeyView,
    incarnation: u64,
    now: i64,
    owned: Seq<WillView>,
    n: nat,
    f: spec_fn(WillView) -> nat,
)
    requires
        n <= owned.len(),
        forall|w: WillView| f(#[trigger] ready(w)) == f(w),
    ensures
        ({
            let next = resume_each(b, key, incarnation, now, owned, n);
            &&& next.sessions == b.sessions && next.guards == b.guards
            &&& total(next.pending_wills, f) + total(next.future_wills, f) <= total(
                b.pending_wills,
                f,
            ) + total(b.future_wills, f) + total(owned.take(n as int), f)
        }),
    decreases n,
{
    if n > 0 {
        let before = resume_each(b, key, incarnation, now, owned, (n - 1) as nat);
        let w = owned[n - 1];
        lemma_resume_each_total(b, key, incarnation, now, owned, (n - 1) as nat, f);
        assert(owned.take(n as int) =~= owned.take(n - 1).push(w));
        lemma_total_push(owned.take(n - 1), w, f);
        lemma_total_push(before.future_wills, w, f);
        lemma_total_push(before.pending_wills, ready(w), f);
    }
}

pub proof fn lemma_cancel_claims(b: BrokerView, key: KeyView, incarnation: u64, now: i64)
    ensures
        claims_no_more(slots(b), slots(cancel_resumed(b, key, incarnation, now))),
{
    reveal(cancel_resumed);
    let (left, owned) = take_owned(b.future_wills, key, b.future_wills.len());
    let b1 = BrokerView { future_wills: left, ..b };
    let v = slots(b);
    let next = slots(cancel_resumed(b, key, incarnation, now));
    assert forall|scope: Option<Seq<char>>|
        #![trigger claims_count(next, scope)]
        #![trigger claims_bytes(next, scope)]
        claims_count(next, scope) <= claims_count(v, scope) && claims_bytes(next, scope)
            <= claims_bytes(v, scope) by {
        lemma_take_owned(b.future_wills, key, b.future_wills.len(), will_reserved_count(scope));
        lemma_take_owned(b.future_wills, key, b.future_wills.len(), will_reserved_bytes(scope));
        let n = owned.len();
        lemma_resume_each_total(b1, key, incarnation, now, owned, n, will_reserved_count(scope));
        lemma_resume_each_total(b1, key, incarnation, now, owned, n, will_reserved_bytes(scope));
        assert(owned.take(owned.len() as int) =~= owned);
    }
}

} // verus!
