//! How many wills the broker answers for when one comes, changes or goes.
use super::model::{guard_wills, will_allowed, will_count, will_in, BrokerView, GuardView, WillView};
use super::slots::{lemma_resume_each_total, lemma_take_owned};
use super::tidy::{answered, answered_within, wills_no_more, wills_within};
use super::wills::{all_ready, cancel_resumed, ready, release_delays, rest, take_owned};
use crate::identity::KeyView;
use crate::limits::Limits;
use crate::list::{
    lemma_total_add, lemma_total_push, lemma_total_remove, lemma_total_same, lemma_total_update,
};
use vstd::prelude::*;

verus! {

/// A will counts for the same as another.
pub open spec fn counts_as(w: WillView, other: WillView) -> bool {
    w.owner == other.owner && w.counted == other.counted
}

/// A held will changed in place, or let go.
pub proof fn lemma_guard_answers(b: BrokerView, k: int, g: GuardView)
    requires
        0 <= k < b.guards.len(),
    ensures
        counts_as(g.will, b.guards[k].will) ==> wills_no_more(
            b,
            BrokerView { guards: b.guards.update(k, g), ..b },
        ),
        wills_no_more(b, BrokerView { guards: b.guards.remove(k), ..b }),
{
    let wills = guard_wills(b.guards);
    let changed = BrokerView { guards: b.guards.update(k, g), ..b };
    let gone = BrokerView { guards: b.guards.remove(k), ..b };
    assert(guard_wills(changed.guards) =~= wills.update(k, g.will));
    assert(guard_wills(gone.guards) =~= wills.remove(k));
    if counts_as(g.will, b.guards[k].will) {
        assert forall|scope: Option<Seq<char>>| #[trigger]
            will_count(changed, scope) <= will_count(b, scope) by {
            lemma_total_update(wills, k, g.will, will_in(scope));
        }
    }
    assert forall|scope: Option<Seq<char>>| #[trigger]
        will_count(gone, scope) <= will_count(b, scope) by {
        lemma_total_remove(wills, k, will_in(scope));
    }
}

/// A held will that the broker takes over, to try it or to let it wait.
pub proof fn lemma_taken_answers(b: BrokerView, next: BrokerView, k: int, w: WillView)
    requires
        0 <= k < b.guards.len(),
        counts_as(w, b.guards[k].will),
        exists|g: GuardView|
            counts_as(g.will, b.guards[k].will) && next.guards == (#[trigger] b.guards.update(
                k,
                g,
            )).remove(k),
        next.pending_wills == b.pending_wills.push(w) && next.future_wills == b.future_wills
            || next.pending_wills == b.pending_wills && next.future_wills == b.future_wills.push(w),
    ensures
        wills_no_more(b, next),
{
    let wills = guard_wills(b.guards);
    let g = choose|g: GuardView|
        counts_as(g.will, b.guards[k].will) && next.guards == (#[trigger] b.guards.update(
            k,
            g,
        )).remove(k);
    assert(guard_wills(next.guards) =~= wills.remove(k));
    assert forall|scope: Option<Seq<char>>| #[trigger]
        will_count(next, scope) <= will_count(b, scope) by {
        lemma_total_remove(wills, k, will_in(scope));
        lemma_total_push(b.pending_wills, w, will_in(scope));
        lemma_total_push(b.future_wills, w, will_in(scope));
    }
}

/// A will that waited is tried.
pub proof fn lemma_ready_answers(b: BrokerView, k: int)
    requires
        0 <= k < b.future_wills.len(),
    ensures
        wills_no_more(
            b,
            BrokerView {
                future_wills: b.future_wills.remove(k),
                pending_wills: b.pending_wills.push(ready(b.future_wills[k])),
                ..b
            },
        ),
{
    let w = ready(b.future_wills[k]);
    let next = BrokerView {
        future_wills: b.future_wills.remove(k),
        pending_wills: b.pending_wills.push(w),
        ..b
    };
    assert forall|scope: Option<Seq<char>>| #[trigger]
        will_count(next, scope) <= will_count(b, scope) by {
        lemma_total_push(b.pending_wills, w, will_in(scope));
        lemma_total_remove(b.future_wills, k, will_in(scope));
    }
}

pub proof fn lemma_release_answers(b: BrokerView, key: KeyView)
    ensures
        wills_no_more(b, release_delays(b, key)),
{
    reveal(release_delays);
    let next = release_delays(b, key);
    let (left, owned) = take_owned(b.future_wills, key, b.future_wills.len());
    assert forall|scope: Option<Seq<char>>| #[trigger]
        will_count(next, scope) <= will_count(b, scope) by {
        let f = will_in(scope);
        lemma_take_owned(b.future_wills, key, b.future_wills.len(), f);
        lemma_total_add(b.pending_wills, all_ready(owned), f);
        lemma_total_same(all_ready(owned), owned, f, f);
    }
}

pub proof fn lemma_cancel_answers(b: BrokerView, key: KeyView, incarnation: u64, now: i64)
    ensures
        wills_no_more(b, cancel_resumed(b, key, incarnation, now)),
{
    reveal(cancel_resumed);
    let (left, owned) = take_owned(b.future_wills, key, b.future_wills.len());
    let b1 = BrokerView { future_wills: left, ..b };
    let next = cancel_resumed(b, key, incarnation, now);
    assert forall|scope: Option<Seq<char>>| #[trigger]
        will_count(next, scope) <= will_count(b, scope) by {
        let f = will_in(scope);
        lemma_take_owned(b.future_wills, key, b.future_wills.len(), f);
        lemma_resume_each_total(b1, key, incarnation, now, owned, owned.len(), f);
        assert(owned.take(owned.len() as int) =~= owned);
    }
}

/// The first pending will changed, or gone.
pub proof fn lemma_first_answers(b: BrokerView, w: WillView)
    requires
        b.pending_wills.len() > 0,
        counts_as(w, b.pending_wills[0]),
    ensures
        wills_no_more(b, BrokerView { pending_wills: b.pending_wills.update(0, w), ..b }),
        wills_no_more(b, BrokerView { pending_wills: rest(b.pending_wills), ..b }),
{
    let changed = BrokerView { pending_wills: b.pending_wills.update(0, w), ..b };
    let gone = BrokerView { pending_wills: rest(b.pending_wills), ..b };
    assert forall|scope: Option<Seq<char>>| #[trigger]
        will_count(changed, scope) <= will_count(b, scope) by {
        lemma_total_update(b.pending_wills, 0, w, will_in(scope));
    }
    assert forall|scope: Option<Seq<char>>| #[trigger]
        will_count(gone, scope) <= will_count(b, scope) by {
        lemma_total_remove(b.pending_wills, 0, will_in(scope));
    }
}

/// The first pending will put at the end.
pub proof fn lemma_retried_answers(b: BrokerView, next: BrokerView, bare: WillView, w: WillView)
    requires
        b.pending_wills.len() > 0,
        counts_as(bare, b.pending_wills[0]),
        counts_as(w, b.pending_wills[0]),
        next.pending_wills == rest(b.pending_wills.update(0, bare)).push(w),
        next.future_wills == b.future_wills,
        next.guards == b.guards,
    ensures
        wills_no_more(b, next),
{
    let tried = b.pending_wills.update(0, bare);
    assert forall|scope: Option<Seq<char>>| #[trigger]
        will_count(next, scope) <= will_count(b, scope) by {
        lemma_total_update(b.pending_wills, 0, bare, will_in(scope));
        lemma_total_remove(tried, 0, will_in(scope));
        lemma_total_push(rest(tried), w, will_in(scope));
    }
}

/// One more will, where one more may count.
pub proof fn lemma_one_more_answered(
    b: BrokerView,
    next: BrokerView,
    limits: Limits,
    w: WillView,
    bytes: nat,
)
    requires
        will_allowed(b, limits, w.owner.tenant, bytes),
        ({
            ||| next.pending_wills == b.pending_wills.push(w) && next.future_wills == b.future_wills
                && next.guards == b.guards
            ||| next.pending_wills == b.pending_wills && next.future_wills == b.future_wills.push(w)
                && next.guards == b.guards
            ||| next.pending_wills == b.pending_wills && next.future_wills == b.future_wills
                && exists|g: GuardView| g.will == w && next.guards == #[trigger] b.guards.push(g)
        }),
    ensures
        wills_within(b, limits) ==> wills_within(next, limits),
{
    let wills = guard_wills(b.guards);
    if next.guards != b.guards {
        let g = choose|g: GuardView| g.will == w && next.guards == #[trigger] b.guards.push(g);
        assert(guard_wills(next.guards) =~= wills.push(w));
    }
    assert forall|scope: Option<Seq<char>>| #[trigger]
        will_count(next, scope) <= will_count(b, scope) + will_in(scope)(w) by {
        lemma_total_push(b.pending_wills, w, will_in(scope));
        lemma_total_push(b.future_wills, w, will_in(scope));
        lemma_total_push(wills, w, will_in(scope));
    }
    if wills_within(b, limits) {
        reveal(answered_within);
        assert(will_count(next, None) <= will_count(b, None) + 1);
        assert forall|tenant: Seq<char>|
            #[trigger] answered(next.pending_wills, next.future_wills, next.guards, Some(tenant))
                <= limits.max_connections_per_tenant by {
            assert(will_count(next, Some(tenant)) <= will_count(b, Some(tenant))
                + will_in(Some(tenant))(w));
            assert(answered(b.pending_wills, b.future_wills, b.guards, Some(tenant))
                <= limits.max_connections_per_tenant);
        }
    }
}

} // verus!
