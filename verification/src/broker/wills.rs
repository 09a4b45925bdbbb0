//! Wills: held for a connection, waiting for their time, and tried until there is room.
use super::model::{
    active_at, guard_at, guard_is, least, reserve_retained, session_at, will_allowed, will_charge,
    BrokerView, DelayView, GuardView, WillView, HOT_MAINTENANCE_BUDGET,
};
use super::route::route_message;
use super::state::{will_bytes_for, will_views, HeldWill, MqttBroker, PendingWill, WillDelay};
use crate::error::Error;
use crate::identity::{key_option_view, DeviceKey, DeviceView, KeyView, SessionKey};
use crate::limits::Limits;
use crate::list::{first, is_first, lemma_first_is, lemma_first_none};
use crate::message::{
    deadline, deadline_after, message_valid, valid_broker_message, BrokerMessage, MessageView,
    PropsView,
};
use crate::session::{no_reservation, RetainedReservation};
use crate::table::{due_at, is_earliest, law_due_when_passed, lemma_due_is};
use crate::text::{byte_len, text_bytes};
use vstd::prelude::*;

verus! {

pub open spec fn due_time(w: WillView) -> i64 {
    match w.due_at_ms {
        Some(due) => due,
        None => i64::MAX,
    }
}

pub open spec fn due_times(s: Seq<WillView>) -> Seq<(int, i64)> {
    Seq::new(s.len(), |i: int| (i, due_time(s[i])))
}

/// A will that waits no longer.
pub open spec fn ready(w: WillView) -> WillView {
    WillView { due_at_ms: None, cancel_on_resume: None, ..w }
}

/// Wills whose time has come join those that are tried, the earliest first.
pub open spec fn promote_due(b: BrokerView, now: i64, budget: nat) -> BrokerView
    decreases budget,
{
    if budget == 0 {
        b
    } else {
        match due_at(due_times(b.future_wills), now) {
            None => b,
            Some(k) => promote_due(
                BrokerView {
                    future_wills: b.future_wills.remove(k),
                    pending_wills: b.pending_wills.push(ready(b.future_wills[k])),
                    ..b
                },
                now,
                (budget - 1) as nat,
            ),
        }
    }
}

pub open spec fn with_expiry(message: MessageView, interval: Option<u32>, now: i64) -> MessageView {
    match interval {
        Some(seconds) => MessageView {
            properties: PropsView {
                expires_at_ms: Some(deadline_after(now, seconds)),
                ..message.properties
            },
            ..message
        },
        None => message,
    }
}

/// A will as it is tried: its lifetime starts now.
pub open spec fn refreshed(w: WillView, now: i64) -> WillView {
    WillView {
        message: with_expiry(w.message, w.message_expiry_interval, now),
        message_expiry_interval: None,
        ..ready(w)
    }
}

pub open spec fn rest(s: Seq<WillView>) -> Seq<WillView> {
    if s.len() > 0 {
        s.remove(0)
    } else {
        s
    }
}

/// The first pending will tried. What was set aside for it is used for it; if there is no room
/// it goes to the end of the queue and keeps what was set aside.
#[verifier::opaque]
pub open spec fn retry_one(b: BrokerView, limits: Limits, now: i64) -> (BrokerView, bool) {
    let w = refreshed(b.pending_wills[0], now);
    let tried = BrokerView {
        pending_wills: b.pending_wills.update(
            0,
            WillView { reservation: no_reservation(), ..w },
        ),
        ..b
    };
    match route_message(tried, limits, now, w.owner.tenant, w.origin, w.message) {
        (next, Ok(_)) => (
            BrokerView { pending_wills: rest(next.pending_wills), ..next },
            true,
        ),
        (next, Err(_)) => (
            BrokerView { pending_wills: rest(next.pending_wills).push(w), ..next },
            false,
        ),
    }
}

pub open spec fn retry_loop(b: BrokerView, limits: Limits, now: i64, attempts: nat) -> (
    BrokerView,
    nat,
)
    decreases attempts,
{
    if attempts == 0 || b.pending_wills.len() == 0 {
        (b, 0)
    } else {
        let (next, settled) = retry_one(b, limits, now);
        let (last, more) = retry_loop(next, limits, now, (attempts - 1) as nat);
        (
            last,
            if settled {
                more + 1
            } else {
                more
            },
        )
    }
}

/// Tries the wills that are due, each at most once, within a budget.
#[verifier::opaque]
pub open spec fn retry_wills(b: BrokerView, limits: Limits, now: i64, budget: nat) -> (
    BrokerView,
    nat,
) {
    let b1 = promote_due(b, now, budget);
    retry_loop(b1, limits, now, least(b1.pending_wills.len(), budget))
}

/// The broker after the hot budget of wills was tried.
pub open spec fn retried(b: BrokerView, limits: Limits, now: i64) -> BrokerView {
    retry_wills(b, limits, now, HOT_MAINTENANCE_BUDGET as nat).0
}

pub open spec fn waits_for(w: WillView, key: KeyView) -> bool {
    w.cancel_on_resume matches Some(entry) && entry.0 == key
}

/// The position of the will that waits for a session and is due first, among the first `n`.
pub open spec fn owned_at(s: Seq<WillView>, key: KeyView, n: nat) -> Option<int>
    decreases n,
{
    if n == 0 {
        None
    } else {
        let best = owned_at(s, key, (n - 1) as nat);
        if waits_for(s[n - 1], key) && (best matches Some(k) ==> due_time(s[n - 1]) < due_time(
            s[k],
        )) {
            Some(n - 1)
        } else {
            best
        }
    }
}

/// The wills without those that wait for a session, and those, in the order of their time.
pub open spec fn take_owned(s: Seq<WillView>, key: KeyView, fuel: nat) -> (
    Seq<WillView>,
    Seq<WillView>,
)
    decreases fuel,
{
    match owned_at(s, key, s.len()) {
        Some(k) => if fuel == 0 {
            (s, Seq::empty())
        } else {
            let (left, owned) = take_owned(s.remove(k), key, (fuel - 1) as nat);
            (left, seq![s[k]] + owned)
        },
        None => (s, Seq::empty()),
    }
}

pub open spec fn all_ready(s: Seq<WillView>) -> Seq<WillView> {
    Seq::new(s.len(), |i: int| ready(s[i]))
}

/// A session that starts afresh waits for nothing: its delayed wills are due.
#[verifier::opaque]
pub open spec fn release_delays(b: BrokerView, key: KeyView) -> BrokerView {
    let (left, owned) = take_owned(b.future_wills, key, b.future_wills.len());
    BrokerView {
        future_wills: left,
        pending_wills: b.pending_wills + all_ready(owned),
        ..b
    }
}

/// What becomes of one delayed will when its session is taken up again: it is given up, unless
/// it was due already or belongs to an earlier session.
pub open spec fn resume_one(b: BrokerView, key: KeyView, incarnation: u64, now: i64, w: WillView) -> BrokerView {
    if w.cancel_on_resume != Some((key, incarnation)) {
        BrokerView { future_wills: b.future_wills.push(w), ..b }
    } else if w.due_at_ms matches Some(due) && due <= now {
        BrokerView { pending_wills: b.pending_wills.push(ready(w)), ..b }
    } else {
        b
    }
}

pub open spec fn resume_each(
    b: BrokerView,
    key: KeyView,
    incarnation: u64,
    now: i64,
    owned: Seq<WillView>,
    n: nat,
) -> BrokerView
    decreases n,
{
    if n == 0 {
        b
    } else {
        resume_one(
            resume_each(b, key, incarnation, now, owned, (n - 1) as nat),
            key,
            incarnation,
            now,
            owned[n - 1],
        )
    }
}

/// The delayed wills of a session that is taken up again are given up.
#[verifier::opaque]
pub open spec fn cancel_resumed(b: BrokerView, key: KeyView, incarnation: u64, now: i64) -> BrokerView {
    let (left, owned) = take_owned(b.future_wills, key, b.future_wills.len());
    resume_each(
        BrokerView { future_wills: left, ..b },
        key,
        incarnation,
        now,
        owned,
        owned.len(),
    )
}

/// Whether a will may be held at all.
pub open spec fn will_valid(
    limits: Limits,
    owner: DeviceView,
    origin: Option<KeyView>,
    message: MessageView,
) -> bool {
    &&& message_valid(message, limits)
    &&& message.payload.len() <= limits.max_will_payload_bytes
    &&& origin matches Some(key) ==> key.device == owner && text_bytes(key.client_id)
        <= limits.max_client_id_bytes
}

/// A will taken over from a connection, with everything set aside that publishing it will need.
#[verifier::opaque]
pub open spec fn hold_will(
    b: BrokerView,
    limits: Limits,
    owner: DeviceView,
    origin: Option<KeyView>,
    message: MessageView,
) -> (BrokerView, Result<u64, Error>) {
    if !will_valid(limits, owner, origin, message) {
        (b, Err(Error::Invalid))
    } else if !will_allowed(b, limits, owner.tenant, will_charge(message, origin)) || b.next_guard
        == u64::MAX {
        (b, Err(Error::Overloaded))
    } else {
        match reserve_retained(b, limits, owner.tenant, origin, message) {
            Err(error) => (b, Err(error)),
            Ok(reservation) => {
                let will = WillView {
                    owner,
                    origin,
                    message,
                    due_at_ms: None,
                    cancel_on_resume: None,
                    message_expiry_interval: None,
                    reservation,
                    counted: true,
                };
                (
                    BrokerView {
                        guards: b.guards.push(
                            GuardView { token: b.next_guard, will, delay: None, armed: false },
                        ),
                        next_guard: (b.next_guard + 1) as u64,
                        ..b
                    },
                    Ok(b.next_guard),
                )
            },
        }
    }
}

pub open spec fn without_guard(b: BrokerView, token: u64) -> BrokerView {
    match guard_at(b, token) {
        Some(k) => BrokerView { guards: b.guards.remove(k), ..b },
        None => b,
    }
}

/// A held will that is published when its connection ends.
pub open spec fn armed_will(b: BrokerView, token: u64) -> BrokerView {
    match guard_at(b, token) {
        Some(k) => BrokerView {
            guards: b.guards.update(k, GuardView { armed: true, ..b.guards[k] }),
            ..b
        },
        None => b,
    }
}

/// A held will that waits for its session to end or for its delay.
pub open spec fn delayed_will(
    b: BrokerView,
    token: u64,
    delay: DelayView,
    message_expiry: Option<u32>,
) -> BrokerView {
    match guard_at(b, token) {
        Some(k) => {
            let g = b.guards[k];
            BrokerView {
                guards: b.guards.update(
                    k,
                    GuardView {
                        armed: true,
                        delay: Some(delay),
                        will: WillView { message_expiry_interval: message_expiry, ..g.will },
                        ..g
                    },
                ),
                ..b
            }
        },
        None => b,
    }
}

/// A held will whose session lasts longer or shorter than first said.
pub open spec fn prolonged_will(b: BrokerView, token: u64, interval: u32) -> BrokerView {
    match guard_at(b, token) {
        Some(k) => {
            let g = b.guards[k];
            match g.delay {
                Some(d) => BrokerView {
                    guards: b.guards.update(
                        k,
                        GuardView {
                            delay: Some(DelayView { session_expiry: interval, ..d }),
                            ..g
                        },
                    ),
                    ..b
                },
                None => b,
            }
        },
        None => b,
    }
}

/// What becomes of a will that has to wait.
pub enum WillSchedule {
    Delayed,
    Suppressed,
    PublishNow,
}

/// Whether the will of a closed connection waits: not if its session is gone, and not at all if
/// another connection has taken the session up.
pub open spec fn schedule(b: BrokerView, d: DelayView) -> WillSchedule {
    if d.delay == 0 || d.session_expiry == 0 {
        WillSchedule::PublishNow
    } else {
        match session_at(b, d.key) {
            None => WillSchedule::PublishNow,
            Some(i) => if b.sessions[i].incarnation != d.incarnation {
                WillSchedule::PublishNow
            } else {
                match active_at(b, d.key) {
                    Some(j) => if b.links[j].generation != d.generation {
                        WillSchedule::Suppressed
                    } else {
                        WillSchedule::Delayed
                    },
                    None => WillSchedule::Delayed,
                }
            },
        }
    }
}

pub open spec fn shorter(a: u32, b: u32) -> u32 {
    if a <= b {
        a
    } else {
        b
    }
}

/// A will published now. If there is no room it stays with the broker.
#[verifier::opaque]
pub open spec fn publish_held(b: BrokerView, limits: Limits, now: i64, k: int) -> (
    BrokerView,
    MessageView,
) {
    let g = b.guards[k];
    let message = with_expiry(g.will.message, g.will.message_expiry_interval, now);
    let tried = BrokerView {
        guards: b.guards.update(
            k,
            GuardView { will: WillView { reservation: no_reservation(), ..g.will }, ..g },
        ),
        ..b
    };
    match route_message(tried, limits, now, g.will.owner.tenant, g.will.origin, message) {
        (next, Ok(_)) => (without_guard(next, g.token), message),
        (next, Err(_)) => (
            {
                let left = without_guard(next, g.token);
                BrokerView {
                    pending_wills: left.pending_wills.push(
                        WillView { message, ..ready(g.will) },
                    ),
                    ..left
                }
            },
            message,
        ),
    }
}

/// A held will settled: scheduled, given up or published. Tells what was published.
#[verifier::opaque]
pub open spec fn settle_will(b: BrokerView, limits: Limits, now: i64, token: u64) -> (
    BrokerView,
    Result<Option<MessageView>, Error>,
) {
    match guard_at(b, token) {
        None => (b, Err(Error::Conflict)),
        Some(k) => {
            let g = b.guards[k];
            let outcome = match g.delay {
                Some(d) => schedule(b, d),
                None => WillSchedule::PublishNow,
            };
            match outcome {
                WillSchedule::Suppressed => (without_guard(b, token), Ok(None)),
                WillSchedule::Delayed => {
                    let d = g.delay->0;
                    let left = without_guard(b, token);
                    (
                        BrokerView {
                            future_wills: left.future_wills.push(
                                WillView {
                                    due_at_ms: Some(
                                        deadline_after(now, shorter(d.delay, d.session_expiry)),
                                    ),
                                    cancel_on_resume: Some((d.key, d.incarnation)),
                                    ..g.will
                                },
                            ),
                            ..left
                        },
                        Ok(None),
                    )
                },
                WillSchedule::PublishNow => {
                    let (next, message) = publish_held(b, limits, now, k);
                    (next, Ok(Some(message)))
                },
            }
        },
    }
}

/// A held will let go: settled if it was armed, given up otherwise.
pub open spec fn close_will(b: BrokerView, limits: Limits, now: i64, token: u64) -> BrokerView {
    match guard_at(b, token) {
        None => b,
        Some(k) => if b.guards[k].armed {
            settle_will(b, limits, now, token).0
        } else {
            without_guard(b, token)
        },
    }
}

pub open spec fn message_option(message: Option<BrokerMessage>) -> Option<MessageView> {
    match message {
        Some(message) => Some(message@),
        None => None,
    }
}

pub open spec fn settled_view(result: Result<Option<BrokerMessage>, Error>) -> Result<
    Option<MessageView>,
    Error,
> {
    match result {
        Ok(message) => Ok(message_option(message)),
        Err(error) => Err(error),
    }
}

fn stamp(message: BrokerMessage, interval: Option<u32>, now: i64) -> (stamped: BrokerMessage)
    ensures
        stamped@ == with_expiry(message@, interval, now),
{
    let mut stamped = message;
    if let Some(seconds) = interval {
        stamped.properties.expires_at_ms = Some(deadline(now, seconds));
    }
    assert(stamped@ =~= with_expiry(message@, interval, now));
    stamped
}

fn made_ready(will: PendingWill) -> (result: PendingWill)
    ensures
        result@ == ready(will@),
{
    let mut result = will;
    result.due_at_ms = None;
    result.cancel_on_resume = None;
    result
}

impl MqttBroker {
    fn due_will(&self, now: i64) -> (position: Option<usize>)
        ensures
            match position {
                Some(k) => due_at(due_times(self@.future_wills), now) == Some(k as int) && k
                    < self.future_wills@.len(),
                None => due_at(due_times(self@.future_wills), now) is None,
            },
    {
        let ghost times = due_times(self@.future_wills);
        proof {
            law_due_when_passed(times, now);
        }
        if self.future_wills.len() == 0 {
            return None;
        }
        let mut best: usize = 0;
        let mut at: usize = 1;
        while at < self.future_wills.len()
            invariant
                0 <= best < at <= self.future_wills.len(),
                times == due_times(self@.future_wills),
                forall|j: int| 0 <= j < at ==> times[best as int].1 <= (#[trigger] times[j]).1,
                forall|j: int| 0 <= j < best ==> times[best as int].1 < (#[trigger] times[j]).1,
            decreases self.future_wills.len() - at,
        {
            if self.due_of(at) < self.due_of(best) {
                best = at;
            }
            at = at + 1;
        }
        proof {
            assert(is_earliest(times, best as int));
        }
        if self.due_of(best) <= now {
            proof {
                lemma_due_is(times, now, best as int);
            }
            Some(best)
        } else {
            None
        }
    }

    fn due_of(&self, at: usize) -> (due: i64)
        requires
            at < self.future_wills@.len(),
        ensures
            due == due_times(self@.future_wills)[at as int].1,
    {
        match self.future_wills[at].due_at_ms {
            Some(due) => due,
            None => i64::MAX,
        }
    }

    pub fn promote_due_wills(&mut self, now: i64, budget: usize)
        requires
            old(self).wf(),
        ensures
            final(self).wf(),
            final(self).limits == old(self).limits,
            final(self)@ == promote_due(old(self)@, now, budget as nat),
    {
        let ghost goal = promote_due(self@, now, budget as nat);
        let mut left: usize = budget;
        while left > 0
            invariant
                self.wf(),
                self.limits == old(self).limits,
                goal == promote_due(old(self)@, now, budget as nat),
                goal == promote_due(self@, now, left as nat),
            decreases left,
        {
            let k = match self.due_will(now) {
                Some(k) => k,
                None => return,
            };
            let ghost before = self@;
            let will = self.future_wills.remove(k);
            assert(will@ == before.future_wills[k as int]);
            let ghost model = will@;
            self.pending_wills.push(made_ready(will));
            proof {
                assert(self@.future_wills =~= before.future_wills.remove(k as int));
                assert(self@.pending_wills =~= before.pending_wills.push(ready(model)));
                assert(self@ =~= (BrokerView {
                    future_wills: before.future_wills.remove(k as int),
                    pending_wills: before.pending_wills.push(ready(model)),
                    ..before
                }));
            }
            left = left - 1;
        }
    }

    fn drop_first_will(&mut self)
        requires
            old(self).wf(),
        ensures
            final(self).wf(),
            final(self).limits == old(self).limits,
            final(self)@ == (BrokerView {
                pending_wills: rest(old(self)@.pending_wills),
                ..old(self)@
            }),
    {
        let ghost before = self@;
        if self.pending_wills.len() > 0 {
            let _ = self.pending_wills.remove(0);
        }
        assert(self@.pending_wills =~= rest(before.pending_wills));
        assert(self@ =~= (BrokerView { pending_wills: rest(before.pending_wills), ..before }));
    }

    fn push_pending_will(&mut self, will: PendingWill)
        requires
            old(self).wf(),
        ensures
            final(self).wf(),
            final(self).limits == old(self).limits,
            final(self)@ == (BrokerView {
                pending_wills: old(self)@.pending_wills.push(will@),
                ..old(self)@
            }),
    {
        let ghost before = self@;
        let ghost model = will@;
        self.pending_wills.push(will);
        assert(self@.pending_wills =~= before.pending_wills.push(model));
        assert(self@ =~= (BrokerView {
            pending_wills: before.pending_wills.push(model),
            ..before
        }));
    }

    fn retry_first_will(&mut self, now: i64) -> (settled: bool)
        requires
            old(self).wf(),
            old(self)@.pending_wills.len() > 0,
        ensures
            final(self).wf(),
            final(self).limits == old(self).limits,
            retry_one(old(self)@, old(self).limits, now) == (final(self)@, settled),
    {
        proof {
            reveal(retry_one);
        }
        let ghost before = self@;
        assert(before.pending_wills[0] == self.pending_wills@[0]@);
        let mut will = made_ready(self.pending_wills[0].clone());
        let ghost first = will@;
        will.message = stamp(will.message, will.message_expiry_interval, now);
        will.message_expiry_interval = None;
        assert(will@ == refreshed(before.pending_wills[0], now));
        let mut shown = will.clone();
        shown.retained_reservation = RetainedReservation { count: 0, bytes: 0 };
        let ghost model = shown@;
        self.pending_wills.set(0, shown);
        proof {
            assert(self@.pending_wills =~= before.pending_wills.update(0, model));
            assert(self@ =~= (BrokerView {
                pending_wills: before.pending_wills.update(0, model),
                ..before
            }));
        }
        match self.route_locked(&will.owner, will.origin.as_ref(), &will.message, now) {
            Ok(_) => {
                self.drop_first_will();
                true
            },
            Err(_) => {
                self.drop_first_will();
                self.push_pending_will(will);
                false
            },
        }
    }

    /// Tries the wills that are due, each at most once, within a budget.
    pub fn retry_pending_wills_bounded(&mut self, now: i64, budget: usize) -> (settled: usize)
        requires
            old(self).wf(),
        ensures
            final(self).wf(),
            final(self).limits == old(self).limits,
            retry_wills(old(self)@, old(self).limits, now, budget as nat) == (
                final(self)@,
                settled as nat,
            ),
    {
        proof {
            reveal(retry_wills);
        }
        self.promote_due_wills(now, budget);
        let queued: usize = self.pending_wills.len();
        assert(queued == self@.pending_wills.len());
        let mut attempts: usize = if queued <= budget {
            queued
        } else {
            budget
        };
        let ghost start = self@;
        let ghost all = attempts as nat;
        let ghost goal = retry_loop(start, self.limits, now, all);
        let mut settled: usize = 0;
        while attempts > 0
            invariant
                self.wf(),
                self.limits == old(self).limits,
                attempts <= all <= usize::MAX,
                settled + attempts <= all,
                goal == retry_loop(start, old(self).limits, now, all),
                goal.0 == retry_loop(self@, self.limits, now, attempts as nat).0,
                goal.1 == settled + retry_loop(self@, self.limits, now, attempts as nat).1,
                retry_wills(old(self)@, old(self).limits, now, budget as nat) == goal,
            decreases attempts,
        {
            if self.pending_wills.len() == 0 {
                assert(self@.pending_wills.len() == 0);
                return settled;
            }
            assert(self@.pending_wills.len() > 0);
            if self.retry_first_will(now) {
                settled = settled + 1;
            }
            attempts = attempts - 1;
        }
        settled
    }

    pub fn retry_pending_wills(&mut self, now: i64)
        requires
            old(self).wf(),
        ensures
            final(self).wf(),
            final(self).limits == old(self).limits,
            final(self)@ == retried(old(self)@, old(self).limits, now),
    {
        let _ = self.retry_pending_wills_bounded(now, HOT_MAINTENANCE_BUDGET);
    }

    fn find_owned(wills: &Vec<PendingWill>, key: &SessionKey) -> (position: Option<usize>)
        ensures
            match position {
                Some(k) => owned_at(will_views(wills@), key@, wills@.len()) == Some(k as int) && k
                    < wills@.len(),
                None => owned_at(will_views(wills@), key@, wills@.len()) is None,
            },
    {
        let ghost all = will_views(wills@);
        let mut best: Option<usize> = None;
        let mut at: usize = 0;
        while at < wills.len()
            invariant
                at <= wills.len(),
                all == will_views(wills@),
                match best {
                    Some(k) => owned_at(all, key@, at as nat) == Some(k as int) && k < at,
                    None => owned_at(all, key@, at as nat) is None,
                },
            decreases wills.len() - at,
        {
            assert(all[at as int] == wills@[at as int]@);
            let owned = match &wills[at].cancel_on_resume {
                Some(entry) => entry.0.same(key),
                None => false,
            };
            assert(owned == waits_for(all[at as int], key@));
            let sooner = match best {
                Some(k) => {
                    assert(all[k as int] == wills@[k as int]@);
                    due_or_never(&wills[at]) < due_or_never(&wills[k])
                },
                None => true,
            };
            if owned && sooner {
                best = Some(at);
            }
            at = at + 1;
        }
        best
    }

    /// Takes out the delayed wills that wait for a session, in the order of their time.
    fn take_owned_future_wills(&mut self, key: &SessionKey) -> (owned: Vec<PendingWill>)
        requires
            old(self).wf(),
        ensures
            final(self).wf(),
            final(self).limits == old(self).limits,
            take_owned(old(self)@.future_wills, key@, old(self)@.future_wills.len()) == (
                final(self)@.future_wills,
                will_views(owned@),
            ),
            final(self)@ == (BrokerView {
                future_wills: final(self)@.future_wills,
                ..old(self)@
            }),
    {
        let ghost start = self@.future_wills;
        let ghost goal = take_owned(start, key@, start.len());
        let mut owned: Vec<PendingWill> = Vec::new();
        let mut fuel: usize = self.future_wills.len();
        proof {
            assert(will_views(owned@) =~= Seq::<WillView>::empty());
            assert(Seq::<WillView>::empty() + goal.1 =~= goal.1);
        }
        while fuel > 0
            invariant
                self.wf(),
                self.limits == old(self).limits,
                self.future_wills@.len() == fuel,
                self@ == (BrokerView { future_wills: self@.future_wills, ..old(self)@ }),
                start == old(self)@.future_wills,
                goal == take_owned(start, key@, start.len()),
                goal.0 == take_owned(self@.future_wills, key@, fuel as nat).0,
                goal.1 == will_views(owned@) + take_owned(
                    self@.future_wills,
                    key@,
                    fuel as nat,
                ).1,
            decreases fuel,
        {
            let ghost cur = self@.future_wills;
            let k = match MqttBroker::find_owned(&self.future_wills, key) {
                Some(k) => k,
                None => {
                    assert(will_views(owned@) + Seq::<WillView>::empty() =~= will_views(owned@));
                    return owned;
                },
            };
            let will = self.future_wills.remove(k);
            let ghost model = will@;
            let ghost before_owned = will_views(owned@);
            owned.push(will);
            proof {
                assert(self@.future_wills =~= cur.remove(k as int));
                assert(cur[k as int] == model);
                let tail = take_owned(cur.remove(k as int), key@, (fuel - 1) as nat).1;
                assert(will_views(owned@) =~= before_owned.push(model));
                assert(before_owned + (seq![model] + tail) =~= before_owned.push(model) + tail);
                assert(self@ =~= (BrokerView { future_wills: self@.future_wills, ..old(self)@ }));
            }
            fuel = fuel - 1;
        }
        proof {
            assert(self@.future_wills.len() == 0);
            assert(will_views(owned@) + Seq::<WillView>::empty() =~= will_views(owned@));
        }
        owned
    }

    /// A session that starts afresh waits for nothing: its delayed wills are due.
    pub fn release_clean_start_delays(&mut self, key: &SessionKey)
        requires
            old(self).wf(),
        ensures
            final(self).wf(),
            final(self).limits == old(self).limits,
            final(self)@ == release_delays(old(self)@, key@),
    {
        proof {
            reveal(release_delays);
        }
        let owned = self.take_owned_future_wills(key);
        let ghost middle = self@;
        let ghost views = will_views(owned@);
        let ghost before = self@.pending_wills;
        let mut at: usize = 0;
        assert(before + all_ready(views).take(0) =~= before);
        while at < owned.len()
            invariant
                at <= owned.len(),
                views == will_views(owned@),
                before == middle.pending_wills,
                self.wf(),
                self.limits == old(self).limits,
                self@ == (BrokerView {
                    pending_wills: before + all_ready(views).take(at as int),
                    ..middle
                }),
            decreases owned.len() - at,
        {
            assert(views[at as int] == owned@[at as int]@);
            self.push_pending_will(made_ready(owned[at].clone()));
            assert((before + all_ready(views).take(at as int)).push(ready(views[at as int]))
                =~= before + all_ready(views).take(at as int + 1));
            at = at + 1;
        }
        assert(all_ready(views).take(views.len() as int) =~= all_ready(views));
    }

    /// Gives up the delayed wills of a session that is taken up again.
    pub fn cancel_resumed_wills(&mut self, key: &SessionKey, incarnation: u64, now: i64)
        requires
            old(self).wf(),
        ensures
            final(self).wf(),
            final(self).limits == old(self).limits,
            final(self)@ == cancel_resumed(old(self)@, key@, incarnation, now),
    {
        proof {
            reveal(cancel_resumed);
        }
        let owned = self.take_owned_future_wills(key);
        let ghost middle = self@;
        let ghost views = will_views(owned@);
        let mut at: usize = 0;
        while at < owned.len()
            invariant
                at <= owned.len(),
                views == will_views(owned@),
                self.wf(),
                self.limits == old(self).limits,
                self@ == resume_each(middle, key@, incarnation, now, views, at as nat),
            decreases owned.len() - at,
        {
            let ghost before = self@;
            assert(views[at as int] == owned@[at as int]@);
            let will = owned[at].clone();
            let ghost model = will@;
            let current = match &will.cancel_on_resume {
                Some(entry) => entry.0.same(key) && entry.1 == incarnation,
                None => false,
            };
            assert(current == (model.cancel_on_resume == Some((key@, incarnation))));
            if !current {
                self.future_wills.push(will);
                assert(self@.future_wills =~= before.future_wills.push(model));
                assert(self@ =~= (BrokerView {
                    future_wills: before.future_wills.push(model),
                    ..before
                }));
            } else {
                let passed = match will.due_at_ms {
                    Some(due) => due <= now,
                    None => false,
                };
                if passed {
                    self.push_pending_will(made_ready(will));
                }
            }
            at = at + 1;
        }
    }

    fn find_guard(&self, token: u64) -> (position: Option<usize>)
        ensures
            match position {
                Some(k) => guard_at(self@, token) == Some(k as int) && k < self.guards@.len()
                    && self@.guards[k as int].token == token,
                None => guard_at(self@, token) is None,
            },
    {
        let mut at: usize = 0;
        while at < self.guards.len()
            invariant
                at <= self.guards.len(),
                forall|j: int| 0 <= j < at ==> !guard_is(token)(#[trigger] self@.guards[j]),
            decreases self.guards.len() - at,
        {
            if self.guards[at].token == token {
                proof {
                    assert(is_first(self@.guards, guard_is(token), at as int));
                    lemma_first_is(self@.guards, guard_is(token), at as int);
                }
                return Some(at);
            }
            at = at + 1;
        }
        proof {
            lemma_first_none(self@.guards, guard_is(token));
        }
        None
    }

    fn drop_guard(&mut self, token: u64)
        requires
            old(self).wf(),
        ensures
            final(self).wf(),
            final(self).limits == old(self).limits,
            final(self)@ == without_guard(old(self)@, token),
    {
        let ghost before = self@;
        if let Some(k) = self.find_guard(token) {
            let _ = self.guards.remove(k);
            assert(self@.guards =~= before.guards.remove(k as int));
        }
        assert(self@ =~= without_guard(before, token));
    }

    /// Takes a will over from a connection.
    pub fn hold_will(&mut self, owner: &DeviceKey, origin: Option<SessionKey>, message: BrokerMessage) -> (result:
        Result<u64, Error>)
        requires
            old(self).wf(),
        ensures
            final(self).wf(),
            final(self).limits == old(self).limits,
            hold_will(
                old(self)@,
                old(self).limits,
                owner@,
                key_option_view(origin),
                message@,
            ) == (final(self)@, result),
    {
        proof {
            reveal(hold_will);
        }
        let origin_ok = match &origin {
            Some(key) => key.device.same(owner) && byte_len(key.client_id.as_str())
                <= self.limits.max_client_id_bytes,
            None => true,
        };
        if !valid_broker_message(&message, &self.limits) || message.payload.len()
            > self.limits.max_will_payload_bytes || !origin_ok {
            return Err(Error::Invalid);
        }
        let charge: usize = will_bytes_for(&message, origin.as_ref());
        if !self.may_hold_will(&owner.tenant_id, charge) || self.next_guard == u64::MAX {
            return Err(Error::Overloaded);
        }
        let reservation = match self.reserve_retained(&owner.tenant_id, origin.as_ref(), &message) {
            Ok(reservation) => reservation,
            Err(error) => return Err(error),
        };
        let ghost before = self@;
        let token = self.next_guard;
        let guard = HeldWill {
            token,
            will: PendingWill {
                owner: owner.clone(),
                origin,
                message,
                due_at_ms: None,
                cancel_on_resume: None,
                message_expiry_interval: None,
                retained_reservation: reservation,
                counted: true,
            },
            delay: None,
            armed: false,
        };
        let ghost model = guard@;
        self.guards.push(guard);
        self.next_guard = token + 1;
        proof {
            assert(self@.guards =~= before.guards.push(model));
            assert(self@ =~= (BrokerView {
                guards: before.guards.push(model),
                next_guard: (before.next_guard + 1) as u64,
                ..before
            }));
        }
        Ok(token)
    }

    fn publish_held_will(&mut self, k: usize, now: i64) -> (message: BrokerMessage)
        requires
            old(self).wf(),
            k < old(self)@.guards.len(),
        ensures
            final(self).wf(),
            final(self).limits == old(self).limits,
            publish_held(old(self)@, old(self).limits, now, k as int) == (
                final(self)@,
                message@,
            ),
    {
        proof {
            reveal(publish_held);
        }
        let ghost before = self@;
        assert(before.guards[k as int] == self.guards@[k as int]@);
        let token = self.guards[k].token;
        let will = self.guards[k].will.clone();
        let message = stamp(will.message.clone(), will.message_expiry_interval, now);
        self.guards[k].will.retained_reservation = RetainedReservation { count: 0, bytes: 0 };
        proof {
            let g = before.guards[k as int];
            let shown = GuardView {
                will: WillView { reservation: no_reservation(), ..g.will },
                ..g
            };
            assert(self@.guards =~= before.guards.update(k as int, shown));
            assert(self@ =~= (BrokerView {
                guards: before.guards.update(k as int, shown),
                ..before
            }));
        }
        match self.route_locked(&will.owner, will.origin.as_ref(), &message, now) {
            Ok(_) => {
                self.drop_guard(token);
            },
            Err(_) => {
                self.drop_guard(token);
                let mut kept = made_ready(will);
                kept.message = message.clone();
                self.push_pending_will(kept);
            },
        }
        message
    }

    fn schedule_will(&self, delay: &WillDelay) -> (outcome: WillSchedule)
        ensures
            outcome == schedule(self@, delay@),
    {
        if delay.delay == 0 || delay.session_expiry == 0 {
            return WillSchedule::PublishNow;
        }
        match self.find_session(&delay.key) {
            None => WillSchedule::PublishNow,
            Some(i) => {
                if self.sessions[i].incarnation != delay.incarnation {
                    return WillSchedule::PublishNow;
                }
                match self.find_active(&delay.key) {
                    Some(j) => if self.links[j].generation != delay.generation {
                        WillSchedule::Suppressed
                    } else {
                        WillSchedule::Delayed
                    },
                    None => WillSchedule::Delayed,
                }
            },
        }
    }

    /// Settles a held will: schedules it, gives it up or publishes it. Tells what was published.
    pub fn settle_will(&mut self, token: u64, now: i64) -> (result: Result<
        Option<BrokerMessage>,
        Error,
    >)
        requires
            old(self).wf(),
        ensures
            final(self).wf(),
            final(self).limits == old(self).limits,
            settle_will(old(self)@, old(self).limits, now, token) == (
                final(self)@,
                settled_view(result),
            ),
    {
        proof {
            reveal(settle_will);
        }
        let k = match self.find_guard(token) {
            Some(k) => k,
            None => return Err(Error::Conflict),
        };
        assert(self@.guards[k as int] == self.guards@[k as int]@);
        let outcome = match &self.guards[k].delay {
            Some(delay) => self.schedule_will(delay),
            None => WillSchedule::PublishNow,
        };
        match outcome {
            WillSchedule::Suppressed => {
                self.drop_guard(token);
                Ok(None)
            },
            WillSchedule::Delayed => {
                let mut will = self.guards[k].will.clone();
                if let Some(delay) = &self.guards[k].delay {
                    let wait = if delay.delay <= delay.session_expiry {
                        delay.delay
                    } else {
                        delay.session_expiry
                    };
                    will.due_at_ms = Some(deadline(now, wait));
                    will.cancel_on_resume = Some((delay.key.clone(), delay.incarnation));
                }
                let ghost model = will@;
                self.drop_guard(token);
                let ghost left = self@;
                self.future_wills.push(will);
                proof {
                    assert(self@.future_wills =~= left.future_wills.push(model));
                    assert(self@ =~= (BrokerView {
                        future_wills: left.future_wills.push(model),
                        ..left
                    }));
                }
                Ok(None)
            },
            WillSchedule::PublishNow => Ok(Some(self.publish_held_will(k, now))),
        }
    }

    pub fn arm_will(&mut self, token: u64)
        requires
            old(self).wf(),
        ensures
            final(self).wf(),
            final(self).limits == old(self).limits,
            final(self)@ == armed_will(old(self)@, token),
    {
        let ghost before = self@;
        if let Some(k) = self.find_guard(token) {
            self.guards[k].armed = true;
            assert(self@.guards =~= armed_will(before, token).guards);
        }
        assert(self@ =~= armed_will(before, token));
    }

    pub fn delay_will(&mut self, token: u64, delay: WillDelay, message_expiry: Option<u32>)
        requires
            old(self).wf(),
        ensures
            final(self).wf(),
            final(self).limits == old(self).limits,
            final(self)@ == delayed_will(old(self)@, token, delay@, message_expiry),
    {
        let ghost before = self@;
        let ghost d = delay@;
        if let Some(k) = self.find_guard(token) {
            self.guards[k].armed = true;
            self.guards[k].delay = Some(delay);
            self.guards[k].will.message_expiry_interval = message_expiry;
            assert(self@.guards =~= delayed_will(before, token, d, message_expiry).guards);
        }
        assert(self@ =~= delayed_will(before, token, d, message_expiry));
    }

    pub fn prolong_will(&mut self, token: u64, interval: u32)
        requires
            old(self).wf(),
        ensures
            final(self).wf(),
            final(self).limits == old(self).limits,
            final(self)@ == prolonged_will(old(self)@, token, interval),
    {
        let ghost before = self@;
        if let Some(k) = self.find_guard(token) {
            assert(before.guards[k as int] == self.guards@[k as int]@);
            let changed = match &self.guards[k].delay {
                Some(delay) => Some(
                    WillDelay {
                        delay: delay.delay,
                        session_expiry: interval,
                        key: delay.key.clone(),
                        incarnation: delay.incarnation,
                        generation: delay.generation,
                    },
                ),
                None => None,
            };
            if changed.is_some() {
                self.guards[k].delay = changed;
                assert(self@.guards =~= prolonged_will(before, token, interval).guards);
            }
        }
        assert(self@ =~= prolonged_will(before, token, interval));
    }

    /// Gives a held will up.
    pub fn suppress_will(&mut self, token: u64)
        requires
            old(self).wf(),
        ensures
            final(self).wf(),
            final(self).limits == old(self).limits,
            final(self)@ == without_guard(old(self)@, token),
    {
        self.drop_guard(token);
    }

    /// Lets a held will go: settles it if it was armed, gives it up otherwise.
    pub fn close_will(&mut self, token: u64, now: i64)
        requires
            old(self).wf(),
        ensures
            final(self).wf(),
            final(self).limits == old(self).limits,
            final(self)@ == close_will(old(self)@, old(self).limits, now, token),
    {
        if let Some(k) = self.find_guard(token) {
            assert(self@.guards[k as int] == self.guards@[k as int]@);
            if self.guards[k].armed {
                let _ = self.settle_will(token, now);
            } else {
                self.drop_guard(token);
            }
        }
    }
}

pub(crate) fn due_or_never(will: &PendingWill) -> (due: i64)
    ensures
        due == due_time(will@),
{
    match will.due_at_ms {
        Some(due) => due,
        None => i64::MAX,
    }
}

} // verus!
