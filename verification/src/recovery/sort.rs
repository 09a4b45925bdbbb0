//! The order in which an image is written.
use super::snapshot::{recorded, RecordedView};
use crate::broker::deliver::text_earlier;
use crate::broker::model::{text_before, RetainedView, WillView};
use crate::broker::state::{PendingWill, RetainedMessage};
use crate::broker::wills::due_time;
use crate::identity::{KeyView, SessionKey};
use crate::session::{InboundEntry, InboundView, StoredSession, Subscription};
use vstd::prelude::*;

verus! {

/// An element put into its place among ordered ones, behind those of the same rank.
pub open spec fn insert_by<T>(s: Seq<T>, x: T, before: spec_fn(T, T) -> bool) -> Seq<T>
    decreases s.len(),
{
    if s.len() == 0 || !before(x, s.last()) {
        s.push(x)
    } else {
        insert_by(s.drop_last(), x, before).push(s.last())
    }
}

/// The elements in order; those of the same rank stay as they stood.
pub open spec fn sort_by<T>(s: Seq<T>, before: spec_fn(T, T) -> bool) -> Seq<T>
    decreases s.len(),
{
    if s.len() == 0 {
        s
    } else {
        insert_by(sort_by(s.drop_last(), before), s.last(), before)
    }
}

proof fn lemma_insert_keeps<T>(s: Seq<T>, x: T, before: spec_fn(T, T) -> bool)
    ensures
        insert_by(s, x, before).to_multiset() == s.to_multiset().insert(x),
        insert_by(s, x, before).len() == s.len() + 1,
    decreases s.len(),
{
    broadcast use vstd::seq_lib::group_to_multiset_ensures;

    if s.len() > 0 && before(x, s.last()) {
        lemma_insert_keeps(s.drop_last(), x, before);
        assert(s =~= s.drop_last().push(s.last()));
        assert(s.drop_last().to_multiset().insert(x).insert(s.last())
            =~= s.drop_last().to_multiset().insert(s.last()).insert(x));
    }
}

/// Sorting drops nothing and adds nothing.
pub proof fn law_sort_keeps<T>(s: Seq<T>, before: spec_fn(T, T) -> bool)
    ensures
        sort_by(s, before).to_multiset() == s.to_multiset(),
        sort_by(s, before).len() == s.len(),
    decreases s.len(),
{
    broadcast use vstd::seq_lib::group_to_multiset_ensures;

    if s.len() > 0 {
        law_sort_keeps(s.drop_last(), before);
        lemma_insert_keeps(sort_by(s.drop_last(), before), s.last(), before);
        assert(s =~= s.drop_last().push(s.last()));
    }
}

/// What can be put in order.
pub trait Ranked: Sized {
    type Model;

    spec fn model(self) -> Self::Model;

    spec fn ranks_before(a: Self::Model, b: Self::Model) -> bool;

    fn goes_before(&self, other: &Self) -> (before: bool)
        ensures
            before == Self::ranks_before(self.model(), other.model()),
    ;
}

pub open spec fn models<T: Ranked>(s: Seq<T>) -> Seq<T::Model> {
    Seq::new(s.len(), |i: int| s[i].model())
}

pub open spec fn rank<T: Ranked>() -> spec_fn(T::Model, T::Model) -> bool {
    |a: T::Model, b: T::Model| T::ranks_before(a, b)
}

fn insert_ranked<T: Ranked>(items: &mut Vec<T>, item: T)
    ensures
        models(final(items)@) == insert_by(models(old(items)@), item.model(), rank::<T>()),
{
    let ghost m = models(items@);
    let ghost x = item.model();
    let ghost goal = insert_by(m, x, rank::<T>());
    let mut at: usize = items.len();
    assert(m.take(m.len() as int) =~= m);
    assert(goal =~= insert_by(m.take(at as int), x, rank::<T>()) + m.skip(at as int));
    while at > 0 && item.goes_before(&items[at - 1])
        invariant
            at <= items.len(),
            m == models(items@),
            x == item.model(),
            goal == insert_by(m.take(at as int), x, rank::<T>()) + m.skip(at as int),
        decreases at,
    {
        proof {
            let front = m.take(at as int);
            assert(front.last() == m[at - 1]);
            assert(m[at - 1] == items@[at - 1].model());
            assert(front.drop_last() =~= m.take(at - 1));
            assert(rank::<T>()(x, front.last()));
            assert(insert_by(front, x, rank::<T>()) == insert_by(
                m.take(at - 1),
                x,
                rank::<T>(),
            ).push(m[at - 1]));
            assert(insert_by(m.take(at - 1), x, rank::<T>()).push(m[at - 1]) + m.skip(at as int)
                =~= insert_by(m.take(at - 1), x, rank::<T>()) + m.skip(at - 1));
        }
        at = at - 1;
    }
    proof {
        let front = m.take(at as int);
        if at > 0 {
            assert(front.last() == items@[at - 1].model());
            assert(!rank::<T>()(x, front.last()));
        }
        assert(insert_by(front, x, rank::<T>()) == front.push(x));
    }
    let ghost before = items@;
    items.insert(at, item);
    proof {
        assert(items@ == before.insert(at as int, item));
        assert(models(items@) =~= m.take(at as int).push(x) + m.skip(at as int));
    }
}

/// The elements in order; those of the same rank stay as they stood.
pub fn sort<T: Ranked>(items: Vec<T>) -> (sorted: Vec<T>)
    ensures
        models(sorted@) == sort_by(models(items@), rank::<T>()),
{
    let ghost all = models(items@);
    let mut items = items;
    let mut sorted: Vec<T> = Vec::new();
    let ghost mut done: int = 0;
    proof {
        assert(models(sorted@) =~= all.take(0));
        assert(sort_by(all.take(0), rank::<T>()) =~= all.take(0));
        assert(models(items@) =~= all.skip(0));
    }
    while items.len() > 0
        invariant
            0 <= done <= all.len(),
            models(items@) == all.skip(done),
            items@.len() == all.len() - done,
            models(sorted@) == sort_by(all.take(done), rank::<T>()),
        decreases items.len(),
    {
        let ghost before = items@;
        let item = items.remove(0);
        proof {
            assert(before[0].model() == models(before)[0]);
            assert(item.model() == all[done]);
            assert(models(items@) =~= all.skip(done + 1)) by {
                assert forall|i: int| 0 <= i < items@.len() implies (
                #[trigger] models(items@)[i]) == all.skip(done + 1)[i] by {
                    assert(items@[i] == before[i + 1]);
                    assert(models(before)[i + 1] == all.skip(done)[i + 1]);
                }
            }
            assert(all.take(done + 1).drop_last() =~= all.take(done));
            assert(all.take(done + 1).last() == all[done]);
        }
        insert_ranked(&mut sorted, item);
        proof {
            done = done + 1;
        }
    }
    assert(all.take(all.len() as int) =~= all);
    sorted
}

pub open spec fn key_before(a: KeyView, b: KeyView) -> bool {
    ||| text_before(a.device.tenant, b.device.tenant)
    ||| a.device.tenant == b.device.tenant && (text_before(a.device.product, b.device.product) || (
    a.device.product == b.device.product && (text_before(a.device.device, b.device.device) || (
    a.device.device == b.device.device && text_before(a.client_id, b.client_id)))))
}

fn key_earlier(a: &SessionKey, b: &SessionKey) -> (earlier: bool)
    ensures
        earlier == key_before(a@, b@),
{
    let x = &a.device;
    let y = &b.device;
    text_earlier(x.tenant_id.as_str(), y.tenant_id.as_str()) || (x.tenant_id.same(&y.tenant_id) && (
    text_earlier(x.product_id.as_str(), y.product_id.as_str()) || (x.product_id.same(&y.product_id)
        && (text_earlier(x.device_id.as_str(), y.device_id.as_str()) || (x.device_id.same(
        &y.device_id,
    ) && text_earlier(a.client_id.as_str(), b.client_id.as_str()))))))
}

impl Ranked for StoredSession {
    type Model = RecordedView;

    open spec fn model(self) -> RecordedView {
        recorded(self)
    }

    open spec fn ranks_before(a: RecordedView, b: RecordedView) -> bool {
        key_before(a.session.key, b.session.key)
    }

    fn goes_before(&self, other: &StoredSession) -> (before: bool) {
        key_earlier(&self.key, &other.key)
    }
}

impl Ranked for (String, Subscription) {
    type Model = (Seq<char>, Subscription);

    open spec fn model(self) -> (Seq<char>, Subscription) {
        (self.0@, self.1)
    }

    open spec fn ranks_before(a: (Seq<char>, Subscription), b: (Seq<char>, Subscription)) -> bool {
        text_before(a.0, b.0)
    }

    fn goes_before(&self, other: &(String, Subscription)) -> (before: bool) {
        text_earlier(self.0.as_str(), other.0.as_str())
    }
}

impl Ranked for InboundEntry {
    type Model = InboundView;

    open spec fn model(self) -> InboundView {
        self@
    }

    open spec fn ranks_before(a: InboundView, b: InboundView) -> bool {
        a.packet_id < b.packet_id
    }

    fn goes_before(&self, other: &InboundEntry) -> (before: bool) {
        self.packet_id < other.packet_id
    }
}

impl Ranked for (String, RetainedMessage) {
    type Model = (Seq<char>, RetainedView);

    open spec fn model(self) -> (Seq<char>, RetainedView) {
        (self.0@, self.1@)
    }

    open spec fn ranks_before(a: (Seq<char>, RetainedView), b: (Seq<char>, RetainedView)) -> bool {
        text_before(a.0, b.0)
    }

    fn goes_before(&self, other: &(String, RetainedMessage)) -> (before: bool) {
        text_earlier(self.0.as_str(), other.0.as_str())
    }
}

impl Ranked for PendingWill {
    type Model = WillView;

    open spec fn model(self) -> WillView {
        self@
    }

    open spec fn ranks_before(a: WillView, b: WillView) -> bool {
        due_time(a) < due_time(b)
    }

    fn goes_before(&self, other: &PendingWill) -> (before: bool) {
        crate::broker::wills::due_or_never(self) < crate::broker::wills::due_or_never(other)
    }
}

} // verus!
