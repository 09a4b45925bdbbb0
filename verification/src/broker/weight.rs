//! What a session counts for when something in it changes.
use crate::list::{
    count, keep, lemma_count_total, lemma_keep_members, lemma_keep_total, lemma_total_push,
    lemma_total_remove, lemma_total_same, lemma_total_update, one_if, total,
};
use crate::message::{charge_of, MessageView};
use crate::session::{
    emptied, exchange_stays, fresh_exchange, fresh_message, inbound_charge, is_puback, is_qos2,
    message_charge, outbound_charge, promoted, pruned, slim_all, slimmed, unhanded, usage_of,
    InboundView, OutboundStage, OutboundView, SessionView, UsageView,
};
use crate::usage::within;
use vstd::prelude::*;

verus! {

/// An exchange of the second quality of service, for a message that asks for it.
pub open spec fn is_second() -> spec_fn(OutboundView) -> bool {
    |e: OutboundView| e.stage != OutboundStage::Puback && e.message.qos == 2
}

/// The exchanges of a session, in both directions, of the second quality of service.
pub open spec fn second_count(s: SessionView) -> nat {
    s.inbound.len() + count(s.outbound, is_second())
}

pub open spec fn in_class(e: OutboundView, qos1: bool) -> nat {
    if (e.stage == OutboundStage::Puback) == qos1 {
        1
    } else {
        0
    }
}

/// The amounts of a session with one more exchange.
pub open spec fn sent_more(u: UsageView, e: OutboundView) -> UsageView {
    UsageView {
        state_bytes: u.state_bytes + charge_of(e.message),
        qos1_inflight: u.qos1_inflight + in_class(e, true),
        qos2_inflight: u.qos2_inflight + in_class(e, false),
        ..u
    }
}

pub proof fn lemma_exchange_more(s: SessionView, id: u16, e: OutboundView)
    ensures
        usage_of(
            (SessionView { next_packet_id: id, outbound: s.outbound.push(e), ..s }),
        ) == sent_more(usage_of(s), e),
        second_count(
            (SessionView { next_packet_id: id, outbound: s.outbound.push(e), ..s }),
        ) == second_count(s) + if is_second()(e) {
            1nat
        } else {
            0nat
        },
{
    lemma_total_push(s.outbound, e, outbound_charge());
    assert(s.outbound.push(e).drop_last() =~= s.outbound);
}

pub proof fn lemma_exchange_less(s: SessionView, k: int)
    requires
        0 <= k < s.outbound.len(),
    ensures
        within(usage_of((SessionView { outbound: s.outbound.remove(k), ..s })), usage_of(s)),
        second_count((SessionView { outbound: s.outbound.remove(k), ..s })) <= second_count(s),
{
    let t = s.outbound.remove(k);
    lemma_total_remove(s.outbound, k, outbound_charge());
    lemma_count_total(s.outbound, is_puback());
    lemma_count_total(s.outbound, is_qos2());
    lemma_count_total(t, is_puback());
    lemma_count_total(t, is_qos2());
    lemma_total_remove(s.outbound, k, one_if(is_puback()));
    lemma_total_remove(s.outbound, k, one_if(is_qos2()));
    lemma_count_total(s.outbound, is_second());
    lemma_count_total(t, is_second());
    lemma_total_remove(s.outbound, k, one_if(is_second()));
}

pub proof fn lemma_exchange_changed(s: SessionView, k: int, e: OutboundView)
    requires
        0 <= k < s.outbound.len(),
        charge_of(e.message) == charge_of(s.outbound[k].message),
        (e.stage == OutboundStage::Puback) == (s.outbound[k].stage == OutboundStage::Puback),
    ensures
        usage_of((SessionView { outbound: s.outbound.update(k, e), ..s })) == usage_of(s),
        e.message.qos == s.outbound[k].message.qos ==> second_count(
            (SessionView { outbound: s.outbound.update(k, e), ..s }),
        ) == second_count(s),
{
    let t = s.outbound.update(k, e);
    lemma_total_update(s.outbound, k, e, outbound_charge());
    lemma_count_total(s.outbound, is_puback());
    lemma_count_total(s.outbound, is_qos2());
    lemma_count_total(t, is_puback());
    lemma_count_total(t, is_qos2());
    lemma_total_update(s.outbound, k, e, one_if(is_puback()));
    lemma_total_update(s.outbound, k, e, one_if(is_qos2()));
    lemma_count_total(s.outbound, is_second());
    lemma_count_total(t, is_second());
    lemma_total_update(s.outbound, k, e, one_if(is_second()));
}

/// The amounts of a session with one more received message.
pub open spec fn received_more(u: UsageView, e: InboundView) -> UsageView {
    UsageView {
        state_bytes: u.state_bytes + charge_of(e.message),
        qos2_inflight: u.qos2_inflight + 1,
        ..u
    }
}

pub proof fn lemma_received_more(s: SessionView, e: InboundView, window: Set<u16>)
    ensures
        usage_of(
            (SessionView { inbound: s.inbound.push(e), inbound_window: window, ..s }),
        ) == received_more(usage_of(s), e),
{
    lemma_total_push(s.inbound, e, inbound_charge());
}

pub proof fn lemma_received_less(s: SessionView, k: int)
    requires
        0 <= k < s.inbound.len(),
    ensures
        within(usage_of((SessionView { inbound: s.inbound.remove(k), ..s })), usage_of(s)),
{
    lemma_total_remove(s.inbound, k, inbound_charge());
}

pub proof fn lemma_received_changed(s: SessionView, k: int, e: InboundView)
    requires
        0 <= k < s.inbound.len(),
        e.message == s.inbound[k].message,
    ensures
        usage_of((SessionView { inbound: s.inbound.update(k, e), ..s })) == usage_of(s),
{
    lemma_total_update(s.inbound, k, e, inbound_charge());
}

/// The amounts of a session with one more message that waits.
pub open spec fn waiting_more(u: UsageView, message: MessageView) -> UsageView {
    UsageView {
        state_bytes: u.state_bytes + charge_of(message),
        offline_count: u.offline_count + 1,
        offline_bytes: u.offline_bytes + charge_of(message),
        ..u
    }
}

pub proof fn lemma_waiting_more(s: SessionView, message: MessageView)
    ensures
        usage_of((SessionView { offline: s.offline.push(message), ..s })) == waiting_more(
            usage_of(s),
            message,
        ),
{
    lemma_total_push(s.offline, message, message_charge());
}

/// The exchanges that ask for the second quality of service are among those that are of it.
pub proof fn lemma_second_count(s: SessionView)
    ensures
        second_count(s) <= usage_of(s).qos2_inflight,
{
    lemma_second_among(s.outbound);
}

proof fn lemma_second_among(s: Seq<OutboundView>)
    ensures
        count(s, is_second()) <= count(s, is_qos2()),
    decreases s.len(),
{
    if s.len() > 0 {
        lemma_second_among(s.drop_last());
    }
}

/// A waiting message made an exchange takes no more room, but for the exchange itself.
pub proof fn lemma_promoted(s: SessionView, id: u16)
    requires
        s.offline.len() > 0,
    ensures
        ({
            let u = usage_of(s);
            let v = usage_of(promoted(s, id));
            let e = fresh_exchange(id, s.offline[0], false);
            &&& v.subscriptions == u.subscriptions
            &&& v.state_bytes == u.state_bytes
            &&& v.offline_count <= u.offline_count
            &&& v.offline_bytes <= u.offline_bytes
            &&& v.qos1_inflight == u.qos1_inflight + in_class(e, true)
            &&& v.qos2_inflight == u.qos2_inflight + in_class(e, false)
            &&& second_count(promoted(s, id)) == second_count(s) + if is_second()(e) {
                1nat
            } else {
                0nat
            }
        }),
{
    let e = fresh_exchange(id, s.offline[0], false);
    lemma_total_remove(s.offline, 0, message_charge());
    lemma_total_push(s.outbound, e, outbound_charge());
    assert(s.outbound.push(e).drop_last() =~= s.outbound);
}

proof fn lemma_slimmed(s: Seq<OutboundView>, now: i64)
    ensures
        total(slim_all(s, now), outbound_charge()) <= total(s, outbound_charge()),
        count(slim_all(s, now), is_puback()) == count(s, is_puback()),
        count(slim_all(s, now), is_qos2()) == count(s, is_qos2()),
        count(slim_all(s, now), is_second()) == count(s, is_second()),
    decreases s.len(),
{
    if s.len() > 0 {
        lemma_slimmed(s.drop_last(), now);
        assert(slim_all(s, now).drop_last() =~= slim_all(s.drop_last(), now));
        let e = s.last();
        assert(slim_all(s, now).last() == slimmed(e, now));
        assert(charge_of(emptied(e.message)) <= charge_of(e.message));
    }
}

pub proof fn lemma_pruned(s: SessionView, now: i64)
    ensures
        within(usage_of(pruned(s, now)), usage_of(s)),
        second_count(pruned(s, now)) <= second_count(s),
{
    let kept = keep(s.outbound, exchange_stays(now));
    lemma_keep_members(s.offline, fresh_message(now));
    lemma_keep_total(s.offline, fresh_message(now), message_charge());
    lemma_keep_total(s.outbound, exchange_stays(now), outbound_charge());
    lemma_slimmed(kept, now);
    lemma_count_total(s.outbound, is_puback());
    lemma_count_total(s.outbound, is_qos2());
    lemma_count_total(kept, is_puback());
    lemma_count_total(kept, is_qos2());
    lemma_keep_total(s.outbound, exchange_stays(now), one_if(is_puback()));
    lemma_keep_total(s.outbound, exchange_stays(now), one_if(is_qos2()));
    lemma_count_total(s.outbound, is_second());
    lemma_count_total(kept, is_second());
    lemma_keep_total(s.outbound, exchange_stays(now), one_if(is_second()));
}

/// To whom the exchanges were handed makes no difference.
pub proof fn lemma_unhanded(s: SessionView, t: SessionView)
    requires
        t.key == s.key,
        t.subscriptions == s.subscriptions,
        t.offline == s.offline,
        t.inbound == s.inbound,
        t.outbound == unhanded(s.outbound),
    ensures
        usage_of(t) == usage_of(s),
        second_count(t) == second_count(s),
{
    lemma_total_same(t.outbound, s.outbound, outbound_charge(), outbound_charge());
    lemma_count_total(s.outbound, is_puback());
    lemma_count_total(s.outbound, is_qos2());
    lemma_count_total(t.outbound, is_puback());
    lemma_count_total(t.outbound, is_qos2());
    lemma_total_same(t.outbound, s.outbound, one_if(is_puback()), one_if(is_puback()));
    lemma_total_same(t.outbound, s.outbound, one_if(is_qos2()), one_if(is_qos2()));
    lemma_count_total(s.outbound, is_second());
    lemma_count_total(t.outbound, is_second());
    lemma_total_same(t.outbound, s.outbound, one_if(is_second()), one_if(is_second()));
}

} // verus!
