//! Exchanges as the first format records them: a map, an order and a list of those whose transfer
//! had begun.
use super::sort::{models, rank, sort, sort_by, Ranked};
use crate::error::Error;
use crate::list::{first, is_first, lemma_first_is, lemma_first_none};
use crate::session::{outbound_is, outbound_views, OutboundEntry, OutboundView};
use vstd::prelude::*;

verus! {

impl Ranked for OutboundEntry {
    type Model = OutboundView;

    open spec fn model(self) -> OutboundView {
        self@
    }

    open spec fn ranks_before(a: OutboundView, b: OutboundView) -> bool {
        a.packet_id < b.packet_id
    }

    fn goes_before(&self, other: &OutboundEntry) -> (before: bool) {
        self.packet_id < other.packet_id
    }
}

pub open spec fn all_found(entries: Seq<OutboundView>, ids: Seq<u16>) -> bool {
    forall|i: int|
        0 <= i < ids.len() ==> first(entries, outbound_is(#[trigger] ids[i])) is Some
}

/// The order names every exchange once, or is left out.
pub open spec fn order_ok(entries: Seq<OutboundView>, order: Seq<u16>) -> bool {
    order.len() == 0 || (order.len() == entries.len() && order.no_duplicates() && all_found(
        entries,
        order,
    ))
}

pub open spec fn with_start(e: OutboundView, started: Seq<u16>) -> OutboundView {
    OutboundView { started: started.contains(e.packet_id), ..e }
}

/// The exchanges in transmission order; where none was recorded, by identifier.
pub open spec fn arranged(entries: Seq<OutboundView>, order: Seq<u16>, started: Seq<u16>) -> Seq<
    OutboundView,
> {
    let line = if order.len() == 0 {
        sort_by(entries, rank::<OutboundEntry>())
    } else {
        Seq::new(order.len(), |i: int| entries[first(entries, outbound_is(order[i]))->0])
    };
    Seq::new(line.len(), |i: int| with_start(line[i], started))
}

fn find_entry(entries: &Vec<OutboundEntry>, id: u16) -> (position: Option<usize>)
    ensures
        match position {
            Some(i) => first(outbound_views(entries@), outbound_is(id)) == Some(i as int) && i
                < entries@.len(),
            None => first(outbound_views(entries@), outbound_is(id)) is None,
        },
{
    let ghost all = outbound_views(entries@);
    let mut at: usize = 0;
    while at < entries.len()
        invariant
            at <= entries.len(),
            all == outbound_views(entries@),
            forall|j: int| 0 <= j < at ==> !outbound_is(id)(#[trigger] all[j]),
        decreases entries.len() - at,
    {
        assert(all[at as int] == entries@[at as int]@);
        if entries[at].packet_id == id {
            proof {
                assert(is_first(all, outbound_is(id), at as int));
                lemma_first_is(all, outbound_is(id), at as int);
            }
            return Some(at);
        }
        at = at + 1;
    }
    proof {
        lemma_first_none(all, outbound_is(id));
    }
    None
}

fn contains_id(ids: &Vec<u16>, id: u16) -> (found: bool)
    ensures
        found == ids@.contains(id),
{
    let mut at: usize = 0;
    while at < ids.len()
        invariant
            at <= ids.len(),
            forall|i: int| 0 <= i < at ==> ids@[i] != id,
        decreases ids.len() - at,
    {
        if ids[at] == id {
            assert(ids@[at as int] == id);
            return true;
        }
        at = at + 1;
    }
    false
}

fn check_found(entries: &Vec<OutboundEntry>, ids: &Vec<u16>) -> (found: bool)
    ensures
        found == all_found(outbound_views(entries@), ids@),
{
    let mut at: usize = 0;
    while at < ids.len()
        invariant
            at <= ids.len(),
            forall|i: int|
                0 <= i < at ==> first(outbound_views(entries@), outbound_is(#[trigger] ids@[i])) is Some,
        decreases ids.len() - at,
    {
        if find_entry(entries, ids[at]).is_none() {
            assert(first(outbound_views(entries@), outbound_is(ids@[at as int])) is None);
            return false;
        }
        at = at + 1;
    }
    true
}

fn all_different(ids: &Vec<u16>) -> (different: bool)
    ensures
        different == ids@.no_duplicates(),
{
    let mut at: usize = 0;
    while at < ids.len()
        invariant
            at <= ids.len(),
            forall|i: int, j: int| 0 <= i < j < at ==> ids@[i] != ids@[j],
        decreases ids.len() - at,
    {
        let mut back: usize = 0;
        while back < at
            invariant
                back <= at < ids.len(),
                forall|i: int| 0 <= i < back ==> ids@[i] != ids@[at as int],
            decreases at - back,
        {
            if ids[back] == ids[at] {
                assert(ids@[back as int] == ids@[at as int]);
                return false;
            }
            back = back + 1;
        }
        at = at + 1;
    }
    true
}

/// Puts recorded exchanges into transmission order.
pub fn order_outbound(entries: Vec<OutboundEntry>, order: &Vec<u16>, started: &Vec<u16>) -> (result:
    Result<Vec<OutboundEntry>, Error>)
    ensures
        ({
            let all = outbound_views(entries@);
            match result {
                Ok(line) => order_ok(all, order@) && all_found(all, started@) && outbound_views(
                    line@,
                ) == arranged(all, order@, started@),
                Err(error) => !(order_ok(all, order@) && all_found(all, started@)) && error
                    == Error::Invalid,
            }
        }),
{
    let ghost all = outbound_views(entries@);
    if !check_found(&entries, started) {
        return Err(Error::Invalid);
    }
    let length: usize = order.len();
    let mut line: Vec<OutboundEntry> = Vec::new();
    if length == 0 {
        assert(models(entries@) =~= all);
        line = sort(entries);
        assert(models(line@) =~= outbound_views(line@));
    } else {
        assert(all.len() == entries@.len());
        if length != entries.len() || !all_different(order) || !check_found(&entries, order) {
            return Err(Error::Invalid);
        }
        let mut at: usize = 0;
        while at < length
            invariant
                at <= length == order@.len(),
                all == outbound_views(entries@),
                all_found(all, order@),
                line@.len() == at,
                forall|i: int|
                    0 <= i < at ==> (#[trigger] line@[i])@ == all[first(
                        all,
                        outbound_is(order@[i]),
                    )->0],
            decreases length - at,
        {
            assert(first(all, outbound_is(order@[at as int])) is Some);
            if let Some(k) = find_entry(&entries, order[at]) {
                assert(all[k as int] == entries@[k as int]@);
                line.push(entries[k].clone());
            }
            at = at + 1;
        }
    }
    let ghost plain = outbound_views(line@);
    let number: usize = line.len();
    let mut at: usize = 0;
    while at < number
        invariant
            at <= number == line@.len(),
            plain.len() == number,
            forall|i: int|
                0 <= i < at ==> (#[trigger] line@[i])@ == with_start(plain[i], started@),
            forall|i: int| at <= i < number ==> (#[trigger] line@[i])@ == plain[i],
        decreases number - at,
    {
        let begun = contains_id(started, line[at].packet_id);
        line[at].started = begun;
        at = at + 1;
    }
    proof {
        assert(outbound_views(line@) =~= arranged(all, order@, started@));
    }
    Ok(line)
}

} // verus!
