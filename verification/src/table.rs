//! Small tables and deadline indexes over keys that are compared by what they say.
use crate::identity::{DeviceKey, SessionKey, TenantId};
use crate::list::{
    distinct, first, is_first, lemma_distinct_push, lemma_distinct_remove, lemma_distinct_update,
    lemma_first, lemma_first_is, lemma_first_none,
};
use crate::text::same_text;
use vstd::prelude::*;

verus! {

/// A key that can be compared and copied by what it says.
pub trait Key: View + Sized {
    fn matches(&self, other: &Self) -> (same: bool)
        ensures
            same == (self@ == other@),
    ;

    fn duplicate(&self) -> (copy: Self)
        ensures
            copy@ == self@,
    ;
}

impl Key for TenantId {
    fn matches(&self, other: &TenantId) -> (same: bool) {
        self.same(other)
    }

    fn duplicate(&self) -> (copy: TenantId) {
        self.clone()
    }
}

impl Key for DeviceKey {
    fn matches(&self, other: &DeviceKey) -> (same: bool) {
        self.same(other)
    }

    fn duplicate(&self) -> (copy: DeviceKey) {
        self.clone()
    }
}

impl Key for SessionKey {
    fn matches(&self, other: &SessionKey) -> (same: bool) {
        self.same(other)
    }

    fn duplicate(&self) -> (copy: SessionKey) {
        self.clone()
    }
}

impl Key for String {
    fn matches(&self, other: &String) -> (same: bool) {
        same_text(self.as_str(), other.as_str())
    }

    fn duplicate(&self) -> (copy: String) {
        self.clone()
    }
}

/// The keys of a table's entries with their values.
pub open spec fn entry_views<K: Key, X>(s: Seq<(K, X)>) -> Seq<(K::V, X)> {
    Seq::new(s.len(), |i: int| (s[i].0@, s[i].1))
}

pub open spec fn entry_is<V, X>(key: V) -> spec_fn((V, X)) -> bool {
    |e: (V, X)| e.0 == key
}

pub open spec fn entry_key<V, X>() -> spec_fn((V, X)) -> V {
    |e: (V, X)| e.0
}

/// The value that stands beside a key.
pub open spec fn lookup<V, X>(s: Seq<(V, X)>, key: V) -> Option<X> {
    match first(s, entry_is(key)) {
        Some(i) => Some(s[i].1),
        None => None,
    }
}

/// The entries with the value of a key replaced, added or taken away.
pub open spec fn with_entry<V, X>(s: Seq<(V, X)>, key: V, value: Option<X>) -> Seq<(V, X)> {
    match (first(s, entry_is(key)), value) {
        (Some(i), Some(value)) => s.update(i, (key, value)),
        (Some(i), None) => s.remove(i),
        (None, Some(value)) => s.push((key, value)),
        (None, None) => s,
    }
}

/// A key has at most one value, the one given last, and other keys keep theirs.
pub proof fn law_one_value_per_key<V, X>(s: Seq<(V, X)>, key: V, value: Option<X>, other: V)
    requires
        distinct(s, entry_key()),
    ensures
        distinct(with_entry(s, key, value), entry_key()),
        lookup(with_entry(s, key, value), key) == value,
        other != key ==> lookup(with_entry(s, key, value), other) == lookup(s, other),
{
    let t = with_entry(s, key, value);
    lemma_first(s, entry_is::<V, X>(key));
    lemma_first(s, entry_is::<V, X>(other));
    lemma_first(t, entry_is::<V, X>(key));
    lemma_first(t, entry_is::<V, X>(other));
    match (first(s, entry_is::<V, X>(key)), value) {
        (Some(i), Some(value)) => {
            lemma_distinct_update(s, i, (key, value), entry_key());
            assert(is_first(t, entry_is::<V, X>(key), i)) by {
                assert forall|j: int| 0 <= j < i implies !entry_is::<V, X>(key)(#[trigger] t[j]) by {
                    assert(!entry_is::<V, X>(key)(s[j]));
                }
            }
            lemma_first_is(t, entry_is::<V, X>(key), i);
            if other != key {
                if let Some(k) = first(s, entry_is::<V, X>(other)) {
                    assert(k != i);
                    assert(is_first(t, entry_is::<V, X>(other), k)) by {
                        assert forall|j: int| 0 <= j < k implies !entry_is::<V, X>(other)(
                            #[trigger] t[j],
                        ) by {
                            assert(!entry_is::<V, X>(other)(s[j]));
                        }
                    }
                    lemma_first_is(t, entry_is::<V, X>(other), k);
                } else {
                    assert forall|j: int| 0 <= j < t.len() implies !entry_is::<V, X>(other)(
                        #[trigger] t[j],
                    ) by {
                        assert(!entry_is::<V, X>(other)(s[j]));
                    }
                    lemma_first_none(t, entry_is::<V, X>(other));
                }
            }
        },
        (Some(i), None) => {
            lemma_distinct_remove(s, i, entry_key());
            assert forall|j: int| 0 <= j < t.len() implies !entry_is::<V, X>(key)(
                #[trigger] t[j],
            ) by {
                assert(entry_key::<V, X>()(t[j]) != entry_key::<V, X>()(s[i]));
            }
            lemma_first_none(t, entry_is::<V, X>(key));
            if other != key {
                if let Some(k) = first(s, entry_is::<V, X>(other)) {
                    let moved = if k < i {
                        k
                    } else {
                        k - 1
                    };
                    assert(k != i);
                    assert(is_first(t, entry_is::<V, X>(other), moved)) by {
                        assert forall|j: int| 0 <= j < moved implies !entry_is::<V, X>(other)(
                            #[trigger] t[j],
                        ) by {
                            let before = if j < i {
                                j
                            } else {
                                j + 1
                            };
                            assert(!entry_is::<V, X>(other)(s[before]));
                        }
                    }
                    lemma_first_is(t, entry_is::<V, X>(other), moved);
                } else {
                    assert forall|j: int| 0 <= j < t.len() implies !entry_is::<V, X>(other)(
                        #[trigger] t[j],
                    ) by {
                        let before = if j < i {
                            j
                        } else {
                            j + 1
                        };
                        assert(!entry_is::<V, X>(other)(s[before]));
                    }
                    lemma_first_none(t, entry_is::<V, X>(other));
                }
            }
        },
        (None, Some(value)) => {
            assert forall|j: int| 0 <= j < s.len() implies entry_key::<V, X>()(#[trigger] s[j])
                != entry_key::<V, X>()((key, value)) by {
                assert(!entry_is::<V, X>(key)(s[j]));
            }
            lemma_distinct_push(s, (key, value), entry_key());
            assert(is_first(t, entry_is::<V, X>(key), s.len() as int)) by {
                assert forall|j: int| 0 <= j < s.len() implies !entry_is::<V, X>(key)(
                    #[trigger] t[j],
                ) by {
                    assert(!entry_is::<V, X>(key)(s[j]));
                }
            }
            lemma_first_is(t, entry_is::<V, X>(key), s.len() as int);
            if other != key {
                if let Some(k) = first(s, entry_is::<V, X>(other)) {
                    assert(is_first(t, entry_is::<V, X>(other), k)) by {
                        assert forall|j: int| 0 <= j < k implies !entry_is::<V, X>(other)(
                            #[trigger] t[j],
                        ) by {
                            assert(!entry_is::<V, X>(other)(s[j]));
                        }
                    }
                    lemma_first_is(t, entry_is::<V, X>(other), k);
                } else {
                    assert forall|j: int| 0 <= j < t.len() implies !entry_is::<V, X>(other)(
                        #[trigger] t[j],
                    ) by {
                        if j < s.len() {
                            assert(!entry_is::<V, X>(other)(s[j]));
                        }
                    }
                    lemma_first_none(t, entry_is::<V, X>(other));
                }
            }
        },
        (None, None) => {},
    }
}

/// A table: values beside keys, no key twice.
#[derive(Debug, PartialEq, Eq)]
pub struct Table<K: Key, X: Copy> {
    pub entries: Vec<(K, X)>,
}

impl<K: Key, X: Copy> View for Table<K, X> {
    type V = Seq<(K::V, X)>;

    open spec fn view(&self) -> Seq<(K::V, X)> {
        entry_views(self.entries@)
    }
}

impl<K: Key, X: Copy> Table<K, X> {
    pub fn new() -> (table: Table<K, X>)
        ensures
            table@ == Seq::<(K::V, X)>::empty(),
    {
        let table = Table { entries: Vec::new() };
        assert(table@ =~= Seq::<(K::V, X)>::empty());
        table
    }

    fn find(&self, key: &K) -> (position: Option<usize>)
        ensures
            match position {
                Some(i) => first(self@, entry_is(key@)) == Some(i as int) && i < self.entries@.len(),
                None => first(self@, entry_is(key@)) is None,
            },
    {
        let mut at: usize = 0;
        while at < self.entries.len()
            invariant
                at <= self.entries.len(),
                forall|j: int| 0 <= j < at ==> !entry_is::<K::V, X>(key@)(#[trigger] self@[j]),
            decreases self.entries.len() - at,
        {
            if self.entries[at].0.matches(key) {
                proof {
                    assert(is_first(self@, entry_is::<K::V, X>(key@), at as int));
                    lemma_first_is(self@, entry_is::<K::V, X>(key@), at as int);
                }
                return Some(at);
            }
            at = at + 1;
        }
        proof {
            lemma_first_none(self@, entry_is::<K::V, X>(key@));
        }
        None
    }

    /// The value that stands beside a key.
    pub fn get(&self, key: &K) -> (value: Option<X>)
        ensures
            value == lookup(self@, key@),
    {
        match self.find(key) {
            Some(at) => Some(self.entries[at].1),
            None => None,
        }
    }

    /// Replaces, adds or takes away the value of a key.
    pub fn put(&mut self, key: &K, value: Option<X>)
        ensures
            final(self)@ == with_entry(old(self)@, key@, value),
    {
        let ghost before = self@;
        match (self.find(key), value) {
            (Some(at), Some(value)) => {
                self.entries[at].1 = value;
                assert(before[at as int].0 == key@) by {
                    lemma_first(before, entry_is::<K::V, X>(key@));
                }
                assert(self@ =~= before.update(at as int, (key@, value)));
            },
            (Some(at), None) => {
                self.entries.remove(at);
                assert(self@ =~= before.remove(at as int));
            },
            (None, Some(value)) => {
                self.entries.push((key.duplicate(), value));
                assert(self@ =~= before.push((key@, value)));
            },
            (None, None) => {},
        }
    }
}

/// `i` is the first position with the least deadline.
pub open spec fn is_earliest<V>(s: Seq<(V, i64)>, i: int) -> bool {
    &&& 0 <= i < s.len()
    &&& forall|j: int| 0 <= j < s.len() ==> s[i].1 <= (#[trigger] s[j]).1
    &&& forall|j: int| 0 <= j < i ==> s[i].1 < (#[trigger] s[j]).1
}

/// The position of the earliest deadline that has passed.
pub open spec fn due_at<V>(s: Seq<(V, i64)>, now: i64) -> Option<int> {
    if exists|i: int| is_earliest(s, i) && s[i].1 <= now {
        Some(choose|i: int| is_earliest(s, i) && s[i].1 <= now)
    } else {
        None
    }
}

pub proof fn lemma_due_is<V>(s: Seq<(V, i64)>, now: i64, i: int)
    requires
        is_earliest(s, i),
        s[i].1 <= now,
    ensures
        due_at(s, now) == Some(i),
{
    let found = choose|i: int| is_earliest(s, i) && s[i].1 <= now;
    assert(is_earliest(s, found) && s[found].1 <= now);
    if found < i {
        assert(s[i].1 < s[found].1);
    }
    if i < found {
        assert(s[found].1 < s[i].1);
    }
}

/// Something is due exactly when some deadline has passed.
pub proof fn law_due_when_passed<V>(s: Seq<(V, i64)>, now: i64)
    ensures
        due_at(s, now) is Some <==> exists|i: int| 0 <= i < s.len() && (#[trigger] s[i]).1 <= now,
        due_at(s, now) matches Some(i) ==> is_earliest(s, i) && s[i].1 <= now,
{
    if exists|i: int| 0 <= i < s.len() && (#[trigger] s[i]).1 <= now {
        let i = choose|i: int| 0 <= i < s.len() && (#[trigger] s[i]).1 <= now;
        lemma_earliest_exists(s);
        let e = choose|e: int| is_earliest(s, e);
        assert(s[e].1 <= s[i].1);
    }
}

proof fn lemma_earliest_exists<V>(s: Seq<(V, i64)>)
    requires
        s.len() > 0,
    ensures
        exists|i: int| is_earliest(s, i),
    decreases s.len(),
{
    if s.len() == 1 {
        assert(is_earliest(s, 0));
    } else {
        let front = s.drop_last();
        lemma_earliest_exists(front);
        let e = choose|e: int| is_earliest(front, e);
        assert(forall|j: int| 0 <= j < front.len() ==> front[j] == #[trigger] s[j]);
        if s.last().1 < s[e].1 {
            assert(is_earliest(s, s.len() - 1)) by {
                assert forall|j: int| 0 <= j < s.len() - 1 implies s.last().1 < (#[trigger] s[j]).1 by {
                    assert(front[e].1 <= front[j].1);
                }
            }
        } else {
            assert(is_earliest(s, e)) by {
                assert forall|j: int| 0 <= j < s.len() implies s[e].1 <= (#[trigger] s[j]).1 by {
                    if j < s.len() - 1 {
                        assert(front[e].1 <= front[j].1);
                    }
                }
                assert forall|j: int| 0 <= j < e implies s[e].1 < (#[trigger] s[j]).1 by {
                    assert(front[e].1 < front[j].1);
                }
            }
        }
    }
}

/// One deadline per key. A replacement leaves nothing of the earlier deadline behind.
#[derive(Debug, PartialEq, Eq)]
pub struct DeadlineIndex<K: Key> {
    pub table: Table<K, i64>,
}

impl<K: Key> View for DeadlineIndex<K> {
    type V = Seq<(K::V, i64)>;

    open spec fn view(&self) -> Seq<(K::V, i64)> {
        self.table@
    }
}

impl<K: Key> DeadlineIndex<K> {
    pub fn new() -> (index: DeadlineIndex<K>)
        ensures
            index@ == Seq::<(K::V, i64)>::empty(),
    {
        DeadlineIndex { table: Table::new() }
    }

    fn earliest(&self) -> (position: Option<usize>)
        ensures
            match position {
                Some(i) => is_earliest(self@, i as int) && i < self.table.entries@.len(),
                None => self@.len() == 0,
            },
    {
        if self.table.entries.len() == 0 {
            return None;
        }
        let mut best: usize = 0;
        let mut at: usize = 1;
        while at < self.table.entries.len()
            invariant
                0 <= best < at <= self.table.entries.len(),
                forall|j: int| 0 <= j < at ==> self@[best as int].1 <= (#[trigger] self@[j]).1,
                forall|j: int| 0 <= j < best ==> self@[best as int].1 < (#[trigger] self@[j]).1,
            decreases self.table.entries.len() - at,
        {
            if self.table.entries[at].1 < self.table.entries[best].1 {
                best = at;
            }
            at = at + 1;
        }
        Some(best)
    }

    /// Whether some deadline has passed.
    pub fn has_due(&self, now: i64) -> (due: bool)
        ensures
            due == (due_at(self@, now) is Some),
    {
        match self.earliest() {
            Some(at) => {
                let due = self.table.entries[at].1 <= now;
                proof {
                    law_due_when_passed(self@, now);
                    if due {
                        lemma_due_is(self@, now, at as int);
                    }
                }
                due
            },
            None => {
                proof {
                    law_due_when_passed(self@, now);
                }
                false
            },
        }
    }

    /// The deadline of a key.
    pub fn get(&self, key: &K) -> (deadline: Option<i64>)
        ensures
            deadline == lookup(self@, key@),
    {
        self.table.get(key)
    }

    /// Sets or clears the deadline of a key.
    pub fn update(&mut self, key: &K, deadline: Option<i64>)
        ensures
            final(self)@ == with_entry(old(self)@, key@, deadline),
    {
        self.table.put(key, deadline);
    }

    /// Takes out the key whose deadline passed first.
    pub fn pop_due(&mut self, now: i64) -> (key: Option<K>)
        ensures
            match due_at(old(self)@, now) {
                Some(i) => key is Some && key->0@ == old(self)@[i].0 && final(self)@
                    == old(self)@.remove(i),
                None => key is None && final(self)@ == old(self)@,
            },
    {
        let ghost before = self@;
        proof {
            law_due_when_passed(before, now);
        }
        match self.earliest() {
            Some(at) => {
                if self.table.entries[at].1 > now {
                    return None;
                }
                proof {
                    lemma_due_is(before, now, at as int);
                }
                let entry = self.table.entries.remove(at);
                assert(self@ =~= before.remove(at as int));
                Some(entry.0)
            },
            None => None,
        }
    }
}

} // verus!
