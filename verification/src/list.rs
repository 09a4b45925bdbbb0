//! Sums, counts and first positions in sequences.
use vstd::prelude::*;

verus! {

/// The sum of a measure over a sequence.
pub open spec fn total<T>(s: Seq<T>, f: spec_fn(T) -> nat) -> nat
    decreases s.len(),
{
    if s.len() == 0 {
        0
    } else {
        total(s.drop_last(), f) + f(s.last())
    }
}

pub proof fn lemma_total_push<T>(s: Seq<T>, x: T, f: spec_fn(T) -> nat)
    ensures
        total(s.push(x), f) == total(s, f) + f(x),
{
    assert(s.push(x).drop_last() =~= s);
}

pub proof fn lemma_total_add<T>(s: Seq<T>, t: Seq<T>, f: spec_fn(T) -> nat)
    ensures
        total(s + t, f) == total(s, f) + total(t, f),
    decreases t.len(),
{
    if t.len() == 0 {
        assert(s + t =~= s);
    } else {
        lemma_total_add(s, t.drop_last(), f);
        assert((s + t).drop_last() =~= s + t.drop_last());
    }
}

pub proof fn lemma_total_remove<T>(s: Seq<T>, i: int, f: spec_fn(T) -> nat)
    requires
        0 <= i < s.len(),
    ensures
        total(s.remove(i), f) + f(s[i]) == total(s, f),
{
    lemma_total_add(s.take(i), s.skip(i + 1), f);
    lemma_total_add(s.take(i), seq![s[i]] + s.skip(i + 1), f);
    lemma_total_add(seq![s[i]], s.skip(i + 1), f);
    assert(s.remove(i) =~= s.take(i) + s.skip(i + 1));
    assert(s =~= s.take(i) + (seq![s[i]] + s.skip(i + 1)));
    assert(seq![s[i]].drop_last() =~= Seq::<T>::empty());
    assert(total(seq![s[i]], f) == f(s[i])) by {
        reveal_with_fuel(total, 2);
    }
}

pub proof fn lemma_total_update<T>(s: Seq<T>, i: int, x: T, f: spec_fn(T) -> nat)
    requires
        0 <= i < s.len(),
    ensures
        total(s.update(i, x), f) + f(s[i]) == total(s, f) + f(x),
{
    lemma_total_remove(s, i, f);
    lemma_total_remove(s.update(i, x), i, f);
    assert(s.update(i, x).remove(i) =~= s.remove(i));
}

pub proof fn lemma_total_member<T>(s: Seq<T>, i: int, f: spec_fn(T) -> nat)
    requires
        0 <= i < s.len(),
    ensures
        f(s[i]) <= total(s, f),
{
    lemma_total_remove(s, i, f);
}

pub proof fn lemma_total_take<T>(s: Seq<T>, i: int, f: spec_fn(T) -> nat)
    requires
        0 <= i < s.len(),
    ensures
        total(s.take(i + 1), f) == total(s.take(i), f) + f(s[i]),
        total(s.take(i + 1), f) <= total(s, f),
{
    assert(s.take(i + 1).drop_last() =~= s.take(i));
    lemma_total_add(s.take(i + 1), s.skip(i + 1), f);
    assert(s =~= s.take(i + 1) + s.skip(i + 1));
}

/// A measure that is nowhere smaller has a sum that is no smaller.
pub proof fn lemma_total_le<T>(s: Seq<T>, f: spec_fn(T) -> nat, g: spec_fn(T) -> nat)
    requires
        forall|i: int| 0 <= i < s.len() ==> f(#[trigger] s[i]) <= g(s[i]),
    ensures
        total(s, f) <= total(s, g),
    decreases s.len(),
{
    if s.len() > 0 {
        lemma_total_le(s.drop_last(), f, g);
    }
}

/// A measure that agrees everywhere has the same sum.
pub proof fn lemma_total_same<T>(s: Seq<T>, t: Seq<T>, f: spec_fn(T) -> nat, g: spec_fn(T) -> nat)
    requires
        s.len() == t.len(),
        forall|i: int| 0 <= i < s.len() ==> f(#[trigger] s[i]) == g(t[i]),
    ensures
        total(s, f) == total(t, g),
    decreases s.len(),
{
    if s.len() > 0 {
        lemma_total_same(s.drop_last(), t.drop_last(), f, g);
    }
}

/// The number of elements with a property.
pub open spec fn count<T>(s: Seq<T>, p: spec_fn(T) -> bool) -> nat
    decreases s.len(),
{
    if s.len() == 0 {
        0
    } else {
        count(s.drop_last(), p) + (if p(s.last()) {
            1nat
        } else {
            0nat
        })
    }
}

pub open spec fn one_if<T>(p: spec_fn(T) -> bool) -> spec_fn(T) -> nat {
    |x: T|
        if p(x) {
            1nat
        } else {
            0nat
        }
}

pub proof fn lemma_count_total<T>(s: Seq<T>, p: spec_fn(T) -> bool)
    ensures
        count(s, p) == total(s, one_if(p)),
        count(s, p) <= s.len(),
    decreases s.len(),
{
    if s.len() > 0 {
        lemma_count_total(s.drop_last(), p);
    }
}

/// `i` is the first position with the property.
pub open spec fn is_first<T>(s: Seq<T>, p: spec_fn(T) -> bool, i: int) -> bool {
    &&& 0 <= i < s.len()
    &&& p(s[i])
    &&& forall|j: int| 0 <= j < i ==> !p(#[trigger] s[j])
}

/// The first position with the property, if there is one.
pub open spec fn first<T>(s: Seq<T>, p: spec_fn(T) -> bool) -> Option<int> {
    if exists|i: int| is_first(s, p, i) {
        Some(choose|i: int| is_first(s, p, i))
    } else {
        None
    }
}

pub proof fn lemma_first_is<T>(s: Seq<T>, p: spec_fn(T) -> bool, i: int)
    requires
        is_first(s, p, i),
    ensures
        first(s, p) == Some(i),
{
    let found = choose|i: int| is_first(s, p, i);
    assert(is_first(s, p, found));
    if found < i {
        assert(!p(s[found]));
    }
    if i < found {
        assert(!p(s[i]));
    }
}

pub proof fn lemma_first_none<T>(s: Seq<T>, p: spec_fn(T) -> bool)
    requires
        forall|i: int| 0 <= i < s.len() ==> !p(#[trigger] s[i]),
    ensures
        first(s, p) is None,
{
    assert forall|i: int| !is_first(s, p, i) by {
        if 0 <= i < s.len() {
            assert(!p(s[i]));
        }
    }
}

/// What the first position says about the sequence.
pub proof fn lemma_first<T>(s: Seq<T>, p: spec_fn(T) -> bool)
    ensures
        first(s, p) matches Some(i) ==> is_first(s, p, i),
        first(s, p) is None ==> forall|i: int| 0 <= i < s.len() ==> !p(#[trigger] s[i]),
    decreases s.len(),
{
    if first(s, p) is None {
        assert forall|i: int| 0 <= i < s.len() implies !p(#[trigger] s[i]) by {
            if p(s[i]) {
                lemma_some_first(s, p, i);
            }
        }
    }
}

proof fn lemma_some_first<T>(s: Seq<T>, p: spec_fn(T) -> bool, i: int)
    requires
        0 <= i < s.len(),
        p(s[i]),
    ensures
        exists|j: int| is_first(s, p, j),
    decreases i,
{
    if exists|j: int| 0 <= j < i && p(#[trigger] s[j]) {
        let j = choose|j: int| 0 <= j < i && p(#[trigger] s[j]);
        lemma_some_first(s, p, j);
    } else {
        assert(is_first(s, p, i));
    }
}

/// No two elements have the same key.
pub open spec fn distinct<T, K>(s: Seq<T>, key: spec_fn(T) -> K) -> bool {
    forall|i: int, j: int|
        0 <= i < s.len() && 0 <= j < s.len() && i != j ==> key(#[trigger] s[i]) != key(
            #[trigger] s[j],
        )
}

/// The elements with a property, in their order.
pub open spec fn keep<T>(s: Seq<T>, p: spec_fn(T) -> bool) -> Seq<T>
    decreases s.len(),
{
    if s.len() == 0 {
        s
    } else {
        let front = keep(s.drop_last(), p);
        if p(s.last()) {
            front.push(s.last())
        } else {
            front
        }
    }
}

pub proof fn lemma_keep_step<T>(s: Seq<T>, p: spec_fn(T) -> bool, i: int)
    requires
        0 <= i < s.len(),
    ensures
        keep(s.take(i + 1), p) == if p(s[i]) {
            keep(s.take(i), p).push(s[i])
        } else {
            keep(s.take(i), p)
        },
{
    assert(s.take(i + 1).drop_last() =~= s.take(i));
}

/// Every kept element has the property and stands in the sequence.
pub proof fn lemma_keep_members<T>(s: Seq<T>, p: spec_fn(T) -> bool)
    ensures
        keep(s, p).len() <= s.len(),
        forall|i: int|
            0 <= i < keep(s, p).len() ==> p(#[trigger] keep(s, p)[i]) && s.contains(keep(s, p)[i]),
    decreases s.len(),
{
    if s.len() > 0 {
        let front = s.drop_last();
        lemma_keep_members(front, p);
        assert forall|i: int| 0 <= i < keep(s, p).len() implies p(#[trigger] keep(s, p)[i])
            && s.contains(keep(s, p)[i]) by {
            if i < keep(front, p).len() {
                assert(keep(s, p)[i] == keep(front, p)[i]);
                let j = choose|j: int| 0 <= j < front.len() && front[j] == keep(front, p)[i];
                assert(s[j] == keep(s, p)[i]);
            } else {
                assert(s[s.len() - 1] == keep(s, p)[i]);
            }
        }
    }
}

/// Every element with the property is kept.
pub proof fn lemma_keep_all<T>(s: Seq<T>, p: spec_fn(T) -> bool, i: int)
    requires
        0 <= i < s.len(),
        p(s[i]),
    ensures
        keep(s, p).contains(s[i]),
    decreases s.len(),
{
    let front = s.drop_last();
    if i < front.len() {
        lemma_keep_all(front, p, i);
        let j = choose|j: int| 0 <= j < keep(front, p).len() && keep(front, p)[j] == s[i];
        assert(keep(s, p)[j] == s[i]);
    } else {
        assert(keep(s, p).last() == s[i]);
    }
}

pub open spec fn not_fn<T>(p: spec_fn(T) -> bool) -> spec_fn(T) -> bool {
    |x: T| !p(x)
}

/// What is kept and what is dropped add up to the whole.
pub proof fn lemma_keep_total<T>(s: Seq<T>, p: spec_fn(T) -> bool, f: spec_fn(T) -> nat)
    ensures
        total(keep(s, p), f) + total(keep(s, not_fn(p)), f) == total(s, f),
    decreases s.len(),
{
    if s.len() > 0 {
        let front = s.drop_last();
        lemma_keep_total(front, p, f);
        if p(s.last()) {
            lemma_total_push(keep(front, p), s.last(), f);
        } else {
            lemma_total_push(keep(front, not_fn(p)), s.last(), f);
        }
    }
}

/// Dropping elements keeps keys distinct.
pub proof fn lemma_keep_distinct<T, K>(s: Seq<T>, p: spec_fn(T) -> bool, key: spec_fn(T) -> K)
    requires
        distinct(s, key),
    ensures
        distinct(keep(s, p), key),
    decreases s.len(),
{
    if s.len() > 0 {
        let front = s.drop_last();
        assert(distinct(front, key)) by {
            assert forall|i: int, j: int|
                0 <= i < front.len() && 0 <= j < front.len() && i != j implies key(
                #[trigger] front[i],
            ) != key(#[trigger] front[j]) by {
                assert(key(s[i]) != key(s[j]));
            }
        }
        lemma_keep_distinct(front, p, key);
        if p(s.last()) {
            let kept = keep(front, p);
            lemma_keep_members(front, p);
            assert forall|i: int, j: int|
                0 <= i < kept.push(s.last()).len() && 0 <= j < kept.push(s.last()).len() && i
                    != j implies key(#[trigger] kept.push(s.last())[i]) != key(
                #[trigger] kept.push(s.last())[j],
            ) by {
                if i < kept.len() && j < kept.len() {
                    assert(key(kept[i]) != key(kept[j]));
                } else if i < kept.len() {
                    let at = choose|at: int| 0 <= at < front.len() && front[at] == kept[i];
                    assert(key(s[at]) != key(s[s.len() - 1]));
                } else {
                    let at = choose|at: int| 0 <= at < front.len() && front[at] == kept[j];
                    assert(key(s[at]) != key(s[s.len() - 1]));
                }
            }
        }
    }
}

pub proof fn lemma_distinct_push<T, K>(s: Seq<T>, x: T, key: spec_fn(T) -> K)
    requires
        distinct(s, key),
        forall|i: int| 0 <= i < s.len() ==> key(#[trigger] s[i]) != key(x),
    ensures
        distinct(s.push(x), key),
{
    let t = s.push(x);
    assert forall|i: int, j: int| 0 <= i < t.len() && 0 <= j < t.len() && i != j implies key(
        #[trigger] t[i],
    ) != key(#[trigger] t[j]) by {
        if i < s.len() && j < s.len() {
            assert(key(s[i]) != key(s[j]));
        } else if i < s.len() {
            assert(key(s[i]) != key(x));
        } else {
            assert(key(s[j]) != key(x));
        }
    }
}

pub proof fn lemma_distinct_remove<T, K>(s: Seq<T>, at: int, key: spec_fn(T) -> K)
    requires
        distinct(s, key),
        0 <= at < s.len(),
    ensures
        distinct(s.remove(at), key),
        forall|i: int| 0 <= i < s.remove(at).len() ==> key(#[trigger] s.remove(at)[i]) != key(s[at]),
{
    let t = s.remove(at);
    assert forall|i: int, j: int| 0 <= i < t.len() && 0 <= j < t.len() && i != j implies key(
        #[trigger] t[i],
    ) != key(#[trigger] t[j]) by {
        let a = if i < at {
            i
        } else {
            i + 1
        };
        let b = if j < at {
            j
        } else {
            j + 1
        };
        assert(key(s[a]) != key(s[b]));
    }
    assert forall|i: int| 0 <= i < t.len() implies key(#[trigger] t[i]) != key(s[at]) by {
        let a = if i < at {
            i
        } else {
            i + 1
        };
        assert(key(s[a]) != key(s[at]));
    }
}

pub proof fn lemma_distinct_update<T, K>(s: Seq<T>, at: int, x: T, key: spec_fn(T) -> K)
    requires
        distinct(s, key),
        0 <= at < s.len(),
        key(x) == key(s[at]),
    ensures
        distinct(s.update(at, x), key),
{
    let t = s.update(at, x);
    assert forall|i: int, j: int| 0 <= i < t.len() && 0 <= j < t.len() && i != j implies key(
        #[trigger] t[i],
    ) != key(#[trigger] t[j]) by {
        assert(key(s[i]) != key(s[j]));
    }
}

} // verus!
