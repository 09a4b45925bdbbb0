//! The subscription trie: who subscribed under which filter, found level by level.
use crate::identity::{KeyView, SessionKey};
use crate::list::{distinct, first, is_first, lemma_first, lemma_first_is, lemma_first_none};
use crate::session::Subscription;
use crate::table::{entry_is, entry_key, law_one_value_per_key, lookup, with_entry};
use crate::text::{characters, lemma_levels_nonempty, level_texts, levels, same_chars, split_levels};
use crate::topics::{is_hash, is_plus, levels_match, matches_spec};
use vstd::prelude::*;

verus! {

/// A node of the trie: the nodes below it by level, and who subscribed here.
#[verifier::ext_equal]
pub struct TrieView {
    pub children: Seq<(Seq<char>, TrieView)>,
    pub subscribers: Seq<(KeyView, Subscription)>,
}

pub open spec fn empty_trie() -> TrieView {
    TrieView { children: Seq::empty(), subscribers: Seq::empty() }
}

pub open spec fn bare(t: TrieView) -> bool {
    t.children.len() == 0 && t.subscribers.len() == 0
}

/// No level and no subscriber stands twice at a node.
pub open spec fn trie_ok(t: TrieView) -> bool
    decreases t,
{
    &&& distinct(t.children, entry_key())
    &&& distinct(t.subscribers, entry_key())
    &&& forall|i: int| 0 <= i < t.children.len() ==> trie_ok(#[trigger] t.children[i].1)
}

pub open spec fn child_or_empty(t: TrieView, level: Seq<char>) -> TrieView {
    match lookup(t.children, level) {
        Some(child) => child,
        None => empty_trie(),
    }
}

/// The subscription that a session holds under a filter.
pub open spec fn subscribed(t: TrieView, path: Seq<Seq<char>>, key: KeyView) -> Option<Subscription>
    decreases path.len(),
{
    if path.len() == 0 {
        lookup(t.subscribers, key)
    } else {
        match lookup(t.children, path[0]) {
            Some(child) => subscribed(child, path.drop_first(), key),
            None => None,
        }
    }
}

pub open spec fn trie_insert(
    t: TrieView,
    path: Seq<Seq<char>>,
    key: KeyView,
    subscription: Subscription,
) -> TrieView
    decreases path.len(),
{
    if path.len() == 0 {
        TrieView { subscribers: with_entry(t.subscribers, key, Some(subscription)), ..t }
    } else {
        let below = trie_insert(
            child_or_empty(t, path[0]),
            path.drop_first(),
            key,
            subscription,
        );
        TrieView { children: with_entry(t.children, path[0], Some(below)), ..t }
    }
}

/// Without a subscription; a node that holds nothing any more is given up.
pub open spec fn trie_remove(t: TrieView, path: Seq<Seq<char>>, key: KeyView) -> TrieView
    decreases path.len(),
{
    if path.len() == 0 {
        TrieView { subscribers: with_entry(t.subscribers, key, None), ..t }
    } else {
        match lookup(t.children, path[0]) {
            Some(child) => {
                let below = trie_remove(child, path.drop_first(), key);
                let kept = if bare(below) {
                    None
                } else {
                    Some(below)
                };
                TrieView { children: with_entry(t.children, path[0], kept), ..t }
            },
            None => t,
        }
    }
}

/// Overlapping subscriptions of one session: the highest quality of service, local messages
/// unless every one declines them, the retain flag as published if any one wants it.
pub open spec fn overlaid(first: Subscription, second: Subscription) -> Subscription {
    Subscription {
        qos: if first.qos >= second.qos {
            first.qos
        } else {
            second.qos
        },
        no_local: first.no_local && second.no_local,
        retain_as_published: first.retain_as_published || second.retain_as_published,
        retain_handling: first.retain_handling,
    }
}

pub open spec fn merge_one(
    out: Seq<(KeyView, Subscription)>,
    key: KeyView,
    subscription: Subscription,
) -> Seq<(KeyView, Subscription)> {
    with_entry(
        out,
        key,
        Some(
            match lookup(out, key) {
                Some(existing) => overlaid(existing, subscription),
                None => subscription,
            },
        ),
    )
}

pub open spec fn merge_all(
    out: Seq<(KeyView, Subscription)>,
    subscribers: Seq<(KeyView, Subscription)>,
) -> Seq<(KeyView, Subscription)>
    decreases subscribers.len(),
{
    if subscribers.len() == 0 {
        out
    } else {
        merge_one(
            merge_all(out, subscribers.drop_last()),
            subscribers.last().0,
            subscribers.last().1,
        )
    }
}

pub open spec fn hash_level() -> Seq<char> {
    seq!['#']
}

pub open spec fn plus_level() -> Seq<char> {
    seq!['+']
}

/// Adds the subscribers that a topic reaches from a node. `hidden` keeps wildcards of the first
/// level away from topics that begin with `$`.
pub open spec fn match_at(
    t: TrieView,
    path: Seq<Seq<char>>,
    hidden: bool,
    out: Seq<(KeyView, Subscription)>,
) -> Seq<(KeyView, Subscription)>
    decreases path.len(),
{
    let all = match lookup(t.children, hash_level()) {
        Some(child) => if hidden {
            out
        } else {
            merge_all(out, child.subscribers)
        },
        None => out,
    };
    if path.len() == 0 {
        merge_all(all, t.subscribers)
    } else {
        let exact = match lookup(t.children, path[0]) {
            Some(child) => match_at(child, path.drop_first(), false, all),
            None => all,
        };
        match lookup(t.children, plus_level()) {
            Some(child) => if hidden {
                exact
            } else {
                match_at(child, path.drop_first(), false, exact)
            },
            None => exact,
        }
    }
}

pub open spec fn begins_with_dollar(topic: Seq<char>) -> bool {
    topic.len() > 0 && topic[0] == '$'
}

/// The sessions that a topic reaches, each with its overlaid subscriptions.
pub open spec fn trie_matching(t: TrieView, topic: Seq<char>) -> Seq<(KeyView, Subscription)> {
    match_at(t, levels(topic), begins_with_dollar(topic), Seq::empty())
}

/// A node in memory.
#[derive(Debug, PartialEq, Eq)]
pub struct TrieNode {
    pub children: Vec<(Vec<char>, TrieNode)>,
    pub subscribers: Vec<(SessionKey, Subscription)>,
}

pub open spec fn node_view(node: TrieNode) -> TrieView
    decreases node,
{
    TrieView {
        children: child_views(node.children@),
        subscribers: subscriber_views(node.subscribers@),
    }
}

pub open spec fn child_views(s: Seq<(Vec<char>, TrieNode)>) -> Seq<(Seq<char>, TrieView)>
    decreases s,
{
    if s.len() == 0 {
        Seq::empty()
    } else {
        child_views(s.drop_last()).push((s.last().0@, node_view(s.last().1)))
    }
}

pub open spec fn subscriber_views(s: Seq<(SessionKey, Subscription)>) -> Seq<
    (KeyView, Subscription),
> {
    Seq::new(s.len(), |i: int| (s[i].0@, s[i].1))
}

proof fn lemma_child_views(s: Seq<(Vec<char>, TrieNode)>)
    ensures
        child_views(s).len() == s.len(),
        forall|i: int|
            0 <= i < s.len() ==> #[trigger] child_views(s)[i] == (s[i].0@, node_view(s[i].1)),
    decreases s.len(),
{
    if s.len() > 0 {
        lemma_child_views(s.drop_last());
    }
}

impl TrieNode {
    fn new() -> (node: TrieNode)
        ensures
            node_view(node) == empty_trie(),
    {
        let node = TrieNode { children: Vec::new(), subscribers: Vec::new() };
        proof {
            lemma_child_views(node.children@);
            assert(node_view(node) =~= empty_trie());
        }
        node
    }

    fn find_child(&self, level: &Vec<char>) -> (position: Option<usize>)
        ensures
            match position {
                Some(i) => first(node_view(*self).children, entry_is(level@)) == Some(i as int) && i
                    < self.children@.len(),
                None => first(node_view(*self).children, entry_is(level@)) is None,
            },
    {
        let ghost views = node_view(*self).children;
        proof {
            lemma_child_views(self.children@);
        }
        let mut at: usize = 0;
        while at < self.children.len()
            invariant
                at <= self.children.len(),
                views == node_view(*self).children,
                views.len() == self.children@.len(),
                forall|i: int|
                    0 <= i < self.children@.len() ==> (#[trigger] views[i]).0
                        == self.children@[i].0@,
                forall|j: int| 0 <= j < at ==> !entry_is::<Seq<char>, TrieView>(level@)(
                    #[trigger] views[j],
                ),
            decreases self.children.len() - at,
        {
            if same_chars(&self.children[at].0, level) {
                proof {
                    assert(is_first(views, entry_is::<Seq<char>, TrieView>(level@), at as int));
                    lemma_first_is(views, entry_is::<Seq<char>, TrieView>(level@), at as int);
                }
                return Some(at);
            }
            assert(!entry_is::<Seq<char>, TrieView>(level@)(views[at as int]));
            at = at + 1;
        }
        proof {
            lemma_first_none(views, entry_is::<Seq<char>, TrieView>(level@));
        }
        None
    }

    fn insert(
        &mut self,
        parts: &Vec<Vec<char>>,
        at: usize,
        key: &SessionKey,
        subscription: Subscription,
    )
        requires
            at <= parts@.len(),
        ensures
            node_view(*final(self)) == trie_insert(
                node_view(*old(self)),
                level_texts(parts@).skip(at as int),
                key@,
                subscription,
            ),
        decreases parts@.len() - at,
    {
        let ghost before = node_view(*self);
        let ghost path = level_texts(parts@).skip(at as int);
        if at == parts.len() {
            insert_subscriber(&mut self.subscribers, key, subscription);
            assert(path.len() == 0);
            assert(node_view(*self) =~= trie_insert(before, path, key@, subscription));
            return;
        }
        assert(path[0] == parts@[at as int]@);
        assert(path.drop_first() =~= level_texts(parts@).skip(at as int + 1));
        let ghost old_children = self.children@;
        proof {
            lemma_child_views(old_children);
        }
        match self.find_child(&parts[at]) {
            Some(i) => {
                proof {
                    lemma_first(before.children, entry_is::<Seq<char>, TrieView>(path[0]));
                }
                self.children[i].1.insert(parts, at + 1, key, subscription);
                proof {
                    lemma_child_views(self.children@);
                    let below = node_view(self.children@[i as int].1);
                    assert(child_views(self.children@) =~= before.children.update(
                        i as int,
                        (path[0], below),
                    ));
                    assert(node_view(*self) =~= trie_insert(before, path, key@, subscription));
                }
            },
            None => {
                let mut fresh = TrieNode::new();
                fresh.insert(parts, at + 1, key, subscription);
                let ghost below = node_view(fresh);
                let level = copy_chars(&parts[at]);
                self.children.push((level, fresh));
                proof {
                    lemma_child_views(self.children@);
                    assert(child_views(self.children@) =~= before.children.push((path[0], below)));
                    assert(node_view(*self) =~= trie_insert(before, path, key@, subscription));
                }
            },
        }
    }

    fn remove(&mut self, parts: &Vec<Vec<char>>, at: usize, key: &SessionKey) -> (empty: bool)
        requires
            at <= parts@.len(),
        ensures
            node_view(*final(self)) == trie_remove(
                node_view(*old(self)),
                level_texts(parts@).skip(at as int),
                key@,
            ),
            empty == bare(node_view(*final(self))),
        decreases parts@.len() - at,
    {
        let ghost before = node_view(*self);
        let ghost path = level_texts(parts@).skip(at as int);
        proof {
            lemma_child_views(self.children@);
        }
        if at == parts.len() {
            remove_subscriber(&mut self.subscribers, key);
            assert(path.len() == 0);
            assert(node_view(*self) =~= trie_remove(before, path, key@));
        } else {
            assert(path[0] == parts@[at as int]@);
            assert(path.drop_first() =~= level_texts(parts@).skip(at as int + 1));
            if let Some(i) = self.find_child(&parts[at]) {
                proof {
                    lemma_first(before.children, entry_is::<Seq<char>, TrieView>(path[0]));
                }
                let given_up = self.children[i].1.remove(parts, at + 1, key);
                let ghost below = node_view(self.children@[i as int].1);
                proof {
                    lemma_child_views(self.children@);
                    assert(child_views(self.children@) =~= before.children.update(
                        i as int,
                        (path[0], below),
                    ));
                }
                if given_up {
                    let ghost middle = self.children@;
                    self.children.remove(i);
                    proof {
                        lemma_child_views(self.children@);
                        assert forall|j: int|
                            0 <= j < self.children@.len() implies #[trigger] child_views(
                            self.children@,
                        )[j] == before.children.remove(i as int)[j] by {
                            if j < i {
                                assert(child_views(middle)[j] == before.children[j]);
                            } else {
                                assert(child_views(middle)[j + 1] == before.children[j + 1]);
                            }
                        }
                        assert(child_views(self.children@) =~= before.children.remove(i as int));
                    }
                }
                assert(node_view(*self) =~= trie_remove(before, path, key@));
            } else {
                assert(node_view(*self) =~= trie_remove(before, path, key@));
            }
        }
        proof {
            lemma_child_views(self.children@);
        }
        self.subscribers.len() == 0 && self.children.len() == 0
    }

    fn match_levels(
        &self,
        parts: &Vec<Vec<char>>,
        at: usize,
        hidden: bool,
        out: &mut Vec<(SessionKey, Subscription)>,
    )
        requires
            at <= parts@.len(),
        ensures
            subscriber_views(final(out)@) == match_at(
                node_view(*self),
                level_texts(parts@).skip(at as int),
                hidden,
                subscriber_views(old(out)@),
            ),
        decreases parts@.len() - at,
    {
        let ghost t = node_view(*self);
        let ghost path = level_texts(parts@).skip(at as int);
        proof {
            lemma_child_views(self.children@);
        }
        if !hidden {
            let hash: Vec<char> = vec!['#'];
            assert(hash@ =~= hash_level());
            if let Some(i) = self.find_child(&hash) {
                assert(t.children[i as int].1 == node_view(self.children@[i as int].1));
                merge_subscribers(out, &self.children[i].1.subscribers);
            }
        }
        if at == parts.len() {
            assert(path.len() == 0);
            merge_subscribers(out, &self.subscribers);
            return;
        }
        assert(path[0] == parts@[at as int]@);
        assert(path.drop_first() =~= level_texts(parts@).skip(at as int + 1));
        if let Some(i) = self.find_child(&parts[at]) {
            assert(t.children[i as int].1 == node_view(self.children@[i as int].1));
            self.children[i].1.match_levels(parts, at + 1, false, out);
        }
        if !hidden {
            let plus: Vec<char> = vec!['+'];
            assert(plus@ =~= plus_level());
            if let Some(i) = self.find_child(&plus) {
                assert(t.children[i as int].1 == node_view(self.children@[i as int].1));
                self.children[i].1.match_levels(parts, at + 1, false, out);
            }
        }
    }
}

fn copy_chars(chars: &Vec<char>) -> (copy: Vec<char>)
    ensures
        copy@ == chars@,
{
    let mut copy: Vec<char> = Vec::new();
    let mut at: usize = 0;
    while at < chars.len()
        invariant
            at <= chars.len(),
            copy@ == chars@.take(at as int),
        decreases chars.len() - at,
    {
        copy.push(chars[at]);
        assert(chars@.take(at as int + 1) =~= chars@.take(at as int).push(chars@[at as int]));
        at = at + 1;
    }
    assert(chars@.take(chars@.len() as int) =~= chars@);
    copy
}

fn find_subscriber(subscribers: &Vec<(SessionKey, Subscription)>, key: &SessionKey) -> (position:
    Option<usize>)
    ensures
        match position {
            Some(i) => first(subscriber_views(subscribers@), entry_is(key@)) == Some(i as int) && i
                < subscribers@.len(),
            None => first(subscriber_views(subscribers@), entry_is(key@)) is None,
        },
{
    let ghost views = subscriber_views(subscribers@);
    let mut at: usize = 0;
    while at < subscribers.len()
        invariant
            at <= subscribers.len(),
            views == subscriber_views(subscribers@),
            forall|j: int| 0 <= j < at ==> !entry_is::<KeyView, Subscription>(key@)(
                #[trigger] views[j],
            ),
        decreases subscribers.len() - at,
    {
        if subscribers[at].0.same(key) {
            proof {
                assert(is_first(views, entry_is::<KeyView, Subscription>(key@), at as int));
                lemma_first_is(views, entry_is::<KeyView, Subscription>(key@), at as int);
            }
            return Some(at);
        }
        assert(!entry_is::<KeyView, Subscription>(key@)(views[at as int]));
        at = at + 1;
    }
    proof {
        lemma_first_none(views, entry_is::<KeyView, Subscription>(key@));
    }
    None
}

fn insert_subscriber(
    subscribers: &mut Vec<(SessionKey, Subscription)>,
    key: &SessionKey,
    subscription: Subscription,
)
    ensures
        subscriber_views(final(subscribers)@) == with_entry(
            subscriber_views(old(subscribers)@),
            key@,
            Some(subscription),
        ),
{
    let ghost before = subscriber_views(subscribers@);
    match find_subscriber(subscribers, key) {
        Some(i) => {
            proof {
                lemma_first(before, entry_is::<KeyView, Subscription>(key@));
            }
            subscribers[i].1 = subscription;
            assert(subscriber_views(subscribers@) =~= before.update(
                i as int,
                (key@, subscription),
            ));
        },
        None => {
            subscribers.push((key.clone(), subscription));
            assert(subscriber_views(subscribers@) =~= before.push((key@, subscription)));
        },
    }
}

fn remove_subscriber(subscribers: &mut Vec<(SessionKey, Subscription)>, key: &SessionKey)
    ensures
        subscriber_views(final(subscribers)@) == with_entry(
            subscriber_views(old(subscribers)@),
            key@,
            None,
        ),
{
    let ghost before = subscriber_views(subscribers@);
    if let Some(i) = find_subscriber(subscribers, key) {
        subscribers.remove(i);
        assert(subscriber_views(subscribers@) =~= before.remove(i as int));
    }
}

fn merge_subscribers(
    out: &mut Vec<(SessionKey, Subscription)>,
    subscribers: &Vec<(SessionKey, Subscription)>,
)
    ensures
        subscriber_views(final(out)@) == merge_all(
            subscriber_views(old(out)@),
            subscriber_views(subscribers@),
        ),
{
    let ghost before = subscriber_views(out@);
    let ghost views = subscriber_views(subscribers@);
    let mut at: usize = 0;
    while at < subscribers.len()
        invariant
            at <= subscribers.len(),
            views == subscriber_views(subscribers@),
            subscriber_views(out@) == merge_all(before, views.take(at as int)),
        decreases subscribers.len() - at,
    {
        proof {
            let next = views.take(at as int + 1);
            assert(next.drop_last() =~= views.take(at as int));
            assert(next.last() == views[at as int]);
        }
        let ghost middle = subscriber_views(out@);
        let key = &subscribers[at].0;
        let subscription = subscribers[at].1;
        let merged = match find_subscriber(out, key) {
            Some(i) => {
                let existing = out[i].1;
                Subscription {
                    qos: if existing.qos >= subscription.qos {
                        existing.qos
                    } else {
                        subscription.qos
                    },
                    no_local: existing.no_local && subscription.no_local,
                    retain_as_published: existing.retain_as_published
                        || subscription.retain_as_published,
                    retain_handling: existing.retain_handling,
                }
            },
            None => subscription,
        };
        insert_subscriber(out, key, merged);
        assert(subscriber_views(out@) == merge_one(middle, key@, subscription));
        at = at + 1;
    }
    assert(views.take(views.len() as int) =~= views);
}

/// The subscription trie.
#[derive(Debug, PartialEq, Eq)]
pub struct SubscriptionTrie {
    pub root: TrieNode,
}

impl View for SubscriptionTrie {
    type V = TrieView;

    open spec fn view(&self) -> TrieView {
        node_view(self.root)
    }
}

impl SubscriptionTrie {
    pub fn new() -> (trie: SubscriptionTrie)
        ensures
            trie@ == empty_trie(),
    {
        SubscriptionTrie { root: TrieNode::new() }
    }

    pub fn insert(&mut self, filter: &str, key: &SessionKey, subscription: Subscription)
        ensures
            final(self)@ == trie_insert(old(self)@, levels(filter@), key@, subscription),
    {
        let parts = split_levels(filter);
        assert(level_texts(parts@).skip(0) =~= level_texts(parts@));
        self.root.insert(&parts, 0, key, subscription);
    }

    pub fn remove(&mut self, filter: &str, key: &SessionKey)
        ensures
            final(self)@ == trie_remove(old(self)@, levels(filter@), key@),
    {
        let parts = split_levels(filter);
        assert(level_texts(parts@).skip(0) =~= level_texts(parts@));
        let _ = self.root.remove(&parts, 0, key);
    }

    pub fn matching(&self, topic: &str) -> (matches: Vec<(SessionKey, Subscription)>)
        ensures
            subscriber_views(matches@) == trie_matching(self@, topic@),
    {
        let parts = split_levels(topic);
        let chars = characters(topic);
        let hidden = chars.len() > 0 && chars[0] == '$';
        let mut matches: Vec<(SessionKey, Subscription)> = Vec::new();
        assert(subscriber_views(matches@) =~= Seq::<(KeyView, Subscription)>::empty());
        assert(level_texts(parts@).skip(0) =~= level_texts(parts@));
        self.root.match_levels(&parts, 0, hidden, &mut matches);
        matches
    }
}

proof fn lemma_with_child_ok(t: TrieView, level: Seq<char>, below: Option<TrieView>)
    requires
        trie_ok(t),
        below matches Some(child) ==> trie_ok(child),
    ensures
        trie_ok(TrieView { children: with_entry(t.children, level, below), ..t }),
{
    law_one_value_per_key(t.children, level, below, level);
    let children = with_entry(t.children, level, below);
    let after = TrieView { children, ..t };
    lemma_first(t.children, entry_is::<Seq<char>, TrieView>(level));
    assert forall|i: int| 0 <= i < after.children.len() implies trie_ok(
        #[trigger] after.children[i].1,
    ) by {
        match (first(t.children, entry_is::<Seq<char>, TrieView>(level)), below) {
            (Some(j), Some(child)) => {
                if i != j {
                    assert(trie_ok(t.children[i].1));
                }
            },
            (Some(j), None) => {
                if i < j {
                    assert(trie_ok(t.children[i].1));
                } else {
                    assert(trie_ok(t.children[i + 1].1));
                }
            },
            (None, Some(child)) => {
                if i < t.children.len() {
                    assert(trie_ok(t.children[i].1));
                }
            },
            (None, None) => {
                assert(trie_ok(t.children[i].1));
            },
        }
    }
}

proof fn lemma_child_ok(t: TrieView, level: Seq<char>)
    requires
        trie_ok(t),
    ensures
        trie_ok(child_or_empty(t, level)),
        lookup(t.children, level) matches Some(child) ==> trie_ok(child),
{
    lemma_first(t.children, entry_is::<Seq<char>, TrieView>(level));
    if let Some(i) = first(t.children, entry_is::<Seq<char>, TrieView>(level)) {
        assert(trie_ok(t.children[i].1));
    }
}

/// Inserting sets the subscription of that session under that filter, and no other.
pub proof fn law_insert(
    t: TrieView,
    path: Seq<Seq<char>>,
    key: KeyView,
    subscription: Subscription,
    other: Seq<Seq<char>>,
    other_key: KeyView,
)
    requires
        trie_ok(t),
    ensures
        trie_ok(trie_insert(t, path, key, subscription)),
        subscribed(trie_insert(t, path, key, subscription), other, other_key) == if other == path
            && other_key == key {
            Some(subscription)
        } else {
            subscribed(t, other, other_key)
        },
    decreases path.len(),
{
    if path.len() == 0 {
        law_one_value_per_key(t.subscribers, key, Some(subscription), other_key);
        let after = trie_insert(t, path, key, subscription);
        assert forall|i: int| 0 <= i < after.children.len() implies trie_ok(
            #[trigger] after.children[i].1,
        ) by {
            assert(trie_ok(t.children[i].1));
        }
        if other.len() == 0 {
            assert(other =~= path);
        }
    } else {
        let child = child_or_empty(t, path[0]);
        let rest = path.drop_first();
        lemma_child_ok(t, path[0]);
        let below = trie_insert(child, rest, key, subscription);
        law_insert(child, rest, key, subscription, other, other_key);
        lemma_with_child_ok(t, path[0], Some(below));
        if other.len() > 0 {
            law_one_value_per_key(t.children, path[0], Some(below), other[0]);
            if other[0] == path[0] {
                law_insert(child, rest, key, subscription, other.drop_first(), other_key);
                assert(other.drop_first() == rest <==> other == path) by {
                    if other.drop_first() == rest {
                        assert(other =~= seq![other[0]] + other.drop_first());
                        assert(path =~= seq![path[0]] + rest);
                    }
                }
                if lookup(t.children, path[0]) is None {
                    lemma_empty_subscribed(other.drop_first(), other_key);
                }
            }
        }
    }
}

proof fn lemma_empty_subscribed(path: Seq<Seq<char>>, key: KeyView)
    ensures
        subscribed(empty_trie(), path, key) is None,
        trie_ok(empty_trie()),
{
    lemma_first(empty_trie().children, entry_is::<Seq<char>, TrieView>(path[0]));
    lemma_first(empty_trie().subscribers, entry_is::<KeyView, Subscription>(key));
}

proof fn lemma_bare_subscribed(t: TrieView, path: Seq<Seq<char>>, key: KeyView)
    requires
        bare(t),
    ensures
        subscribed(t, path, key) is None,
{
    lemma_first(t.children, entry_is::<Seq<char>, TrieView>(path[0]));
    lemma_first(t.subscribers, entry_is::<KeyView, Subscription>(key));
}

/// Removing takes away the subscription of that session under that filter, and no other.
pub proof fn law_remove(
    t: TrieView,
    path: Seq<Seq<char>>,
    key: KeyView,
    other: Seq<Seq<char>>,
    other_key: KeyView,
)
    requires
        trie_ok(t),
    ensures
        trie_ok(trie_remove(t, path, key)),
        subscribed(trie_remove(t, path, key), other, other_key) == if other == path && other_key
            == key {
            None
        } else {
            subscribed(t, other, other_key)
        },
    decreases path.len(),
{
    if path.len() == 0 {
        law_one_value_per_key(t.subscribers, key, None::<Subscription>, other_key);
        let after = trie_remove(t, path, key);
        assert forall|i: int| 0 <= i < after.children.len() implies trie_ok(
            #[trigger] after.children[i].1,
        ) by {
            assert(trie_ok(t.children[i].1));
        }
        if other.len() == 0 {
            assert(other =~= path);
        }
    } else {
        let rest = path.drop_first();
        lemma_child_ok(t, path[0]);
        match lookup(t.children, path[0]) {
            Some(child) => {
                let below = trie_remove(child, rest, key);
                let kept = if bare(below) {
                    None
                } else {
                    Some(below)
                };
                law_remove(child, rest, key, other, other_key);
                lemma_with_child_ok(t, path[0], kept);
                if other.len() > 0 {
                    law_one_value_per_key(t.children, path[0], kept, other[0]);
                    if other[0] == path[0] {
                        law_remove(child, rest, key, other.drop_first(), other_key);
                        assert(other.drop_first() == rest <==> other == path) by {
                            if other.drop_first() == rest {
                                assert(other =~= seq![other[0]] + other.drop_first());
                                assert(path =~= seq![path[0]] + rest);
                            }
                        }
                        if bare(below) {
                            lemma_bare_subscribed(below, other.drop_first(), other_key);
                        }
                    }
                }
            },
            None => {
                if other == path {
                    assert(subscribed(t, other, other_key) is None);
                }
            },
        }
    }
}

/// Whether a filter reaches a topic, level by level from the front.
pub open spec fn reaches(filter: Seq<Seq<char>>, path: Seq<Seq<char>>, hidden: bool) -> bool
    decreases filter.len(),
{
    if filter.len() == 0 {
        path.len() == 0
    } else if is_hash(filter[0]) {
        !hidden && filter.len() == 1
    } else if path.len() == 0 {
        false
    } else if is_plus(filter[0]) {
        !hidden && reaches(filter.drop_first(), path.drop_first(), false)
    } else {
        filter[0] == path[0] && reaches(filter.drop_first(), path.drop_first(), false)
    }
}

/// No level of a topic is a wildcard.
pub open spec fn plain(path: Seq<Seq<char>>) -> bool {
    forall|i: int| 0 <= i < path.len() ==> !is_hash(#[trigger] path[i]) && !is_plus(path[i])
}

/// The subscriptions through which a topic reaches a session.
pub open spec fn hits(t: TrieView, path: Seq<Seq<char>>, hidden: bool, key: KeyView) -> Set<
    Subscription,
> {
    Set::new(
        |s: Subscription|
            exists|filter: Seq<Seq<char>>| #[trigger]
                subscribed(t, filter, key) == Some(s) && reaches(filter, path, hidden),
    )
}

/// What becomes of a session's entry when more subscriptions are overlaid on it.
pub open spec fn blend(
    after: Option<Subscription>,
    before: Option<Subscription>,
    more: Set<Subscription>,
) -> bool {
    &&& after is Some <==> before is Some || exists|s: Subscription| more.contains(s)
    &&& after matches Some(a) ==> {
        &&& before matches Some(b) ==> b.qos <= a.qos
        &&& forall|s: Subscription| #[trigger] more.contains(s) ==> s.qos <= a.qos
        &&& (before matches Some(b) && b.qos == a.qos) || exists|s: Subscription| #[trigger]
            more.contains(s) && s.qos == a.qos
        &&& a.no_local <==> (before matches Some(b) ==> b.no_local) && forall|s: Subscription|
            #[trigger] more.contains(s) ==> s.no_local
        &&& a.retain_as_published <==> (before matches Some(b) && b.retain_as_published)
            || exists|s: Subscription| #[trigger] more.contains(s) && s.retain_as_published
    }
}

proof fn lemma_blend_nothing(before: Option<Subscription>, more: Set<Subscription>)
    requires
        forall|s: Subscription| !more.contains(s),
    ensures
        blend(before, before, more),
{
}

proof fn lemma_blend_twice(
    last: Option<Subscription>,
    middle: Option<Subscription>,
    start: Option<Subscription>,
    m1: Set<Subscription>,
    m2: Set<Subscription>,
    all: Set<Subscription>,
)
    requires
        blend(middle, start, m1),
        blend(last, middle, m2),
        forall|s: Subscription| #[trigger] all.contains(s) <==> m1.contains(s) || m2.contains(s),
    ensures
        blend(last, start, all),
{
    if exists|s: Subscription| m1.contains(s) {
        let s = choose|s: Subscription| m1.contains(s);
        assert(all.contains(s));
    }
    if exists|s: Subscription| m2.contains(s) {
        let s = choose|s: Subscription| m2.contains(s);
        assert(all.contains(s));
    }
    if exists|s: Subscription| all.contains(s) {
        let s = choose|s: Subscription| all.contains(s);
        assert(m1.contains(s) || m2.contains(s));
    }
    if let Some(a) = last {
        assert(forall|s: Subscription| m1.contains(s) ==> all.contains(s));
        assert(forall|s: Subscription| m2.contains(s) ==> all.contains(s));
        if let Some(m) = middle {
            if m.qos == a.qos && !(start matches Some(b) && b.qos == m.qos) {
                let s = choose|s: Subscription| #[trigger] m1.contains(s) && s.qos == m.qos;
                assert(all.contains(s) && s.qos == a.qos);
            } else if m.qos != a.qos {
                let s = choose|s: Subscription| #[trigger] m2.contains(s) && s.qos == a.qos;
                assert(all.contains(s) && s.qos == a.qos);
            }
            if m.retain_as_published && !(start matches Some(b) && b.retain_as_published) {
                let s = choose|s: Subscription| #[trigger] m1.contains(s) && s.retain_as_published;
                assert(all.contains(s) && s.retain_as_published);
            }
            if a.retain_as_published && !m.retain_as_published {
                let s = choose|s: Subscription| #[trigger] m2.contains(s) && s.retain_as_published;
                assert(all.contains(s) && s.retain_as_published);
            }
        } else {
            let s = choose|s: Subscription| #[trigger] m2.contains(s) && s.qos == a.qos;
            assert(all.contains(s) && s.qos == a.qos);
            if a.retain_as_published {
                let s = choose|s: Subscription| #[trigger] m2.contains(s) && s.retain_as_published;
                assert(all.contains(s) && s.retain_as_published);
            }
        }
        if exists|s: Subscription| #[trigger] all.contains(s) && s.retain_as_published {
            let s = choose|s: Subscription| #[trigger] all.contains(s) && s.retain_as_published;
            assert(m1.contains(s) || m2.contains(s));
            assert(m1.contains(s) ==> middle is Some && middle->0.retain_as_published);
        }
    }
}

pub open spec fn at_most(s: Option<Subscription>) -> Set<Subscription> {
    Set::new(|x: Subscription| s == Some(x))
}

proof fn lemma_merge_all(
    out: Seq<(KeyView, Subscription)>,
    subscribers: Seq<(KeyView, Subscription)>,
    key: KeyView,
)
    requires
        distinct(out, entry_key()),
        distinct(subscribers, entry_key()),
    ensures
        distinct(merge_all(out, subscribers), entry_key()),
        blend(
            lookup(merge_all(out, subscribers), key),
            lookup(out, key),
            at_most(lookup(subscribers, key)),
        ),
    decreases subscribers.len(),
{
    lemma_first(subscribers, entry_is::<KeyView, Subscription>(key));
    let mine = lookup(subscribers, key);
    if subscribers.len() == 0 {
        assert(forall|s: Subscription| !at_most(mine).contains(s));
    } else {
        let front = subscribers.drop_last();
        let last = subscribers.last();
        assert(distinct(front, entry_key())) by {
            assert forall|i: int, j: int|
                0 <= i < front.len() && 0 <= j < front.len() && i != j implies entry_key::<
                KeyView,
                Subscription,
            >()(#[trigger] front[i]) != entry_key::<KeyView, Subscription>()(#[trigger] front[j]) by {
                assert(entry_key::<KeyView, Subscription>()(subscribers[i]) != entry_key::<
                    KeyView,
                    Subscription,
                >()(subscribers[j]));
            }
        }
        lemma_merge_all(out, front, key);
        let middle = merge_all(out, front);
        let value = match lookup(middle, last.0) {
            Some(existing) => overlaid(existing, last.1),
            None => last.1,
        };
        law_one_value_per_key(middle, last.0, Some(value), key);
        lemma_first(front, entry_is::<KeyView, Subscription>(key));
        if last.0 == key {
            assert(first(front, entry_is::<KeyView, Subscription>(key)) is None) by {
                if let Some(i) = first(front, entry_is::<KeyView, Subscription>(key)) {
                    assert(entry_key::<KeyView, Subscription>()(subscribers[i]) != entry_key::<
                        KeyView,
                        Subscription,
                    >()(subscribers[subscribers.len() - 1]));
                }
            }
            assert(is_first(
                subscribers,
                entry_is::<KeyView, Subscription>(key),
                subscribers.len() - 1,
            )) by {
                assert forall|j: int| 0 <= j < subscribers.len() - 1 implies !entry_is::<
                    KeyView,
                    Subscription,
                >(key)(#[trigger] subscribers[j]) by {
                    assert(!entry_is::<KeyView, Subscription>(key)(front[j]));
                }
            }
            lemma_first_is(
                subscribers,
                entry_is::<KeyView, Subscription>(key),
                subscribers.len() - 1,
            );
            assert(mine == Some(last.1));
            assert(at_most(mine).contains(last.1));
            assert(lookup(middle, key) == lookup(out, key)) by {
                assert(blend(lookup(middle, key), lookup(out, key), at_most(None)));
                lemma_blend_same_front(out, front, key);
            }
        } else {
            assert(lookup(front, key) == mine) by {
                match first(front, entry_is::<KeyView, Subscription>(key)) {
                    Some(i) => {
                        assert(is_first(subscribers, entry_is::<KeyView, Subscription>(key), i)) by {
                            assert forall|j: int| 0 <= j < i implies !entry_is::<
                                KeyView,
                                Subscription,
                            >(key)(#[trigger] subscribers[j]) by {
                                assert(!entry_is::<KeyView, Subscription>(key)(front[j]));
                            }
                        }
                        lemma_first_is(subscribers, entry_is::<KeyView, Subscription>(key), i);
                    },
                    None => {
                        assert forall|j: int| 0 <= j < subscribers.len() implies !entry_is::<
                            KeyView,
                            Subscription,
                        >(key)(#[trigger] subscribers[j]) by {
                            if j < front.len() {
                                assert(!entry_is::<KeyView, Subscription>(key)(front[j]));
                            }
                        }
                        lemma_first_none(subscribers, entry_is::<KeyView, Subscription>(key));
                    },
                }
            }
        }
    }
}

proof fn lemma_blend_same_front(
    out: Seq<(KeyView, Subscription)>,
    subscribers: Seq<(KeyView, Subscription)>,
    key: KeyView,
)
    requires
        distinct(out, entry_key()),
        distinct(subscribers, entry_key()),
        first(subscribers, entry_is::<KeyView, Subscription>(key)) is None,
    ensures
        distinct(merge_all(out, subscribers), entry_key()),
        lookup(merge_all(out, subscribers), key) == lookup(out, key),
    decreases subscribers.len(),
{
    if subscribers.len() > 0 {
        let front = subscribers.drop_last();
        let last = subscribers.last();
        lemma_first(subscribers, entry_is::<KeyView, Subscription>(key));
        assert(!entry_is::<KeyView, Subscription>(key)(subscribers[subscribers.len() - 1]));
        assert forall|j: int| 0 <= j < front.len() implies !entry_is::<KeyView, Subscription>(key)(
            #[trigger] front[j],
        ) by {
            assert(!entry_is::<KeyView, Subscription>(key)(subscribers[j]));
        }
        lemma_first_none(front, entry_is::<KeyView, Subscription>(key));
        assert(distinct(front, entry_key())) by {
            assert forall|i: int, j: int|
                0 <= i < front.len() && 0 <= j < front.len() && i != j implies entry_key::<
                KeyView,
                Subscription,
            >()(#[trigger] front[i]) != entry_key::<KeyView, Subscription>()(#[trigger] front[j]) by {
                assert(entry_key::<KeyView, Subscription>()(subscribers[i]) != entry_key::<
                    KeyView,
                    Subscription,
                >()(subscribers[j]));
            }
        }
        lemma_blend_same_front(out, front, key);
        let middle = merge_all(out, front);
        let value = match lookup(middle, last.0) {
            Some(existing) => overlaid(existing, last.1),
            None => last.1,
        };
        law_one_value_per_key(middle, last.0, Some(value), key);
    }
}

proof fn lemma_below(t: TrieView, level: Seq<char>, filter: Seq<Seq<char>>, key: KeyView)
    ensures
        lookup(t.children, level) matches Some(child) ==> subscribed(
            t,
            seq![level] + filter,
            key,
        ) == subscribed(child, filter, key),
        lookup(t.children, level) is None ==> subscribed(t, seq![level] + filter, key) is None,
{
    let path = seq![level] + filter;
    assert(path[0] == level);
    assert(path.drop_first() =~= filter);
}

proof fn lemma_split(filter: Seq<Seq<char>>)
    requires
        filter.len() > 0,
    ensures
        filter == seq![filter[0]] + filter.drop_first(),
{
    assert(filter =~= seq![filter[0]] + filter.drop_first());
}

/// The subscriptions reached through one child, or none.
spec fn child_hits(
    t: TrieView,
    level: Seq<char>,
    path: Seq<Seq<char>>,
    key: KeyView,
) -> Set<Subscription> {
    match lookup(t.children, level) {
        Some(child) => hits(child, path, false, key),
        None => Set::empty(),
    }
}

spec fn hash_hits(t: TrieView, hidden: bool, key: KeyView) -> Set<Subscription> {
    match lookup(t.children, hash_level()) {
        Some(child) => if hidden {
            Set::empty()
        } else {
            at_most(lookup(child.subscribers, key))
        },
        None => Set::empty(),
    }
}

proof fn lemma_hash_is(level: Seq<char>)
    ensures
        is_hash(level) <==> level == hash_level(),
        is_plus(level) <==> level == plus_level(),
{
    if is_hash(level) {
        assert(level =~= hash_level());
    }
    if is_plus(level) {
        assert(level =~= plus_level());
    }
}

proof fn lemma_hits_end(t: TrieView, hidden: bool, key: KeyView, s: Subscription)
    ensures
        hits(t, Seq::empty(), hidden, key).contains(s) <==> hash_hits(t, hidden, key).contains(s)
            || at_most(lookup(t.subscribers, key)).contains(s),
{
    let path = Seq::<Seq<char>>::empty();
    if hits(t, path, hidden, key).contains(s) {
        let filter = choose|filter: Seq<Seq<char>>| #[trigger]
            subscribed(t, filter, key) == Some(s) && reaches(filter, path, hidden);
        if filter.len() > 0 {
            lemma_hash_is(filter[0]);
            assert(filter.drop_first().len() == 0);
            let child = lookup(t.children, hash_level())->0;
            assert(subscribed(child, filter.drop_first(), key) == Some(s));
            assert(at_most(lookup(child.subscribers, key)).contains(s));
        } else {
            assert(lookup(t.subscribers, key) == Some(s));
        }
    }
    if hash_hits(t, hidden, key).contains(s) {
        let filter = seq![hash_level()] + Seq::<Seq<char>>::empty();
        lemma_below(t, hash_level(), Seq::empty(), key);
        lemma_hash_is(filter[0]);
        assert(subscribed(t, filter, key) == Some(s));
        assert(reaches(filter, path, hidden));
    }
    if at_most(lookup(t.subscribers, key)).contains(s) {
        let filter = Seq::<Seq<char>>::empty();
        assert(subscribed(t, filter, key) == Some(s));
        assert(reaches(filter, path, hidden));
    }
}

proof fn lemma_hits_step(
    t: TrieView,
    path: Seq<Seq<char>>,
    hidden: bool,
    key: KeyView,
    s: Subscription,
)
    requires
        path.len() > 0,
        plain(path),
    ensures
        hits(t, path, hidden, key).contains(s) <==> hash_hits(t, hidden, key).contains(s)
            || child_hits(t, path[0], path.drop_first(), key).contains(s) || (!hidden
            && child_hits(t, plus_level(), path.drop_first(), key).contains(s)),
{
    let rest = path.drop_first();
    lemma_hash_is(path[0]);
    if hits(t, path, hidden, key).contains(s) {
        let filter = choose|filter: Seq<Seq<char>>| #[trigger]
            subscribed(t, filter, key) == Some(s) && reaches(filter, path, hidden);
        lemma_split(filter);
        lemma_hash_is(filter[0]);
        lemma_below(t, filter[0], filter.drop_first(), key);
        if is_hash(filter[0]) {
            assert(filter.drop_first().len() == 0);
        } else {
            let child = lookup(t.children, filter[0])->0;
            assert(subscribed(child, filter.drop_first(), key) == Some(s) && reaches(
                filter.drop_first(),
                rest,
                false,
            ));
            assert(hits(child, rest, false, key).contains(s));
        }
    }
    if hash_hits(t, hidden, key).contains(s) {
        let filter = seq![hash_level()] + Seq::<Seq<char>>::empty();
        lemma_below(t, hash_level(), Seq::empty(), key);
        lemma_hash_is(filter[0]);
        assert(subscribed(t, filter, key) == Some(s));
        assert(reaches(filter, path, hidden));
    }
    if child_hits(t, path[0], rest, key).contains(s) {
        let child = lookup(t.children, path[0])->0;
        let below = choose|filter: Seq<Seq<char>>| #[trigger]
            subscribed(child, filter, key) == Some(s) && reaches(filter, rest, false);
        lemma_below(t, path[0], below, key);
        let filter = seq![path[0]] + below;
        assert(filter.drop_first() =~= below);
        assert(!is_hash(path[0]) && !is_plus(path[0]));
        assert(subscribed(t, filter, key) == Some(s));
        assert(reaches(filter, path, hidden));
    }
    if !hidden && child_hits(t, plus_level(), rest, key).contains(s) {
        let child = lookup(t.children, plus_level())->0;
        let below = choose|filter: Seq<Seq<char>>| #[trigger]
            subscribed(child, filter, key) == Some(s) && reaches(filter, rest, false);
        lemma_below(t, plus_level(), below, key);
        let filter = seq![plus_level()] + below;
        assert(filter.drop_first() =~= below);
        lemma_hash_is(plus_level());
        assert(!is_hash(plus_level()));
        assert(subscribed(t, filter, key) == Some(s));
        assert(reaches(filter, path, hidden));
    }
}

proof fn lemma_match_at(
    t: TrieView,
    path: Seq<Seq<char>>,
    hidden: bool,
    out: Seq<(KeyView, Subscription)>,
    key: KeyView,
)
    requires
        trie_ok(t),
        plain(path),
        distinct(out, entry_key()),
    ensures
        distinct(match_at(t, path, hidden, out), entry_key()),
        blend(
            lookup(match_at(t, path, hidden, out), key),
            lookup(out, key),
            hits(t, path, hidden, key),
        ),
    decreases path.len(),
{
    let all = match lookup(t.children, hash_level()) {
        Some(child) => if hidden {
            out
        } else {
            merge_all(out, child.subscribers)
        },
        None => out,
    };
    let start = lookup(out, key);
    let h0 = hash_hits(t, hidden, key);
    lemma_child_ok(t, hash_level());
    assert(distinct(all, entry_key()) && blend(lookup(all, key), start, h0)) by {
        match lookup(t.children, hash_level()) {
            Some(child) => {
                if hidden {
                    lemma_blend_nothing(start, h0);
                } else {
                    lemma_merge_all(out, child.subscribers, key);
                }
            },
            None => {
                lemma_blend_nothing(start, h0);
            },
        }
    }
    if path.len() == 0 {
        assert(path =~= Seq::<Seq<char>>::empty());
        lemma_merge_all(all, t.subscribers, key);
        let own = at_most(lookup(t.subscribers, key));
        assert forall|s: Subscription| #[trigger]
            hits(t, path, hidden, key).contains(s) <==> h0.contains(s) || own.contains(s) by {
            lemma_hits_end(t, hidden, key, s);
        }
        lemma_blend_twice(
            lookup(merge_all(all, t.subscribers), key),
            lookup(all, key),
            start,
            h0,
            own,
            hits(t, path, hidden, key),
        );
    } else {
        let rest = path.drop_first();
        assert(plain(rest)) by {
            assert forall|i: int| 0 <= i < rest.len() implies !is_hash(#[trigger] rest[i])
                && !is_plus(rest[i]) by {
                assert(rest[i] == path[i + 1]);
            }
        }
        let h1 = child_hits(t, path[0], rest, key);
        lemma_child_ok(t, path[0]);
        let exact = match lookup(t.children, path[0]) {
            Some(child) => match_at(child, rest, false, all),
            None => all,
        };
        assert(distinct(exact, entry_key()) && blend(lookup(exact, key), lookup(all, key), h1)) by {
            match lookup(t.children, path[0]) {
                Some(child) => {
                    lemma_match_at(child, rest, false, all, key);
                },
                None => {
                    lemma_blend_nothing(lookup(all, key), h1);
                },
            }
        }
        let h2 = if hidden {
            Set::empty()
        } else {
            child_hits(t, plus_level(), rest, key)
        };
        lemma_child_ok(t, plus_level());
        let last = match_at(t, path, hidden, out);
        assert(distinct(last, entry_key()) && blend(lookup(last, key), lookup(exact, key), h2)) by {
            match lookup(t.children, plus_level()) {
                Some(child) => {
                    if hidden {
                        lemma_blend_nothing(lookup(exact, key), h2);
                    } else {
                        lemma_match_at(child, rest, false, exact, key);
                    }
                },
                None => {
                    lemma_blend_nothing(lookup(exact, key), h2);
                },
            }
        }
        let h01 = h0.union(h1);
        lemma_blend_twice(lookup(exact, key), lookup(all, key), start, h0, h1, h01);
        assert forall|s: Subscription| #[trigger]
            hits(t, path, hidden, key).contains(s) <==> h01.contains(s) || h2.contains(s) by {
            lemma_hits_step(t, path, hidden, key, s);
        }
        lemma_blend_twice(
            lookup(last, key),
            lookup(exact, key),
            start,
            h01,
            h2,
            hits(t, path, hidden, key),
        );
    }
}

proof fn lemma_reaches(filter: Seq<Seq<char>>, path: Seq<Seq<char>>, hidden: bool)
    ensures
        reaches(filter, path, hidden) <==> levels_match(filter, path) && !(hidden && filter.len() > 0
            && (is_plus(filter[0]) || (filter.len() == 1 && is_hash(filter[0])))),
    decreases filter.len(),
{
    if filter.len() > 0 && path.len() > 0 && !is_hash(filter[0]) {
        let f = filter.drop_first();
        let p = path.drop_first();
        lemma_reaches(f, p, false);
        if f.len() > 0 {
            assert(f.last() == filter.last());
        } else {
            assert(filter.last() == filter[0]);
        }
        if levels_match(filter, path) {
            assert forall|i: int|
                0 <= i < (if f.len() > 0 && is_hash(f.last()) {
                    f.len() - 1
                } else {
                    f.len() as int
                }) implies ({
                &&& !is_hash(#[trigger] f[i])
                &&& is_plus(f[i]) || f[i] == p[i]
            }) by {
                assert(f[i] == filter[i + 1]);
                assert(p[i] == path[i + 1]);
            }
            assert((f.len() > 0 && is_hash(f.last())) || p.len() == f.len());
            assert(levels_match(f, p));
            assert(is_plus(filter[0]) || filter[0] == path[0]);
        }
        if levels_match(f, p) && (is_plus(filter[0]) || filter[0] == path[0]) {
            assert forall|i: int|
                0 <= i < (if is_hash(filter.last()) {
                    filter.len() - 1
                } else {
                    filter.len() as int
                }) implies ({
                &&& !is_hash(#[trigger] filter[i])
                &&& is_plus(filter[i]) || filter[i] == path[i]
            }) by {
                if i > 0 {
                    assert(f[i - 1] == filter[i]);
                    assert(p[i - 1] == path[i]);
                }
            }
            assert(is_hash(filter.last()) || path.len() == filter.len());
            assert(levels_match(filter, path));
        }
    } else if filter.len() > 0 && is_hash(filter[0]) {
        if filter.len() == 1 {
            assert(filter.last() == filter[0]);
        }
    } else if filter.len() > 0 {
        if levels_match(filter, path) {
            assert(!is_hash(filter[0]));
            assert(false) by {
                if filter.len() == 1 {
                    assert(filter.last() == filter[0]);
                }
            }
        }
    }
}

/// The trie finds a session for a topic exactly when one of its filters matches the topic, with
/// the highest quality of service among the filters that match.
pub proof fn law_matching(t: TrieView, topic: Seq<char>, key: KeyView)
    requires
        trie_ok(t),
        plain(levels(topic)),
    ensures
        distinct(trie_matching(t, topic), entry_key()),
        blend(
            lookup(trie_matching(t, topic), key),
            None,
            hits(t, levels(topic), begins_with_dollar(topic), key),
        ),
        forall|filter: Seq<char>| #[trigger]
            reaches(levels(filter), levels(topic), begins_with_dollar(topic)) <==> matches_spec(
                filter,
                topic,
            ),
{
    let out = Seq::<(KeyView, Subscription)>::empty();
    lemma_match_at(t, levels(topic), begins_with_dollar(topic), out, key);
    lemma_first(out, entry_is::<KeyView, Subscription>(key));
    assert forall|filter: Seq<char>| #[trigger]
        reaches(levels(filter), levels(topic), begins_with_dollar(topic)) <==> matches_spec(
            filter,
            topic,
        ) by {
        lemma_reaches(levels(filter), levels(topic), begins_with_dollar(topic));
        lemma_levels_nonempty(filter);
    }
}

proof fn lemma_merge_distinct(
    out: Seq<(KeyView, Subscription)>,
    subscribers: Seq<(KeyView, Subscription)>,
)
    requires
        distinct(out, entry_key()),
    ensures
        distinct(merge_all(out, subscribers), entry_key()),
    decreases subscribers.len(),
{
    if subscribers.len() > 0 {
        let last = subscribers.last();
        let middle = merge_all(out, subscribers.drop_last());
        lemma_merge_distinct(out, subscribers.drop_last());
        let value = match lookup(middle, last.0) {
            Some(existing) => overlaid(existing, last.1),
            None => last.1,
        };
        law_one_value_per_key(middle, last.0, Some(value), last.0);
    }
}

proof fn lemma_match_distinct(
    t: TrieView,
    path: Seq<Seq<char>>,
    hidden: bool,
    out: Seq<(KeyView, Subscription)>,
)
    requires
        distinct(out, entry_key()),
    ensures
        distinct(match_at(t, path, hidden, out), entry_key()),
    decreases path.len(),
{
    if let Some(child) = lookup(t.children, hash_level()) {
        lemma_merge_distinct(out, child.subscribers);
    }
    let all = match lookup(t.children, hash_level()) {
        Some(child) => if hidden {
            out
        } else {
            merge_all(out, child.subscribers)
        },
        None => out,
    };
    if path.len() == 0 {
        lemma_merge_distinct(all, t.subscribers);
    } else {
        let rest = path.drop_first();
        if let Some(child) = lookup(t.children, path[0]) {
            lemma_match_distinct(child, rest, false, all);
        }
        let exact = match lookup(t.children, path[0]) {
            Some(child) => match_at(child, rest, false, all),
            None => all,
        };
        if let Some(child) = lookup(t.children, plus_level()) {
            lemma_match_distinct(child, rest, false, exact);
        }
    }
}

/// A topic names each session that it reaches once, however many filters of it match.
pub proof fn law_matching_names_each_once(t: TrieView, topic: Seq<char>)
    ensures
        distinct(trie_matching(t, topic), entry_key()),
{
    lemma_match_distinct(t, levels(topic), begins_with_dollar(topic), Seq::empty());
}

} // verus!
