//! What filters match, told by their text.
use crate::broker::turnover::lemma_levels_differ;
use crate::text::{filter_ok, has_char, lemma_levels_nonempty, levels, topic_ok};
use crate::topics::{is_hash, is_plus, matches_spec};
use crate::codec::common::topic_valid;
use crate::limits::Limits;
use vstd::prelude::*;
use vstd::utf8::encode_utf8;

verus! {

/// A text without wildcards.
pub open spec fn literal(text: Seq<char>) -> bool {
    forall|i: int| 0 <= i < text.len() ==> #[trigger] text[i] != '+' && text[i] != '#'
}

pub open spec fn one_level(text: Seq<char>) -> bool {
    forall|i: int| 0 <= i < text.len() ==> #[trigger] text[i] != '/'
}

/// Two texts with a slash between them.
pub open spec fn below(a: Seq<char>, b: Seq<char>) -> Seq<char> {
    a + seq!['/'] + b
}

proof fn lemma_below(a: Seq<char>, b: Seq<char>)
    ensures
        levels(below(a, b)) == levels(a) + levels(b),
    decreases b.len(),
{
    let s = below(a, b);
    if b.len() == 0 {
        assert(s.drop_last() =~= a);
        assert(levels(s) =~= levels(a) + levels(b));
    } else {
        let front = b.drop_last();
        lemma_below(a, front);
        lemma_levels_nonempty(front);
        assert(s.drop_last() =~= below(a, front));
        assert(s.last() == b.last());
        assert(levels(s) =~= levels(a) + levels(b));
    }
}

proof fn lemma_single(text: Seq<char>)
    requires
        one_level(text),
    ensures
        levels(text) == seq![text],
    decreases text.len(),
{
    if text.len() > 0 {
        let front = text.drop_last();
        assert(one_level(front)) by {
            assert forall|i: int| 0 <= i < front.len() implies #[trigger] front[i] != '/' by {
                assert(text[i] != '/');
            }
        }
        lemma_single(front);
        assert(text[text.len() - 1] != '/');
        assert(front.push(text.last()) =~= text);
        assert(levels(text) =~= seq![text]);
    } else {
        assert(text =~= Seq::<char>::empty());
    }
}

/// The characters of the levels are those of the text.
proof fn lemma_level_chars(text: Seq<char>, p: spec_fn(char) -> bool)
    requires
        forall|i: int| 0 <= i < text.len() ==> p(#[trigger] text[i]),
    ensures
        forall|k: int, i: int|
            0 <= k < levels(text).len() && 0 <= i < levels(text)[k].len() ==> p(
                #[trigger] levels(text)[k][i],
            ),
        forall|k: int, i: int|
            0 <= k < levels(text).len() && 0 <= i < levels(text)[k].len()
                ==> #[trigger] levels(text)[k][i] != '/',
    decreases text.len(),
{
    if text.len() > 0 {
        let front = text.drop_last();
        assert forall|i: int| 0 <= i < front.len() implies p(#[trigger] front[i]) by {
            assert(front[i] == text[i]);
        }
        lemma_level_chars(front, p);
        lemma_levels_nonempty(front);
        let before = levels(front);
        let after = levels(text);
        assert(p(text[text.len() - 1]));
        assert forall|k: int, i: int| 0 <= k < after.len() && 0 <= i < after[k].len() implies p(
            #[trigger] after[k][i],
        ) && after[k][i] != '/' by {
            if text.last() == '/' {
                assert(k < before.len());
                assert(after[k] == before[k]);
                assert(p(before[k][i]));
            } else if k < before.len() - 1 {
                assert(after[k] == before[k]);
                assert(p(before[k][i]));
            } else if i < before[k].len() {
                assert(after[k][i] == before[k][i]);
                assert(p(before[k][i]));
            }
        }
    }
}

proof fn lemma_literal_levels(text: Seq<char>)
    requires
        literal(text),
    ensures
        forall|k: int|
            0 <= k < levels(text).len() ==> !is_plus(#[trigger] levels(text)[k]) && !is_hash(
                levels(text)[k],
            ),
{
    let p = |c: char| c != '+' && c != '#';
    assert forall|i: int| 0 <= i < text.len() implies p(#[trigger] text[i]) by {}
    lemma_level_chars(text, p);
    assert forall|k: int| 0 <= k < levels(text).len() implies !is_plus(#[trigger] levels(text)[k])
        && !is_hash(levels(text)[k]) by {
        let level = levels(text)[k];
        if level.len() == 1 {
            assert(p(levels(text)[k][0]));
        }
    }
}

/// A text of more levels has a slash after any number of them.
proof fn lemma_split(text: Seq<char>, n: int) -> (parts: (Seq<char>, Seq<char>))
    requires
        0 < n < levels(text).len(),
    ensures
        text == below(parts.0, parts.1),
        levels(parts.0) == levels(text).take(n),
        levels(parts.1) == levels(text).skip(n),
    decreases text.len(),
{
    let front = text.drop_last();
    let before = levels(front);
    lemma_levels_nonempty(front);
    if text.last() == '/' && n == before.len() {
        let none = Seq::<char>::empty();
        assert(text =~= below(front, none));
        assert(levels(text).take(n) =~= before);
        assert(levels(text).skip(n) =~= levels(none));
        (front, none)
    } else {
        let (a, b) = lemma_split(front, n);
        let c = b.push(text.last());
        assert(text =~= below(a, c)) by {
            assert(text =~= front.push(text.last()));
        }
        lemma_levels_nonempty(b);
        assert(c.drop_last() =~= b);
        assert(levels(text).take(n) =~= before.take(n));
        assert(levels(text).skip(n) =~= levels(c));
        (a, c)
    }
}

/// A filter without wildcards matches the topic of its own text, and no other.
pub proof fn law_plain_filter_matches_itself_alone(filter: Seq<char>, topic: Seq<char>)
    requires
        literal(filter),
    ensures
        matches_spec(filter, topic) <==> filter == topic,
{
    lemma_literal_levels(filter);
    lemma_levels_nonempty(filter);
    let f = levels(filter);
    let t = levels(topic);
    assert(!is_hash(f[f.len() - 1]));
    assert(!is_plus(f[0]) && !is_hash(f[0]));
    if matches_spec(filter, topic) {
        assert forall|i: int| 0 <= i < f.len() implies f[i] == t[i] by {
            assert(!is_plus(f[i]));
        }
        assert(f =~= t);
        lemma_levels_differ(filter, topic);
    }
}

/// A filter that ends in `/#` matches the topic before that and every topic below it.
pub proof fn law_hash_matches_all_below(prefix: Seq<char>, topic: Seq<char>)
    requires
        literal(prefix),
    ensures
        matches_spec(below(prefix, seq!['#']), topic) <==> topic == prefix || exists|rest: Seq<char>|
            topic == #[trigger] below(prefix, rest),
{
    let hash = seq!['#'];
    let filter = below(prefix, hash);
    let p = levels(prefix);
    let f = levels(filter);
    let t = levels(topic);
    lemma_literal_levels(prefix);
    lemma_levels_nonempty(prefix);
    lemma_below(prefix, hash);
    lemma_single(hash);
    assert(f =~= p.push(hash));
    assert(f.last() == hash);
    assert(f[0] == p[0]);
    assert forall|i: int| 0 <= i < p.len() implies f[i] == p[i] && !is_plus(#[trigger] f[i])
        && !is_hash(f[i]) by {}
    if matches_spec(filter, topic) {
        assert(t.take(p.len() as int) =~= p) by {
            assert forall|i: int| 0 <= i < p.len() implies p[i] == t[i] by {
                assert(!is_plus(f[i]));
            }
        }
        if t.len() == p.len() {
            assert(t =~= p);
            lemma_levels_differ(topic, prefix);
        } else {
            let (a, b) = lemma_split(topic, p.len() as int);
            lemma_levels_differ(a, prefix);
            assert(topic == below(prefix, b));
        }
    }
    if exists|rest: Seq<char>| topic == #[trigger] below(prefix, rest) {
        let rest = choose|rest: Seq<char>| topic == #[trigger] below(prefix, rest);
        lemma_below(prefix, rest);
        assert(forall|i: int| 0 <= i < p.len() ==> t[i] == #[trigger] f[i]);
        assert(matches_spec(filter, topic));
    }
    if topic == prefix {
        assert(forall|i: int| 0 <= i < p.len() ==> t[i] == #[trigger] f[i]);
        assert(matches_spec(filter, topic));
    }
}

/// A filter that ends in `/+` matches every topic that has one more level there, and no other.
pub proof fn law_plus_matches_one_level(prefix: Seq<char>, topic: Seq<char>)
    requires
        literal(prefix),
    ensures
        matches_spec(below(prefix, seq!['+']), topic) <==> exists|rest: Seq<char>|
            one_level(rest) && topic == #[trigger] below(prefix, rest),
{
    let plus = seq!['+'];
    let filter = below(prefix, plus);
    let p = levels(prefix);
    let f = levels(filter);
    let t = levels(topic);
    lemma_literal_levels(prefix);
    lemma_levels_nonempty(prefix);
    lemma_below(prefix, plus);
    lemma_single(plus);
    assert(f =~= p.push(plus));
    assert(f.last() == plus);
    assert(f[0] == p[0]);
    assert forall|i: int| 0 <= i < p.len() implies f[i] == p[i] && !is_plus(#[trigger] f[i])
        && !is_hash(f[i]) by {}
    if matches_spec(filter, topic) {
        assert(t.take(p.len() as int) =~= p) by {
            assert forall|i: int| 0 <= i < p.len() implies p[i] == t[i] by {
                assert(!is_plus(f[i]));
            }
        }
        let (a, b) = lemma_split(topic, p.len() as int);
        lemma_levels_differ(a, prefix);
        assert(levels(b).len() == 1);
        lemma_level_chars(b, |c: char| true);
        lemma_levels_single(b);
        assert(topic == below(prefix, b));
    }
    if exists|rest: Seq<char>| one_level(rest) && topic == #[trigger] below(prefix, rest) {
        let rest = choose|rest: Seq<char>|
            one_level(rest) && topic == #[trigger] below(prefix, rest);
        lemma_below(prefix, rest);
        lemma_single(rest);
        assert(forall|i: int| 0 <= i < p.len() ==> t[i] == #[trigger] f[i]);
        assert(!is_hash(f[p.len() as int]) && is_plus(f[p.len() as int]));
        assert(matches_spec(filter, topic));
    }
}

/// A text of one level has no slash.
proof fn lemma_levels_single(text: Seq<char>)
    requires
        levels(text).len() == 1,
    ensures
        one_level(text),
    decreases text.len(),
{
    if text.len() > 0 {
        let front = text.drop_last();
        lemma_levels_nonempty(front);
        lemma_levels_single(front);
        assert forall|i: int| 0 <= i < text.len() implies #[trigger] text[i] != '/' by {
            if i < front.len() {
                assert(front[i] != '/');
            }
        }
    }
}

/// The filters `#` and `+` match every topic, or every topic of one level, that does not begin
/// with `$`.
pub proof fn law_bare_wildcards_leave_out_the_hidden(topic: Seq<char>)
    ensures
        matches_spec(seq!['#'], topic) <==> !(topic.len() > 0 && topic[0] == '$'),
        matches_spec(seq!['+'], topic) <==> one_level(topic) && !(topic.len() > 0 && topic[0]
            == '$'),
{
    let hash = seq!['#'];
    let plus = seq!['+'];
    lemma_single(hash);
    lemma_single(plus);
    lemma_levels_nonempty(topic);
    assert(is_hash(levels(hash)[0]) && levels(hash).last() == hash);
    assert(is_plus(levels(plus)[0]) && levels(plus).last() == plus);
    if one_level(topic) {
        lemma_single(topic);
    }
    if levels(topic).len() == 1 {
        lemma_levels_single(topic);
    }
}

/// How often a slash occurs.
pub open spec fn slashes(text: Seq<char>) -> nat
    decreases text.len(),
{
    if text.len() == 0 {
        0
    } else {
        slashes(text.drop_last()) + if text.last() == '/' {
            1nat
        } else {
            0
        }
    }
}

proof fn lemma_depth(text: Seq<char>)
    ensures
        levels(text).len() == slashes(text) + 1,
    decreases text.len(),
{
    if text.len() > 0 {
        lemma_depth(text.drop_last());
    }
}

/// A topic can be published to exactly if it is not empty, not too long or too deep, and has
/// neither a wildcard nor a character without a value.
pub proof fn law_what_can_be_published_to(topic: Seq<char>, limits: Limits)
    ensures
        topic_valid(topic, limits, false) <==> {
            &&& topic.len() > 0
            &&& encode_utf8(topic).len() <= limits.max_topic_bytes
            &&& slashes(topic) < limits.max_topic_depth
            &&& literal(topic)
            &&& forall|i: int| 0 <= i < topic.len() ==> #[trigger] topic[i] != '\0'
        },
{
    reveal(topic_ok);
    lemma_depth(topic);
    if topic_valid(topic, limits, false) {
        assert forall|i: int| 0 <= i < topic.len() implies #[trigger] topic[i] != '+' && topic[i]
            != '#' && topic[i] != '\0' by {
            assert(topic.contains(topic[i]));
        }
    }
}

proof fn lemma_plain_levels(text: Seq<char>)
    requires
        literal(text),
    ensures
        forall|k: int|
            0 <= k < levels(text).len() ==> !has_char(#[trigger] levels(text)[k], '+') && !has_char(
                levels(text)[k],
                '#',
            ),
{
    let p = |c: char| c != '+' && c != '#';
    assert forall|i: int| 0 <= i < text.len() implies p(#[trigger] text[i]) by {}
    lemma_level_chars(text, p);
    assert forall|k: int| 0 <= k < levels(text).len() implies !has_char(
        #[trigger] levels(text)[k],
        '+',
    ) && !has_char(levels(text)[k], '#') by {
        let level = levels(text)[k];
        if level.contains('+') {
            let i = choose|i: int| 0 <= i < level.len() && level[i] == '+';
            assert(p(levels(text)[k][i]));
        }
        if level.contains('#') {
            let i = choose|i: int| 0 <= i < level.len() && level[i] == '#';
            assert(p(levels(text)[k][i]));
        }
    }
}

/// A wildcard stands for a whole level and is no part of one, and `#` stands at the end alone.
pub proof fn law_wildcards_stand_alone(prefix: Seq<char>, word: Seq<char>)
    requires
        literal(prefix),
        literal(word),
        one_level(word),
        word.len() > 0,
    ensures
        filter_ok(below(prefix, word)),
        filter_ok(below(prefix, seq!['#'])),
        filter_ok(below(prefix, seq!['+'])),
        filter_ok(below(below(prefix, seq!['+']), word)),
        !filter_ok(below(prefix, word.push('#'))),
        !filter_ok(below(prefix, word.push('+'))),
        !filter_ok(below(below(prefix, seq!['#']), word)),
{
    let hash = seq!['#'];
    let plus = seq!['+'];
    let p = levels(prefix);
    let n = p.len() as int;
    lemma_plain_levels(prefix);
    lemma_plain_levels(word);
    lemma_single(word);
    lemma_single(hash);
    lemma_single(plus);
    assert(levels(word)[0] == word);
    lemma_below(prefix, word);
    lemma_below(prefix, hash);
    lemma_below(prefix, plus);
    lemma_below(below(prefix, plus), word);
    lemma_below(below(prefix, hash), word);
    assert(!has_char(plus, '#')) by {
        assert(plus[0] == '+');
    }
    assert(!has_char(hash, '+')) by {
        assert(hash[0] == '#');
    }
    let a = word.push('#');
    let c = word.push('+');
    assert(one_level(a) && one_level(c));
    lemma_single(a);
    lemma_single(c);
    lemma_below(prefix, a);
    lemma_below(prefix, c);
    assert(a[word.len() as int] == '#' && c[word.len() as int] == '+');
    assert(has_char(a, '#') && has_char(c, '+'));
    let fa = levels(below(prefix, a));
    let fc = levels(below(prefix, c));
    assert(fa[n] == a && fc[n] == c);
    let fh = levels(below(below(prefix, hash), word));
    assert(fh[n] == hash && fh.len() == n + 2);
    assert(hash[0] == '#');
    assert(has_char(hash, '#'));
}

} // verus!
