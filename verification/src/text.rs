//! Text as the protocol sees it: UTF-8, permitted characters and topic levels.
use crate::error::Error;
use vstd::prelude::*;
use vstd::utf8::{decode_utf8, encode_utf8, valid_utf8};

verus! {

/// Decodes a byte slice with `std::str::from_utf8`.
///
/// Claimed of `std::str::from_utf8`: it succeeds exactly on well-formed UTF-8, and the text it
/// returns holds the characters that the bytes encode.
#[verifier::external_body]
fn std_from_utf8(bytes: &[u8]) -> (text: Option<&str>)
    ensures
        text is Some <==> valid_utf8(bytes@),
        text is Some ==> text->0@ == decode_utf8(bytes@),
{
    std::str::from_utf8(bytes).ok()
}

/// Borrowed text of the bytes, if they are well-formed UTF-8.
pub fn decode_text(bytes: &[u8]) -> (text: Option<&str>)
    ensures
        text is Some <==> valid_utf8(bytes@),
        text is Some ==> text->0@ == decode_utf8(bytes@) && encode_utf8(text->0@) == bytes@,
{
    let text = std_from_utf8(bytes);
    proof {
        if valid_utf8(bytes@) {
            vstd::utf8::decode_utf8_encode_utf8(bytes@);
        }
    }
    text
}

/// The number of bytes that the text occupies on the wire.
pub open spec fn text_bytes(text: Seq<char>) -> nat {
    encode_utf8(text).len()
}

pub fn byte_len(text: &str) -> (length: usize)
    ensures
        length == text_bytes(text@),
{
    text.as_bytes().len()
}

pub fn characters(text: &str) -> (chars: Vec<char>)
    ensures
        chars@ == text@,
{
    let mut chars: Vec<char> = Vec::new();
    for c in it: text.chars()
        invariant
            chars@ == it.seq().take(it.index() as int),
            it.seq() == text@,
    {
        chars.push(c);
    }
    chars
}

/// Control characters and Unicode noncharacters are not permitted in protocol text.
pub open spec fn permitted_char(c: char) -> bool {
    let v = c as u32;
    &&& !(v <= 0x1f)
    &&& !(0x7f <= v <= 0x9f)
    &&& !(0xfdd0 <= v <= 0xfdef)
    &&& !(v % 0x1_0000 >= 0xfffe)
}

pub open spec fn permitted_text(text: Seq<char>) -> bool {
    forall|i: int| 0 <= i < text.len() ==> permitted_char(#[trigger] text[i])
}

/// Well-formed UTF-8 of permitted characters only.
pub open spec fn permitted_bytes(bytes: Seq<u8>) -> bool {
    valid_utf8(bytes) && permitted_text(decode_utf8(bytes))
}

fn is_permitted(c: char) -> (permitted: bool)
    ensures
        permitted == permitted_char(c),
{
    let v: u32 = c as u32;
    v > 0x1f && !(0x7f <= v && v <= 0x9f) && !(0xfdd0 <= v && v <= 0xfdef) && v % 0x1_0000 < 0xfffe
}

pub fn all_permitted(text: &str) -> (permitted: bool)
    ensures
        permitted == permitted_text(text@),
{
    let chars = characters(text);
    let mut at: usize = 0;
    while at < chars.len()
        invariant
            at <= chars.len(),
            chars@ == text@,
            forall|i: int| 0 <= i < at ==> permitted_char(#[trigger] text@[i]),
        decreases chars.len() - at,
    {
        if !is_permitted(chars[at]) {
            assert(!permitted_char(text@[at as int]));
            return false;
        }
        at = at + 1;
    }
    true
}

/// Text of the bytes, or `Invalid` unless they are well-formed UTF-8 of permitted characters.
pub fn valid_text(bytes: &[u8]) -> (text: Result<&str, Error>)
    ensures
        text is Ok <==> permitted_bytes(bytes@),
        text is Ok ==> text->Ok_0@ == decode_utf8(bytes@) && encode_utf8(text->Ok_0@) == bytes@,
        text is Err ==> text->Err_0 == Error::Invalid,
{
    match decode_text(bytes) {
        Some(text) => if all_permitted(text) {
            Ok(text)
        } else {
            Err(Error::Invalid)
        },
        None => Err(Error::Invalid),
    }
}

/// The levels of a topic: the text between its slashes. There is always at least one.
pub open spec fn levels(text: Seq<char>) -> Seq<Seq<char>>
    decreases text.len(),
{
    if text.len() == 0 {
        seq![Seq::<char>::empty()]
    } else {
        let before = levels(text.drop_last());
        if text.last() == '/' {
            before.push(Seq::<char>::empty())
        } else {
            before.update(before.len() - 1, before.last().push(text.last()))
        }
    }
}

pub proof fn lemma_levels_nonempty(text: Seq<char>)
    ensures
        levels(text).len() > 0,
    decreases text.len(),
{
    if text.len() > 0 {
        lemma_levels_nonempty(text.drop_last());
    }
}

/// The characters of each level.
pub open spec fn level_texts(parts: Seq<Vec<char>>) -> Seq<Seq<char>> {
    Seq::new(parts.len(), |i: int| parts[i]@)
}

pub fn split_levels(text: &str) -> (parts: Vec<Vec<char>>)
    ensures
        level_texts(parts@) == levels(text@),
        parts@.len() > 0,
{
    let chars = characters(text);
    let mut parts: Vec<Vec<char>> = Vec::new();
    let mut current: Vec<char> = Vec::new();
    let mut at: usize = 0;
    proof {
        assert(level_texts(parts@).push(current@) =~= seq![Seq::<char>::empty()]);
        assert(text@.take(0) =~= Seq::<char>::empty());
    }
    while at < chars.len()
        invariant
            at <= chars.len(),
            chars@ == text@,
            level_texts(parts@).push(current@) == levels(text@.take(at as int)),
        decreases chars.len() - at,
    {
        let c = chars[at];
        let ghost before = text@.take(at as int);
        let ghost after = text@.take(at as int + 1);
        proof {
            assert(after.drop_last() =~= before);
            assert(after.last() == c);
            lemma_levels_nonempty(before);
        }
        let ghost old_parts = level_texts(parts@);
        let ghost old_current = current@;
        if c == '/' {
            let mut done: Vec<char> = Vec::new();
            std::mem::swap(&mut done, &mut current);
            parts.push(done);
            proof {
                assert(level_texts(parts@) =~= old_parts.push(old_current));
                assert(current@ =~= Seq::<char>::empty());
            }
        } else {
            current.push(c);
            proof {
                assert(old_parts.push(old_current).update(
                    old_parts.len() as int,
                    old_current.push(c),
                ) =~= old_parts.push(old_current.push(c)));
            }
        }
        at = at + 1;
    }
    let ghost old_parts = level_texts(parts@);
    let ghost last = current@;
    parts.push(current);
    proof {
        assert(text@.take(text@.len() as int) =~= text@);
        assert(level_texts(parts@) =~= old_parts.push(last));
    }
    parts
}

pub open spec fn has_char(text: Seq<char>, c: char) -> bool {
    text.contains(c)
}

pub fn contains_char(text: &Vec<char>, c: char) -> (found: bool)
    ensures
        found == has_char(text@, c),
{
    let mut at: usize = 0;
    while at < text.len()
        invariant
            at <= text.len(),
            forall|i: int| 0 <= i < at ==> text@[i] != c,
        decreases text.len() - at,
    {
        if text[at] == c {
            assert(text@[at as int] == c);
            return true;
        }
        at = at + 1;
    }
    false
}

pub fn same_chars(left: &Vec<char>, right: &Vec<char>) -> (same: bool)
    ensures
        same == (left@ == right@),
{
    if left.len() != right.len() {
        return false;
    }
    let mut at: usize = 0;
    while at < left.len()
        invariant
            at <= left.len(),
            left.len() == right.len(),
            forall|i: int| 0 <= i < at ==> left@[i] == right@[i],
        decreases left.len() - at,
    {
        if left[at] != right[at] {
            assert(left@[at as int] != right@[at as int]);
            return false;
        }
        at = at + 1;
    }
    assert(left@ =~= right@);
    true
}

/// Whether two pieces of text hold the same characters.
pub fn same_text(left: &str, right: &str) -> (same: bool)
    ensures
        same == (left@ == right@),
{
    let left_chars = characters(left);
    let right_chars = characters(right);
    same_chars(&left_chars, &right_chars)
}

/// Whether a text begins with the given characters.
pub open spec fn starts_with(text: Seq<char>, prefix: Seq<char>) -> bool {
    prefix.len() <= text.len() && text.take(prefix.len() as int) == prefix
}

/// What follows the prefix in the text, if the text begins with it.
pub fn strip_prefix(text: &str, prefix: &Vec<char>) -> (suffix: Option<Vec<char>>)
    ensures
        suffix is Some <==> starts_with(text@, prefix@),
        suffix is Some ==> suffix->0@ == text@.skip(prefix@.len() as int),
{
    let chars = characters(text);
    if prefix.len() > chars.len() {
        return None;
    }
    let mut at: usize = 0;
    while at < prefix.len()
        invariant
            at <= prefix.len() <= chars.len(),
            chars@ == text@,
            forall|i: int| 0 <= i < at ==> prefix@[i] == text@[i],
        decreases prefix.len() - at,
    {
        if prefix[at] != chars[at] {
            assert(text@.take(prefix@.len() as int)[at as int] != prefix@[at as int]);
            return None;
        }
        at = at + 1;
    }
    assert(text@.take(prefix@.len() as int) =~= prefix@);
    let mut suffix: Vec<char> = Vec::new();
    while at < chars.len()
        invariant
            prefix.len() <= at <= chars.len(),
            chars@ == text@,
            suffix@ == text@.subrange(prefix@.len() as int, at as int),
        decreases chars.len() - at,
    {
        suffix.push(chars[at]);
        at = at + 1;
        assert(text@.subrange(prefix@.len() as int, at as int) =~= text@.subrange(
            prefix@.len() as int,
            at as int - 1,
        ).push(text@[at as int - 1]));
    }
    assert(text@.subrange(prefix@.len() as int, text@.len() as int) =~= text@.skip(
        prefix@.len() as int,
    ));
    Some(suffix)
}

/// A wildcard stands alone in its level, and `#` only in the last one.
pub open spec fn valid_filter_levels(parts: Seq<Seq<char>>) -> bool {
    forall|i: int|
        0 <= i < parts.len() ==> {
            &&& has_char(#[trigger] parts[i], '#') ==> parts[i].len() == 1 && i == parts.len() - 1
            &&& has_char(parts[i], '+') ==> parts[i].len() == 1
        }
}

pub open spec fn filter_ok(text: Seq<char>) -> bool {
    text.len() > 0 && valid_filter_levels(levels(text))
}

/// A topic name, or with `filter` a topic filter, within the given size and depth.
#[verifier::opaque]
pub open spec fn topic_ok(text: Seq<char>, max_bytes: nat, max_depth: nat, filter: bool) -> bool {
    &&& text.len() > 0
    &&& text_bytes(text) <= max_bytes
    &&& levels(text).len() <= max_depth
    &&& !has_char(text, '\0')
    &&& if filter {
        filter_ok(text)
    } else {
        !has_char(text, '+') && !has_char(text, '#')
    }
}

pub proof fn lemma_topic_fits(text: Seq<char>, max_bytes: nat, max_depth: nat, filter: bool)
    requires
        topic_ok(text, max_bytes, max_depth, filter),
    ensures
        text.len() > 0,
        text_bytes(text) <= max_bytes,
{
    reveal(topic_ok);
}

/// Whether the wildcards of a topic filter are well placed.
pub fn valid_filter(filter: &str) -> (valid: bool)
    ensures
        valid == filter_ok(filter@),
{
    if filter.is_empty() {
        return false;
    }
    let parts = split_levels(filter);
    let mut at: usize = 0;
    while at < parts.len()
        invariant
            at <= parts.len(),
            level_texts(parts@) == levels(filter@),
            forall|i: int|
                0 <= i < at ==> {
                    &&& has_char(#[trigger] levels(filter@)[i], '#') ==> levels(filter@)[i].len() == 1
                        && i == levels(filter@).len() - 1
                    &&& has_char(levels(filter@)[i], '+') ==> levels(filter@)[i].len() == 1
                },
        decreases parts.len() - at,
    {
        assert(levels(filter@)[at as int] == parts@[at as int]@);
        let level = &parts[at];
        if contains_char(level, '#') && !(level.len() == 1 && at == parts.len() - 1) {
            return false;
        }
        if contains_char(level, '+') && level.len() != 1 {
            return false;
        }
        at = at + 1;
    }
    true
}

/// Whether a text is a valid topic name, or with `filter` a valid topic filter.
pub fn valid_topic(topic: &str, max_bytes: usize, max_depth: usize, filter: bool) -> (valid: bool)
    ensures
        valid == topic_ok(topic@, max_bytes as nat, max_depth as nat, filter),
{
    reveal(topic_ok);
    if topic.is_empty() || byte_len(topic) > max_bytes {
        return false;
    }
    let parts = split_levels(topic);
    assert(levels(topic@).len() == parts@.len());
    if parts.len() > max_depth {
        return false;
    }
    let chars = characters(topic);
    if contains_char(&chars, '\0') {
        return false;
    }
    if filter {
        valid_filter(topic)
    } else {
        !contains_char(&chars, '+') && !contains_char(&chars, '#')
    }
}

} // verus!
