//! Topics of devices, who may use them, and how filters match them.
use crate::codec::common::{topic_valid, valid_topic};
use crate::error::Error;
use crate::identity::{
    identifier_char, identifier_ok, AuthenticatedDevice, DeviceId, DeviceKey, DeviceView,
    Permissions, ProductId, TenantId,
};
use crate::limits::Limits;
use crate::text::{
    characters, levels, same_chars, same_text, split_levels, starts_with, strip_prefix,
};
use vstd::prelude::*;

verus! {

/// The topics that every device has.
#[derive(Clone, Copy, Debug, PartialEq, Eq, Structural)]
pub enum TopicKind {
    Up,
    UpAck,
    Down,
    DownAck,
}

impl TopicKind {
    pub open spec fn suffix(self) -> Seq<char> {
        match self {
            TopicKind::Up => "up"@,
            TopicKind::UpAck => "up_ack"@,
            TopicKind::Down => "down"@,
            TopicKind::DownAck => "down_ack"@,
        }
    }
}

/// What all topics of a device begin with.
pub open spec fn device_root(device: DeviceView) -> Seq<char> {
    "v1/t/"@ + device.tenant + "/p/"@ + device.product + "/d/"@ + device.device + "/"@
}

pub open spec fn device_topic(device: DeviceView, kind: TopicKind) -> Seq<char> {
    device_root(device) + kind.suffix()
}

fn device_topic_root(device: &DeviceKey) -> (root: String)
    ensures
        root@ == device_root(device@),
{
    let mut root = "v1/t/".to_owned();
    root.append(device.tenant_id.as_str());
    root.append("/p/");
    root.append(device.product_id.as_str());
    root.append("/d/");
    root.append(device.device_id.as_str());
    root.append("/");
    root
}

/// The topic of a device.
pub fn topic(device: &DeviceKey, kind: TopicKind) -> (topic: String)
    ensures
        topic@ == device_topic(device@, kind),
{
    let mut topic = device_topic_root(device);
    match kind {
        TopicKind::Up => topic.append("up"),
        TopicKind::UpAck => topic.append("up_ack"),
        TopicKind::Down => topic.append("down"),
        TopicKind::DownAck => topic.append("down_ack"),
    }
    topic
}

/// A device publishes to its own upward topic and, if it takes commands, acknowledges them.
pub open spec fn publish_acl_spec(device: DeviceView, permissions: Permissions, topic: Seq<char>) -> Result<
    TopicKind,
    Error,
> {
    if !permissions.publish {
        Err(Error::Forbidden)
    } else if topic == device_topic(device, TopicKind::Up) {
        Ok(TopicKind::Up)
    } else if permissions.commands && topic == device_topic(device, TopicKind::DownAck) {
        Ok(TopicKind::DownAck)
    } else {
        Err(Error::Forbidden)
    }
}

/// Whether the device may publish to the topic, and which of its topics that is.
pub fn publish_acl(auth: &AuthenticatedDevice, value: &str) -> (result: Result<TopicKind, Error>)
    ensures
        result == publish_acl_spec(auth.device_key@, auth.permissions, value@),
{
    if !auth.permissions.publish {
        return Err(Error::Forbidden);
    }
    if same_text(value, topic(&auth.device_key, TopicKind::Up).as_str()) {
        Ok(TopicKind::Up)
    } else if auth.permissions.commands && same_text(
        value,
        topic(&auth.device_key, TopicKind::DownAck).as_str(),
    ) {
        Ok(TopicKind::DownAck)
    } else {
        Err(Error::Forbidden)
    }
}

/// Whether a text begins with the device's root and goes on after it.
pub open spec fn below_root(device: DeviceView, text: Seq<char>) -> bool {
    starts_with(text, device_root(device)) && text.len() > device_root(device).len()
}

fn is_below_root(device: &DeviceKey, text: &str) -> (below: bool)
    ensures
        below == below_root(device@, text@),
{
    let root = device_topic_root(device);
    let prefix = characters(root.as_str());
    match strip_prefix(text, &prefix) {
        Some(suffix) => suffix.len() > 0,
        None => false,
    }
}

/// A session may subscribe below its device's root if the device takes commands.
pub open spec fn subscribe_acl_spec(
    device: DeviceView,
    permissions: Permissions,
    filter: Seq<char>,
    limits: Limits,
) -> bool {
    topic_valid(filter, limits, true) && permissions.commands && below_root(device, filter)
}

/// Whether the device may subscribe to the filter.
pub fn subscribe_acl(auth: &AuthenticatedDevice, filter: &str, limits: &Limits) -> (allowed: bool)
    ensures
        allowed == subscribe_acl_spec(auth.device_key@, auth.permissions, filter@, *limits),
{
    session_subscribe_acl(&auth.device_key, &auth.permissions, filter, limits)
}

pub fn session_subscribe_acl(
    device: &DeviceKey,
    permissions: &Permissions,
    filter: &str,
    limits: &Limits,
) -> (allowed: bool)
    ensures
        allowed == subscribe_acl_spec(device@, *permissions, filter@, *limits),
{
    if !valid_topic(filter, limits, true) || !permissions.commands {
        return false;
    }
    is_below_root(device, filter)
}

/// A message may wait for a session if it is on a topic below the device's root.
pub open spec fn delivery_acl_spec(
    device: DeviceView,
    permissions: Permissions,
    topic: Seq<char>,
    limits: Limits,
) -> bool {
    topic_valid(topic, limits, false) && permissions.commands && below_root(device, topic)
}

pub fn session_delivery_acl(
    device: &DeviceKey,
    permissions: &Permissions,
    topic: &str,
    limits: &Limits,
) -> (allowed: bool)
    ensures
        allowed == delivery_acl_spec(device@, *permissions, topic@, *limits),
{
    if !valid_topic(topic, limits, false) || !permissions.commands {
        return false;
    }
    is_below_root(device, topic)
}

/// A topic that the device publishes to, as far as the permissions, if known, allow it.
pub open spec fn publish_topic_spec(
    device: DeviceView,
    topic: Seq<char>,
    permissions: Option<Permissions>,
) -> bool {
    if topic == device_topic(device, TopicKind::Up) {
        permissions matches Some(value) ==> value.publish
    } else if topic == device_topic(device, TopicKind::DownAck) {
        permissions matches Some(value) ==> value.publish && value.commands
    } else {
        false
    }
}

pub fn device_publish_topic(device: &DeviceKey, value: &str, permissions: Option<&Permissions>) -> (allowed: bool)
    ensures
        allowed == publish_topic_spec(
            device@,
            value@,
            match permissions {
                Some(value) => Some(*value),
                None => None,
            },
        ),
{
    if same_text(value, topic(device, TopicKind::Up).as_str()) {
        match permissions {
            Some(value) => value.publish,
            None => true,
        }
    } else if same_text(value, topic(device, TopicKind::DownAck).as_str()) {
        match permissions {
            Some(value) => value.publish && value.commands,
            None => true,
        }
    } else {
        false
    }
}

/// A topic that some device of the tenant publishes to.
pub open spec fn retained_owner_spec(tenant: Seq<char>, topic: Seq<char>) -> bool {
    let parts = levels(topic);
    &&& parts.len() == 8
    &&& parts[0] == "v1"@
    &&& parts[1] == "t"@
    &&& parts[2] == tenant
    &&& parts[3] == "p"@
    &&& identifier_ok(parts[4])
    &&& parts[5] == "d"@
    &&& identifier_ok(parts[6])
    &&& (parts[7] == "up"@ || parts[7] == "down_ack"@)
}

fn level_is(level: &Vec<char>, text: &str) -> (same: bool)
    ensures
        same == (level@ == text@),
{
    let other = characters(text);
    same_chars(level, &other)
}

fn text_of(chars: &Vec<char>) -> (text: String)
    ensures
        text@ == chars@,
{
    let mut text = String::new();
    let mut at: usize = 0;
    while at < chars.len()
        invariant
            at <= chars.len(),
            text@ == chars@.take(at as int),
        decreases chars.len() - at,
    {
        push_char(&mut text, chars[at]);
        at = at + 1;
        assert(chars@.take(at as int) =~= chars@.take(at as int - 1).push(chars@[at as int - 1]));
    }
    assert(chars@.take(chars@.len() as int) =~= chars@);
    text
}

/// `String::push`: appends one character.
#[verifier::external_body]
pub(crate) fn push_char(text: &mut String, c: char)
    ensures
        final(text)@ == old(text)@.push(c),
{
    text.push(c)
}

pub fn retained_topic_owner_acl(tenant: &TenantId, topic: &str) -> (allowed: bool)
    ensures
        allowed == retained_owner_spec(tenant@, topic@),
{
    let parts = split_levels(topic);
    let ghost model = levels(topic@);
    assert(model.len() == parts@.len());
    if parts.len() != 8 {
        return false;
    }
    assert(forall|i: int| 0 <= i < 8 ==> model[i] == #[trigger] parts@[i]@);
    level_is(&parts[0], "v1") && level_is(&parts[1], "t") && level_is(&parts[2], tenant.as_str())
        && level_is(&parts[3], "p") && ProductId::new(text_of(&parts[4]).as_str()).is_ok()
        && level_is(&parts[5], "d") && DeviceId::new(text_of(&parts[6]).as_str()).is_ok() && (
    level_is(&parts[7], "up") || level_is(&parts[7], "down_ack"))
}

pub open spec fn is_hash(level: Seq<char>) -> bool {
    level.len() == 1 && level[0] == '#'
}

pub open spec fn is_plus(level: Seq<char>) -> bool {
    level.len() == 1 && level[0] == '+'
}

/// How the levels of a filter match those of a topic: `+` stands for any one level, and a final
/// `#` for all that follow, also for none.
pub open spec fn levels_match(filter: Seq<Seq<char>>, topic: Seq<Seq<char>>) -> bool {
    let open_end = filter.len() > 0 && is_hash(filter.last());
    let fixed = if open_end {
        filter.len() - 1
    } else {
        filter.len() as int
    };
    &&& fixed <= topic.len()
    &&& open_end || topic.len() == fixed
    &&& forall|i: int|
        0 <= i < fixed ==> {
            &&& !is_hash(#[trigger] filter[i])
            &&& is_plus(filter[i]) || filter[i] == topic[i]
        }
}

/// A wildcard in the first level does not reach topics that begin with `$`.
pub open spec fn hidden_from(filter: Seq<Seq<char>>, topic: Seq<char>) -> bool {
    &&& topic.len() > 0 && topic[0] == '$'
    &&& filter.len() > 0 && (is_plus(filter[0]) || (filter.len() == 1 && is_hash(filter[0])))
}

/// Whether a filter matches a topic.
pub open spec fn matches_spec(filter: Seq<char>, topic: Seq<char>) -> bool {
    !hidden_from(levels(filter), topic) && levels_match(levels(filter), levels(topic))
}

fn level_is_char(level: &Vec<char>, c: char) -> (same: bool)
    ensures
        same == (level@.len() == 1 && level@[0] == c),
{
    level.len() == 1 && level[0] == c
}

fn starts_with_dollar(text: &str) -> (starts: bool)
    ensures
        starts == (text@.len() > 0 && text@[0] == '$'),
{
    let chars = characters(text);
    chars.len() > 0 && chars[0] == '$'
}

/// Whether a filter matches a topic.
pub fn topic_matches(filter: &str, topic: &str) -> (matched: bool)
    ensures
        matched == matches_spec(filter@, topic@),
{
    let filters = split_levels(filter);
    let topics = split_levels(topic);
    let ghost f = levels(filter@);
    let ghost t = levels(topic@);
    assert(f.len() == filters@.len() && t.len() == topics@.len());
    assert(forall|i: int| 0 <= i < f.len() ==> f[i] == #[trigger] filters@[i]@);
    assert(forall|i: int| 0 <= i < t.len() ==> t[i] == #[trigger] topics@[i]@);
    if starts_with_dollar(topic) && (level_is_char(&filters[0], '+') || (filters.len() == 1
        && level_is_char(&filters[0], '#'))) {
        return false;
    }
    let count: usize = filters.len();
    let mut at: usize = 0;
    while at < count
        invariant
            at <= count == f.len() == filters@.len(),
            t.len() == topics@.len(),
            f == levels(filter@),
            t == levels(topic@),
            !hidden_from(f, topic@),
            forall|i: int| 0 <= i < f.len() ==> f[i] == #[trigger] filters@[i]@,
            forall|i: int| 0 <= i < t.len() ==> t[i] == #[trigger] topics@[i]@,
            at <= t.len(),
            forall|i: int|
                0 <= i < at ==> {
                    &&& !is_hash(#[trigger] f[i])
                    &&& is_plus(f[i]) || f[i] == t[i]
                },
        decreases count - at,
    {
        let level = &filters[at];
        assert(f[at as int] == level@);
        if level_is_char(level, '#') {
            assert(is_hash(f[at as int]));
            if at + 1 == count {
                assert(f.last() == f[at as int]);
                assert(levels_match(f, t));
                return true;
            }
            assert(!levels_match(f, t));
            return false;
        }
        if at >= topics.len() {
            return false;
        }
        assert(t[at as int] == topics@[at as int]@);
        if !level_is_char(level, '+') && !same_chars(level, &topics[at]) {
            return false;
        }
        at = at + 1;
    }
    at == topics.len()
}

/// A name without slashes ends at the slash that follows it.
proof fn lemma_cut(a: Seq<char>, x: Seq<char>, b: Seq<char>, y: Seq<char>)
    requires
        a + x == b + y,
        identifier_ok(a),
        identifier_ok(b),
        x.len() > 0 && x[0] == '/',
        y.len() > 0 && y[0] == '/',
    ensures
        a == b,
        x == y,
{
    let whole = a + x;
    if a.len() < b.len() {
        assert(whole[a.len() as int] == x[0]);
        assert(whole[a.len() as int] == b[a.len() as int]);
        assert(identifier_char(b[a.len() as int]));
    } else if b.len() < a.len() {
        assert(whole[b.len() as int] == y[0]);
        assert(whole[b.len() as int] == a[b.len() as int]);
        assert(identifier_char(a[b.len() as int]));
    }
    assert(a =~= whole.take(a.len() as int));
    assert(b =~= whole.take(b.len() as int));
    assert(x =~= whole.skip(a.len() as int));
    assert(y =~= whole.skip(b.len() as int));
}

/// What follows the same beginning.
proof fn lemma_after(p: Seq<char>, x: Seq<char>, y: Seq<char>)
    requires
        p + x == p + y,
    ensures
        x == y,
{
    assert(x =~= (p + x).skip(p.len() as int));
    assert(y =~= (p + y).skip(p.len() as int));
}

proof fn lemma_regrouped(a: Seq<char>, b: Seq<char>, c: Seq<char>)
    ensures
        (a + b) + c == a + (b + c),
{
    assert((a + b) + c =~= a + (b + c));
}

/// The root of a device taken apart from the front.
proof fn lemma_root_parts(device: DeviceView, rest: Seq<char>)
    ensures
        device_root(device) + rest == "v1/t/"@ + (device.tenant + ("/p/"@ + (device.product + (
        "/d/"@ + (device.device + ("/"@ + rest)))))),
{
    let r1 = "v1/t/"@ + device.tenant;
    let r2 = r1 + "/p/"@;
    let r3 = r2 + device.product;
    let r4 = r3 + "/d/"@;
    let r5 = r4 + device.device;
    let t5 = "/"@ + rest;
    let t4 = device.device + t5;
    let t3 = "/d/"@ + t4;
    let t2 = device.product + t3;
    let t1 = "/p/"@ + t2;
    lemma_regrouped(r5, "/"@, rest);
    lemma_regrouped(r4, device.device, t5);
    lemma_regrouped(r3, "/d/"@, t4);
    lemma_regrouped(r2, device.product, t3);
    lemma_regrouped(r1, "/p/"@, t2);
    lemma_regrouped("v1/t/"@, device.tenant, t1);
}

/// Devices do not share topics or filters: what lies below the root of one device lies below that
/// of no other.
pub proof fn law_device_topics_are_its_own(first: DeviceView, second: DeviceView, text: Seq<char>)
    requires
        identifier_ok(first.tenant) && identifier_ok(first.product) && identifier_ok(first.device),
        identifier_ok(second.tenant) && identifier_ok(second.product) && identifier_ok(
            second.device,
        ),
        starts_with(text, device_root(first)),
        starts_with(text, device_root(second)),
    ensures
        first == second,
{
    reveal_strlit("/p/");
    reveal_strlit("/d/");
    reveal_strlit("/");
    let u = text.skip(device_root(first).len() as int);
    let v = text.skip(device_root(second).len() as int);
    let x3 = "/"@ + u;
    let y3 = "/"@ + v;
    let x2 = "/d/"@ + (first.device + x3);
    let y2 = "/d/"@ + (second.device + y3);
    let x1 = "/p/"@ + (first.product + x2);
    let y1 = "/p/"@ + (second.product + y2);
    assert(text =~= device_root(first) + u);
    assert(text =~= device_root(second) + v);
    lemma_root_parts(first, u);
    lemma_root_parts(second, v);
    lemma_after("v1/t/"@, first.tenant + x1, second.tenant + y1);
    lemma_cut(first.tenant, x1, second.tenant, y1);
    lemma_after("/p/"@, first.product + x2, second.product + y2);
    lemma_cut(first.product, x2, second.product, y2);
    lemma_after("/d/"@, first.device + x3, second.device + y3);
    lemma_cut(first.device, x3, second.device, y3);
}

/// A device publishes and subscribes below its own root alone.
pub proof fn law_access_is_below_the_own_root(
    device: DeviceView,
    permissions: Permissions,
    text: Seq<char>,
    limits: Limits,
)
    ensures
        publish_acl_spec(device, permissions, text) is Ok ==> below_root(device, text),
        publish_topic_spec(device, text, None) ==> below_root(device, text),
        publish_topic_spec(device, text, Some(permissions)) ==> below_root(device, text),
        subscribe_acl_spec(device, permissions, text, limits) ==> below_root(device, text),
        delivery_acl_spec(device, permissions, text, limits) ==> below_root(device, text),
{
    reveal_strlit("up");
    reveal_strlit("down_ack");
    let root = device_root(device);
    assert((root + "up"@).take(root.len() as int) =~= root);
    assert((root + "down_ack"@).take(root.len() as int) =~= root);
}

} // verus!
