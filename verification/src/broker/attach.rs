//! Opening, taking up and leaving sessions.
use super::deliver::failure;
use super::model::{
    active_at, bytes_fit, drive, expiry_deadline, inflight, mark, owns, prune_expired, prune_if_due,
    prune_messages, put_session, reindexed, released, remove_session, sat_sub, session_at,
    state_bytes, touch_session, unmark, with_link, BrokerView, FrameView, LinkView,
    HOT_MAINTENANCE_BUDGET,
};
use super::state::{cap_sum, frame_views, lemma_session_ok, BrokerFrame, Link, MqttBroker};
use super::wills::{cancel_resumed, release_delays, retried};
use crate::codec::MqttVersion;
use crate::error::Error;
use crate::identity::{AuthenticatedDevice, KeyView, SessionKey};
use crate::limits::Limits;
use crate::message::charge_of;
use crate::session::{
    auth_of, base_charge, disconnected, lemma_next_free, new_session, next_free, outbound_capacity,
    promoted, reconnected, send_quota_left, AuthView, OutboundStage, OutboundView,
    SessionAuthorization, SessionView, StoredSession,
};
use crate::text::{byte_len, same_text, text_bytes};
use crate::usage::tenant_usage;
use vstd::prelude::*;

verus! {

/// What a connection learns when it takes a session up.
#[derive(Debug, PartialEq, Eq)]
pub struct Attachment {
    pub key: SessionKey,
    pub generation: u64,
    pub session_incarnation: u64,
    pub session_present: bool,
    pub clean_session: bool,
    pub attached: bool,
    /// The number under which the connection takes its frames.
    pub receiver: u64,
}

pub struct AttachmentView {
    pub key: KeyView,
    pub generation: u64,
    pub session_incarnation: u64,
    pub session_present: bool,
    pub clean_session: bool,
    pub attached: bool,
    pub receiver: u64,
}

impl View for Attachment {
    type V = AttachmentView;

    open spec fn view(&self) -> AttachmentView {
        AttachmentView {
            key: self.key@,
            generation: self.generation,
            session_incarnation: self.session_incarnation,
            session_present: self.session_present,
            clean_session: self.clean_session,
            attached: self.attached,
            receiver: self.receiver,
        }
    }
}

/// What a connection asks for.
#[derive(Clone, Copy, Debug, PartialEq, Eq, Structural)]
pub struct Profile {
    pub clean_session: bool,
    pub version: MqttVersion,
    pub session_expiry_interval: u32,
    pub receive_maximum: u16,
}

pub open spec fn next_generation(generation: u64) -> u64 {
    if generation == u64::MAX {
        1
    } else {
        (generation + 1) as u64
    }
}

/// A session as it is taken up: its frames so far and their bytes.
#[verifier::ext_equal]
pub struct ResumeView {
    pub session: SessionView,
    pub frames: Seq<FrameView>,
    pub used: nat,
}

pub open spec fn resume_fits(b: BrokerView, limits: Limits, r: ResumeView, charge: nat) -> bool {
    bytes_fit(b, limits, r.session.key.device.tenant, r.used, r.used, r.used, charge)
}

/// One unfinished exchange handed again, or, with `false`, no room for it.
#[verifier::opaque]
pub open spec fn resend_one(b: BrokerView, limits: Limits, r: ResumeView, k: int) -> (
    ResumeView,
    bool,
) {
    let e = r.session.outbound[k];
    if e.stage == OutboundStage::Pubcomp {
        (
            ResumeView {
                session: SessionView {
                    outbound: r.session.outbound.update(k, OutboundView { sent: true, ..e }),
                    ..r.session
                },
                frames: r.frames.push(FrameView::Pubrel { packet_id: e.packet_id, dup: true }),
                used: r.used,
            },
            true,
        )
    } else if !send_quota_left(r.session) {
        (r, true)
    } else if !resume_fits(b, limits, r, charge_of(e.message)) {
        (r, false)
    } else {
        (
            ResumeView {
                session: SessionView {
                    outbound: r.session.outbound.update(
                        k,
                        OutboundView { sent: true, windowed: true, ..e },
                    ),
                    ..r.session
                },
                frames: r.frames.push(
                    FrameView::Publish {
                        message: e.message,
                        packet_id: Some(e.packet_id),
                        dup: true,
                        command: e.command,
                    },
                ),
                used: r.used + charge_of(e.message),
            },
            true,
        )
    }
}

/// The unfinished exchanges handed again, in their order, `left` of them still to come.
pub open spec fn resend(b: BrokerView, limits: Limits, r: ResumeView, k: int, left: nat) -> ResumeView
    decreases left,
{
    if left == 0 || r.frames.len() >= limits.max_outbound_messages_per_connection {
        r
    } else {
        match resend_one(b, limits, r, k) {
            (next, false) => next,
            (next, true) => resend(b, limits, next, k + 1, (left - 1) as nat),
        }
    }
}

/// Waiting messages made exchanges while there is room, so many of each quality of service.
pub open spec fn resume_waiting(
    b: BrokerView,
    limits: Limits,
    r: ResumeView,
    room1: nat,
    room2: nat,
) -> (ResumeView, Option<Error>)
    decreases r.session.offline.len(),
{
    if r.frames.len() >= limits.max_outbound_messages_per_connection || !send_quota_left(r.session)
        || r.session.offline.len() == 0 {
        (r, None)
    } else {
        let message = r.session.offline[0];
        let first = message.qos == 1;
        let room = if first {
            room1
        } else {
            room2
        };
        if !resume_fits(b, limits, r, charge_of(message)) || !outbound_capacity(
            r.session,
            message.qos,
            limits,
        ) || room == 0 {
            (r, None)
        } else {
            match next_free(r.session) {
                None => (r, Some(Error::Overloaded)),
                Some(id) => resume_waiting(
                    b,
                    limits,
                    ResumeView {
                        session: promoted(r.session, id),
                        frames: r.frames.push(
                            FrameView::Publish {
                                message,
                                packet_id: Some(id),
                                dup: false,
                                command: false,
                            },
                        ),
                        used: r.used + charge_of(message),
                    },
                    if first {
                        (room1 - 1) as nat
                    } else {
                        room1
                    },
                    if first {
                        room2
                    } else {
                        (room2 - 1) as nat
                    },
                ),
            }
        }
    }
}

/// What a session gets that is taken up: first what it was sent before, then what waits.
#[verifier::opaque]
pub open spec fn resume(b: BrokerView, limits: Limits, s: SessionView) -> (
    ResumeView,
    Option<Error>,
) {
    let tenant = s.key.device.tenant;
    resume_waiting(
        b,
        limits,
        resend(
            b,
            limits,
            ResumeView { session: s, frames: Seq::empty(), used: 0 },
            0,
            s.outbound.len(),
        ),
        sat_sub(limits.max_inflight_qos1_per_tenant as nat, inflight(b, tenant, 1)),
        sat_sub(limits.max_inflight_qos2_per_tenant as nat, inflight(b, tenant, 2)),
    )
}

pub open spec fn maintained(b: BrokerView, limits: Limits, now: i64) -> BrokerView {
    prune_messages(
        prune_expired(b, limits, now, HOT_MAINTENANCE_BUDGET as nat),
        limits,
        now,
        HOT_MAINTENANCE_BUDGET as nat,
    )
}

pub open spec fn expired_away(b: BrokerView, limits: Limits, now: i64, key: KeyView) -> BrokerView {
    if expiry_deadline(b, limits, key) matches Some(deadline) && deadline <= now {
        remove_session(b, limits, key)
    } else {
        b
    }
}

/// The session is kept only for a connection that does not start afresh, under the same
/// authorization and version.
#[verifier::opaque]
pub open spec fn cleared(
    b: BrokerView,
    limits: Limits,
    now: i64,
    key: KeyView,
    profile: Profile,
    auth: AuthView,
) -> BrokerView {
    let b1 = prune_if_due(expired_away(b, limits, now, key), limits, key, now);
    if profile.clean_session {
        remove_session(retried(release_delays(b1, key), limits, now), limits, key)
    } else {
        match session_at(b1, key) {
            Some(i) => if b1.sessions[i].version != profile.version
                || b1.sessions[i].authorization != Some(auth) {
                remove_session(b1, limits, key)
            } else {
                b1
            },
            None => b1,
        }
    }
}

pub open spec fn new_session_allowed(b: BrokerView, limits: Limits, key: KeyView) -> bool {
    let bytes = base_charge(key);
    let tenant = key.device.tenant;
    &&& bytes <= usize::MAX
    &&& b.sessions.len() < limits.max_persistent_sessions
    &&& tenant_usage(b.sessions, tenant).sessions < limits.max_persistent_sessions_per_tenant
    &&& state_bytes(b, Some(tenant)) + bytes <= limits.max_mqtt_session_state_bytes_per_tenant
    &&& state_bytes(b, None) + bytes <= limits.global_mqtt_session_bytes
}

/// The session opened if there is none.
#[verifier::opaque]
pub open spec fn opened(
    b: BrokerView,
    limits: Limits,
    now: i64,
    key: KeyView,
    profile: Profile,
    auth: AuthView,
) -> (BrokerView, Option<Error>) {
    if session_at(b, key) is Some {
        (b, None)
    } else {
        let b1 = BrokerView { generation: next_generation(b.generation), ..b };
        if !new_session_allowed(b1, limits, key) {
            (b1, Some(Error::Overloaded))
        } else {
            let s = SessionView {
                version: profile.version,
                session_expiry_interval: profile.session_expiry_interval,
                ..new_session(key, b1.generation, auth, now)
            };
            (reindexed(BrokerView { sessions: b1.sessions.push(s), ..b1 }, limits, key), None)
        }
    }
}

/// The connection of a session that was taken up.
pub open spec fn fresh_link(key: KeyView, generation: u64, receiver: u64, r: ResumeView) -> LinkView {
    LinkView {
        key,
        generation,
        queue: r.frames,
        open: true,
        active: true,
        cancelled: false,
        used: r.used,
        receiver,
        adrift: false,
    }
}

/// A broker with one more connection.
pub open spec fn with_receiver(b: BrokerView, key: KeyView, generation: u64, r: ResumeView) -> BrokerView {
    BrokerView {
        links: b.links.push(fresh_link(key, generation, b.next_receiver, r)),
        next_receiver: next_generation(b.next_receiver),
        ..b
    }
}

/// The connection established. Its frames are queued before anyone else can reach it.
#[verifier::opaque]
pub open spec fn linked(
    b: BrokerView,
    limits: Limits,
    now: i64,
    i: int,
    generation: u64,
    profile: Profile,
) -> (BrokerView, Option<Error>) {
    let s = reconnected(
        b.sessions[i],
        generation,
        now,
        profile.session_expiry_interval,
        profile.receive_maximum,
    );
    let key = s.key;
    match resume(b, limits, s) {
        (r, Some(error)) => {
            let b1 = put_session(
                b,
                limits,
                i,
                SessionView { active_generation: None, ..r.session },
            );
            let b2 = if profile.clean_session {
                remove_session(b1, limits, key)
            } else {
                b1
            };
            match drive(b2, limits, now) {
                (next, Some(other)) => (next, Some(other)),
                (next, None) => (next, Some(error)),
            }
        },
        (r, None) => {
            let b1 = put_session(
                with_receiver(b, key, generation, r),
                limits,
                i,
                r.session,
            );
            match drive(b1, limits, now) {
                (next, Some(other)) => (next, Some(other)),
                (next, None) => (mark(next, key), None),
            }
        },
    }
}

/// A session opened or taken up for a connection.
#[verifier::opaque]
pub open spec fn attach_spec(
    b: BrokerView,
    limits: Limits,
    now: i64,
    key: KeyView,
    profile: Profile,
    auth: AuthView,
) -> (BrokerView, Result<AttachmentView, Error>) {
    let b1 = cleared(b, limits, now, key, profile, auth);
    let present = !profile.clean_session && session_at(b1, key) is Some;
    match opened(b1, limits, now, key, profile, auth) {
        (b2, Some(error)) => (b2, Err(error)),
        (b2, None) => {
            let b3 = retried(b2, limits, now);
            match session_at(b3, key) {
                None => (b3, Err(Error::Internal)),
                Some(i) => {
                    let incarnation = b3.sessions[i].incarnation;
                    let b4 = released(cancel_resumed(b3, key, incarnation, now), key);
                    let generation = next_generation(b4.generation);
                    let b5 = BrokerView { generation, ..b4 };
                    match session_at(b5, key) {
                        None => (b5, Err(Error::Internal)),
                        Some(i) => match linked(b5, limits, now, i, generation, profile) {
                            (next, Some(error)) => (next, Err(error)),
                            (next, None) => (
                                next,
                                Ok(
                                    AttachmentView {
                                        key,
                                        generation,
                                        session_incarnation: incarnation,
                                        session_present: present,
                                        clean_session: profile.clean_session,
                                        attached: true,
                                        receiver: b5.next_receiver,
                                    },
                                ),
                            ),
                        },
                    }
                },
            }
        },
    }
}

/// A connection that leaves its session. One that was replaced changes nothing.
#[verifier::opaque]
pub open spec fn detach_spec(
    b: BrokerView,
    limits: Limits,
    now: i64,
    key: KeyView,
    generation: u64,
    clean_session: bool,
) -> (BrokerView, Option<Error>) {
    if !owns(b, key, generation) {
        (b, None)
    } else {
        let j = active_at(b, key)->0;
        let b1 = unmark(with_link(b, j, LinkView { active: false, ..b.links[j] }), key);
        let b2 = match session_at(b1, key) {
            None => reindexed(b1, limits, key),
            Some(i) => {
                let s = b1.sessions[i];
                let given_up = if s.version == MqttVersion::V5 {
                    s.session_expiry_interval == 0
                } else {
                    clean_session
                };
                if given_up {
                    remove_session(b1, limits, key)
                } else {
                    put_session(b1, limits, i, disconnected(s, now))
                }
            },
        };
        drive(b2, limits, now)
    }
}

/// The digits of a number.
pub open spec fn decimal(n: nat) -> Seq<char>
    decreases n,
{
    let digit = digit_char((n % 10) as u8);
    if n < 10 {
        seq![digit]
    } else {
        decimal(n / 10).push(digit)
    }
}

pub open spec fn digit_char(d: u8) -> char {
    if d == 0 {
        '0'
    } else if d == 1 {
        '1'
    } else if d == 2 {
        '2'
    } else if d == 3 {
        '3'
    } else if d == 4 {
        '4'
    } else if d == 5 {
        '5'
    } else if d == 6 {
        '6'
    } else if d == 7 {
        '7'
    } else if d == 8 {
        '8'
    } else {
        '9'
    }
}

pub open spec fn generated_prefix() -> Seq<char> {
    seq!['g', 'e', 'n', 'e', 'r', 'a', 't', 'e', 'd', '-']
}

pub open spec fn generated_id(n: u64) -> Seq<char> {
    generated_prefix() + decimal(n as nat)
}

pub open spec fn offset_generation(generation: u64, offset: u64) -> u64 {
    if generation + offset > u64::MAX {
        (generation + offset - u64::MAX - 1) as u64
    } else {
        (generation + offset) as u64
    }
}

/// No session of anyone has this client identifier.
pub open spec fn client_unused(b: BrokerView, client_id: Seq<char>) -> bool {
    forall|i: int| 0 <= i < b.sessions.len() ==> (#[trigger] b.sessions[i]).key.client_id
        != client_id
}

/// The client identifier that the broker gives out, tried from an offset on.
pub open spec fn generated_from(b: BrokerView, limits: Limits, offset: u64) -> Option<Seq<char>>
    decreases 1025 - offset,
{
    if offset > 1024 {
        None
    } else {
        let candidate = generated_id(offset_generation(b.generation, offset));
        if text_bytes(candidate) <= limits.max_client_id_bytes && client_unused(b, candidate) {
            Some(candidate)
        } else {
            generated_from(b, limits, (offset + 1) as u64)
        }
    }
}

pub open spec fn attach_result(result: Result<Attachment, Error>) -> Result<AttachmentView, Error> {
    match result {
        Ok(attachment) => Ok(attachment@),
        Err(error) => Err(error),
    }
}

fn advance_generation(generation: u64) -> (next: u64)
    ensures
        next == next_generation(generation),
{
    if generation == u64::MAX {
        1
    } else {
        generation + 1
    }
}

fn digit_of(d: u8) -> (digit: char)
    ensures
        digit == digit_char(d),
{
    if d == 0 {
        '0'
    } else if d == 1 {
        '1'
    } else if d == 2 {
        '2'
    } else if d == 3 {
        '3'
    } else if d == 4 {
        '4'
    } else if d == 5 {
        '5'
    } else if d == 6 {
        '6'
    } else if d == 7 {
        '7'
    } else if d == 8 {
        '8'
    } else {
        '9'
    }
}

fn decimal_chars(n: u64) -> (digits: Vec<char>)
    ensures
        digits@ == decimal(n as nat),
    decreases n,
{
    let digit = digit_of((n % 10) as u8);
    if n < 10 {
        let digits: Vec<char> = vec![digit];
        assert(digits@ =~= decimal(n as nat));
        digits
    } else {
        let mut digits = decimal_chars(n / 10);
        digits.push(digit);
        digits
    }
}

pub(crate) fn generated_client_id(n: u64) -> (client_id: String)
    ensures
        client_id@ == generated_id(n),
{
    let mut client_id = String::new();
    let prefix: Vec<char> = vec!['g', 'e', 'n', 'e', 'r', 'a', 't', 'e', 'd', '-'];
    let digits = decimal_chars(n);
    assert(prefix@ =~= generated_prefix());
    assert(client_id@ =~= prefix@.take(0));
    let mut at: usize = 0;
    while at < prefix.len()
        invariant
            at <= prefix.len(),
            client_id@ == prefix@.take(at as int),
        decreases prefix.len() - at,
    {
        crate::topics::push_char(&mut client_id, prefix[at]);
        assert(prefix@.take(at as int + 1) =~= prefix@.take(at as int).push(prefix@[at as int]));
        at = at + 1;
    }
    assert(prefix@.take(prefix@.len() as int) =~= prefix@);
    assert(prefix@ + digits@.take(0) =~= prefix@);
    at = 0;
    while at < digits.len()
        invariant
            at <= digits.len(),
            client_id@ == prefix@ + digits@.take(at as int),
        decreases digits.len() - at,
    {
        crate::topics::push_char(&mut client_id, digits[at]);
        assert(prefix@ + digits@.take(at as int + 1) =~= (prefix@ + digits@.take(at as int)).push(
            digits@[at as int],
        ));
        at = at + 1;
    }
    assert(digits@.take(digits@.len() as int) =~= digits@);
    client_id
}

/// The frames of a session that is taken up.
struct Resumed {
    session: StoredSession,
    frames: Vec<BrokerFrame>,
    used: usize,
}

impl Resumed {
    spec fn model(self) -> ResumeView {
        ResumeView {
            session: self.session@,
            frames: frame_views(self.frames@),
            used: self.used as nat,
        }
    }
}

impl MqttBroker {
    /// Hands one unfinished exchange again.
    fn resend_frame(&self, resumed: Resumed, k: usize) -> (result: (Resumed, bool))
        requires
            resumed.session.wf(),
            k < resumed.session.outbound@.len(),
        ensures
            result.0.session.wf(),
            result.0.session@.key == resumed.session@.key,
            result.0.session.outbound@.len() == resumed.session.outbound@.len(),
            resend_one(self@, self.limits, resumed.model(), k as int) == (
                result.0.model(),
                result.1,
            ),
    {
        proof {
            reveal(resend_one);
        }
        let mut r = resumed;
        let ghost before = r.model();
        let packet_id = r.session.outbound[k].packet_id;
        assert(before.session.outbound[k as int] == r.session.outbound@[k as int]@);
        if r.session.outbound[k].state.stage() == OutboundStage::Pubcomp {
            r.session.hand_over(k, false);
            r.frames.push(BrokerFrame::Pubrel { packet_id, dup: true });
            proof {
                assert(r.model().frames =~= before.frames.push(
                    FrameView::Pubrel { packet_id, dup: true },
                ));
                assert(r.session@.outbound.len() == before.session.outbound.len());
            }
            return (r, true);
        }
        if !r.session.has_send_quota() {
            return (r, true);
        }
        let message = r.session.outbound[k].state.message().clone();
        let command = r.session.outbound[k].command;
        let charge: usize = message.bytes();
        if !self.outbound_fits(
            &r.session.key.device.tenant_id,
            r.used as u128,
            r.used as u128,
            r.used as u128,
            charge,
        ) {
            return (r, false);
        }
        r.used = r.used + charge;
        r.session.hand_over(k, true);
        let ghost model = message@;
        r.frames.push(BrokerFrame::publish(message, Some(packet_id), true, command));
        proof {
            assert(r.model().frames =~= before.frames.push(
                FrameView::Publish {
                    message: model,
                    packet_id: Some(packet_id),
                    dup: true,
                    command,
                },
            ));
            assert(r.session@.outbound.len() == before.session.outbound.len());
        }
        (r, true)
    }

    /// Hands unfinished exchanges again, from one on.
    fn resend_frames(&self, resumed: Resumed, k: usize) -> (result: Resumed)
        requires
            resumed.session.wf(),
            k <= resumed.session.outbound@.len(),
        ensures
            result.session.wf(),
            result.session@.key == resumed.session@.key,
            result.model() == resend(
                self@,
                self.limits,
                resumed.model(),
                k as int,
                (resumed.session.outbound@.len() - k) as nat,
            ),
        decreases resumed.session.outbound@.len() - k,
    {
        assert(resumed.model().frames.len() == resumed.frames@.len());
        if k == resumed.session.outbound.len() || resumed.frames.len()
            >= self.limits.max_outbound_messages_per_connection {
            return resumed;
        }
        let (next, more) = self.resend_frame(resumed, k);
        if !more {
            return next;
        }
        self.resend_frames(next, k + 1)
    }

    /// Makes waiting messages exchanges while there is room.
    fn resume_waiting_frames(&self, resumed: Resumed, room1: u128, room2: u128) -> (result: (
        Resumed,
        Option<Error>,
    ))
        requires
            resumed.session.wf(),
        ensures
            result.0.session.wf(),
            result.0.session@.key == resumed.session@.key,
            resume_waiting(
                self@,
                self.limits,
                resumed.model(),
                room1 as nat,
                room2 as nat,
            ) == (result.0.model(), result.1),
    {
        let ghost goal = resume_waiting(
            self@,
            self.limits,
            resumed.model(),
            room1 as nat,
            room2 as nat,
        );
        let ghost key = resumed.session@.key;
        let mut r = resumed;
        let mut left1: u128 = room1;
        let mut left2: u128 = room2;
        while r.frames.len() < self.limits.max_outbound_messages_per_connection
            invariant
                r.session.wf(),
                r.session@.key == key,
                key == resumed.session@.key,
                goal == resume_waiting(
                    self@,
                    self.limits,
                    resumed.model(),
                    room1 as nat,
                    room2 as nat,
                ),
                goal == resume_waiting(
                    self@,
                    self.limits,
                    r.model(),
                    left1 as nat,
                    left2 as nat,
                ),
            decreases r.session.offline@.len(),
        {
            let ghost before = r.model();
            proof {
                lemma_next_free(r.session@);
            }
            if !r.session.has_send_quota() || r.session.offline.len() == 0 {
                return (r, None);
            }
            assert(before.session.offline[0] == r.session.offline@[0]@);
            let qos = r.session.offline[0].qos;
            let charge: usize = r.session.offline[0].bytes();
            let room: u128 = if qos == 1 {
                left1
            } else {
                left2
            };
            if !self.outbound_fits(
                &r.session.key.device.tenant_id,
                r.used as u128,
                r.used as u128,
                r.used as u128,
                charge,
            ) || !r.session.has_outbound_capacity(qos, &self.limits) || room == 0 {
                return (r, None);
            }
            let id: u16 = match r.session.projected_packet_id() {
                Ok(id) => id,
                Err(error) => return (r, Some(error)),
            };
            let message = r.session.promote_first(id);
            let ghost model = message@;
            r.used = r.used + charge;
            r.frames.push(BrokerFrame::publish(message, Some(id), false, false));
            proof {
                assert(r.model().frames =~= before.frames.push(
                    FrameView::Publish {
                        message: model,
                        packet_id: Some(id),
                        dup: false,
                        command: false,
                    },
                ));
                assert(r.session.offline@.len() == before.session.offline.len() - 1);
            }
            if qos == 1 {
                left1 = left1 - 1;
            } else {
                left2 = left2 - 1;
            }
        }
        (r, None)
    }

    /// What a session gets that is taken up.
    fn resume_frames(&self, session: StoredSession) -> (result: (Resumed, Option<Error>))
        requires
            self.wf(),
            session.wf(),
        ensures
            result.0.session.wf(),
            result.0.session@.key == session@.key,
            resume(self@, self.limits, session@) == (result.0.model(), result.1),
    {
        proof {
            reveal(resume);
        }
        let tenant = &session.key.device.tenant_id;
        let limit1: u128 = self.limits.max_inflight_qos1_per_tenant as u128;
        let limit2: u128 = self.limits.max_inflight_qos2_per_tenant as u128;
        let used1: u128 = self.tenant_inflight(tenant, 1);
        let used2: u128 = self.tenant_inflight(tenant, 2);
        let room1: u128 = if limit1 >= used1 {
            limit1 - used1
        } else {
            0
        };
        let room2: u128 = if limit2 >= used2 {
            limit2 - used2
        } else {
            0
        };
        let start = Resumed { session, frames: Vec::new(), used: 0 };
        assert(start.model().frames =~= Seq::<FrameView>::empty());
        let resent = self.resend_frames(start, 0);
        self.resume_waiting_frames(resent, room1, room2)
    }

    /// Puts a session back at its place.
    pub fn store_session(&mut self, i: usize, session: StoredSession)
        requires
            old(self).wf(),
            i < old(self)@.sessions.len(),
            session.wf(),
            session@.key == old(self)@.sessions[i as int].key,
        ensures
            final(self).wf(),
            final(self).limits == old(self).limits,
            final(self)@ == put_session(old(self)@, old(self).limits, i as int, session@),
    {
        let ghost before = *self;
        self.sessions.set(i, session);
        self.sync_session_usage(i, Ghost(before));
    }

    fn push_link(&mut self, link: Link)
        requires
            old(self).wf(),
        ensures
            final(self).wf(),
            final(self).limits == old(self).limits,
            final(self)@ == (BrokerView {
                links: old(self)@.links.push(link@),
                next_receiver: next_generation(old(self)@.next_receiver),
                ..old(self)@
            }),
    {
        let ghost before = self@;
        let ghost model = link@;
        self.links.push(link);
        self.next_receiver = advance_generation(self.next_receiver);
        assert(self@.links =~= before.links.push(model));
        assert(self@ =~= (BrokerView {
            links: before.links.push(model),
            next_receiver: next_generation(before.next_receiver),
            ..before
        }));
    }

    /// Establishes the connection.
    fn link_session(&mut self, i: usize, generation: u64, profile: Profile, now: i64) -> (result:
        Result<(), Error>)
        requires
            old(self).wf(),
            i < old(self)@.sessions.len(),
        ensures
            final(self).wf(),
            final(self).limits == old(self).limits,
            linked(old(self)@, old(self).limits, now, i as int, generation, profile) == (
                final(self)@,
                failure(result),
            ),
    {
        proof {
            reveal(linked);
            lemma_session_ok(self.sessions@, i as int);
        }
        let mut session = self.sessions[i].clone();
        session.reconnect(
            generation,
            now,
            profile.session_expiry_interval,
            profile.receive_maximum,
        );
        let key = session.key.clone();
        let (resumed, failed) = self.resume_frames(session);
        let ghost r = resumed.model();
        if let Some(error) = failed {
            let mut left = resumed.session;
            left.active_generation = None;
            assert(left@ =~= (SessionView { active_generation: None, ..r.session }));
            self.store_session(i, left);
            if profile.clean_session {
                self.remove_session(&key);
            }
            if let Err(other) = self.drive_capacity_wakes(now) {
                return Err(other);
            }
            return Err(error);
        }
        let link = Link {
            key: key.clone(),
            generation,
            queue: resumed.frames,
            open: true,
            active: true,
            cancelled: false,
            used: resumed.used,
            receiver: self.next_receiver,
            adrift: false,
        };
        assert(link@ == fresh_link(key@, generation, self.next_receiver, r));
        self.push_link(link);
        self.store_session(i, resumed.session);
        if let Err(other) = self.drive_capacity_wakes(now) {
            return Err(other);
        }
        self.mark_pending(&key);
        Ok(())
    }

    fn clear_session(
        &mut self,
        key: &SessionKey,
        profile: Profile,
        authorization: &SessionAuthorization,
        now: i64,
    )
        requires
            old(self).wf(),
        ensures
            final(self).wf(),
            final(self).limits == old(self).limits,
            final(self)@ == cleared(
                old(self)@,
                old(self).limits,
                now,
                key@,
                profile,
                authorization@,
            ),
    {
        proof {
            reveal(cleared);
        }
        if self.session_expired(key, now) {
            self.remove_session(key);
        }
        self.prune_when_due(key, now);
        if profile.clean_session {
            self.release_clean_start_delays(key);
            self.retry_pending_wills(now);
            self.remove_session(key);
        } else if let Some(i) = self.find_session(key) {
            let same = match &self.sessions[i].authorization {
                Some(held) => held.same(authorization),
                None => false,
            };
            assert(same == (self@.sessions[i as int].authorization == Some(authorization@)));
            if self.sessions[i].version != profile.version || !same {
                self.remove_session(key);
            }
        }
    }

    /// Whether one more session may be opened.
    fn check_new_session(&self, key: &SessionKey, bytes: usize) -> (allowed: bool)
        requires
            self.wf(),
            bytes == base_charge(key@),
        ensures
            allowed == new_session_allowed(self@, self.limits, key@),
    {
        let tenant = &key.device.tenant_id;
        self.sessions.len() < self.limits.max_persistent_sessions && self.tenant_totals(
            tenant,
        ).sessions < self.limits.max_persistent_sessions_per_tenant as u128 && cap_sum(
            self.total_state_bytes(Some(tenant)),
            bytes as u128,
        ) <= self.limits.max_mqtt_session_state_bytes_per_tenant as u128 && cap_sum(
            self.total_state_bytes(None),
            bytes as u128,
        ) <= self.limits.global_mqtt_session_bytes as u128
    }

    fn open_session(
        &mut self,
        key: &SessionKey,
        profile: Profile,
        authorization: &SessionAuthorization,
        now: i64,
    ) -> (result: Result<(), Error>)
        requires
            old(self).wf(),
        ensures
            final(self).wf(),
            final(self).limits == old(self).limits,
            opened(old(self)@, old(self).limits, now, key@, profile, authorization@) == (
                final(self)@,
                failure(result),
            ),
    {
        proof {
            reveal(opened);
        }
        if self.find_session(key).is_some() {
            return Ok(());
        }
        let ghost before = self@;
        self.generation = advance_generation(self.generation);
        assert(self@ =~= (BrokerView {
            generation: next_generation(before.generation),
            ..before
        }));
        let base: usize = match StoredSession::base_bytes(key) {
            Some(base) => base,
            None => return Err(Error::Overloaded),
        };
        if !self.check_new_session(key, base) {
            return Err(Error::Overloaded);
        }
        let mut session = StoredSession::new(
            key.clone(),
            self.generation,
            authorization.clone(),
            now,
            base,
        );
        session.version = profile.version;
        session.session_expiry_interval = profile.session_expiry_interval;
        assert(session@ =~= (SessionView {
            version: profile.version,
            session_expiry_interval: profile.session_expiry_interval,
            ..new_session(key@, self.generation, authorization@, now)
        }));
        assert(session_at(self@, key@) is None);
        self.append_session(session);
        Ok(())
    }

    /// Looks after what is overdue before a connection is served.
    pub fn maintain(&mut self, now: i64)
        requires
            old(self).wf(),
        ensures
            final(self).wf(),
            final(self).limits == old(self).limits,
            final(self)@ == maintained(old(self)@, old(self).limits, now),
    {
        self.prune_expired_sessions(now, HOT_MAINTENANCE_BUDGET);
        self.prune_expired_messages(now, HOT_MAINTENANCE_BUDGET);
    }

    /// Opens or takes up a session for a connection.
    pub fn attach_profile(
        &mut self,
        auth: &AuthenticatedDevice,
        client_id: String,
        profile: Profile,
        now: i64,
    ) -> (result: Result<Attachment, Error>)
        requires
            old(self).wf(),
        ensures
            final(self).wf(),
            final(self).limits == old(self).limits,
            attach_spec(
                old(self)@,
                old(self).limits,
                now,
                KeyView { device: auth.device_key@, client_id: client_id@ },
                profile,
                auth_of(*auth),
            ) == (final(self)@, attach_result(result)),
    {
        proof {
            reveal(attach_spec);
        }
        let key = SessionKey { device: auth.device_key.clone(), client_id };
        let authorization = SessionAuthorization::of(auth);
        self.clear_session(&key, profile, &authorization, now);
        let session_present = !profile.clean_session && self.find_session(&key).is_some();
        if let Err(error) = self.open_session(&key, profile, &authorization, now) {
            return Err(error);
        }
        self.retry_pending_wills(now);
        let session_incarnation = match self.find_session(&key) {
            Some(i) => self.sessions[i].incarnation,
            None => return Err(Error::Internal),
        };
        self.cancel_resumed_wills(&key, session_incarnation, now);
        self.release_link(&key);
        let ghost before = self@;
        let generation = advance_generation(self.generation);
        self.generation = generation;
        assert(self@ =~= (BrokerView { generation, ..before }));
        let i = match self.find_session(&key) {
            Some(i) => i,
            None => return Err(Error::Internal),
        };
        let receiver = self.next_receiver;
        if let Err(error) = self.link_session(i, generation, profile, now) {
            return Err(error);
        }
        Ok(
            Attachment {
                key,
                generation,
                session_incarnation,
                session_present,
                clean_session: profile.clean_session,
                attached: true,
                receiver,
            },
        )
    }

    /// Opens or takes up a session of MQTT 3.1.1.
    pub fn attach(
        &mut self,
        auth: &AuthenticatedDevice,
        client_id: String,
        clean_session: bool,
        now: i64,
    ) -> (result: Result<Attachment, Error>)
        requires
            old(self).wf(),
        ensures
            final(self).wf(),
            final(self).limits == old(self).limits,
            attach_spec(
                maintained(old(self)@, old(self).limits, now),
                old(self).limits,
                now,
                KeyView { device: auth.device_key@, client_id: client_id@ },
                Profile {
                    clean_session,
                    version: MqttVersion::V311,
                    session_expiry_interval: 0,
                    receive_maximum: u16::MAX,
                },
                auth_of(*auth),
            ) == (final(self)@, attach_result(result)),
    {
        self.maintain(now);
        self.attach_profile(
            auth,
            client_id,
            Profile {
                clean_session,
                version: MqttVersion::V311,
                session_expiry_interval: 0,
                receive_maximum: u16::MAX,
            },
            now,
        )
    }

    /// Opens or takes up a session of MQTT 5.
    pub fn attach_v5(
        &mut self,
        auth: &AuthenticatedDevice,
        client_id: String,
        clean_start: bool,
        session_expiry_interval: u32,
        receive_maximum: u16,
        now: i64,
    ) -> (result: Result<Attachment, Error>)
        requires
            old(self).wf(),
        ensures
            final(self).wf(),
            final(self).limits == old(self).limits,
            receive_maximum == 0 ==> result is Err && result->Err_0 == Error::Invalid
                && final(self)@ == old(self)@,
            receive_maximum != 0 ==> attach_spec(
                maintained(old(self)@, old(self).limits, now),
                old(self).limits,
                now,
                KeyView { device: auth.device_key@, client_id: client_id@ },
                Profile {
                    clean_session: clean_start,
                    version: MqttVersion::V5,
                    session_expiry_interval,
                    receive_maximum,
                },
                auth_of(*auth),
            ) == (final(self)@, attach_result(result)),
    {
        if receive_maximum == 0 {
            return Err(Error::Invalid);
        }
        self.maintain(now);
        self.attach_profile(
            auth,
            client_id,
            Profile {
                clean_session: clean_start,
                version: MqttVersion::V5,
                session_expiry_interval,
                receive_maximum,
            },
            now,
        )
    }

    fn client_id_unused(&self, client_id: &str) -> (unused: bool)
        ensures
            unused == client_unused(self@, client_id@),
    {
        let mut at: usize = 0;
        while at < self.sessions.len()
            invariant
                at <= self.sessions.len(),
                forall|i: int| 0 <= i < at ==> (#[trigger] self@.sessions[i]).key.client_id
                    != client_id@,
            decreases self.sessions.len() - at,
        {
            if same_text(self.sessions[at].key.client_id.as_str(), client_id) {
                assert(self@.sessions[at as int].key.client_id == client_id@);
                return false;
            }
            at = at + 1;
        }
        true
    }

    /// A client identifier that no session uses.
    pub fn generate_client_id(&self) -> (result: Result<String, Error>)
        ensures
            match generated_from(self@, self.limits, 1) {
                Some(client_id) => result is Ok && result->Ok_0@ == client_id,
                None => result is Err && result->Err_0 == Error::Overloaded,
            },
    {
        let ghost goal = generated_from(self@, self.limits, 1);
        let mut offset: u64 = 1;
        while offset <= 1024
            invariant
                1 <= offset <= 1025,
                goal == generated_from(self@, self.limits, 1),
                goal == generated_from(self@, self.limits, offset),
            decreases 1025 - offset,
        {
            let n: u64 = if self.generation > u64::MAX - offset {
                offset - (u64::MAX - self.generation) - 1
            } else {
                self.generation + offset
            };
            assert(n == offset_generation(self.generation, offset));
            let candidate = generated_client_id(n);
            if byte_len(candidate.as_str()) <= self.limits.max_client_id_bytes
                && self.client_id_unused(candidate.as_str()) {
                return Ok(candidate);
            }
            offset = offset + 1;
        }
        Err(Error::Overloaded)
    }

    /// Opens a session of MQTT 3.1.1 under an identifier of the broker's choice.
    pub fn attach_generated(&mut self, auth: &AuthenticatedDevice, now: i64) -> (result: Result<
        Attachment,
        Error,
    >)
        requires
            old(self).wf(),
        ensures
            final(self).wf(),
            final(self).limits == old(self).limits,
            ({
                let b = maintained(old(self)@, old(self).limits, now);
                match generated_from(b, old(self).limits, 1) {
                    Some(client_id) => attach_spec(
                        b,
                        old(self).limits,
                        now,
                        KeyView { device: auth.device_key@, client_id },
                        Profile {
                            clean_session: true,
                            version: MqttVersion::V311,
                            session_expiry_interval: 0,
                            receive_maximum: u16::MAX,
                        },
                        auth_of(*auth),
                    ) == (final(self)@, attach_result(result)),
                    None => result is Err && result->Err_0 == Error::Overloaded && final(self)@
                        == b,
                }
            }),
    {
        self.maintain(now);
        let client_id = match self.generate_client_id() {
            Ok(client_id) => client_id,
            Err(error) => return Err(error),
        };
        self.attach_profile(
            auth,
            client_id,
            Profile {
                clean_session: true,
                version: MqttVersion::V311,
                session_expiry_interval: 0,
                receive_maximum: u16::MAX,
            },
            now,
        )
    }

    /// Opens a session of MQTT 5 under an identifier of the broker's choice, if the caller can
    /// answer with that identifier.
    pub fn attach_generated_v5<F: Fn(&str) -> Result<(), Error>>(
        &mut self,
        auth: &AuthenticatedDevice,
        session_expiry_interval: u32,
        receive_maximum: u16,
        preflight: F,
        now: i64,
    ) -> (result: Result<Attachment, Error>)
        requires
            old(self).wf(),
            forall|client_id: &str| call_requires(preflight, (client_id,)),
        ensures
            final(self).wf(),
            final(self).limits == old(self).limits,
            receive_maximum == 0 ==> result is Err && result->Err_0 == Error::Invalid
                && final(self)@ == old(self)@,
            receive_maximum != 0 ==> ({
                let b = maintained(old(self)@, old(self).limits, now);
                match generated_from(b, old(self).limits, 1) {
                    Some(client_id) => exists|name: &str, verdict: Result<(), Error>|
                        name@ == client_id && #[trigger] call_ensures(preflight, (name,), verdict)
                            && match verdict {
                            Err(error) => result is Err && result->Err_0 == error && final(self)@
                                == b,
                            Ok(_) => attach_spec(
                                b,
                                old(self).limits,
                                now,
                                KeyView { device: auth.device_key@, client_id },
                                Profile {
                                    clean_session: true,
                                    version: MqttVersion::V5,
                                    session_expiry_interval,
                                    receive_maximum,
                                },
                                auth_of(*auth),
                            ) == (final(self)@, attach_result(result)),
                        },
                    None => result is Err && result->Err_0 == Error::Overloaded && final(self)@
                        == b,
                }
            }),
    {
        if receive_maximum == 0 {
            return Err(Error::Invalid);
        }
        self.maintain(now);
        let client_id = match self.generate_client_id() {
            Ok(client_id) => client_id,
            Err(error) => return Err(error),
        };
        let verdict = preflight(client_id.as_str());
        if let Err(error) = verdict {
            return Err(error);
        }
        self.attach_profile(
            auth,
            client_id,
            Profile {
                clean_session: true,
                version: MqttVersion::V5,
                session_expiry_interval,
                receive_maximum,
            },
            now,
        )
    }

    /// Leaves a session. A connection that was replaced changes nothing.
    pub fn detach(&mut self, key: &SessionKey, generation: u64, clean_session: bool, now: i64) -> (result:
        Result<(), Error>)
        requires
            old(self).wf(),
        ensures
            final(self).wf(),
            final(self).limits == old(self).limits,
            detach_spec(old(self)@, old(self).limits, now, key@, generation, clean_session) == (
                final(self)@,
                failure(result),
            ),
    {
        proof {
            reveal(detach_spec);
        }
        let j = match self.find_active(key) {
            Some(j) => j,
            None => return Ok(()),
        };
        if self.links[j].generation != generation {
            return Ok(());
        }
        let ghost before = self@;
        self.links[j].active = false;
        proof {
            let l = LinkView { active: false, ..before.links[j as int] };
            assert(self@.links =~= before.links.update(j as int, l));
            assert(self@ =~= with_link(before, j as int, l));
        }
        self.unmark_pending(key);
        match self.find_session(key) {
            None => self.reindex(key),
            Some(i) => {
                let given_up = if self.sessions[i].version == MqttVersion::V5 {
                    self.sessions[i].session_expiry_interval == 0
                } else {
                    clean_session
                };
                if given_up {
                    self.remove_session(key);
                } else {
                    let ghost middle = *self;
                    proof {
                        lemma_session_ok(self.sessions@, i as int);
                    }
                    self.sessions[i].disconnect(now);
                    self.sync_session_usage(i, Ghost(middle));
                }
            },
        }
        self.drive_capacity_wakes(now)
    }

    /// Changes how long the session of MQTT 5 outlives its connection. One that was to end with
    /// its connection cannot be prolonged.
    pub fn set_v5_disconnect_expiry(&mut self, key: &SessionKey, generation: u64, interval: u32) -> (result:
        Result<(), Error>)
        requires
            old(self).wf(),
        ensures
            final(self).wf(),
            final(self).limits == old(self).limits,
            expiry_change(old(self)@, key@, generation, interval) == (final(self)@, result),
    {
        if !self.check_owner(key, generation) {
            return Err(Error::Conflict);
        }
        let i = match self.find_session(key) {
            Some(i) => i,
            None => return Err(Error::Internal),
        };
        if self.sessions[i].version != MqttVersion::V5 || (self.sessions[i].session_expiry_interval
            == 0 && interval != 0) {
            return Err(Error::Invalid);
        }
        let ghost before = *self;
        proof {
            lemma_session_ok(self.sessions@, i as int);
        }
        self.sessions[i].session_expiry_interval = interval;
        proof {
            let s = before@.sessions[i as int];
            assert(self.sessions@[i as int]@ =~= (SessionView {
                session_expiry_interval: interval,
                ..s
            }));
            self.lemma_touched(i as int, before);
        }
        Ok(())
    }
}

pub open spec fn expiry_change(b: BrokerView, key: KeyView, generation: u64, interval: u32) -> (
    BrokerView,
    Result<(), Error>,
) {
    if !owns(b, key, generation) {
        (b, Err(Error::Conflict))
    } else {
        match session_at(b, key) {
            None => (b, Err(Error::Internal)),
            Some(i) => {
                let s = b.sessions[i];
                if s.version != MqttVersion::V5 || (s.session_expiry_interval == 0 && interval
                    != 0) {
                    (b, Err(Error::Invalid))
                } else {
                    (
                        touch_session(
                            b,
                            i,
                            SessionView { session_expiry_interval: interval, ..s },
                        ),
                        Ok(()),
                    )
                }
            },
        }
    }
}

/// The number that a text of digits stands for.
pub open spec fn number_in(digits: Seq<char>) -> nat
    decreases digits.len(),
{
    if digits.len() == 0 {
        0
    } else {
        number_in(digits.drop_last()) * 10 + (digits.last() as nat - '0' as nat) as nat
    }
}

/// A number is written in the usual way: in digits that stand for it, and without a needless zero.
pub proof fn law_number_is_written_in_digits(n: nat)
    ensures
        number_in(decimal(n)) == n,
        decimal(n).len() > 0,
        n > 0 ==> decimal(n)[0] != '0',
        forall|i: int| 0 <= i < decimal(n).len() ==> '0' <= #[trigger] decimal(n)[i] <= '9',
    decreases n,
{
    let d = digit_char((n % 10) as u8);
    assert('0' <= d <= '9' && d as nat - '0' as nat == n % 10);
    if n < 10 {
        assert(decimal(n) =~= seq![d]);
        assert(decimal(n).drop_last() =~= Seq::empty());
        assert(number_in(Seq::<char>::empty()) == 0);
        assert(n > 0 ==> d != '0');
    } else {
        law_number_is_written_in_digits(n / 10);
        assert(decimal(n).drop_last() =~= decimal(n / 10));
        assert(decimal(n)[0] == decimal(n / 10)[0]);
        assert forall|i: int| 0 <= i < decimal(n).len() implies '0' <= #[trigger] decimal(n)[i]
            <= '9' by {
            if i < decimal(n / 10).len() {
                assert(decimal(n)[i] == decimal(n / 10)[i]);
            }
        }
    }
}

/// Clients without a name are given different names for different numbers.
pub proof fn law_given_names_differ(a: u64, b: u64)
    ensures
        generated_id(a) == generated_id(b) ==> a == b,
{
    let n = generated_prefix().len() as int;
    law_number_is_written_in_digits(a as nat);
    law_number_is_written_in_digits(b as nat);
    if generated_id(a) == generated_id(b) {
        assert(generated_id(a).skip(n) =~= decimal(a as nat));
        assert(generated_id(b).skip(n) =~= decimal(b as nat));
    }
}

} // verus!
