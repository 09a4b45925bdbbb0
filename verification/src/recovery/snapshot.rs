//! What a recovery image holds.
use crate::broker::model::{RetainedView, WillView};
use crate::broker::state::{will_views, PendingWill, RetainedMessage};
use crate::session::{
    no_reservation, AuthView, InboundStage, InboundView, OutboundView, SessionView, StoredSession,
};
use vstd::prelude::*;

verus! {

/// Formats of the recovery image. The first one is not made of records.
pub const RECOVERY_VERSION_V1: u32 = 1;

pub const RECOVERY_VERSION_V2: u32 = 2;

pub const RECOVERY_VERSION_V3: u32 = 3;

pub const RECOVERY_VERSION_V4: u32 = 4;

pub const RECOVERY_VERSION_V5: u32 = 5;

/// The format that is written.
pub const RECOVERY_VERSION: u32 = 6;

/// Everything of a broker that survives a restart.
#[derive(Debug, PartialEq, Eq)]
pub struct MqttRecoverySnapshot {
    pub format_version: u32,
    pub snapshot_generation: u64,
    pub sessions: Vec<StoredSession>,
    pub retained: Vec<(String, RetainedMessage)>,
    pub pending_wills: Vec<PendingWill>,
}

/// A recorded session with the byte count that was recorded for its waiting messages.
#[verifier::ext_equal]
pub struct RecordedView {
    pub session: SessionView,
    pub offline_bytes: nat,
}

#[verifier::ext_equal]
pub struct SnapshotView {
    pub format_version: u32,
    pub generation: u64,
    pub sessions: Seq<RecordedView>,
    pub retained: Seq<(Seq<char>, RetainedView)>,
    pub wills: Seq<WillView>,
}

pub open spec fn recorded(s: StoredSession) -> RecordedView {
    RecordedView { session: s@, offline_bytes: s.offline_bytes as nat }
}

pub open spec fn recorded_views(s: Seq<StoredSession>) -> Seq<RecordedView> {
    Seq::new(s.len(), |i: int| recorded(s[i]))
}

pub open spec fn topic_views(s: Seq<(String, RetainedMessage)>) -> Seq<(Seq<char>, RetainedView)> {
    Seq::new(s.len(), |i: int| (s[i].0@, s[i].1@))
}

impl View for MqttRecoverySnapshot {
    type V = SnapshotView;

    open spec fn view(&self) -> SnapshotView {
        SnapshotView {
            format_version: self.format_version,
            generation: self.snapshot_generation,
            sessions: recorded_views(self.sessions@),
            retained: topic_views(self.retained@),
            wills: will_views(self.pending_wills@),
        }
    }
}

/// An image without anything in it.
pub open spec fn blank(format_version: u32, generation: u64) -> SnapshotView {
    SnapshotView {
        format_version,
        generation,
        sessions: Seq::empty(),
        retained: Seq::empty(),
        wills: Seq::empty(),
    }
}

/// A received message after a restart: a delivery that was under way begins anew.
pub open spec fn inbound_after(e: InboundView) -> InboundView {
    InboundView {
        packet_id: e.packet_id,
        stage: match e.stage {
            InboundStage::EventAccepted => InboundStage::EventAccepted,
            _ => InboundStage::AwaitPubrel,
        },
        message: e.message,
        operation_id: None,
        reservation: no_reservation(),
    }
}

/// A sent message after a restart: no connection has been handed it.
pub open spec fn outbound_after(e: OutboundView) -> OutboundView {
    OutboundView { command: false, sent: false, windowed: false, ..e }
}

pub open spec fn inbound_all_after(s: Seq<InboundView>) -> Seq<InboundView> {
    Seq::new(s.len(), |i: int| inbound_after(s[i]))
}

pub open spec fn outbound_all_after(s: Seq<OutboundView>) -> Seq<OutboundView> {
    Seq::new(s.len(), |i: int| outbound_after(s[i]))
}

/// An authorization is recorded with the codec it was made for, or not at all.
pub open spec fn auth_after(authorization: Option<AuthView>) -> Option<AuthView> {
    match authorization {
        Some(a) => if a.codec_id is Some && a.codec_version is Some {
            Some(a)
        } else {
            None
        },
        None => None,
    }
}

/// A session without what it holds.
pub open spec fn emptied_session(s: SessionView) -> SessionView {
    SessionView {
        authorization: auth_after(s.authorization),
        subscriptions: Seq::empty(),
        offline: Seq::empty(),
        inbound: Seq::empty(),
        outbound: Seq::empty(),
        active_generation: None,
        send_quota: u16::MAX,
        inbound_window: Set::empty(),
        ..s
    }
}

/// A session as an image gives it back.
pub open spec fn session_after(s: SessionView) -> SessionView {
    SessionView {
        subscriptions: s.subscriptions,
        offline: s.offline,
        inbound: inbound_all_after(s.inbound),
        outbound: outbound_all_after(s.outbound),
        ..emptied_session(s)
    }
}

pub open spec fn will_after(w: WillView) -> WillView {
    WillView { reservation: no_reservation(), counted: true, ..w }
}

pub open spec fn recorded_after(r: RecordedView) -> RecordedView {
    RecordedView { session: session_after(r.session), offline_bytes: r.offline_bytes }
}

pub open spec fn sessions_after(s: Seq<RecordedView>) -> Seq<RecordedView> {
    Seq::new(s.len(), |i: int| recorded_after(s[i]))
}

pub open spec fn wills_after(s: Seq<WillView>) -> Seq<WillView> {
    Seq::new(s.len(), |i: int| will_after(s[i]))
}

/// What an image gives back of what was written.
pub open spec fn recovered(snapshot: SnapshotView) -> SnapshotView {
    SnapshotView {
        format_version: RECOVERY_VERSION,
        sessions: sessions_after(snapshot.sessions),
        wills: wills_after(snapshot.wills),
        ..snapshot
    }
}

} // verus!
