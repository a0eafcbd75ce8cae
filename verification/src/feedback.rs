//! What the receiver says back, and when.
//!
//! The record is the media contract's, and so is how one is built. This module
//! owns only the receiver-side policy of what goes in one: repair requests for
//! frames still waiting, late reports for frames given up on, and a keyframe
//! request when a reference is gone, no more often than a producer can
//! usefully answer.

use crate::clock::{Duration, Instant};
use crate::keys;
use crate::keys::{compare_sessions, ChunkKey, FrameId, FrameKey, SessionId};
use crate::reassembly::{Expired, Repair};
use crate::records::GameCultMediaReceiverFeedbackRecord;
use crate::text::Comparison;
use crate::video::{ExpiredFrame, RepairRequest};
use vstd::prelude::*;

verus! {

#[derive(Clone, Copy, Debug, PartialEq, Eq, Structural)]
pub struct FeedbackOptions {
    /// A producer answers a keyframe request with an IDR, which costs it
    /// bandwidth for a whole GOP. One request per cooldown is enough to
    /// resynchronise; more just describes the same loss louder.
    pub keyframe_request_cooldown: Duration,
}

impl Default for FeedbackOptions {
    fn default() -> (options: Self)
        ensures
            options.keyframe_request_cooldown.nanos == 500 * 1_000_000,
    {
        FeedbackOptions { keyframe_request_cooldown: Duration::from_millis(500) }
    }
}

/// Counted from what was said, not what was configured. Counters wrap around.
#[derive(Clone, Copy, Debug, Default, PartialEq, Eq, Structural)]
pub struct FeedbackStats {
    /// Records handed to the transport.
    pub sent: u64,
    /// Chunk keys asked for again across all records.
    pub chunks_requested: u64,
    /// Records that carried a keyframe request.
    pub keyframes_requested: u64,
    /// Records the transport refused, usually because no producer is attached.
    pub not_sent: u64,
}

/// What one stream and session has to say.
#[derive(Clone, Debug, PartialEq, Eq)]
pub struct Report {
    pub stream_id: String,
    pub session_id: String,
    /// The chunks still wanted.
    pub missing_chunk_keys: Vec<ChunkKey>,
    /// The frames given up on.
    pub late_frame_ids: Vec<u64>,
}

/// What a [`Report`] says.
#[verifier::ext_equal]
pub struct Saying {
    pub session: SessionId,
    pub missing: Seq<ChunkKey>,
    pub late: Seq<u64>,
}

impl View for Report {
    type V = Saying;

    open spec fn view(&self) -> Saying {
        Saying {
            session: SessionId { stream_id: self.stream_id@, session_id: self.session_id@ },
            missing: self.missing_chunk_keys@,
            late: self.late_frame_ids@,
        }
    }
}

/// What the media contract is asked to make a feedback record of.
#[derive(Clone, Debug, PartialEq, Eq)]
pub struct ReceiverFeedbackOptions {
    pub stream_id: String,
    pub session_id: String,
    pub receiver_id: String,
    pub highest_decodable_frame_id: Option<u64>,
    pub missing_frame_ids: Vec<u64>,
    pub missing_video_chunk_keys: Vec<ChunkKey>,
    pub late_frame_ids: Vec<u64>,
    pub requested_keyframe: bool,
    pub jitter_us: u64,
    pub decode_queue_us: u64,
    pub observed_at: String,
}

/// What a [`ReceiverFeedbackOptions`] says.
#[verifier::ext_equal]
pub struct Draft {
    pub session: SessionId,
    pub receiver_id: Seq<char>,
    pub highest_decodable_frame_id: Option<u64>,
    pub missing_frame_ids: Seq<u64>,
    pub missing_video_chunk_keys: Seq<ChunkKey>,
    pub late_frame_ids: Seq<u64>,
    pub requested_keyframe: bool,
    pub jitter_us: u64,
    pub decode_queue_us: u64,
    pub observed_at: Seq<char>,
}

impl View for ReceiverFeedbackOptions {
    type V = Draft;

    open spec fn view(&self) -> Draft {
        Draft {
            session: SessionId { stream_id: self.stream_id@, session_id: self.session_id@ },
            receiver_id: self.receiver_id@,
            highest_decodable_frame_id: self.highest_decodable_frame_id,
            missing_frame_ids: self.missing_frame_ids@,
            missing_video_chunk_keys: self.missing_video_chunk_keys@,
            late_frame_ids: self.late_frame_ids@,
            requested_keyframe: self.requested_keyframe,
            jitter_us: self.jitter_us,
            decode_queue_us: self.decode_queue_us,
            observed_at: self.observed_at@,
        }
    }
}

/// The chunks the repairs of one session name, in the order of the repairs.
pub open spec fn asked_of(repairs: Seq<Repair>, session: SessionId) -> Seq<ChunkKey>
    decreases repairs.len(),
{
    if repairs.len() == 0 {
        Seq::empty()
    } else if repairs.last().id.session() == session {
        asked_of(repairs.drop_last(), session) + repairs.last().missing
    } else {
        asked_of(repairs.drop_last(), session)
    }
}

/// The frames of one session that were given up on, in that order.
pub open spec fn late_of(expired: Seq<Expired>, session: SessionId) -> Seq<u64>
    decreases expired.len(),
{
    if expired.len() == 0 {
        Seq::empty()
    } else if expired.last().id.session() == session {
        late_of(expired.drop_last(), session).push(expired.last().id.frame_id)
    } else {
        late_of(expired.drop_last(), session)
    }
}

/// All that one session has to say.
pub open spec fn saying(
    repairs: Seq<Repair>,
    expired: Seq<Expired>,
    session: SessionId,
) -> Saying {
    Saying {
        session,
        missing: asked_of(repairs, session),
        late: late_of(expired, session),
    }
}

/// The session has something to say.
pub open spec fn speaks(
    repairs: Seq<Repair>,
    expired: Seq<Expired>,
    session: SessionId,
) -> bool {
    ||| exists|i: int| 0 <= i < repairs.len() && (#[trigger] repairs[i]).id.session() == session
    ||| exists|i: int| 0 <= i < expired.len() && (#[trigger] expired[i]).id.session() == session
}

/// The sessions of the reports come in order, none twice.
pub open spec fn in_session_order(reports: Seq<Saying>) -> bool {
    forall|i: int, j: int|
        0 <= i < j < reports.len() ==> (#[trigger] reports[i]).session.before(
            (#[trigger] reports[j]).session,
        )
}

/// The report of the session is among the reports.
pub open spec fn reported(reports: Seq<Saying>, session: SessionId) -> bool {
    exists|i: int| 0 <= i < reports.len() && (#[trigger] reports[i]).session == session
}

/// The reports are one for each session that has something to say, in session
/// order, and each says all that its session has to say.
pub open spec fn digests(
    reports: Seq<Saying>,
    repairs: Seq<Repair>,
    expired: Seq<Expired>,
) -> bool {
    &&& in_session_order(reports)
    &&& forall|session: SessionId| #[trigger]
        reported(reports, session) <==> speaks(repairs, expired, session)
    &&& forall|i: int|
        0 <= i < reports.len() ==> #[trigger] reports[i] == saying(
            repairs,
            expired,
            reports[i].session,
        )
}

/// A composer, as a value.
#[verifier::ext_equal]
pub struct ComposerState {
    pub receiver_id: Seq<char>,
    pub options: FeedbackOptions,
    pub last_keyframe_request: Option<Instant>,
    pub stats: FeedbackStats,
}

impl ComposerState {
    /// A composer that has said nothing yet.
    pub open spec fn initial(receiver_id: Seq<char>, options: FeedbackOptions) -> ComposerState {
        ComposerState {
            receiver_id,
            options,
            last_keyframe_request: None,
            stats: FeedbackStats {
                sent: 0,
                chunks_requested: 0,
                keyframes_requested: 0,
                not_sent: 0,
            },
        }
    }

    /// No keyframe was asked for within the cooldown.
    pub open spec fn due(self, now: Instant) -> bool {
        match self.last_keyframe_request {
            Some(last) => now.since(last) >= self.options.keyframe_request_cooldown.nanos,
            None => true,
        }
    }

    /// What the media contract is asked to make a record of. A lost frame asks
    /// for a keyframe when that is due. Jitter and decode queue are zero, which
    /// means that they were not measured.
    pub open spec fn draft(
        self,
        report: Saying,
        highest_decodable_frame_id: Option<u64>,
        now: Instant,
        observed_at: Seq<char>,
    ) -> Draft {
        Draft {
            session: report.session,
            receiver_id: self.receiver_id,
            highest_decodable_frame_id,
            missing_frame_ids: Seq::empty(),
            missing_video_chunk_keys: report.missing,
            late_frame_ids: report.late,
            requested_keyframe: report.late.len() > 0 && self.due(now),
            jitter_us: 0,
            decode_queue_us: 0,
            observed_at,
        }
    }

    /// A record was made at `now`.
    pub open spec fn said(
        self,
        record: GameCultMediaReceiverFeedbackRecord,
        now: Instant,
    ) -> ComposerState {
        ComposerState {
            last_keyframe_request: if record.requested_keyframe {
                Some(now)
            } else {
                self.last_keyframe_request
            },
            stats: FeedbackStats {
                keyframes_requested: if record.requested_keyframe {
                    self.stats.keyframes_requested.wrapping_add(1)
                } else {
                    self.stats.keyframes_requested
                },
                chunks_requested: self.stats.chunks_requested.wrapping_add(
                    record.missing_video_chunk_keys@.len() as u64,
                ),
                ..self.stats
            },
            ..self
        }
    }

    /// Records were made at `now`, one after the other.
    pub open spec fn said_all(
        self,
        records: Seq<GameCultMediaReceiverFeedbackRecord>,
        now: Instant,
    ) -> ComposerState
        decreases records.len(),
    {
        if records.len() == 0 {
            self
        } else {
            self.said_all(records.drop_last(), now).said(records.last(), now)
        }
    }

    /// The transport took a record.
    pub open spec fn sent(self) -> ComposerState {
        ComposerState {
            stats: FeedbackStats { sent: self.stats.sent.wrapping_add(1), ..self.stats },
            ..self
        }
    }

    /// The transport refused a record.
    pub open spec fn not_sent(self) -> ComposerState {
        ComposerState {
            stats: FeedbackStats { not_sent: self.stats.not_sent.wrapping_add(1), ..self.stats },
            ..self
        }
    }
}

/// `build` may answer the draft so.
pub open spec fn answers<
    F: Fn(&ReceiverFeedbackOptions) -> Result<GameCultMediaReceiverFeedbackRecord, String>,
>(
    build: F,
    draft: Draft,
    answer: Result<GameCultMediaReceiverFeedbackRecord, String>,
) -> bool {
    exists|options: ReceiverFeedbackOptions|
        options@ == draft && #[trigger] call_ensures(build, (&options,), answer)
}

/// Everything a composition is about, apart from the composer.
#[verifier::ext_equal]
pub struct Occasion {
    pub reports: Seq<Saying>,
    pub highest_decodable_frame_id: Option<u64>,
    pub now: Instant,
    pub observed_at: Seq<char>,
}

/// The records are what `build` made of the first reports, in order, each
/// drafted by the composer as the records before it left it.
pub open spec fn builds<
    F: Fn(&ReceiverFeedbackOptions) -> Result<GameCultMediaReceiverFeedbackRecord, String>,
>(
    composer: ComposerState,
    occasion: Occasion,
    build: F,
    records: Seq<GameCultMediaReceiverFeedbackRecord>,
) -> bool {
    &&& records.len() <= occasion.reports.len()
    &&& forall|i: int|
        0 <= i < records.len() ==> answers(
            build,
            composer.said_all(records.take(i), occasion.now).draft(
                occasion.reports[i],
                occasion.highest_decodable_frame_id,
                occasion.now,
                occasion.observed_at,
            ),
            Ok(#[trigger] records[i]),
        )
}

/// What a composition comes to: a record for every report, or the reason
/// `build` gave for the first report it refused.
pub open spec fn composes<
    F: Fn(&ReceiverFeedbackOptions) -> Result<GameCultMediaReceiverFeedbackRecord, String>,
>(
    composer: ComposerState,
    occasion: Occasion,
    build: F,
    result: Result<Vec<GameCultMediaReceiverFeedbackRecord>, String>,
    next: ComposerState,
) -> bool {
    match result {
        Ok(records) => {
            &&& records@.len() == occasion.reports.len()
            &&& builds(composer, occasion, build, records@)
            &&& next == composer.said_all(records@, occasion.now)
        },
        Err(reason) => exists|records: Seq<GameCultMediaReceiverFeedbackRecord>|
            {
                &&& records.len() < occasion.reports.len()
                &&& #[trigger] builds(composer, occasion, build, records)
                &&& answers(
                    build,
                    composer.said_all(records, occasion.now).draft(
                        occasion.reports[records.len() as int],
                        occasion.highest_decodable_frame_id,
                        occasion.now,
                        occasion.observed_at,
                    ),
                    Err(reason),
                )
                &&& next == composer.said_all(records, occasion.now)
            },
    }
}

/// The views of repair requests.
pub open spec fn repairs_of(repairs: Seq<RepairRequest>) -> Seq<Repair> {
    repairs.map_values(|repair: RepairRequest| repair@)
}

/// The views of frames given up on.
pub open spec fn expired_of(expired: Seq<ExpiredFrame>) -> Seq<Expired> {
    expired.map_values(|frame: ExpiredFrame| frame@)
}

/// The views of reports.
pub open spec fn sayings_of(reports: Seq<Report>) -> Seq<Saying> {
    reports.map_values(|report: Report| report@)
}

/// Where the report of a session stands, or where it belongs.
fn seek(reports: &Vec<Report>, key: &FrameKey) -> (place: (usize, bool))
    requires
        in_session_order(sayings_of(reports@)),
    ensures
        place.0 <= reports@.len(),
        forall|i: int|
            0 <= i < place.0 ==> sayings_of(reports@)[i].session.before(key@.session()),
        place.1 ==> place.0 < reports@.len() && sayings_of(reports@)[place.0 as int].session
            == key@.session(),
        !place.1 ==> forall|i: int|
            place.0 <= i < reports@.len() ==> key@.session().before(
                sayings_of(reports@)[i].session,
            ),
{
    let ghost sayings = sayings_of(reports@);
    let mut i: usize = 0;
    while i < reports.len()
        invariant
            i <= reports@.len(),
            sayings == sayings_of(reports@),
            in_session_order(sayings),
            forall|k: int| 0 <= k < i ==> sayings[k].session.before(key@.session()),
        decreases reports@.len() - i,
    {
        let report = &reports[i];
        match compare_sessions(
            report.stream_id.as_str(),
            report.session_id.as_str(),
            key.stream_id.as_str(),
            key.session_id.as_str(),
        ) {
            Comparison::Before => {
                assert(sayings[i as int].session.before(key@.session()));
                i = i + 1;
            },
            Comparison::Same => {
                assert(sayings[i as int].session == key@.session());
                return (i, true);
            },
            Comparison::After => {
                assert(key@.session().before(sayings[i as int].session));
                assert forall|k: int| i <= k < reports@.len() implies key@.session().before(
                    sayings[k].session,
                ) by {
                    if k > i {
                        keys::lemma_session_transitive(
                            key@.session(),
                            sayings[i as int].session,
                            sayings[k].session,
                        );
                    }
                }
                return (i, false);
            },
        }
    }
    (i, false)
}

/// A session that has nothing to say says nothing.
proof fn lemma_silence(repairs: Seq<Repair>, expired: Seq<Expired>, session: SessionId)
    requires
        !speaks(repairs, expired, session),
    ensures
        asked_of(repairs, session) == Seq::<ChunkKey>::empty(),
        late_of(expired, session) == Seq::<u64>::empty(),
    decreases repairs.len() + expired.len(),
{
    if repairs.len() > 0 {
        let fewer = repairs.drop_last();
        assert(repairs[repairs.len() - 1].id.session() != session);
        assert forall|i: int| 0 <= i < fewer.len() implies (#[trigger] fewer[i]).id.session()
            != session by {
            assert(fewer[i] == repairs[i]);
        }
        lemma_silence(fewer, expired, session);
    } else if expired.len() > 0 {
        let fewer = expired.drop_last();
        assert(expired[expired.len() - 1].id.session() != session);
        assert forall|i: int| 0 <= i < fewer.len() implies (#[trigger] fewer[i]).id.session()
            != session by {
            assert(fewer[i] == expired[i]);
        }
        lemma_silence(repairs, fewer, session);
    }
}

/// The reports with one for `session` among them, at `i`.
pub open spec fn with_slot(
    before: Seq<Saying>,
    after: Seq<Saying>,
    session: SessionId,
    i: int,
) -> bool {
    &&& 0 <= i < after.len()
    &&& after[i].session == session
    &&& in_session_order(after)
    &&& if reported(before, session) {
        after == before
    } else {
        i <= before.len() && after == before.insert(
            i,
            Saying { session, missing: Seq::empty(), late: Seq::empty() },
        )
    }
}

/// One more repair adds its chunks to the report of its session.
proof fn lemma_digests_repair(
    before: Seq<Saying>,
    open: Seq<Saying>,
    i: int,
    repairs: Seq<Repair>,
    expired: Seq<Expired>,
    repair: Repair,
)
    requires
        digests(before, repairs, expired),
        with_slot(before, open, repair.id.session(), i),
    ensures
        digests(
            open.update(i, Saying { missing: open[i].missing + repair.missing, ..open[i] }),
            repairs.push(repair),
            expired,
        ),
{
    let session = repair.id.session();
    let after = open.update(i, Saying { missing: open[i].missing + repair.missing, ..open[i] });
    let more = repairs.push(repair);
    assert(more.drop_last() =~= repairs);
    lemma_open_is_whole(before, open, i, repairs, expired, session);
    lemma_sessions(before, open, after, i, session);
    assert forall|s: SessionId| #[trigger] reported(after, s) <==> speaks(more, expired, s) by {
        assert(more[repairs.len() as int] == repair);
        if speaks(repairs, expired, s) {
            if exists|k: int| 0 <= k < repairs.len() && (#[trigger] repairs[k]).id.session() == s {
                let k = choose|k: int|
                    0 <= k < repairs.len() && (#[trigger] repairs[k]).id.session() == s;
                assert(more[k].id.session() == s);
            }
        }
        if speaks(more, expired, s) && s != session {
            if exists|k: int| 0 <= k < more.len() && (#[trigger] more[k]).id.session() == s {
                let k = choose|k: int| 0 <= k < more.len() && (#[trigger] more[k]).id.session() == s;
                assert(repairs[k].id.session() == s);
            }
        }
    }
    assert forall|k: int| 0 <= k < after.len() implies #[trigger] after[k] == saying(
        more,
        expired,
        after[k].session,
    ) by {
        assert(open[k] == saying(repairs, expired, open[k].session));
        if k != i {
            lemma_distinct(open, k, i);
        }
    }
}

/// One more frame given up on adds its number to the report of its session.
proof fn lemma_digests_expired(
    before: Seq<Saying>,
    open: Seq<Saying>,
    i: int,
    repairs: Seq<Repair>,
    expired: Seq<Expired>,
    frame: Expired,
)
    requires
        digests(before, repairs, expired),
        with_slot(before, open, frame.id.session(), i),
    ensures
        digests(
            open.update(i, Saying { late: open[i].late.push(frame.id.frame_id), ..open[i] }),
            repairs,
            expired.push(frame),
        ),
{
    let session = frame.id.session();
    let after = open.update(i, Saying { late: open[i].late.push(frame.id.frame_id), ..open[i] });
    let more = expired.push(frame);
    assert(more.drop_last() =~= expired);
    lemma_open_is_whole(before, open, i, repairs, expired, session);
    lemma_sessions(before, open, after, i, session);
    assert forall|s: SessionId| #[trigger] reported(after, s) <==> speaks(repairs, more, s) by {
        assert(more[expired.len() as int] == frame);
        if speaks(repairs, expired, s) {
            if exists|k: int| 0 <= k < expired.len() && (#[trigger] expired[k]).id.session() == s {
                let k = choose|k: int|
                    0 <= k < expired.len() && (#[trigger] expired[k]).id.session() == s;
                assert(more[k].id.session() == s);
            }
        }
        if speaks(repairs, more, s) && s != session {
            if exists|k: int| 0 <= k < more.len() && (#[trigger] more[k]).id.session() == s {
                let k = choose|k: int| 0 <= k < more.len() && (#[trigger] more[k]).id.session() == s;
                assert(expired[k].id.session() == s);
            }
        }
    }
    assert forall|k: int| 0 <= k < after.len() implies #[trigger] after[k] == saying(
        repairs,
        more,
        after[k].session,
    ) by {
        assert(open[k] == saying(repairs, expired, open[k].session));
        if k != i {
            lemma_distinct(open, k, i);
        }
    }
}

/// Two reports are about different sessions.
proof fn lemma_distinct(reports: Seq<Saying>, i: int, j: int)
    requires
        in_session_order(reports),
        0 <= i < reports.len(),
        0 <= j < reports.len(),
        i != j,
    ensures
        reports[i].session != reports[j].session,
{
    keys::lemma_session_irreflexive(reports[i].session);
    if i < j {
        assert(reports[i].session.before(reports[j].session));
    } else {
        assert(reports[j].session.before(reports[i].session));
    }
}

/// A new, empty report says all that its session has to say so far.
proof fn lemma_open_is_whole(
    before: Seq<Saying>,
    open: Seq<Saying>,
    i: int,
    repairs: Seq<Repair>,
    expired: Seq<Expired>,
    session: SessionId,
)
    requires
        digests(before, repairs, expired),
        with_slot(before, open, session, i),
    ensures
        forall|k: int|
            0 <= k < open.len() ==> #[trigger] open[k] == saying(
                repairs,
                expired,
                open[k].session,
            ),
{
    if !reported(before, session) {
        lemma_silence(repairs, expired, session);
        assert forall|k: int| 0 <= k < open.len() implies #[trigger] open[k] == saying(
            repairs,
            expired,
            open[k].session,
        ) by {
            if k < i {
                assert(open[k] == before[k]);
            } else if k > i {
                assert(open[k] == before[k - 1]);
            }
        }
    }
}

/// Opening a report and adding to it adds its session and keeps the order.
proof fn lemma_sessions(
    before: Seq<Saying>,
    open: Seq<Saying>,
    after: Seq<Saying>,
    i: int,
    session: SessionId,
)
    requires
        in_session_order(before),
        with_slot(before, open, session, i),
        after.len() == open.len(),
        forall|k: int| 0 <= k < open.len() ==> (#[trigger] after[k]).session == open[k].session,
    ensures
        in_session_order(after),
        forall|s: SessionId| #[trigger]
            reported(after, s) <==> reported(before, s) || s == session,
{
    assert forall|a: int, b: int| 0 <= a < b < after.len() implies (
    #[trigger] after[a]).session.before((#[trigger] after[b]).session) by {
        assert(open[a].session.before(open[b].session));
    }
    assert forall|s: SessionId| #[trigger] reported(after, s) <==> reported(before, s) || s
        == session by {
        if reported(before, s) {
            let k = choose|k: int| 0 <= k < before.len() && (#[trigger] before[k]).session == s;
            if reported(before, session) {
                assert(after[k].session == s);
            } else if k < i {
                assert(after[k].session == s);
            } else {
                assert(open[k + 1] == before[k]);
                assert(after[k + 1].session == s);
            }
        }
        assert(after[i].session == session);
        if reported(after, s) && s != session {
            let k = choose|k: int| 0 <= k < after.len() && (#[trigger] after[k]).session == s;
            if reported(before, session) {
                assert(before[k].session == s);
            } else if k < i {
                assert(before[k].session == s);
            } else {
                assert(before[k - 1].session == s);
            }
        }
    }
}

/// Where the report of a frame's session stands; an empty one is put there if
/// there was none.
fn slot(reports: &mut Vec<Report>, key: &FrameKey) -> (i: usize)
    requires
        in_session_order(sayings_of(old(reports)@)),
    ensures
        with_slot(
            sayings_of(old(reports)@),
            sayings_of(final(reports)@),
            key@.session(),
            i as int,
        ),
{
    let (i, found) = seek(reports, key);
    let ghost before = sayings_of(reports@);
    if found {
        proof {
            assert(before[i as int].session == key@.session());
        }
    } else {
        reports.insert(
            i,
            Report {
                stream_id: key.stream_id.clone(),
                session_id: key.session_id.clone(),
                missing_chunk_keys: Vec::new(),
                late_frame_ids: Vec::new(),
            },
        );
        proof {
            let after = sayings_of(reports@);
            assert(after =~= before.insert(
                i as int,
                Saying { session: key@.session(), missing: Seq::empty(), late: Seq::empty() },
            ));
            keys::lemma_session_irreflexive(key@.session());
            assert(!reported(before, key@.session()));
            assert forall|a: int, b: int| 0 <= a < b < after.len() implies (
            #[trigger] after[a]).session.before((#[trigger] after[b]).session) by {
                if b < i {
                    assert(before[a].session.before(before[b].session));
                } else if b > i {
                    assert(after[b] == before[b - 1]);
                    if a < i {
                        assert(before[a].session.before(before[b - 1].session));
                    } else if a > i {
                        assert(before[a - 1].session.before(before[b - 1].session));
                    }
                }
            }
        }
    }
    i
}

/// What there is to say, one report for each stream and session, in order.
pub fn digest(repairs: &[RepairRequest], expired: &[ExpiredFrame]) -> (reports: Vec<Report>)
    ensures
        digests(sayings_of(reports@), repairs_of(repairs@), expired_of(expired@)),
{
    let ghost asks = repairs_of(repairs@);
    let ghost gone = expired_of(expired@);
    let mut reports: Vec<Report> = Vec::new();
    let mut n: usize = 0;
    assert(asks.take(0) =~= Seq::empty());
    assert(gone.take(0) =~= Seq::empty());
    assert(sayings_of(reports@) =~= Seq::empty());
    while n < repairs.len()
        invariant
            n <= repairs@.len(),
            asks == repairs_of(repairs@),
            digests(sayings_of(reports@), asks.take(n as int), gone.take(0)),
        decreases repairs@.len() - n,
    {
        let repair = &repairs[n];
        let ghost before = sayings_of(reports@);
        let i = slot(&mut reports, &repair.key);
        let ghost open = sayings_of(reports@);
        append_keys(&mut reports[i].missing_chunk_keys, &repair.missing_chunk_keys);
        proof {
            let ask = asks[n as int];
            assert(sayings_of(reports@) =~= open.update(
                i as int,
                Saying { missing: open[i as int].missing + ask.missing, ..open[i as int] },
            ));
            lemma_digests_repair(before, open, i as int, asks.take(n as int), gone.take(0), ask);
            assert(asks.take(n as int).push(ask) =~= asks.take(n + 1));
        }
        n = n + 1;
    }
    assert(asks.take(n as int) =~= asks);
    let mut n: usize = 0;
    while n < expired.len()
        invariant
            n <= expired@.len(),
            gone == expired_of(expired@),
            digests(sayings_of(reports@), asks, gone.take(n as int)),
        decreases expired@.len() - n,
    {
        let frame = &expired[n];
        let ghost before = sayings_of(reports@);
        let i = slot(&mut reports, &frame.key);
        let ghost open = sayings_of(reports@);
        reports[i].late_frame_ids.push(frame.key.frame_id);
        proof {
            let lost = gone[n as int];
            assert(sayings_of(reports@) =~= open.update(
                i as int,
                Saying { late: open[i as int].late.push(lost.id.frame_id), ..open[i as int] },
            ));
            lemma_digests_expired(before, open, i as int, asks, gone.take(n as int), lost);
            assert(gone.take(n as int).push(lost) =~= gone.take(n + 1));
        }
        n = n + 1;
    }
    assert(gone.take(n as int) =~= gone);
    reports
}

fn append_keys(keys: &mut Vec<ChunkKey>, more: &Vec<ChunkKey>)
    ensures
        final(keys)@ == old(keys)@ + more@,
{
    let ghost before = keys@;
    let mut i: usize = 0;
    assert(before + more@.take(0) =~= before);
    while i < more.len()
        invariant
            i <= more@.len(),
            keys@ == before + more@.take(i as int),
        decreases more@.len() - i,
    {
        keys.push(more[i]);
        assert((before + more@.take(i as int)).push(more@[i as int]) =~= before + more@.take(
            i + 1,
        ));
        i = i + 1;
    }
    assert(more@.take(i as int) =~= more@);
}

/// Decides what is said back.
pub struct FeedbackComposer {
    receiver_id: String,
    options: FeedbackOptions,
    last_keyframe_request: Option<Instant>,
    stats: FeedbackStats,
}

impl View for FeedbackComposer {
    type V = ComposerState;

    closed spec fn view(&self) -> ComposerState {
        ComposerState {
            receiver_id: self.receiver_id@,
            options: self.options,
            last_keyframe_request: self.last_keyframe_request,
            stats: self.stats,
        }
    }
}

impl FeedbackComposer {
    pub fn new(receiver_id: String, options: FeedbackOptions) -> (composer: Self)
        ensures
            composer@ == ComposerState::initial(receiver_id@, options),
    {
        FeedbackComposer {
            receiver_id,
            options,
            last_keyframe_request: None,
            stats: FeedbackStats {
                sent: 0,
                chunks_requested: 0,
                keyframes_requested: 0,
                not_sent: 0,
            },
        }
    }

    /// One record per stream and session that has something to say. Repairs
    /// name the chunks still wanted; expiries name the frames given up on and,
    /// once per cooldown, ask for a keyframe, since whatever depended on them
    /// cannot be decoded either.
    ///
    /// `build` is the media contract's: it makes a record of a draft, or says
    /// why it will not. What it refuses ends the composition.
    pub fn compose<
        F: Fn(&ReceiverFeedbackOptions) -> Result<GameCultMediaReceiverFeedbackRecord, String>,
    >(
        &mut self,
        repairs: &[RepairRequest],
        expired: &[ExpiredFrame],
        highest_decodable_frame_id: Option<u64>,
        now: Instant,
        observed_at: &str,
        build: F,
    ) -> (result: Result<Vec<GameCultMediaReceiverFeedbackRecord>, String>)
        requires
            forall|options: ReceiverFeedbackOptions| #[trigger] call_requires(build, (&options,)),
        ensures
            exists|reports: Seq<Saying>|
                {
                    &&& #[trigger] digests(reports, repairs_of(repairs@), expired_of(expired@))
                    &&& composes(
                        old(self)@,
                        Occasion {
                            reports,
                            highest_decodable_frame_id,
                            now,
                            observed_at: observed_at@,
                        },
                        build,
                        result,
                        final(self)@,
                    )
                },
    {
        let reports = digest(repairs, expired);
        let ghost sayings = sayings_of(reports@);
        let ghost occasion = Occasion {
            reports: sayings,
            highest_decodable_frame_id,
            now,
            observed_at: observed_at@,
        };
        let mut records: Vec<GameCultMediaReceiverFeedbackRecord> = Vec::new();
        let mut i: usize = 0;
        while i < reports.len()
            invariant
                i <= reports@.len(),
                i == records@.len(),
                sayings == sayings_of(reports@),
                digests(sayings, repairs_of(repairs@), expired_of(expired@)),
                occasion == (Occasion {
                    reports: sayings,
                    highest_decodable_frame_id,
                    now,
                    observed_at: observed_at@,
                }),
                builds(old(self)@, occasion, build, records@),
                self@ == old(self)@.said_all(records@, now),
                forall|options: ReceiverFeedbackOptions| #[trigger]
                    call_requires(build, (&options,)),
            decreases reports@.len() - i,
        {
            let options = self.draft(&reports[i], highest_decodable_frame_id, now, observed_at);
            assert(options@ == self@.draft(
                sayings[i as int],
                highest_decodable_frame_id,
                now,
                observed_at@,
            ));
            match build(&options) {
                Ok(record) => {
                    let ghost earlier = records@;
                    assert(answers(build, options@, Ok(record)));
                    self.record_built(&record, now);
                    records.push(record);
                    proof {
                        assert(records@.drop_last() =~= earlier);
                        assert forall|k: int| 0 <= k < records@.len() implies answers(
                            build,
                            old(self)@.said_all(records@.take(k), now).draft(
                                sayings[k],
                                highest_decodable_frame_id,
                                now,
                                observed_at@,
                            ),
                            Ok(#[trigger] records@[k]),
                        ) by {
                            assert(records@.take(k) =~= earlier.take(k));
                            if k < earlier.len() {
                                assert(records@[k] == earlier[k]);
                            } else {
                                assert(earlier.take(k) =~= earlier);
                            }
                        }
                    }
                },
                Err(reason) => {
                    assert(answers(build, options@, Err(reason)));
                    return Err(reason);
                },
            }
            i = i + 1;
        }
        Ok(records)
    }

    /// What the media contract is asked to make a record of.
    pub fn draft(
        &self,
        report: &Report,
        highest_decodable_frame_id: Option<u64>,
        now: Instant,
        observed_at: &str,
    ) -> (options: ReceiverFeedbackOptions)
        ensures
            options@ == self@.draft(report@, highest_decodable_frame_id, now, observed_at@),
    {
        let lost_a_reference = report.late_frame_ids.len() > 0;
        let mut missing_video_chunk_keys: Vec<ChunkKey> = Vec::new();
        append_keys(&mut missing_video_chunk_keys, &report.missing_chunk_keys);
        let mut late_frame_ids: Vec<u64> = Vec::new();
        append_ids(&mut late_frame_ids, &report.late_frame_ids);
        let options = ReceiverFeedbackOptions {
            stream_id: report.stream_id.clone(),
            session_id: report.session_id.clone(),
            receiver_id: self.receiver_id.clone(),
            highest_decodable_frame_id,
            missing_frame_ids: Vec::new(),
            missing_video_chunk_keys,
            late_frame_ids,
            requested_keyframe: lost_a_reference && self.keyframe_request_due(now),
            // The producer reads neither. Zero is "not measured", which is the
            // truth; a plausible number would not be.
            jitter_us: 0,
            decode_queue_us: 0,
            observed_at: observed_at.to_owned(),
        };
        assert(options@ =~= self@.draft(report@, highest_decodable_frame_id, now, observed_at@));
        options
    }

    /// Takes note of a record that was made at `now`.
    pub fn record_built(&mut self, record: &GameCultMediaReceiverFeedbackRecord, now: Instant)
        ensures
            final(self)@ == old(self)@.said(*record, now),
    {
        if record.requested_keyframe {
            self.last_keyframe_request = Some(now);
            self.stats.keyframes_requested = self.stats.keyframes_requested.wrapping_add(1);
        }
        self.stats.chunks_requested = self.stats.chunks_requested.wrapping_add(
            record.missing_video_chunk_keys.len() as u64,
        );
    }

    pub fn record_sent(&mut self)
        ensures
            final(self)@ == old(self)@.sent(),
    {
        self.stats.sent = self.stats.sent.wrapping_add(1);
    }

    pub fn record_not_sent(&mut self)
        ensures
            final(self)@ == old(self)@.not_sent(),
    {
        self.stats.not_sent = self.stats.not_sent.wrapping_add(1);
    }

    pub fn stats(&self) -> (stats: FeedbackStats)
        ensures
            stats == self@.stats,
    {
        self.stats
    }

    fn keyframe_request_due(&self, now: Instant) -> (due: bool)
        ensures
            due == self@.due(now),
    {
        match self.last_keyframe_request {
            Some(last) => now.duration_since(last).nanos
                >= self.options.keyframe_request_cooldown.nanos,
            None => true,
        }
    }
}

fn append_ids(ids: &mut Vec<u64>, more: &Vec<u64>)
    ensures
        final(ids)@ == old(ids)@ + more@,
{
    let ghost before = ids@;
    let mut i: usize = 0;
    assert(before + more@.take(0) =~= before);
    while i < more.len()
        invariant
            i <= more@.len(),
            ids@ == before + more@.take(i as int),
        decreases more@.len() - i,
    {
        ids.push(more[i]);
        assert((before + more@.take(i as int)).push(more@[i as int]) =~= before + more@.take(
            i + 1,
        ));
        i = i + 1;
    }
    assert(more@.take(i as int) =~= more@);
}

/// What there is to say settles the reports: no two lists of reports digest
/// the same repairs and expiries.
pub proof fn law_the_reports_are_determined(
    one: Seq<Saying>,
    two: Seq<Saying>,
    repairs: Seq<Repair>,
    expired: Seq<Expired>,
)
    requires
        digests(one, repairs, expired),
        digests(two, repairs, expired),
    ensures
        one == two,
{
    lemma_same_sessions(one, two, repairs, expired, 0);
    assert(one =~= two);
}

/// Two digests that agree before `from` agree throughout.
proof fn lemma_same_sessions(
    one: Seq<Saying>,
    two: Seq<Saying>,
    repairs: Seq<Repair>,
    expired: Seq<Expired>,
    from: int,
)
    requires
        digests(one, repairs, expired),
        digests(two, repairs, expired),
        0 <= from <= one.len(),
        from <= two.len(),
        forall|i: int| 0 <= i < from ==> one[i] == two[i],
    ensures
        one.len() == two.len(),
        forall|i: int| 0 <= i < one.len() ==> one[i] == two[i],
    decreases one.len() - from,
{
    if from < one.len() || from < two.len() {
        if from < one.len() {
            lemma_found_later(one, two, repairs, expired, from);
        }
        if from < two.len() {
            lemma_found_later(two, one, repairs, expired, from);
        }
        let a = one[from].session;
        let b = two[from].session;
        if a != b {
            let i = choose|i: int| from <= i < two.len() && (#[trigger] two[i]).session == a;
            let j = choose|j: int| from <= j < one.len() && (#[trigger] one[j]).session == b;
            assert(b.before(a));
            assert(a.before(b));
            keys::lemma_session_transitive(a, b, a);
            keys::lemma_session_irreflexive(a);
        }
        assert(one[from] == saying(repairs, expired, a));
        assert(two[from] == saying(repairs, expired, b));
        lemma_same_sessions(one, two, repairs, expired, from + 1);
    }
}

/// A session that one digest reports next, the other reports too, no earlier.
proof fn lemma_found_later(
    one: Seq<Saying>,
    two: Seq<Saying>,
    repairs: Seq<Repair>,
    expired: Seq<Expired>,
    from: int,
)
    requires
        digests(one, repairs, expired),
        digests(two, repairs, expired),
        0 <= from < one.len(),
        from <= two.len(),
        forall|i: int| 0 <= i < from ==> one[i] == two[i],
    ensures
        from < two.len(),
        exists|i: int| from <= i < two.len() && (#[trigger] two[i]).session == one[from].session,
{
    let session = one[from].session;
    assert(reported(one, session));
    assert(reported(two, session));
    let i = choose|i: int| 0 <= i < two.len() && (#[trigger] two[i]).session == session;
    if i < from {
        lemma_distinct(one, i, from);
    }
}

/// Nothing to say yields no record.
pub proof fn law_nothing_to_say_yields_no_report(reports: Seq<Saying>)
    requires
        digests(reports, Seq::empty(), Seq::empty()),
    ensures
        reports.len() == 0,
{
    if reports.len() > 0 {
        assert(reported(reports, reports[0].session));
    }
}

/// Streams and sessions are reported separately: no two reports are about the
/// same one.
pub proof fn law_sessions_are_reported_separately(
    reports: Seq<Saying>,
    repairs: Seq<Repair>,
    expired: Seq<Expired>,
    i: int,
    j: int,
)
    requires
        digests(reports, repairs, expired),
        0 <= i < j < reports.len(),
    ensures
        reports[i].session.before(reports[j].session),
        reports[i].session != reports[j].session,
{
    lemma_distinct(reports, i, j);
}

/// A repair request never asks for a keyframe: it exists so that one is not
/// needed.
pub proof fn law_repairs_alone_ask_for_no_keyframe(
    composer: ComposerState,
    reports: Seq<Saying>,
    repairs: Seq<Repair>,
    i: int,
    highest_decodable_frame_id: Option<u64>,
    now: Instant,
    observed_at: Seq<char>,
)
    requires
        digests(reports, repairs, Seq::empty()),
        0 <= i < reports.len(),
    ensures
        !composer.draft(
            reports[i],
            highest_decodable_frame_id,
            now,
            observed_at,
        ).requested_keyframe,
{
    assert(reports[i] == saying(repairs, Seq::empty(), reports[i].session));
}

/// Every frame given up on is named late in the report of its session.
pub proof fn law_every_lost_frame_is_reported_late(
    reports: Seq<Saying>,
    repairs: Seq<Repair>,
    expired: Seq<Expired>,
    n: int,
)
    requires
        digests(reports, repairs, expired),
        0 <= n < expired.len(),
    ensures
        exists|i: int|
            {
                &&& 0 <= i < reports.len()
                &&& (#[trigger] reports[i]).session == expired[n].id.session()
                &&& reports[i].late.contains(expired[n].id.frame_id)
            },
{
    let session = expired[n].id.session();
    assert(speaks(repairs, expired, session));
    assert(reported(reports, session));
    let i = choose|i: int| 0 <= i < reports.len() && (#[trigger] reports[i]).session == session;
    assert(reports[i] == saying(repairs, expired, session));
    lemma_late_contains(expired, n);
}

proof fn lemma_late_contains(expired: Seq<Expired>, n: int)
    requires
        0 <= n < expired.len(),
    ensures
        late_of(expired, expired[n].id.session()).contains(expired[n].id.frame_id),
    decreases expired.len(),
{
    let session = expired[n].id.session();
    let fewer = late_of(expired.drop_last(), session);
    if n == expired.len() - 1 {
        let all = fewer.push(expired[n].id.frame_id);
        assert(all[fewer.len() as int] == expired[n].id.frame_id);
    } else {
        assert(expired.drop_last()[n] == expired[n]);
        lemma_late_contains(expired.drop_last(), n);
        let k = choose|k: int| 0 <= k < fewer.len() && fewer[k] == expired[n].id.frame_id;
        assert(late_of(expired, session)[k] == expired[n].id.frame_id);
    }
}

/// Every chunk a repair names is asked for in the report of its session.
pub proof fn law_every_missing_chunk_is_asked_for(
    reports: Seq<Saying>,
    repairs: Seq<Repair>,
    expired: Seq<Expired>,
    n: int,
    chunk: ChunkKey,
)
    requires
        digests(reports, repairs, expired),
        0 <= n < repairs.len(),
        repairs[n].missing.contains(chunk),
    ensures
        exists|i: int|
            {
                &&& 0 <= i < reports.len()
                &&& (#[trigger] reports[i]).session == repairs[n].id.session()
                &&& reports[i].missing.contains(chunk)
            },
{
    let session = repairs[n].id.session();
    assert(speaks(repairs, expired, session));
    assert(reported(reports, session));
    let i = choose|i: int| 0 <= i < reports.len() && (#[trigger] reports[i]).session == session;
    assert(reports[i] == saying(repairs, expired, session));
    lemma_asked_contains(repairs, n, chunk);
}

proof fn lemma_asked_contains(repairs: Seq<Repair>, n: int, chunk: ChunkKey)
    requires
        0 <= n < repairs.len(),
        repairs[n].missing.contains(chunk),
    ensures
        asked_of(repairs, repairs[n].id.session()).contains(chunk),
    decreases repairs.len(),
{
    let session = repairs[n].id.session();
    let fewer = asked_of(repairs.drop_last(), session);
    let all = asked_of(repairs, session);
    if n == repairs.len() - 1 {
        let missing = repairs[n].missing;
        let k = choose|k: int| 0 <= k < missing.len() && missing[k] == chunk;
        assert(all[fewer.len() + k] == chunk);
    } else {
        assert(repairs.drop_last()[n] == repairs[n]);
        lemma_asked_contains(repairs.drop_last(), n, chunk);
        let k = choose|k: int| 0 <= k < fewer.len() && fewer[k] == chunk;
        assert(all[k] == chunk);
    }
}

/// The composer after records were made at given times, one after the other.
pub open spec fn after_records(
    composer: ComposerState,
    made: Seq<(GameCultMediaReceiverFeedbackRecord, Instant)>,
) -> ComposerState
    decreases made.len(),
{
    if made.len() == 0 {
        composer
    } else {
        after_records(composer, made.drop_last()).said(made.last().0, made.last().1)
    }
}

/// One request per cooldown: as long as a record asks for a keyframe only when
/// the composer says that it is due, and time does not run backwards, two
/// records that ask for a keyframe lie a whole cooldown apart.
pub proof fn law_a_keyframe_is_asked_for_once_per_cooldown(
    composer: ComposerState,
    made: Seq<(GameCultMediaReceiverFeedbackRecord, Instant)>,
    i: int,
    j: int,
)
    requires
        0 <= i < j < made.len(),
        made[i].0.requested_keyframe,
        made[j].0.requested_keyframe,
        forall|a: int, b: int|
            0 <= a <= b < made.len() ==> (#[trigger] made[a]).1.nanos <= (
            #[trigger] made[b]).1.nanos,
        forall|k: int|
            0 <= k < made.len() && (#[trigger] made[k]).0.requested_keyframe ==> after_records(
                composer,
                made.take(k),
            ).due(made[k].1),
    ensures
        made[j].1.since(made[i].1) >= composer.options.keyframe_request_cooldown.nanos,
{
    lemma_last_request(composer, made, i, j);
    assert(after_records(composer, made.take(j)).due(made[j].1));
}

/// After a request the last one on record is no older than it.
proof fn lemma_last_request(
    composer: ComposerState,
    made: Seq<(GameCultMediaReceiverFeedbackRecord, Instant)>,
    i: int,
    n: int,
)
    requires
        0 <= i < n <= made.len(),
        made[i].0.requested_keyframe,
        forall|a: int, b: int|
            0 <= a <= b < made.len() ==> (#[trigger] made[a]).1.nanos <= (
            #[trigger] made[b]).1.nanos,
    ensures
        after_records(composer, made.take(n)).options == composer.options,
        after_records(composer, made.take(n)).last_keyframe_request matches Some(last)
            && made[i].1.nanos <= last.nanos <= made[n - 1].1.nanos,
    decreases n,
{
    lemma_same_options(composer, made.take(n));
    assert(made.take(n).drop_last() =~= made.take(n - 1));
    assert(made.take(n).last() == made[n - 1]);
    if n - 1 > i {
        lemma_last_request(composer, made, i, n - 1);
        assert(made[n - 2].1.nanos <= made[n - 1].1.nanos);
    }
    assert(made[i].1.nanos <= made[n - 1].1.nanos);
}

proof fn lemma_same_options(
    composer: ComposerState,
    made: Seq<(GameCultMediaReceiverFeedbackRecord, Instant)>,
)
    ensures
        after_records(composer, made).options == composer.options,
    decreases made.len(),
{
    if made.len() > 0 {
        lemma_same_options(composer, made.drop_last());
    }
}

/// A lost frame does ask for a keyframe, unless one was asked for within the
/// cooldown.
pub proof fn law_a_lost_frame_asks_for_a_keyframe(
    composer: ComposerState,
    reports: Seq<Saying>,
    repairs: Seq<Repair>,
    expired: Seq<Expired>,
    i: int,
    highest_decodable_frame_id: Option<u64>,
    now: Instant,
    observed_at: Seq<char>,
)
    requires
        digests(reports, repairs, expired),
        0 <= i < reports.len(),
        reports[i].late.len() > 0,
        composer.last_keyframe_request matches Some(last) ==> now.since(last)
            >= composer.options.keyframe_request_cooldown.nanos,
    ensures
        composer.draft(
            reports[i],
            highest_decodable_frame_id,
            now,
            observed_at,
        ).requested_keyframe,
{
}

/// `build` keeps what a draft says of late frames and of a keyframe.
pub open spec fn keeps<
    F: Fn(&ReceiverFeedbackOptions) -> Result<GameCultMediaReceiverFeedbackRecord, String>,
>(build: F) -> bool {
    forall|options: ReceiverFeedbackOptions, record: GameCultMediaReceiverFeedbackRecord|
        #[trigger] call_ensures(build, (&options,), Ok(record)) ==> {
            &&& record.requested_keyframe == options.requested_keyframe
            &&& record.late_frame_ids@ == options.late_frame_ids@
        }
}

/// The record names frames given up on.
pub open spec fn is_late(record: GameCultMediaReceiverFeedbackRecord) -> bool {
    record.late_frame_ids@.len() > 0
}

/// The record is the first that names frames given up on.
pub open spec fn first_late(
    records: Seq<GameCultMediaReceiverFeedbackRecord>,
    i: int,
) -> bool {
    &&& 0 <= i < records.len()
    &&& is_late(records[i])
    &&& forall|k: int| 0 <= k < i ==> !is_late(#[trigger] records[k])
}

/// Some record asks for a keyframe.
pub open spec fn asks_for_keyframe(records: Seq<GameCultMediaReceiverFeedbackRecord>) -> bool {
    exists|i: int| 0 <= i < records.len() && (#[trigger] records[i]).requested_keyframe
}

/// A composition asks for a keyframe at most once: when that is due exactly the
/// first record that names frames given up on does, and otherwise none. The
/// composer remembers it as asked for then.
pub proof fn law_a_composition_asks_for_a_keyframe_at_most_once<
    F: Fn(&ReceiverFeedbackOptions) -> Result<GameCultMediaReceiverFeedbackRecord, String>,
>(
    composer: ComposerState,
    occasion: Occasion,
    build: F,
    records: Vec<GameCultMediaReceiverFeedbackRecord>,
    next: ComposerState,
)
    requires
        composes(composer, occasion, build, Ok(records), next),
        keeps(build),
        composer.options.keyframe_request_cooldown.nanos > 0,
    ensures
        forall|i: int|
            0 <= i < records@.len() ==> ((#[trigger] records@[i]).requested_keyframe
                <==> composer.due(occasion.now) && first_late(records@, i)),
        next.last_keyframe_request == if asks_for_keyframe(records@) {
            Some(occasion.now)
        } else {
            composer.last_keyframe_request
        },
{
    let count = records@.len() as int;
    assert(records@.take(count) =~= records@);
    assert forall|i: int| 0 <= i < count implies (#[trigger] records@[i]).requested_keyframe == (
    is_late(records@[i]) && composer.said_all(records@.take(i), occasion.now).due(occasion.now)) by {
        lemma_record_keeps(composer, occasion, build, records@, i);
    }
    lemma_records_so_far(composer, occasion.now, records@, count);
    if composer.due(occasion.now) && any_late(records@, count) {
        let k = choose|k: int| 0 <= k < count && is_late(#[trigger] records@[k]);
        let first = lemma_first_late(records@, k);
        assert(records@[first].requested_keyframe);
    }
}

/// One of the first `n` records names frames given up on.
pub open spec fn any_late(
    records: Seq<GameCultMediaReceiverFeedbackRecord>,
    n: int,
) -> bool {
    exists|k: int| 0 <= k < n && is_late(#[trigger] records[k])
}

/// A record says of late frames what its report does, and asks for a keyframe
/// if the composer drafted it so.
proof fn lemma_record_keeps<
    F: Fn(&ReceiverFeedbackOptions) -> Result<GameCultMediaReceiverFeedbackRecord, String>,
>(
    composer: ComposerState,
    occasion: Occasion,
    build: F,
    records: Seq<GameCultMediaReceiverFeedbackRecord>,
    i: int,
)
    requires
        builds(composer, occasion, build, records),
        keeps(build),
        0 <= i < records.len(),
    ensures
        records[i].late_frame_ids@ == occasion.reports[i].late,
        records[i].requested_keyframe <==> is_late(records[i]) && composer.said_all(
            records.take(i),
            occasion.now,
        ).due(occasion.now),
{
    let draft = composer.said_all(records.take(i), occasion.now).draft(
        occasion.reports[i],
        occasion.highest_decodable_frame_id,
        occasion.now,
        occasion.observed_at,
    );
    assert(answers(build, draft, Ok(records[i])));
    let options = choose|options: ReceiverFeedbackOptions|
        options@ == draft && #[trigger] call_ensures(build, (&options,), Ok(records[i]));
    assert(call_ensures(build, (&options,), Ok(records[i])));
    assert(options@.late_frame_ids == options.late_frame_ids@);
}

/// The composer after the first records, and which of them ask for a keyframe.
#[verifier::spinoff_prover]
proof fn lemma_records_so_far(
    composer: ComposerState,
    now: Instant,
    records: Seq<GameCultMediaReceiverFeedbackRecord>,
    n: int,
)
    requires
        composer.options.keyframe_request_cooldown.nanos > 0,
        0 <= n <= records.len(),
        forall|i: int|
            0 <= i < n ==> (#[trigger] records[i]).requested_keyframe == (is_late(records[i])
                && composer.said_all(records.take(i), now).due(now)),
    ensures
        composer.said_all(records.take(n), now).options == composer.options,
        composer.said_all(records.take(n), now).last_keyframe_request == if composer.due(now)
            && any_late(records, n) {
            Some(now)
        } else {
            composer.last_keyframe_request
        },
        forall|i: int|
            0 <= i < n ==> ((#[trigger] records[i]).requested_keyframe <==> composer.due(now)
                && first_late(records, i)),
    decreases n,
{
    if n > 0 {
        let last = records[n - 1];
        lemma_records_so_far(composer, now, records, n - 1);
        assert(records.take(n).drop_last() =~= records.take(n - 1));
        assert(records.take(n).last() == last);
        let before = composer.said_all(records.take(n - 1), now);
        let after = composer.said_all(records.take(n), now);
        assert(after == before.said(last, now));
        assert(last.requested_keyframe == (is_late(last) && before.due(now)));
        assert(first_late(records, n - 1) <==> is_late(last) && !any_late(records, n - 1));
        if any_late(records, n - 1) {
            let k = choose|k: int| 0 <= k < n - 1 && is_late(#[trigger] records[k]);
            assert(any_late(records, n));
        } else if is_late(last) {
            assert(any_late(records, n));
        }
    }
}

/// One composition of a series: the composer before and after it, what it was
/// about, and the records it made.
pub struct Composition {
    pub before: ComposerState,
    pub repairs: Seq<Repair>,
    pub expired: Seq<Expired>,
    pub occasion: Occasion,
    pub records: Vec<GameCultMediaReceiverFeedbackRecord>,
    pub after: ComposerState,
}

/// Compositions that one composer made in turn, none of which was refused. In
/// between it only counts what became of its records, and time does not run
/// backwards.
pub open spec fn series<
    F: Fn(&ReceiverFeedbackOptions) -> Result<GameCultMediaReceiverFeedbackRecord, String>,
>(made: Seq<Composition>, build: F) -> bool {
    &&& forall|n: int|
        0 <= n < made.len() ==> {
            let one = #[trigger] made[n];
            &&& digests(one.occasion.reports, one.repairs, one.expired)
            &&& composes(one.before, one.occasion, build, Ok(one.records), one.after)
        }
    &&& forall|n: int|
        0 < n < made.len() ==> {
            let earlier = made[n - 1];
            let one = #[trigger] made[n];
            &&& one.before.options == earlier.after.options
            &&& one.before.last_keyframe_request == earlier.after.last_keyframe_request
        }
    &&& forall|m: int, n: int|
        0 <= m <= n < made.len() ==> (#[trigger] made[m]).occasion.now.nanos <= (
        #[trigger] made[n]).occasion.now.nanos
}

/// When a keyframe was last asked for before composition `n` of a series.
pub open spec fn last_request(made: Seq<Composition>, n: nat) -> Option<Instant>
    decreases n,
{
    if n == 0 {
        made[0].before.last_keyframe_request
    } else if asks_for_keyframe(made[n - 1].records@) {
        Some(made[n - 1].occasion.now)
    } else {
        last_request(made, (n - 1) as nat)
    }
}

/// Over a series of compositions a keyframe is asked for once per cooldown: a
/// composition that has lost frames to report asks exactly once, in the first
/// record that names some, if no earlier one asked or the last that did lies a
/// cooldown back; otherwise none of its records asks. A record that names no
/// lost frame never does, and two compositions that ask lie a cooldown apart.
pub proof fn law_a_series_asks_for_a_keyframe_once_per_cooldown<
    F: Fn(&ReceiverFeedbackOptions) -> Result<GameCultMediaReceiverFeedbackRecord, String>,
>(made: Seq<Composition>, build: F, n: int)
    requires
        series(made, build),
        keeps(build),
        made[0].before.options.keyframe_request_cooldown.nanos > 0,
        0 <= n < made.len(),
    ensures
        ({
            let one = made[n];
            let cooldown = made[0].before.options.keyframe_request_cooldown.nanos;
            let due = last_request(made, n as nat) matches Some(last) ==> one.occasion.now.since(
                last,
            ) >= cooldown;
            &&& forall|i: int|
                0 <= i < one.records@.len() ==> ((#[trigger] one.records@[i]).requested_keyframe
                    <==> due && first_late(one.records@, i))
            &&& asks_for_keyframe(one.records@) <==> due && one.expired.len() > 0
            &&& forall|m: int|
                0 <= m < n && asks_for_keyframe((#[trigger] made[m]).records@)
                    && asks_for_keyframe(one.records@) ==> one.occasion.now.since(
                    made[m].occasion.now,
                ) >= cooldown
        }),
{
    let one = made[n];
    let cooldown = made[0].before.options.keyframe_request_cooldown.nanos;
    lemma_series_state(made, build, n);
    assert(composes(one.before, one.occasion, build, Ok(one.records), one.after));
    law_a_composition_asks_for_a_keyframe_at_most_once(
        one.before,
        one.occasion,
        build,
        one.records,
        one.after,
    );
    assert forall|i: int| 0 <= i < one.records@.len() implies (
    #[trigger] one.records@[i]).late_frame_ids@ == late_of(
        one.expired,
        one.occasion.reports[i].session,
    ) by {
        lemma_record_keeps(one.before, one.occasion, build, one.records@, i);
        assert(one.occasion.reports[i] == saying(
            one.repairs,
            one.expired,
            one.occasion.reports[i].session,
        ));
    }
    if one.expired.len() > 0 {
        law_every_lost_frame_is_reported_late(
            one.occasion.reports,
            one.repairs,
            one.expired,
            0,
        );
        let late = choose|i: int|
            {
                &&& 0 <= i < one.occasion.reports.len()
                &&& (#[trigger] one.occasion.reports[i]).session == one.expired[0].id.session()
                &&& one.occasion.reports[i].late.contains(one.expired[0].id.frame_id)
            };
        lemma_record_keeps(one.before, one.occasion, build, one.records@, late);
        let first = lemma_first_late(one.records@, late);
        if one.before.due(one.occasion.now) {
            assert(one.records@[first].requested_keyframe);
        }
    } else if asks_for_keyframe(one.records@) {
        let i = choose|i: int|
            0 <= i < one.records@.len() && (#[trigger] one.records@[i]).requested_keyframe;
        assert(first_late(one.records@, i));
        assert(late_of(one.expired, one.occasion.reports[i].session).len() == 0);
    }
    assert forall|m: int|
        0 <= m < n && asks_for_keyframe((#[trigger] made[m]).records@) && asks_for_keyframe(
            one.records@,
        ) implies one.occasion.now.since(made[m].occasion.now) >= cooldown by {
        lemma_request_stays_on_record(made, build, m, n);
    }
}

/// The first record that names lost frames, no later than one that does.
proof fn lemma_first_late(
    records: Seq<GameCultMediaReceiverFeedbackRecord>,
    late: int,
) -> (first: int)
    requires
        0 <= late < records.len(),
        is_late(records[late]),
    ensures
        first_late(records, first),
    decreases late,
{
    if exists|k: int| 0 <= k < late && is_late(#[trigger] records[k]) {
        let k = choose|k: int| 0 <= k < late && is_late(#[trigger] records[k]);
        lemma_first_late(records, k)
    } else {
        late
    }
}

/// What the composer has on record before composition `n` of a series.
proof fn lemma_series_state<
    F: Fn(&ReceiverFeedbackOptions) -> Result<GameCultMediaReceiverFeedbackRecord, String>,
>(made: Seq<Composition>, build: F, n: int)
    requires
        series(made, build),
        keeps(build),
        made[0].before.options.keyframe_request_cooldown.nanos > 0,
        0 <= n < made.len(),
    ensures
        made[n].before.options == made[0].before.options,
        made[n].before.last_keyframe_request == last_request(made, n as nat),
    decreases n,
{
    if n > 0 {
        lemma_series_state(made, build, n - 1);
        let earlier = made[n - 1];
        assert(composes(earlier.before, earlier.occasion, build, Ok(earlier.records), earlier.after));
        law_a_composition_asks_for_a_keyframe_at_most_once(
            earlier.before,
            earlier.occasion,
            build,
            earlier.records,
            earlier.after,
        );
        lemma_said_all_keeps_options(earlier.before, earlier.records@, earlier.occasion.now);
        assert(made[n].before.options == earlier.after.options);
    }
}

/// Records change no option.
proof fn lemma_said_all_keeps_options(
    composer: ComposerState,
    records: Seq<GameCultMediaReceiverFeedbackRecord>,
    now: Instant,
)
    ensures
        composer.said_all(records, now).options == composer.options,
    decreases records.len(),
{
    if records.len() > 0 {
        lemma_said_all_keeps_options(composer, records.drop_last(), now);
    }
}

/// After composition `m` asked, the last request on record is no older.
proof fn lemma_request_stays_on_record<
    F: Fn(&ReceiverFeedbackOptions) -> Result<GameCultMediaReceiverFeedbackRecord, String>,
>(made: Seq<Composition>, build: F, m: int, n: int)
    requires
        series(made, build),
        0 <= m < n < made.len(),
        asks_for_keyframe(made[m].records@),
    ensures
        last_request(made, n as nat) matches Some(last) && made[m].occasion.now.nanos
            <= last.nanos <= made[n].occasion.now.nanos,
    decreases n,
{
    assert(made[n - 1].occasion.now.nanos <= made[n].occasion.now.nanos);
    assert(made[m].occasion.now.nanos <= made[n - 1].occasion.now.nanos);
    if !asks_for_keyframe(made[n - 1].records@) {
        lemma_request_stays_on_record(made, build, m, n - 1);
    }
}

/// The frame is of that stream and session.
pub open spec fn belongs(id: FrameId, session: SessionId) -> bool {
    id.stream_id == session.stream_id && id.session_id == session.session_id
}

/// One of the reports is of the session the frame belongs to.
pub open spec fn has_report(reports: Seq<Saying>, id: FrameId) -> bool {
    exists|j: int| 0 <= j < reports.len() && belongs(id, (#[trigger] reports[j]).session)
}

/// Whatever is asked for again and whatever was given up on, the session it
/// belongs to has a report.
pub proof fn law_every_session_with_something_to_say_is_reported(
    reports: Seq<Saying>,
    repairs: Seq<Repair>,
    expired: Seq<Expired>,
)
    requires
        digests(reports, repairs, expired),
    ensures
        forall|k: int|
            0 <= k < repairs.len() ==> has_report(reports, (#[trigger] repairs[k]).id),
        forall|k: int|
            0 <= k < expired.len() ==> has_report(reports, (#[trigger] expired[k]).id),
{
    assert forall|k: int| 0 <= k < repairs.len() implies has_report(
        reports,
        (#[trigger] repairs[k]).id,
    ) by {
        assert(speaks(repairs, expired, repairs[k].id.session()));
        assert(reported(reports, repairs[k].id.session()));
        let j = choose|j: int|
            0 <= j < reports.len() && (#[trigger] reports[j]).session == repairs[k].id.session();
        assert(belongs(repairs[k].id, reports[j].session));
    }
    assert forall|k: int| 0 <= k < expired.len() implies has_report(
        reports,
        (#[trigger] expired[k]).id,
    ) by {
        assert(speaks(repairs, expired, expired[k].id.session()));
        assert(reported(reports, expired[k].id.session()));
        let j = choose|j: int|
            0 <= j < reports.len() && (#[trigger] reports[j]).session == expired[k].id.session();
        assert(belongs(expired[k].id, reports[j].session));
    }
}

/// A report names all the frames of its stream and session that were given up
/// on, and all the chunks still wanted of it, each in the order it was reported
/// and as often, and nothing of any other; there is one for each stream and
/// session of which something was reported and for no other.
pub proof fn law_a_report_says_all_of_its_session_and_nothing_else(
    reports: Seq<Saying>,
    repairs: Seq<Repair>,
    expired: Seq<Expired>,
    i: int,
)
    requires
        digests(reports, repairs, expired),
        0 <= i < reports.len(),
    ensures
        reports[i].late == expired.filter(
            |gone: Expired| belongs(gone.id, reports[i].session),
        ).map_values(|gone: Expired| gone.id.frame_id),
        reports[i].missing == repairs.filter(
            |ask: Repair| belongs(ask.id, reports[i].session),
        ).map_values(|ask: Repair| ask.missing).flatten(),
        ({
            ||| exists|k: int|
                0 <= k < repairs.len() && belongs((#[trigger] repairs[k]).id, reports[i].session)
            ||| exists|k: int|
                0 <= k < expired.len() && belongs((#[trigger] expired[k]).id, reports[i].session)
        }),
        forall|k: int|
            0 <= k < repairs.len() ==> has_report(reports, (#[trigger] repairs[k]).id),
        forall|k: int|
            0 <= k < expired.len() ==> has_report(reports, (#[trigger] expired[k]).id),
{
    let session = reports[i].session;
    assert(reports[i] == saying(repairs, expired, session));
    lemma_late_is_filtered(expired, session);
    lemma_asked_is_filtered(repairs, session);
    assert(reported(reports, session));
    if exists|k: int| 0 <= k < repairs.len() && (#[trigger] repairs[k]).id.session() == session {
        let k = choose|k: int| 0 <= k < repairs.len() && (#[trigger] repairs[k]).id.session()
            == session;
        assert(belongs(repairs[k].id, session));
    } else {
        let k = choose|k: int| 0 <= k < expired.len() && (#[trigger] expired[k]).id.session()
            == session;
        assert(belongs(expired[k].id, session));
    }
    law_every_session_with_something_to_say_is_reported(reports, repairs, expired);
}

proof fn lemma_late_is_filtered(expired: Seq<Expired>, session: SessionId)
    ensures
        late_of(expired, session) == expired.filter(
            |gone: Expired| belongs(gone.id, session),
        ).map_values(|gone: Expired| gone.id.frame_id),
    decreases expired.len(),
{
    reveal(Seq::filter);
    let own = |gone: Expired| belongs(gone.id, session);
    let number = |gone: Expired| gone.id.frame_id;
    if expired.len() > 0 {
        let fewer = expired.drop_last();
        lemma_late_is_filtered(fewer, session);
        let last = expired.last();
        assert(last.id.session() == session <==> belongs(last.id, session));
        if belongs(last.id, session) {
            assert(expired.filter(own) == fewer.filter(own).push(last));
            assert(fewer.filter(own).push(last).map_values(number) =~= fewer.filter(
                own,
            ).map_values(number).push(last.id.frame_id));
        } else {
            assert(expired.filter(own) == fewer.filter(own));
        }
    } else {
        assert(expired.filter(own).map_values(number) =~= Seq::empty());
    }
}

proof fn lemma_asked_is_filtered(repairs: Seq<Repair>, session: SessionId)
    ensures
        asked_of(repairs, session) == repairs.filter(
            |ask: Repair| belongs(ask.id, session),
        ).map_values(|ask: Repair| ask.missing).flatten(),
    decreases repairs.len(),
{
    reveal(Seq::filter);
    let own = |ask: Repair| belongs(ask.id, session);
    let wanted = |ask: Repair| ask.missing;
    if repairs.len() > 0 {
        let fewer = repairs.drop_last();
        lemma_asked_is_filtered(fewer, session);
        let last = repairs.last();
        assert(last.id.session() == session <==> belongs(last.id, session));
        if belongs(last.id, session) {
            assert(repairs.filter(own) == fewer.filter(own).push(last));
            let lists = fewer.filter(own).map_values(wanted);
            assert(fewer.filter(own).push(last).map_values(wanted) =~= lists.push(last.missing));
            lists.lemma_flatten_push(last.missing);
        } else {
            assert(repairs.filter(own) == fewer.filter(own));
        }
    } else {
        assert(repairs.filter(own).map_values(wanted) =~= Seq::empty());
    }
}

/// A new composer has asked for no keyframe and counted nothing, and goes by
/// the name and the options it was given.
pub proof fn law_a_new_composer_has_said_nothing(receiver_id: Seq<char>, options: FeedbackOptions)
    ensures
        ({
            let new = ComposerState::initial(receiver_id, options);
            &&& new.receiver_id == receiver_id
            &&& new.options == options
            &&& new.last_keyframe_request is None
            &&& new.stats.sent == 0 && new.stats.not_sent == 0
            &&& new.stats.chunks_requested == 0 && new.stats.keyframes_requested == 0
        }),
{
}

/// A draft says for whom it speaks, what its report says, the highest frame and
/// the time it is given, and nothing that was not measured. It asks for a
/// keyframe exactly when frames were given up on and none was asked for within
/// the cooldown.
pub proof fn law_a_draft_says_what_it_is_given(
    composer: ComposerState,
    report: Saying,
    highest_decodable_frame_id: Option<u64>,
    now: Instant,
    observed_at: Seq<char>,
)
    ensures
        ({
            let draft = composer.draft(report, highest_decodable_frame_id, now, observed_at);
            &&& draft.session == report.session
            &&& draft.receiver_id == composer.receiver_id
            &&& draft.highest_decodable_frame_id == highest_decodable_frame_id
            &&& draft.missing_frame_ids.len() == 0
            &&& draft.missing_video_chunk_keys == report.missing
            &&& draft.late_frame_ids == report.late
            &&& draft.jitter_us == 0
            &&& draft.decode_queue_us == 0
            &&& draft.observed_at == observed_at
            &&& draft.requested_keyframe <==> {
                &&& report.late.len() > 0
                &&& composer.last_keyframe_request is None || now.since(
                    composer.last_keyframe_request->0,
                ) >= composer.options.keyframe_request_cooldown.nanos
            }
        }),
{
}

/// What is handed to the media contract is read as it stands, and so is a
/// report.
pub proof fn law_drafts_and_reports_are_read_as_they_stand(
    options: ReceiverFeedbackOptions,
    report: Report,
)
    ensures
        options@.session.stream_id == options.stream_id@,
        options@.session.session_id == options.session_id@,
        options@.receiver_id == options.receiver_id@,
        options@.highest_decodable_frame_id == options.highest_decodable_frame_id,
        options@.missing_frame_ids == options.missing_frame_ids@,
        options@.missing_video_chunk_keys == options.missing_video_chunk_keys@,
        options@.late_frame_ids == options.late_frame_ids@,
        options@.requested_keyframe == options.requested_keyframe,
        options@.jitter_us == options.jitter_us,
        options@.decode_queue_us == options.decode_queue_us,
        options@.observed_at == options.observed_at@,
        report@.session.stream_id == report.stream_id@,
        report@.session.session_id == report.session_id@,
        report@.missing == report.missing_chunk_keys@,
        report@.late == report.late_frame_ids@,
{
}

/// What repairs and expiries are composed of is each of them, in order.
pub proof fn law_lists_are_read_item_by_item(
    repairs: Seq<RepairRequest>,
    expired: Seq<ExpiredFrame>,
    reports: Seq<Report>,
)
    ensures
        repairs_of(repairs).len() == repairs.len(),
        forall|i: int|
            0 <= i < repairs.len() ==> #[trigger] repairs_of(repairs)[i] == repairs[i]@,
        expired_of(expired).len() == expired.len(),
        forall|i: int|
            0 <= i < expired.len() ==> #[trigger] expired_of(expired)[i] == expired[i]@,
        sayings_of(reports).len() == reports.len(),
        forall|i: int|
            0 <= i < reports.len() ==> #[trigger] sayings_of(reports)[i] == reports[i]@,
{
}

/// Counting: a record that was made is counted by the chunks it asks for and by
/// whether it asks for a keyframe, which is then the last time one was asked
/// for; what became of it at the transport is counted apart. Nothing else moves.
pub proof fn law_records_are_counted(
    composer: ComposerState,
    record: GameCultMediaReceiverFeedbackRecord,
    now: Instant,
)
    ensures
        ({
            let made = composer.said(record, now);
            let asks = record.requested_keyframe;
            &&& made.receiver_id == composer.receiver_id
            &&& made.options == composer.options
            &&& made.last_keyframe_request == if asks {
                Some(now)
            } else {
                composer.last_keyframe_request
            }
            &&& made.stats.chunks_requested == composer.stats.chunks_requested.wrapping_add(
                record.missing_video_chunk_keys@.len() as u64,
            )
            &&& made.stats.keyframes_requested == if asks {
                composer.stats.keyframes_requested.wrapping_add(1)
            } else {
                composer.stats.keyframes_requested
            }
            &&& made.stats.sent == composer.stats.sent
            &&& made.stats.not_sent == composer.stats.not_sent
        }),
        ({
            let sent = composer.sent();
            &&& sent.stats.sent == composer.stats.sent.wrapping_add(1)
            &&& sent.stats.not_sent == composer.stats.not_sent
            &&& sent.stats.chunks_requested == composer.stats.chunks_requested
            &&& sent.stats.keyframes_requested == composer.stats.keyframes_requested
            &&& sent.receiver_id == composer.receiver_id
            &&& sent.options == composer.options
            &&& sent.last_keyframe_request == composer.last_keyframe_request
        }),
        ({
            let refused = composer.not_sent();
            &&& refused.stats.not_sent == composer.stats.not_sent.wrapping_add(1)
            &&& refused.stats.sent == composer.stats.sent
            &&& refused.stats.chunks_requested == composer.stats.chunks_requested
            &&& refused.stats.keyframes_requested == composer.stats.keyframes_requested
            &&& refused.receiver_id == composer.receiver_id
            &&& refused.options == composer.options
            &&& refused.last_keyframe_request == composer.last_keyframe_request
        }),
{
}

/// How many chunks some records ask for.
pub open spec fn chunks_asked(records: Seq<GameCultMediaReceiverFeedbackRecord>) -> nat
    decreases records.len(),
{
    if records.len() == 0 {
        0
    } else {
        chunks_asked(records.drop_last()) + records.last().missing_video_chunk_keys@.len()
    }
}

/// How many of some records ask for a keyframe.
pub open spec fn keyframes_asked(records: Seq<GameCultMediaReceiverFeedbackRecord>) -> nat
    decreases records.len(),
{
    if records.len() == 0 {
        0
    } else {
        keyframes_asked(records.drop_last()) + if records.last().requested_keyframe {
            1nat
        } else {
            0
        }
    }
}

/// When a keyframe was last asked for, once the first `n` of some records are
/// made: now, if one of them asks, and when it was before, if none does.
pub open spec fn last_asked(
    composer: ComposerState,
    now: Instant,
    records: Seq<GameCultMediaReceiverFeedbackRecord>,
    n: int,
) -> Option<Instant> {
    if exists|k: int| 0 <= k < n && (#[trigger] records[k]).requested_keyframe {
        Some(now)
    } else {
        composer.last_keyframe_request
    }
}

proof fn lemma_last_asked(
    composer: ComposerState,
    now: Instant,
    records: Seq<GameCultMediaReceiverFeedbackRecord>,
    n: int,
)
    requires
        0 <= n <= records.len(),
    ensures
        composer.said_all(records.take(n), now).last_keyframe_request == last_asked(
            composer,
            now,
            records,
            n,
        ),
    decreases n,
{
    if n > 0 {
        lemma_last_asked(composer, now, records, n - 1);
        assert(records.take(n).drop_last() =~= records.take(n - 1));
        let last = records[n - 1];
        assert(records.take(n).last() == last);
        if exists|k: int| 0 <= k < n - 1 && (#[trigger] records[k]).requested_keyframe {
            let k = choose|k: int| 0 <= k < n - 1 && (#[trigger] records[k]).requested_keyframe;
            assert(0 <= k < n && records[k].requested_keyframe);
        }
    }
}

/// The media contract is asked for a record of report `i` of an occasion: for
/// this receiver, with the highest frame and the time of the occasion, with
/// nothing measured that was not, and for a keyframe exactly if frames were lost
/// and none was asked for within the cooldown, by a record before this one or
/// earlier.
pub open spec fn puts(
    options: ReceiverFeedbackOptions,
    composer: ComposerState,
    occasion: Occasion,
    records: Seq<GameCultMediaReceiverFeedbackRecord>,
    i: int,
) -> bool {
    let last = last_asked(composer, occasion.now, records, i);
    let cooldown = composer.options.keyframe_request_cooldown.nanos;
    &&& options.stream_id@ == occasion.reports[i].session.stream_id
    &&& options.session_id@ == occasion.reports[i].session.session_id
    &&& options.receiver_id@ == composer.receiver_id
    &&& options.highest_decodable_frame_id == occasion.highest_decodable_frame_id
    &&& options.missing_frame_ids@.len() == 0
    &&& options.missing_video_chunk_keys@ == occasion.reports[i].missing
    &&& options.late_frame_ids@ == occasion.reports[i].late
    &&& options.requested_keyframe <==> occasion.reports[i].late.len() > 0 && (last is None
        || occasion.now.since(last->0) >= cooldown)
    &&& options.jitter_us == 0
    &&& options.decode_queue_us == 0
    &&& options.observed_at@ == occasion.observed_at
}

/// A composition that succeeds makes one record of each report, in order; each
/// is the media contract's answer to a draft of that report, for this receiver,
/// with the highest frame and the time of the occasion, and with nothing
/// measured that was not. Every chunk and every keyframe asked for is counted.
pub proof fn law_a_composition_answers_every_report<
    F: Fn(&ReceiverFeedbackOptions) -> Result<GameCultMediaReceiverFeedbackRecord, String>,
>(
    composer: ComposerState,
    occasion: Occasion,
    build: F,
    records: Vec<GameCultMediaReceiverFeedbackRecord>,
    next: ComposerState,
    i: int,
)
    requires
        composes(composer, occasion, build, Ok(records), next),
    ensures
        records@.len() == occasion.reports.len(),
        0 <= i < records@.len() ==> exists|options: ReceiverFeedbackOptions|
            {
                &&& #[trigger] call_ensures(build, (&options,), Ok(records@[i]))
                &&& puts(options, composer, occasion, records@, i)
            },
        composer.stats.chunks_requested + chunks_asked(records@) <= u64::MAX
            ==> next.stats.chunks_requested == composer.stats.chunks_requested + chunks_asked(
            records@,
        ),
        composer.stats.keyframes_requested + keyframes_asked(records@) <= u64::MAX
            ==> next.stats.keyframes_requested == composer.stats.keyframes_requested
            + keyframes_asked(records@),
        next.stats.sent == composer.stats.sent,
        next.stats.not_sent == composer.stats.not_sent,
        next.last_keyframe_request == last_asked(
            composer,
            occasion.now,
            records@,
            records@.len() as int,
        ),
        next.receiver_id == composer.receiver_id,
        next.options == composer.options,
{
    assert(records@.take(records@.len() as int) =~= records@);
    lemma_last_asked(composer, occasion.now, records@, records@.len() as int);
    lemma_said_all_counts(composer, records@, occasion.now);
    if 0 <= i < records@.len() {
        lemma_answered_for(build, composer, occasion, records@, i, Ok(records@[i]));
    }
}

proof fn lemma_said_all_counts(
    composer: ComposerState,
    records: Seq<GameCultMediaReceiverFeedbackRecord>,
    now: Instant,
)
    ensures
        ({
            let after = composer.said_all(records, now);
            &&& composer.stats.chunks_requested + chunks_asked(records) <= u64::MAX
                ==> after.stats.chunks_requested == composer.stats.chunks_requested + chunks_asked(
                records,
            )
            &&& composer.stats.keyframes_requested + keyframes_asked(records) <= u64::MAX
                ==> after.stats.keyframes_requested == composer.stats.keyframes_requested
                + keyframes_asked(records)
            &&& after.stats.sent == composer.stats.sent
            &&& after.stats.not_sent == composer.stats.not_sent
            &&& after.receiver_id == composer.receiver_id
            &&& after.options == composer.options
        }),
    decreases records.len(),
{
    if records.len() > 0 {
        lemma_said_all_counts(composer, records.drop_last(), now);
    }
}

/// The media contract may answer what it is asked of report `i` so.
pub open spec fn answered_for<
    F: Fn(&ReceiverFeedbackOptions) -> Result<GameCultMediaReceiverFeedbackRecord, String>,
>(
    build: F,
    composer: ComposerState,
    occasion: Occasion,
    records: Seq<GameCultMediaReceiverFeedbackRecord>,
    i: int,
    answer: Result<GameCultMediaReceiverFeedbackRecord, String>,
) -> bool {
    exists|options: ReceiverFeedbackOptions|
        {
            &&& #[trigger] call_ensures(build, (&options,), answer)
            &&& puts(options, composer, occasion, records, i)
        }
}

/// The records were made of the first reports, the report after them was refused,
/// and the composer has the records on record that were made.
pub open spec fn stopped_after<
    F: Fn(&ReceiverFeedbackOptions) -> Result<GameCultMediaReceiverFeedbackRecord, String>,
>(
    composer: ComposerState,
    occasion: Occasion,
    build: F,
    records: Seq<GameCultMediaReceiverFeedbackRecord>,
    reason: String,
    next: ComposerState,
) -> bool {
    let n = records.len() as int;
    &&& n < occasion.reports.len()
    &&& forall|i: int|
        0 <= i < n ==> answered_for(
            build,
            composer,
            occasion,
            records,
            i,
            Ok(#[trigger] records[i]),
        )
    &&& answered_for(build, composer, occasion, records, n, Err(reason))
    &&& next.last_keyframe_request == last_asked(composer, occasion.now, records, n)
    &&& composer.stats.chunks_requested + chunks_asked(records) <= u64::MAX
        ==> next.stats.chunks_requested == composer.stats.chunks_requested + chunks_asked(records)
    &&& composer.stats.keyframes_requested + keyframes_asked(records) <= u64::MAX
        ==> next.stats.keyframes_requested == composer.stats.keyframes_requested
        + keyframes_asked(records)
}

proof fn lemma_answered_for<
    F: Fn(&ReceiverFeedbackOptions) -> Result<GameCultMediaReceiverFeedbackRecord, String>,
>(
    build: F,
    composer: ComposerState,
    occasion: Occasion,
    records: Seq<GameCultMediaReceiverFeedbackRecord>,
    i: int,
    answer: Result<GameCultMediaReceiverFeedbackRecord, String>,
)
    requires
        0 <= i <= records.len(),
        answers(
            build,
            composer.said_all(records.take(i), occasion.now).draft(
                occasion.reports[i],
                occasion.highest_decodable_frame_id,
                occasion.now,
                occasion.observed_at,
            ),
            answer,
        ),
    ensures
        answered_for(build, composer, occasion, records, i, answer),
{
    lemma_said_all_counts(composer, records.take(i), occasion.now);
    lemma_last_asked(composer, occasion.now, records, i);
    let draft = composer.said_all(records.take(i), occasion.now).draft(
        occasion.reports[i],
        occasion.highest_decodable_frame_id,
        occasion.now,
        occasion.observed_at,
    );
    let options = choose|options: ReceiverFeedbackOptions|
        options@ == draft && #[trigger] call_ensures(build, (&options,), answer);
    assert(call_ensures(build, (&options,), answer));
    assert(puts(options, composer, occasion, records, i));
}

/// A composition fails only where the media contract refuses what it is asked of
/// a report, with the reason it gives. What was made of the reports before it
/// stays counted, and a keyframe asked for stays asked for.
pub proof fn law_a_composition_fails_only_if_refused<
    F: Fn(&ReceiverFeedbackOptions) -> Result<GameCultMediaReceiverFeedbackRecord, String>,
>(
    composer: ComposerState,
    occasion: Occasion,
    build: F,
    reason: String,
    next: ComposerState,
)
    requires
        composes(composer, occasion, build, Err(reason), next),
    ensures
        exists|records: Seq<GameCultMediaReceiverFeedbackRecord>| #[trigger]
            stopped_after(composer, occasion, build, records, reason, next),
        next.stats.sent == composer.stats.sent,
        next.stats.not_sent == composer.stats.not_sent,
        next.receiver_id == composer.receiver_id,
        next.options == composer.options,
{
    let records = choose|records: Seq<GameCultMediaReceiverFeedbackRecord>|
        {
            &&& records.len() < occasion.reports.len()
            &&& #[trigger] builds(composer, occasion, build, records)
            &&& answers(
                build,
                composer.said_all(records, occasion.now).draft(
                    occasion.reports[records.len() as int],
                    occasion.highest_decodable_frame_id,
                    occasion.now,
                    occasion.observed_at,
                ),
                Err(reason),
            )
            &&& next == composer.said_all(records, occasion.now)
        };
    let n = records.len() as int;
    assert(records.take(n) =~= records);
    lemma_said_all_counts(composer, records, occasion.now);
    lemma_last_asked(composer, occasion.now, records, n);
    assert forall|i: int| 0 <= i < n implies answered_for(
        build,
        composer,
        occasion,
        records,
        i,
        Ok(#[trigger] records[i]),
    ) by {
        lemma_answered_for(build, composer, occasion, records, i, Ok(records[i]));
    }
    lemma_answered_for(build, composer, occasion, records, n, Err(reason));
    assert(stopped_after(composer, occasion, build, records, reason, next));
}

} // verus!
