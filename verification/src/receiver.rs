//! The subscription: what arrived becomes media events, and what is owed to
//! the producer becomes feedback.
//!
//! There are no sequence numbers here, no acknowledgement state and no
//! retransmit timers: those are the transport's.

use crate::clock::Instant;
use crate::feedback;
use crate::feedback::{
    ComposerState, FeedbackComposer, FeedbackOptions, FeedbackStats, Occasion,
    ReceiverFeedbackOptions, Saying,
};
use crate::frame::{Frame, VideoFrame};
use crate::laws;
use crate::reassembly::{AssemblerState, Expired, Refusal, Repair};
use crate::records::{
    CultNetTransportFrame, GameCultMediaAudioPacketRecord, GameCultMediaReceiverFeedbackRecord,
    GameCultMediaVideoAccessUnitRecord, GameCultMediaVideoParityShardRecord,
    GameCultMediaWireRecord,
};
use crate::video;
use crate::video::{ExpiredFrame, VideoAssembler, VideoAssemblerOptions, VideoStats};
use crate::MEDIA_CHANNEL;
use vstd::prelude::*;

verus! {

#[derive(Clone, Debug)]
pub struct ReceiverOptions {
    /// Where to listen for the producer, as `host:port`.
    pub bind: String,
    /// Identifies this receiver to the producer and in logs.
    pub runtime_id: String,
    /// Must match the producer's media connection id.
    pub connection_id: u32,
    /// How incomplete video frames are waited for and given up on.
    pub video: VideoAssemblerOptions,
    /// How often a keyframe is asked for.
    pub feedback: FeedbackOptions,
}

/// What the renderer is given. Deliberately not the wire record: a renderer
/// should not have to know how a frame was chunked to present it.
#[derive(Clone, Debug, PartialEq, Eq)]
pub enum MediaEvent {
    /// A producer attached.
    ProducerAttached { remote: String },
    /// A whole video access unit, reassembled and, if needed, repaired.
    VideoFrame { frame: Box<VideoFrame> },
    /// An incomplete video frame was given up on. What it lacked is named so
    /// a receiver can tell the producer.
    VideoFrameExpired { frame: ExpiredFrame },
    /// An audio packet. Audio is not chunked on the wire, so this is the
    /// record as sent.
    Audio { record: Box<GameCultMediaAudioPacketRecord> },
    /// Feedback flows the other way; a producer echoing it here is unusual
    /// but not an error.
    Feedback { record: Box<GameCultMediaReceiverFeedbackRecord> },
    /// A media payload arrived but is not a media record this build understands.
    ///
    /// Surfaced rather than dropped: a consumer that silently discards what it
    /// cannot parse gives a producer no way to learn that its stream is
    /// unreadable, which is how a receiver and a sender drift apart.
    Undecodable { bytes: Vec<u8>, reason: String },
    /// A record decoded but contradicted the frame it belongs to.
    Rejected { reason: String },
    /// Feedback went to the producer.
    FeedbackSent { record: Box<GameCultMediaReceiverFeedbackRecord> },
    /// Feedback was owed and did not go out, usually because no producer is
    /// attached.
    FeedbackNotSent { reason: String },
    /// A producer detached, gracefully or otherwise.
    ProducerDetached { remote: String },
}

/// What a [`MediaEvent`] says.
#[verifier::ext_equal]
pub enum Event {
    ProducerAttached(Seq<char>),
    VideoFrame(Frame),
    VideoFrameExpired(Expired),
    Audio(GameCultMediaAudioPacketRecord),
    Feedback(GameCultMediaReceiverFeedbackRecord),
    Undecodable(Seq<u8>, Seq<char>),
    Rejected(Seq<char>),
    FeedbackSent(GameCultMediaReceiverFeedbackRecord),
    FeedbackNotSent(Seq<char>),
    ProducerDetached(Seq<char>),
}

impl View for MediaEvent {
    type V = Event;

    open spec fn view(&self) -> Event {
        match self {
            MediaEvent::ProducerAttached { remote } => Event::ProducerAttached(remote@),
            MediaEvent::VideoFrame { frame } => Event::VideoFrame((*frame)@),
            MediaEvent::VideoFrameExpired { frame } => Event::VideoFrameExpired(frame@),
            MediaEvent::Audio { record } => Event::Audio(**record),
            MediaEvent::Feedback { record } => Event::Feedback(**record),
            MediaEvent::Undecodable { bytes, reason } => Event::Undecodable(bytes@, reason@),
            MediaEvent::Rejected { reason } => Event::Rejected(reason@),
            MediaEvent::FeedbackSent { record } => Event::FeedbackSent(**record),
            MediaEvent::FeedbackNotSent { reason } => Event::FeedbackNotSent(reason@),
            MediaEvent::ProducerDetached { remote } => Event::ProducerDetached(remote@),
        }
    }
}

/// What the transport reports.
#[derive(Clone, Debug, PartialEq, Eq)]
pub enum TransportEvent {
    Connected { remote: String },
    Disconnected { remote: String },
    Frame { frame: CultNetTransportFrame },
    /// Of no interest to a receiver.
    Other,
}

/// A media payload the media contract could read, and whether it allows the
/// record. Only a video record can be disallowed.
#[derive(Debug, PartialEq, Eq)]
pub struct Decoded {
    pub record: GameCultMediaWireRecord,
    pub verdict: Result<(), String>,
}

impl Decoded {
    /// A video record that the media contract allows.
    pub open spec fn is_valid_video(self) -> bool {
        &&& self.record is Video || self.record is VideoParity
        &&& self.verdict is Ok
    }
}

/// The payload of a frame, if it is media. Frames on other channels belong to
/// other conversations, and an empty payload is not a delivery.
pub open spec fn is_media(frame: CultNetTransportFrame) -> bool {
    frame.channel_id@ == MEDIA_CHANNEL@ && frame.payload@.len() > 0
}

/// Frames on other channels belong to other conversations.
pub fn media_payload(frame: CultNetTransportFrame) -> (payload: Option<Vec<u8>>)
    ensures
        payload == (if is_media(frame) {
            Some(frame.payload)
        } else {
            None
        }),
        payload is Some <==> frame.channel_id@ == "media"@ && frame.payload@.len() > 0,
{
    if frame.channel_id == MEDIA_CHANNEL.to_owned() && frame.payload.len() > 0 {
        Some(frame.payload)
    } else {
        None
    }
}

/// A receiver, as a value.
#[verifier::ext_equal]
pub struct ReceiverState {
    pub video: AssemblerState,
    pub feedback: ComposerState,
    pub payloads: u64,
    pub payload_bytes: u64,
    pub undecodable: u64,
    pub rejected: u64,
    /// The highest number of a frame handed to the renderer.
    pub highest: Option<u64>,
}

/// The higher of a frame number and what was highest so far.
pub open spec fn higher(highest: Option<u64>, frame_id: u64) -> Option<u64> {
    match highest {
        Some(known) => if known < frame_id {
            Some(frame_id)
        } else {
            highest
        },
        None => Some(frame_id),
    }
}

impl ReceiverState {
    /// A receiver that nothing has reached yet.
    pub open spec fn initial(options: ReceiverOptions) -> ReceiverState {
        ReceiverState {
            video: AssemblerState::initial(options.video),
            feedback: ComposerState::initial(options.runtime_id@, options.feedback),
            payloads: 0,
            payload_bytes: 0,
            undecodable: 0,
            rejected: 0,
            highest: None,
        }
    }

    /// What reassembly made of a video record becomes of the receiver.
    pub open spec fn assembled(
        self,
        video: AssemblerState,
        result: Result<Option<Frame>, Refusal>,
    ) -> (ReceiverState, Option<Event>) {
        match result {
            Ok(Some(frame)) => (
                ReceiverState {
                    video,
                    highest: higher(self.highest, frame.id.frame_id),
                    ..self
                },
                Some(Event::VideoFrame(frame)),
            ),
            Ok(None) => (ReceiverState { video, ..self }, None),
            Err(refusal) => (
                ReceiverState { video, rejected: self.rejected.wrapping_add(1), ..self },
                Some(Event::Rejected(video::refusal_text(refusal))),
            ),
        }
    }

    /// A record arrives. Video goes to reassembly; audio and feedback pass
    /// through as sent.
    pub open spec fn admitted(self, decoded: Decoded, now: Instant) -> (
        ReceiverState,
        Option<Event>,
    ) {
        match decoded.record {
            GameCultMediaWireRecord::Video(record) => {
                let (video, result) = self.video.insert_chunk(
                    record@,
                    video::verdict_of(decoded.verdict),
                    now,
                );
                self.assembled(video, result)
            },
            GameCultMediaWireRecord::VideoParity(record) => {
                let (video, result) = self.video.insert_parity(
                    record@,
                    video::verdict_of(decoded.verdict),
                    now,
                );
                self.assembled(video, result)
            },
            GameCultMediaWireRecord::Audio(record) => (self, Some(Event::Audio(record))),
            GameCultMediaWireRecord::Feedback(record) => (self, Some(Event::Feedback(record))),
        }
    }

    /// A media payload arrives and is counted, whether or not it decodes.
    pub open spec fn delivered(self, bytes: nat) -> ReceiverState {
        ReceiverState {
            payloads: self.payloads.wrapping_add(1),
            payload_bytes: self.payload_bytes.wrapping_add(bytes as u64),
            ..self
        }
    }

    /// The transport reports something. `outcome` is what decoding the payload
    /// gave, if it is media.
    pub open spec fn received(
        self,
        event: TransportEvent,
        outcome: Result<Decoded, String>,
        now: Instant,
    ) -> (ReceiverState, Option<Event>) {
        match event {
            TransportEvent::Connected { remote } => (self, Some(Event::ProducerAttached(remote@))),
            TransportEvent::Disconnected { remote } => (
                self,
                Some(Event::ProducerDetached(remote@)),
            ),
            TransportEvent::Frame { frame } => if is_media(frame) {
                let counted = self.delivered(frame.payload@.len());
                match outcome {
                    Ok(decoded) => counted.admitted(decoded, now),
                    Err(reason) => (
                        ReceiverState {
                            undecodable: counted.undecodable.wrapping_add(1),
                            ..counted
                        },
                        Some(Event::Undecodable(frame.payload@, reason@)),
                    ),
                }
            } else {
                (self, None)
            },
            TransportEvent::Other => (self, None),
        }
    }

    /// The transport reports one thing after the other; what comes of it, in
    /// order.
    pub open spec fn drained(
        self,
        events: Seq<TransportEvent>,
        outcomes: Seq<Result<Decoded, String>>,
        now: Instant,
    ) -> (ReceiverState, Seq<Event>)
        decreases events.len(),
    {
        if events.len() == 0 {
            (self, Seq::empty())
        } else {
            let (before, media) = self.drained(events.drop_last(), outcomes.drop_last(), now);
            let (after, event) = before.received(events.last(), outcomes.last(), now);
            (after, with_event(media, event))
        }
    }

    /// A feedback record was handed to the transport.
    pub open spec fn fed_back(
        self,
        record: GameCultMediaReceiverFeedbackRecord,
        sent: Result<(), String>,
    ) -> (ReceiverState, Event) {
        match sent {
            Ok(_) => (
                ReceiverState { feedback: self.feedback.sent(), ..self },
                Event::FeedbackSent(record),
            ),
            Err(reason) => (
                ReceiverState { feedback: self.feedback.not_sent(), ..self },
                Event::FeedbackNotSent(reason@),
            ),
        }
    }
}

/// One more event, if there is one.
pub open spec fn with_event(media: Seq<Event>, event: Option<Event>) -> Seq<Event> {
    match event {
        Some(event) => media.push(event),
        None => media,
    }
}

/// The event, if there is one, as a value.
pub open spec fn event_of(event: Option<MediaEvent>) -> Option<Event> {
    match event {
        Some(event) => Some(event@),
        None => None,
    }
}

/// The views of media events.
pub open spec fn events_of(events: Seq<MediaEvent>) -> Seq<Event> {
    events.map_values(|event: MediaEvent| event@)
}

/// The media payload the transport reports, if any.
pub open spec fn media_in(event: TransportEvent) -> Option<Vec<u8>> {
    match event {
        TransportEvent::Frame { frame } => if is_media(frame) {
            Some(frame.payload)
        } else {
            None
        },
        _ => None,
    }
}

/// The outcomes are what `decode` gave for the media payloads among what the
/// transport reported.
pub open spec fn decodes<D: Fn(&Vec<u8>) -> Result<Decoded, String>>(
    decode: D,
    events: Seq<TransportEvent>,
    outcomes: Seq<Result<Decoded, String>>,
) -> bool {
    &&& outcomes.len() == events.len()
    &&& forall|i: int|
        0 <= i < events.len() ==> {
            media_in(#[trigger] events[i]) matches Some(payload) ==> call_ensures(
                decode,
                (&payload,),
                outcomes[i],
            )
        }
}

/// What a poll hands back.
#[derive(Clone, Debug, PartialEq, Eq)]
pub struct Polled {
    /// What happened, in order.
    pub events: Vec<MediaEvent>,
    /// What is to be sent to the producer, in order.
    pub feedback: Vec<GameCultMediaReceiverFeedbackRecord>,
}

/// What came up at the end of a poll.
pub struct Closing {
    /// The frames given up on for their age.
    pub gone: Seq<Expired>,
    /// Reassembly without them.
    pub aged: AssemblerState,
    /// The chunks asked for again.
    pub asks: Seq<Repair>,
    /// What each session has to say.
    pub reports: Seq<Saying>,
    /// What composing feedback came to.
    pub composed: Result<Vec<GameCultMediaReceiverFeedbackRecord>, String>,
    /// The composer after it.
    pub composer: ComposerState,
}

/// Once the transport is drained, frames that are too old are given up on, the
/// chunks of those that still wait are asked for when it is their turn, and
/// feedback is composed of both. Frames evicted since the last poll and frames
/// given up on now become events, in that order. Feedback that could not be
/// composed is reported as not sent.
pub open spec fn closes<
    F: Fn(&ReceiverFeedbackOptions) -> Result<GameCultMediaReceiverFeedbackRecord, String>,
>(
    receiver: ReceiverState,
    media: Seq<Event>,
    now: Instant,
    observed_at: Seq<char>,
    build: F,
    closing: Closing,
    polled: Polled,
    next: ReceiverState,
) -> bool {
    let lost = receiver.video.evicted + closing.gone;
    let events = media + lost.map_values(|frame: Expired| Event::VideoFrameExpired(frame));
    &&& (AssemblerState { evicted: Seq::empty(), ..receiver.video }).expires(
        now,
        closing.gone,
        closing.aged,
    )
    &&& closing.aged.asks_for(now, closing.asks, next.video)
    &&& feedback::digests(closing.reports, closing.asks, lost)
    &&& feedback::composes(
        receiver.feedback,
        Occasion {
            reports: closing.reports,
            highest_decodable_frame_id: receiver.highest,
            now,
            observed_at,
        },
        build,
        closing.composed,
        closing.composer,
    )
    &&& match closing.composed {
        Ok(records) => {
            &&& events_of(polled.events@) == events
            &&& polled.feedback@ == records@
            &&& next == ReceiverState {
                video: next.video,
                feedback: closing.composer,
                ..receiver
            }
        },
        Err(reason) => {
            &&& events_of(polled.events@) == events.push(Event::FeedbackNotSent(reason@))
            &&& polled.feedback@.len() == 0
            &&& next == ReceiverState {
                video: next.video,
                feedback: closing.composer.not_sent(),
                ..receiver
            }
        },
    }
}

/// What a poll comes to: once all that the transport reported is taken in, the
/// error draining it ended with, or what is owed seen to.
pub open spec fn polls<
    F: Fn(&ReceiverFeedbackOptions) -> Result<GameCultMediaReceiverFeedbackRecord, String>,
>(
    drained: ReceiverState,
    media: Seq<Event>,
    end: Result<(), String>,
    now: Instant,
    observed_at: Seq<char>,
    build: F,
    result: Result<Polled, String>,
    next: ReceiverState,
) -> bool {
    match end {
        Ok(_) => match result {
            Ok(polled) => exists|closing: Closing| #[trigger]
                closes(drained, media, now, observed_at, build, closing, polled, next),
            Err(_) => false,
        },
        Err(reason) => result == Err::<Polled, String>(reason) && next == drained,
    }
}

/// A poll whose draining ended with nothing left comes to what closes it.
proof fn lemma_polls<
    F: Fn(&ReceiverFeedbackOptions) -> Result<GameCultMediaReceiverFeedbackRecord, String>,
>(
    drained: ReceiverState,
    media: Seq<Event>,
    now: Instant,
    observed_at: Seq<char>,
    build: F,
    polled: Polled,
    next: ReceiverState,
)
    requires
        exists|closing: Closing| #[trigger]
            closes(drained, media, now, observed_at, build, closing, polled, next),
    ensures
        polls(drained, media, Ok(()), now, observed_at, build, Ok(polled), next),
{
    let result: Result<Polled, String> = Ok(polled);
    let closing = choose|closing: Closing| #[trigger]
        closes(drained, media, now, observed_at, build, closing, polled, next);
    assert(closes(drained, media, now, observed_at, build, closing, result->Ok_0, next));
}

/// Receives one producer's media.
pub struct RatatoskrReceiver {
    video: VideoAssembler,
    feedback: FeedbackComposer,
    payloads: u64,
    payload_bytes: u64,
    undecodable: u64,
    rejected: u64,
    highest: Option<u64>,
}

impl View for RatatoskrReceiver {
    type V = ReceiverState;

    closed spec fn view(&self) -> ReceiverState {
        ReceiverState {
            video: self.video@,
            feedback: self.feedback@,
            payloads: self.payloads,
            payload_bytes: self.payload_bytes,
            undecodable: self.undecodable,
            rejected: self.rejected,
            highest: self.highest,
        }
    }
}

impl RatatoskrReceiver {
    /// Reassembly is in good order.
    pub closed spec fn wf(&self) -> bool {
        self.video.wf()
    }

    /// A receiver in good order stands for valid reassembly.
    pub broadcast proof fn lemma_wf_is_valid(&self)
        ensures
            #[trigger] self.wf() ==> self@.video.valid(),
    {
        self.video.lemma_wf_is_valid();
    }

    /// A receiver that nothing has reached yet. The socket is the caller's.
    pub fn open(options: ReceiverOptions) -> (receiver: Self)
        ensures
            receiver.wf(),
            receiver@ == ReceiverState::initial(options),
    {
        RatatoskrReceiver {
            video: VideoAssembler::new(options.video),
            feedback: FeedbackComposer::new(options.runtime_id, options.feedback),
            payloads: 0,
            payload_bytes: 0,
            undecodable: 0,
            rejected: 0,
            highest: None,
        }
    }

    /// Takes in one record. Returns what came of it, if anything.
    #[verifier::spinoff_prover]
    pub fn admit_record(&mut self, decoded: Decoded, now: Instant) -> (event: Option<MediaEvent>)
        requires
            old(self).wf(),
            decoded.is_valid_video() ==> old(self)@.video.options.max_pending_frames > 0,
        ensures
            final(self).wf(),
            ({
                let (next, said) = old(self)@.admitted(decoded, now);
                &&& final(self)@ == next
                &&& event_of(event) == said
            }),
            final(self)@.video.options == old(self)@.video.options,
    {
        let verdict = decoded.verdict;
        let assembled = match decoded.record {
            GameCultMediaWireRecord::Video(record) => self.video.insert_chunk(
                record,
                verdict,
                now,
            ),
            GameCultMediaWireRecord::VideoParity(record) => self.video.insert_parity(
                record,
                verdict,
                now,
            ),
            GameCultMediaWireRecord::Audio(record) => {
                return Some(MediaEvent::Audio { record: Box::new(record) });
            },
            GameCultMediaWireRecord::Feedback(record) => {
                return Some(MediaEvent::Feedback { record: Box::new(record) });
            },
        };
        match assembled {
            Ok(Some(frame)) => {
                self.note_delivery(frame.frame_id);
                Some(MediaEvent::VideoFrame { frame: Box::new(frame) })
            },
            Ok(None) => None,
            Err(error) => {
                self.rejected = self.rejected.wrapping_add(1);
                Some(MediaEvent::Rejected { reason: error.message() })
            },
        }
    }

    /// Takes in one media payload: it is counted, and what decoding it gave is
    /// taken in or reported.
    pub fn take_in(
        &mut self,
        payload: Vec<u8>,
        outcome: Result<Decoded, String>,
        now: Instant,
    ) -> (event: Option<MediaEvent>)
        requires
            old(self).wf(),
            outcome matches Ok(decoded) ==> decoded.is_valid_video()
                ==> old(self)@.video.options.max_pending_frames > 0,
        ensures
            final(self).wf(),
            final(self)@.video.options == old(self)@.video.options,
            ({
                let counted = old(self)@.delivered(payload@.len());
                match outcome {
                    Ok(decoded) => {
                        let (next, said) = counted.admitted(decoded, now);
                        final(self)@ == next && event_of(event) == said
                    },
                    Err(reason) => {
                        &&& final(self)@ == (ReceiverState {
                            undecodable: counted.undecodable.wrapping_add(1),
                            ..counted
                        })
                        &&& event_of(event) == Some(Event::Undecodable(payload@, reason@))
                    },
                }
            }),
    {
        self.payloads = self.payloads.wrapping_add(1);
        self.payload_bytes = self.payload_bytes.wrapping_add(payload.len() as u64);
        match outcome {
            Ok(decoded) => self.admit_record(decoded, now),
            Err(reason) => {
                self.undecodable = self.undecodable.wrapping_add(1);
                Some(MediaEvent::Undecodable { bytes: payload, reason })
            },
        }
    }

    /// Takes in what the transport has reported since the last poll, and sees
    /// to what is owed: frames too old are given up on, chunks still missing
    /// are asked for, and feedback is composed. Never blocks; a caller drives
    /// this from its own loop so the renderer keeps its own cadence.
    ///
    /// `end` is how draining the transport ended: with nothing left, or with an
    /// error, which is handed back once what came before it is taken in.
    /// `decode` and `build` are the media contract's.
    pub fn poll<
        D: Fn(&Vec<u8>) -> Result<Decoded, String>,
        F: Fn(&ReceiverFeedbackOptions) -> Result<GameCultMediaReceiverFeedbackRecord, String>,
    >(
        &mut self,
        reported: Vec<TransportEvent>,
        end: Result<(), String>,
        now: Instant,
        observed_at: &str,
        decode: D,
        build: F,
    ) -> (result: Result<Polled, String>)
        requires
            old(self).wf(),
            forall|payload: Vec<u8>| #[trigger] call_requires(decode, (&payload,)),
            forall|payload: Vec<u8>, decoded: Decoded| #[trigger]
                call_ensures(decode, (&payload,), Ok(decoded)) && decoded.is_valid_video()
                    ==> old(self)@.video.options.max_pending_frames > 0,
            forall|options: ReceiverFeedbackOptions| #[trigger] call_requires(build, (&options,)),
        ensures
            final(self).wf(),
            final(self)@.video.options == old(self)@.video.options,
            exists|outcomes: Seq<Result<Decoded, String>>|
                {
                    &&& #[trigger] decodes(decode, reported@, outcomes)
                    &&& polls(
                        old(self)@.drained(reported@, outcomes, now).0,
                        old(self)@.drained(reported@, outcomes, now).1,
                        end,
                        now,
                        observed_at@,
                        build,
                        result,
                        final(self)@,
                    )
                },
    {
        let (events, Ghost(outcomes)) = self.drain(reported, now, decode);
        let ghost drained = self@;
        let ghost media = events_of(events@);
        assert(old(self)@.drained(reported@, outcomes, now) == (drained, media));
        match end {
            Ok(done) => {
                let polled = self.close(events, now, observed_at, build);
                proof {
                    assert(end == Ok::<(), String>(done));
                    lemma_polls(drained, media, now, observed_at@, build, polled, self@);
                }
                Ok(polled)
            },
            Err(reason) => Err(reason),
        }
    }

    /// Takes in what the transport reported, in order.
    fn drain<D: Fn(&Vec<u8>) -> Result<Decoded, String>>(
        &mut self,
        reported: Vec<TransportEvent>,
        now: Instant,
        decode: D,
    ) -> (drained: (Vec<MediaEvent>, Ghost<Seq<Result<Decoded, String>>>))
        requires
            old(self).wf(),
            forall|payload: Vec<u8>| #[trigger] call_requires(decode, (&payload,)),
            forall|payload: Vec<u8>, decoded: Decoded| #[trigger]
                call_ensures(decode, (&payload,), Ok(decoded)) && decoded.is_valid_video()
                    ==> old(self)@.video.options.max_pending_frames > 0,
        ensures
            final(self).wf(),
            final(self)@.video.options == old(self)@.video.options,
            decodes(decode, reported@, drained.1@),
            final(self)@ == old(self)@.drained(reported@, drained.1@, now).0,
            events_of(drained.0@) == old(self)@.drained(reported@, drained.1@, now).1,
    {
        let ghost all = reported@;
        let ghost start = self@;
        let ghost mut outcomes: Seq<Result<Decoded, String>> = Seq::empty();
        let mut events: Vec<MediaEvent> = Vec::new();
        assert(events_of(events@) =~= Seq::empty());
        assert(all.take(0) =~= Seq::empty());
        for event in it: reported.into_iter()
            invariant
                it.seq() == all,
                start == old(self)@,
                self.wf(),
                self@.video.options == start.video.options,
                outcomes.len() == it.index(),
                decodes(decode, all.take(it.index()), outcomes),
                self@ == start.drained(all.take(it.index()), outcomes, now).0,
                events_of(events@) == start.drained(all.take(it.index()), outcomes, now).1,
                forall|payload: Vec<u8>| #[trigger] call_requires(decode, (&payload,)),
                forall|payload: Vec<u8>, decoded: Decoded| #[trigger]
                    call_ensures(decode, (&payload,), Ok(decoded)) && decoded.is_valid_video()
                        ==> start.video.options.max_pending_frames > 0,
        {
            let ghost n = it.index();
            let ghost before = self@;
            let ghost media = events_of(events@);
            let ghost mut answer: Result<Decoded, String> = arbitrary();
            let ghost reported_now = event;
            let said = match event {
                TransportEvent::Connected { remote } => Some(
                    MediaEvent::ProducerAttached { remote },
                ),
                TransportEvent::Disconnected { remote } => Some(
                    MediaEvent::ProducerDetached { remote },
                ),
                TransportEvent::Frame { frame } => {
                    match media_payload(frame) {
                        Some(payload) => {
                            let outcome = decode(&payload);
                            proof {
                                answer = outcome;
                            }
                            self.take_in(payload, outcome, now)
                        },
                        None => None,
                    }
                },
                TransportEvent::Other => None,
            };
            let ghost words = event_of(said);
            match said {
                Some(said) => events.push(said),
                None => {},
            }
            proof {
                let known = outcomes;
                outcomes = outcomes.push(answer);
                let here = all.take(n + 1);
                assert(here.drop_last() =~= all.take(n));
                assert(here.last() == reported_now);
                assert(outcomes.drop_last() =~= known);
                assert(events_of(events@) =~= with_event(media, words));
                assert(before.received(reported_now, answer, now) == (self@, words));
                assert(decodes(decode, here, outcomes)) by {
                    assert forall|i: int| 0 <= i < here.len() implies {
                        media_in(#[trigger] here[i]) matches Some(payload) ==> call_ensures(
                            decode,
                            (&payload,),
                            outcomes[i],
                        )
                    } by {
                        if i < n {
                            assert(all.take(n)[i] == here[i]);
                        }
                    }
                }
            }
        }
        assert(all.take(all.len() as int) =~= all);
        (events, Ghost(outcomes))
    }

    /// Sees to what is owed once the transport is drained.
    #[verifier::spinoff_prover]
    fn close<
        F: Fn(&ReceiverFeedbackOptions) -> Result<GameCultMediaReceiverFeedbackRecord, String>,
    >(
        &mut self,
        events: Vec<MediaEvent>,
        now: Instant,
        observed_at: &str,
        build: F,
    ) -> (polled: Polled)
        requires
            old(self).wf(),
            forall|options: ReceiverFeedbackOptions| #[trigger] call_requires(build, (&options,)),
        ensures
            final(self).wf(),
            final(self)@.video.options == old(self)@.video.options,
            exists|closing: Closing| #[trigger]
                closes(
                    old(self)@,
                    events_of(events@),
                    now,
                    observed_at@,
                    build,
                    closing,
                    polled,
                    final(self)@,
                ),
    {
        let ghost start = self@;
        let ghost media = events_of(events@);
        let mut events = events;
        let mut lost = self.video.take_evicted();
        let mut expired = self.video.expire(now);
        let ghost gone = feedback::expired_of(expired@);
        let ghost aged = self.video@;
        lost.append(&mut expired);
        let repairs = self.video.repair_requests(now);
        let ghost asks = feedback::repairs_of(repairs@);
        let composed = self.feedback.compose(
            repairs.as_slice(),
            lost.as_slice(),
            self.highest,
            now,
            observed_at,
            build,
        );
        let ghost composer = self.feedback@;
        proof {
            assert(feedback::expired_of(lost@) =~= start.video.evicted + gone);
        }
        let ghost reports = choose|reports: Seq<Saying>|
            {
                &&& #[trigger] feedback::digests(reports, asks, feedback::expired_of(lost@))
                &&& feedback::composes(
                    start.feedback,
                    Occasion {
                        reports,
                        highest_decodable_frame_id: start.highest,
                        now,
                        observed_at: observed_at@,
                    },
                    build,
                    composed,
                    composer,
                )
            };
        let ghost closing = Closing { gone, aged, asks, reports, composed, composer };
        append_expired(&mut events, lost);
        match composed {
            Ok(feedback) => {
                let polled = Polled { events, feedback };
                assert(closes(
                    start,
                    media,
                    now,
                    observed_at@,
                    build,
                    closing,
                    polled,
                    self@,
                ));
                polled
            },
            Err(reason) => {
                self.feedback.record_not_sent();
                let ghost told = events_of(events@);
                events.push(MediaEvent::FeedbackNotSent { reason });
                assert(events_of(events@) =~= told.push(Event::FeedbackNotSent(reason@)));
                let polled = Polled { events, feedback: Vec::new() };
                assert(closes(
                    start,
                    media,
                    now,
                    observed_at@,
                    build,
                    closing,
                    polled,
                    self@,
                ));
                polled
            },
        }
    }

    /// Takes note of what became of a feedback record the transport was handed.
    pub fn feedback_handed_over(
        &mut self,
        record: GameCultMediaReceiverFeedbackRecord,
        sent: Result<(), String>,
    ) -> (event: MediaEvent)
        requires
            old(self).wf(),
        ensures
            final(self).wf(),
            final(self)@ == old(self)@.fed_back(record, sent).0,
            event@ == old(self)@.fed_back(record, sent).1,
    {
        match sent {
            Ok(_) => {
                self.feedback.record_sent();
                MediaEvent::FeedbackSent { record: Box::new(record) }
            },
            Err(reason) => {
                self.feedback.record_not_sent();
                MediaEvent::FeedbackNotSent { reason }
            },
        }
    }

    /// Payloads admitted and their total size. Counted from what was actually
    /// delivered, never from what was requested.
    pub fn delivered(&self) -> (counts: (u64, u64))
        ensures
            counts == (self@.payloads, self@.payload_bytes),
    {
        (self.payloads, self.payload_bytes)
    }

    /// Payloads that arrived on the media channel and did not decode. A
    /// non-zero count here means the producer and this build disagree about the
    /// envelope, which is worth knowing loudly.
    pub fn undecodable(&self) -> (count: u64)
        ensures
            count == self@.undecodable,
    {
        self.undecodable
    }

    /// Records that decoded but contradicted their frame.
    pub fn rejected(&self) -> (count: u64)
        ensures
            count == self@.rejected,
    {
        self.rejected
    }

    /// What became of the video frames: completed, repaired, given up on.
    pub fn video_stats(&self) -> (stats: VideoStats)
        ensures
            stats == self@.video.stats,
    {
        self.video.stats()
    }

    /// What was said back to the producer.
    pub fn feedback_stats(&self) -> (stats: FeedbackStats)
        ensures
            stats == self@.feedback.stats,
    {
        self.feedback.stats()
    }

    fn note_delivery(&mut self, frame_id: u64)
        ensures
            final(self).wf() == old(self).wf(),
            final(self)@ == (ReceiverState {
                highest: higher(old(self)@.highest, frame_id),
                ..old(self)@
            }),
    {
        let newest = match self.highest {
            Some(known) => known < frame_id,
            None => true,
        };
        if newest {
            self.highest = Some(frame_id);
        }
    }
}

fn append_expired(events: &mut Vec<MediaEvent>, frames: Vec<ExpiredFrame>)
    ensures
        events_of(final(events)@) == events_of(old(events)@) + feedback::expired_of(
            frames@,
        ).map_values(|frame: Expired| Event::VideoFrameExpired(frame)),
{
    let ghost before = events_of(events@);
    let ghost all = frames@;
    let ghost told = feedback::expired_of(all).map_values(
        |frame: Expired| Event::VideoFrameExpired(frame),
    );
    assert(before + told.take(0) =~= before);
    for frame in it: frames.into_iter()
        invariant
            it.seq() == all,
            told == feedback::expired_of(all).map_values(
                |frame: Expired| Event::VideoFrameExpired(frame),
            ),
            events_of(events@) == before + told.take(it.index()),
    {
        let ghost so_far = events_of(events@);
        let ghost n = it.index();
        events.push(MediaEvent::VideoFrameExpired { frame });
        proof {
            assert(events_of(events@) =~= so_far.push(told[n]));
            assert((before + told.take(n)).push(told[n]) =~= before + told.take(n + 1));
        }
    }
    assert(told.take(told.len() as int) =~= told);
}

/// How many media payloads the transport reported.
pub open spec fn payloads_in(events: Seq<TransportEvent>) -> nat
    decreases events.len(),
{
    if events.len() == 0 {
        0
    } else {
        payloads_in(events.drop_last()) + if media_in(events.last()) is Some {
            1nat
        } else {
            0
        }
    }
}

/// How many bytes of media payloads the transport reported.
pub open spec fn bytes_in(events: Seq<TransportEvent>) -> nat
    decreases events.len(),
{
    if events.len() == 0 {
        0
    } else {
        bytes_in(events.drop_last()) + match media_in(events.last()) {
            Some(payload) => payload@.len(),
            None => 0,
        }
    }
}

/// What is delivered is counted from what arrived: payloads and bytes go up by
/// exactly what the transport reported on the media channel.
pub proof fn law_delivered_counts_what_arrived(
    receiver: ReceiverState,
    events: Seq<TransportEvent>,
    outcomes: Seq<Result<Decoded, String>>,
    now: Instant,
)
    requires
        outcomes.len() == events.len(),
        receiver.payloads + payloads_in(events) <= u64::MAX,
        receiver.payload_bytes + bytes_in(events) <= u64::MAX,
    ensures
        receiver.drained(events, outcomes, now).0.payloads == receiver.payloads + payloads_in(
            events,
        ),
        receiver.drained(events, outcomes, now).0.payload_bytes == receiver.payload_bytes
            + bytes_in(events),
    decreases events.len(),
{
    if events.len() > 0 {
        law_delivered_counts_what_arrived(receiver, events.drop_last(), outcomes.drop_last(), now);
    }
}

/// Nothing on the media channel is dropped in silence: a payload that does not
/// decode becomes an event that carries its bytes and the reason.
pub proof fn law_undecodable_payloads_are_surfaced(
    receiver: ReceiverState,
    events: Seq<TransportEvent>,
    outcomes: Seq<Result<Decoded, String>>,
    now: Instant,
    i: int,
)
    requires
        outcomes.len() == events.len(),
        0 <= i < events.len(),
        media_in(events[i]) is Some,
        outcomes[i] is Err,
    ensures
        receiver.drained(events, outcomes, now).1.contains(
            Event::Undecodable(media_in(events[i])->0@, outcomes[i]->Err_0@),
        ),
    decreases events.len(),
{
    let lost = Event::Undecodable(media_in(events[i])->0@, outcomes[i]->Err_0@);
    let (before, media) = receiver.drained(events.drop_last(), outcomes.drop_last(), now);
    let all = receiver.drained(events, outcomes, now).1;
    if i == events.len() - 1 {
        assert(all[media.len() as int] == lost);
    } else {
        law_undecodable_payloads_are_surfaced(
            receiver,
            events.drop_last(),
            outcomes.drop_last(),
            now,
            i,
        );
        let k = choose|k: int| 0 <= k < media.len() && media[k] == lost;
        assert(all[k] == lost);
    }
}

/// How many of the media payloads did not decode.
pub open spec fn failures_in(
    events: Seq<TransportEvent>,
    outcomes: Seq<Result<Decoded, String>>,
) -> nat
    decreases events.len(),
{
    if events.len() == 0 {
        0
    } else {
        failures_in(events.drop_last(), outcomes.drop_last()) + if media_in(events.last()) is Some
            && outcomes.last() is Err {
            1nat
        } else {
            0
        }
    }
}

/// Payloads that do not decode are counted, each once.
pub proof fn law_undecodable_payloads_are_counted(
    receiver: ReceiverState,
    events: Seq<TransportEvent>,
    outcomes: Seq<Result<Decoded, String>>,
    now: Instant,
)
    requires
        outcomes.len() == events.len(),
        receiver.undecodable + failures_in(events, outcomes) <= u64::MAX,
    ensures
        receiver.drained(events, outcomes, now).0.undecodable == receiver.undecodable
            + failures_in(events, outcomes),
    decreases events.len(),
{
    if events.len() > 0 {
        law_undecodable_payloads_are_counted(
            receiver,
            events.drop_last(),
            outcomes.drop_last(),
            now,
        );
    }
}

/// Audio passes through as sent.
pub proof fn law_audio_passes_through(
    receiver: ReceiverState,
    record: GameCultMediaAudioPacketRecord,
    verdict: Result<(), String>,
    now: Instant,
)
    ensures
        receiver.admitted(
            Decoded { record: GameCultMediaWireRecord::Audio(record), verdict },
            now,
        ) == (receiver, Some(Event::Audio(record))),
{
}

/// Frames on other channels, and empty ones, leave the receiver as it was and
/// are no event.
pub proof fn law_other_channels_are_not_media(
    receiver: ReceiverState,
    frame: CultNetTransportFrame,
    outcome: Result<Decoded, String>,
    now: Instant,
)
    requires
        frame.channel_id@ != MEDIA_CHANNEL@ || frame.payload@.len() == 0,
    ensures
        receiver.received(TransportEvent::Frame { frame }, outcome, now) == (
            receiver,
            None::<Event>,
        ),
{
}

/// The number of the frame the event hands the renderer, if it does.
pub open spec fn handed_on(event: Event) -> Option<u64> {
    match event {
        Event::VideoFrame(frame) => Some(frame.id.frame_id),
        _ => None,
    }
}

/// What feedback calls the highest decodable frame is the newest one handed to
/// the renderer: no frame handed on since is newer, and it was handed on now or
/// had been before.
pub proof fn law_highest_is_the_newest_frame_delivered(
    receiver: ReceiverState,
    events: Seq<TransportEvent>,
    outcomes: Seq<Result<Decoded, String>>,
    now: Instant,
)
    requires
        outcomes.len() == events.len(),
    ensures
        ({
            let (after, media) = receiver.drained(events, outcomes, now);
            &&& forall|i: int|
                0 <= i < media.len() && handed_on(#[trigger] media[i]) is Some ==> {
                    &&& after.highest is Some
                    &&& handed_on(media[i])->0 <= after.highest->0
                }
            &&& receiver.highest is Some ==> {
                &&& after.highest is Some
                &&& receiver.highest->0 <= after.highest->0
            }
            &&& after.highest != receiver.highest ==> after.highest is Some && exists|i: int|
                0 <= i < media.len() && handed_on(#[trigger] media[i]) == after.highest
        }),
    decreases events.len(),
{
    if events.len() > 0 {
        law_highest_is_the_newest_frame_delivered(
            receiver,
            events.drop_last(),
            outcomes.drop_last(),
            now,
        );
        let (before, media) = receiver.drained(events.drop_last(), outcomes.drop_last(), now);
        let (after, all) = receiver.drained(events, outcomes, now);
        let (_, event) = before.received(events.last(), outcomes.last(), now);
        assert(all == with_event(media, event));
        assert forall|i: int| 0 <= i < all.len() && handed_on(#[trigger] all[i]) is Some implies {
            &&& after.highest is Some
            &&& handed_on(all[i])->0 <= after.highest->0
        } by {
            if i < media.len() {
                assert(all[i] == media[i]);
            }
        }
        if after.highest != receiver.highest {
            if after.highest == before.highest {
                let i = choose|i: int|
                    0 <= i < media.len() && handed_on(#[trigger] media[i]) == before.highest;
                assert(all[i] == media[i]);
            } else {
                assert(handed_on(all[media.len() as int]) == after.highest);
            }
        }
    }
}

/// The event hands the renderer a frame that is no keyframe.
pub open spec fn hands_on_a_dependent_frame(event: Event) -> bool {
    match event {
        Event::VideoFrame(frame) => !frame.keyframe,
        _ => false,
    }
}

/// After a loss nothing reaches the renderer until the next keyframe: the
/// first frame handed on while waiting for one is one.
pub proof fn law_a_keyframe_comes_first_after_a_loss(
    receiver: ReceiverState,
    events: Seq<TransportEvent>,
    outcomes: Seq<Result<Decoded, String>>,
    now: Instant,
    first: int,
)
    requires
        outcomes.len() == events.len(),
        receiver.video.waiting_for_keyframe,
        0 <= first < receiver.drained(events, outcomes, now).1.len(),
        forall|i: int|
            0 <= i < first ==> handed_on(
                #[trigger] receiver.drained(events, outcomes, now).1[i],
            ) is None,
    ensures
        !hands_on_a_dependent_frame(receiver.drained(events, outcomes, now).1[first]),
    decreases events.len(),
{
    if events.len() > 0 {
        let (before, media) = receiver.drained(events.drop_last(), outcomes.drop_last(), now);
        let (after, event) = before.received(events.last(), outcomes.last(), now);
        let all = receiver.drained(events, outcomes, now).1;
        assert(all == with_event(media, event));
        assert forall|i: int| 0 <= i < media.len() && i < first implies handed_on(
            #[trigger] media[i],
        ) is None by {
            assert(all[i] == media[i]);
        }
        if first < media.len() {
            law_a_keyframe_comes_first_after_a_loss(
                receiver,
                events.drop_last(),
                outcomes.drop_last(),
                now,
                first,
            );
        } else {
            lemma_still_waiting(receiver, events.drop_last(), outcomes.drop_last(), now);
            lemma_received_waits(before, events.last(), outcomes.last(), now);
        }
    }
}

/// As long as no frame is handed on, the wait for a keyframe goes on.
proof fn lemma_still_waiting(
    receiver: ReceiverState,
    events: Seq<TransportEvent>,
    outcomes: Seq<Result<Decoded, String>>,
    now: Instant,
)
    requires
        outcomes.len() == events.len(),
        receiver.video.waiting_for_keyframe,
        forall|i: int|
            0 <= i < receiver.drained(events, outcomes, now).1.len() ==> handed_on(
                #[trigger] receiver.drained(events, outcomes, now).1[i],
            ) is None,
    ensures
        receiver.drained(events, outcomes, now).0.video.waiting_for_keyframe,
    decreases events.len(),
{
    if events.len() > 0 {
        let (before, media) = receiver.drained(events.drop_last(), outcomes.drop_last(), now);
        let (after, event) = before.received(events.last(), outcomes.last(), now);
        let all = receiver.drained(events, outcomes, now).1;
        assert(all == with_event(media, event));
        assert forall|i: int| 0 <= i < media.len() implies handed_on(#[trigger] media[i]) is None by {
            assert(all[i] == media[i]);
        }
        lemma_still_waiting(receiver, events.drop_last(), outcomes.drop_last(), now);
        lemma_received_waits(before, events.last(), outcomes.last(), now);
        if event is Some {
            assert(handed_on(all[media.len() as int]) is None);
        }
    }
}

/// Taking in one thing while waiting hands on a keyframe or waits on.
proof fn lemma_received_waits(
    receiver: ReceiverState,
    event: TransportEvent,
    outcome: Result<Decoded, String>,
    now: Instant,
)
    requires
        receiver.video.waiting_for_keyframe,
    ensures
        ({
            let (after, said) = receiver.received(event, outcome, now);
            &&& said is Some ==> !hands_on_a_dependent_frame(said->0)
            &&& said is None || handed_on(said->0) is None
                ==> after.video.waiting_for_keyframe
        }),
{
    if media_in(event) is Some && outcome is Ok {
        let decoded = outcome->Ok_0;
        let verdict = video::verdict_of(decoded.verdict);
        match decoded.record {
            GameCultMediaWireRecord::Video(record) => {
                let (next, result) = receiver.video.insert_chunk(record@, verdict, now);
                laws::law_only_a_keyframe_ends_the_wait(
                    receiver.video,
                    laws::Step::Chunk { chunk: record@, verdict, now },
                    next,
                    laws::handed(result),
                );
            },
            GameCultMediaWireRecord::VideoParity(record) => {
                let (next, result) = receiver.video.insert_parity(record@, verdict, now);
                laws::law_only_a_keyframe_ends_the_wait(
                    receiver.video,
                    laws::Step::Parity { parity: record@, verdict, now },
                    next,
                    laws::handed(result),
                );
            },
            _ => {},
        }
    }
}

/// A frame given up on, for its age or for want of room, becomes an event and
/// is named late to the producer.
#[verifier::spinoff_prover]
pub proof fn law_every_frame_given_up_on_is_reported<
    F: Fn(&ReceiverFeedbackOptions) -> Result<GameCultMediaReceiverFeedbackRecord, String>,
>(
    receiver: ReceiverState,
    media: Seq<Event>,
    now: Instant,
    observed_at: Seq<char>,
    build: F,
    closing: Closing,
    polled: Polled,
    next: ReceiverState,
    n: int,
)
    requires
        closes(receiver, media, now, observed_at, build, closing, polled, next),
        0 <= n < (receiver.video.evicted + closing.gone).len(),
    ensures
        ({
            let frame = (receiver.video.evicted + closing.gone)[n];
            &&& events_of(polled.events@).contains(Event::VideoFrameExpired(frame))
            &&& exists|i: int|
                {
                    &&& 0 <= i < closing.reports.len()
                    &&& (#[trigger] closing.reports[i]).session == frame.id.session()
                    &&& closing.reports[i].late.contains(frame.id.frame_id)
                }
        }),
{
    let lost = receiver.video.evicted + closing.gone;
    feedback::law_every_lost_frame_is_reported_late(closing.reports, closing.asks, lost, n);
    assert(events_of(polled.events@)[media.len() + n] == Event::VideoFrameExpired(lost[n]));
}

/// Feedback is never dropped on the floor: each record handed to the transport
/// is counted as sent or as not sent, and becomes an event that says which.
pub proof fn law_feedback_is_accounted_for(
    receiver: ReceiverState,
    record: GameCultMediaReceiverFeedbackRecord,
    sent: Result<(), String>,
)
    ensures
        ({
            let (next, event) = receiver.fed_back(record, sent);
            let before = receiver.feedback.stats;
            let after = next.feedback.stats;
            if sent is Ok {
                &&& after.sent == before.sent.wrapping_add(1)
                &&& after.not_sent == before.not_sent
                &&& event == Event::FeedbackSent(record)
            } else {
                &&& after.sent == before.sent
                &&& after.not_sent == before.not_sent.wrapping_add(1)
                &&& event == Event::FeedbackNotSent(sent->Err_0@)
            }
        }),
{
}

/// Media is what rides the media channel and is not empty.
pub proof fn law_media_rides_the_media_channel(frame: CultNetTransportFrame)
    ensures
        MEDIA_CHANNEL@ == "media"@,
        is_media(frame) <==> frame.channel_id@ == "media"@ && frame.payload@.len() > 0,
        media_in(TransportEvent::Frame { frame }) is Some <==> frame.channel_id@ == "media"@
            && frame.payload@.len() > 0,
        media_in(TransportEvent::Frame { frame }) is Some ==> media_in(
            TransportEvent::Frame { frame },
        ) == Some(frame.payload),
{
}

/// A receiver that nothing has reached has counted nothing, handed on nothing,
/// and keeps to the options it was opened with.
pub proof fn law_a_new_receiver_has_nothing_on_record(options: ReceiverOptions)
    ensures
        ({
            let new = ReceiverState::initial(options);
            &&& new.payloads == 0 && new.payload_bytes == 0
            &&& new.undecodable == 0 && new.rejected == 0
            &&& new.highest is None
            &&& new.video == AssemblerState::initial(options.video)
            &&& new.feedback == ComposerState::initial(options.runtime_id@, options.feedback)
        }),
{
}

/// Every event says what it carries, and no two kinds are alike.
pub proof fn law_events_are_read_as_they_stand(
    text: String,
    bytes: Vec<u8>,
    frame: Box<VideoFrame>,
    gone: ExpiredFrame,
    audio: Box<GameCultMediaAudioPacketRecord>,
    feedback: Box<GameCultMediaReceiverFeedbackRecord>,
)
    ensures
        (MediaEvent::ProducerAttached { remote: text })@ == Event::ProducerAttached(text@),
        (MediaEvent::ProducerDetached { remote: text })@ == Event::ProducerDetached(text@),
        (MediaEvent::VideoFrame { frame })@ == Event::VideoFrame((*frame)@),
        (MediaEvent::VideoFrameExpired { frame: gone })@ == Event::VideoFrameExpired(gone@),
        (MediaEvent::Audio { record: audio })@ == Event::Audio(*audio),
        (MediaEvent::Feedback { record: feedback })@ == Event::Feedback(*feedback),
        (MediaEvent::FeedbackSent { record: feedback })@ == Event::FeedbackSent(*feedback),
        (MediaEvent::FeedbackNotSent { reason: text })@ == Event::FeedbackNotSent(text@),
        (MediaEvent::Rejected { reason: text })@ == Event::Rejected(text@),
        (MediaEvent::Undecodable { bytes, reason: text })@ == Event::Undecodable(bytes@, text@),
{
}

/// What becomes of a receiver by what reassembly made of a record: a frame is
/// handed on and may be the newest; a refusal is counted and told in words; and
/// of nothing nothing becomes.
pub open spec fn follows(
    receiver: ReceiverState,
    video: AssemblerState,
    result: Result<Option<Frame>, Refusal>,
    next: ReceiverState,
    event: Option<Event>,
) -> bool {
    &&& next.video == video
    &&& next.feedback == receiver.feedback
    &&& next.payloads == receiver.payloads
    &&& next.payload_bytes == receiver.payload_bytes
    &&& next.undecodable == receiver.undecodable
    &&& match result {
        Ok(Some(frame)) => {
            &&& event == Some(Event::VideoFrame(frame))
            &&& next.rejected == receiver.rejected
            &&& next.highest is Some
            &&& next.highest->0 >= frame.id.frame_id
            &&& next.highest == receiver.highest || next.highest == Some(frame.id.frame_id)
            &&& receiver.highest is Some ==> next.highest->0 >= receiver.highest->0
        },
        Ok(None) => {
            &&& event is None
            &&& next.rejected == receiver.rejected
            &&& next.highest == receiver.highest
        },
        Err(refusal) => {
            &&& event == Some(
                Event::Rejected(
                    match refusal {
                        Refusal::Invalid(reason) => reason,
                        Refusal::MixedMetadata(_) => video::refusal_text(refusal),
                    },
                ),
            )
            &&& next.rejected == receiver.rejected.wrapping_add(1)
            &&& next.highest == receiver.highest
        },
    }
}

/// Chunks reach reassembly: taking in a chunk leaves reassembly as inserting the
/// chunk does, and the event is what the insertion gave.
pub proof fn law_chunks_reach_reassembly(
    receiver: ReceiverState,
    record: GameCultMediaVideoAccessUnitRecord,
    verdict: Result<(), String>,
    now: Instant,
)
    ensures
        ({
            let (next, event) = receiver.admitted(
                Decoded { record: GameCultMediaWireRecord::Video(record), verdict },
                now,
            );
            let judged = match verdict {
                Ok(_) => Ok::<(), Seq<char>>(()),
                Err(reason) => Err::<(), Seq<char>>(reason@),
            };
            let (video, result) = receiver.video.insert_chunk(record@, judged, now);
            follows(receiver, video, result, next, event)
        }),
{
}

/// Parity reaches reassembly: taking in a shard leaves reassembly as inserting
/// the shard does, and the event is what the insertion gave. So a shard that
/// completes a waiting frame becomes that frame.
pub proof fn law_parity_reaches_reassembly(
    receiver: ReceiverState,
    record: GameCultMediaVideoParityShardRecord,
    verdict: Result<(), String>,
    now: Instant,
)
    ensures
        ({
            let (next, event) = receiver.admitted(
                Decoded { record: GameCultMediaWireRecord::VideoParity(record), verdict },
                now,
            );
            let judged = match verdict {
                Ok(_) => Ok::<(), Seq<char>>(()),
                Err(reason) => Err::<(), Seq<char>>(reason@),
            };
            let (video, result) = receiver.video.insert_parity(record@, judged, now);
            follows(receiver, video, result, next, event)
        }),
{
}

/// Audio and feedback pass through as sent and touch nothing.
pub proof fn law_audio_and_feedback_pass_through(
    receiver: ReceiverState,
    audio: GameCultMediaAudioPacketRecord,
    feedback: GameCultMediaReceiverFeedbackRecord,
    verdict: Result<(), String>,
    now: Instant,
)
    ensures
        receiver.admitted(
            Decoded { record: GameCultMediaWireRecord::Audio(audio), verdict },
            now,
        ) == (receiver, Some(Event::Audio(audio))),
        receiver.admitted(
            Decoded { record: GameCultMediaWireRecord::Feedback(feedback), verdict },
            now,
        ) == (receiver, Some(Event::Feedback(feedback))),
{
}

/// What the transport reports, one thing at a time: a producer that comes or
/// goes is an event; a media payload is counted, with its bytes, and then taken
/// in if it decodes and reported with its bytes and the reason if it does not;
/// anything else leaves no trace.
pub proof fn law_what_the_transport_reports_is_taken_in(
    receiver: ReceiverState,
    remote: String,
    frame: CultNetTransportFrame,
    outcome: Result<Decoded, String>,
    now: Instant,
)
    ensures
        receiver.received(TransportEvent::Connected { remote }, outcome, now) == (
            receiver,
            Some(Event::ProducerAttached(remote@)),
        ),
        receiver.received(TransportEvent::Disconnected { remote }, outcome, now) == (
            receiver,
            Some(Event::ProducerDetached(remote@)),
        ),
        receiver.received(TransportEvent::Other, outcome, now) == (receiver, None::<Event>),
        ({
            let (next, event) = receiver.received(TransportEvent::Frame { frame }, outcome, now);
            let counted = ReceiverState {
                payloads: receiver.payloads.wrapping_add(1),
                payload_bytes: receiver.payload_bytes.wrapping_add(frame.payload@.len() as u64),
                ..receiver
            };
            if frame.channel_id@ != "media"@ || frame.payload@.len() == 0 {
                next == receiver && event is None
            } else {
                match outcome {
                    Ok(decoded) => (next, event) == counted.admitted(decoded, now),
                    Err(reason) => {
                        &&& event == Some(Event::Undecodable(frame.payload@, reason@))
                        &&& next == ReceiverState {
                            undecodable: receiver.undecodable.wrapping_add(1),
                            ..counted
                        }
                    },
                }
            }
        }),
{
}

/// Draining takes in one thing after the other and loses nothing: draining some
/// and then more is draining them all, with the events of the first before those
/// of the rest; of nothing comes nothing, and of one thing what it gives.
#[verifier::spinoff_prover]
pub proof fn law_draining_is_one_after_the_other(
    receiver: ReceiverState,
    first: Seq<TransportEvent>,
    rest: Seq<TransportEvent>,
    outcomes: Seq<Result<Decoded, String>>,
    later: Seq<Result<Decoded, String>>,
    event: TransportEvent,
    outcome: Result<Decoded, String>,
    now: Instant,
)
    requires
        outcomes.len() == first.len(),
        later.len() == rest.len(),
    ensures
        receiver.drained(Seq::empty(), Seq::empty(), now) == (receiver, Seq::<Event>::empty()),
        ({
            let (next, said) = receiver.received(event, outcome, now);
            let (after, events) = receiver.drained(seq![event], seq![outcome], now);
            &&& after == next
            &&& said is Some ==> events == seq![said->0]
            &&& said is None ==> events.len() == 0
        }),
        ({
            let (middle, events) = receiver.drained(first, outcomes, now);
            let (after, more) = middle.drained(rest, later, now);
            receiver.drained(first + rest, outcomes + later, now) == (after, events + more)
        }),
    decreases rest.len(),
{
    let none = Seq::<TransportEvent>::empty();
    assert(seq![event].drop_last() =~= Seq::empty());
    assert(seq![outcome].drop_last() =~= Seq::empty());
    reveal_with_fuel(ReceiverState::drained, 2);
    let (middle, events) = receiver.drained(first, outcomes, now);
    if rest.len() == 0 {
        assert(first + rest =~= first);
        assert(outcomes + later =~= outcomes);
        assert(events + Seq::<Event>::empty() =~= events);
    } else {
        law_draining_is_one_after_the_other(
            receiver,
            first,
            rest.drop_last(),
            outcomes,
            later.drop_last(),
            event,
            outcome,
            now,
        );
        let (before, more) = middle.drained(rest.drop_last(), later.drop_last(), now);
        assert((first + rest).drop_last() =~= first + rest.drop_last());
        assert((outcomes + later).drop_last() =~= outcomes + later.drop_last());
        assert((first + rest).last() == rest.last());
        assert((outcomes + later).last() == later.last());
        let (after, said) = before.received(rest.last(), later.last(), now);
        assert(with_event(events + more, said) =~= events + with_event(more, said));
    }
}

/// The decoder is asked of every media payload, of that payload, and its answer
/// is the outcome.
pub proof fn law_the_decoder_is_asked_of_every_payload<
    D: Fn(&Vec<u8>) -> Result<Decoded, String>,
>(
    decode: D,
    events: Seq<TransportEvent>,
    outcomes: Seq<Result<Decoded, String>>,
    i: int,
    frame: CultNetTransportFrame,
)
    requires
        decodes(decode, events, outcomes),
        0 <= i < events.len(),
        events[i] == (TransportEvent::Frame { frame }),
        frame.channel_id@ == "media"@,
        frame.payload@.len() > 0,
    ensures
        outcomes.len() == events.len(),
        call_ensures(decode, (&frame.payload,), outcomes[i]),
{
    assert(media_in(events[i]) == Some(frame.payload));
}

/// A poll whose draining failed hands the error back and does no more than take
/// in what came before; one whose draining did not fail does not fail.
pub proof fn law_a_poll_fails_only_with_the_transport<
    F: Fn(&ReceiverFeedbackOptions) -> Result<GameCultMediaReceiverFeedbackRecord, String>,
>(
    drained: ReceiverState,
    media: Seq<Event>,
    end: Result<(), String>,
    now: Instant,
    observed_at: Seq<char>,
    build: F,
    result: Result<Polled, String>,
    next: ReceiverState,
)
    requires
        polls(drained, media, end, now, observed_at, build, result, next),
    ensures
        end is Ok <==> result is Ok,
        end is Err ==> result->Err_0 == end->Err_0 && next == drained,
        end is Ok ==> exists|closing: Closing| #[trigger]
            closes(
                drained,
                media,
                now,
                observed_at,
                build,
                closing,
                result->Ok_0,
                next,
            ),
{
}

/// What a poll owes once the transport is drained: every frame evicted since the
/// last poll, then every frame given up on now, is an event behind what arrived;
/// feedback is composed of those frames and of the chunks whose turn it is to be
/// asked for, for the newest frame handed on; and nothing else about the
/// receiver changes but reassembly and what feedback has on record.
pub proof fn law_a_poll_pays_what_it_owes<
    F: Fn(&ReceiverFeedbackOptions) -> Result<GameCultMediaReceiverFeedbackRecord, String>,
>(
    receiver: ReceiverState,
    media: Seq<Event>,
    now: Instant,
    observed_at: Seq<char>,
    build: F,
    closing: Closing,
    polled: Polled,
    next: ReceiverState,
    i: int,
)
    requires
        closes(receiver, media, now, observed_at, build, closing, polled, next),
    ensures
        ({
            let lost = receiver.video.evicted + closing.gone;
            let told = events_of(polled.events@);
            &&& told.len() == media.len() + lost.len() + if closing.composed is Ok {
                0int
            } else {
                1
            }
            &&& forall|k: int| 0 <= k < media.len() ==> #[trigger] told[k] == media[k]
            &&& forall|k: int|
                media.len() <= k < media.len() + lost.len() ==> #[trigger] told[k]
                    == Event::VideoFrameExpired(lost[k - media.len()])
            &&& closing.composed is Err ==> told.last() == Event::FeedbackNotSent(
                closing.composed->Err_0@,
            ) && polled.feedback@.len() == 0 && next.feedback.stats.not_sent
                == receiver.feedback.stats.not_sent.wrapping_add(1)
            &&& closing.composed is Ok ==> next.feedback.stats.not_sent
                == receiver.feedback.stats.not_sent
            &&& feedback::composes(
                receiver.feedback,
                Occasion {
                    reports: closing.reports,
                    highest_decodable_frame_id: receiver.highest,
                    now,
                    observed_at,
                },
                build,
                closing.composed,
                closing.composer,
            )
            &&& next.feedback.last_keyframe_request == closing.composer.last_keyframe_request
            &&& next.feedback.options == receiver.feedback.options
            &&& next.feedback.stats.chunks_requested == closing.composer.stats.chunks_requested
            &&& next.feedback.stats.keyframes_requested
                == closing.composer.stats.keyframes_requested
            &&& feedback::digests(closing.reports, closing.asks, lost)
            &&& closing.composed is Ok ==> polled.feedback@.len() == closing.reports.len()
            &&& closing.composed is Ok && 0 <= i < polled.feedback@.len() ==> exists|
                options: ReceiverFeedbackOptions,
            |
                {
                    &&& #[trigger] call_ensures(build, (&options,), Ok(polled.feedback@[i]))
                    &&& options.stream_id@ == closing.reports[i].session.stream_id
                    &&& options.session_id@ == closing.reports[i].session.session_id
                    &&& options.receiver_id@ == receiver.feedback.receiver_id
                    &&& options.highest_decodable_frame_id == receiver.highest
                    &&& options.missing_video_chunk_keys@ == closing.reports[i].missing
                    &&& options.late_frame_ids@ == closing.reports[i].late
                    &&& options.observed_at@ == observed_at
                }
        }),
        (AssemblerState { evicted: Seq::empty(), ..receiver.video }).expires(
            now,
            closing.gone,
            closing.aged,
        ),
        closing.aged.asks_for(now, closing.asks, next.video),
        next.payloads == receiver.payloads,
        next.payload_bytes == receiver.payload_bytes,
        next.undecodable == receiver.undecodable,
        next.rejected == receiver.rejected,
        next.highest == receiver.highest,
        next.feedback.receiver_id == receiver.feedback.receiver_id,
        next.feedback.stats.sent == receiver.feedback.stats.sent,
{
    let lost = receiver.video.evicted + closing.gone;
    let occasion = Occasion {
        reports: closing.reports,
        highest_decodable_frame_id: receiver.highest,
        now,
        observed_at,
    };
    match closing.composed {
        Ok(records) => {
            feedback::law_a_composition_answers_every_report(
                receiver.feedback,
                occasion,
                build,
                records,
                closing.composer,
                i,
            );
            assert(polled.feedback@ == records@);
        },
        Err(reason) => {
            feedback::law_a_composition_fails_only_if_refused(
                receiver.feedback,
                occasion,
                build,
                reason,
                closing.composer,
            );
        },
    }
}

/// What became of feedback at the transport moves its count and nothing else.
pub proof fn law_handing_over_feedback_moves_only_its_count(
    receiver: ReceiverState,
    record: GameCultMediaReceiverFeedbackRecord,
    sent: Result<(), String>,
)
    ensures
        ({
            let next = receiver.fed_back(record, sent).0;
            &&& next.video == receiver.video
            &&& next.payloads == receiver.payloads
            &&& next.payload_bytes == receiver.payload_bytes
            &&& next.undecodable == receiver.undecodable
            &&& next.rejected == receiver.rejected
            &&& next.highest == receiver.highest
            &&& next.feedback.receiver_id == receiver.feedback.receiver_id
            &&& next.feedback.options == receiver.feedback.options
            &&& next.feedback.last_keyframe_request == receiver.feedback.last_keyframe_request
            &&& next.feedback.stats.chunks_requested == receiver.feedback.stats.chunks_requested
            &&& next.feedback.stats.keyframes_requested
                == receiver.feedback.stats.keyframes_requested
        }),
{
}

/// Events are read one by one, in order.
pub proof fn law_events_are_read_one_by_one(events: Seq<MediaEvent>, event: MediaEvent, i: int)
    ensures
        event_of(Some(event)) == Some(event@),
        event_of(None) == None::<Event>,
        events_of(events).len() == events.len(),
        0 <= i < events.len() ==> events_of(events)[i] == events[i]@,
{
}

/// A payload whose record completes a frame becomes that frame, behind the events
/// of what came before it: whether the record is the chunk that was missing or
/// the parity that stands in for it.
pub proof fn law_a_payload_that_completes_a_frame_becomes_the_frame(
    receiver: ReceiverState,
    before: Seq<TransportEvent>,
    after: Seq<TransportEvent>,
    earlier: Seq<Result<Decoded, String>>,
    later: Seq<Result<Decoded, String>>,
    payload: CultNetTransportFrame,
    decoded: Decoded,
    whole: Frame,
    now: Instant,
)
    requires
        earlier.len() == before.len(),
        later.len() == after.len(),
        payload.channel_id@ == "media"@,
        payload.payload@.len() > 0,
        decoded.verdict is Ok,
        match decoded.record {
            GameCultMediaWireRecord::Video(chunk) => receiver.drained(
                before,
                earlier,
                now,
            ).0.video.insert_chunk(chunk@, Ok(()), now).1 == Ok::<Option<Frame>, Refusal>(
                Some(whole),
            ),
            GameCultMediaWireRecord::VideoParity(shard) => receiver.drained(
                before,
                earlier,
                now,
            ).0.video.insert_parity(shard@, Ok(()), now).1 == Ok::<Option<Frame>, Refusal>(
                Some(whole),
            ),
            _ => false,
        },
    ensures
        ({
            let reported = before + seq![TransportEvent::Frame { frame: payload }] + after;
            let outcomes = earlier + seq![Ok::<Decoded, String>(decoded)] + later;
            let told = receiver.drained(before, earlier, now).1;
            let all = receiver.drained(reported, outcomes, now).1;
            &&& told.len() < all.len()
            &&& all.take(told.len() as int) == told
            &&& all[told.len() as int] == Event::VideoFrame(whole)
        }),
{
    let event = TransportEvent::Frame { frame: payload };
    let outcome = Ok::<Decoded, String>(decoded);
    let here = before + seq![event];
    let known = earlier + seq![outcome];
    law_draining_is_one_after_the_other(
        receiver,
        before,
        seq![event],
        earlier,
        seq![outcome],
        event,
        outcome,
        now,
    );
    law_draining_is_one_after_the_other(receiver, here, after, known, later, event, outcome, now);
    let (middle, told) = receiver.drained(before, earlier, now);
    law_draining_is_one_after_the_other(
        middle,
        before,
        seq![event],
        earlier,
        seq![outcome],
        event,
        outcome,
        now,
    );
    assert(middle.received(event, outcome, now).1 == Some(Event::VideoFrame(whole)));
    let (next, more) = receiver.drained(here, known, now);
    assert(more == told + seq![Event::VideoFrame(whole)]);
    let rest = next.drained(after, later, now).1;
    let all = receiver.drained(here + after, known + later, now).1;
    assert(all == more + rest);
    assert(all.take(told.len() as int) =~= told);
}

/// What arrived is told by the poll that took it in, first and in order.
pub proof fn law_what_arrived_is_told_first<
    F: Fn(&ReceiverFeedbackOptions) -> Result<GameCultMediaReceiverFeedbackRecord, String>,
>(
    drained: ReceiverState,
    media: Seq<Event>,
    now: Instant,
    observed_at: Seq<char>,
    build: F,
    polled: Polled,
    next: ReceiverState,
)
    requires
        polls(drained, media, Ok(()), now, observed_at, build, Ok(polled), next),
    ensures
        media.len() <= polled.events@.len(),
        forall|k: int| 0 <= k < media.len() ==> (#[trigger] polled.events@[k])@ == media[k],
{
    let result: Result<Polled, String> = Ok(polled);
    let closing = choose|closing: Closing| #[trigger]
        closes(drained, media, now, observed_at, build, closing, result->Ok_0, next);
    law_a_poll_pays_what_it_owes(
        drained,
        media,
        now,
        observed_at,
        build,
        closing,
        polled,
        next,
        0,
    );
    assert forall|k: int| 0 <= k < media.len() implies (#[trigger] polled.events@[k])@
        == media[k] by {
        assert(events_of(polled.events@)[k] == media[k]);
    }
}

} // verus!
