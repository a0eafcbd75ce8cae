//! What the C interface decides: which code a call returns, what it writes to
//! the caller's memory, and what message a failure leaves.
//!
//! Kept deliberately small. Every capability here is one a plugin would
//! otherwise implement itself. A pointer from C stands here as an option, null
//! being `None`, and a buffer as its capacity: reading and writing the caller's
//! memory is left to the shell around this module.

use crate::feedback::{FeedbackOptions, FeedbackStats};
use crate::receiver;
use crate::receiver::{Event, MediaEvent, RatatoskrReceiver, ReceiverOptions, ReceiverState};
use crate::text;
use crate::text::decimal;
use crate::video;
use crate::video::VideoAssemblerOptions;
use std::collections::VecDeque;
use vstd::prelude::*;

verus! {

pub const RATATOSKR_OK: i32 = 0;

pub const RATATOSKR_NONE: i32 = 1;

pub const RATATOSKR_ERR_ARGUMENT: i32 = -1;

pub const RATATOSKR_ERR_OPEN: i32 = -2;

pub const RATATOSKR_ERR_POLL: i32 = -3;

pub const RATATOSKR_ERR_BUFFER_TOO_SMALL: i32 = -4;

/// What a payload is, so a caller can route it without parsing anything.
/// A video payload is a whole access unit: chunking and parity are the
/// transport's business and never cross this boundary.
pub const RATATOSKR_KIND_VIDEO: i32 = 0;

pub const RATATOSKR_KIND_AUDIO: i32 = 1;

/// What the last call that failed said. One per thread. A call that fails
/// returns a negative code; one that does not leaves this as it is.
#[derive(Clone, Debug, PartialEq, Eq)]
pub struct LastError {
    pub message: String,
}

impl LastError {
    /// Nothing has failed yet.
    pub fn new() -> (error: Self)
        ensures
            error.message@ == ""@,
    {
        LastError { message: "".to_owned() }
    }

    pub fn set_last_error(&mut self, message: String)
        ensures
            final(self).message@ == message@,
    {
        self.message = message;
    }
}

/// Holds the receiver plus payloads drained but not yet taken, so a caller can
/// poll on one cadence and consume on another.
pub struct RatatoskrHandle {
    pub receiver: RatatoskrReceiver,
    /// The payloads that wait, each with its kind, oldest first.
    pub pending: VecDeque<(i32, Vec<u8>)>,
    /// The producer that is attached.
    pub attached: Option<String>,
    /// The last reason an event gave for something that went wrong. No call
    /// failed by it, so it is kept apart from the last error.
    pub complaint: Option<String>,
}

/// What a [`RatatoskrHandle`] holds.
#[verifier::ext_equal]
pub struct HandleState {
    pub receiver: ReceiverState,
    pub pending: Seq<(i32, Seq<u8>)>,
    pub attached: Option<Seq<char>>,
    pub complaint: Option<Seq<char>>,
}

/// Text that may be absent, as a value.
pub open spec fn text_of(text: Option<String>) -> Option<Seq<char>> {
    match text {
        Some(text) => Some(text@),
        None => None,
    }
}

impl View for RatatoskrHandle {
    type V = HandleState;

    open spec fn view(&self) -> HandleState {
        HandleState {
            receiver: self.receiver@,
            pending: self.pending@.map_values(|waiting: (i32, Vec<u8>)| (waiting.0, waiting.1@)),
            attached: text_of(self.attached),
            complaint: text_of(self.complaint),
        }
    }
}

impl HandleState {
    /// An event reaches the handle. Whole video frames and audio packets that
    /// are not empty wait to be taken; a producer attaches or detaches; the
    /// reason for something that went wrong is kept.
    pub open spec fn absorbed(self, event: Event) -> HandleState {
        match event {
            Event::VideoFrame(frame) => HandleState {
                pending: self.pending.push((RATATOSKR_KIND_VIDEO, frame.bytes)),
                ..self
            },
            Event::Audio(record) => if record.payload@.len() > 0 {
                HandleState {
                    pending: self.pending.push((RATATOSKR_KIND_AUDIO, record.payload@)),
                    ..self
                }
            } else {
                self
            },
            Event::ProducerAttached(remote) => HandleState { attached: Some(remote), ..self },
            Event::ProducerDetached(_) => HandleState { attached: None, ..self },
            Event::Undecodable(_, reason) => HandleState { complaint: Some(reason), ..self },
            Event::Rejected(reason) => HandleState { complaint: Some(reason), ..self },
            Event::FeedbackNotSent(reason) => HandleState { complaint: Some(reason), ..self },
            _ => self,
        }
    }

    /// Events reach the handle, one after the other.
    pub open spec fn absorbed_all(self, events: Seq<Event>) -> HandleState
        decreases events.len(),
    {
        if events.len() == 0 {
            self
        } else {
            self.absorbed_all(events.drop_last()).absorbed(events.last())
        }
    }
}

/// A count as C sees it: clipped to what fits.
pub open spec fn clipped(count: nat) -> i32 {
    if count > i32::MAX {
        i32::MAX
    } else {
        count as i32
    }
}

impl RatatoskrHandle {
    /// A handle on a receiver that has not been polled.
    pub fn new(receiver: RatatoskrReceiver) -> (handle: Self)
        ensures
            handle.receiver == receiver,
            handle@ == (HandleState {
                receiver: receiver@,
                pending: Seq::empty(),
                attached: None,
                complaint: None,
            }),
    {
        let handle = RatatoskrHandle {
            receiver,
            pending: VecDeque::new(),
            attached: None,
            complaint: None,
        };
        assert(handle@.pending =~= Seq::empty());
        handle
    }

    fn absorb(&mut self, event: MediaEvent)
        ensures
            final(self).receiver == old(self).receiver,
            final(self)@ == old(self)@.absorbed(event@),
    {
        let ghost before = self@;
        match event {
            MediaEvent::VideoFrame { frame } => {
                let frame = *frame;
                self.pending.push_back((RATATOSKR_KIND_VIDEO, frame.bytes));
                assert(self@.pending =~= before.pending.push(
                    (RATATOSKR_KIND_VIDEO, frame.bytes@),
                ));
            },
            MediaEvent::Audio { record } => {
                let record = *record;
                if record.payload.len() > 0 {
                    self.pending.push_back((RATATOSKR_KIND_AUDIO, record.payload));
                    assert(self@.pending =~= before.pending.push(
                        (RATATOSKR_KIND_AUDIO, record.payload@),
                    ));
                }
            },
            // Given-up frames and feedback carry no media for a renderer; the
            // counters say they happened.
            MediaEvent::VideoFrameExpired { frame: _ } => {},
            MediaEvent::Feedback { record: _ } => {},
            MediaEvent::FeedbackSent { record: _ } => {},
            MediaEvent::Undecodable { bytes: _, reason } => {
                self.complaint = Some(reason);
            },
            MediaEvent::Rejected { reason } => {
                self.complaint = Some(reason);
            },
            MediaEvent::FeedbackNotSent { reason } => {
                self.complaint = Some(reason);
            },
            MediaEvent::ProducerAttached { remote } => {
                self.attached = Some(remote);
            },
            MediaEvent::ProducerDetached { remote: _ } => {
                self.attached = None;
            },
        }
    }

    /// How many payloads wait.
    fn waiting(&self) -> (count: i32)
        ensures
            count == clipped(self@.pending.len()),
    {
        let count: usize = self.pending.len();
        if count > i32::MAX as usize {
            i32::MAX
        } else {
            count as i32
        }
    }
}

/// What taking a payload comes to.
#[derive(Clone, Debug, PartialEq, Eq)]
pub struct Taken {
    pub code: i32,
    /// What is written to the caller's length, if anything.
    pub out_len: Option<usize>,
    /// What is written to the caller's kind, if anything.
    pub out_kind: Option<i32>,
    /// What is copied to the caller's buffer, if anything.
    pub payload: Option<Vec<u8>>,
}

/// What a [`Taken`] says, and the message it leaves.
#[verifier::ext_equal]
pub struct Taking {
    pub code: i32,
    pub out_len: Option<usize>,
    pub out_kind: Option<i32>,
    pub payload: Option<Seq<u8>>,
    pub message: Seq<char>,
}

/// What is written to the caller's buffer, if anything.
pub open spec fn bytes_of(payload: Option<Vec<u8>>) -> Option<Seq<u8>> {
    match payload {
        Some(bytes) => Some(bytes@),
        None => None,
    }
}

/// A call that refuses its arguments.
pub open spec fn refused(message: Seq<char>) -> Taking {
    Taking {
        code: RATATOSKR_ERR_ARGUMENT,
        out_len: None,
        out_kind: None,
        payload: None,
        message,
    }
}

impl HandleState {
    /// The next payload is asked for, to be copied to a buffer of `capacity`
    /// bytes, if there is one. A payload that does not fit stays.
    pub open spec fn next_payload(
        self,
        capacity: usize,
        has_buffer: bool,
        has_out_len: bool,
        message: Seq<char>,
    ) -> (HandleState, Taking) {
        if !has_out_len {
            (self, refused("null out_len"@))
        } else if self.pending.len() == 0 {
            (
                self,
                Taking {
                    code: RATATOSKR_NONE,
                    out_len: Some(0),
                    out_kind: None,
                    payload: None,
                    message,
                },
            )
        } else {
            let (kind, payload) = self.pending[0];
            if payload.len() > capacity || !has_buffer {
                (
                    self,
                    Taking {
                        code: RATATOSKR_ERR_BUFFER_TOO_SMALL,
                        out_len: Some(payload.len() as usize),
                        out_kind: Some(kind),
                        payload: None,
                        message: too_small(capacity as nat, payload.len()),
                    },
                )
            } else {
                (
                    HandleState { pending: self.pending.skip(1), ..self },
                    Taking {
                        code: RATATOSKR_OK,
                        out_len: Some(payload.len() as usize),
                        out_kind: Some(kind),
                        payload: Some(payload),
                        message,
                    },
                )
            }
        }
    }
}

/// What is said of a buffer that a payload does not fit.
pub open spec fn too_small(capacity: nat, needed: nat) -> Seq<char> {
    "buffer of "@ + text::decimal_digits(capacity) + " too small for payload of "@
        + text::decimal_digits(needed)
}

fn spell_too_small(capacity: usize, needed: usize) -> (message: String)
    ensures
        message@ == too_small(capacity as nat, needed as nat),
{
    let mut message = "buffer of ".to_owned();
    message.append(decimal(capacity as u64).as_str());
    message.append(" too small for payload of ");
    message.append(decimal(needed as u64).as_str());
    message
}

/// A call on no handle is refused.
pub fn refuse_null_handle(last_error: &mut LastError) -> (code: i32)
    ensures
        code == RATATOSKR_ERR_ARGUMENT,
        final(last_error).message@ == "null handle"@,
{
    last_error.set_last_error("null handle".to_owned());
    RATATOSKR_ERR_ARGUMENT
}

/// What a poll came to, as a value.
pub open spec fn polled_of(polled: Result<Vec<MediaEvent>, String>) -> Result<
    Seq<Event>,
    Seq<char>,
> {
    match polled {
        Ok(events) => Ok(receiver::events_of(events@)),
        Err(reason) => Err(reason@),
    }
}

impl HandleState {
    /// A poll came to something: the handle after it, the code that is
    /// returned, and the last error, which only a failure changes.
    pub open spec fn polled(
        self,
        polled: Result<Seq<Event>, Seq<char>>,
        message: Seq<char>,
    ) -> (HandleState, i32, Seq<char>) {
        match polled {
            Ok(events) => {
                let after = self.absorbed_all(events);
                (after, clipped(after.pending.len()), message)
            },
            Err(reason) => (self, RATATOSKR_ERR_POLL, reason),
        }
    }
}

/// Drains what a poll came to into the handle's queue. Returns the number of
/// payloads now waiting, or a negative error code. A poll that does not fail
/// leaves the last error as it was.
pub fn ratatoskr_receiver_poll(
    handle: &mut RatatoskrHandle,
    polled: Result<Vec<MediaEvent>, String>,
    last_error: &mut LastError,
) -> (code: i32)
    ensures
        final(handle).receiver == old(handle).receiver,
        (final(handle)@, code, final(last_error).message@) == old(handle)@.polled(
            polled_of(polled),
            old(last_error).message@,
        ),
        polled is Ok ==> code >= 0 && final(last_error).message@ == old(last_error).message@,
{
    match polled {
        Ok(events) => {
            let ghost start = handle@;
            let ghost all = receiver::events_of(events@);
            let ghost given = events@;
            assert(all.take(0) =~= Seq::empty());
            for event in it: events.into_iter()
                invariant
                    it.seq() == given,
                    all == receiver::events_of(given),
                    handle.receiver == old(handle).receiver,
                    handle@ == start.absorbed_all(all.take(it.index())),
            {
                let ghost n = it.index();
                proof {
                    assert(all.take(n + 1).drop_last() =~= all.take(n));
                    assert(all.take(n + 1).last() == event@);
                }
                handle.absorb(event);
            }
            assert(all.take(all.len() as int) =~= all);
            handle.waiting()
        },
        Err(reason) => {
            last_error.set_last_error(reason);
            RATATOSKR_ERR_POLL
        },
    }
}

/// Takes the next waiting payload for a buffer of `capacity` bytes.
///
/// Returns `RATATOSKR_OK` and the payload when one was taken, `RATATOSKR_NONE`
/// when the queue is empty, or `RATATOSKR_ERR_BUFFER_TOO_SMALL` with the
/// required size, in which case the payload stays queued rather than being
/// dropped.
pub fn ratatoskr_receiver_next_payload(
    handle: &mut RatatoskrHandle,
    capacity: usize,
    has_buffer: bool,
    has_out_len: bool,
    last_error: &mut LastError,
) -> (taken: Taken)
    ensures
        final(handle).receiver == old(handle).receiver,
        ({
            let (next, taking) = old(handle)@.next_payload(
                capacity,
                has_buffer,
                has_out_len,
                old(last_error).message@,
            );
            &&& final(handle)@ == next
            &&& taken.code == taking.code
            &&& taken.out_len == taking.out_len
            &&& taken.out_kind == taking.out_kind
            &&& bytes_of(taken.payload) == taking.payload
            &&& final(last_error).message@ == taking.message
        }),
{
    let ghost before = handle@;
    if !has_out_len {
        last_error.set_last_error("null out_len".to_owned());
        return Taken {
            code: RATATOSKR_ERR_ARGUMENT,
            out_len: None,
            out_kind: None,
            payload: None,
        };
    }
    if handle.pending.len() == 0 {
        return Taken { code: RATATOSKR_NONE, out_len: Some(0), out_kind: None, payload: None };
    }
    let needed: usize = handle.pending[0].1.len();
    let kind: i32 = handle.pending[0].0;
    proof {
        assert(before.pending[0] == (kind, handle.pending@[0].1@));
    }
    if needed > capacity || !has_buffer {
        last_error.set_last_error(spell_too_small(capacity, needed));
        return Taken {
            code: RATATOSKR_ERR_BUFFER_TOO_SMALL,
            out_len: Some(needed),
            out_kind: Some(kind),
            payload: None,
        };
    }
    let payload = match handle.pending.pop_front() {
        Some(waiting) => Some(waiting.1),
        None => None,
    };
    assert(handle@.pending =~= before.pending.skip(1));
    Taken { code: RATATOSKR_OK, out_len: Some(needed), out_kind: Some(kind), payload }
}

/// Payloads that arrived on the media channel and did not decode. Non-zero
/// means the producer and this build disagree about the envelope.
pub fn ratatoskr_receiver_undecodable(handle: Option<&RatatoskrHandle>) -> (count: u64)
    ensures
        count == (match handle {
            Some(handle) => handle@.receiver.undecodable,
            None => 0,
        }),
{
    match handle {
        Some(handle) => handle.receiver.undecodable(),
        None => 0,
    }
}

/// Payloads delivered and their total bytes, both observed rather than
/// requested; nothing for no handle.
pub fn ratatoskr_receiver_delivered(handle: Option<&RatatoskrHandle>) -> (counts: Option<
    (u64, u64),
>)
    ensures
        counts == (match handle {
            Some(handle) => Some((handle@.receiver.payloads, handle@.receiver.payload_bytes)),
            None => None,
        }),
{
    match handle {
        Some(handle) => Some(handle.receiver.delivered()),
        None => None,
    }
}

/// What became of the video frames: completed, chunks given back by parity,
/// and frames given up on, aged out or evicted; nothing for no handle.
pub fn ratatoskr_receiver_video_stats(handle: Option<&RatatoskrHandle>) -> (counts: Option<
    (u64, u64, u64),
>)
    ensures
        counts == (match handle {
            Some(handle) => {
                let stats = handle@.receiver.video.stats;
                Some(
                    (
                        stats.completed,
                        stats.repaired_chunks,
                        stats.expired.wrapping_add(stats.evicted),
                    ),
                )
            },
            None => None,
        }),
{
    match handle {
        Some(handle) => {
            let stats = handle.receiver.video_stats();
            Some((stats.completed, stats.repaired_chunks, stats.expired.wrapping_add(stats.evicted)))
        },
        None => None,
    }
}

/// What was said back to the producer: records sent, chunks asked for again,
/// keyframes requested, and records the transport refused; nothing for no
/// handle.
pub fn ratatoskr_receiver_feedback_stats(handle: Option<&RatatoskrHandle>) -> (stats: Option<
    FeedbackStats,
>)
    ensures
        stats == (match handle {
            Some(handle) => Some(handle@.receiver.feedback.stats),
            None => None,
        }),
{
    match handle {
        Some(handle) => Some(handle.receiver.feedback_stats()),
        None => None,
    }
}

/// The last error as a C string for a buffer of `capacity` bytes: as much of
/// the message as fits before the NUL that ends it. Returns the length of the
/// whole message and what is copied, which is nothing if there is no room even
/// for the NUL.
pub fn ratatoskr_last_error(last_error: &LastError, capacity: usize) -> (written: (
    usize,
    Vec<u8>,
))
    ensures
        ({
            let message = vstd::utf8::encode_utf8(last_error.message@);
            &&& written.0 == message.len()
            &&& written.1@ == (if capacity == 0 {
                Seq::empty()
            } else if message.len() < capacity {
                message.push(0)
            } else {
                message.take(capacity - 1).push(0)
            })
        }),
{
    let bytes = last_error.message.as_str().as_bytes();
    let len: usize = bytes.len();
    let mut copy: Vec<u8> = Vec::new();
    if capacity > 0 {
        let room: usize = capacity - 1;
        let writable: usize = if len < room {
            len
        } else {
            room
        };
        let mut i: usize = 0;
        while i < writable
            invariant
                i <= writable <= bytes@.len(),
                copy@ == bytes@.take(i as int),
            decreases writable - i,
        {
            copy.push(bytes[i]);
            assert(bytes@.take(i as int).push(bytes@[i as int]) =~= bytes@.take(i + 1));
            i = i + 1;
        }
        copy.push(0);
        assert(bytes@.take(bytes@.len() as int) =~= bytes@);
    }
    (len, copy)
}

/// Text as C hands it over.
#[derive(Clone, Debug, PartialEq, Eq)]
pub enum CText {
    Null,
    NotUtf8,
    Text { text: String },
}

/// Why the arguments of an open are refused.
pub open spec fn open_refusal(
    bind: CText,
    runtime_id: CText,
    has_out_handle: bool,
    is_address: bool,
) -> Option<Seq<char>> {
    if bind is Null || runtime_id is Null || !has_out_handle {
        Some("null argument"@)
    } else {
        match bind {
            CText::Text { text } => if !is_address {
                Some("bind address "@ + text@ + " is not a socket address"@)
            } else if runtime_id is NotUtf8 {
                Some("runtime id is not valid UTF-8"@)
            } else {
                None
            },
            _ => Some("bind address is not valid UTF-8"@),
        }
    }
}

/// Checks the arguments of an open. Returns the options to open a receiver
/// with, or the code of the refusal.
///
/// `is_address` says whether text is a socket address.
pub fn ratatoskr_receiver_open<A: Fn(&String) -> bool>(
    bind: CText,
    runtime_id: CText,
    connection_id: u32,
    has_out_handle: bool,
    is_address: A,
    last_error: &mut LastError,
) -> (options: Result<ReceiverOptions, i32>)
    requires
        forall|text: String| #[trigger] call_requires(is_address, (&text,)),
    ensures
        exists|answer: bool|
            {
                &&& (bind is Text && !(runtime_id is Null) && has_out_handle)
                    ==> call_ensures(is_address, (&bind->text,), answer)
                &&& match #[trigger] open_refusal(bind, runtime_id, has_out_handle, answer) {
                    Some(message) => {
                        &&& options == Err::<ReceiverOptions, i32>(RATATOSKR_ERR_ARGUMENT)
                        &&& final(last_error).message@ == message
                    },
                    None => {
                        &&& options is Ok
                        &&& options->Ok_0.bind@ == bind->text@
                        &&& options->Ok_0.runtime_id@ == runtime_id->text@
                        &&& options->Ok_0.connection_id == connection_id
                        &&& options->Ok_0.video.max_frame_age.nanos == 250 * 1_000_000
                        &&& options->Ok_0.video.max_pending_frames == 64
                        &&& options->Ok_0.video.remembered_frames == 256
                        &&& options->Ok_0.video.repair_after.nanos == 64 * 1_000_000
                        &&& options->Ok_0.video.repair_interval.nanos == 32 * 1_000_000
                        &&& options->Ok_0.video.repair_attempts == 3
                        &&& options->Ok_0.feedback.keyframe_request_cooldown.nanos == 500
                            * 1_000_000
                        &&& final(last_error).message@ == old(last_error).message@
                    },
                }
            },
{
    let is_null = match (&bind, &runtime_id) {
        (CText::Null, _) => true,
        (_, CText::Null) => true,
        _ => false,
    };
    if is_null || !has_out_handle {
        last_error.set_last_error("null argument".to_owned());
        assert(open_refusal(bind, runtime_id, has_out_handle, false) == Some("null argument"@));
        return Err(RATATOSKR_ERR_ARGUMENT);
    }
    let bind_text = match &bind {
        CText::Text { text } => text.clone(),
        _ => {
            last_error.set_last_error("bind address is not valid UTF-8".to_owned());
            assert(open_refusal(bind, runtime_id, has_out_handle, false) is Some);
            return Err(RATATOSKR_ERR_ARGUMENT);
        },
    };
    let answer: bool = is_address(&bind_text);
    let ghost refusal = open_refusal(bind, runtime_id, has_out_handle, answer);
    if !answer {
        let mut message = "bind address ".to_owned();
        message.append(bind_text.as_str());
        message.append(" is not a socket address");
        last_error.set_last_error(message);
        return Err(RATATOSKR_ERR_ARGUMENT);
    }
    match runtime_id {
        CText::Text { text } => Ok(
            ReceiverOptions {
                bind: bind_text,
                runtime_id: text,
                connection_id,
                video: VideoAssemblerOptions::default(),
                feedback: FeedbackOptions::default(),
            },
        ),
        _ => {
            last_error.set_last_error("runtime id is not valid UTF-8".to_owned());
            Err(RATATOSKR_ERR_ARGUMENT)
        },
    }
}

/// What opening the transport came to: the code that is returned and the last
/// error, which only a failure changes.
pub open spec fn open_answer(result: Result<(), Seq<char>>, message: Seq<char>) -> (
    i32,
    Seq<char>,
) {
    match result {
        Ok(_) => (RATATOSKR_OK, message),
        Err(reason) => (RATATOSKR_ERR_OPEN, reason),
    }
}

/// What opening the transport came to, as a code.
pub fn opened(result: Result<(), String>, last_error: &mut LastError) -> (code: i32)
    ensures
        (code, final(last_error).message@) == open_answer(
            video::verdict_of(result),
            old(last_error).message@,
        ),
{
    match result {
        Ok(_) => RATATOSKR_OK,
        Err(reason) => {
            last_error.set_last_error(reason);
            RATATOSKR_ERR_OPEN
        },
    }
}

/// A call from C that returns a code, with what decides it.
#[verifier::ext_equal]
pub enum Call {
    /// A call on no handle.
    NullHandle,
    /// An open whose arguments are checked.
    Open { bind: CText, runtime_id: CText, has_out_handle: bool, is_address: bool },
    /// An open whose arguments passed, and what opening the transport came to.
    Opened { result: Result<(), Seq<char>> },
    /// A poll, and what it came to.
    Poll { handle: HandleState, polled: Result<Seq<Event>, Seq<char>> },
    /// The next payload is asked for.
    NextPayload { handle: HandleState, capacity: usize, has_buffer: bool, has_out_len: bool },
}

/// The code a call returns, and the last error after it.
pub open spec fn answered(call: Call, message: Seq<char>) -> (i32, Seq<char>) {
    match call {
        Call::NullHandle => (RATATOSKR_ERR_ARGUMENT, "null handle"@),
        Call::Open { bind, runtime_id, has_out_handle, is_address } => {
            match open_refusal(bind, runtime_id, has_out_handle, is_address) {
                Some(refusal) => (RATATOSKR_ERR_ARGUMENT, refusal),
                None => (RATATOSKR_OK, message),
            }
        },
        Call::Opened { result } => open_answer(result, message),
        Call::Poll { handle, polled } => {
            let (_, code, after) = handle.polled(polled, message);
            (code, after)
        },
        Call::NextPayload { handle, capacity, has_buffer, has_out_len } => {
            let (_, taking) = handle.next_payload(capacity, has_buffer, has_out_len, message);
            (taking.code, taking.message)
        },
    }
}

/// The last error after calls, one after the other.
pub open spec fn message_after(calls: Seq<Call>, message: Seq<char>) -> Seq<char>
    decreases calls.len(),
{
    if calls.len() == 0 {
        message
    } else {
        answered(calls.last(), message_after(calls.drop_last(), message)).1
    }
}

/// The last error stays valid until the next call that fails: calls that each
/// return a code that is not negative, however many, leave it as it was.
#[verifier::spinoff_prover]
pub proof fn law_the_last_error_stays_until_a_call_fails(calls: Seq<Call>, message: Seq<char>)
    requires
        forall|i: int|
            0 <= i < calls.len() ==> answered(
                #[trigger] calls[i],
                message_after(calls.take(i), message),
            ).0 >= 0,
    ensures
        message_after(calls, message) == message,
    decreases calls.len(),
{
    if calls.len() > 0 {
        let n = calls.len() - 1;
        let before = calls.drop_last();
        assert(before =~= calls.take(n));
        assert forall|i: int| 0 <= i < before.len() implies answered(
            #[trigger] before[i],
            message_after(before.take(i), message),
        ).0 >= 0 by {
            assert(before[i] == calls[i]);
            assert(before.take(i) =~= calls.take(i));
        }
        law_the_last_error_stays_until_a_call_fails(before, message);
        assert(answered(calls[n], message_after(calls.take(n), message)).0 >= 0);
    }
}

/// A short buffer does not consume the payload: the caller is told what it
/// needs and what it is, and a buffer of that size then takes that payload.
pub proof fn law_a_payload_survives_a_short_buffer(
    handle: HandleState,
    short: usize,
    message: Seq<char>,
    later: Seq<char>,
)
    requires
        handle.pending.len() > 0,
        short < handle.pending[0].1.len() <= usize::MAX,
    ensures
        ({
            let (after, told) = handle.next_payload(short, true, true, message);
            let (last, taken) = after.next_payload(told.out_len->0, true, true, later);
            &&& after == handle
            &&& told.code == RATATOSKR_ERR_BUFFER_TOO_SMALL
            &&& told.out_len == Some(handle.pending[0].1.len() as usize)
            &&& told.out_kind == Some(handle.pending[0].0)
            &&& taken.code == RATATOSKR_OK
            &&& taken.payload == Some(handle.pending[0].1)
            &&& last.pending == handle.pending.skip(1)
        }),
{
}

/// Payloads come out in the order they went in: what waits after events is what
/// waited before, then the media of the events in their order.
pub proof fn law_payloads_keep_their_order(handle: HandleState, events: Seq<Event>)
    ensures
        handle.absorbed_all(events).pending == handle.pending + media_of(events),
    decreases events.len(),
{
    if events.len() > 0 {
        law_payloads_keep_their_order(handle, events.drop_last());
        assert(handle.absorbed_all(events).pending =~= handle.pending + media_of(events));
    } else {
        assert(handle.pending =~= handle.pending + media_of(events));
    }
}

/// The payloads that events hand a caller, in order.
pub open spec fn media_of(events: Seq<Event>) -> Seq<(i32, Seq<u8>)>
    decreases events.len(),
{
    if events.len() == 0 {
        Seq::empty()
    } else {
        let before = media_of(events.drop_last());
        match events.last() {
            Event::VideoFrame(frame) => before.push((RATATOSKR_KIND_VIDEO, frame.bytes)),
            Event::Audio(record) => if record.payload@.len() > 0 {
                before.push((RATATOSKR_KIND_AUDIO, record.payload@))
            } else {
                before
            },
            _ => before,
        }
    }
}

/// The codes and kinds, which a caller's header fixes.
pub proof fn law_codes_and_kinds_are_fixed()
    ensures
        RATATOSKR_OK == 0,
        RATATOSKR_NONE == 1,
        RATATOSKR_ERR_ARGUMENT == -1,
        RATATOSKR_ERR_OPEN == -2,
        RATATOSKR_ERR_POLL == -3,
        RATATOSKR_ERR_BUFFER_TOO_SMALL == -4,
        RATATOSKR_KIND_VIDEO == 0,
        RATATOSKR_KIND_AUDIO == 1,
{
}

/// A handle is read as it stands: its receiver, each payload that waits with its
/// kind and bytes, who is attached and what was complained of.
pub proof fn law_a_handle_is_read_as_it_stands(
    handle: RatatoskrHandle,
    text: String,
    bytes: Vec<u8>,
    events: Vec<MediaEvent>,
    i: int,
)
    ensures
        handle@.receiver == handle.receiver@,
        handle@.pending.len() == handle.pending@.len(),
        0 <= i < handle.pending@.len() ==> handle@.pending[i].0 == handle.pending@[i].0
            && handle@.pending[i].1 == handle.pending@[i].1@,
        handle@.attached is Some <==> handle.attached is Some,
        handle.attached is Some ==> handle@.attached->0 == handle.attached->0@,
        handle@.complaint is Some <==> handle.complaint is Some,
        handle.complaint is Some ==> handle@.complaint->0 == handle.complaint->0@,
        text_of(Some(text)) == Some(text@),
        text_of(None) == None::<Seq<char>>,
        bytes_of(Some(bytes)) == Some(bytes@),
        bytes_of(None) == None::<Seq<u8>>,
        polled_of(Ok(events)) is Ok,
        polled_of(Ok(events))->Ok_0.len() == events@.len(),
        0 <= i < events@.len() ==> polled_of(Ok(events))->Ok_0[i] == events@[i]@,
        polled_of(Err(text)) == Err::<Seq<Event>, Seq<char>>(text@),
{
}

/// What an event leaves of a handle, by what it is. A whole frame waits as video
/// behind what waits already, whatever else is known of it; audio likewise
/// unless it is empty. A producer that comes is attached, one that goes no
/// longer is. A reason that something went wrong is the complaint. Nothing else
/// leaves a trace, and nothing changes more than this.
pub proof fn law_an_event_leaves_its_trace(handle: HandleState, event: Event)
    ensures
        ({
            let after = handle.absorbed(event);
            &&& after.receiver == handle.receiver
            &&& match event {
                Event::VideoFrame(frame) => after.pending == handle.pending + seq![
                    (0i32, frame.bytes),
                ],
                Event::Audio(record) => after.pending == handle.pending + if record.payload@.len()
                    > 0 {
                    seq![(1i32, record.payload@)]
                } else {
                    seq![]
                },
                _ => after.pending == handle.pending,
            }
            &&& match event {
                Event::ProducerAttached(remote) => after.attached == Some(remote),
                Event::ProducerDetached(_) => after.attached is None,
                _ => after.attached == handle.attached,
            }
            &&& match event {
                Event::Undecodable(_, reason) => after.complaint == Some(reason),
                Event::Rejected(reason) => after.complaint == Some(reason),
                Event::FeedbackNotSent(reason) => after.complaint == Some(reason),
                _ => after.complaint == handle.complaint,
            }
        }),
{
    let after = handle.absorbed(event);
    match event {
        Event::VideoFrame(frame) => {
            assert(after.pending =~= handle.pending + seq![(0i32, frame.bytes)]);
        },
        Event::Audio(record) => {
            if record.payload@.len() > 0 {
                assert(after.pending =~= handle.pending + seq![(1i32, record.payload@)]);
            } else {
                assert(after.pending =~= handle.pending + seq![]);
            }
        },
        _ => {},
    }
}

/// Events leave their traces one after the other, each once and none left out.
pub proof fn law_events_are_absorbed_one_after_the_other(
    handle: HandleState,
    event: Event,
    first: Seq<Event>,
    rest: Seq<Event>,
)
    ensures
        handle.absorbed_all(Seq::empty()) == handle,
        handle.absorbed_all(seq![event]) == handle.absorbed(event),
        handle.absorbed_all(first + rest) == handle.absorbed_all(first).absorbed_all(rest),
    decreases rest.len(),
{
    reveal_with_fuel(HandleState::absorbed_all, 2);
    assert(seq![event].drop_last() =~= Seq::empty());
    if rest.len() == 0 {
        assert(first + rest =~= first);
    } else {
        law_events_are_absorbed_one_after_the_other(handle, event, first, rest.drop_last());
        assert((first + rest).drop_last() =~= first + rest.drop_last());
        assert((first + rest).last() == rest.last());
    }
}

/// A poll that did not fail returns how many payloads wait, as far as a C count
/// reaches; one that failed returns its code, leaves its reason as the last
/// error and the handle alone.
pub proof fn law_a_poll_returns_how_many_wait(
    handle: HandleState,
    polled: Result<Seq<Event>, Seq<char>>,
    message: Seq<char>,
)
    ensures
        ({
            let (after, code, left) = handle.polled(polled, message);
            match polled {
                Ok(events) => {
                    &&& after == handle.absorbed_all(events)
                    &&& left == message
                    &&& 0 <= code <= after.pending.len()
                    &&& after.pending.len() <= i32::MAX ==> code == after.pending.len()
                    &&& after.pending.len() > i32::MAX ==> code == i32::MAX
                },
                Err(reason) => after == handle && code == -3 && left == reason,
            }
        }),
{
}

/// Taking a payload: the oldest is taken, whole and with its kind, exactly when
/// there is one and the caller's buffer holds it. Otherwise nothing is taken,
/// and the code says why.
pub proof fn law_the_oldest_payload_is_taken_if_it_fits(
    handle: HandleState,
    capacity: usize,
    has_buffer: bool,
    has_out_len: bool,
    message: Seq<char>,
)
    requires
        handle.pending.len() > 0 ==> handle.pending[0].1.len() <= usize::MAX,
    ensures
        ({
            let (after, taking) = handle.next_payload(capacity, has_buffer, has_out_len, message);
            let fits = has_out_len && has_buffer && handle.pending.len() > 0
                && handle.pending[0].1.len() <= capacity;
            &&& after.receiver == handle.receiver
            &&& after.attached == handle.attached
            &&& after.complaint == handle.complaint
            &&& taking.code == 0 <==> fits
            &&& fits ==> {
                &&& handle.pending == seq![(taking.out_kind->0, taking.payload->0)]
                    + after.pending
                &&& taking.out_kind is Some && taking.payload is Some
                &&& taking.out_len is Some && taking.out_len->0 == taking.payload->0.len()
            }
            &&& !fits ==> after.pending == handle.pending && taking.payload is None
            &&& taking.code == -1 <==> !has_out_len
            &&& taking.code == 1 <==> has_out_len && handle.pending.len() == 0
            &&& taking.code == -4 <==> has_out_len && handle.pending.len() > 0 && !fits
            &&& taking.code == -1 ==> taking.out_len is None && taking.out_kind is None
                && taking.message == "null out_len"@
            &&& taking.code == 1 ==> taking.out_len == Some(0usize) && taking.out_kind is None
            &&& taking.code == -4 ==> {
                &&& taking.out_len is Some && taking.out_len->0 == handle.pending[0].1.len()
                &&& taking.out_kind == Some(handle.pending[0].0)
                &&& taking.message == "buffer of "@ + text::decimal_digits(capacity as nat)
                    + " too small for payload of "@ + text::decimal_digits(
                    handle.pending[0].1.len(),
                )
            }
            &&& taking.code >= 0 ==> taking.message == message
        }),
{
    let after = handle.next_payload(capacity, has_buffer, has_out_len, message).0;
    if handle.pending.len() > 0 {
        assert(handle.pending =~= seq![handle.pending[0]] + handle.pending.skip(1));
    }
}

/// An open is refused for what is missing first, then for an address that is no
/// text, then for one that is no address, and last for a name that is no text;
/// with none of these it is not refused.
pub proof fn law_an_open_is_refused_for_cause(
    bind: CText,
    runtime_id: CText,
    has_out_handle: bool,
    is_address: bool,
)
    ensures
        ({
            let refusal = open_refusal(bind, runtime_id, has_out_handle, is_address);
            let absent = bind is Null || runtime_id is Null || !has_out_handle;
            &&& absent ==> refusal == Some("null argument"@)
            &&& !absent && bind is NotUtf8 ==> refusal == Some("bind address is not valid UTF-8"@)
            &&& !absent && bind is Text && !is_address ==> refusal == Some(
                "bind address "@ + bind->text@ + " is not a socket address"@,
            )
            &&& !absent && bind is Text && is_address && runtime_id is NotUtf8 ==> refusal
                == Some("runtime id is not valid UTF-8"@)
            &&& refusal is None <==> bind is Text && runtime_id is Text && has_out_handle
                && is_address
        }),
{
}

/// An open that the transport did not refuse succeeds; one it refused returns the
/// code for it and leaves the reason.
pub proof fn law_an_open_answers_for_the_transport(
    result: Result<(), Seq<char>>,
    message: Seq<char>,
)
    ensures
        result is Ok ==> open_answer(result, message) == (0i32, message),
        result is Err ==> open_answer(result, message) == (-2i32, result->Err_0),
{
}

/// A call that fails leaves its own message as the last error, whatever was left
/// before.
pub proof fn law_a_failure_leaves_its_own_message(
    call: Call,
    one: Seq<char>,
    other: Seq<char>,
)
    requires
        answered(call, one).0 < 0,
    ensures
        answered(call, other) == answered(call, one),
{
}

} // verus!
