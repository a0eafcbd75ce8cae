use ratatoskr_core::ffi::{
    opened, ratatoskr_last_error, ratatoskr_receiver_delivered, ratatoskr_receiver_feedback_stats,
    ratatoskr_receiver_next_payload, ratatoskr_receiver_open, ratatoskr_receiver_poll,
    ratatoskr_receiver_undecodable, ratatoskr_receiver_video_stats, refuse_null_handle, CText,
    LastError, RatatoskrHandle, Taken, RATATOSKR_ERR_ARGUMENT, RATATOSKR_ERR_BUFFER_TOO_SMALL,
    RATATOSKR_ERR_OPEN, RATATOSKR_ERR_POLL, RATATOSKR_KIND_AUDIO, RATATOSKR_KIND_VIDEO,
    RATATOSKR_NONE, RATATOSKR_OK,
};
use ratatoskr_core::records::{
    GameCultMediaAudioPacketRecord, GameCultMediaReceiverFeedbackRecord,
};
use ratatoskr_core::{
    Duration, FeedbackStats, MediaEvent, RatatoskrReceiver, ReceiverOptions, VideoFrame,
};

fn text(text: &str) -> CText {
    CText::Text { text: text.to_string() }
}

/// Whether there is a host and a port that is a number.
fn is_address(text: &String) -> bool {
    matches!(text.rsplit_once(':'), Some((host, port)) if !host.is_empty() && port.parse::<u16>().is_ok())
}

fn open_with(
    bind: CText,
    runtime_id: CText,
    has_out_handle: bool,
    last_error: &mut LastError,
) -> Result<ReceiverOptions, i32> {
    ratatoskr_receiver_open(bind, runtime_id, 0x0BE0_0001, has_out_handle, is_address, last_error)
}

fn open() -> RatatoskrHandle {
    let mut last_error = LastError::new();
    let options =
        open_with(text("127.0.0.1:0"), text("ratatoskr-ffi-test"), true, &mut last_error)
            .expect("accepted");
    assert_eq!(last_error.message, "");
    RatatoskrHandle::new(RatatoskrReceiver::open(options))
}

fn frame(bytes: &[u8]) -> MediaEvent {
    MediaEvent::VideoFrame {
        frame: Box::new(VideoFrame {
            stream_id: "s".into(),
            session_id: "x".into(),
            frame_id: 1,
            codec: "h264".into(),
            pts_ticks: 0,
            duration_ticks: 3_000,
            timebase_num: 1,
            timebase_den: 90_000,
            keyframe: true,
            dependency_frame_id: None,
            bytes: bytes.to_vec(),
            repaired_chunks: 0,
        }),
    }
}

fn audio(payload: &[u8]) -> MediaEvent {
    MediaEvent::Audio {
        record: Box::new(GameCultMediaAudioPacketRecord {
            stream_id: "s".into(),
            session_id: "x".into(),
            packet_id: 7,
            codec: "opus".into(),
            pts_ticks: 0,
            duration_ticks: 960,
            timebase_num: 1,
            timebase_den: 48_000,
            deadline_ticks: 960,
            payload: payload.to_vec(),
        }),
    }
}

fn record() -> Box<GameCultMediaReceiverFeedbackRecord> {
    Box::new(GameCultMediaReceiverFeedbackRecord {
        stream_id: "s".to_string(),
        session_id: "x".to_string(),
        receiver_id: "r".to_string(),
        highest_decodable_frame_id: None,
        missing_frame_ids: Vec::new(),
        missing_video_chunk_keys: Vec::new(),
        late_frame_ids: Vec::new(),
        requested_keyframe: false,
        jitter_us: 0,
        decode_queue_us: 0,
        observed_at: "t".to_string(),
    })
}

#[test]
fn taking_from_an_empty_queue_reports_none_rather_than_failing() {
    let mut handle = open();
    let mut last_error = LastError::new();
    let taken = ratatoskr_receiver_next_payload(&mut handle, 16, true, true, &mut last_error);
    assert_eq!(taken.code, RATATOSKR_NONE);
    assert_eq!(taken.out_len, Some(0));
    assert_eq!(taken.out_kind, None);
    assert_eq!(last_error.message, "");
}

/// A short buffer must not consume the payload. Dropping it here would lose
/// media the transport had already delivered intact.
#[test]
fn a_too_small_buffer_reports_the_size_and_keeps_the_payload() {
    let mut handle = open();
    let mut last_error = LastError::new();
    handle.pending.push_back((RATATOSKR_KIND_AUDIO, vec![7u8; 64]));

    let taken = ratatoskr_receiver_next_payload(&mut handle, 8, true, true, &mut last_error);
    assert_eq!(taken.code, RATATOSKR_ERR_BUFFER_TOO_SMALL);
    assert_eq!(taken.out_len, Some(64), "the caller is told what it needs");
    assert_eq!(taken.out_kind, Some(RATATOSKR_KIND_AUDIO), "and what it is, before taking it");
    assert_eq!(taken.payload, None);
    assert_eq!(last_error.message, "buffer of 8 too small for payload of 64");

    let taken = ratatoskr_receiver_next_payload(&mut handle, 64, true, true, &mut last_error);
    assert_eq!(taken.code, RATATOSKR_OK, "the payload survived the short read");
    assert_eq!(taken.out_len, Some(64));
    assert_eq!(taken.out_kind, Some(RATATOSKR_KIND_AUDIO));
    assert_eq!(taken.payload, Some(vec![7u8; 64]));
}

#[test]
fn null_arguments_are_refused_rather_than_dereferenced() {
    let mut last_error = LastError::new();
    assert_eq!(
        open_with(CText::Null, text("x"), true, &mut last_error).unwrap_err(),
        RATATOSKR_ERR_ARGUMENT
    );
    assert_eq!(last_error.message, "null argument");
    assert_eq!(
        open_with(text("127.0.0.1:0"), CText::Null, true, &mut last_error).unwrap_err(),
        RATATOSKR_ERR_ARGUMENT
    );
    assert_eq!(
        open_with(text("127.0.0.1:0"), text("x"), false, &mut last_error).unwrap_err(),
        RATATOSKR_ERR_ARGUMENT
    );
    assert_eq!(refuse_null_handle(&mut last_error), RATATOSKR_ERR_ARGUMENT);
    assert_eq!(last_error.message, "null handle");
    assert_eq!(ratatoskr_receiver_undecodable(None), 0);
    assert_eq!(ratatoskr_receiver_delivered(None), None);
    assert_eq!(ratatoskr_receiver_video_stats(None), None);
    assert_eq!(ratatoskr_receiver_feedback_stats(None), None);

    let mut handle = open();
    handle.pending.push_back((RATATOSKR_KIND_VIDEO, vec![1]));
    assert_eq!(
        ratatoskr_receiver_next_payload(&mut handle, 8, true, false, &mut last_error),
        Taken { code: RATATOSKR_ERR_ARGUMENT, out_len: None, out_kind: None, payload: None }
    );
    assert_eq!(last_error.message, "null out_len");
    let taken = ratatoskr_receiver_next_payload(&mut handle, 8, false, true, &mut last_error);
    assert_eq!(taken.code, RATATOSKR_ERR_BUFFER_TOO_SMALL);
    assert_eq!(handle.pending.len(), 1);
}

#[test]
fn a_failure_leaves_a_readable_message() {
    let mut last_error = LastError::new();
    assert_eq!(
        open_with(text("not-an-address"), text("x"), true, &mut last_error).unwrap_err(),
        RATATOSKR_ERR_ARGUMENT
    );
    let (len, written) = ratatoskr_last_error(&last_error, 256);
    assert!(len > 0, "a failure must say why");
    assert_eq!(written.len(), len + 1);
    assert_eq!(written[len], 0);
    let message = String::from_utf8(written[..len].to_vec()).expect("utf8");
    assert!(message.contains("not-an-address"), "got {message:?}");
    assert_eq!(message, "bind address not-an-address is not a socket address");
}

#[test]
fn text_that_is_not_utf8_is_refused() {
    let mut last_error = LastError::new();
    assert!(open_with(CText::NotUtf8, text("x"), true, &mut last_error).is_err());
    assert_eq!(last_error.message, "bind address is not valid UTF-8");
    assert!(open_with(text("127.0.0.1:0"), CText::NotUtf8, true, &mut last_error).is_err());
    assert_eq!(last_error.message, "runtime id is not valid UTF-8");
}

#[test]
fn an_accepted_open_uses_the_defaults() {
    let mut last_error = LastError::new();
    let options = open_with(text("127.0.0.1:0"), text("x"), true, &mut last_error).unwrap();
    assert_eq!(options.bind, "127.0.0.1:0");
    assert_eq!(options.runtime_id, "x");
    assert_eq!(options.connection_id, 0x0BE0_0001);
    assert_eq!(options.video.max_pending_frames, 64);
    assert_eq!(options.feedback.keyframe_request_cooldown, Duration::from_millis(500));
    assert_eq!(opened(Ok(()), &mut last_error), RATATOSKR_OK);
    assert_eq!(opened(Err("in use".to_string()), &mut last_error), RATATOSKR_ERR_OPEN);
    assert_eq!(last_error.message, "in use");
}

/// The message is cut to what fits before the NUL; its whole length is told.
#[test]
fn a_long_message_is_cut_to_the_buffer() {
    let mut last_error = LastError::new();
    last_error.set_last_error("abcdef".to_string());
    assert_eq!(ratatoskr_last_error(&last_error, 4), (6, vec![b'a', b'b', b'c', 0]));
    assert_eq!(ratatoskr_last_error(&last_error, 7), (6, b"abcdef\0".to_vec()));
    assert_eq!(ratatoskr_last_error(&last_error, 1), (6, vec![0]));
    assert_eq!(ratatoskr_last_error(&last_error, 0), (6, Vec::new()));
}

#[test]
fn open_poll_close_round_trips() {
    let mut handle = open();
    let mut last_error = LastError::new();
    assert_eq!(ratatoskr_receiver_poll(&mut handle, Ok(Vec::new()), &mut last_error), 0);
    assert_eq!(last_error.message, "");
    assert!(handle.pending.is_empty());
}

/// A message stays valid until the next call that fails: what a poll that
/// succeeds has to complain of does not take its place.
#[test]
fn a_call_that_succeeds_leaves_the_last_error() {
    let mut last_error = LastError::new();
    assert!(open_with(text("not-an-address"), text("x"), true, &mut last_error).is_err());
    let failure = "bind address not-an-address is not a socket address";
    assert_eq!(last_error.message, failure);

    let mut handle = open();
    let waiting = ratatoskr_receiver_poll(
        &mut handle,
        Ok(vec![
            frame(b"unit"),
            MediaEvent::Undecodable { bytes: vec![1], reason: "unreadable".to_string() },
        ]),
        &mut last_error,
    );
    assert_eq!(waiting, 1);
    assert_eq!(last_error.message, failure);
    let (len, written) = ratatoskr_last_error(&last_error, 9);
    assert_eq!(len, failure.len());
    assert_eq!(written, b"bind add\0".to_vec());

    let taken = ratatoskr_receiver_next_payload(&mut handle, 16, true, true, &mut last_error);
    assert_eq!(taken.code, RATATOSKR_OK);
    let taken = ratatoskr_receiver_next_payload(&mut handle, 16, true, true, &mut last_error);
    assert_eq!(taken.code, RATATOSKR_NONE);
    assert_eq!(opened(Ok(()), &mut last_error), RATATOSKR_OK);
    assert_eq!(last_error.message, failure);

    assert_eq!(refuse_null_handle(&mut last_error), RATATOSKR_ERR_ARGUMENT);
    assert_eq!(last_error.message, "null handle");
}

#[test]
fn a_poll_queues_media_and_keeps_complaints_apart() {
    let mut handle = open();
    assert_eq!(handle.complaint, None);
    let mut last_error = LastError::new();
    let waiting = ratatoskr_receiver_poll(
        &mut handle,
        Ok(vec![
            MediaEvent::ProducerAttached { remote: "10.0.0.1:9".to_string() },
            frame(b"unit"),
            audio(b""),
            audio(b"pcm"),
            MediaEvent::Undecodable { bytes: vec![1], reason: "unreadable".to_string() },
            MediaEvent::Rejected { reason: "refused".to_string() },
            MediaEvent::FeedbackSent { record: record() },
            MediaEvent::Feedback { record: record() },
        ]),
        &mut last_error,
    );
    assert_eq!(waiting, 2);
    assert_eq!(handle.attached, Some("10.0.0.1:9".to_string()));
    assert_eq!(handle.complaint, Some("refused".to_string()));
    assert_eq!(last_error.message, "");

    let waiting = ratatoskr_receiver_poll(
        &mut handle,
        Ok(vec![
            MediaEvent::FeedbackNotSent { reason: "no producer".to_string() },
            MediaEvent::ProducerDetached { remote: "10.0.0.1:9".to_string() },
        ]),
        &mut last_error,
    );
    assert_eq!(waiting, 2);
    assert_eq!(handle.attached, None);
    assert_eq!(handle.complaint, Some("no producer".to_string()));
    assert_eq!(last_error.message, "");

    assert_eq!(
        ratatoskr_receiver_poll(&mut handle, Err("socket gone".to_string()), &mut last_error),
        RATATOSKR_ERR_POLL
    );
    assert_eq!(last_error.message, "socket gone");
    assert_eq!(handle.complaint, Some("no producer".to_string()));

    let first = ratatoskr_receiver_next_payload(&mut handle, 16, true, true, &mut last_error);
    assert_eq!(
        first,
        Taken {
            code: RATATOSKR_OK,
            out_len: Some(4),
            out_kind: Some(RATATOSKR_KIND_VIDEO),
            payload: Some(b"unit".to_vec()),
        }
    );
    let second = ratatoskr_receiver_next_payload(&mut handle, 3, true, true, &mut last_error);
    assert_eq!(second.payload, Some(b"pcm".to_vec()));
    assert_eq!(second.out_kind, Some(RATATOSKR_KIND_AUDIO));
    assert_eq!(
        ratatoskr_receiver_next_payload(&mut handle, 3, true, true, &mut last_error).code,
        RATATOSKR_NONE
    );
}

#[test]
fn counters_are_read_through_the_handle() {
    let mut handle = open();
    handle.receiver.take_in(vec![1, 2], Err("unreadable".to_string()), ratatoskr_core::Instant { nanos: 0 });
    assert_eq!(ratatoskr_receiver_undecodable(Some(&handle)), 1);
    assert_eq!(ratatoskr_receiver_delivered(Some(&handle)), Some((1, 2)));
    assert_eq!(ratatoskr_receiver_video_stats(Some(&handle)), Some((0, 0, 0)));
    assert_eq!(ratatoskr_receiver_feedback_stats(Some(&handle)), Some(FeedbackStats::default()));
}
