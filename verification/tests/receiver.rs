use ratatoskr_core::feedback::ReceiverFeedbackOptions;
use ratatoskr_core::receiver::{media_payload, Decoded, Polled, TransportEvent};
use ratatoskr_core::records::{
    CultNetTransportFrame, GameCultMediaAudioPacketRecord, GameCultMediaReceiverFeedbackRecord,
    GameCultMediaVideoAccessUnitRecord, GameCultMediaWireRecord,
};
use ratatoskr_core::{
    ChunkKey, Duration, FeedbackOptions, FeedbackStats, Instant, MediaEvent, RatatoskrReceiver,
    ReceiverOptions, VideoAssemblerOptions, VideoStats, MEDIA_CHANNEL,
};

fn loopback() -> ReceiverOptions {
    ReceiverOptions {
        bind: "127.0.0.1:0".to_string(),
        runtime_id: "ratatoskr-test".to_string(),
        connection_id: 0x0BE0_0001,
        video: VideoAssemblerOptions::default(),
        feedback: FeedbackOptions::default(),
    }
}

fn after(millis: u64) -> Instant {
    Instant { nanos: 7_000_000_000 + Duration::from_millis(millis).nanos }
}

fn chunk(frame_id: u64, index: u16, payload: Vec<u8>) -> GameCultMediaVideoAccessUnitRecord {
    GameCultMediaVideoAccessUnitRecord {
        stream_id: "s".into(),
        session_id: "x".into(),
        frame_id,
        codec: "h264".into(),
        pts_ticks: 0,
        duration_ticks: 3_000,
        timebase_num: 1,
        timebase_den: 90_000,
        keyframe: true,
        dependency_frame_id: None,
        deadline_ticks: 1_800,
        chunk_index: index,
        chunk_count: 2,
        payload,
    }
}

fn audio(payload: Vec<u8>) -> GameCultMediaAudioPacketRecord {
    GameCultMediaAudioPacketRecord {
        stream_id: "s".into(),
        session_id: "x".into(),
        packet_id: 7,
        codec: "opus".into(),
        pts_ticks: 0,
        duration_ticks: 960,
        timebase_num: 1,
        timebase_den: 48_000,
        deadline_ticks: 960,
        payload,
    }
}

/// A wire format for these tests: the first byte says what follows. `v` is a
/// chunk (frame, index, payload), `p` is one of a frame that depends on another,
/// `a` is audio, `f` is feedback, `i` is a chunk the contract does not allow, and
/// anything else does not decode.
fn decode(payload: &Vec<u8>) -> Result<Decoded, String> {
    match payload[0] {
        b'v' => Ok(Decoded {
            record: GameCultMediaWireRecord::Video(chunk(
                payload[1] as u64,
                payload[2] as u16,
                payload[3..].to_vec(),
            )),
            verdict: Ok(()),
        }),
        b'p' => {
            let mut record = chunk(payload[1] as u64, payload[2] as u16, payload[3..].to_vec());
            record.keyframe = false;
            Ok(Decoded { record: GameCultMediaWireRecord::Video(record), verdict: Ok(()) })
        }
        b'i' => Ok(Decoded {
            record: GameCultMediaWireRecord::Video(chunk(1, 0, Vec::new())),
            verdict: Err("payload is empty".to_string()),
        }),
        b'a' => Ok(Decoded {
            record: GameCultMediaWireRecord::Audio(audio(payload[1..].to_vec())),
            verdict: Ok(()),
        }),
        b'f' => Ok(Decoded {
            record: GameCultMediaWireRecord::Feedback(record("echo")),
            verdict: Ok(()),
        }),
        other => Err(format!("unknown record {other}")),
    }
}

fn record(stream_id: &str) -> GameCultMediaReceiverFeedbackRecord {
    GameCultMediaReceiverFeedbackRecord {
        stream_id: stream_id.to_string(),
        session_id: "x".to_string(),
        receiver_id: "r".to_string(),
        highest_decodable_frame_id: None,
        missing_frame_ids: Vec::new(),
        missing_video_chunk_keys: Vec::new(),
        late_frame_ids: Vec::new(),
        requested_keyframe: false,
        jitter_us: 0,
        decode_queue_us: 0,
        observed_at: "t".to_string(),
    }
}

fn build(
    options: &ReceiverFeedbackOptions,
) -> Result<GameCultMediaReceiverFeedbackRecord, String> {
    Ok(GameCultMediaReceiverFeedbackRecord {
        stream_id: options.stream_id.clone(),
        session_id: options.session_id.clone(),
        receiver_id: options.receiver_id.clone(),
        highest_decodable_frame_id: options.highest_decodable_frame_id,
        missing_frame_ids: options.missing_frame_ids.clone(),
        missing_video_chunk_keys: options
            .missing_video_chunk_keys
            .iter()
            .map(|key| format!("{}:{}", key.frame_id, key.chunk_index))
            .collect(),
        late_frame_ids: options.late_frame_ids.clone(),
        requested_keyframe: options.requested_keyframe,
        jitter_us: options.jitter_us,
        decode_queue_us: options.decode_queue_us,
        observed_at: options.observed_at.clone(),
    })
}

fn media(payload: &[u8]) -> TransportEvent {
    TransportEvent::Frame {
        frame: CultNetTransportFrame {
            channel_id: MEDIA_CHANNEL.to_string(),
            payload: payload.to_vec(),
        },
    }
}

fn poll(
    receiver: &mut RatatoskrReceiver,
    reported: Vec<TransportEvent>,
    millis: u64,
) -> Polled {
    receiver.poll(reported, Ok(()), after(millis), "t", decode, build).expect("polls")
}

#[test]
fn polling_an_idle_receiver_yields_nothing_and_does_not_block() {
    let mut receiver = RatatoskrReceiver::open(loopback());
    let polled = poll(&mut receiver, Vec::new(), 0);
    assert!(polled.events.is_empty());
    assert!(polled.feedback.is_empty());
    assert_eq!(receiver.delivered(), (0, 0));
    assert_eq!(receiver.video_stats(), VideoStats::default());
}

#[test]
fn frames_from_other_channels_are_not_media() {
    assert_eq!(
        media_payload(CultNetTransportFrame {
            channel_id: "schema".to_string(),
            payload: vec![1, 2, 3],
        }),
        None
    );
    assert_eq!(
        media_payload(CultNetTransportFrame {
            channel_id: MEDIA_CHANNEL.to_string(),
            payload: vec![1, 2, 3],
        }),
        Some(vec![1, 2, 3])
    );
}

/// An empty payload is not a delivery. Counting it would inflate the one
/// signal a producer uses to decide whether the stream is alive.
#[test]
fn an_empty_media_frame_is_not_a_payload() {
    assert_eq!(
        media_payload(CultNetTransportFrame {
            channel_id: MEDIA_CHANNEL.to_string(),
            payload: Vec::new(),
        }),
        None
    );
}

/// The receiver hands a renderer whole frames, never chunks: the wire's
/// chunking is the transport's business and stops here.
#[test]
fn video_records_become_frames_and_audio_stays_as_sent() {
    let mut receiver = RatatoskrReceiver::open(loopback());
    let now = after(0);
    let video = |index: u16, payload: Vec<u8>| Decoded {
        record: GameCultMediaWireRecord::Video(chunk(1, index, payload)),
        verdict: Ok(()),
    };
    assert_eq!(receiver.admit_record(video(0, vec![1, 2]), now), None);
    let Some(MediaEvent::VideoFrame { frame }) = receiver.admit_record(video(1, vec![3]), now)
    else {
        panic!("second chunk completes the frame");
    };
    assert_eq!(frame.bytes, vec![1, 2, 3]);
    assert_eq!(receiver.video_stats().completed, 1);

    let packet = Decoded {
        record: GameCultMediaWireRecord::Audio(audio(vec![9, 9, 9])),
        verdict: Ok(()),
    };
    let Some(MediaEvent::Audio { record }) = receiver.admit_record(packet, now) else {
        panic!("audio passes through");
    };
    assert_eq!(record.payload, vec![9, 9, 9]);
}

#[test]
fn a_poll_takes_in_what_was_reported_in_order() {
    let mut receiver = RatatoskrReceiver::open(loopback());
    let polled = poll(
        &mut receiver,
        vec![
            TransportEvent::Connected { remote: "10.0.0.1:9".to_string() },
            media(b"v\x01\x00ab"),
            TransportEvent::Other,
            media(b"apcm"),
            media(b"v\x01\x01c"),
            media(b"f"),
            media(b"?huh"),
            media(b"i"),
            TransportEvent::Disconnected { remote: "10.0.0.1:9".to_string() },
        ],
        0,
    );
    assert_eq!(polled.events.len(), 7);
    assert_eq!(
        polled.events[0],
        MediaEvent::ProducerAttached { remote: "10.0.0.1:9".to_string() }
    );
    assert_eq!(polled.events[1], MediaEvent::Audio { record: Box::new(audio(b"pcm".to_vec())) });
    let MediaEvent::VideoFrame { frame } = &polled.events[2] else {
        panic!("a whole frame");
    };
    assert_eq!(frame.bytes, b"abc".to_vec());
    assert_eq!(polled.events[3], MediaEvent::Feedback { record: Box::new(record("echo")) });
    assert_eq!(
        polled.events[4],
        MediaEvent::Undecodable {
            bytes: b"?huh".to_vec(),
            reason: "unknown record 63".to_string(),
        }
    );
    assert_eq!(
        polled.events[5],
        MediaEvent::Rejected { reason: "payload is empty".to_string() }
    );
    assert_eq!(
        polled.events[6],
        MediaEvent::ProducerDetached { remote: "10.0.0.1:9".to_string() }
    );
    assert!(polled.feedback.is_empty());
    assert_eq!(receiver.delivered(), (6, 5 + 4 + 4 + 1 + 4 + 1));
    assert_eq!(receiver.undecodable(), 1);
    assert_eq!(receiver.rejected(), 1);
}

#[test]
fn a_failed_drain_is_handed_back_once_what_came_before_is_taken_in() {
    let mut receiver = RatatoskrReceiver::open(loopback());
    poll(&mut receiver, vec![media(b"v\x01\x00ab")], 0);
    let error = receiver
        .poll(vec![media(b"apcm")], Err("socket gone".to_string()), after(500), "t", decode, build)
        .unwrap_err();
    assert_eq!(error, "socket gone");
    assert_eq!(receiver.delivered(), (2, 9));
    // Nothing was given up on: that waits for a drain that ends well.
    assert_eq!(receiver.video_stats().expired, 0);
    assert_eq!(poll(&mut receiver, Vec::new(), 500).events.len(), 1);
}

/// A waiting frame is asked for; one given up on is reported late with a
/// keyframe request, and named to the renderer's side too.
#[test]
fn a_waiting_frame_is_asked_for_and_then_reported_late() {
    let mut receiver = RatatoskrReceiver::open(loopback());
    poll(&mut receiver, vec![media(b"v\x05\x00ab"), media(b"v\x05\x01c")], 0);
    poll(&mut receiver, vec![media(b"v\x06\x01c")], 10);

    let asked = poll(&mut receiver, Vec::new(), 74);
    assert!(asked.events.is_empty());
    assert_eq!(asked.feedback.len(), 1);
    assert_eq!(asked.feedback[0].missing_video_chunk_keys, vec!["6:0"]);
    assert_eq!(asked.feedback[0].highest_decodable_frame_id, Some(5));
    assert_eq!(asked.feedback[0].receiver_id, "ratatoskr-test");
    assert!(!asked.feedback[0].requested_keyframe);

    let late = poll(&mut receiver, Vec::new(), 260);
    let MediaEvent::VideoFrameExpired { frame } = &late.events[0] else {
        panic!("given up on");
    };
    assert_eq!(frame.missing_chunk_keys, vec![ChunkKey { frame_id: 6, chunk_index: 0 }]);
    assert_eq!(late.feedback[0].late_frame_ids, vec![6]);
    assert!(late.feedback[0].requested_keyframe);
    assert_eq!(
        receiver.feedback_stats(),
        FeedbackStats { sent: 0, chunks_requested: 1, keyframes_requested: 1, not_sent: 0 }
    );
}

#[test]
fn an_evicted_frame_is_reported_late_too() {
    let mut options = loopback();
    options.video.max_pending_frames = 1;
    let mut receiver = RatatoskrReceiver::open(options);
    let polled = poll(&mut receiver, vec![media(b"v\x05\x00ab"), media(b"v\x06\x00ab")], 0);
    let MediaEvent::VideoFrameExpired { frame } = &polled.events[0] else {
        panic!("pushed out");
    };
    assert_eq!(frame.key.frame_id, 5);
    assert_eq!(polled.feedback[0].late_frame_ids, vec![5]);
    assert!(polled.feedback[0].requested_keyframe);
}

/// An older frame that completes late does not lower the highest one.
#[test]
fn the_highest_decodable_frame_is_the_newest_handed_on() {
    let mut receiver = RatatoskrReceiver::open(loopback());
    let polled = poll(
        &mut receiver,
        vec![
            media(b"v\x08\x00a"),
            media(b"v\x09\x00a"),
            media(b"v\x09\x01b"),
            media(b"v\x08\x01b"),
            media(b"v\x0a\x00a"),
        ],
        0,
    );
    assert_eq!(polled.events.len(), 2);
    let asked = poll(&mut receiver, Vec::new(), 64);
    assert_eq!(asked.feedback[0].highest_decodable_frame_id, Some(9));
}

#[test]
fn what_becomes_of_feedback_is_reported_and_counted() {
    let mut receiver = RatatoskrReceiver::open(loopback());
    assert_eq!(
        receiver.feedback_handed_over(record("s"), Ok(())),
        MediaEvent::FeedbackSent { record: Box::new(record("s")) }
    );
    assert_eq!(
        receiver.feedback_handed_over(record("s"), Err("no producer attached".to_string())),
        MediaEvent::FeedbackNotSent { reason: "no producer attached".to_string() }
    );
    assert_eq!(receiver.feedback_stats().sent, 1);
    assert_eq!(receiver.feedback_stats().not_sent, 1);
}

#[test]
fn feedback_that_cannot_be_composed_is_reported_as_not_sent() {
    let mut receiver = RatatoskrReceiver::open(loopback());
    poll(&mut receiver, vec![media(b"v\x06\x01c")], 0);
    let polled = receiver
        .poll(
            vec![media(b"apcm")],
            Ok(()),
            after(64),
            "t",
            decode,
            |_: &ReceiverFeedbackOptions| Err("unwell".to_string()),
        )
        .expect("polls");
    assert_eq!(polled.events.len(), 2);
    assert_eq!(
        polled.events[1],
        MediaEvent::FeedbackNotSent { reason: "unwell".to_string() }
    );
    assert!(polled.feedback.is_empty());
    assert_eq!(receiver.feedback_stats().not_sent, 1);
}

#[test]
fn other_channels_and_empty_payloads_leave_no_trace() {
    let mut receiver = RatatoskrReceiver::open(loopback());
    let polled = poll(
        &mut receiver,
        vec![
            media(b""),
            TransportEvent::Frame {
                frame: CultNetTransportFrame {
                    channel_id: "schema".to_string(),
                    payload: b"?huh".to_vec(),
                },
            },
        ],
        0,
    );
    assert!(polled.events.is_empty());
    assert_eq!(receiver.delivered(), (0, 0));
    assert_eq!(receiver.undecodable(), 0);
}

#[test]
fn the_first_frame_handed_on_is_a_keyframe() {
    let mut receiver = RatatoskrReceiver::open(loopback());
    let polled = poll(
        &mut receiver,
        vec![
            media(b"p\x01\x00a"),
            media(b"p\x01\x01b"),
            media(b"v\x02\x00a"),
            media(b"v\x02\x01b"),
            media(b"p\x03\x00a"),
            media(b"p\x03\x01b"),
        ],
        0,
    );
    let handed_on = polled
        .events
        .iter()
        .map(|event| match event {
            MediaEvent::VideoFrame { frame } => (frame.frame_id, frame.keyframe),
            other => panic!("{other:?}"),
        })
        .collect::<Vec<_>>();
    assert_eq!(handed_on, vec![(2, true), (3, false)]);
    assert_eq!(receiver.video_stats().awaiting_keyframe_discarded, 1);
}
