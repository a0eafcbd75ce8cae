use ratatoskr_core::feedback::{digest, ReceiverFeedbackOptions, Report};
use ratatoskr_core::records::GameCultMediaReceiverFeedbackRecord;
use ratatoskr_core::{
    ChunkKey, Duration, ExpiredFrame, ExpiryReason, FeedbackComposer, FeedbackOptions,
    FeedbackStats, FrameKey, Instant, RepairRequest,
};

fn key(frame_id: u64) -> FrameKey {
    FrameKey { stream_id: "s".into(), session_id: "x".into(), frame_id }
}

fn chunk(frame_id: u64, chunk_index: u16) -> ChunkKey {
    ChunkKey { frame_id, chunk_index }
}

fn after(millis: u64) -> Instant {
    Instant { nanos: 7_000_000_000 + Duration::from_millis(millis).nanos }
}

fn lost(frame_id: u64) -> ExpiredFrame {
    ExpiredFrame {
        key: key(frame_id),
        keyframe: false,
        missing_chunk_keys: vec![chunk(frame_id, 1)],
        reason: ExpiryReason::Aged,
    }
}

/// Builds a record the way the media contract does: chunk names are spelled
/// `frame:chunk` and sorted.
fn build(
    options: &ReceiverFeedbackOptions,
) -> Result<GameCultMediaReceiverFeedbackRecord, String> {
    if options.stream_id.is_empty() {
        return Err("stream_id is empty".to_string());
    }
    let mut missing_video_chunk_keys = options
        .missing_video_chunk_keys
        .iter()
        .map(|key| format!("{}:{}", key.frame_id, key.chunk_index))
        .collect::<Vec<_>>();
    missing_video_chunk_keys.sort();
    Ok(GameCultMediaReceiverFeedbackRecord {
        stream_id: options.stream_id.clone(),
        session_id: options.session_id.clone(),
        receiver_id: options.receiver_id.clone(),
        highest_decodable_frame_id: options.highest_decodable_frame_id,
        missing_frame_ids: options.missing_frame_ids.clone(),
        missing_video_chunk_keys,
        late_frame_ids: options.late_frame_ids.clone(),
        requested_keyframe: options.requested_keyframe,
        jitter_us: options.jitter_us,
        decode_queue_us: options.decode_queue_us,
        observed_at: options.observed_at.clone(),
    })
}

#[test]
fn repairs_ask_for_chunks_without_asking_for_a_keyframe() -> Result<(), String> {
    let mut composer = FeedbackComposer::new("starfire.obs".into(), FeedbackOptions::default());
    let repairs = vec![RepairRequest {
        key: key(9),
        missing_chunk_keys: vec![chunk(9, 2), chunk(9, 1)],
    }];
    let records =
        composer.compose(&repairs, &[], Some(8), after(0), "2026-09-10T00:00:00Z", build)?;

    assert_eq!(records.len(), 1);
    assert_eq!(records[0].missing_video_chunk_keys, vec!["9:1", "9:2"]);
    assert!(records[0].late_frame_ids.is_empty());
    assert!(!records[0].requested_keyframe);
    assert_eq!(records[0].highest_decodable_frame_id, Some(8));
    assert_eq!(records[0].receiver_id, "starfire.obs");
    assert_eq!(composer.stats().chunks_requested, 2);
    Ok(())
}

#[test]
fn a_lost_frame_asks_for_a_keyframe_once_per_cooldown() -> Result<(), String> {
    let mut composer = FeedbackComposer::new(
        "starfire.obs".into(),
        FeedbackOptions { keyframe_request_cooldown: Duration::from_millis(100) },
    );

    let first = composer.compose(&[], &[lost(9)], Some(8), after(0), "t", build)?;
    assert!(first[0].requested_keyframe);
    assert_eq!(first[0].late_frame_ids, vec![9]);

    let second = composer.compose(&[], &[lost(10)], Some(8), after(50), "t", build)?;
    assert!(!second[0].requested_keyframe, "still inside the cooldown");
    assert_eq!(second[0].late_frame_ids, vec![10]);

    let third = composer.compose(&[], &[lost(11)], Some(8), after(150), "t", build)?;
    assert!(third[0].requested_keyframe);
    assert_eq!(composer.stats().keyframes_requested, 2);
    Ok(())
}

#[test]
fn nothing_to_say_yields_no_record() -> Result<(), String> {
    let mut composer = FeedbackComposer::new("r".into(), FeedbackOptions::default());
    assert!(composer.compose(&[], &[], None, after(0), "t", build)?.is_empty());
    Ok(())
}

#[test]
fn streams_are_reported_separately() -> Result<(), String> {
    let mut composer = FeedbackComposer::new("r".into(), FeedbackOptions::default());
    let other = FrameKey { stream_id: "other".into(), session_id: "x".into(), frame_id: 3 };
    let repairs = vec![
        RepairRequest { key: key(9), missing_chunk_keys: vec![chunk(9, 1)] },
        RepairRequest { key: other, missing_chunk_keys: vec![chunk(3, 0)] },
    ];
    let records = composer.compose(&repairs, &[], None, after(0), "t", build)?;
    assert_eq!(records.len(), 2);
    assert_eq!(
        records.iter().map(|r| r.stream_id.as_str()).collect::<Vec<_>>(),
        vec!["other", "s"]
    );
    Ok(())
}

/// One record says all that a session has to say, and only the first record of
/// a composition asks for a keyframe.
#[test]
fn a_session_says_everything_in_one_record() -> Result<(), String> {
    let mut composer = FeedbackComposer::new("r".into(), FeedbackOptions::default());
    let mut elsewhere = lost(4);
    elsewhere.key.session_id = "y".into();
    let repairs = vec![
        RepairRequest { key: key(12), missing_chunk_keys: vec![chunk(12, 0)] },
        RepairRequest { key: key(13), missing_chunk_keys: vec![chunk(13, 3), chunk(13, 4)] },
    ];
    let records = composer.compose(
        &repairs,
        &[lost(11), elsewhere, lost(10)],
        None,
        after(0),
        "then",
        build,
    )?;
    assert_eq!(records.len(), 2);
    assert_eq!(records[0].session_id, "x");
    assert_eq!(records[0].missing_video_chunk_keys, vec!["12:0", "13:3", "13:4"]);
    assert_eq!(records[0].late_frame_ids, vec![11, 10]);
    assert!(records[0].requested_keyframe);
    assert_eq!((records[0].jitter_us, records[0].decode_queue_us), (0, 0));
    assert_eq!(records[0].observed_at, "then");
    assert!(records[0].missing_frame_ids.is_empty());
    assert_eq!(records[1].session_id, "y");
    assert_eq!(records[1].late_frame_ids, vec![4]);
    assert!(!records[1].requested_keyframe);
    assert_eq!(composer.stats().chunks_requested, 3);
    Ok(())
}

/// The cooldown ends when it has passed in full.
#[test]
fn the_default_cooldown_is_half_a_second() -> Result<(), String> {
    let mut composer = FeedbackComposer::new("r".into(), FeedbackOptions::default());
    assert!(composer.compose(&[], &[lost(1)], None, after(0), "t", build)?[0].requested_keyframe);
    assert!(!composer.compose(&[], &[lost(2)], None, after(499), "t", build)?[0].requested_keyframe);
    assert!(composer.compose(&[], &[lost(3)], None, after(500), "t", build)?[0].requested_keyframe);
    Ok(())
}

#[test]
fn a_draft_the_contract_refuses_ends_the_composition() {
    let mut composer = FeedbackComposer::new("r".into(), FeedbackOptions::default());
    let mut nameless = lost(1);
    nameless.key.stream_id = String::new();
    let error = composer.compose(&[], &[lost(2), nameless], None, after(0), "t", build).unwrap_err();
    assert_eq!(error, "stream_id is empty");
    assert_eq!(composer.stats(), FeedbackStats::default());
}

#[test]
fn what_the_transport_did_is_counted() {
    let mut composer = FeedbackComposer::new("r".into(), FeedbackOptions::default());
    composer.record_sent();
    composer.record_sent();
    composer.record_not_sent();
    assert_eq!(
        composer.stats(),
        FeedbackStats { sent: 2, chunks_requested: 0, keyframes_requested: 0, not_sent: 1 }
    );
}

#[test]
fn what_there_is_to_say_is_one_report_per_session_in_order() {
    let mut elsewhere = lost(4);
    elsewhere.key.stream_id = "a".into();
    let repairs = vec![RepairRequest { key: key(12), missing_chunk_keys: vec![chunk(12, 7)] }];
    assert_eq!(
        digest(&repairs, &[lost(11), elsewhere]),
        vec![
            Report {
                stream_id: "a".into(),
                session_id: "x".into(),
                missing_chunk_keys: Vec::new(),
                late_frame_ids: vec![4],
            },
            Report {
                stream_id: "s".into(),
                session_id: "x".into(),
                missing_chunk_keys: vec![chunk(12, 7)],
                late_frame_ids: vec![11],
            },
        ]
    );
}

/// Of the records of one composition exactly the first that names lost frames
/// asks for a keyframe, and over a series none within the cooldown.
#[test]
fn a_series_of_compositions_asks_once_per_cooldown() -> Result<(), String> {
    let mut composer = FeedbackComposer::new("r".into(), FeedbackOptions::default());
    let of = |stream_id: &str, frame_id: u64| {
        let mut frame = lost(frame_id);
        frame.key.stream_id = stream_id.to_string();
        frame
    };
    let wanted = FrameKey { stream_id: "a".into(), session_id: "x".into(), frame_id: 3 };
    let repairs = vec![RepairRequest { key: wanted, missing_chunk_keys: vec![chunk(3, 0)] }];
    let mut asked = Vec::new();
    for millis in [0, 200, 499, 500, 501, 1_000] {
        let gone = [of("c", 1), of("b", 2)];
        let records = composer.compose(&repairs, &gone, None, after(millis), "t", build)?;
        assert_eq!(
            records.iter().map(|r| r.stream_id.as_str()).collect::<Vec<_>>(),
            vec!["a", "b", "c"]
        );
        let asking = records
            .iter()
            .filter(|r| r.requested_keyframe)
            .map(|r| r.stream_id.clone())
            .collect::<Vec<_>>();
        if !asking.is_empty() {
            assert_eq!(asking, vec!["b"]);
            asked.push(millis);
        }
        composer.record_sent();
    }
    assert_eq!(asked, vec![0, 500, 1_000]);
    assert_eq!(composer.stats().keyframes_requested, 3);
    Ok(())
}
