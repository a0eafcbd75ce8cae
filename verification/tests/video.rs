use ratatoskr_core::records::{
    GameCultMediaVideoAccessUnitRecord, GameCultMediaVideoParityShardRecord,
};
use ratatoskr_core::video::VideoError;
use ratatoskr_core::{
    ChunkKey, Duration, ExpiryReason, FrameKey, Instant, VideoAssembler, VideoAssemblerOptions,
    VideoFrame, VideoStats,
};

const STREAM: &str = "muninn.raven.av.rudp";
const SESSION: &str = "session-1";
const STRIPES: u16 = 16;

/// Splits a frame the way the producer does: even chunks of
/// `max_payload_bytes`, the last one shorter.
fn chunks(
    frame_id: u64,
    keyframe: bool,
    bytes: &[u8],
    max_payload_bytes: usize,
) -> Vec<GameCultMediaVideoAccessUnitRecord> {
    let pieces = bytes.chunks(max_payload_bytes).collect::<Vec<_>>();
    pieces
        .iter()
        .enumerate()
        .map(|(index, piece)| GameCultMediaVideoAccessUnitRecord {
            stream_id: STREAM.to_string(),
            session_id: SESSION.to_string(),
            frame_id,
            codec: "h264".to_string(),
            pts_ticks: 27_000 + frame_id as i64 * 3_000,
            duration_ticks: 3_000,
            timebase_num: 1,
            timebase_den: 90_000,
            keyframe,
            dependency_frame_id: if keyframe { None } else { Some(frame_id - 1) },
            deadline_ticks: 28_800 + frame_id as i64 * 3_000,
            chunk_index: index as u16,
            chunk_count: pieces.len() as u16,
            payload: piece.to_vec(),
        })
        .collect()
}

/// XOR stripe parity as the producer builds it.
fn parity(
    chunks: &[GameCultMediaVideoAccessUnitRecord],
) -> Vec<GameCultMediaVideoParityShardRecord> {
    let first = &chunks[0];
    let parity_count = first.chunk_count.min(STRIPES);
    let chunk_payload_bytes = chunks.iter().map(|c| c.payload.len()).max().unwrap() as u32;
    let last_chunk_payload_bytes = chunks.last().unwrap().payload.len() as u32;
    (0..parity_count)
        .map(|stripe| {
            let members = chunks.iter().filter(|c| c.chunk_index % parity_count == stripe);
            let length = members.clone().map(|c| c.payload.len()).max().unwrap();
            let mut payload = vec![0u8; length];
            for member in members {
                for (offset, byte) in member.payload.iter().enumerate() {
                    payload[offset] ^= byte;
                }
            }
            GameCultMediaVideoParityShardRecord {
                stream_id: first.stream_id.clone(),
                session_id: first.session_id.clone(),
                frame_id: first.frame_id,
                codec: first.codec.clone(),
                pts_ticks: first.pts_ticks,
                duration_ticks: first.duration_ticks,
                timebase_num: first.timebase_num,
                timebase_den: first.timebase_den,
                keyframe: first.keyframe,
                dependency_frame_id: first.dependency_frame_id,
                deadline_ticks: first.deadline_ticks,
                chunk_count: first.chunk_count,
                parity_index: stripe,
                parity_count,
                chunk_payload_bytes,
                last_chunk_payload_bytes,
                payload,
            }
        })
        .collect()
}

fn key(frame_id: u64) -> FrameKey {
    FrameKey { stream_id: STREAM.to_string(), session_id: SESSION.to_string(), frame_id }
}

fn chunk_key(frame_id: u64, chunk_index: u16) -> ChunkKey {
    ChunkKey { frame_id, chunk_index }
}

/// A reading of the clock, some milliseconds after an arbitrary start.
fn after(millis: u64) -> Instant {
    Instant { nanos: 7_000_000_000 + Duration::from_millis(millis).nanos }
}

fn insert(
    assembler: &mut VideoAssembler,
    record: &GameCultMediaVideoAccessUnitRecord,
    now: Instant,
) -> Result<Option<VideoFrame>, VideoError> {
    assembler.insert_chunk(record.clone(), Ok(()), now)
}

#[test]
fn reassembles_chunks_arriving_out_of_order() -> Result<(), VideoError> {
    let now = after(0);
    let records = chunks(9, true, &[1, 2, 3, 4, 5], 2);
    let mut assembler = VideoAssembler::default();

    assert!(insert(&mut assembler, &records[2], now)?.is_none());
    assert_eq!(assembler.missing_chunk_keys(&key(9)), vec![chunk_key(9, 0), chunk_key(9, 1)]);
    assert!(insert(&mut assembler, &records[0], now)?.is_none());
    let frame = insert(&mut assembler, &records[1], now)?.expect("completes");

    assert_eq!(frame.bytes, vec![1, 2, 3, 4, 5]);
    assert!(frame.keyframe);
    assert_eq!(frame.repaired_chunks, 0);
    assert_eq!(assembler.pending_frames(), 0);
    assert_eq!(assembler.stats().completed, 1);
    Ok(())
}

#[test]
fn interleaved_frames_are_kept_apart() -> Result<(), VideoError> {
    let now = after(0);
    let one = chunks(9, true, &[1, 2, 3, 4, 5], 2);
    let two = chunks(10, false, &[6, 7, 8, 9], 2);
    let mut assembler = VideoAssembler::default();

    insert(&mut assembler, &one[0], now)?;
    insert(&mut assembler, &two[1], now)?;
    assert_eq!(assembler.pending_frames(), 2);
    insert(&mut assembler, &one[2], now)?;
    let frame = insert(&mut assembler, &one[1], now)?.expect("frame one completes");
    assert_eq!(frame.frame_id, 9);
    assert_eq!(assembler.pending_frames(), 1);
    let frame =
        insert(&mut assembler, &two[0], now)?.expect("frame two completes after the keyframe");
    assert_eq!(frame.bytes, vec![6, 7, 8, 9]);
    Ok(())
}

#[test]
fn parity_gives_back_one_lost_chunk_per_stripe() -> Result<(), VideoError> {
    let now = after(0);
    let bytes = (1_u8..=40).collect::<Vec<_>>();
    let records = chunks(9, true, &bytes, 2);
    let shards = parity(&records);
    assert_eq!(records.len(), 20);
    assert_eq!(shards.len(), 16);
    let mut assembler = VideoAssembler::default();

    // Lose the whole tail: four chunks in four different stripes.
    for record in &records[..16] {
        assert!(insert(&mut assembler, record, now)?.is_none());
    }
    let mut frame = None;
    for shard in shards {
        if let Some(done) = assembler.insert_parity(shard, Ok(()), now)? {
            frame = Some(done);
        }
    }
    let frame = frame.expect("parity completes the frame");
    assert_eq!(frame.bytes, bytes);
    assert_eq!(frame.repaired_chunks, 4);
    assert_eq!(assembler.stats().repaired_chunks, 4);
    Ok(())
}

#[test]
fn two_losses_in_one_stripe_are_beyond_repair() -> Result<(), VideoError> {
    let now = after(0);
    let bytes = (1_u8..=40).collect::<Vec<_>>();
    let records = chunks(9, true, &bytes, 2);
    let mut assembler = VideoAssembler::default();

    // Chunks 0 and 16 share stripe 0.
    for record in records.iter().filter(|r| r.chunk_index != 0 && r.chunk_index != 16) {
        insert(&mut assembler, record, now)?;
    }
    for shard in parity(&records) {
        assert!(assembler.insert_parity(shard, Ok(()), now)?.is_none());
    }
    assert_eq!(assembler.pending_frames(), 1);
    assert_eq!(assembler.missing_chunk_keys(&key(9)), vec![chunk_key(9, 0), chunk_key(9, 16)]);
    Ok(())
}

#[test]
fn contradicting_metadata_is_refused() -> Result<(), VideoError> {
    let now = after(0);
    let mut records = chunks(9, false, &[1, 2, 3, 4], 2);
    let mut assembler = VideoAssembler::default();
    insert(&mut assembler, &records[0], now)?;
    records[1].pts_ticks += 1;

    let error = insert(&mut assembler, &records[1], now).unwrap_err();
    assert!(error.message().contains("mixed media metadata"), "{}", error.message());
    Ok(())
}

#[test]
fn an_aged_frame_is_given_up_with_its_missing_chunks_named() -> Result<(), VideoError> {
    let one = chunks(9, true, &[1, 2, 3, 4, 5], 2);
    let two = chunks(10, false, &[6, 7, 8, 9], 2);
    let mut assembler = VideoAssembler::new(VideoAssemblerOptions {
        max_frame_age: Duration::from_millis(100),
        ..Default::default()
    });

    insert(&mut assembler, &one[0], after(0))?;
    insert(&mut assembler, &two[0], after(60))?;
    let expired = assembler.expire(after(120));

    assert_eq!(expired.len(), 1);
    assert_eq!(expired[0].key, key(9));
    assert_eq!(expired[0].reason, ExpiryReason::Aged);
    assert!(expired[0].keyframe);
    assert_eq!(expired[0].missing_chunk_keys, vec![chunk_key(9, 1), chunk_key(9, 2)]);
    assert_eq!(assembler.pending_frames(), 1);
    assert_eq!(assembler.stats().expired, 1);
    Ok(())
}

/// After a loss the decoder has no reference until the next keyframe, so
/// completing a non-key frame is not the same as being able to show it.
#[test]
fn nothing_is_delivered_between_a_loss_and_the_next_keyframe() -> Result<(), VideoError> {
    let now = after(0);
    let mut assembler = VideoAssembler::new(VideoAssemblerOptions {
        max_frame_age: Duration::from_millis(0),
        ..Default::default()
    });

    // Before any keyframe at all, a complete P-frame is withheld.
    let early = chunks(8, false, &[9, 9], 2);
    assert!(insert(&mut assembler, &early[0], now)?.is_none());
    assert_eq!(assembler.stats().awaiting_keyframe_discarded, 1);

    let key9 = chunks(9, true, &[1, 2], 2);
    assert!(insert(&mut assembler, &key9[0], now)?.is_some());
    assert!(!assembler.waiting_for_keyframe());

    // Lose frame 10; frame 11 completes but depends on it.
    let ten = chunks(10, false, &[3, 4, 5, 6], 2);
    insert(&mut assembler, &ten[0], now)?;
    assert_eq!(assembler.expire(now).len(), 1);
    assert!(assembler.waiting_for_keyframe());
    let eleven = chunks(11, false, &[7, 8], 2);
    assert!(insert(&mut assembler, &eleven[0], now)?.is_none());
    assert_eq!(assembler.stats().awaiting_keyframe_discarded, 2);

    let key12 = chunks(12, true, &[1, 1], 2);
    assert!(insert(&mut assembler, &key12[0], now)?.is_some());
    assert!(!assembler.waiting_for_keyframe());
    Ok(())
}

#[test]
fn a_late_chunk_for_a_finished_frame_does_not_reopen_it() -> Result<(), VideoError> {
    let now = after(0);
    let records = chunks(9, true, &[1, 2, 3], 2);
    let mut assembler = VideoAssembler::default();
    insert(&mut assembler, &records[0], now)?;
    assert!(insert(&mut assembler, &records[1], now)?.is_some());

    assert!(insert(&mut assembler, &records[1], now)?.is_none());
    assert_eq!(assembler.pending_frames(), 0);
    assert_eq!(assembler.stats().late_discarded, 1);

    // The same holds for a frame that was given up on.
    let ten = chunks(10, false, &[4, 5, 6], 2);
    insert(&mut assembler, &ten[0], now)?;
    assembler.expire(after(1_000));
    assert!(insert(&mut assembler, &ten[1], now)?.is_none());
    assert_eq!(assembler.pending_frames(), 0);
    assert_eq!(assembler.stats().late_discarded, 2);
    Ok(())
}

#[test]
fn a_duplicate_chunk_is_not_damage() -> Result<(), VideoError> {
    let now = after(0);
    let records = chunks(9, true, &[1, 2, 3], 2);
    let mut assembler = VideoAssembler::default();
    insert(&mut assembler, &records[0], now)?;
    assert!(insert(&mut assembler, &records[0], now)?.is_none());
    let frame = insert(&mut assembler, &records[1], now)?.expect("completes");
    assert_eq!(frame.bytes, vec![1, 2, 3]);
    Ok(())
}

/// The pending set is a bound, not a fuse: reaching it evicts the oldest
/// frame and keeps receiving.
#[test]
fn the_pending_bound_evicts_the_oldest_frame() -> Result<(), VideoError> {
    let mut assembler = VideoAssembler::new(VideoAssemblerOptions {
        max_pending_frames: 2,
        ..Default::default()
    });
    for frame_id in 1..=3_u64 {
        let records = chunks(frame_id, true, &[1, 2, 3], 2);
        insert(&mut assembler, &records[0], after(frame_id))?;
    }
    assert_eq!(assembler.pending_frames(), 2);
    assert!(assembler.missing_chunk_keys(&key(1)).is_empty(), "frame 1 was evicted");
    assert!(!assembler.missing_chunk_keys(&key(3)).is_empty());
    assert_eq!(assembler.stats().evicted, 1);
    Ok(())
}

/// What was evicted is not forgotten: it is named once, with what it lacked.
#[test]
fn an_evicted_frame_is_handed_over_with_its_missing_chunks_named() -> Result<(), VideoError> {
    let mut assembler = VideoAssembler::new(VideoAssemblerOptions {
        max_pending_frames: 1,
        ..Default::default()
    });
    insert(&mut assembler, &chunks(1, true, &[1, 2, 3, 4, 5], 2)[1], after(0))?;
    insert(&mut assembler, &chunks(2, false, &[1, 2, 3], 2)[0], after(1))?;
    let evicted = assembler.take_evicted();
    assert_eq!(evicted.len(), 1);
    assert_eq!(evicted[0].key, key(1));
    assert_eq!(evicted[0].reason, ExpiryReason::Evicted);
    assert!(evicted[0].keyframe);
    assert_eq!(evicted[0].missing_chunk_keys, vec![chunk_key(1, 0), chunk_key(1, 2)]);
    assert!(assembler.waiting_for_keyframe());
    assert!(assembler.take_evicted().is_empty());
    Ok(())
}

/// Of frames first seen at the same time the one that comes first by name goes.
#[test]
fn the_first_by_name_is_evicted_among_equally_old_frames() -> Result<(), VideoError> {
    let mut assembler = VideoAssembler::new(VideoAssemblerOptions {
        max_pending_frames: 2,
        ..Default::default()
    });
    for frame_id in [5_u64, 3, 4] {
        insert(&mut assembler, &chunks(frame_id, true, &[1, 2, 3], 2)[0], after(0))?;
    }
    assert_eq!(assembler.take_evicted()[0].key, key(3));
    Ok(())
}

#[test]
fn a_record_the_contract_does_not_allow_is_refused_with_its_reason() {
    let mut assembler = VideoAssembler::default();
    let record = chunks(9, true, &[1, 2, 3], 2)[0].clone();
    let error = assembler
        .insert_chunk(record.clone(), Err("payload is empty".to_string()), after(0))
        .unwrap_err();
    assert_eq!(error, VideoError::Invalid { reason: "payload is empty".to_string() });
    assert_eq!(error.message(), "payload is empty");
    assert_eq!(assembler.pending_frames(), 0);

    let shard = parity(&chunks(9, true, &[1, 2, 3], 2))[0].clone();
    let error = assembler
        .insert_parity(shard, Err("stripe out of range".to_string()), after(0))
        .unwrap_err();
    assert_eq!(error.message(), "stripe out of range");
    assert_eq!(assembler.stats(), VideoStats::default());
}

#[test]
fn a_contradiction_leaves_the_frame_as_it_was() -> Result<(), VideoError> {
    let now = after(0);
    let records = chunks(9, true, &[1, 2, 3, 4], 2);
    let mut wrong = records[1].clone();
    wrong.keyframe = false;
    let mut assembler = VideoAssembler::default();
    insert(&mut assembler, &records[0], now)?;
    let error = insert(&mut assembler, &wrong, now).unwrap_err();
    assert_eq!(error, VideoError::MixedMetadata { frame_id: 9 });
    assert_eq!(error.message(), "frame 9 received mixed media metadata");

    let mut shard = parity(&records)[0].clone();
    shard.codec = "h265".to_string();
    assert!(assembler.insert_parity(shard, Ok(()), now).is_err());

    let frame = insert(&mut assembler, &records[1], now)?.expect("still completes");
    assert_eq!(frame.bytes, vec![1, 2, 3, 4]);
    Ok(())
}

/// The last chunk is shorter, and parity gives it back at its own length.
#[test]
fn parity_gives_back_a_short_last_chunk() -> Result<(), VideoError> {
    let now = after(0);
    let records = chunks(9, true, &[1, 2, 3, 4, 5], 2);
    let mut assembler = VideoAssembler::default();
    // A shard that arrives before the chunks waits for them.
    assert!(assembler.insert_parity(parity(&records)[2].clone(), Ok(()), now)?.is_none());
    // Three stripes of one chunk each: the shard is the chunk.
    assert_eq!(assembler.missing_chunk_keys(&key(9)), vec![chunk_key(9, 0), chunk_key(9, 1)]);
    insert(&mut assembler, &records[0], now)?;
    let frame = insert(&mut assembler, &records[1], now)?.expect("completes");
    assert_eq!(frame.bytes, vec![1, 2, 3, 4, 5]);
    assert_eq!(frame.repaired_chunks, 1);
    Ok(())
}

/// A frame is remembered as finished until as many others have finished as are
/// remembered; a chunk after that opens it anew.
#[test]
fn memory_of_finished_frames_is_bounded() -> Result<(), VideoError> {
    let now = after(0);
    let mut assembler = VideoAssembler::new(VideoAssemblerOptions {
        remembered_frames: 2,
        ..Default::default()
    });
    let one = chunks(1, true, &[1, 2, 3], 2);
    insert(&mut assembler, &one[0], now)?;
    insert(&mut assembler, &one[1], now)?;
    insert(&mut assembler, &chunks(2, true, &[1], 2)[0], now)?;
    insert(&mut assembler, &one[0], now)?;
    assert_eq!(assembler.stats().late_discarded, 1);
    assert_eq!(assembler.pending_frames(), 0);
    insert(&mut assembler, &chunks(3, true, &[1], 2)[0], now)?;
    insert(&mut assembler, &one[0], now)?;
    assert_eq!(assembler.stats().late_discarded, 1);
    assert_eq!(assembler.pending_frames(), 1);
    Ok(())
}

/// A frame still waiting is asked for by chunk after 64 ms, then every 32 ms,
/// three times.
#[test]
fn missing_chunks_are_asked_for_on_the_documented_cadence() -> Result<(), VideoError> {
    let mut assembler = VideoAssembler::default();
    insert(&mut assembler, &chunks(9, true, &[1, 2, 3, 4, 5], 2)[1], after(0))?;
    let mut asked = Vec::new();
    for millis in 0..240 {
        let requests = assembler.repair_requests(after(millis));
        if !requests.is_empty() {
            assert_eq!(requests.len(), 1);
            assert_eq!(requests[0].key, key(9));
            assert_eq!(requests[0].missing_chunk_keys, vec![chunk_key(9, 0), chunk_key(9, 2)]);
            asked.push(millis);
        }
    }
    assert_eq!(asked, vec![64, 96, 128]);
    Ok(())
}

/// What arrived since is not asked for again.
#[test]
fn a_second_repair_request_names_what_is_still_missing() -> Result<(), VideoError> {
    let records = chunks(9, true, &[1, 2, 3, 4, 5], 2);
    let mut assembler = VideoAssembler::default();
    insert(&mut assembler, &records[1], after(0))?;
    assert_eq!(assembler.repair_requests(after(64)).len(), 1);
    insert(&mut assembler, &records[2], after(70))?;
    let requests = assembler.repair_requests(after(96));
    assert_eq!(requests[0].missing_chunk_keys, vec![chunk_key(9, 0)]);
    Ok(())
}

#[test]
fn repair_requests_come_in_frame_order() -> Result<(), VideoError> {
    let mut assembler = VideoAssembler::default();
    for frame_id in [12_u64, 9, 10] {
        insert(&mut assembler, &chunks(frame_id, true, &[1, 2, 3], 2)[0], after(0))?;
    }
    let ids = assembler
        .repair_requests(after(64))
        .iter()
        .map(|request| request.key.frame_id)
        .collect::<Vec<_>>();
    assert_eq!(ids, vec![9, 10, 12]);
    Ok(())
}

#[test]
fn the_default_options_are_the_documented_ones() {
    let options = VideoAssemblerOptions::default();
    assert_eq!(options.max_frame_age, Duration::from_millis(250));
    assert_eq!(options.max_pending_frames, 64);
    assert_eq!(options.remembered_frames, 256);
    assert_eq!(options.repair_after, Duration::from_millis(64));
    assert_eq!(options.repair_interval, Duration::from_millis(32));
    assert_eq!(options.repair_attempts, 3);
}

/// A frame exactly as old as the limit is given up on; one a moment younger is
/// not, and neither is one from a clock reading still to come.
#[test]
fn age_is_measured_from_the_first_chunk_seen() -> Result<(), VideoError> {
    let records = chunks(9, true, &[1, 2, 3, 4, 5], 2);
    let mut assembler = VideoAssembler::default();
    insert(&mut assembler, &records[0], after(10))?;
    insert(&mut assembler, &records[1], after(200))?;
    assert!(assembler.expire(after(0)).is_empty());
    assert!(assembler.expire(after(259)).is_empty());
    assert_eq!(assembler.expire(after(260)).len(), 1);
    Ok(())
}

#[test]
fn frames_are_compared_by_stream_then_session_then_number() {
    let one = FrameKey { stream_id: "a".into(), session_id: "z".into(), frame_id: 9 };
    let two = FrameKey { stream_id: "ab".into(), session_id: "a".into(), frame_id: 1 };
    assert!(matches!(one.compare(&two), ratatoskr_core::text::Comparison::Before));
    assert!(matches!(two.compare(&one), ratatoskr_core::text::Comparison::After));
    assert!(matches!(two.compare(&two.duplicate()), ratatoskr_core::text::Comparison::Same));
    assert!(one < two);
}

#[test]
fn numbers_are_written_out_in_decimal() {
    assert_eq!(ratatoskr_core::text::decimal(0), "0");
    assert_eq!(ratatoskr_core::text::decimal(1_203), "1203");
    assert_eq!(ratatoskr_core::text::decimal(u64::MAX), u64::MAX.to_string());
}

/// Shards that came once have given all they can: coming again they change
/// nothing.
#[test]
fn a_second_pass_over_the_parity_gives_nothing_more() -> Result<(), VideoError> {
    let now = after(0);
    let bytes = (1_u8..=40).collect::<Vec<_>>();
    let records = chunks(9, true, &bytes, 2);
    let mut assembler = VideoAssembler::default();
    // Chunks 0 and 16 share a stripe; chunk 1 is alone in losing its own.
    for record in records.iter().filter(|r| ![0, 1, 16].contains(&r.chunk_index)) {
        insert(&mut assembler, record, now)?;
    }
    for _ in 0..2 {
        for shard in parity(&records) {
            assert!(assembler.insert_parity(shard, Ok(()), now)?.is_none());
        }
        assert_eq!(assembler.missing_chunk_keys(&key(9)), vec![chunk_key(9, 0), chunk_key(9, 16)]);
    }
    let frame = insert(&mut assembler, &records[16], now)?.expect("parity gives back the other");
    assert_eq!(frame.bytes, bytes);
    assert_eq!(frame.repaired_chunks, 2);
    Ok(())
}

/// Parity for one frame leaves the others as they were.
#[test]
fn parity_keeps_frames_apart() -> Result<(), VideoError> {
    let now = after(0);
    let one = chunks(9, true, &[1, 2, 3, 4, 5], 2);
    let two = chunks(10, true, &[6, 7, 8, 9], 2);
    let mut assembler = VideoAssembler::default();
    insert(&mut assembler, &one[0], now)?;
    for shard in parity(&two) {
        assembler.insert_parity(shard, Ok(()), now)?;
    }
    assert_eq!(assembler.stats().completed, 1);
    assert_eq!(assembler.missing_chunk_keys(&key(9)), vec![chunk_key(9, 1), chunk_key(9, 2)]);
    Ok(())
}

/// Whatever arrives, no more frames wait than may, and each frame that came is
/// waiting or counted.
#[test]
fn every_frame_is_waiting_or_counted() -> Result<(), VideoError> {
    let mut assembler = VideoAssembler::new(VideoAssemblerOptions {
        max_pending_frames: 3,
        max_frame_age: Duration::from_millis(50),
        ..Default::default()
    });
    for frame_id in 1..=200_u64 {
        let records = chunks(frame_id, frame_id % 7 == 0, &[1, 2, 3], 2);
        insert(&mut assembler, &records[0], after(frame_id))?;
        if frame_id % 3 == 0 {
            insert(&mut assembler, &records[1], after(frame_id))?;
        }
        // A duplicate or a late chunk brings no new frame.
        insert(&mut assembler, &records[0], after(frame_id))?;
        if frame_id % 20 == 0 {
            assembler.expire(after(frame_id + 49));
        }
        let stats = assembler.stats();
        assert!(assembler.pending_frames() <= 3);
        assert_eq!(
            assembler.pending_frames() as u64 + stats.completed + stats.expired + stats.evicted,
            frame_id
        );
    }
    assert_eq!(assembler.stats().completed, 66);
    Ok(())
}
