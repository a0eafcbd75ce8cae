//! The media contract's records, as plain values.
//!
//! How a record is laid out on the wire, what makes one well-formed and how a
//! chunk's name is spelled belong to the contract. Here is only what a
//! consumer reads and says.

use crate::keys::FrameId;
use vstd::prelude::*;

verus! {

/// One chunk of a video access unit.
#[derive(Clone, Debug, PartialEq, Eq)]
pub struct GameCultMediaVideoAccessUnitRecord {
    pub stream_id: String,
    pub session_id: String,
    pub frame_id: u64,
    pub codec: String,
    pub pts_ticks: i64,
    pub duration_ticks: u32,
    pub timebase_num: u32,
    pub timebase_den: u32,
    pub keyframe: bool,
    pub dependency_frame_id: Option<u64>,
    pub deadline_ticks: i64,
    pub chunk_index: u16,
    pub chunk_count: u16,
    pub payload: Vec<u8>,
}

/// One XOR parity shard of a video access unit: it covers every chunk whose
/// index is `parity_index` modulo `parity_count`.
#[derive(Clone, Debug, PartialEq, Eq)]
pub struct GameCultMediaVideoParityShardRecord {
    pub stream_id: String,
    pub session_id: String,
    pub frame_id: u64,
    pub codec: String,
    pub pts_ticks: i64,
    pub duration_ticks: u32,
    pub timebase_num: u32,
    pub timebase_den: u32,
    pub keyframe: bool,
    pub dependency_frame_id: Option<u64>,
    pub deadline_ticks: i64,
    pub chunk_count: u16,
    pub parity_index: u16,
    pub parity_count: u16,
    pub chunk_payload_bytes: u32,
    pub last_chunk_payload_bytes: u32,
    pub payload: Vec<u8>,
}

/// One audio packet. Audio is not chunked and carries no parity.
#[derive(Clone, Debug, PartialEq, Eq)]
pub struct GameCultMediaAudioPacketRecord {
    pub stream_id: String,
    pub session_id: String,
    pub packet_id: u64,
    pub codec: String,
    pub pts_ticks: i64,
    pub duration_ticks: u32,
    pub timebase_num: u32,
    pub timebase_den: u32,
    pub deadline_ticks: i64,
    pub payload: Vec<u8>,
}

/// What a receiver tells a producer.
#[derive(Clone, Debug, PartialEq, Eq)]
pub struct GameCultMediaReceiverFeedbackRecord {
    pub stream_id: String,
    pub session_id: String,
    pub receiver_id: String,
    pub highest_decodable_frame_id: Option<u64>,
    pub missing_frame_ids: Vec<u64>,
    pub missing_video_chunk_keys: Vec<String>,
    pub late_frame_ids: Vec<u64>,
    pub requested_keyframe: bool,
    pub jitter_us: u64,
    pub decode_queue_us: u64,
    pub observed_at: String,
}

/// A decoded media payload.
#[derive(Clone, Debug, PartialEq, Eq)]
pub enum GameCultMediaWireRecord {
    Video(GameCultMediaVideoAccessUnitRecord),
    VideoParity(GameCultMediaVideoParityShardRecord),
    Audio(GameCultMediaAudioPacketRecord),
    Feedback(GameCultMediaReceiverFeedbackRecord),
}

/// A stream a producer offers.
#[derive(Clone, Debug, PartialEq, Eq)]
pub struct GameCultMediaStreamAdvertisementRecord {
    pub stream_id: String,
    pub producer_id: String,
    pub label: String,
    pub state: String,
    pub video_source_ids: Vec<String>,
    pub video_source_labels: Vec<String>,
    pub audio_source_ids: Vec<String>,
    pub audio_source_labels: Vec<String>,
    pub video_codecs: Vec<String>,
    pub audio_codecs: Vec<String>,
    pub audio_sample_rate: u32,
    pub audio_channels: u16,
    pub default_video_bitrate_kbps: u32,
    pub default_latency_budget_ms: u32,
    pub media_packet_bytes: u32,
    pub media_connection_id: u32,
    pub updated_at: String,
}

/// What a consumer asks of a producer, and the producer's answer to it.
#[derive(Clone, Debug, PartialEq, Eq)]
pub struct GameCultMediaStreamRequestRecord {
    pub request_id: String,
    pub stream_id: String,
    pub producer_id: String,
    pub receiver_id: String,
    pub receiver_endpoint: String,
    pub action: String,
    pub state: String,
    pub video_source_id: String,
    pub audio_source_id: String,
    pub video_codec: String,
    pub audio_codec: String,
    pub video_bitrate_kbps: u32,
    pub latency_budget_ms: u32,
    pub media_packet_bytes: u32,
    pub detail: String,
    pub updated_at: String,
}

/// What a request record says.
#[verifier::ext_equal]
pub struct Request {
    pub request_id: Seq<char>,
    pub stream_id: Seq<char>,
    pub producer_id: Seq<char>,
    pub receiver_id: Seq<char>,
    pub receiver_endpoint: Seq<char>,
    pub action: Seq<char>,
    pub state: Seq<char>,
    pub video_source_id: Seq<char>,
    pub audio_source_id: Seq<char>,
    pub video_codec: Seq<char>,
    pub audio_codec: Seq<char>,
    pub video_bitrate_kbps: u32,
    pub latency_budget_ms: u32,
    pub media_packet_bytes: u32,
    pub detail: Seq<char>,
    pub updated_at: Seq<char>,
}

impl View for GameCultMediaStreamRequestRecord {
    type V = Request;

    open spec fn view(&self) -> Request {
        Request {
            request_id: self.request_id@,
            stream_id: self.stream_id@,
            producer_id: self.producer_id@,
            receiver_id: self.receiver_id@,
            receiver_endpoint: self.receiver_endpoint@,
            action: self.action@,
            state: self.state@,
            video_source_id: self.video_source_id@,
            audio_source_id: self.audio_source_id@,
            video_codec: self.video_codec@,
            audio_codec: self.audio_codec@,
            video_bitrate_kbps: self.video_bitrate_kbps,
            latency_budget_ms: self.latency_budget_ms,
            media_packet_bytes: self.media_packet_bytes,
            detail: self.detail@,
            updated_at: self.updated_at@,
        }
    }
}

/// A frame the transport delivered whole, on the channel it rode.
#[derive(Clone, Debug, PartialEq, Eq)]
pub struct CultNetTransportFrame {
    pub channel_id: String,
    pub payload: Vec<u8>,
}

/// What every chunk and shard of one frame must agree on.
#[verifier::ext_equal]
pub struct FrameMeta {
    pub codec: Seq<char>,
    pub pts_ticks: i64,
    pub duration_ticks: u32,
    pub timebase_num: u32,
    pub timebase_den: u32,
    pub keyframe: bool,
    pub dependency_frame_id: Option<u64>,
    pub deadline_ticks: i64,
    pub chunk_count: u16,
}

/// What a chunk record says.
#[verifier::ext_equal]
pub struct Chunk {
    pub id: FrameId,
    pub meta: FrameMeta,
    pub index: u16,
    pub payload: Seq<u8>,
}

/// A parity shard, apart from the frame and the stripe it is for.
#[verifier::ext_equal]
pub struct Shard {
    pub payload: Seq<u8>,
    pub parity_count: u16,
    pub chunk_payload_bytes: u32,
    pub last_chunk_payload_bytes: u32,
}

/// What a parity record says.
#[verifier::ext_equal]
pub struct Parity {
    pub id: FrameId,
    pub meta: FrameMeta,
    pub stripe: u16,
    pub shard: Shard,
}

impl View for GameCultMediaVideoAccessUnitRecord {
    type V = Chunk;

    open spec fn view(&self) -> Chunk {
        Chunk {
            id: FrameId {
                stream_id: self.stream_id@,
                session_id: self.session_id@,
                frame_id: self.frame_id,
            },
            meta: FrameMeta {
                codec: self.codec@,
                pts_ticks: self.pts_ticks,
                duration_ticks: self.duration_ticks,
                timebase_num: self.timebase_num,
                timebase_den: self.timebase_den,
                keyframe: self.keyframe,
                dependency_frame_id: self.dependency_frame_id,
                deadline_ticks: self.deadline_ticks,
                chunk_count: self.chunk_count,
            },
            index: self.chunk_index,
            payload: self.payload@,
        }
    }
}

impl View for GameCultMediaVideoParityShardRecord {
    type V = Parity;

    open spec fn view(&self) -> Parity {
        Parity {
            id: FrameId {
                stream_id: self.stream_id@,
                session_id: self.session_id@,
                frame_id: self.frame_id,
            },
            meta: FrameMeta {
                codec: self.codec@,
                pts_ticks: self.pts_ticks,
                duration_ticks: self.duration_ticks,
                timebase_num: self.timebase_num,
                timebase_den: self.timebase_den,
                keyframe: self.keyframe,
                dependency_frame_id: self.dependency_frame_id,
                deadline_ticks: self.deadline_ticks,
                chunk_count: self.chunk_count,
            },
            stripe: self.parity_index,
            shard: Shard {
                payload: self.payload@,
                parity_count: self.parity_count,
                chunk_payload_bytes: self.chunk_payload_bytes,
                last_chunk_payload_bytes: self.last_chunk_payload_bytes,
            },
        }
    }
}

/// A chunk record is read field by field.
pub proof fn law_a_chunk_record_is_read_as_it_stands(record: GameCultMediaVideoAccessUnitRecord)
    ensures
        record@.id.stream_id == record.stream_id@,
        record@.id.session_id == record.session_id@,
        record@.id.frame_id == record.frame_id,
        record@.meta.codec == record.codec@,
        record@.meta.pts_ticks == record.pts_ticks,
        record@.meta.duration_ticks == record.duration_ticks,
        record@.meta.timebase_num == record.timebase_num,
        record@.meta.timebase_den == record.timebase_den,
        record@.meta.keyframe == record.keyframe,
        record@.meta.dependency_frame_id == record.dependency_frame_id,
        record@.meta.deadline_ticks == record.deadline_ticks,
        record@.meta.chunk_count == record.chunk_count,
        record@.index == record.chunk_index,
        record@.payload == record.payload@,
{
}

/// A parity record is read field by field.
pub proof fn law_a_parity_record_is_read_as_it_stands(record: GameCultMediaVideoParityShardRecord)
    ensures
        record@.id.stream_id == record.stream_id@,
        record@.id.session_id == record.session_id@,
        record@.id.frame_id == record.frame_id,
        record@.meta.codec == record.codec@,
        record@.meta.pts_ticks == record.pts_ticks,
        record@.meta.duration_ticks == record.duration_ticks,
        record@.meta.timebase_num == record.timebase_num,
        record@.meta.timebase_den == record.timebase_den,
        record@.meta.keyframe == record.keyframe,
        record@.meta.dependency_frame_id == record.dependency_frame_id,
        record@.meta.deadline_ticks == record.deadline_ticks,
        record@.meta.chunk_count == record.chunk_count,
        record@.stripe == record.parity_index,
        record@.shard.payload == record.payload@,
        record@.shard.parity_count == record.parity_count,
        record@.shard.chunk_payload_bytes == record.chunk_payload_bytes,
        record@.shard.last_chunk_payload_bytes == record.last_chunk_payload_bytes,
{
}

/// A request record is read field by field.
pub proof fn law_a_request_record_is_read_as_it_stands(record: GameCultMediaStreamRequestRecord)
    ensures
        record@.request_id == record.request_id@,
        record@.stream_id == record.stream_id@,
        record@.producer_id == record.producer_id@,
        record@.receiver_id == record.receiver_id@,
        record@.receiver_endpoint == record.receiver_endpoint@,
        record@.action == record.action@,
        record@.state == record.state@,
        record@.video_source_id == record.video_source_id@,
        record@.audio_source_id == record.audio_source_id@,
        record@.video_codec == record.video_codec@,
        record@.audio_codec == record.audio_codec@,
        record@.video_bitrate_kbps == record.video_bitrate_kbps,
        record@.latency_budget_ms == record.latency_budget_ms,
        record@.media_packet_bytes == record.media_packet_bytes,
        record@.detail == record.detail@,
        record@.updated_at == record.updated_at@,
{
}

} // verus!
